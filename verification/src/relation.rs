//! The connectivity view: an undirected graph over company names,
//! built edge by edge and queried for its connected components.

use vstd::prelude::*;
use vstd::pervasive::VecAdditionalExecFns;
use crate::assoc::{
    appears, contains_name, find_key, has_key, has_name, keys_unique, lemma_listing_grown,
    lemma_listing_pushed, listed, names_unique,
};

verus! {

/// A name is a vertex when it owns an adjacency entry.
pub open spec fn is_vertex(adj: Seq<(String, Vec<String>)>, v: Seq<char>) -> bool {
    has_key(adj, v)
}

/// An undirected edge: `y` stands in the neighbor list of `x`.
pub open spec fn edge(adj: Seq<(String, Vec<String>)>, x: Seq<char>, y: Seq<char>) -> bool {
    listed(adj, x, y)
}

/// A walk through the graph: nonempty, all vertices, consecutive
/// entries joined by edges.
pub open spec fn is_path(adj: Seq<(String, Vec<String>)>, p: Seq<Seq<char>>) -> bool {
    &&& p.len() > 0
    &&& forall|k: int| 0 <= k < p.len() ==> is_vertex(adj, #[trigger] p[k])
    &&& forall|k: int| 0 <= k < p.len() - 1 ==> edge(adj, #[trigger] p[k], p[k + 1])
}

/// Two names are connected when a path of edges joins them.  A vertex
/// is connected to itself by the one-entry path.
pub open spec fn connected(adj: Seq<(String, Vec<String>)>, x: Seq<char>, y: Seq<char>) -> bool {
    exists|p: Seq<Seq<char>>| is_path(adj, p) && p.first() == x && p.last() == y
}

/// Undirected adjacency between entities, as neighbor lists per
/// entity name.
pub struct RelationGraph {
    pub adjacency: Vec<(String, Vec<String>)>,
}

impl RelationGraph {
    /// Keys unique, neighbor lists duplicate-free, the edge relation
    /// symmetric, and every listed neighbor itself a vertex.
    pub open spec fn wf(self) -> bool {
        &&& keys_unique(self.adjacency@)
        &&& forall|j: int|
            0 <= j < self.adjacency@.len() ==> names_unique(#[trigger] self.adjacency@[j].1@)
        &&& forall|x: Seq<char>, y: Seq<char>| edge(self.adjacency@, x, y) ==> edge(self.adjacency@, y, x)
        &&& forall|nm: Seq<char>| appears(self.adjacency@, nm) ==> is_vertex(self.adjacency@, nm)
    }

    /// An empty graph.
    pub fn new() -> (g: RelationGraph)
        ensures
            g.wf(),
            g.adjacency@.len() == 0,
    {
        RelationGraph { adjacency: Vec::new() }
    }

    /// Puts `to` in the neighbor list of `from`, creating the entry if
    /// absent; a directed half of one `add_edge` call.
    fn add_neighbor(&mut self, from: &String, to: &String)
        requires
            keys_unique(old(self).adjacency@),
            forall|j: int|
                0 <= j < old(self).adjacency@.len() ==> names_unique(
                    #[trigger] old(self).adjacency@[j].1@,
                ),
        ensures
            keys_unique(final(self).adjacency@),
            forall|j: int|
                0 <= j < final(self).adjacency@.len() ==> names_unique(
                    #[trigger] final(self).adjacency@[j].1@,
                ),
            edge(final(self).adjacency@, from@, to@),
            forall|x: Seq<char>, y: Seq<char>|
                !(x == from@ && y == to@) ==> edge(final(self).adjacency@, x, y) == edge(
                    old(self).adjacency@,
                    x,
                    y,
                ),
            forall|v: Seq<char>|
                is_vertex(final(self).adjacency@, v) <==> (is_vertex(old(self).adjacency@, v) || v
                    == from@),
            forall|nm: Seq<char>|
                appears(final(self).adjacency@, nm) <==> (appears(old(self).adjacency@, nm) || nm
                    == to@),
    {
        let ghost o_adj = self.adjacency@;
        match find_key(&self.adjacency, from) {
            Some(j) => {
                let present = contains_name(&self.adjacency[j].1, to);
                if !present {
                    let (nm, mut nbrs) = self.adjacency.remove(j);
                    nbrs.push(to.clone());
                    self.adjacency.insert(j, (nm, nbrs));
                    proof {
                        let n_adj = self.adjacency@;
                        assert(n_adj =~= o_adj.update(j as int, n_adj[j as int]));
                        assert(n_adj[j as int].0 == o_adj[j as int].0);
                        assert(n_adj[j as int].1@ =~= o_adj[j as int].1@.push(
                            n_adj[j as int].1@.last(),
                        ));
                        assert(n_adj[j as int].1@.last()@ == to@);
                        lemma_listing_grown(o_adj, n_adj, j as int, from@, to@);
                    }
                } else {
                    proof {
                        assert(edge(self.adjacency@, from@, to@));
                        assert forall|nm: Seq<char>| appears(self.adjacency@, nm) <==> (appears(
                            o_adj,
                            nm,
                        ) || nm == to@) by {
                            if nm == to@ {
                                let p = choose|p: int|
                                    0 <= p < o_adj[j as int].1@.len() && o_adj[j as int].1@[p]@
                                        == nm;
                                assert(appears(o_adj, nm));
                            }
                        }
                    }
                }
            },
            None => {
                let mut nbrs: Vec<String> = Vec::new();
                nbrs.push(to.clone());
                self.adjacency.push((from.clone(), nbrs));
                proof {
                    let n_adj = self.adjacency@;
                    assert(n_adj =~= o_adj.push(n_adj.last()));
                    lemma_listing_pushed(o_adj, n_adj, from@, to@);
                }
            },
        }
    }

    /// Inserts the undirected edge `{a, b}`: each endpoint joins the
    /// other's neighbor set, and either endpoint's entry is created if
    /// it was absent.  A self edge (`a == b`) makes a single vertex its
    /// own neighbor.  No other edge and no other vertex changes.
    pub fn add_edge(&mut self, a: String, b: String)
        requires
            old(self).wf(),
        ensures
            final(self).wf(),
            edge(final(self).adjacency@, a@, b@),
            edge(final(self).adjacency@, b@, a@),
            forall|x: Seq<char>, y: Seq<char>|
                !((x == a@ && y == b@) || (x == b@ && y == a@)) ==> edge(
                    final(self).adjacency@,
                    x,
                    y,
                ) == edge(old(self).adjacency@, x, y),
            forall|v: Seq<char>|
                is_vertex(final(self).adjacency@, v) <==> (is_vertex(old(self).adjacency@, v) || v
                    == a@ || v == b@),
    {
        let ghost o_adj = self.adjacency@;
        self.add_neighbor(&a, &b);
        let ghost m_adj = self.adjacency@;
        self.add_neighbor(&b, &a);
        proof {
            let n_adj = self.adjacency@;
            assert(edge(n_adj, a@, b@)) by {
                if !(a@ == b@) {
                    assert(edge(m_adj, a@, b@));
                }
            }
            assert forall|x: Seq<char>, y: Seq<char>| edge(n_adj, x, y) implies edge(
                n_adj,
                y,
                x,
            ) by {
                if !((x == a@ && y == b@) || (x == b@ && y == a@)) {
                    assert(edge(m_adj, x, y) == edge(o_adj, x, y));
                    assert(edge(o_adj, y, x) ==> edge(n_adj, y, x));
                }
            }
            assert forall|nm: Seq<char>| appears(n_adj, nm) implies is_vertex(n_adj, nm) by {
                if nm != a@ && nm != b@ {
                    assert(appears(o_adj, nm));
                    assert(is_vertex(o_adj, nm));
                }
            }
        }
    }
}

/// A name occurs somewhere in a collection of clusters.
pub open spec fn in_clusters(cs: Seq<Vec<String>>, v: Seq<char>) -> bool {
    exists|c: int, p: int| 0 <= c < cs.len() && 0 <= p < cs[c]@.len() && cs[c]@[p]@ == v
}

/// Some visited adjacency entry is named `y`.
pub open spec fn visited_name(adj: Seq<(String, Vec<String>)>, vis: Seq<bool>, y: Seq<char>) -> bool {
    exists|k: int| 0 <= k < vis.len() && vis[k] && adj[k].0@ == y
}

/// Some adjacency entry named `y` is visited now but was not before.
pub open spec fn fresh_name(
    adj: Seq<(String, Vec<String>)>,
    vis: Seq<bool>,
    ov: Seq<bool>,
    y: Seq<char>,
) -> bool {
    exists|k: int| 0 <= k < vis.len() && vis[k] && !ov[k] && adj[k].0@ == y
}

/// The index `i` occurs on the stack.
pub open spec fn in_stack(st: Seq<usize>, i: int) -> bool {
    exists|s: int| 0 <= s < st.len() && st[s] == i
}

/// How many entries of `s` are set.
pub open spec fn count_true(s: Seq<bool>) -> int
    decreases s.len(),
{
    if s.len() == 0 {
        0
    } else {
        count_true(s.drop_last()) + if s.last() {
            1int
        } else {
            0int
        }
    }
}

proof fn lemma_count_true_le(s: Seq<bool>)
    ensures
        0 <= count_true(s) <= s.len(),
    decreases s.len(),
{
    if s.len() > 0 {
        lemma_count_true_le(s.drop_last());
    }
}

proof fn lemma_count_true_update(s: Seq<bool>, i: int)
    requires
        0 <= i < s.len(),
        !s[i],
    ensures
        count_true(s.update(i, true)) == count_true(s) + 1,
    decreases s.len(),
{
    let u = s.update(i, true);
    if i == s.len() - 1 {
        assert(u.drop_last() =~= s.drop_last());
    } else {
        assert(u.drop_last() =~= s.drop_last().update(i, true));
        lemma_count_true_update(s.drop_last(), i);
    }
}

proof fn lemma_visited_name_mono(
    adj: Seq<(String, Vec<String>)>,
    v1: Seq<bool>,
    v2: Seq<bool>,
    y: Seq<char>,
)
    requires
        v1.len() == v2.len(),
        forall|i: int| 0 <= i < v1.len() && v1[i] ==> v2[i],
        visited_name(adj, v1, y),
    ensures
        visited_name(adj, v2, y),
{
    let k = choose|k: int| 0 <= k < v1.len() && v1[k] && adj[k].0@ == y;
    assert(v2[k] && adj[k].0@ == y);
}

impl RelationGraph {
    /// Marks everything reachable from the unvisited root `rt` as
    /// visited and returns the newly visited entities as one cluster:
    /// nonempty, duplicate-free, headed by the root's name, closed
    /// under taking neighbors, and with every member connected to the
    /// root.  Previously visited entities are untouched.
    #[verifier::rlimit(100)]
    fn explore_from(&self, visited: &mut Vec<bool>, clusters: &Vec<Vec<String>>, rt: usize) -> (cluster: Vec<String>)
        requires
            self.wf(),
            old(visited)@.len() == self.adjacency@.len(),
            rt < self.adjacency@.len(),
            !old(visited)@[rt as int],
            forall|c: int, p: int|
                0 <= c < clusters@.len() && 0 <= p < clusters@[c]@.len() ==> visited_name(
                    self.adjacency@,
                    old(visited)@,
                    (#[trigger] clusters@[c]@[p])@,
                ),
            forall|i: int|
                0 <= i < self.adjacency@.len() && old(visited)@[i] ==> in_clusters(
                    clusters@,
                    (#[trigger] self.adjacency@[i]).0@,
                ),
            forall|c: int, q: int, y: Seq<char>|
                0 <= c < clusters@.len() && 0 <= q < clusters@[c]@.len() && #[trigger] edge(
                    self.adjacency@,
                    clusters@[c]@[q]@,
                    y,
                ) ==> has_name(clusters@[c]@, y),
            forall|i: int, y: Seq<char>|
                0 <= i < self.adjacency@.len() && old(visited)@[i] && #[trigger] edge(
                    self.adjacency@,
                    self.adjacency@[i].0@,
                    y,
                ) ==> visited_name(self.adjacency@, old(visited)@, y),
        ensures
            final(visited)@.len() == self.adjacency@.len(),
            forall|i: int|
                0 <= i < self.adjacency@.len() && old(visited)@[i] ==> final(visited)@[i],
            final(visited)@[rt as int],
            cluster@.len() > 0,
            cluster@[0]@ == self.adjacency@[rt as int].0@,
            names_unique(cluster@),
            forall|p: int|
                0 <= p < cluster@.len() ==> fresh_name(
                    self.adjacency@,
                    final(visited)@,
                    old(visited)@,
                    (#[trigger] cluster@[p])@,
                ),
            forall|i: int|
                0 <= i < self.adjacency@.len() && #[trigger] final(visited)@[i] && !old(
                    visited,
                )@[i] ==> has_name(cluster@, self.adjacency@[i].0@),
            forall|i: int|
                0 <= i < self.adjacency@.len() && #[trigger] final(visited)@[i] && !old(
                    visited,
                )@[i] ==> connected(
                    self.adjacency@,
                    self.adjacency@[rt as int].0@,
                    self.adjacency@[i].0@,
                ),
            forall|q: int, y: Seq<char>|
                0 <= q < cluster@.len() && #[trigger] edge(self.adjacency@, cluster@[q]@, y)
                    ==> has_name(cluster@, y),
            forall|i: int, y: Seq<char>|
                0 <= i < self.adjacency@.len() && final(visited)@[i] && #[trigger] edge(
                    self.adjacency@,
                    self.adjacency@[i].0@,
                    y,
                ) ==> visited_name(self.adjacency@, final(visited)@, y),
    {
        let ghost adj = self.adjacency@;
        let n = self.adjacency.len();
        let ghost ov = old(visited)@;
        proof {
            assert(ov == visited@);
        }
        visited.set(rt, true);
        proof {
            lemma_count_true_update(ov, rt as int);
            lemma_count_true_le(visited@);
            lemma_connected_refl(adj, adj[rt as int].0@);
        }
        let mut stack: Vec<usize> = Vec::new();
        stack.push(rt);
        let mut cluster: Vec<String> = Vec::new();
        cluster.push(self.adjacency[rt].0.clone());
        proof {
            assert(cluster@[0]@ == adj[rt as int].0@);
            assert(stack@[0] == rt);
            assert forall|i: int|
                0 <= i < n && #[trigger] visited@[i] && !ov[i] implies has_name(
                cluster@,
                adj[i].0@,
            ) by {
                assert(i == rt as int);
                assert(cluster@[0]@ == adj[i].0@);
            }
            assert forall|i: int, y: Seq<char>|
                0 <= i < n && visited@[i] && !in_stack(stack@, i) && #[trigger] edge(
                    adj,
                    adj[i].0@,
                    y,
                ) implies visited_name(adj, visited@, y) by {
                if i == rt as int {
                    assert(in_stack(stack@, i));
                } else {
                    assert(ov[i]);
                    lemma_visited_name_mono(adj, ov, visited@, y);
                }
            }
        }
        while stack.len() > 0
            invariant
                self.wf(),
                adj == self.adjacency@,
                0 <= rt < n,
                visited@.len() == n == adj.len(),
                ov.len() == n,
                count_true(visited@) <= n,
                forall|i: int| 0 <= i < n && ov[i] ==> visited@[i],
                !ov[rt as int],
                visited@[rt as int],
                cluster@.len() > 0,
                cluster@[0]@ == adj[rt as int].0@,
                names_unique(cluster@),
                forall|p: int|
                    0 <= p < cluster@.len() ==> fresh_name(
                        adj,
                        visited@,
                        ov,
                        (#[trigger] cluster@[p])@,
                    ),
                forall|i: int|
                    0 <= i < n && #[trigger] visited@[i] && !ov[i] ==> has_name(
                        cluster@,
                        adj[i].0@,
                    ),
                forall|s: int|
                    0 <= s < stack@.len() ==> (#[trigger] stack@[s]) < n
                        && visited@[stack@[s] as int] && !ov[stack@[s] as int],
                forall|s1: int, s2: int|
                    0 <= s1 < s2 < stack@.len() ==> stack@[s1] != stack@[s2],
                forall|i: int|
                    0 <= i < n && #[trigger] visited@[i] && !ov[i] ==> connected(
                        adj,
                        adj[rt as int].0@,
                        adj[i].0@,
                    ),
                forall|i: int, y: Seq<char>|
                    0 <= i < n && visited@[i] && !in_stack(stack@, i) && #[trigger] edge(
                        adj,
                        adj[i].0@,
                        y,
                    ) ==> visited_name(adj, visited@, y),
                forall|c: int, p: int|
                    0 <= c < clusters@.len() && 0 <= p < clusters@[c]@.len() ==> visited_name(
                        adj,
                        ov,
                        (#[trigger] clusters@[c]@[p])@,
                    ),
                forall|i: int|
                    0 <= i < n && ov[i] ==> in_clusters(clusters@, (#[trigger] adj[i]).0@),
                forall|c: int, q: int, y: Seq<char>|
                    0 <= c < clusters@.len() && 0 <= q < clusters@[c]@.len()
                        && #[trigger] edge(adj, clusters@[c]@[q]@, y) ==> has_name(
                        clusters@[c]@,
                        y,
                    ),
            decreases n - count_true(visited@), stack@.len(),
        {
            let ghost vis0 = visited@;
            let ghost st0 = stack@;
            let ghost slen0 = stack@.len();
            let cur = match stack.pop() {
                Some(c) => c,
                None => {
                    proof {
                        assert(false);
                    }
                    0
                },
            };
            proof {
                assert(cur == st0[st0.len() - 1]);
                assert(!in_stack(stack@, cur as int)) by {
                    if in_stack(stack@, cur as int) {
                        let s = choose|s: int|
                            0 <= s < stack@.len() && stack@[s] == cur as usize;
                        assert(st0[s] == st0[st0.len() - 1]);
                    }
                }
                assert forall|i: int, y: Seq<char>|
                    0 <= i < n && visited@[i] && !in_stack(stack@, i) && i != cur as int
                        && #[trigger] edge(adj, adj[i].0@, y) implies visited_name(
                    adj,
                    visited@,
                    y,
                ) by {
                    assert(!in_stack(st0, i)) by {
                        if in_stack(st0, i) {
                            let s = choose|s: int|
                                0 <= s < st0.len() && st0[s] == i as usize;
                            if s < st0.len() - 1 {
                                assert(stack@[s] == st0[s]);
                                assert(in_stack(stack@, i));
                            }
                        }
                    }
                }
            }
            let nb_count = self.adjacency[cur].1.len();
            let mut q: usize = 0;
            while q < nb_count
                invariant
                    self.wf(),
                    adj == self.adjacency@,
                    0 <= rt < n,
                    0 <= cur < n,
                    0 <= q <= nb_count == adj[cur as int].1@.len(),
                    visited@.len() == n == adj.len(),
                    ov.len() == n,
                    vis0.len() == n,
                    count_true(visited@) <= n,
                    count_true(visited@) >= count_true(vis0),
                    stack@.len() >= slen0 - 1,
                    stack@.len() > slen0 - 1 ==> count_true(visited@) > count_true(vis0),
                    forall|i: int| 0 <= i < n && ov[i] ==> visited@[i],
                        !ov[rt as int],
                    visited@[cur as int],
                    !ov[cur as int],
                    !in_stack(stack@, cur as int),
                    connected(adj, adj[rt as int].0@, adj[cur as int].0@),
                    cluster@.len() > 0,
                    cluster@[0]@ == adj[rt as int].0@,
                    names_unique(cluster@),
                    forall|p: int|
                        0 <= p < cluster@.len() ==> fresh_name(
                            adj,
                            visited@,
                            ov,
                            (#[trigger] cluster@[p])@,
                        ),
                    forall|i: int|
                        0 <= i < n && #[trigger] visited@[i] && !ov[i] ==> has_name(
                            cluster@,
                            adj[i].0@,
                        ),
                    forall|s: int|
                        0 <= s < stack@.len() ==> (#[trigger] stack@[s]) < n
                            && visited@[stack@[s] as int] && !ov[stack@[s] as int],
                    forall|s1: int, s2: int|
                        0 <= s1 < s2 < stack@.len() ==> stack@[s1] != stack@[s2],
                    forall|i: int|
                        0 <= i < n && #[trigger] visited@[i] && !ov[i] ==> connected(
                            adj,
                            adj[rt as int].0@,
                            adj[i].0@,
                        ),
                    forall|i: int, y: Seq<char>|
                        0 <= i < n && visited@[i] && !in_stack(stack@, i) && i != cur as int
                            && #[trigger] edge(adj, adj[i].0@, y) ==> visited_name(
                            adj,
                            visited@,
                            y,
                        ),
                    forall|p2: int|
                        0 <= p2 < q ==> visited_name(
                            adj,
                            visited@,
                            (#[trigger] adj[cur as int].1@[p2])@,
                        ),
                    forall|c: int, p: int|
                        0 <= c < clusters@.len() && 0 <= p < clusters@[c]@.len() ==> visited_name(
                            adj,
                            ov,
                            (#[trigger] clusters@[c]@[p])@,
                        ),
                    forall|i: int|
                        0 <= i < n && ov[i] ==> in_clusters(
                            clusters@,
                            (#[trigger] adj[i]).0@,
                        ),
                    forall|c: int, q2: int, y: Seq<char>|
                        0 <= c < clusters@.len() && 0 <= q2 < clusters@[c]@.len()
                            && #[trigger] edge(adj, clusters@[c]@[q2]@, y) ==> has_name(
                            clusters@[c]@,
                            y,
                        ),
                decreases nb_count - q,
            {
                let nb = &self.adjacency[cur].1[q];
                let k = match find_key(&self.adjacency, nb) {
                    Some(k) => k,
                    None => {
                        proof {
                            assert(appears(adj, nb@)) by {
                                assert(adj[cur as int].1@[q as int]@ == nb@);
                            }
                            assert(is_vertex(adj, nb@));
                            let w = choose|w: int| 0 <= w < adj.len() && adj[w].0@ == nb@;
                            assert(false);
                        }
                        0
                    },
                };
                if !visited[k] {
                    let ghost visb = visited@;
                    let ghost stb = stack@;
                    let ghost clb = cluster@;
                    visited.set(k, true);
                    stack.push(k);
                    cluster.push(self.adjacency[k].0.clone());
                    proof {
                        lemma_count_true_update(visb, k as int);
                        lemma_count_true_le(visited@);
                        assert(edge(adj, adj[cur as int].0@, adj[k as int].0@)) by {
                            assert(has_name(adj[cur as int].1@, adj[k as int].0@)) by {
                                assert(adj[cur as int].1@[q as int]@ == adj[k as int].0@);
                            }
                        }
                        assert(is_vertex(adj, adj[k as int].0@)) by {
                            assert(adj[k as int].0@ == adj[k as int].0@);
                        }
                        lemma_connected_step(
                            adj,
                            adj[rt as int].0@,
                            adj[cur as int].0@,
                            adj[k as int].0@,
                        );
                        // the pushed name is new to the cluster
                        assert(!has_name(cluster@.drop_last(), adj[k as int].0@)) by {
                            if has_name(cluster@.drop_last(), adj[k as int].0@) {
                                let p = choose|p: int|
                                    0 <= p < cluster@.drop_last().len()
                                        && cluster@.drop_last()[p]@ == adj[k as int].0@;
                                assert(cluster@[p]@ == adj[k as int].0@);
                                let i = choose|i: int|
                                    0 <= i < n && visb[i] && !ov[i] && adj[i].0@
                                        == cluster@[p]@;
                                assert(i == k);
                            }
                        }
                        assert(names_unique(cluster@)) by {
                            assert(forall|p: int|
                                0 <= p < cluster@.len() - 1 ==> cluster@[p]
                                    == cluster@.drop_last()[p]);
                        }
                        assert(forall|p: int|
                            0 <= p < cluster@.len() - 1 ==> cluster@[p] == (
                            #[trigger] cluster@.drop_last()[p]));
                        assert(cluster@.last()@ == adj[k as int].0@);
                        assert forall|p: int| 0 <= p < cluster@.len() implies exists|
                            i: int,
                        |
                            0 <= i < n && visited@[i] && !ov[i] && adj[i].0@ == (
                            #[trigger] cluster@[p])@ by {
                            if p < clb.len() {
                                assert(cluster@[p] == clb[p]);
                                let i = choose|i: int|
                                    0 <= i < n && visb[i] && !ov[i] && adj[i].0@
                                        == clb[p]@;
                                assert(visited@[i] && !ov[i] && adj[i].0@ == cluster@[p]@);
                            } else {
                                assert(cluster@[p]@ == adj[k as int].0@);
                                assert(visited@[k as int] && !ov[k as int]);
                            }
                        }
                        assert forall|i: int|
                            0 <= i < n && #[trigger] visited@[i] && !ov[i] implies
                            has_name(cluster@, adj[i].0@) by {
                            if i == k as int {
                                assert(cluster@[cluster@.len() - 1]@ == adj[i].0@);
                            } else {
                                assert(visb[i]);
                                let p = choose|p: int|
                                    0 <= p < clb.len() && clb[p]@ == adj[i].0@;
                                assert(cluster@[p]@ == adj[i].0@);
                            }
                        }
                        assert forall|s: int| 0 <= s < stack@.len() implies (
                        #[trigger] stack@[s]) < n && visited@[stack@[s] as int]
                            && !ov[stack@[s] as int] by {
                            if s < stb.len() {
                                assert(stack@[s] == stb[s]);
                                assert(visited@[stb[s] as int]);
                            } else {
                                assert(stack@[s] == k);
                            }
                        }
                        assert forall|s1: int, s2: int|
                            0 <= s1 < s2 < stack@.len() implies stack@[s1] != stack@[s2]
                            by {
                            if s2 == stack@.len() - 1 {
                                assert(stack@[s1] == stb[s1]);
                                assert(stack@[s2] == k);
                                assert(visb[stb[s1] as int]);
                                assert(!visb[k as int]);
                            } else {
                                assert(stack@[s1] == stb[s1] && stack@[s2] == stb[s2]);
                            }
                        }
                        assert forall|i: int, y: Seq<char>|
                            0 <= i < n && visited@[i] && !in_stack(stack@, i) && i
                                != cur as int && #[trigger] edge(adj, adj[i].0@, y)
                            implies visited_name(adj, visited@, y) by {
                            assert(i != k as int) by {
                                if i == k as int {
                                    assert(stack@[stack@.len() - 1] == k);
                                    assert(in_stack(stack@, i));
                                }
                            }
                            assert(visb[i]);
                            assert(!in_stack(stb, i)) by {
                                if in_stack(stb, i) {
                                    let s = choose|s: int|
                                        0 <= s < stb.len() && stb[s] == i as usize;
                                    assert(stack@[s] == stb[s]);
                                    assert(in_stack(stack@, i));
                                }
                            }
                            assert(visited_name(adj, visb, y));
                            lemma_visited_name_mono(adj, visb, visited@, y);
                        }
                        assert forall|p2: int| 0 <= p2 < q + 1 implies visited_name(
                            adj,
                            visited@,
                            (#[trigger] adj[cur as int].1@[p2])@,
                        ) by {
                            if p2 < q {
                                lemma_visited_name_mono(
                                    adj,
                                    visb,
                                    visited@,
                                    adj[cur as int].1@[p2]@,
                                );
                            } else {
                                assert(adj[k as int].0@ == adj[cur as int].1@[q as int]@);
                                assert(visited@[k as int]);
                            }
                        }
                    }
                } else {
                    proof {
                        assert(visited_name(adj, visited@, adj[cur as int].1@[q as int]@))
                            by {
                            assert(adj[k as int].0@ == adj[cur as int].1@[q as int]@);
                        }
                    }
                }
                q += 1;
            }
            proof {
                assert forall|y: Seq<char>| #[trigger]
                    edge(adj, adj[cur as int].0@, y) implies visited_name(
                    adj,
                    visited@,
                    y,
                ) by {
                    let j = choose|j: int|
                        0 <= j < adj.len() && adj[j].0@ == adj[cur as int].0@ && has_name(
                            adj[j].1@,
                            y,
                        );
                    assert(j == cur as int);
                    let p2 = choose|p2: int|
                        0 <= p2 < adj[cur as int].1@.len() && adj[cur as int].1@[p2]@ == y;
                    assert(visited_name(adj, visited@, adj[cur as int].1@[p2]@));
                }
            }
        }
        // the traversal is exhausted: the new cluster is closed
        proof {
            assert forall|q2: int, y: Seq<char>|
                0 <= q2 < cluster@.len() && #[trigger] edge(
                    adj,
                    cluster@[q2]@,
                    y,
                ) implies has_name(cluster@, y) by {
                let i = choose|i: int|
                    0 <= i < n && visited@[i] && !ov[i] && adj[i].0@ == cluster@[q2]@;
                assert(visited_name(adj, visited@, y)) by {
                    assert(!in_stack(stack@, i));
                    assert(edge(adj, adj[i].0@, y));
                }
                let k = choose|k: int| 0 <= k < n && visited@[k] && adj[k].0@ == y;
                if ov[k] {
                    // the neighbor would lie in an earlier, closed
                    // cluster, pulling this entity in with it
                    let (c, p) = choose|c: int, p: int|
                        0 <= c < clusters@.len() && 0 <= p < clusters@[c]@.len()
                            && clusters@[c]@[p]@ == adj[k].0@;
                    assert(edge(adj, adj[k].0@, adj[i].0@));
                    assert(edge(adj, clusters@[c]@[p]@, adj[i].0@));
                    assert(has_name(clusters@[c]@, adj[i].0@));
                    let p3 = choose|p3: int|
                        0 <= p3 < clusters@[c]@.len() && clusters@[c]@[p3]@ == adj[i].0@;
                    let i2 = choose|i2: int|
                        0 <= i2 < n && ov[i2] && adj[i2].0@ == clusters@[c]@[p3]@;
                    assert(i2 == i);
                    assert(false);
                } else {
                    assert(has_name(cluster@, adj[k].0@));
                }
            }
        }
        cluster
    }


    /// Partitions the vertices into their connected components by a
    /// worklist traversal.  The returned groups are pairwise disjoint,
    /// jointly cover every entity ever mentioned by an `add_edge` call,
    /// and two entities share a group exactly when a path of edges
    /// connects them.  Group order and in-group order follow the
    /// insertion order of the underlying listing and carry no meaning.
    #[verifier::rlimit(100)]
    pub fn get_clusters(&self) -> (r: Vec<Vec<String>>)
        requires
            self.wf(),
        ensures
            forall|c: int, p: int|
                0 <= c < r@.len() && 0 <= p < r@[c]@.len() ==> is_vertex(
                    self.adjacency@,
                    (#[trigger] r@[c]@[p])@,
                ),
            forall|c: int| 0 <= c < r@.len() ==> (#[trigger] r@[c])@.len() > 0,
            forall|v: Seq<char>| is_vertex(self.adjacency@, v) ==> in_clusters(r@, v),
            forall|c1: int, p1: int, c2: int, p2: int|
                0 <= c1 < r@.len() && 0 <= p1 < r@[c1]@.len() && 0 <= c2 < r@.len() && 0 <= p2
                    < r@[c2]@.len() && (#[trigger] r@[c1]@[p1])@ == (#[trigger] r@[c2]@[p2])@
                    ==> c1 == c2 && p1 == p2,
            forall|c: int, p: int, q: int|
                0 <= c < r@.len() && 0 <= p < r@[c]@.len() && 0 <= q < r@[c]@.len() ==> connected(
                    self.adjacency@,
                    (#[trigger] r@[c]@[p])@,
                    (#[trigger] r@[c]@[q])@,
                ),
            forall|c1: int, p1: int, c2: int, p2: int|
                0 <= c1 < r@.len() && 0 <= p1 < r@[c1]@.len() && 0 <= c2 < r@.len() && 0 <= p2
                    < r@[c2]@.len() && connected(
                    self.adjacency@,
                    (#[trigger] r@[c1]@[p1])@,
                    (#[trigger] r@[c2]@[p2])@,
                ) ==> c1 == c2,
    {
        let ghost adj = self.adjacency@;
        let n = self.adjacency.len();
        let mut visited: Vec<bool> = Vec::new();
        let mut t0: usize = 0;
        while t0 < n
            invariant
                0 <= t0 <= n,
                visited@.len() == t0,
                forall|i: int| 0 <= i < t0 ==> !visited@[i],
            decreases n - t0,
        {
            visited.push(false);
            t0 += 1;
        }
        proof {
            lemma_count_true_le(visited@);
        }
        let mut clusters: Vec<Vec<String>> = Vec::new();
        let mut rt: usize = 0;
        while rt < n
            invariant
                self.wf(),
                adj == self.adjacency@,
                0 <= rt <= n,
                visited@.len() == n == adj.len(),
                forall|t: int| 0 <= t < rt ==> visited@[t],
                forall|c: int, p: int|
                    0 <= c < clusters@.len() && 0 <= p < clusters@[c]@.len() ==> visited_name(
                        adj,
                        visited@,
                        (#[trigger] clusters@[c]@[p])@,
                    ),
                forall|i: int|
                    0 <= i < n && visited@[i] ==> in_clusters(clusters@, (#[trigger] adj[i]).0@),
                forall|c1: int, p1: int, c2: int, p2: int|
                    0 <= c1 < clusters@.len() && 0 <= p1 < clusters@[c1]@.len() && 0 <= c2
                        < clusters@.len() && 0 <= p2 < clusters@[c2]@.len() && (
                    #[trigger] clusters@[c1]@[p1])@ == (#[trigger] clusters@[c2]@[p2])@ ==> c1 == c2
                        && p1 == p2,
                forall|c: int| 0 <= c < clusters@.len() ==> (#[trigger] clusters@[c])@.len() > 0,
                forall|c: int, q: int, y: Seq<char>|
                    0 <= c < clusters@.len() && 0 <= q < clusters@[c]@.len() && #[trigger] edge(
                        adj,
                        clusters@[c]@[q]@,
                        y,
                    ) ==> has_name(clusters@[c]@, y),
                forall|c: int, p: int|
                    0 <= c < clusters@.len() && 0 <= p < clusters@[c]@.len() ==> connected(
                        adj,
                        clusters@[c]@[0]@,
                        (#[trigger] clusters@[c]@[p])@,
                    ),
                forall|i: int, y: Seq<char>|
                    0 <= i < n && visited@[i] && #[trigger] edge(adj, adj[i].0@, y)
                        ==> visited_name(adj, visited@, y),
            decreases n - rt,
        {
            if !visited[rt] {
                let ghost ov = visited@;
                let cluster = self.explore_from(&mut visited, &clusters, rt);
                let ghost before = clusters@;
                clusters.push(cluster);
                proof {
                    assert(forall|c: int|
                        0 <= c < before.len() ==> (#[trigger] clusters@[c]) == before[c]);
                    assert(clusters@.last() == clusters@[clusters@.len() - 1]);
                    // membership accounting after adding the new cluster
                    assert forall|i: int|
                        0 <= i < n && #[trigger] visited@[i] implies in_clusters(
                        clusters@,
                        adj[i].0@,
                    ) by {
                        if ov[i] {
                            let (c, p) = choose|c: int, p: int|
                                0 <= c < before.len() && 0 <= p < before[c]@.len() && before[c]@[p]@
                                    == adj[i].0@;
                            assert(clusters@[c]@[p]@ == adj[i].0@);
                        } else {
                            let p = choose|p: int|
                                0 <= p < cluster@.len() && cluster@[p]@ == adj[i].0@;
                            assert(clusters@[clusters@.len() - 1]@[p]@ == adj[i].0@);
                        }
                    }
                    assert forall|c: int, p: int|
                        0 <= c < clusters@.len() && 0 <= p < clusters@[c]@.len() implies
                        visited_name(adj, visited@, (#[trigger] clusters@[c]@[p])@) by {
                        if c < before.len() {
                            assert(clusters@[c] == before[c]);
                            assert(visited_name(adj, ov, before[c]@[p]@));
                            lemma_visited_name_mono(adj, ov, visited@, before[c]@[p]@);
                        } else {
                            assert(clusters@[c] == cluster);
                            assert(fresh_name(adj, visited@, ov, cluster@[p]@));
                            let i = choose|i: int|
                                0 <= i < visited@.len() && visited@[i] && !ov[i] && adj[i].0@
                                    == cluster@[p]@;
                            assert(visited_name(adj, visited@, cluster@[p]@));
                        }
                    }
                    assert forall|c1: int, p1: int, c2: int, p2: int|
                        0 <= c1 < clusters@.len() && 0 <= p1 < clusters@[c1]@.len() && 0 <= c2
                            < clusters@.len() && 0 <= p2 < clusters@[c2]@.len() && (
                        #[trigger] clusters@[c1]@[p1])@ == (#[trigger] clusters@[c2]@[p2])@ implies
                        c1 == c2 && p1 == p2 by {
                        let lastc = clusters@.len() - 1;
                        if c1 == lastc && c2 == lastc {
                            assert(cluster@[p1]@ == cluster@[p2]@);
                        } else if c1 == lastc && c2 < lastc {
                            assert(fresh_name(adj, visited@, ov, cluster@[p1]@));
                            let i = choose|i: int|
                                0 <= i < visited@.len() && visited@[i] && !ov[i] && adj[i].0@
                                    == cluster@[p1]@;
                            assert(visited_name(adj, ov, before[c2]@[p2]@));
                            let i2 = choose|i2: int|
                                0 <= i2 < ov.len() && ov[i2] && adj[i2].0@ == before[c2]@[p2]@;
                            assert(i == i2);
                            assert(false);
                        } else if c2 == lastc && c1 < lastc {
                            assert(fresh_name(adj, visited@, ov, cluster@[p2]@));
                            let i = choose|i: int|
                                0 <= i < visited@.len() && visited@[i] && !ov[i] && adj[i].0@
                                    == cluster@[p2]@;
                            assert(visited_name(adj, ov, before[c1]@[p1]@));
                            let i2 = choose|i2: int|
                                0 <= i2 < ov.len() && ov[i2] && adj[i2].0@ == before[c1]@[p1]@;
                            assert(i == i2);
                            assert(false);
                        }
                    }
                }
                proof {
                    assert forall|t: int| 0 <= t < rt + 1 implies visited@[t] by {
                        if t < rt {
                            assert(ov[t]);
                        }
                    }
                }
            }
            rt += 1;
        }
        proof {
            assert forall|c: int, p: int|
                0 <= c < clusters@.len() && 0 <= p < clusters@[c]@.len() implies is_vertex(
                adj,
                (#[trigger] clusters@[c]@[p])@,
            ) by {
                let k = choose|k: int|
                    0 <= k < visited@.len() && visited@[k] && adj[k].0@ == clusters@[c]@[p]@;
                assert(has_key(adj, clusters@[c]@[p]@));
            }
            assert forall|c: int, p: int, q: int|
                0 <= c < clusters@.len() && 0 <= p < clusters@[c]@.len() && 0 <= q
                    < clusters@[c]@.len() implies connected(
                adj,
                (#[trigger] clusters@[c]@[p])@,
                (#[trigger] clusters@[c]@[q])@,
            ) by {
                assert(connected(adj, clusters@[c]@[0]@, clusters@[c]@[p]@));
                assert(connected(adj, clusters@[c]@[0]@, clusters@[c]@[q]@));
                lemma_connected_sym(adj, clusters@[c]@[0]@, clusters@[c]@[p]@);
                lemma_connected_trans(
                    adj,
                    clusters@[c]@[p]@,
                    clusters@[c]@[0]@,
                    clusters@[c]@[q]@,
                );
            }
            assert forall|c1: int, p1: int, c2: int, p2: int|
                0 <= c1 < clusters@.len() && 0 <= p1 < clusters@[c1]@.len() && 0 <= c2
                    < clusters@.len() && 0 <= p2 < clusters@[c2]@.len() && connected(
                adj,
                (#[trigger] clusters@[c1]@[p1])@,
                (#[trigger] clusters@[c2]@[p2])@,
            ) implies c1 == c2 by {
                let pth = choose|pth: Seq<Seq<char>>|
                    is_path(adj, pth) && pth.first() == clusters@[c1]@[p1]@ && pth.last()
                        == clusters@[c2]@[p2]@;
                assert(has_name(clusters@[c1]@, pth.first())) by {
                    assert(clusters@[c1]@[p1]@ == pth.first());
                }
                lemma_closed_reach(adj, clusters@[c1]@, pth);
                let q1 = choose|q1: int|
                    0 <= q1 < clusters@[c1]@.len() && clusters@[c1]@[q1]@ == pth.last();
                assert(clusters@[c1]@[q1]@ == clusters@[c2]@[p2]@);
            }
        }
        clusters
    }
}

/// In a well-formed graph the edge relation is symmetric: whenever one
/// entity lists another as a neighbor, the listing holds the other way
/// round as well.
pub proof fn lemma_edge_symmetric(g: RelationGraph, x: Seq<char>, y: Seq<char>)
    requires
        g.wf(),
    ensures
        edge(g.adjacency@, x, y) <==> edge(g.adjacency@, y, x),
{
}

/// A vertex is connected to itself.
pub proof fn lemma_connected_refl(adj: Seq<(String, Vec<String>)>, x: Seq<char>)
    requires
        is_vertex(adj, x),
    ensures
        connected(adj, x, x),
{
    let p = seq![x];
    assert(is_path(adj, p));
    assert(p.first() == x && p.last() == x);
}

/// Extending a connection by one edge.
pub proof fn lemma_connected_step(
    adj: Seq<(String, Vec<String>)>,
    x: Seq<char>,
    y: Seq<char>,
    z: Seq<char>,
)
    requires
        connected(adj, x, y),
        edge(adj, y, z),
        is_vertex(adj, z),
    ensures
        connected(adj, x, z),
{
    let p = choose|p: Seq<Seq<char>>| is_path(adj, p) && p.first() == x && p.last() == y;
    let q = p.push(z);
    assert(forall|k: int| 0 <= k < p.len() ==> q[k] == p[k]);
    assert(is_path(adj, q)) by {
        assert(forall|k: int| 0 <= k < q.len() - 1 ==> edge(adj, #[trigger] q[k], q[k + 1])) by {
            assert(q[q.len() - 2] == y && q[q.len() - 1] == z);
        }
    }
    assert(q.first() == x && q.last() == z);
}

/// In a symmetric graph, connection is symmetric: the reversed walk is
/// again a path.
pub proof fn lemma_connected_sym(adj: Seq<(String, Vec<String>)>, x: Seq<char>, y: Seq<char>)
    requires
        connected(adj, x, y),
        forall|u: Seq<char>, v: Seq<char>| edge(adj, u, v) ==> edge(adj, v, u),
    ensures
        connected(adj, y, x),
{
    let p = choose|p: Seq<Seq<char>>| is_path(adj, p) && p.first() == x && p.last() == y;
    let l = p.len() as int;
    let q = Seq::new(p.len(), |k: int| p[l - 1 - k]);
    assert(is_path(adj, q)) by {
        assert forall|k: int| 0 <= k < q.len() - 1 implies edge(adj, #[trigger] q[k], q[k + 1]) by {
            assert(q[k] == p[l - 1 - k] && q[k + 1] == p[l - 2 - k]);
            assert(edge(adj, p[l - 2 - k], p[l - 2 - k + 1]));
        }
    }
    assert(q.first() == y && q.last() == x);
}

/// Connection is transitive: walks concatenate.
pub proof fn lemma_connected_trans(
    adj: Seq<(String, Vec<String>)>,
    x: Seq<char>,
    y: Seq<char>,
    z: Seq<char>,
)
    requires
        connected(adj, x, y),
        connected(adj, y, z),
    ensures
        connected(adj, x, z),
{
    let p1 = choose|p: Seq<Seq<char>>| is_path(adj, p) && p.first() == x && p.last() == y;
    let p2 = choose|p: Seq<Seq<char>>| is_path(adj, p) && p.first() == y && p.last() == z;
    if p2.len() == 1 {
        assert(y == z);
        assert(connected(adj, x, z));
    } else {
        let q = p1 + p2.drop_first();
        let l1 = p1.len() as int;
        assert(forall|k: int| 0 <= k < l1 ==> q[k] == p1[k]);
        assert(forall|k: int| l1 <= k < q.len() ==> q[k] == p2[k - l1 + 1]);
        assert(is_path(adj, q)) by {
            assert forall|k: int| 0 <= k < q.len() - 1 implies edge(adj, #[trigger] q[k], q[k + 1])
                by {
                if k < l1 - 1 {
                    assert(edge(adj, p1[k], p1[k + 1]));
                } else if k == l1 - 1 {
                    assert(q[k] == p1.last() && q[k + 1] == p2[1]);
                    assert(edge(adj, p2[0], p2[1]));
                } else {
                    assert(q[k] == p2[k - l1 + 1] && q[k + 1] == p2[k - l1 + 2]);
                    assert(edge(adj, p2[k - l1 + 1], p2[k - l1 + 2]));
                }
            }
        }
        assert(q.first() == x && q.last() == z);
    }
}

/// A set of names closed under taking neighbors contains the far end of
/// every path that starts inside it.
pub proof fn lemma_closed_reach(
    adj: Seq<(String, Vec<String>)>,
    cl: Seq<String>,
    p: Seq<Seq<char>>,
)
    requires
        is_path(adj, p),
        has_name(cl, p.first()),
        forall|q: int, y: Seq<char>|
            0 <= q < cl.len() && #[trigger] edge(adj, cl[q]@, y) ==> has_name(cl, y),
    ensures
        has_name(cl, p.last()),
    decreases p.len(),
{
    if p.len() > 1 {
        let rest = p.drop_first();
        assert(forall|k: int| 0 <= k < rest.len() ==> rest[k] == p[k + 1]);
        assert(edge(adj, p[0], p[1]));
        let q0 = choose|q0: int| 0 <= q0 < cl.len() && cl[q0]@ == p.first();
        assert(has_name(cl, p[1]));
        assert(is_path(adj, rest)) by {
            assert(forall|k: int| 0 <= k < rest.len() - 1 ==> edge(
                adj,
                #[trigger] rest[k],
                rest[k + 1],
            ));
        }
        lemma_closed_reach(adj, cl, rest);
    }
}

} // verus!
