//! Name-keyed association sequences.
//!
//! Both core structures store their mappings as vectors of
//! `(name, value)` pairs looked up by the character content of the
//! name.  This module gives the lookup its specification-level meaning
//! and the one verified search routine everything else relies on.

use vstd::prelude::*;

verus! {

/// No two entries share a name.
pub open spec fn keys_unique<V>(s: Seq<(String, V)>) -> bool {
    forall|i: int, j: int| 0 <= i < j < s.len() ==> s[i].0@ != s[j].0@
}

/// Some entry is named `k`.
pub open spec fn has_key<V>(s: Seq<(String, V)>, k: Seq<char>) -> bool {
    exists|i: int| 0 <= i < s.len() && s[i].0@ == k
}

/// The value of the first entry named `k`, if any.
pub open spec fn assoc_find<V>(s: Seq<(String, V)>, k: Seq<char>) -> Option<V>
    decreases s.len(),
{
    if s.len() == 0 {
        None
    } else if s[0].0@ == k {
        Some(s[0].1)
    } else {
        assoc_find(s.drop_first(), k)
    }
}

/// A name occurs in a sequence of names.
pub open spec fn has_name(s: Seq<String>, k: Seq<char>) -> bool {
    exists|i: int| 0 <= i < s.len() && s[i]@ == k
}

/// No two names in the sequence agree.
pub open spec fn names_unique(s: Seq<String>) -> bool {
    forall|i: int, j: int| 0 <= i < j < s.len() ==> s[i]@ != s[j]@
}

pub proof fn lemma_assoc_find_at<V>(s: Seq<(String, V)>, k: Seq<char>, i: int)
    requires
        0 <= i < s.len(),
        s[i].0@ == k,
        forall|j: int| 0 <= j < i ==> s[j].0@ != k,
    ensures
        assoc_find(s, k) == Some(s[i].1),
    decreases s.len(),
{
    if i > 0 {
        let t = s.drop_first();
        assert(forall|j: int| 0 <= j < i - 1 ==> t[j] == s[j + 1]);
        lemma_assoc_find_at(t, k, i - 1);
    }
}

pub proof fn lemma_assoc_find_none<V>(s: Seq<(String, V)>, k: Seq<char>)
    requires
        forall|i: int| 0 <= i < s.len() ==> s[i].0@ != k,
    ensures
        assoc_find(s, k) is None,
    decreases s.len(),
{
    if s.len() > 0 {
        lemma_assoc_find_none(s.drop_first(), k);
    }
}

/// Two association sequences that agree on every entry named `k`
/// (position for position) have the same lookup result at `k`.
pub proof fn lemma_assoc_find_agree<V>(s1: Seq<(String, V)>, s2: Seq<(String, V)>, k: Seq<char>)
    requires
        s1.len() == s2.len(),
        forall|i: int| 0 <= i < s1.len() ==> s1[i].0@ == s2[i].0@,
        forall|i: int| 0 <= i < s1.len() && s1[i].0@ == k ==> s1[i] == s2[i],
    ensures
        assoc_find(s1, k) == assoc_find(s2, k),
    decreases s1.len(),
{
    if s1.len() > 0 {
        let t1 = s1.drop_first();
        let t2 = s2.drop_first();
        assert(forall|i: int| 0 <= i < t1.len() ==> t1[i] == s1[i + 1] && t2[i] == s2[i + 1]);
        lemma_assoc_find_agree(t1, t2, k);
    }
}

/// Appending an entry with a different name does not change a lookup.
pub proof fn lemma_assoc_find_push_other<V>(s: Seq<(String, V)>, e: (String, V), k: Seq<char>)
    requires
        e.0@ != k,
    ensures
        assoc_find(s.push(e), k) == assoc_find(s, k),
    decreases s.len(),
{
    if s.len() == 0 {
        assert(s.push(e).drop_first() =~= s);
    } else {
        assert(s.push(e).drop_first() =~= s.drop_first().push(e));
        lemma_assoc_find_push_other(s.drop_first(), e, k);
    }
}

/// Index of the first entry named like `key`, searching front to back.
pub fn find_key<V>(v: &Vec<(String, V)>, key: &String) -> (r: Option<usize>)
    ensures
        match r {
            Some(j) => j < v@.len() && v@[j as int].0@ == key@ && forall|i: int|
                0 <= i < j ==> v@[i].0@ != key@,
            None => forall|i: int| 0 <= i < v@.len() ==> v@[i].0@ != key@,
        },
{
    let n = v.len();
    let mut j: usize = 0;
    while j < n
        invariant
            0 <= j <= n == v@.len(),
            forall|i: int| 0 <= i < j ==> v@[i].0@ != key@,
        decreases n - j,
    {
        if v[j].0 == *key {
            return Some(j);
        }
        j += 1;
    }
    None
}

/// Whether `name` occurs in `v`, by character content.
pub fn contains_name(v: &Vec<String>, name: &String) -> (r: bool)
    ensures
        r == has_name(v@, name@),
{
    let n = v.len();
    let mut j: usize = 0;
    while j < n
        invariant
            0 <= j <= n == v@.len(),
            forall|i: int| 0 <= i < j ==> v@[i]@ != name@,
        decreases n - j,
    {
        if v[j] == *name {
            return true;
        }
        j += 1;
    }
    false
}

/// Whether the entry keyed `k` lists the name `nm`.
pub open spec fn listed(s: Seq<(String, Vec<String>)>, k: Seq<char>, nm: Seq<char>) -> bool {
    exists|j: int| 0 <= j < s.len() && s[j].0@ == k && has_name(s[j].1@, nm)
}

/// Whether the name `nm` appears in any entry's name list.
pub open spec fn appears(s: Seq<(String, Vec<String>)>, nm: Seq<char>) -> bool {
    exists|j: int, p: int|
        0 <= j < s.len() && 0 <= p < s[j].1@.len() && s[j].1@[p]@ == nm
}

/// After inserting a new name into the name list of entry `j`, exactly
/// the pair `(ik, ck)` has been added to the listing relation; the keys
/// and the set of appearing names (but for `ck`) are unchanged.
pub proof fn lemma_listing_grown(
    o: Seq<(String, Vec<String>)>,
    n: Seq<(String, Vec<String>)>,
    j: int,
    ik: Seq<char>,
    ck: Seq<char>,
)
    requires
        keys_unique(o),
        forall|t: int| 0 <= t < o.len() ==> names_unique(#[trigger] o[t].1@),
        0 <= j < o.len(),
        o[j].0@ == ik,
        !has_name(o[j].1@, ck),
        n.len() == o.len(),
        forall|t: int| 0 <= t < o.len() && t != j ==> n[t] == o[t],
        n[j].0 == o[j].0,
        n[j].1@ == o[j].1@.push(n[j].1@.last()),
        n[j].1@.last()@ == ck,
    ensures
        keys_unique(n),
        forall|t: int| 0 <= t < n.len() ==> names_unique(#[trigger] n[t].1@),
        listed(n, ik, ck),
        forall|ik2: Seq<char>, ck2: Seq<char>|
            !(ik2 == ik && ck2 == ck) ==> listed(n, ik2, ck2) == listed(o, ik2, ck2),
        forall|ik2: Seq<char>| has_key(n, ik2) <==> has_key(o, ik2),
        forall|nm: Seq<char>| appears(n, nm) <==> (appears(o, nm) || nm == ck),
{
    let old_list = o[j].1@;
    let new_list = n[j].1@;
    assert(forall|t: int| 0 <= t < n.len() ==> n[t].0@ == o[t].0@);
    assert(new_list.len() == old_list.len() + 1);
    assert(forall|p: int| 0 <= p < old_list.len() ==> new_list[p] == old_list[p]);
    assert(names_unique(new_list)) by {
        assert(forall|p: int| 0 <= p < old_list.len() ==> old_list[p]@ != ck);
    }
    assert(listed(n, ik, ck)) by {
        assert(has_name(new_list, ck)) by {
            assert(new_list[new_list.len() - 1]@ == ck);
        }
    }
    assert forall|ik2: Seq<char>, ck2: Seq<char>| !(ik2 == ik && ck2 == ck) implies listed(
        n,
        ik2,
        ck2,
    ) == listed(o, ik2, ck2) by {
        if listed(o, ik2, ck2) {
            let t = choose|t: int| 0 <= t < o.len() && o[t].0@ == ik2 && has_name(o[t].1@, ck2);
            if t == j {
                let p = choose|p: int| 0 <= p < old_list.len() && old_list[p]@ == ck2;
                assert(new_list[p]@ == ck2);
                assert(has_name(new_list, ck2));
            }
            assert(listed(n, ik2, ck2));
        }
        if listed(n, ik2, ck2) {
            let t = choose|t: int| 0 <= t < n.len() && n[t].0@ == ik2 && has_name(n[t].1@, ck2);
            if t == j {
                assert(ik2 == ik);
                let p = choose|p: int| 0 <= p < new_list.len() && new_list[p]@ == ck2;
                if p < old_list.len() {
                    assert(old_list[p]@ == ck2);
                    assert(has_name(o[j].1@, ck2));
                } else {
                    assert(ck2 == ck);
                }
            }
            assert(listed(o, ik2, ck2));
        }
    }
    assert forall|nm: Seq<char>| appears(n, nm) <==> (appears(o, nm) || nm == ck) by {
        if appears(o, nm) {
            let (t, p): (int, int) = choose|t: int, p: int|
                0 <= t < o.len() && 0 <= p < o[t].1@.len() && o[t].1@[p]@ == nm;
            if t == j {
                assert(n[t].1@[p]@ == nm);
            } else {
                assert(n[t].1@[p]@ == nm);
            }
            assert(appears(n, nm));
        }
        if nm == ck {
            assert(n[j].1@[n[j].1@.len() - 1]@ == nm);
            assert(appears(n, nm));
        }
        if appears(n, nm) {
            let (t, p): (int, int) = choose|t: int, p: int|
                0 <= t < n.len() && 0 <= p < n[t].1@.len() && n[t].1@[p]@ == nm;
            if t == j {
                if p < old_list.len() {
                    assert(o[t].1@[p]@ == nm);
                    assert(appears(o, nm));
                } else {
                    assert(nm == ck);
                }
            } else {
                assert(o[t].1@[p]@ == nm);
                assert(appears(o, nm));
            }
        }
    }
}

/// After pushing a brand-new entry holding one name, exactly the pair
/// `(ik, ck)` has been added to the listing relation, exactly the key
/// `ik` to the keys, and exactly `ck` to the appearing names.
pub proof fn lemma_listing_pushed(
    o: Seq<(String, Vec<String>)>,
    n: Seq<(String, Vec<String>)>,
    ik: Seq<char>,
    ck: Seq<char>,
)
    requires
        keys_unique(o),
        forall|t: int| 0 <= t < o.len() ==> names_unique(#[trigger] o[t].1@),
        forall|t: int| 0 <= t < o.len() ==> o[t].0@ != ik,
        n.len() == o.len() + 1,
        forall|t: int| 0 <= t < o.len() ==> n[t] == o[t],
        n[n.len() - 1].0@ == ik,
        n[n.len() - 1].1@.len() == 1,
        n[n.len() - 1].1@[0]@ == ck,
    ensures
        keys_unique(n),
        forall|t: int| 0 <= t < n.len() ==> names_unique(#[trigger] n[t].1@),
        listed(n, ik, ck),
        forall|ik2: Seq<char>, ck2: Seq<char>|
            !(ik2 == ik && ck2 == ck) ==> listed(n, ik2, ck2) == listed(o, ik2, ck2),
        forall|ik2: Seq<char>| has_key(n, ik2) <==> (has_key(o, ik2) || ik2 == ik),
        forall|nm: Seq<char>| appears(n, nm) <==> (appears(o, nm) || nm == ck),
{
    let last = n.len() - 1;
    assert(listed(n, ik, ck)) by {
        assert(has_name(n[last].1@, ck)) by {
            assert(n[last].1@[0]@ == ck);
        }
    }
    assert forall|ik2: Seq<char>, ck2: Seq<char>| !(ik2 == ik && ck2 == ck) implies listed(
        n,
        ik2,
        ck2,
    ) == listed(o, ik2, ck2) by {
        if listed(o, ik2, ck2) {
            let t = choose|t: int| 0 <= t < o.len() && o[t].0@ == ik2 && has_name(o[t].1@, ck2);
            assert(n[t].0@ == ik2 && has_name(n[t].1@, ck2));
        }
        if listed(n, ik2, ck2) {
            let t = choose|t: int| 0 <= t < n.len() && n[t].0@ == ik2 && has_name(n[t].1@, ck2);
            if t == last {
                assert(ik2 == ik);
                let p = choose|p: int| 0 <= p < n[last].1@.len() && n[last].1@[p]@ == ck2;
                assert(p == 0);
                assert(ck2 == ck);
            } else {
                assert(listed(o, ik2, ck2));
            }
        }
    }
    assert forall|ik2: Seq<char>| has_key(n, ik2) <==> (has_key(o, ik2) || ik2 == ik) by {
        if has_key(o, ik2) {
            let t = choose|t: int| 0 <= t < o.len() && o[t].0@ == ik2;
            assert(n[t].0@ == ik2);
        }
        if ik2 == ik {
            assert(n[last].0@ == ik2);
        }
        if has_key(n, ik2) {
            let t = choose|t: int| 0 <= t < n.len() && n[t].0@ == ik2;
            if t == last {
                assert(ik2 == ik);
            } else {
                assert(has_key(o, ik2));
            }
        }
    }
    assert forall|nm: Seq<char>| appears(n, nm) <==> (appears(o, nm) || nm == ck) by {
        if appears(o, nm) {
            let (t, p): (int, int) = choose|t: int, p: int|
                0 <= t < o.len() && 0 <= p < o[t].1@.len() && o[t].1@[p]@ == nm;
            assert(n[t].1@[p]@ == nm);
            assert(appears(n, nm));
        }
        if nm == ck {
            assert(n[last].1@[0]@ == nm);
            assert(appears(n, nm));
        }
        if appears(n, nm) {
            let (t, p): (int, int) = choose|t: int, p: int|
                0 <= t < n.len() && 0 <= p < n[t].1@.len() && n[t].1@[p]@ == nm;
            if t == last {
                assert(p == 0);
                assert(nm == ck);
            } else {
                assert(o[t].1@[p]@ == nm);
                assert(appears(o, nm));
            }
        }
    }
}


} // verus!
