//! The industry ledger: company membership per industry plus one
//! `(layoffs, year)` fact per company, with the aggregation queries.
//!
//! Membership is additive: a company re-added under a second industry
//! stays listed under the first as well.  Facts overwrite: the latest
//! `(layoffs, year)` pair for a company name wins.

use vstd::prelude::*;
use crate::ratio::{spec_make, Ratio};
use crate::assoc::{
    assoc_find, contains_name, find_key, has_key, has_name, keys_unique, lemma_assoc_find_agree,
    lemma_assoc_find_at, lemma_assoc_find_none, lemma_assoc_find_push_other, lemma_listing_grown,
    lemma_listing_pushed, listed, names_unique,
};

verus! {

/// Whether industry `ik` lists company `ck` in `ind`.
pub open spec fn company_in(ind: Seq<(String, Vec<String>)>, ik: Seq<char>, ck: Seq<char>) -> bool {
    listed(ind, ik, ck)
}

/// Industry membership and per-company layoff facts.
///
/// `industries` maps an industry name to the set of company names ever
/// added under it (kept duplicate-free); `company_layoffs` maps a
/// company name to its most recently written `(layoffs, year)` pair.
pub struct LayoffsGraph {
    pub industries: Vec<(String, Vec<String>)>,
    pub company_layoffs: Vec<(String, (u32, u32))>,
}

impl LayoffsGraph {
    /// Both maps have unique keys and each membership set is
    /// duplicate-free.
    pub open spec fn wf(self) -> bool {
        &&& keys_unique(self.industries@)
        &&& keys_unique(self.company_layoffs@)
        &&& forall|j: int|
            0 <= j < self.industries@.len() ==> names_unique(#[trigger] self.industries@[j].1@)
    }

    /// An empty ledger.
    pub fn new() -> (g: LayoffsGraph)
        ensures
            g.wf(),
            g.industries@.len() == 0,
            g.company_layoffs@.len() == 0,
    {
        LayoffsGraph { industries: Vec::new(), company_layoffs: Vec::new() }
    }

    /// Records `company` under `industry` and writes its fact pair.
    ///
    /// Membership is inserted additively (the company joins the
    /// industry's set if not already there; other memberships are
    /// untouched), while the fact pair overwrites any earlier one for
    /// the same company name.
    pub fn add_company(&mut self, company: String, industry: String, year: u32, layoffs: u32)
        requires
            old(self).wf(),
        ensures
            final(self).wf(),
            // the fact map after: company |-> (layoffs, year), rest unchanged
            assoc_find(final(self).company_layoffs@, company@) == Some((layoffs, year)),
            forall|k: Seq<char>|
                k != company@ ==> assoc_find(final(self).company_layoffs@, k) == assoc_find(
                    old(self).company_layoffs@,
                    k,
                ),
            // the membership map after: (industry, company) present, rest unchanged
            company_in(final(self).industries@, industry@, company@),
            forall|ik: Seq<char>, ck: Seq<char>|
                !(ik == industry@ && ck == company@) ==> company_in(
                    final(self).industries@,
                    ik,
                    ck,
                ) == company_in(old(self).industries@, ik, ck),
            forall|ik: Seq<char>|
                has_key(final(self).industries@, ik) <==> (has_key(old(self).industries@, ik)
                    || ik == industry@),
    {
        let ghost o_ind = self.industries@;
        match find_key(&self.industries, &industry) {
            Some(j) => {
                let present = contains_name(&self.industries[j].1, &company);
                if !present {
                    let (nm, mut names) = self.industries.remove(j);
                    names.push(company.clone());
                    self.industries.insert(j, (nm, names));
                    proof {
                        let n_ind = self.industries@;
                        assert(n_ind =~= o_ind.update(j as int, n_ind[j as int]));
                        assert(n_ind[j as int].0 == o_ind[j as int].0);
                        assert(n_ind[j as int].1@ =~= o_ind[j as int].1@.push(
                            n_ind[j as int].1@.last(),
                        ));
                        assert(n_ind[j as int].1@.last()@ == company@);
                        lemma_listing_grown(o_ind, n_ind, j as int, industry@, company@);
                    }
                }
            },
            None => {
                let mut names: Vec<String> = Vec::new();
                names.push(company.clone());
                self.industries.push((industry, names));
                proof {
                    let n_ind = self.industries@;
                    assert(n_ind =~= o_ind.push(n_ind.last()));
                    lemma_listing_pushed(o_ind, n_ind, industry@, company@);
                }
            },
        }
        let ghost o_facts = self.company_layoffs@;
        match find_key(&self.company_layoffs, &company) {
            Some(j) => {
                let (nm, _old_fact) = self.company_layoffs.remove(j);
                self.company_layoffs.insert(j, (nm, (layoffs, year)));
                proof {
                    let n_facts = self.company_layoffs@;
                    assert(n_facts =~= o_facts.update(j as int, n_facts[j as int]));
                    lemma_assoc_find_at(n_facts, company@, j as int);
                    assert forall|k: Seq<char>| k != company@ implies assoc_find(n_facts, k)
                        == assoc_find(o_facts, k) by {
                        lemma_assoc_find_agree(o_facts, n_facts, k);
                    }
                }
            },
            None => {
                self.company_layoffs.push((company, (layoffs, year)));
                proof {
                    let n_facts = self.company_layoffs@;
                    lemma_assoc_find_at(n_facts, n_facts.last().0@, n_facts.len() - 1);
                    assert forall|k: Seq<char>| k != n_facts.last().0@ implies assoc_find(
                        n_facts,
                        k,
                    ) == assoc_find(o_facts, k) by {
                        assert(n_facts =~= o_facts.push(n_facts.last()));
                        lemma_assoc_find_push_other(o_facts, n_facts.last(), k);
                    }
                }
            },
        }
    }
}

impl LayoffsGraph {
    /// Whether the ledger has an entry for `industry`.
    pub fn has_industry(&self, industry: &String) -> (r: bool)
        ensures
            r == has_key(self.industries@, industry@),
    {
        match find_key(&self.industries, industry) {
            Some(j) => {
                proof {
                    assert(self.industries@[j as int].0@ == industry@);
                }
                true
            },
            None => {
                proof {
                    if has_key(self.industries@, industry@) {
                        let i = choose|i: int|
                            0 <= i < self.industries@.len() && self.industries@[i].0@ == industry@;
                        assert(false);
                    }
                }
                false
            },
        }
    }

    /// Whether `industry` lists `company`.
    pub fn industry_has_company(&self, industry: &String, company: &String) -> (r: bool)
        requires
            self.wf(),
        ensures
            r == company_in(self.industries@, industry@, company@),
    {
        match find_key(&self.industries, industry) {
            Some(j) => {
                let r = contains_name(&self.industries[j].1, company);
                proof {
                    if r {
                        assert(company_in(self.industries@, industry@, company@)) by {
                            assert(self.industries@[j as int].0@ == industry@);
                        }
                    } else if company_in(self.industries@, industry@, company@) {
                        let t = choose|t: int|
                            0 <= t < self.industries@.len() && self.industries@[t].0@ == industry@
                                && has_name(self.industries@[t].1@, company@);
                        assert(t == j as int);
                    }
                }
                r
            },
            None => {
                proof {
                    if company_in(self.industries@, industry@, company@) {
                        let t = choose|t: int|
                            0 <= t < self.industries@.len() && self.industries@[t].0@ == industry@
                                && has_name(self.industries@[t].1@, company@);
                        assert(false);
                    }
                }
                false
            },
        }
    }

    /// The fact pair recorded for `company`, if any.
    pub fn get_company_fact(&self, company: &String) -> (r: Option<(u32, u32)>)
        ensures
            r == assoc_find(self.company_layoffs@, company@),
    {
        match find_key(&self.company_layoffs, company) {
            Some(j) => {
                proof {
                    lemma_assoc_find_at(self.company_layoffs@, company@, j as int);
                }
                Some(self.company_layoffs[j].1)
            },
            None => {
                proof {
                    lemma_assoc_find_none(self.company_layoffs@, company@);
                }
                None
            },
        }
    }
}

/// The fact pairs of the listed companies that have one, in listing
/// order; companies without a recorded fact contribute nothing.
pub open spec fn known_facts(
    facts: Seq<(String, (u32, u32))>,
    companies: Seq<String>,
) -> Seq<(u32, u32)>
    decreases companies.len(),
{
    if companies.len() == 0 {
        Seq::empty()
    } else {
        let rest = known_facts(facts, companies.drop_last());
        match assoc_find(facts, companies.last()@) {
            Some(f) => rest.push(f),
            None => rest,
        }
    }
}

/// Total layoffs over a sequence of fact pairs.
pub open spec fn sum_layoffs(fs: Seq<(u32, u32)>) -> int
    decreases fs.len(),
{
    if fs.len() == 0 {
        0
    } else {
        sum_layoffs(fs.drop_last()) + fs.last().0
    }
}

/// Total years over a sequence of fact pairs.
pub open spec fn sum_years(fs: Seq<(u32, u32)>) -> int
    decreases fs.len(),
{
    if fs.len() == 0 {
        0
    } else {
        sum_years(fs.drop_last()) + fs.last().1
    }
}

/// One row of [`LayoffsGraph::get_industry_summary`].
#[derive(Clone, Copy, PartialEq, Eq, Structural, Debug)]
pub struct IndustrySummary {
    /// How many companies the industry lists.
    pub company_count: usize,
    /// Total layoffs over its companies with known facts.
    pub total_layoffs: u128,
    /// `total_layoffs / company_count`, or zero for an empty industry.
    pub average_layoffs: Ratio,
    /// Summed years over known facts divided by `company_count`.
    pub average_year: Ratio,
}

/// The summary row an industry with the given membership receives.
pub open spec fn summary_of(facts: Seq<(String, (u32, u32))>, companies: Seq<String>) -> IndustrySummary {
    let kf = known_facts(facts, companies);
    IndustrySummary {
        company_count: companies.len() as usize,
        total_layoffs: sum_layoffs(kf) as u128,
        average_layoffs: spec_make(sum_layoffs(kf), companies.len() as int),
        average_year: spec_make(sum_years(kf), companies.len() as int),
    }
}

impl LayoffsGraph {
    /// Sums the layoffs and years of the listed companies with known
    /// facts, and counts how many had one.
    fn totals_of(facts: &Vec<(String, (u32, u32))>, companies: &Vec<String>) -> (r: (
        u128,
        u128,
        usize,
    ))
        ensures
            ({
                let kf = known_facts(facts@, companies@);
                r.0 == sum_layoffs(kf) && r.1 == sum_years(kf) && r.2 == kf.len()
            }),
    {
        let n = companies.len();
        let mut tl: u128 = 0;
        let mut ty: u128 = 0;
        let mut kc: usize = 0;
        let mut i: usize = 0;
        while i < n
            invariant
                0 <= i <= n == companies@.len(),
                ({
                    let kf = known_facts(facts@, companies@.subrange(0, i as int));
                    tl == sum_layoffs(kf) && ty == sum_years(kf) && kc == kf.len()
                }),
                kc <= i,
                tl <= i * 0xffff_ffff,
                ty <= i * 0xffff_ffff,
            decreases n - i,
        {
            match find_key(facts, &companies[i]) {
                Some(j) => {
                    proof {
                        lemma_assoc_find_at(facts@, companies@[i as int]@, j as int);
                    }
                    let f = facts[j].1;
                    tl = tl + f.0 as u128;
                    ty = ty + f.1 as u128;
                    kc = kc + 1;
                },
                None => {
                    proof {
                        lemma_assoc_find_none(facts@, companies@[i as int]@);
                    }
                },
            }
            proof {
                let pre = companies@.subrange(0, i as int);
                let ext = companies@.subrange(0, i as int + 1);
                assert(ext.drop_last() =~= pre);
                assert(ext.last() == companies@[i as int]);
                let kfp = known_facts(facts@, pre);
                match assoc_find(facts@, companies@[i as int]@) {
                    Some(f) => {
                        assert(known_facts(facts@, ext) == kfp.push(f));
                        assert(kfp.push(f).drop_last() =~= kfp);
                        assert(kfp.push(f).last() == f);
                    },
                    None => {
                        assert(known_facts(facts@, ext) == kfp);
                    },
                }
            }
            i += 1;
        }
        proof {
            assert(companies@.subrange(0, n as int) =~= companies@);
        }
        (tl, ty, kc)
    }

    /// One summary row per industry, in the ledger's listing order:
    /// company count, total layoffs, and the exact average layoffs and
    /// average year over the full company count (an empty industry
    /// averages to zero rather than failing).
    pub fn get_industry_summary(&self) -> (r: Vec<(String, IndustrySummary)>)
        ensures
            r@.len() == self.industries@.len(),
            forall|j: int|
                0 <= j < r@.len() ==> (#[trigger] r@[j]).0@ == self.industries@[j].0@
                    && r@[j].1 == summary_of(self.company_layoffs@, self.industries@[j].1@),
    {
        let n = self.industries.len();
        let mut out: Vec<(String, IndustrySummary)> = Vec::new();
        let mut j: usize = 0;
        while j < n
            invariant
                0 <= j <= n == self.industries@.len(),
                out@.len() == j,
                forall|t: int|
                    0 <= t < j ==> (#[trigger] out@[t]).0@ == self.industries@[t].0@
                        && out@[t].1 == summary_of(self.company_layoffs@, self.industries@[t].1@),
            decreases n - j,
        {
            let (tl, ty, _kc) = Self::totals_of(&self.company_layoffs, &self.industries[j].1);
            let count = self.industries[j].1.len();
            let row = IndustrySummary {
                company_count: count,
                total_layoffs: tl,
                average_layoffs: Ratio::make(tl, count as u128),
                average_year: Ratio::make(ty, count as u128),
            };
            out.push((self.industries[j].0.clone(), row));
            j += 1;
        }
        out
    }

    /// The exact average year per industry, in listing order: summed
    /// known years divided by the industry's full company count, zero
    /// for an empty industry.
    pub fn calculate_average_year_per_industry(&self) -> (r: Vec<(String, Ratio)>)
        ensures
            r@.len() == self.industries@.len(),
            forall|j: int|
                0 <= j < r@.len() ==> (#[trigger] r@[j]).0@ == self.industries@[j].0@ && r@[j].1
                    == spec_make(
                    sum_years(known_facts(self.company_layoffs@, self.industries@[j].1@)),
                    self.industries@[j].1@.len() as int,
                ),
    {
        let n = self.industries.len();
        let mut out: Vec<(String, Ratio)> = Vec::new();
        let mut j: usize = 0;
        while j < n
            invariant
                0 <= j <= n == self.industries@.len(),
                out@.len() == j,
                forall|t: int|
                    0 <= t < j ==> (#[trigger] out@[t]).0@ == self.industries@[t].0@ && out@[t].1
                        == spec_make(
                        sum_years(known_facts(self.company_layoffs@, self.industries@[t].1@)),
                        self.industries@[t].1@.len() as int,
                    ),
            decreases n - j,
        {
            let (_tl, ty, _kc) = Self::totals_of(&self.company_layoffs, &self.industries[j].1);
            let count = self.industries[j].1.len();
            out.push((self.industries[j].0.clone(), Ratio::make(ty, count as u128)));
            j += 1;
        }
        out
    }

    /// How many companies each industry lists, in listing order.
    pub fn calculate_degree_centrality(&self) -> (r: Vec<(String, usize)>)
        ensures
            r@.len() == self.industries@.len(),
            forall|j: int|
                0 <= j < r@.len() ==> (#[trigger] r@[j]).0@ == self.industries@[j].0@ && r@[j].1
                    == self.industries@[j].1@.len(),
    {
        let n = self.industries.len();
        let mut out: Vec<(String, usize)> = Vec::new();
        let mut j: usize = 0;
        while j < n
            invariant
                0 <= j <= n == self.industries@.len(),
                out@.len() == j,
                forall|t: int|
                    0 <= t < j ==> (#[trigger] out@[t]).0@ == self.industries@[t].0@ && out@[t].1
                        == self.industries@[t].1@.len(),
            decreases n - j,
        {
            out.push((self.industries[j].0.clone(), self.industries[j].1.len()));
            j += 1;
        }
        out
    }
}

/// The `(company, layoffs)` pairs an industry's listing produces: one
/// per listed company with a known fact, in listing order.
pub open spec fn connections(
    facts: Seq<(String, (u32, u32))>,
    companies: Seq<String>,
) -> Seq<(Seq<char>, u32)>
    decreases companies.len(),
{
    if companies.len() == 0 {
        Seq::empty()
    } else {
        let rest = connections(facts, companies.drop_last());
        match assoc_find(facts, companies.last()@) {
            Some(f) => rest.push((companies.last()@, f.0)),
            None => rest,
        }
    }
}

/// A vector of `(name, layoffs)` pairs realises a specification-level
/// connection sequence, position for position.
pub open spec fn conns_match(v: Seq<(String, u32)>, c: Seq<(Seq<char>, u32)>) -> bool {
    v.len() == c.len() && forall|p: int|
        0 <= p < v.len() ==> (#[trigger] v[p]).0@ == c[p].0 && v[p].1 == c[p].1
}

/// The layoff counts of the listed companies with a known fact, in
/// listing order.
pub open spec fn known_layoffs(
    facts: Seq<(String, (u32, u32))>,
    companies: Seq<String>,
) -> Seq<u32>
    decreases companies.len(),
{
    if companies.len() == 0 {
        Seq::empty()
    } else {
        let rest = known_layoffs(facts, companies.drop_last());
        match assoc_find(facts, companies.last()@) {
            Some(f) => rest.push(f.0),
            None => rest,
        }
    }
}

/// `s` with `x` placed before its first element that is `>= x`.
pub open spec fn insert_sorted(s: Seq<u32>, x: u32) -> Seq<u32>
    decreases s.len(),
{
    if s.len() == 0 {
        seq![x]
    } else if x <= s[0] {
        seq![x] + s
    } else {
        seq![s[0]] + insert_sorted(s.drop_first(), x)
    }
}

/// `s` sorted ascending by repeated ordered insertion.
pub open spec fn sort_spec(s: Seq<u32>) -> Seq<u32>
    decreases s.len(),
{
    if s.len() == 0 {
        s
    } else {
        insert_sorted(sort_spec(s.drop_last()), s.last())
    }
}

/// A sample in ascending order.
pub open spec fn sorted_asc(s: Seq<u32>) -> bool {
    forall|i: int, j: int| 0 <= i < j < s.len() ==> s[i] <= s[j]
}

/// Ordered insertion keeps a sample sorted and adds exactly the new
/// value to its contents.
pub proof fn lemma_insert_sorted_props(s: Seq<u32>, x: u32)
    requires
        sorted_asc(s),
    ensures
        sorted_asc(insert_sorted(s, x)),
        insert_sorted(s, x).to_multiset() =~= s.to_multiset().insert(x),
        insert_sorted(s, x).len() == s.len() + 1,
    decreases s.len(),
{
    broadcast use vstd::seq_lib::group_to_multiset_ensures;
    broadcast use vstd::multiset::group_multiset_axioms;

    let r = insert_sorted(s, x);
    if s.len() == 0 {
        assert(r =~= Seq::<u32>::empty().push(x));
        assert(r.to_multiset() =~= s.to_multiset().insert(x));
    } else if x <= s[0] {
        assert(r == seq![x] + s);
        assert(forall|k: int| 0 <= k < s.len() ==> r[k + 1] == s[k]);
        assert(sorted_asc(r)) by {
            assert(forall|j: int| 1 <= j < r.len() ==> x <= r[j]);
        }
        vstd::seq_lib::lemma_multiset_commutative(seq![x], s);
        assert(seq![x] =~= Seq::<u32>::empty().push(x));
        assert(r.to_multiset() =~= s.to_multiset().insert(x));
    } else {
        let t = s.drop_first();
        assert(forall|k: int| 0 <= k < t.len() ==> t[k] == s[k + 1]);
        lemma_insert_sorted_props(t, x);
        let tins = insert_sorted(t, x);
        assert(r == seq![s[0]] + tins);
        assert(forall|k: int| 0 <= k < tins.len() ==> r[k + 1] == tins[k]);
        assert forall|k: int| 0 <= k < tins.len() implies s[0] <= tins[k] by {
            assert(tins.contains(tins[k]));
            assert(tins.to_multiset().count(tins[k]) > 0);
            if tins[k] == x {
                assert(s[0] < x);
            } else {
                assert(t.to_multiset().count(tins[k]) > 0);
                assert(t.contains(tins[k]));
                let w = choose|w: int| 0 <= w < t.len() && t[w] == tins[k];
                assert(s[0] <= s[w + 1]);
            }
        }
        assert(sorted_asc(r));
        vstd::seq_lib::lemma_multiset_commutative(seq![s[0]], tins);
        vstd::seq_lib::lemma_multiset_commutative(seq![s[0]], t);
        assert(seq![s[0]] + t =~= s);
        assert(seq![s[0]] =~= Seq::<u32>::empty().push(s[0]));
        assert(r.to_multiset() =~= s.to_multiset().insert(x));
    }
}

/// The sorting the median queries rely on really sorts: its result is
/// ascending and holds exactly the input's values.
pub proof fn lemma_sort_spec_props(s: Seq<u32>)
    ensures
        sorted_asc(sort_spec(s)),
        sort_spec(s).to_multiset() =~= s.to_multiset(),
        sort_spec(s).len() == s.len(),
    decreases s.len(),
{
    broadcast use vstd::seq_lib::group_to_multiset_ensures;
    broadcast use vstd::multiset::group_multiset_axioms;

    if s.len() > 0 {
        let dl = s.drop_last();
        lemma_sort_spec_props(dl);
        lemma_insert_sorted_props(sort_spec(dl), s.last());
        assert(s =~= dl.push(s.last()));
        assert(sort_spec(s).to_multiset() =~= s.to_multiset());
    }
}

proof fn lemma_insert_sorted_at(s: Seq<u32>, x: u32, j: int)
    requires
        0 <= j <= s.len(),
        forall|i: int| 0 <= i < j ==> s[i] < x,
        j < s.len() ==> x <= s[j],
    ensures
        insert_sorted(s, x) == s.subrange(0, j) + seq![x] + s.subrange(j, s.len() as int),
    decreases s.len(),
{
    if s.len() == 0 {
        assert(insert_sorted(s, x) =~= s.subrange(0, j) + seq![x] + s.subrange(j, s.len() as int));
    } else if j == 0 {
        assert(seq![x] + s =~= s.subrange(0, 0) + seq![x] + s.subrange(0, s.len() as int));
    } else {
        let t = s.drop_first();
        assert(forall|i: int| 0 <= i < j - 1 ==> t[i] == s[i + 1]);
        lemma_insert_sorted_at(t, x, j - 1);
        assert(seq![s[0]] + insert_sorted(t, x) =~= s.subrange(0, j) + seq![x] + s.subrange(
            j,
            s.len() as int,
        ));
    }
}

/// Inserts `x` into `v` before the first element that is `>= x`.
fn insert_in_order(v: &mut Vec<u32>, x: u32)
    ensures
        final(v)@ == insert_sorted(old(v)@, x),
{
    let ghost orig = v@;
    let n = v.len();
    let mut j: usize = 0;
    loop
        invariant
            v@ == orig,
            0 <= j <= n == v@.len(),
            forall|i: int| 0 <= i < j ==> v@[i] < x,
        ensures
            v@ == orig,
            0 <= j <= n,
            forall|i: int| 0 <= i < j ==> v@[i] < x,
            j < n ==> x <= v@[j as int],
        decreases n - j,
    {
        if j == n {
            break;
        }
        if x <= v[j] {
            break;
        }
        j += 1;
    }
    v.insert(j, x);
    proof {
        lemma_insert_sorted_at(orig, x, j as int);
        assert(orig.insert(j as int, x) =~= orig.subrange(0, j as int) + seq![x] + orig.subrange(
            j as int,
            orig.len() as int,
        ));
    }
}

/// A copy of `data` sorted ascending.
fn sorted_copy(data: &Vec<u32>) -> (r: Vec<u32>)
    ensures
        r@ == sort_spec(data@),
{
    let n = data.len();
    let mut out: Vec<u32> = Vec::new();
    let mut i: usize = 0;
    while i < n
        invariant
            0 <= i <= n == data@.len(),
            out@ == sort_spec(data@.subrange(0, i as int)),
        decreases n - i,
    {
        insert_in_order(&mut out, data[i]);
        proof {
            let pre = data@.subrange(0, i as int);
            let ext = data@.subrange(0, i as int + 1);
            assert(ext.drop_last() =~= pre);
            assert(ext.last() == data@[i as int]);
        }
        i += 1;
    }
    proof {
        assert(data@.subrange(0, n as int) =~= data@);
    }
    out
}

impl LayoffsGraph {
    /// The layoff counts of the listed companies with known facts.
    fn known_layoffs_of(facts: &Vec<(String, (u32, u32))>, companies: &Vec<String>) -> (r: Vec<
        u32,
    >)
        ensures
            r@ == known_layoffs(facts@, companies@),
    {
        let n = companies.len();
        let mut out: Vec<u32> = Vec::new();
        let mut i: usize = 0;
        while i < n
            invariant
                0 <= i <= n == companies@.len(),
                out@ == known_layoffs(facts@, companies@.subrange(0, i as int)),
            decreases n - i,
        {
            match find_key(facts, &companies[i]) {
                Some(j) => {
                    proof {
                        lemma_assoc_find_at(facts@, companies@[i as int]@, j as int);
                    }
                    out.push(facts[j].1.0);
                },
                None => {
                    proof {
                        lemma_assoc_find_none(facts@, companies@[i as int]@);
                    }
                },
            }
            proof {
                let pre = companies@.subrange(0, i as int);
                let ext = companies@.subrange(0, i as int + 1);
                assert(ext.drop_last() =~= pre);
                assert(ext.last() == companies@[i as int]);
            }
            i += 1;
        }
        proof {
            assert(companies@.subrange(0, n as int) =~= companies@);
        }
        out
    }

    /// For each industry, in listing order, the companies it lists that
    /// have a known fact, each paired with its layoff count.
    pub fn to_adjacency_list(&self) -> (r: Vec<(String, Vec<(String, u32)>)>)
        ensures
            r@.len() == self.industries@.len(),
            forall|j: int|
                0 <= j < r@.len() ==> (#[trigger] r@[j]).0@ == self.industries@[j].0@
                    && conns_match(
                    r@[j].1@,
                    connections(self.company_layoffs@, self.industries@[j].1@),
                ),
    {
        let n = self.industries.len();
        let mut out: Vec<(String, Vec<(String, u32)>)> = Vec::new();
        let mut j: usize = 0;
        while j < n
            invariant
                0 <= j <= n == self.industries@.len(),
                out@.len() == j,
                forall|t: int|
                    0 <= t < j ==> (#[trigger] out@[t]).0@ == self.industries@[t].0@
                        && conns_match(
                        out@[t].1@,
                        connections(self.company_layoffs@, self.industries@[t].1@),
                    ),
            decreases n - j,
        {
            let conns = Self::connections_of(&self.company_layoffs, &self.industries[j].1);
            out.push((self.industries[j].0.clone(), conns));
            j += 1;
        }
        out
    }

    /// The `(company, layoffs)` pairs of the listed companies with a
    /// known fact.
    fn connections_of(facts: &Vec<(String, (u32, u32))>, companies: &Vec<String>) -> (r: Vec<(
        String,
        u32,
    )>)
        ensures
            conns_match(r@, connections(facts@, companies@)),
    {
        let n = companies.len();
        let mut out: Vec<(String, u32)> = Vec::new();
        let mut i: usize = 0;
        while i < n
            invariant
                0 <= i <= n == companies@.len(),
                conns_match(out@, connections(facts@, companies@.subrange(0, i as int))),
            decreases n - i,
        {
            match find_key(facts, &companies[i]) {
                Some(j) => {
                    proof {
                        lemma_assoc_find_at(facts@, companies@[i as int]@, j as int);
                    }
                    out.push((companies[i].clone(), facts[j].1.0));
                },
                None => {
                    proof {
                        lemma_assoc_find_none(facts@, companies@[i as int]@);
                    }
                },
            }
            proof {
                let pre = companies@.subrange(0, i as int);
                let ext = companies@.subrange(0, i as int + 1);
                assert(ext.drop_last() =~= pre);
                assert(ext.last() == companies@[i as int]);
            }
            i += 1;
        }
        proof {
            assert(companies@.subrange(0, n as int) =~= companies@);
        }
        out
    }

    /// The exact median layoff count per industry in `data`, in its
    /// listing order: computed on the ascending-sorted layoff counts of
    /// the listed companies with known facts; an empty sample yields
    /// exactly zero.
    pub fn calculate_median_per_industry(&self, data: &Vec<(String, Vec<String>)>) -> (r: Vec<(
        String,
        Ratio,
    )>)
        ensures
            r@.len() == data@.len(),
            forall|j: int|
                0 <= j < r@.len() ==> (#[trigger] r@[j]).0@ == data@[j].0@ && r@[j].1
                    == crate::stats::spec_median(
                    sort_spec(known_layoffs(self.company_layoffs@, data@[j].1@)),
                ),
    {
        let n = data.len();
        let mut out: Vec<(String, Ratio)> = Vec::new();
        let mut j: usize = 0;
        while j < n
            invariant
                0 <= j <= n == data@.len(),
                out@.len() == j,
                forall|t: int|
                    0 <= t < j ==> (#[trigger] out@[t]).0@ == data@[t].0@ && out@[t].1
                        == crate::stats::spec_median(
                        sort_spec(known_layoffs(self.company_layoffs@, data@[t].1@)),
                    ),
            decreases n - j,
        {
            let xs = Self::known_layoffs_of(&self.company_layoffs, &data[j].1);
            let sorted = sorted_copy(&xs);
            let m = crate::stats::calculate_median(&sorted);
            out.push((data[j].0.clone(), m));
            j += 1;
        }
        out
    }
}

/// How many times `v` occurs in `s`.
pub open spec fn count_of(s: Seq<u32>, v: u32) -> int
    decreases s.len(),
{
    if s.len() == 0 {
        0
    } else {
        count_of(s.drop_last(), v) + if s.last() == v {
            1int
        } else {
            0int
        }
    }
}

/// `m` is the mode of `s`: a most frequent value, with ties broken
/// towards the smallest value, and `0` for an empty sample.
pub open spec fn is_mode(s: Seq<u32>, m: u32) -> bool {
    if s.len() == 0 {
        m == 0
    } else {
        s.contains(m) && forall|v: u32|
            s.contains(v) ==> count_of(s, v) <= count_of(s, m) && (count_of(s, v) == count_of(
                s,
                m,
            ) ==> m <= v)
    }
}

/// Occurrences of `v` in `s`.
fn count_occurrences(s: &Vec<u32>, v: u32) -> (c: usize)
    ensures
        c == count_of(s@, v),
{
    let n = s.len();
    let mut c: usize = 0;
    let mut i: usize = 0;
    while i < n
        invariant
            0 <= i <= n == s@.len(),
            c == count_of(s@.subrange(0, i as int), v),
            c <= i,
        decreases n - i,
    {
        proof {
            let pre = s@.subrange(0, i as int);
            let ext = s@.subrange(0, i as int + 1);
            assert(ext.drop_last() =~= pre);
            assert(ext.last() == s@[i as int]);
        }
        if s[i] == v {
            c += 1;
        }
        i += 1;
    }
    proof {
        assert(s@.subrange(0, n as int) =~= s@);
    }
    c
}

/// The mode of `s`: its most frequent value, smallest value first on a
/// tie in frequency, and `0` for an empty sample.
fn mode_of(s: &Vec<u32>) -> (m: u32)
    ensures
        is_mode(s@, m),
{
    let n = s.len();
    if n == 0 {
        return 0;
    }
    let mut best_val = s[0];
    let mut best_cnt = count_occurrences(s, best_val);
    let mut i: usize = 1;
    while i < n
        invariant
            1 <= i <= n == s@.len(),
            s@.contains(best_val),
            best_cnt == count_of(s@, best_val),
            forall|p: int|
                0 <= p < i ==> count_of(s@, #[trigger] s@[p]) < best_cnt || (count_of(s@, s@[p])
                    == best_cnt && best_val <= s@[p]),
        decreases n - i,
    {
        let c = count_occurrences(s, s[i]);
        if c > best_cnt || (c == best_cnt && s[i] < best_val) {
            best_val = s[i];
            best_cnt = c;
        }
        i += 1;
    }
    proof {
        assert forall|v: u32| s@.contains(v) implies count_of(s@, v) <= count_of(s@, best_val) && (
        count_of(s@, v) == count_of(s@, best_val) ==> best_val <= v) by {
            let p = choose|p: int| 0 <= p < s@.len() && s@[p] == v;
            assert(count_of(s@, s@[p]) < best_cnt || (count_of(s@, s@[p]) == best_cnt && best_val
                <= s@[p]));
        }
    }
    best_val
}

impl LayoffsGraph {
    /// The most frequent layoff count per industry in `data`, in its
    /// listing order, over the listed companies with known facts; ties
    /// go to the smallest value, and an empty sample yields `0`.
    pub fn calculate_mode_per_industry(&self, data: &Vec<(String, Vec<String>)>) -> (r: Vec<(
        String,
        u32,
    )>)
        ensures
            r@.len() == data@.len(),
            forall|j: int|
                0 <= j < r@.len() ==> (#[trigger] r@[j]).0@ == data@[j].0@ && is_mode(
                    known_layoffs(self.company_layoffs@, data@[j].1@),
                    r@[j].1,
                ),
    {
        let n = data.len();
        let mut out: Vec<(String, u32)> = Vec::new();
        let mut j: usize = 0;
        while j < n
            invariant
                0 <= j <= n == data@.len(),
                out@.len() == j,
                forall|t: int|
                    0 <= t < j ==> (#[trigger] out@[t]).0@ == data@[t].0@ && is_mode(
                        known_layoffs(self.company_layoffs@, data@[t].1@),
                        out@[t].1,
                    ),
            decreases n - j,
        {
            let xs = Self::known_layoffs_of(&self.company_layoffs, &data[j].1);
            let m = mode_of(&xs);
            out.push((data[j].0.clone(), m));
            j += 1;
        }
        out
    }
}

/// The sum of a sequence of layoff counts.
pub open spec fn sum_u32s(s: Seq<u32>) -> int
    decreases s.len(),
{
    if s.len() == 0 {
        0
    } else {
        sum_u32s(s.drop_last()) + s.last()
    }
}

/// The summed squared deviations of `xs` from `s / c`, scaled by `c^2`
/// to stay integral: the sum over `x` in `xs` of `(c*x - s)^2`.
pub open spec fn scaled_square_dev(xs: Seq<u32>, c: int, s: int) -> int
    decreases xs.len(),
{
    if xs.len() == 0 {
        0
    } else {
        scaled_square_dev(xs.drop_last(), c, s) + (c * xs.last() - s) * (c * xs.last() - s)
    }
}

/// The population variance an industry's listing produces: squared
/// deviations of the known layoff counts from their mean over the full
/// company count `c`, divided by `c` — as the exact rational
/// `scaled_square_dev / c^3`.  An empty industry yields exactly zero.
pub open spec fn variance_of(facts: Seq<(String, (u32, u32))>, companies: Seq<String>) -> Ratio {
    let c = companies.len() as int;
    if c == 0 {
        Ratio { num: 0u128, den: 1u128 }
    } else {
        let xs = known_layoffs(facts, companies);
        let s = sum_u32s(xs);
        Ratio { num: scaled_square_dev(xs, c, s) as u128, den: (c * c * c) as u128 }
    }
}

proof fn lemma_known_layoffs_len(facts: Seq<(String, (u32, u32))>, companies: Seq<String>)
    ensures
        known_layoffs(facts, companies).len() <= companies.len(),
    decreases companies.len(),
{
    if companies.len() > 0 {
        lemma_known_layoffs_len(facts, companies.drop_last());
    }
}

proof fn lemma_sum_u32s_bound(s: Seq<u32>)
    ensures
        0 <= sum_u32s(s) <= s.len() * 0xffff_ffff,
    decreases s.len(),
{
    if s.len() > 0 {
        lemma_sum_u32s_bound(s.drop_last());
    }
}

impl LayoffsGraph {
    /// The variance of one industry listing, as `variance_of` gives it.
    fn variance_calc(facts: &Vec<(String, (u32, u32))>, companies: &Vec<String>) -> (r: Ratio)
        requires
            companies@.len() <= 0x20_0000,
        ensures
            r == variance_of(facts@, companies@),
            r.wf(),
    {
        let c = companies.len();
        if c == 0 {
            return Ratio::zero();
        }
        let xs = Self::known_layoffs_of(facts, companies);
        proof {
            lemma_known_layoffs_len(facts@, companies@);
        }
        let k = xs.len();
        let mut s: u128 = 0;
        let mut i: usize = 0;
        while i < k
            invariant
                0 <= i <= k == xs@.len(),
                s == sum_u32s(xs@.subrange(0, i as int)),
                s <= i * 0xffff_ffff,
            decreases k - i,
        {
            proof {
                let pre = xs@.subrange(0, i as int);
                let ext = xs@.subrange(0, i as int + 1);
                assert(ext.drop_last() =~= pre);
                assert(ext.last() == xs@[i as int]);
            }
            s = s + xs[i] as u128;
            i += 1;
        }
        proof {
            assert(xs@.subrange(0, k as int) =~= xs@);
            lemma_sum_u32s_bound(xs@);
        }
        // With at most 2^21 companies of at most 2^32 - 1 layoffs each,
        // every scaled deviation fits in 53 bits and the summed squares
        // in 127, so the exact arithmetic cannot overflow.
        let cw: u128 = c as u128;
        assert(s <= 0x20_0000 * 0xffff_ffffu128) by (nonlinear_arith)
            requires
                s <= k * 0xffff_ffff,
                k <= 0x20_0000,
        ;
        let mut acc: u128 = 0;
        let mut i2: usize = 0;
        while i2 < k
            invariant
                0 <= i2 <= k == xs@.len(),
                cw == c as u128,
                1 <= c <= 0x20_0000,
                s <= 0x20_0000 * 0xffff_ffffu128,
                s == sum_u32s(xs@),
                k <= 0x20_0000,
                acc == scaled_square_dev(xs@.subrange(0, i2 as int), c as int, s as int),
                acc <= i2 * 0x400_0000_0000_0000_0000_0000_0000u128,
            decreases k - i2,
        {
            proof {
                let pre = xs@.subrange(0, i2 as int);
                let ext = xs@.subrange(0, i2 as int + 1);
                assert(ext.drop_last() =~= pre);
                assert(ext.last() == xs@[i2 as int]);
            }
            let x = xs[i2] as u128;
            assert(cw * x <= 0x20_0000 * 0xffff_ffffu128) by (nonlinear_arith)
                requires
                    cw <= 0x20_0000,
                    x <= 0xffff_ffff,
            ;
            let cx = cw * x;
            let d = if cx >= s {
                cx - s
            } else {
                s - cx
            };
            assert(d * d <= 0x400_0000_0000_0000_0000_0000_0000u128) by (nonlinear_arith)
                requires
                    d <= 0x20_0000 * 0xffff_ffffu128,
            ;
            assert(d * d == (cx as int - s as int) * (cx as int - s as int)) by (nonlinear_arith)
                requires
                    d == if cx >= s {
                        (cx - s) as u128
                    } else {
                        (s - cx) as u128
                    },
            ;
            acc = acc + d * d;
            i2 += 1;
        }
        proof {
            assert(xs@.subrange(0, k as int) =~= xs@);
        }
        assert(cw * cw <= 0x400_0000_0000u128) by (nonlinear_arith)
            requires
                1 <= cw <= 0x20_0000,
        ;
        assert(1 <= cw * cw && 1 <= (cw * cw) * cw <= 0x8000_0000_0000_0000u128) by (nonlinear_arith)
            requires
                1 <= cw <= 0x20_0000,
                cw * cw <= 0x400_0000_0000u128,
        ;
        Ratio { num: acc, den: cw * cw * cw }
    }

    /// The exact population variance of layoffs per industry in `data`,
    /// in its listing order: the square of the population standard
    /// deviation, over the listed companies with known facts but
    /// divided by the industry's full company count; an empty industry
    /// yields exactly zero.  A renderer takes the square root of
    /// `num / den` to display the standard deviation itself.
    pub fn calculate_std_deviation_per_industry(&self, data: &Vec<(String, Vec<String>)>) -> (r:
        Vec<(String, Ratio)>)
        requires
            forall|j: int| 0 <= j < data@.len() ==> (#[trigger] data@[j]).1@.len() <= 0x20_0000,
        ensures
            r@.len() == data@.len(),
            forall|j: int|
                0 <= j < r@.len() ==> (#[trigger] r@[j]).0@ == data@[j].0@ && r@[j].1
                    == variance_of(self.company_layoffs@, data@[j].1@),
    {
        let n = data.len();
        let mut out: Vec<(String, Ratio)> = Vec::new();
        let mut j: usize = 0;
        while j < n
            invariant
                0 <= j <= n == data@.len(),
                forall|t: int| 0 <= t < n ==> (#[trigger] data@[t]).1@.len() <= 0x20_0000,
                out@.len() == j,
                forall|t: int|
                    0 <= t < j ==> (#[trigger] out@[t]).0@ == data@[t].0@ && out@[t].1
                        == variance_of(self.company_layoffs@, data@[t].1@),
            decreases n - j,
        {
            let v = Self::variance_calc(&self.company_layoffs, &data[j].1);
            out.push((data[j].0.clone(), v));
            j += 1;
        }
        out
    }
}

/// Total layoffs recorded for year `y` over the fact entries.
pub open spec fn year_total(facts: Seq<(String, (u32, u32))>, y: u32) -> int
    decreases facts.len(),
{
    if facts.len() == 0 {
        0
    } else {
        year_total(facts.drop_last(), y) + if facts.last().1.1 == y {
            facts.last().1.0 as int
        } else {
            0
        }
    }
}

/// Total layoffs over all fact entries with a nonzero year.
pub open spec fn total_known_years(facts: Seq<(String, (u32, u32))>) -> int
    decreases facts.len(),
{
    if facts.len() == 0 {
        0
    } else {
        total_known_years(facts.drop_last()) + if facts.last().1.1 != 0 {
            facts.last().1.0 as int
        } else {
            0
        }
    }
}

/// Some fact entry carries the (nonzero) year `y`.
pub open spec fn year_present(facts: Seq<(String, (u32, u32))>, y: u32) -> bool {
    y != 0 && exists|i: int| 0 <= i < facts.len() && facts[i].1.1 == y
}

proof fn lemma_year_total_absent(facts: Seq<(String, (u32, u32))>, y: u32)
    requires
        forall|i: int| 0 <= i < facts.len() ==> facts[i].1.1 != y,
    ensures
        year_total(facts, y) == 0,
    decreases facts.len(),
{
    if facts.len() > 0 {
        lemma_year_total_absent(facts.drop_last(), y);
    }
}

proof fn lemma_year_total_bound(facts: Seq<(String, (u32, u32))>, y: u32)
    ensures
        0 <= year_total(facts, y) <= facts.len() * 0xffff_ffff,
    decreases facts.len(),
{
    if facts.len() > 0 {
        lemma_year_total_bound(facts.drop_last(), y);
    }
}

/// Index of the first bucket keyed by year `y`.
fn find_year(v: &Vec<(u32, u128)>, y: u32) -> (r: Option<usize>)
    ensures
        match r {
            Some(t) => t < v@.len() && v@[t as int].0 == y && forall|i: int|
                0 <= i < t ==> v@[i].0 != y,
            None => forall|i: int| 0 <= i < v@.len() ==> v@[i].0 != y,
        },
{
    let n = v.len();
    let mut t: usize = 0;
    while t < n
        invariant
            0 <= t <= n == v@.len(),
            forall|i: int| 0 <= i < t ==> v@[i].0 != y,
        decreases n - t,
    {
        if v[t].0 == y {
            return Some(t);
        }
        t += 1;
    }
    None
}

impl LayoffsGraph {
    /// Average layoffs per (nonzero) year, plus a synthetic final entry
    /// keyed `0` holding the overall average over all entities with a
    /// known year.  Every per-year total — and the overall total — is
    /// divided by the number of distinct nonzero years observed, which
    /// equals the length of the result minus the synthetic entry.
    /// Entities with year `0` are excluded throughout.
    pub fn average_layoffs_per_year(&self) -> (r: Vec<(u32, Ratio)>)
        ensures
            r@.len() >= 1,
            r@.last().0 == 0,
            r@.last().1 == spec_make(total_known_years(self.company_layoffs@), r@.len() - 1),
            forall|j: int|
                0 <= j < r@.len() - 1 ==> (#[trigger] r@[j]).0 != 0 && year_present(
                    self.company_layoffs@,
                    r@[j].0,
                ) && r@[j].1 == spec_make(
                    year_total(self.company_layoffs@, r@[j].0),
                    r@.len() - 1,
                ),
            forall|j1: int, j2: int|
                0 <= j1 < j2 < r@.len() - 1 ==> (#[trigger] r@[j1]).0 != (#[trigger] r@[j2]).0,
            forall|y: u32|
                year_present(self.company_layoffs@, y) ==> exists|j: int|
                    0 <= j < r@.len() - 1 && (#[trigger] r@[j]).0 == y,
    {
        let n = self.company_layoffs.len();
        let mut buckets: Vec<(u32, u128)> = Vec::new();
        let mut total: u128 = 0;
        let mut i: usize = 0;
        while i < n
            invariant
                0 <= i <= n == self.company_layoffs@.len(),
                total == total_known_years(self.company_layoffs@.subrange(0, i as int)),
                total <= i * 0xffff_ffff,
                forall|t: int| 0 <= t < buckets@.len() ==> (#[trigger] buckets@[t]).0 != 0,
                forall|t1: int, t2: int|
                    0 <= t1 < t2 < buckets@.len() ==> (#[trigger] buckets@[t1]).0 != (
                    #[trigger] buckets@[t2]).0,
                forall|t: int|
                    0 <= t < buckets@.len() ==> year_present(
                        self.company_layoffs@.subrange(0, i as int),
                        (#[trigger] buckets@[t]).0,
                    ) && buckets@[t].1 == year_total(
                        self.company_layoffs@.subrange(0, i as int),
                        buckets@[t].0,
                    ),
                forall|y: u32|
                    year_present(self.company_layoffs@.subrange(0, i as int), y) ==> exists|t: int|
                        0 <= t < buckets@.len() && (#[trigger] buckets@[t]).0 == y,
            decreases n - i,
        {
            let ghost pre = self.company_layoffs@.subrange(0, i as int);
            let ghost ext = self.company_layoffs@.subrange(0, i as int + 1);
            proof {
                assert(ext.drop_last() =~= pre);
                assert(ext.last() == self.company_layoffs@[i as int]);
            }
            let ghost ob = buckets@;
            let f = self.company_layoffs[i].1;
            if f.1 != 0 {
                match find_year(&buckets, f.1) {
                    Some(t) => {
                        proof {
                            lemma_year_total_bound(pre, f.1);
                        }
                        let (ky, cur) = buckets.remove(t);
                        buckets.insert(t, (ky, cur + f.0 as u128));
                        proof {
                            assert(buckets@ =~= ob.update(
                                t as int,
                                (ky, (cur + f.0 as u128) as u128),
                            ));
                            assert(buckets@[t as int].0 == f.1);
                        }
                    },
                    None => {
                        proof {
                            assert forall|w: int| 0 <= w < pre.len() implies pre[w].1.1 != f.1 by {
                                if pre[w].1.1 == f.1 {
                                    assert(year_present(pre, f.1));
                                }
                            }
                            lemma_year_total_absent(pre, f.1);
                        }
                        buckets.push((f.1, f.0 as u128));
                        proof {
                            assert(buckets@[buckets@.len() - 1].0 == f.1);
                        }
                    },
                }
                total = total + f.0 as u128;
            }
            proof {
                assert forall|t: int| 0 <= t < buckets@.len() implies year_present(
                    ext,
                    (#[trigger] buckets@[t]).0,
                ) && buckets@[t].1 == year_total(ext, buckets@[t].0) by {
                    let y = buckets@[t].0;
                    assert(year_total(ext, y) == year_total(pre, y) + if ext.last().1.1 == y {
                        ext.last().1.0 as int
                    } else {
                        0
                    });
                    if t < ob.len() && ob[t].0 == y && year_present(pre, y) {
                        let w = choose|w: int| 0 <= w < pre.len() && pre[w].1.1 == y;
                        assert(ext[w] == pre[w]);
                    }
                    if f.1 != 0 && y == f.1 {
                        assert(ext[i as int].1.1 == y);
                    }
                }
                assert forall|y: u32| year_present(ext, y) implies exists|t: int|
                    0 <= t < buckets@.len() && (#[trigger] buckets@[t]).0 == y by {
                    let w = choose|w: int| 0 <= w < ext.len() && ext[w].1.1 == y;
                    if w < pre.len() {
                        assert(pre[w].1.1 == y);
                        assert(year_present(pre, y));
                        let t0 = choose|t0: int| 0 <= t0 < ob.len() && ob[t0].0 == y;
                        assert(buckets@[t0].0 == y);
                    } else {
                        assert(ext[w] == ext.last());
                        assert(y == f.1 && y != 0);
                        assert(exists|t0: int|
                            0 <= t0 < buckets@.len() && buckets@[t0].0 == y);
                    }
                }
            }
            i += 1;
        }
        proof {
            assert(self.company_layoffs@.subrange(0, n as int) =~= self.company_layoffs@);
        }
        let ny = buckets.len();
        let mut out: Vec<(u32, Ratio)> = Vec::new();
        let mut t: usize = 0;
        while t < ny
            invariant
                0 <= t <= ny == buckets@.len(),
                out@.len() == t,
                forall|p: int|
                    0 <= p < t ==> (#[trigger] out@[p]).0 == buckets@[p].0 && out@[p].1
                        == spec_make(buckets@[p].1 as int, ny as int),
            decreases ny - t,
        {
            out.push((buckets[t].0, Ratio::make(buckets[t].1, ny as u128)));
            t += 1;
        }
        out.push((0, Ratio::make(total, ny as u128)));
        proof {
            assert forall|y: u32| year_present(self.company_layoffs@, y) implies exists|j: int|
                0 <= j < out@.len() - 1 && (#[trigger] out@[j]).0 == y by {
                let t0 = choose|t0: int| 0 <= t0 < buckets@.len() && buckets@[t0].0 == y;
                assert(out@[t0].0 == y);
            }
        }
        out
    }
}

} // verus!
