//! Search: the documents that hold every one of the terms, ranked by the sum
//! of the terms' frequencies in them, best first, at most `MAX_RESULTS`.
use vstd::prelude::*;
use std::collections::HashMap;
use crate::index_store::{DocFreqPair, IndexStore, IndexStoreView};
use crate::text::strings_view;

verus! {

broadcast use vstd::std_specs::hash::group_hash_axioms, vstd::seq_lib::group_to_multiset_ensures;

/// The most results a search returns.
pub const MAX_RESULTS: usize = 10;

/// The documents of the first term's postings with their frequencies.
pub open spec fn initial_freqs(ps: Seq<DocFreqPair>) -> Map<i64, i64>
    decreases ps.len(),
{
    if ps.len() == 0 {
        Map::empty()
    } else {
        initial_freqs(ps.drop_last()).insert(ps.last().document_number, ps.last().word_frequency)
    }
}

/// One AND step: the documents of `prev` that occur in `ps`, each with its
/// frequency in `prev` plus its frequency in `ps` (as `i64` addition wraps).
pub open spec fn and_step(prev: Map<i64, i64>, ps: Seq<DocFreqPair>) -> Map<i64, i64>
    decreases ps.len(),
{
    if ps.len() == 0 {
        Map::empty()
    } else {
        let m = and_step(prev, ps.drop_last());
        let p = ps.last();
        if prev.contains_key(p.document_number) {
            m.insert(
                p.document_number,
                prev[p.document_number].wrapping_add(p.word_frequency),
            )
        } else {
            m
        }
    }
}

/// The documents that occur in every posting list, with their summed frequencies.
pub open spec fn combine(lists: Seq<Seq<DocFreqPair>>) -> Map<i64, i64>
    decreases lists.len(),
{
    if lists.len() == 0 {
        Map::empty()
    } else if lists.len() == 1 {
        initial_freqs(lists[0])
    } else {
        and_step(combine(lists.drop_last()), lists.last())
    }
}

/// The posting list of each term.
pub open spec fn term_lists(v: IndexStoreView, terms: Seq<Seq<char>>) -> Seq<Seq<DocFreqPair>> {
    terms.map_values(|t: Seq<char>| v.postings(t))
}

/// The path that has the number `d`.
pub open spec fn path_of(v: IndexStoreView, d: i64) -> Seq<char> {
    choose|p: Seq<char>| v.documents.contains_key(p) && v.documents[p] == d
}

/// The (path, frequency) pairs of the documents of `docs` that are in
/// `combined` and have a path, in the order of `docs`.
pub open spec fn candidates_from(
    v: IndexStoreView,
    combined: Map<i64, i64>,
    docs: Seq<DocFreqPair>,
) -> Seq<(Seq<char>, i64)>
    decreases docs.len(),
{
    if docs.len() == 0 {
        seq![]
    } else {
        let prev = candidates_from(v, combined, docs.drop_last());
        let d = docs.last().document_number;
        if combined.contains_key(d) && v.has_number(d) {
            prev.push((path_of(v, d), combined[d]))
        } else {
            prev
        }
    }
}

/// What a search for `terms` can return: every document that holds all the
/// terms and has a path, with the summed frequency of the terms in it.
pub open spec fn search_candidates(v: IndexStoreView, terms: Seq<Seq<char>>) -> Seq<
    (Seq<char>, i64),
> {
    if terms.len() == 0 {
        seq![]
    } else {
        let lists = term_lists(v, terms);
        candidates_from(v, combine(lists), lists[0])
    }
}

/// Whether `r` is the best `k` of `cands` by frequency, best first: as many as
/// there are up to `k`, in non-increasing order of frequency, taken from
/// `cands`, and no candidate left out has a higher frequency than one taken.
/// Among equal frequencies the choice and order are left open.
pub open spec fn ranked_top(r: Seq<(Seq<char>, i64)>, cands: Seq<(Seq<char>, i64)>, k: nat) -> bool {
    &&& r.len() == (if cands.len() < k {
        cands.len()
    } else {
        k
    })
    &&& forall|i: int, j: int| 0 <= i < j < r.len() ==> r[i].1 >= r[j].1
    &&& exists|rest: Seq<(Seq<char>, i64)>|
        {
            &&& (r + rest).to_multiset() == cands.to_multiset()
            &&& forall|x: int, y: int|
                0 <= x < rest.len() && 0 <= y < r.len() ==> rest[x].1 <= r[y].1
        }
}

/// How many of `cands` have a frequency above `f`.
pub open spec fn count_above(cands: Seq<(Seq<char>, i64)>, f: i64) -> nat
    decreases cands.len(),
{
    if cands.len() == 0 {
        0
    } else {
        count_above(cands.drop_last(), f) + if cands.last().1 > f {
            1nat
        } else {
            0nat
        }
    }
}

pub proof fn lemma_count_above_append(a: Seq<(Seq<char>, i64)>, b: Seq<(Seq<char>, i64)>, f: i64)
    ensures
        count_above(a + b, f) == count_above(a, f) + count_above(b, f),
    decreases b.len(),
{
    if b.len() == 0 {
        assert(a + b =~= a);
    } else {
        lemma_count_above_append(a, b.drop_last(), f);
        assert((a + b).drop_last() =~= a + b.drop_last());
        assert((a + b).last() == b.last());
    }
}

/// Reordering candidates does not change how many are above a frequency.
pub proof fn lemma_count_above_reordered(a: Seq<(Seq<char>, i64)>, b: Seq<(Seq<char>, i64)>, f: i64)
    requires
        a.to_multiset() == b.to_multiset(),
    ensures
        count_above(a, f) == count_above(b, f),
    decreases a.len(),
{
    broadcast use vstd::seq_lib::group_to_multiset_ensures;
    broadcast use vstd::multiset::group_multiset_axioms;

    if a.len() == 0 {
        assert(b.to_multiset().len() == 0);
        assert(b.len() == 0);
    } else {
        let x = a.last();
        let ap = a.drop_last();
        assert(ap.push(x) =~= a);
        assert(a.to_multiset().count(x) > 0);
        assert(b.contains(x));
        let i = choose|i: int| 0 <= i < b.len() && b[i] == x;
        let bp = b.remove(i);
        assert(bp.to_multiset() =~= b.to_multiset().remove(x));
        assert(ap.to_multiset() =~= a.to_multiset().remove(x));
        lemma_count_above_reordered(ap, bp, f);
        assert(bp =~= b.take(i) + b.skip(i + 1));
        assert(b =~= b.take(i) + (seq![x] + b.skip(i + 1)));
        lemma_count_above_append(b.take(i), b.skip(i + 1), f);
        lemma_count_above_append(seq![x], b.skip(i + 1), f);
        lemma_count_above_append(b.take(i), seq![x] + b.skip(i + 1), f);
        assert(seq![x].drop_last() =~= Seq::<(Seq<char>, i64)>::empty());
        assert(count_above(Seq::<(Seq<char>, i64)>::empty(), f) == 0);
        assert(seq![x].last() == x);
        assert(count_above(seq![x], f) == if x.1 > f {
            1nat
        } else {
            0nat
        });
    }
}

/// In the best `k`, fewer candidates than a result's place are above it.
pub proof fn lemma_ranked_top_places(r: Seq<(Seq<char>, i64)>, cands: Seq<(Seq<char>, i64)>, k: nat, i: int)
    requires
        ranked_top(r, cands, k),
        0 <= i < r.len(),
    ensures
        count_above(cands, r[i].1) <= i,
{
    let rest = choose|rest: Seq<(Seq<char>, i64)>|
        {
            &&& (r + rest).to_multiset() == cands.to_multiset()
            &&& forall|x: int, y: int|
                0 <= x < rest.len() && 0 <= y < r.len() ==> rest[x].1 <= r[y].1
        };
    let f = r[i].1;
    lemma_count_above_reordered(r + rest, cands, f);
    lemma_count_above_append(r, rest, f);
    lemma_count_above_none(rest, f);
    assert(r =~= r.take(i) + r.skip(i));
    lemma_count_above_append(r.take(i), r.skip(i), f);
    lemma_count_above_none(r.skip(i), f);
    lemma_count_above_at_most_len(r.take(i), f);
}

proof fn lemma_count_above_none(s: Seq<(Seq<char>, i64)>, f: i64)
    requires
        forall|x: int| 0 <= x < s.len() ==> s[x].1 <= f,
    ensures
        count_above(s, f) == 0,
    decreases s.len(),
{
    if s.len() > 0 {
        assert(s.last().1 <= f);
        lemma_count_above_none(s.drop_last(), f);
    }
}

proof fn lemma_count_above_at_most_len(s: Seq<(Seq<char>, i64)>, f: i64)
    ensures
        count_above(s, f) <= s.len(),
    decreases s.len(),
{
    if s.len() > 0 {
        lemma_count_above_at_most_len(s.drop_last(), f);
    }
}

/// The path and frequency that a result pair holds.
pub open spec fn pair_view(p: (String, i64)) -> (Seq<char>, i64) {
    (p.0@, p.1)
}

pub open spec fn pairs_view(v: Seq<(String, i64)>) -> Seq<(Seq<char>, i64)> {
    v.map_values(|p: (String, i64)| pair_view(p))
}

/// The documents of `ps` with their frequencies.
fn first_freqs(ps: &Vec<DocFreqPair>) -> (result: HashMap<i64, i64>)
    ensures
        result@ == initial_freqs(ps@),
{
    let mut m: HashMap<i64, i64> = HashMap::new();
    let mut i: usize = 0;
    assert(m@ =~= initial_freqs(ps@.take(0)));
    while i < ps.len()
        invariant
            i <= ps@.len(),
            m@ == initial_freqs(ps@.take(i as int)),
        decreases ps@.len() - i,
    {
        let p = ps[i];
        m.insert(p.document_number, p.word_frequency);
        assert(ps@.take(i + 1).drop_last() =~= ps@.take(i as int));
        assert(m@ =~= initial_freqs(ps@.take(i + 1)));
        i = i + 1;
    }
    assert(ps@.take(ps@.len() as int) =~= ps@);
    m
}

/// One AND step of the search.
fn and_with(prev: &HashMap<i64, i64>, ps: &Vec<DocFreqPair>) -> (result: HashMap<i64, i64>)
    ensures
        result@ == and_step(prev@, ps@),
{
    let mut m: HashMap<i64, i64> = HashMap::new();
    let mut i: usize = 0;
    assert(m@ =~= and_step(prev@, ps@.take(0)));
    while i < ps.len()
        invariant
            i <= ps@.len(),
            m@ == and_step(prev@, ps@.take(i as int)),
        decreases ps@.len() - i,
    {
        let p = ps[i];
        assert(ps@.take(i + 1).drop_last() =~= ps@.take(i as int));
        match prev.get(&p.document_number) {
            Some(prev_freq) => {
                m.insert(p.document_number, prev_freq.wrapping_add(p.word_frequency));
                assert(m@ =~= and_step(prev@, ps@.take(i + 1)));
            },
            None => {
                assert(m@ =~= and_step(prev@, ps@.take(i + 1)));
            },
        }
        i = i + 1;
    }
    assert(ps@.take(ps@.len() as int) =~= ps@);
    m
}

/// The best `k` of `cands` by frequency, best first.
pub fn select_top(cands: Vec<(String, i64)>, k: usize) -> (result: Vec<(String, i64)>)
    ensures
        ranked_top(pairs_view(result@), pairs_view(cands@), k as nat),
{
    let ghost all = pairs_view(cands@);
    let mut remaining = cands;
    let mut result: Vec<(String, i64)> = Vec::new();
    assert(pairs_view(result@) =~= Seq::<(Seq<char>, i64)>::empty());
    assert(pairs_view(result@) + pairs_view(remaining@) =~= all);
    while result.len() < k && remaining.len() > 0
        invariant
            (pairs_view(result@) + pairs_view(remaining@)).to_multiset() == all.to_multiset(),
            result@.len() <= k,
            forall|i: int, j: int| 0 <= i < j < result@.len() ==> result@[i].1 >= result@[j].1,
            forall|x: int, y: int|
                0 <= x < remaining@.len() && 0 <= y < result@.len() ==> remaining@[x].1
                    <= result@[y].1,
        decreases remaining@.len(),
    {
        let mut best: usize = 0;
        let mut j: usize = 1;
        while j < remaining.len()
            invariant
                1 <= j <= remaining@.len(),
                best < j,
                forall|x: int| 0 <= x < j ==> remaining@[x].1 <= remaining@[best as int].1,
            decreases remaining@.len() - j,
        {
            if remaining[j].1 > remaining[best].1 {
                best = j;
            }
            j = j + 1;
        }
        let ghost rv = pairs_view(remaining@);
        let ghost resv = pairs_view(result@);
        let item = remaining.remove(best);
        proof {
            assert(pairs_view(remaining@) =~= rv.remove(best as int));
            assert(rv[best as int] == pair_view(item));
            vstd::seq_lib::lemma_multiset_commutative(resv, rv);
            vstd::seq_lib::lemma_multiset_commutative(resv.push(pair_view(item)), rv.remove(best as int));
        }
        result.push(item);
        proof {
            assert(pairs_view(result@) =~= resv.push(pair_view(item)));
            assert((pairs_view(result@) + pairs_view(remaining@)).to_multiset() =~= all.to_multiset());
        }
    }
    proof {
        let r = pairs_view(result@);
        let rest = pairs_view(remaining@);
        vstd::seq_lib::lemma_multiset_commutative(r, rest);
        all.to_multiset_ensures();
        (r + rest).to_multiset_ensures();
        assert((r + rest).len() == all.len());
        assert(forall|x: int, y: int| 0 <= x < rest.len() && 0 <= y < r.len() ==> rest[x].1 <= r[y].1);
    }
    result
}

impl IndexStore {
    /// The documents that hold every one of `terms`, each with the sum of the
    /// terms' frequencies in it, best first, at most `MAX_RESULTS` of them.
    pub fn search(&self, terms: &[String]) -> (result: Vec<(String, i64)>)
        requires
            self.wf(),
        ensures
            terms@.len() == 0 ==> result@.len() == 0,
            ranked_top(
                pairs_view(result@),
                search_candidates(self@, strings_view(terms@)),
                MAX_RESULTS as nat,
            ),
    {
        let cands = self.matching_documents(terms);
        select_top(cands, MAX_RESULTS)
    }

    /// Every document that holds all of `terms` and has a path, with the sum
    /// of the terms' frequencies in it, in the order of the first term's postings.
    pub fn matching_documents(&self, terms: &[String]) -> (result: Vec<(String, i64)>)
        requires
            self.wf(),
        ensures
            pairs_view(result@) == search_candidates(self@, strings_view(terms@)),
    {
        let ghost tv = strings_view(terms@);
        if terms.len() == 0 {
            let r: Vec<(String, i64)> = Vec::new();
            assert(pairs_view(r@) =~= search_candidates(self@, tv));
            return r;
        }
        let ghost lists = term_lists(self@, tv);
        let mut all_results: Vec<Vec<DocFreqPair>> = Vec::new();
        let mut i: usize = 0;
        while i < terms.len()
            invariant
                self.wf(),
                i <= terms@.len(),
                tv == strings_view(terms@),
                lists == term_lists(self@, tv),
                all_results@.len() == i,
                forall|k: int| 0 <= k < i ==> (#[trigger] all_results@[k])@ == lists[k],
            decreases terms@.len() - i,
        {
            let results = self.lookup_index(terms[i].as_str());
            all_results.push(results);
            i = i + 1;
        }
        let mut combined = first_freqs(&all_results[0]);
        let mut k: usize = 1;
        assert(lists.take(1).drop_last() =~= Seq::<Seq<DocFreqPair>>::empty());
        assert(combined@ == combine(lists.take(1)));
        while k < all_results.len()
            invariant
                1 <= k <= all_results@.len(),
                all_results@.len() == lists.len(),
                forall|j: int| 0 <= j < lists.len() ==> (#[trigger] all_results@[j])@ == lists[j],
                combined@ == combine(lists.take(k as int)),
            decreases all_results@.len() - k,
        {
            combined = and_with(&combined, &all_results[k]);
            assert(lists.take(k + 1).drop_last() =~= lists.take(k as int));
            k = k + 1;
        }
        assert(lists.take(lists.len() as int) =~= lists);
        let first = &all_results[0];
        let mut cands: Vec<(String, i64)> = Vec::new();
        let mut j: usize = 0;
        proof {
            self.lemma_wf_view();
        }
        assert(pairs_view(cands@) =~= candidates_from(self@, combined@, first@.take(0)));
        while j < first.len()
            invariant
                self.wf(),
                j <= first@.len(),
                first@ == lists[0],
                pairs_view(cands@) == candidates_from(self@, combined@, first@.take(j as int)),
                forall|p1: Seq<char>, p2: Seq<char>|
                    #![trigger self@.documents[p1], self@.documents[p2]]
                    self@.documents.contains_key(p1) && self@.documents.contains_key(p2)
                        && self@.documents[p1] == self@.documents[p2] ==> p1 == p2,
            decreases first@.len() - j,
        {
            let d = first[j].document_number;
            assert(first@.take(j + 1).drop_last() =~= first@.take(j as int));
            match combined.get(&d) {
                Some(f) => {
                    let freq = *f;
                    match self.get_document(d) {
                        Some(path) => {
                            let ghost before = pairs_view(cands@);
                            proof {
                                assert(self@.has_number(d));
                                let q = path_of(self@, d);
                                assert(self@.documents[q] == d);
                                assert(q == path@);
                            }
                            cands.push((path, freq));
                            assert(pairs_view(cands@) =~= candidates_from(
                                self@,
                                combined@,
                                first@.take(j + 1),
                            ));
                        },
                        None => {},
                    }
                },
                None => {},
            }
            j = j + 1;
        }
        assert(first@.take(first@.len() as int) =~= first@);
        cands
    }
}

} // verus!
