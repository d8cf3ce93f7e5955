//! The index store: document paths numbered from 1, and for each word the
//! documents it occurs in with its frequency there, both spread over
//! `NUM_SHARDS` shards by the hash of the path or the word.
use vstd::prelude::*;
use vstd::hash_map::StringHashMap;
use std::collections::HashMap;
use std::collections::hash_map::DefaultHasher;
use std::hash::{Hash, Hasher};
use crate::word_freqs::WordFrequencies;

verus! {

broadcast use vstd::std_specs::hash::group_hash_axioms;

/// The number of shards of each kind.
pub const NUM_SHARDS: usize = 256;

/// A document and how often a word occurs in it.
#[derive(Debug, Clone, Copy, PartialEq, Eq)]
pub struct DocFreqPair {
    pub document_number: i64,
    pub word_frequency: i64,
}

/// The value `DefaultHasher::new()` computes for a string.
pub uninterp spec fn default_str_hash(s: Seq<char>) -> u64;

/// Hashes `s` with the standard library's `DefaultHasher`, created by
/// `DefaultHasher::new()` (fixed keys, so the value depends on `s` alone).
/// The contract names the digest and says nothing more of it.
#[verifier::external_body]
fn str_hash(s: &str) -> (result: u64)
    ensures
        result == default_str_hash(s@),
{
    let mut hasher = DefaultHasher::new();
    s.hash(&mut hasher);
    hasher.finish()
}

/// The shard that holds a path or a word.
pub open spec fn shard_of(s: Seq<char>) -> int {
    (default_str_hash(s) % (NUM_SHARDS as u64)) as int
}

/// The shard that holds a path or a word (`hash % NUM_SHARDS`).
pub fn shard_index(s: &str) -> (result: usize)
    ensures
        result == shard_of(s@),
        result < NUM_SHARDS,
{
    (str_hash(s) % (NUM_SHARDS as u64)) as usize
}

/// The postings of `t`: empty when the word is not indexed.
pub open spec fn postings_in(terms: Map<Seq<char>, Seq<DocFreqPair>>, t: Seq<char>) -> Seq<
    DocFreqPair,
> {
    if terms.contains_key(t) {
        terms[t]
    } else {
        seq![]
    }
}

/// Whether `i` is the first position of `doc` in `ps`.
pub open spec fn first_position(ps: Seq<DocFreqPair>, doc: i64, i: int) -> bool {
    &&& 0 <= i < ps.len()
    &&& ps[i].document_number == doc
    &&& forall|j: int| 0 <= j < i ==> ps[j].document_number != doc
}

/// Sets the frequency of `doc` in the postings `ps`: in place at the first
/// entry for `doc`, or as a new last entry when there is none.
pub open spec fn upsert(ps: Seq<DocFreqPair>, doc: i64, freq: i64) -> Seq<DocFreqPair> {
    let pair = DocFreqPair { document_number: doc, word_frequency: freq };
    if exists|i: int| 0 <= i < ps.len() && ps[i].document_number == doc {
        ps.update(choose|i: int| first_position(ps, doc, i), pair)
    } else {
        ps.push(pair)
    }
}

/// The term index after `doc` is recorded with the frequencies `freqs`.
pub open spec fn apply_update(
    terms: Map<Seq<char>, Seq<DocFreqPair>>,
    doc: i64,
    freqs: Map<Seq<char>, i64>,
) -> Map<Seq<char>, Seq<DocFreqPair>> {
    Map::new(
        |t: Seq<char>| terms.contains_key(t) || freqs.contains_key(t),
        |t: Seq<char>|
            if freqs.contains_key(t) {
                upsert(postings_in(terms, t), doc, freqs[t])
            } else {
                terms[t]
            },
    )
}

/// The term index after each update of `updates` is applied, in order.
pub open spec fn apply_updates(
    terms: Map<Seq<char>, Seq<DocFreqPair>>,
    updates: Seq<(i64, Map<Seq<char>, i64>)>,
) -> Map<Seq<char>, Seq<DocFreqPair>>
    decreases updates.len(),
{
    if updates.len() == 0 {
        terms
    } else {
        let prev = apply_updates(terms, updates.drop_last());
        apply_update(prev, updates.last().0, updates.last().1)
    }
}

/// Whether no document occurs twice in `ps`.
pub open spec fn distinct_documents(ps: Seq<DocFreqPair>) -> bool {
    forall|i: int, j: int|
        0 <= i < ps.len() && 0 <= j < ps.len() && i != j ==> ps[i].document_number
            != ps[j].document_number
}

/// What an index store holds.
#[verifier::ext_equal]
pub struct IndexStoreView {
    /// The number of each indexed document path.
    pub documents: Map<Seq<char>, i64>,
    /// The number the next new document gets.
    pub next_document_number: i64,
    /// For each word, the documents it occurs in and its frequency there.
    pub terms: Map<Seq<char>, Seq<DocFreqPair>>,
}

impl IndexStoreView {
    /// Whether some path has the number `n`.
    pub open spec fn has_number(self, n: i64) -> bool {
        exists|p: Seq<char>| self.documents.contains_key(p) && self.documents[p] == n
    }

    /// The postings of `t`: empty when the word is not indexed.
    pub open spec fn postings(self, t: Seq<char>) -> Seq<DocFreqPair> {
        postings_in(self.terms, t)
    }
}

struct DocumentShard {
    path_to_number: StringHashMap<i64>,
    number_to_path: HashMap<i64, String>,
}

struct TermShard {
    term_index: StringHashMap<Vec<DocFreqPair>>,
}

impl DocumentShard {
    spec fn is_empty(&self) -> bool {
        &&& self.path_to_number@ == Map::<Seq<char>, i64>::empty()
        &&& self.number_to_path@ == Map::<i64, String>::empty()
    }

    spec fn wf_at(&self, s: int, next: i64) -> bool {
        &&& forall|p: Seq<char>| #[trigger]
            self.path_to_number@.contains_key(p) ==> {
                &&& shard_of(p) == s
                &&& 1 <= self.path_to_number@[p] < next
                &&& self.number_to_path@.contains_key(self.path_to_number@[p])
                &&& self.number_to_path@[self.path_to_number@[p]]@ == p
            }
        &&& forall|n: i64| #[trigger]
            self.number_to_path@.contains_key(n) ==> {
                &&& self.path_to_number@.contains_key(self.number_to_path@[n]@)
                &&& self.path_to_number@[self.number_to_path@[n]@] == n
            }
    }

    fn new() -> (result: Self)
        ensures
            result.is_empty(),
    {
        DocumentShard { path_to_number: StringHashMap::new(), number_to_path: HashMap::new() }
    }
}

impl TermShard {
    spec fn is_empty(&self) -> bool {
        self.term_index@ == Map::<Seq<char>, Vec<DocFreqPair>>::empty()
    }

    spec fn wf_at(&self, s: int) -> bool {
        forall|t: Seq<char>| #[trigger]
            self.term_index@.contains_key(t) ==> shard_of(t) == s && distinct_documents(
                self.term_index@[t]@,
            )
    }

    fn new() -> (result: Self)
        ensures
            result.is_empty(),
    {
        TermShard { term_index: StringHashMap::new() }
    }
}

/// `array_init::array_init`, which builds the array by calling the closure
/// once for each index; here the closure makes an empty document shard, so
/// every shard of the result is empty.
#[verifier::external_body]
fn new_document_shards() -> (result: Box<[DocumentShard; NUM_SHARDS]>)
    ensures
        forall|i: int| 0 <= i < NUM_SHARDS ==> result@[i].is_empty(),
{
    Box::new(array_init::array_init(|_| DocumentShard::new()))
}

/// `array_init::array_init`, which builds the array by calling the closure
/// once for each index; here the closure makes an empty term shard, so every
/// shard of the result is empty.
#[verifier::external_body]
fn new_term_shards() -> (result: Box<[TermShard; NUM_SHARDS]>)
    ensures
        forall|i: int| 0 <= i < NUM_SHARDS ==> result@[i].is_empty(),
{
    Box::new(array_init::array_init(|_| TermShard::new()))
}

/// A copy of the postings `v`.
fn copy_postings(v: &Vec<DocFreqPair>) -> (result: Vec<DocFreqPair>)
    ensures
        result@ == v@,
{
    let mut out: Vec<DocFreqPair> = Vec::new();
    let mut i: usize = 0;
    while i < v.len()
        invariant
            i <= v@.len(),
            out@ == v@.take(i as int),
        decreases v@.len() - i,
    {
        out.push(v[i]);
        assert(out@ =~= v@.take(i + 1));
        i = i + 1;
    }
    assert(v@.take(v@.len() as int) =~= v@);
    out
}

/// Appends a copy of the postings `v` to `out`.
fn append_postings(out: &mut Vec<DocFreqPair>, v: &Vec<DocFreqPair>)
    ensures
        final(out)@ == old(out)@ + v@,
{
    let mut i: usize = 0;
    while i < v.len()
        invariant
            i <= v@.len(),
            out@ == old(out)@ + v@.take(i as int),
        decreases v@.len() - i,
    {
        out.push(v[i]);
        assert(out@ =~= old(out)@ + v@.take(i + 1));
        i = i + 1;
    }
    assert(v@.take(v@.len() as int) =~= v@);
}

/// The index store of the server.
pub struct IndexStore {
    doc_map_shards: Box<[DocumentShard; NUM_SHARDS]>,
    term_index_shards: Box<[TermShard; NUM_SHARDS]>,
    next_document_number: i64,
}

impl View for IndexStore {
    type V = IndexStoreView;

    closed spec fn view(&self) -> IndexStoreView {
        IndexStoreView {
            documents: Map::new(
                |p: Seq<char>| self.doc_map_shards@[shard_of(p)].path_to_number@.contains_key(p),
                |p: Seq<char>| self.doc_map_shards@[shard_of(p)].path_to_number@[p],
            ),
            next_document_number: self.next_document_number,
            terms: Map::new(
                |t: Seq<char>| self.term_index_shards@[shard_of(t)].term_index@.contains_key(t),
                |t: Seq<char>| self.term_index_shards@[shard_of(t)].term_index@[t]@,
            ),
        }
    }
}

impl IndexStore {
    /// The store's invariant: every path and word lies in its own shard, the
    /// two maps of a document shard are inverse to each other, numbers are
    /// positive, below the next number and distinct, and no document occurs
    /// twice in a posting list.
    pub closed spec fn wf(&self) -> bool {
        &&& 1 <= self.next_document_number
        &&& forall|s: int|
            0 <= s < NUM_SHARDS ==> (#[trigger] self.doc_map_shards@[s]).wf_at(
                s,
                self.next_document_number,
            )
        &&& forall|s: int|
            0 <= s < NUM_SHARDS ==> (#[trigger] self.term_index_shards@[s]).wf_at(s)
        &&& forall|p1: Seq<char>, p2: Seq<char>|
            #![trigger self@.documents[p1], self@.documents[p2]]
            self@.documents.contains_key(p1) && self@.documents.contains_key(p2)
                && self@.documents[p1] == self@.documents[p2] ==> p1 == p2
    }

    /// What the invariant says of the store's contents.
    pub proof fn lemma_wf_view(&self)
        requires
            self.wf(),
        ensures
            1 <= self@.next_document_number,
            forall|p: Seq<char>| #[trigger]
                self@.documents.contains_key(p) ==> 1 <= self@.documents[p]
                    < self@.next_document_number,
            forall|p1: Seq<char>, p2: Seq<char>|
                #![trigger self@.documents[p1], self@.documents[p2]]
                self@.documents.contains_key(p1) && self@.documents.contains_key(p2)
                    && self@.documents[p1] == self@.documents[p2] ==> p1 == p2,
            forall|t: Seq<char>| #[trigger]
                self@.terms.contains_key(t) ==> distinct_documents(self@.terms[t]),
    {
        assert forall|p: Seq<char>| #[trigger] self@.documents.contains_key(p) implies 1
            <= self@.documents[p] < self@.next_document_number by {
            assert(self.doc_map_shards@[shard_of(p)].wf_at(
                shard_of(p),
                self.next_document_number,
            ));
        }
        assert forall|t: Seq<char>| #[trigger] self@.terms.contains_key(t) implies distinct_documents(
            self@.terms[t],
        ) by {
            assert(self.term_index_shards@[shard_of(t)].wf_at(shard_of(t)));
        }
    }

    /// An empty store; the first document will get the number 1.
    pub fn new() -> (result: Self)
        ensures
            result.wf(),
            result@.documents == Map::<Seq<char>, i64>::empty(),
            result@.next_document_number == 1,
            result@.terms == Map::<Seq<char>, Seq<DocFreqPair>>::empty(),
    {
        let r = IndexStore {
            doc_map_shards: new_document_shards(),
            term_index_shards: new_term_shards(),
            next_document_number: 1,
        };
        assert(r@.documents =~= Map::<Seq<char>, i64>::empty()) by {
            assert forall|p: Seq<char>| !r@.documents.contains_key(p) by {
                assert(r.doc_map_shards@[shard_of(p)].is_empty());
            }
        }
        assert(r@.terms =~= Map::<Seq<char>, Seq<DocFreqPair>>::empty()) by {
            assert forall|t: Seq<char>| !r@.terms.contains_key(t) by {
                assert(r.term_index_shards@[shard_of(t)].is_empty());
            }
        }
        assert forall|s: int| 0 <= s < NUM_SHARDS implies (#[trigger] r.doc_map_shards@[s]).wf_at(
            s,
            r.next_document_number,
        ) by {
            assert(r.doc_map_shards@[s].is_empty());
        }
        assert forall|s: int| 0 <= s < NUM_SHARDS implies (#[trigger] r.term_index_shards@[s]).wf_at(
            s,
        ) by {
            assert(r.term_index_shards@[s].is_empty());
        }
        r
    }

    /// The shard of the document map that holds `path`.
    fn get_doc_map_shard_index(&self, path: &str) -> (result: usize)
        ensures
            result == shard_of(path@),
            result < NUM_SHARDS,
    {
        shard_index(path)
    }

    /// The shard of the term index that holds `term`.
    fn get_term_shard_index(&self, term: &str) -> (result: usize)
        ensures
            result == shard_of(term@),
            result < NUM_SHARDS,
    {
        shard_index(term)
    }

    /// The number of `document_path`: the one it already has, or else the
    /// next number, which the path then keeps.
    pub fn put_document(&mut self, document_path: String) -> (result: i64)
        requires
            old(self).wf(),
            !old(self)@.documents.contains_key(document_path@)
                ==> old(self)@.next_document_number < i64::MAX,
        ensures
            final(self).wf(),
            result >= 1,
            final(self)@.documents.contains_key(document_path@),
            final(self)@.documents[document_path@] == result,
            final(self)@.terms == old(self)@.terms,
            old(self)@.documents.contains_key(document_path@) ==> result == old(
                self,
            )@.documents[document_path@] && final(self)@ == old(self)@,
            !old(self)@.documents.contains_key(document_path@) ==> result == old(
                self,
            )@.next_document_number && final(self)@.documents == old(self)@.documents.insert(
                document_path@,
                result,
            ) && final(self)@.next_document_number == old(self)@.next_document_number + 1,
    {
        let shard_idx = self.get_doc_map_shard_index(document_path.as_str());
        let ghost p = document_path@;
        proof {
            assert(self.doc_map_shards@[shard_idx as int].wf_at(
                shard_idx as int,
                self.next_document_number,
            ));
        }
        match self.doc_map_shards[shard_idx].path_to_number.get(document_path.as_str()) {
            Some(n) => {
                let r = *n;
                assert(self@ =~= old(self)@);
                return r;
            },
            None => {},
        }
        let doc_num = self.next_document_number;
        self.next_document_number = doc_num + 1;
        let path_copy = document_path.clone();
        self.doc_map_shards[shard_idx].path_to_number.insert(path_copy, doc_num);
        self.doc_map_shards[shard_idx].number_to_path.insert(doc_num, document_path);
        proof {
            let old_shards = old(self).doc_map_shards@;
            let shards = self.doc_map_shards@;
            assert forall|s: int| 0 <= s < NUM_SHARDS && s != shard_idx implies shards[s]
                == old_shards[s] by {}
            assert(!old_shards[shard_idx as int].number_to_path@.contains_key(doc_num)) by {
                if old_shards[shard_idx as int].number_to_path@.contains_key(doc_num) {
                    let q = old_shards[shard_idx as int].number_to_path@[doc_num]@;
                    assert(old_shards[shard_idx as int].path_to_number@.contains_key(q));
                }
            }
            assert forall|s: int| 0 <= s < NUM_SHARDS implies (#[trigger] shards[s]).wf_at(
                s,
                self.next_document_number,
            ) by {
                assert(old_shards[s].wf_at(s, old(self).next_document_number));
                if s == shard_idx {
                    let sh = shards[s];
                    let osh = old_shards[s];
                    assert forall|q: Seq<char>| #[trigger]
                        sh.path_to_number@.contains_key(q) implies {
                        &&& shard_of(q) == s
                        &&& 1 <= sh.path_to_number@[q] < self.next_document_number
                        &&& sh.number_to_path@.contains_key(sh.path_to_number@[q])
                        &&& sh.number_to_path@[sh.path_to_number@[q]]@ == q
                    } by {
                        if q != p {
                            assert(osh.path_to_number@.contains_key(q));
                        }
                    }
                    assert forall|n: i64| #[trigger] sh.number_to_path@.contains_key(n) implies {
                        &&& sh.path_to_number@.contains_key(sh.number_to_path@[n]@)
                        &&& sh.path_to_number@[sh.number_to_path@[n]@] == n
                    } by {
                        if n != doc_num {
                            assert(osh.number_to_path@.contains_key(n));
                            let q = osh.number_to_path@[n]@;
                            assert(osh.path_to_number@.contains_key(q));
                            assert(q != p);
                        }
                    }
                }
            }
            assert(self@.documents =~= old(self)@.documents.insert(p, doc_num));
            assert(self@.terms =~= old(self)@.terms);
            assert forall|p1: Seq<char>, p2: Seq<char>|
                #![trigger self@.documents[p1], self@.documents[p2]]
                self@.documents.contains_key(p1) && self@.documents.contains_key(p2)
                    && self@.documents[p1] == self@.documents[p2] implies p1 == p2 by {
                if p1 != p && p2 != p {
                    assert(old(self)@.documents[p1] == self@.documents[p1]);
                    assert(old(self)@.documents[p2] == self@.documents[p2]);
                } else if p1 != p {
                    assert(old_shards[shard_of(p1)].wf_at(
                        shard_of(p1),
                        old(self).next_document_number,
                    ));
                } else if p2 != p {
                    assert(old_shards[shard_of(p2)].wf_at(
                        shard_of(p2),
                        old(self).next_document_number,
                    ));
                }
            }
            assert forall|s: int| 0 <= s < NUM_SHARDS implies (#[trigger] self.term_index_shards@[
                s
            ]).wf_at(s) by {
                assert(old(self).term_index_shards@[s].wf_at(s));
            }
        }
        doc_num
    }

    /// Whether `put_document` can take `document_path`: the path is stored
    /// already, or a number is left for a new one.
    pub fn can_put_document(&self, document_path: &str) -> (result: bool)
        requires
            self.wf(),
        ensures
            result == (self@.documents.contains_key(document_path@)
                || self@.next_document_number < i64::MAX),
    {
        if self.next_document_number < i64::MAX {
            return true;
        }
        let shard_idx = self.get_doc_map_shard_index(document_path);
        proof {
            assert(self.doc_map_shards@[shard_idx as int].wf_at(
                shard_idx as int,
                self.next_document_number,
            ));
        }
        match self.doc_map_shards[shard_idx].path_to_number.get(document_path) {
            Some(_) => true,
            None => false,
        }
    }

    /// The path of the document numbered `document_number`, if there is one.
    pub fn get_document(&self, document_number: i64) -> (result: Option<String>)
        requires
            self.wf(),
        ensures
            match result {
                Some(p) => self@.documents.contains_key(p@) && self@.documents[p@]
                    == document_number,
                None => !self@.has_number(document_number),
            },
    {
        let mut s: usize = 0;
        while s < NUM_SHARDS
            invariant
                self.wf(),
                s <= NUM_SHARDS,
                forall|j: int|
                    0 <= j < s ==> !(#[trigger] self.doc_map_shards@[j]).number_to_path@.contains_key(
                        document_number,
                    ),
            decreases NUM_SHARDS - s,
        {
            match self.doc_map_shards[s].number_to_path.get(&document_number) {
                Some(path) => {
                    proof {
                        let sh = self.doc_map_shards@[s as int];
                        assert(sh.wf_at(s as int, self.next_document_number));
                        assert(sh.path_to_number@.contains_key(path@));
                    }
                    return Some(path.clone());
                },
                None => {},
            }
            s = s + 1;
        }
        proof {
            if self@.has_number(document_number) {
                let p = choose|p: Seq<char>|
                    self@.documents.contains_key(p) && self@.documents[p] == document_number;
                let j = shard_of(p);
                assert(self.doc_map_shards@[j].wf_at(j, self.next_document_number));
                assert(self.doc_map_shards@[j].number_to_path@.contains_key(document_number));
            }
        }
        None
    }

    /// The postings of `term`, gathered from every shard.
    pub fn lookup_index(&self, term: &str) -> (result: Vec<DocFreqPair>)
        requires
            self.wf(),
        ensures
            result@ == self@.postings(term@),
    {
        let mut all_results: Vec<DocFreqPair> = Vec::new();
        let ghost home = shard_of(term@);
        let mut s: usize = 0;
        while s < NUM_SHARDS
            invariant
                self.wf(),
                s <= NUM_SHARDS,
                home == shard_of(term@),
                all_results@ == (if home < s {
                    self@.postings(term@)
                } else {
                    Seq::<DocFreqPair>::empty()
                }),
            decreases NUM_SHARDS - s,
        {
            proof {
                assert(self.term_index_shards@[s as int].wf_at(s as int));
            }
            match self.term_index_shards[s].term_index.get(term) {
                Some(postings) => {
                    append_postings(&mut all_results, postings);
                    assert(all_results@ =~= self@.postings(term@));
                },
                None => {},
            }
            s = s + 1;
        }
        all_results
    }

    /// Sets the frequency of `doc` in the postings of `word`.
    fn upsert_posting(&mut self, word: &String, doc: i64, freq: i64)
        requires
            old(self).wf(),
        ensures
            final(self).wf(),
            final(self)@.documents == old(self)@.documents,
            final(self)@.next_document_number == old(self)@.next_document_number,
            final(self)@.terms == old(self)@.terms.insert(
                word@,
                upsert(old(self)@.postings(word@), doc, freq),
            ),
    {
        let shard_idx = self.get_term_shard_index(word.as_str());
        let ghost w = word@;
        let ghost ps = old(self)@.postings(w);
        proof {
            assert(self.term_index_shards@[shard_idx as int].wf_at(shard_idx as int));
        }
        let mut postings: Vec<DocFreqPair> = match self.term_index_shards[shard_idx].term_index.get(
            word.as_str(),
        ) {
            Some(v) => copy_postings(v),
            None => Vec::new(),
        };
        assert(postings@ == ps);
        let pair = DocFreqPair { document_number: doc, word_frequency: freq };
        let mut k: usize = 0;
        let mut found = false;
        while k < postings.len()
            invariant_except_break
                !found,
            invariant
                k <= postings@.len(),
                postings@ == ps,
                forall|j: int| 0 <= j < k ==> ps[j].document_number != doc,
            ensures
                found ==> k < postings@.len() && ps[k as int].document_number == doc,
                !found ==> k == postings@.len(),
                forall|j: int| 0 <= j < k ==> ps[j].document_number != doc,
            decreases postings@.len() - k,
        {
            if postings[k].document_number == doc {
                found = true;
                break;
            }
            k = k + 1;
        }
        let ghost new_ps = upsert(ps, doc, freq);
        if found {
            proof {
                assert(first_position(ps, doc, k as int));
                let i = choose|i: int| first_position(ps, doc, i);
                assert(i == k);
            }
            postings.set(k, pair);
            assert(postings@ == new_ps);
        } else {
            postings.push(pair);
            assert(postings@ == new_ps);
        }
        proof {
            assert(distinct_documents(ps)) by {
                if old(self).term_index_shards@[shard_idx as int].term_index@.contains_key(w) {
                } else {
                }
            }
            assert(distinct_documents(new_ps)) by {
                if !found {
                    assert forall|i: int, j: int|
                        0 <= i < new_ps.len() && 0 <= j < new_ps.len() && i != j implies new_ps[i].document_number
                        != new_ps[j].document_number by {
                        if i < ps.len() && j < ps.len() {
                        } else if i < ps.len() {
                            assert(ps[i].document_number != doc);
                        } else {
                            assert(ps[j].document_number != doc);
                        }
                    }
                }
            }
        }
        let word_copy = word.clone();
        self.term_index_shards[shard_idx].term_index.insert(word_copy, postings);
        proof {
            let old_shards = old(self).term_index_shards@;
            let shards = self.term_index_shards@;
            assert forall|s: int| 0 <= s < NUM_SHARDS implies (#[trigger] shards[s]).wf_at(s) by {
                assert(old_shards[s].wf_at(s));
                if s == shard_idx {
                    assert forall|t: Seq<char>| #[trigger]
                        shards[s].term_index@.contains_key(t) implies shard_of(t) == s
                        && distinct_documents(shards[s].term_index@[t]@) by {
                        if t != w {
                            assert(old_shards[s].term_index@.contains_key(t));
                        }
                    }
                }
            }
            assert(self@.documents =~= old(self)@.documents);
            assert(self@.terms =~= old(self)@.terms.insert(w, new_ps));
            assert forall|s: int| 0 <= s < NUM_SHARDS implies (#[trigger] self.doc_map_shards@[
                s
            ]).wf_at(s, self.next_document_number) by {
                assert(old(self).doc_map_shards@[s].wf_at(s, self.next_document_number));
            }
        }
    }

    /// Records `doc` with the frequencies `freqs`.
    fn apply_frequencies(&mut self, doc: i64, freqs: &WordFrequencies)
        requires
            old(self).wf(),
            freqs.wf(),
        ensures
            final(self).wf(),
            final(self)@.documents == old(self)@.documents,
            final(self)@.next_document_number == old(self)@.next_document_number,
            final(self)@.terms == apply_update(old(self)@.terms, doc, freqs@),
    {
        let ghost ws = freqs.word_seq();
        let ghost t0 = old(self)@.terms;
        proof {
            freqs.lemma_words_are_keys();
        }
        let n = freqs.len();
        let mut i: usize = 0;
        assert(self@.terms =~= Map::new(
            |t: Seq<char>| t0.contains_key(t) || ws.take(0).contains(t),
            |t: Seq<char>|
                if ws.take(0).contains(t) {
                    upsert(postings_in(t0, t), doc, freqs@[t])
                } else {
                    t0[t]
                },
        ));
        while i < n
            invariant
                self.wf(),
                freqs.wf(),
                n == ws.len(),
                ws == freqs.word_seq(),
                ws.no_duplicates(),
                forall|k: int| 0 <= k < ws.len() ==> freqs@.contains_key(#[trigger] ws[k]),
                forall|w: Seq<char>| #[trigger] freqs@.contains_key(w) ==> ws.contains(w),
                i <= n,
                self@.documents == old(self)@.documents,
                self@.next_document_number == old(self)@.next_document_number,
                self@.terms == Map::new(
                    |t: Seq<char>| t0.contains_key(t) || ws.take(i as int).contains(t),
                    |t: Seq<char>|
                        if ws.take(i as int).contains(t) {
                            upsert(postings_in(t0, t), doc, freqs@[t])
                        } else {
                            t0[t]
                        },
                ),
            decreases n - i,
        {
            let word = freqs.word_at(i);
            let freq = freqs.freq_at(i);
            let ghost before = self@.terms;
            let ghost w = ws[i as int];
            proof {
                assert(!ws.take(i as int).contains(w)) by {
                    if ws.take(i as int).contains(w) {
                        let k = choose|k: int| 0 <= k < i && ws.take(i as int)[k] == w;
                        assert(ws[k] == ws[i as int]);
                    }
                }
                assert(postings_in(before, w) == postings_in(t0, w));
            }
            self.upsert_posting(word, doc, freq);
            proof {
                let after = Map::new(
                    |t: Seq<char>| t0.contains_key(t) || ws.take(i + 1).contains(t),
                    |t: Seq<char>|
                        if ws.take(i + 1).contains(t) {
                            upsert(postings_in(t0, t), doc, freqs@[t])
                        } else {
                            t0[t]
                        },
                );
                assert(ws.take(i + 1) =~= ws.take(i as int).push(w));
                assert forall|t: Seq<char>| ws.take(i + 1).contains(t) <==> (ws.take(
                    i as int,
                ).contains(t) || t == w) by {
                    let t1 = ws.take(i + 1);
                    if t1.contains(t) && t != w {
                        let k = choose|k: int| 0 <= k < t1.len() && t1[k] == t;
                        assert(ws.take(i as int)[k] == t);
                    }
                    if t == w {
                        assert(ws.take(i + 1)[i as int] == w);
                    }
                }
                assert(self@.terms =~= after);
            }
            i = i + 1;
        }
        proof {
            assert(ws.take(n as int) =~= ws);
            assert(self@.terms =~= apply_update(t0, doc, freqs@));
        }
    }

    /// Records that document `document_number` has the given word frequencies:
    /// each of its words gets the document with that frequency in its
    /// postings, in place if the document is there already.
    pub fn update_index(&mut self, document_number: i64, word_frequencies: WordFrequencies)
        requires
            old(self).wf(),
            word_frequencies.wf(),
        ensures
            final(self).wf(),
            final(self)@.documents == old(self)@.documents,
            final(self)@.next_document_number == old(self)@.next_document_number,
            final(self)@.terms == apply_update(
                old(self)@.terms,
                document_number,
                word_frequencies@,
            ),
    {
        self.apply_frequencies(document_number, &word_frequencies);
    }

    /// Records several documents' word frequencies, in order.
    pub fn batch_update_index(&mut self, updates: Vec<(i64, WordFrequencies)>)
        requires
            old(self).wf(),
            forall|i: int| 0 <= i < updates@.len() ==> (#[trigger] updates@[i]).1.wf(),
        ensures
            final(self).wf(),
            final(self)@.documents == old(self)@.documents,
            final(self)@.next_document_number == old(self)@.next_document_number,
            final(self)@.terms == apply_updates(old(self)@.terms, update_views(updates@)),
    {
        let mut i: usize = 0;
        while i < updates.len()
            invariant
                self.wf(),
                i <= updates@.len(),
                forall|k: int| 0 <= k < updates@.len() ==> (#[trigger] updates@[k]).1.wf(),
                self@.documents == old(self)@.documents,
                self@.next_document_number == old(self)@.next_document_number,
                self@.terms == apply_updates(
                    old(self)@.terms,
                    update_views(updates@).take(i as int),
                ),
            decreases updates@.len() - i,
        {
            let doc = updates[i].0;
            let freqs = &updates[i].1;
            proof {
                let us = update_views(updates@);
                assert(us.take(i + 1).drop_last() =~= us.take(i as int));
                assert(us.take(i + 1).last() == (doc, freqs@));
            }
            self.apply_frequencies(doc, freqs);
            i = i + 1;
        }
        assert(update_views(updates@).take(updates@.len() as int) =~= update_views(updates@));
    }
}

/// The documents and frequency maps of a batch of updates.
pub open spec fn update_views(updates: Seq<(i64, WordFrequencies)>) -> Seq<(i64, Map<Seq<char>, i64>)> {
    updates.map_values(|u: (i64, WordFrequencies)| (u.0, u.1@))
}

} // verus!
