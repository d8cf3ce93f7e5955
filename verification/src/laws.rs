//! Properties of the index store, of searching, of word counting and of the
//! client's command line that hold across calls and over all inputs.
use vstd::prelude::*;
use crate::index_store::{
    apply_update,
    apply_updates,
    distinct_documents,
    first_position,
    postings_in,
    upsert,
    DocFreqPair,
    IndexStore,
};
use crate::search::{and_step, candidates_from, combine, initial_freqs, path_of, search_candidates, term_lists};
use crate::word_freqs::{add_counts, counted_word, word_counts, words_of, MIN_WORD_LENGTH};
use crate::client_commands::{command_outcome, search_terms, ClientCommandView};
use vstd::utf8::encode_utf8;
use crate::server::{drop_client, put_client};
use crate::text::{
    all_in_class,
    fields,
    in_class,
    lemma_runs_append,
    lemma_runs_of_run,
    lemma_runs_of_run_then,
    runs,
    unicode_alphanumeric,
    CharClass,
};

verus! {

/// Whether `doc` has an entry in the postings `ps`.
pub open spec fn has_doc(ps: Seq<DocFreqPair>, doc: i64) -> bool {
    exists|i: int| 0 <= i < ps.len() && ps[i].document_number == doc
}

/// A stored path's number names that path and no other: so `get_document`
/// gives back, for the number `put_document` returned, the path that was put.
pub proof fn law_document_number_names_its_path(store: &IndexStore, path: Seq<char>)
    requires
        store.wf(),
        store@.documents.contains_key(path),
    ensures
        store@.has_number(store@.documents[path]),
        path_of(store@, store@.documents[path]) == path,
        forall|q: Seq<char>|
            store@.documents.contains_key(q) && store@.documents[q] == store@.documents[path] ==> q
                == path,
{
    store.lemma_wf_view();
    let n = store@.documents[path];
    assert(store@.documents.contains_key(path) && store@.documents[path] == n);
    let q = path_of(store@, n);
    assert(store@.documents[q] == store@.documents[path]);
}

proof fn lemma_upsert_facts(ps: Seq<DocFreqPair>, doc: i64, freq: i64)
    requires
        distinct_documents(ps),
    ensures
        distinct_documents(upsert(ps, doc, freq)),
        upsert(ps, doc, freq).contains(DocFreqPair { document_number: doc, word_frequency: freq }),
        forall|i: int|
            0 <= i < upsert(ps, doc, freq).len() && upsert(ps, doc, freq)[i].document_number != doc
                ==> ps.contains(#[trigger] upsert(ps, doc, freq)[i]),
        has_doc(ps, doc) ==> upsert(ps, doc, freq).len() == ps.len(),
        !has_doc(ps, doc) ==> upsert(ps, doc, freq) == ps.push(
            DocFreqPair { document_number: doc, word_frequency: freq },
        ),
{
    let pair = DocFreqPair { document_number: doc, word_frequency: freq };
    let r = upsert(ps, doc, freq);
    if has_doc(ps, doc) {
        let w = choose|i: int| 0 <= i < ps.len() && ps[i].document_number == doc;
        assert(exists|i: int| first_position(ps, doc, i)) by {
            assert(first_position(ps, doc, w)) by {
                assert forall|j: int| 0 <= j < w implies ps[j].document_number != doc by {
                    if ps[j].document_number == doc {
                        assert(ps[j].document_number == ps[w].document_number);
                    }
                }
            }
        }
        let k = choose|i: int| first_position(ps, doc, i);
        assert(r == ps.update(k, pair));
        assert(r[k] == pair);
        assert forall|i: int, j: int|
            0 <= i < r.len() && 0 <= j < r.len() && i != j implies r[i].document_number
            != r[j].document_number by {
            if i != k && j != k {
            } else if i == k {
                assert(ps[j].document_number != ps[k].document_number);
            } else {
                assert(ps[i].document_number != ps[k].document_number);
            }
        }
        assert forall|i: int|
            0 <= i < r.len() && r[i].document_number != doc implies ps.contains(#[trigger] r[i]) by {
            assert(r[i] == ps[i]);
        }
    } else {
        assert(r[ps.len() as int] == pair);
        assert forall|i: int, j: int|
            0 <= i < r.len() && 0 <= j < r.len() && i != j implies r[i].document_number
            != r[j].document_number by {
            if i < ps.len() && j < ps.len() {
            } else if i < ps.len() {
                assert(ps[i].document_number != doc);
            } else {
                assert(ps[j].document_number != doc);
            }
        }
        assert forall|i: int|
            0 <= i < r.len() && r[i].document_number != doc implies ps.contains(#[trigger] r[i]) by {
            assert(r[i] == ps[i]);
        }
    }
}

/// After a document is recorded with a frequency for a word, the word's
/// postings hold one entry for the document, with that frequency, and
/// otherwise only entries they held before; no document occurs twice.
pub proof fn law_lookup_after_update(
    terms: Map<Seq<char>, Seq<DocFreqPair>>,
    doc: i64,
    freqs: Map<Seq<char>, i64>,
    word: Seq<char>,
)
    requires
        freqs.contains_key(word),
        distinct_documents(postings_in(terms, word)),
    ensures
        postings_in(apply_update(terms, doc, freqs), word).contains(
            DocFreqPair { document_number: doc, word_frequency: freqs[word] },
        ),
        distinct_documents(postings_in(apply_update(terms, doc, freqs), word)),
        forall|i: int|
            0 <= i < postings_in(apply_update(terms, doc, freqs), word).len() && postings_in(
                apply_update(terms, doc, freqs),
                word,
            )[i].document_number != doc ==> postings_in(terms, word).contains(
                #[trigger] postings_in(apply_update(terms, doc, freqs), word)[i],
            ),
{
    lemma_upsert_facts(postings_in(terms, word), doc, freqs[word]);
}

/// Words a document does not mention keep their postings.
pub proof fn law_update_keeps_other_words(
    terms: Map<Seq<char>, Seq<DocFreqPair>>,
    doc: i64,
    freqs: Map<Seq<char>, i64>,
    word: Seq<char>,
)
    requires
        !freqs.contains_key(word),
    ensures
        postings_in(apply_update(terms, doc, freqs), word) == postings_in(terms, word),
{
}

proof fn lemma_upsert_twice(ps: Seq<DocFreqPair>, doc: i64, freq: i64)
    requires
        distinct_documents(ps),
    ensures
        upsert(upsert(ps, doc, freq), doc, freq) == upsert(ps, doc, freq),
{
    let pair = DocFreqPair { document_number: doc, word_frequency: freq };
    let r = upsert(ps, doc, freq);
    lemma_upsert_facts(ps, doc, freq);
    let i0 = choose|i: int| 0 <= i < r.len() && r[i] == pair;
    assert(r[i0].document_number == doc);
    assert(exists|i: int| 0 <= i < r.len() && r[i].document_number == doc);
    assert(first_position(r, doc, i0)) by {
        assert forall|j: int| 0 <= j < i0 implies r[j].document_number != doc by {}
    }
    let k = choose|i: int| first_position(r, doc, i);
    assert(k == i0) by {
        if k != i0 {
            assert(r[k].document_number == r[i0].document_number);
        }
    }
    assert(r.update(k, pair) =~= r);
}

/// Recording the same document with the same frequencies twice is recording it once.
pub proof fn law_update_index_idempotent(
    terms: Map<Seq<char>, Seq<DocFreqPair>>,
    doc: i64,
    freqs: Map<Seq<char>, i64>,
)
    requires
        forall|t: Seq<char>| #[trigger] terms.contains_key(t) ==> distinct_documents(terms[t]),
    ensures
        apply_update(apply_update(terms, doc, freqs), doc, freqs) == apply_update(terms, doc, freqs),
{
    let once = apply_update(terms, doc, freqs);
    let twice = apply_update(once, doc, freqs);
    assert forall|t: Seq<char>| #[trigger] twice.contains_key(t) implies twice[t] == once[t] by {
        if freqs.contains_key(t) {
            assert(distinct_documents(postings_in(terms, t)));
            lemma_upsert_twice(postings_in(terms, t), doc, freqs[t]);
            assert(postings_in(once, t) == upsert(postings_in(terms, t), doc, freqs[t]));
        }
    }
    assert(twice =~= once);
}

/// A batch of updates is the same as its updates one after the other: a batch
/// split in two gives what the two halves give in turn.
pub proof fn law_batch_update_splits(
    terms: Map<Seq<char>, Seq<DocFreqPair>>,
    first: Seq<(i64, Map<Seq<char>, i64>)>,
    second: Seq<(i64, Map<Seq<char>, i64>)>,
)
    ensures
        apply_updates(terms, first + second) == apply_updates(apply_updates(terms, first), second),
    decreases second.len(),
{
    if second.len() == 0 {
        assert(first + second =~= first);
    } else {
        law_batch_update_splits(terms, first, second.drop_last());
        assert((first + second).drop_last() =~= first + second.drop_last());
        assert((first + second).last() == second.last());
    }
}

proof fn lemma_initial_freqs_keys(ps: Seq<DocFreqPair>, d: i64)
    ensures
        initial_freqs(ps).contains_key(d) <==> has_doc(ps, d),
    decreases ps.len(),
{
    if ps.len() > 0 {
        lemma_initial_freqs_keys(ps.drop_last(), d);
        if has_doc(ps, d) && ps.last().document_number != d {
            let i = choose|i: int| 0 <= i < ps.len() && ps[i].document_number == d;
            assert(ps.drop_last()[i].document_number == d);
        }
        if has_doc(ps.drop_last(), d) {
            let i = choose|i: int| 0 <= i < ps.len() - 1 && ps.drop_last()[i].document_number == d;
            assert(ps[i].document_number == d);
        }
        if ps.last().document_number == d {
            assert(ps[ps.len() - 1].document_number == d);
        }
    }
}

proof fn lemma_and_step_keys(prev: Map<i64, i64>, ps: Seq<DocFreqPair>, d: i64)
    ensures
        and_step(prev, ps).contains_key(d) <==> prev.contains_key(d) && has_doc(ps, d),
    decreases ps.len(),
{
    if ps.len() > 0 {
        lemma_and_step_keys(prev, ps.drop_last(), d);
        if has_doc(ps, d) && ps.last().document_number != d {
            let i = choose|i: int| 0 <= i < ps.len() && ps[i].document_number == d;
            assert(ps.drop_last()[i].document_number == d);
        }
        if has_doc(ps.drop_last(), d) {
            let i = choose|i: int| 0 <= i < ps.len() - 1 && ps.drop_last()[i].document_number == d;
            assert(ps[i].document_number == d);
        }
        if ps.last().document_number == d {
            assert(ps[ps.len() - 1].document_number == d);
        }
    }
}

/// A search combines its terms with AND: a document is among the combined
/// results exactly when every term's postings hold it.
pub proof fn law_search_is_and(lists: Seq<Seq<DocFreqPair>>, d: i64)
    requires
        lists.len() > 0,
    ensures
        combine(lists).contains_key(d) <==> forall|k: int|
            0 <= k < lists.len() ==> has_doc(#[trigger] lists[k], d),
    decreases lists.len(),
{
    if lists.len() == 1 {
        lemma_initial_freqs_keys(lists[0], d);
        if combine(lists).contains_key(d) {
            assert forall|k: int| 0 <= k < lists.len() implies has_doc(#[trigger] lists[k], d) by {}
        }
    } else {
        let init = lists.drop_last();
        law_search_is_and(init, d);
        lemma_and_step_keys(combine(init), lists.last(), d);
        if combine(lists).contains_key(d) {
            assert forall|k: int| 0 <= k < lists.len() implies has_doc(#[trigger] lists[k], d) by {
                if k < lists.len() - 1 {
                    assert(lists[k] == init[k]);
                }
            }
        }
        if forall|k: int| 0 <= k < lists.len() ==> has_doc(#[trigger] lists[k], d) {
            assert forall|k: int| 0 <= k < init.len() implies has_doc(#[trigger] init[k], d) by {
                assert(init[k] == lists[k]);
            }
            assert(has_doc(lists[lists.len() - 1], d));
        }
    }
}

pub proof fn lemma_candidates_from_members(
    v: crate::index_store::IndexStoreView,
    combined: Map<i64, i64>,
    docs: Seq<DocFreqPair>,
)
    ensures
        forall|k: int|
            0 <= k < candidates_from(v, combined, docs).len() ==> {
                let c = #[trigger] candidates_from(v, combined, docs)[k];
                &&& v.documents.contains_key(c.0)
                &&& combined.contains_key(v.documents[c.0])
                &&& c.1 == combined[v.documents[c.0]]
            },
    decreases docs.len(),
{
    if docs.len() > 0 {
        lemma_candidates_from_members(v, combined, docs.drop_last());
        let prev = candidates_from(v, combined, docs.drop_last());
        let cur = candidates_from(v, combined, docs);
        let d = docs.last().document_number;
        if combined.contains_key(d) && v.has_number(d) {
            let p = path_of(v, d);
            assert(v.documents.contains_key(p) && v.documents[p] == d);
            assert(cur == prev.push((p, combined[d])));
            assert forall|k: int| 0 <= k < cur.len() implies {
                let c = #[trigger] cur[k];
                &&& v.documents.contains_key(c.0)
                &&& combined.contains_key(v.documents[c.0])
                &&& c.1 == combined[v.documents[c.0]]
            } by {
                if k < prev.len() {
                    assert(cur[k] == prev[k]);
                }
            }
        }
    }
}

/// Every search result is a stored document whose number every term's
/// postings hold, with the frequency the AND combination gives it.
pub proof fn law_search_results_hold_every_term(
    store: &IndexStore,
    terms: Seq<Seq<char>>,
    k: int,
)
    requires
        store.wf(),
        0 <= k < search_candidates(store@, terms).len(),
    ensures
        ({
            let c = search_candidates(store@, terms)[k];
            let d = store@.documents[c.0];
            &&& store@.documents.contains_key(c.0)
            &&& forall|j: int| 0 <= j < terms.len() ==> has_doc(#[trigger] store@.postings(terms[j]), d)
            &&& c.1 == combine(term_lists(store@, terms))[d]
        }),
{
    let v = store@;
    let lists = term_lists(v, terms);
    lemma_candidates_from_members(v, combine(lists), lists[0]);
    let c = search_candidates(v, terms)[k];
    let d = v.documents[c.0];
    law_search_is_and(lists, d);
    assert forall|j: int| 0 <= j < terms.len() implies has_doc(#[trigger] v.postings(terms[j]), d) by {
        assert(lists[j] == v.postings(terms[j]));
    }
}

/// The words a text is counted by are runs of alphanumeric characters, `_`
/// and `-` at least `MIN_WORD_LENGTH` bytes long, each counted at least once.
pub proof fn law_counted_words(content: Seq<char>)
    ensures
        forall|w: Seq<char>| #[trigger]
            word_counts(content).contains_key(w) ==> {
                &&& counted_word(w)
                &&& word_counts(content)[w] >= 1
                &&& words_of(content).contains(w)
            },
{
    lemma_count_keys(Map::empty(), words_of(content));
}

proof fn lemma_count_keys(m: Map<Seq<char>, int>, toks: Seq<Seq<char>>)
    requires
        m.dom().is_empty(),
    ensures
        forall|w: Seq<char>| #[trigger]
            add_counts(m, toks).contains_key(w) ==> counted_word(w) && add_counts(m, toks)[w] >= 1
                && toks.contains(w),
    decreases toks.len(),
{
    if toks.len() > 0 {
        lemma_count_keys(m, toks.drop_last());
        let prev = add_counts(m, toks.drop_last());
        assert forall|w: Seq<char>| #[trigger] add_counts(m, toks).contains_key(w) implies counted_word(
            w,
        ) && add_counts(m, toks)[w] >= 1 && toks.contains(w) by {
            if w == toks.last() && counted_word(w) {
                assert(toks[toks.len() - 1] == w);
            } else {
                assert(prev.contains_key(w));
                let i = choose|i: int| 0 <= i < toks.len() - 1 && toks.drop_last()[i] == w;
                assert(toks[i] == w);
            }
        }
    } else {
        assert forall|w: Seq<char>| #[trigger] add_counts(m, toks).contains_key(w) implies false by {
            assert(m.dom().contains(w));
        }
    }
}

proof fn lemma_drop_absent_client(cs: Seq<(i32, Seq<char>, i32)>, id: i32)
    requires
        forall|i: int| 0 <= i < cs.len() ==> cs[i].0 != id,
    ensures
        drop_client(cs, id) == cs,
    decreases cs.len(),
{
    if cs.len() > 0 {
        let cp = cs.drop_last();
        assert forall|i: int| 0 <= i < cp.len() implies cp[i].0 != id by {
            assert(cp[i] == cs[i]);
        }
        lemma_drop_absent_client(cp, id);
        assert(cs.last().0 != id);
        assert(cp.push(cs.last()) =~= cs);
    }
}

/// Removing a client that was just registered under a number no connected
/// client had gives back the clients there were before.
pub proof fn law_remove_undoes_register(cs: Seq<(i32, Seq<char>, i32)>, c: (i32, Seq<char>, i32))
    requires
        forall|i: int| 0 <= i < cs.len() ==> cs[i].0 != c.0,
    ensures
        drop_client(put_client(cs, c), c.0) == cs,
{
    assert(put_client(cs, c) == cs.push(c));
    assert(cs.push(c).drop_last() =~= cs);
    lemma_drop_absent_client(cs, c.0);
}

/// Recording a document's frequencies keeps every other document's entry
/// of a word where it was, and removes no entry.
pub proof fn law_update_keeps_other_entries(
    terms: Map<Seq<char>, Seq<DocFreqPair>>,
    doc: i64,
    freqs: Map<Seq<char>, i64>,
    word: Seq<char>,
)
    ensures
        postings_in(terms, word).len() <= postings_in(apply_update(terms, doc, freqs), word).len(),
        forall|i: int|
            0 <= i < postings_in(terms, word).len() && postings_in(terms, word)[i].document_number
                != doc ==> postings_in(apply_update(terms, doc, freqs), word)[i] == postings_in(
                terms,
                word,
            )[i],
{
    let ps = postings_in(terms, word);
    if freqs.contains_key(word) {
        let pair = DocFreqPair { document_number: doc, word_frequency: freqs[word] };
        if exists|i: int| 0 <= i < ps.len() && ps[i].document_number == doc {
            let w = choose|i: int| 0 <= i < ps.len() && ps[i].document_number == doc;
            lemma_first_position_exists(ps, doc, w);
            let k = choose|i: int| first_position(ps, doc, i);
            assert(upsert(ps, doc, freqs[word]) == ps.update(k, pair));
        }
    }
}

proof fn lemma_first_position_exists(ps: Seq<DocFreqPair>, doc: i64, w: int)
    requires
        0 <= w < ps.len(),
        ps[w].document_number == doc,
    ensures
        exists|i: int| first_position(ps, doc, i),
    decreases w,
{
    if exists|j: int| 0 <= j < w && ps[j].document_number == doc {
        let j = choose|j: int| 0 <= j < w && ps[j].document_number == doc;
        lemma_first_position_exists(ps, doc, j);
    } else {
        assert(first_position(ps, doc, w));
    }
}

/// A batch of one update is that update; with `law_batch_update_splits`, a
/// batch is its updates made one after the other.
pub proof fn law_batch_of_one_is_update(
    terms: Map<Seq<char>, Seq<DocFreqPair>>,
    doc: i64,
    freqs: Map<Seq<char>, i64>,
)
    ensures
        apply_updates(terms, seq![(doc, freqs)]) == apply_update(terms, doc, freqs),
{
    let us = seq![(doc, freqs)];
    assert(us.drop_last() =~= Seq::<(i64, Map<Seq<char>, i64>)>::empty());
    assert(apply_updates(terms, Seq::<(i64, Map<Seq<char>, i64>)>::empty()) == terms);
    assert(us.last() == (doc, freqs));
}

/// How often `w` is counted in `m` (0 when it is not).
pub open spec fn count_of(m: Map<Seq<char>, int>, w: Seq<char>) -> int {
    if m.contains_key(w) {
        m[w]
    } else {
        0
    }
}

proof fn lemma_add_counts_append(m: Map<Seq<char>, int>, x: Seq<Seq<char>>, y: Seq<Seq<char>>)
    ensures
        add_counts(m, x + y) == add_counts(add_counts(m, x), y),
    decreases y.len(),
{
    if y.len() == 0 {
        assert(x + y =~= x);
    } else {
        lemma_add_counts_append(m, x, y.drop_last());
        assert((x + y).drop_last() =~= x + y.drop_last());
        assert((x + y).last() == y.last());
    }
}

/// Counting words into a map adds, for every word, the text's count to the
/// count the map had: nothing is cleared or lost.
pub proof fn law_counting_accumulates(m: Map<Seq<char>, int>, toks: Seq<Seq<char>>, w: Seq<char>)
    ensures
        count_of(add_counts(m, toks), w) == count_of(m, w) + count_of(add_counts(Map::empty(), toks), w),
    decreases toks.len(),
{
    if toks.len() > 0 {
        law_counting_accumulates(m, toks.drop_last(), w);
    }
}

/// Word counting is additive: the counts of two texts joined by a character
/// that is no word character are the counts of the first text with the
/// words of the second added, that is, the two texts' counts summed per word.
pub proof fn law_word_counts_add(a: Seq<char>, c: char, b: Seq<char>, w: Seq<char>)
    requires
        !in_class(CharClass::WordChar, c),
    ensures
        word_counts(a.push(c) + b) == add_counts(word_counts(a), words_of(b)),
        count_of(word_counts(a.push(c) + b), w) == count_of(word_counts(a), w) + count_of(
            word_counts(b),
            w,
        ),
{
    assert(a.push(c).drop_last() =~= a);
    assert(runs(a.push(c), CharClass::WordChar) == runs(a, CharClass::WordChar));
    lemma_runs_append(a.push(c), b, CharClass::WordChar);
    lemma_add_counts_append(Map::empty(), words_of(a), words_of(b));
    law_counting_accumulates(word_counts(a), words_of(b), w);
}

/// The characters words are made of are exactly the alphanumeric ones,
/// `_` and `-`; every other character (`.`, `,`, white space, ...) ends a word.
pub proof fn law_word_characters(c: char)
    ensures
        in_class(CharClass::WordChar, c) <==> (unicode_alphanumeric(c) || c == '_' || c == '-'),
{
}

/// Any character that is no word character splits a text the same way: the
/// counts of two texts joined by one such character do not depend on which.
pub proof fn law_word_separators_are_alike(a: Seq<char>, c1: char, c2: char, b: Seq<char>)
    requires
        !in_class(CharClass::WordChar, c1),
        !in_class(CharClass::WordChar, c2),
    ensures
        word_counts(a.push(c1) + b) == word_counts(a.push(c2) + b),
{
    law_word_counts_add(a, c1, b, Seq::<char>::empty());
    law_word_counts_add(a, c2, b, Seq::<char>::empty());
}

/// A text that is one run of word characters is counted as that one word,
/// once, exactly when it has at least `MIN_WORD_LENGTH` bytes in UTF-8,
/// however long it is; a shorter run is not counted.
pub proof fn law_run_is_counted_once(w: Seq<char>)
    requires
        w.len() > 0,
        all_in_class(w, CharClass::WordChar),
    ensures
        encode_utf8(w).len() >= MIN_WORD_LENGTH ==> word_counts(w) == Map::<Seq<char>, int>::empty().insert(
            w,
            1,
        ),
        encode_utf8(w).len() < MIN_WORD_LENGTH ==> word_counts(w) == Map::<Seq<char>, int>::empty(),
{
    lemma_runs_of_run(w, CharClass::WordChar);
    let toks = seq![w];
    assert(toks.drop_last() =~= Seq::<Seq<char>>::empty());
    assert(toks.last() == w);
    assert(add_counts(Map::empty(), Seq::<Seq<char>>::empty()) == Map::<Seq<char>, int>::empty());
    assert(word_counts(w) == add_counts(Map::empty(), toks));
    if encode_utf8(w).len() >= MIN_WORD_LENGTH {
        assert(word_counts(w) =~= Map::<Seq<char>, int>::empty().insert(w, 1));
    } else {
        assert(word_counts(w) =~= Map::<Seq<char>, int>::empty());
    }
}

/// The search terms of a search command are its fields after `search` with
/// every `AND` left out, in order; none of them is `AND`.
pub proof fn law_search_terms_drop_every_and(ts: Seq<Seq<char>>)
    ensures
        search_terms(ts) == ts.filter(|t: Seq<char>| t != "AND"@),
        forall|i: int| 0 <= i < search_terms(ts).len() ==> search_terms(ts)[i] != "AND"@,
    decreases ts.len(),
{
    reveal(Seq::filter);
    if ts.len() > 0 {
        law_search_terms_drop_every_and(ts.drop_last());
        let r = search_terms(ts.drop_last());
        if ts.last() != "AND"@ {
            assert forall|i: int| 0 <= i < search_terms(ts).len() implies search_terms(ts)[i]
                != "AND"@ by {
                if i < r.len() {
                    assert(search_terms(ts)[i] == r[i]);
                }
            }
        }
    }
}

/// A command takes its arguments from its own fields: `index` its second
/// field as the folder, `connect` its second and third as address and port,
/// and `search` the fields after `search` without the `AND`s.
pub proof fn law_command_arguments_are_its_fields(line: Seq<char>)
    ensures
        command_outcome(line) matches Ok(Some(ClientCommandView::Index(p))) ==> {
            &&& fields(line).len() == 2
            &&& fields(line)[0] == "index"@
            &&& p == fields(line)[1]
        },
        command_outcome(line) matches Ok(Some(ClientCommandView::Connect(ip, port))) ==> {
            &&& fields(line).len() == 3
            &&& fields(line)[0] == "connect"@
            &&& ip == fields(line)[1]
            &&& port == fields(line)[2]
        },
        command_outcome(line) matches Ok(Some(ClientCommandView::Search(ts))) ==> {
            &&& fields(line)[0] == "search"@
            &&& ts == fields(line).drop_first().filter(|t: Seq<char>| t != "AND"@)
            &&& ts.len() > 0
        },
{
    reveal_strlit("quit");
    reveal_strlit("connect");
    reveal_strlit("get_info");
    reveal_strlit("index");
    reveal_strlit("search");
    let parts = fields(line);
    if parts.len() > 0 {
        law_search_terms_drop_every_and(parts.drop_first());
    }
}

/// `index <folder>` asks to index that folder, for a folder that is one
/// whitespace-free field.
pub proof fn law_index_command_names_its_folder(folder: Seq<char>)
    requires
        folder.len() > 0,
        all_in_class(folder, CharClass::NonWhiteSpace),
    ensures
        command_outcome("index "@ + folder) == Ok::<Option<ClientCommandView>, Seq<char>>(
            Some(ClientCommandView::Index(folder)),
        ),
{
    reveal_strlit("index ");
    reveal_strlit("index");
    reveal_strlit("quit");
    reveal_strlit("connect");
    reveal_strlit("get_info");
    let w = "index"@;
    let a = "index "@;
    assert(a =~= w.push(' '));
    assert(all_in_class(w, CharClass::NonWhiteSpace)) by {
        assert forall|i: int| 0 <= i < w.len() implies in_class(CharClass::NonWhiteSpace, #[trigger] w[i]) by {}
    }
    lemma_runs_of_run_then(w, ' ', CharClass::NonWhiteSpace);
    lemma_runs_of_run(folder, CharClass::NonWhiteSpace);
    lemma_runs_append(a, folder, CharClass::NonWhiteSpace);
    assert(fields(a + folder) =~= seq![w, folder]);
    assert(w.len() == 5);
    assert("quit"@.len() == 4);
    assert("connect"@.len() == 7);
    assert("get_info"@.len() == 8);
}

} // verus!
