//! Batched indexing: the word counts of each document are spread over
//! per-shard batches, and a batch goes to the store when it is full or when
//! everything is flushed.
use vstd::prelude::*;
use crate::index_store::{
    apply_update,
    apply_updates,
    shard_index,
    shard_of,
    update_views,
    IndexStore,
    NUM_SHARDS,
};
use crate::server::number_for;
use crate::text::{str_to_chars, chars_to_string};
use crate::word_freqs::{count_words, int_map, lists_map, word_counts, WordFrequencies};

verus! {

/// How many entries a shard's batch holds before it is flushed.
pub const SHARD_BATCH_SIZE: usize = 10000;

/// A batch entry: a document, one of its words, and the word's frequency there.
pub type BatchEntry = (i64, Seq<char>, i64);

/// The updates a batch makes: each entry records its word's frequency for
/// its own document, in the order of the batch.
pub open spec fn batch_updates(b: Seq<BatchEntry>) -> Seq<(i64, Map<Seq<char>, i64>)> {
    b.map_values(|e: BatchEntry| (e.0, Map::<Seq<char>, i64>::empty().insert(e.1, e.2)))
}

/// The term index after the batch `b` is recorded.
pub open spec fn record_batch(
    terms: Map<Seq<char>, Seq<crate::index_store::DocFreqPair>>,
    b: Seq<BatchEntry>,
) -> Map<Seq<char>, Seq<crate::index_store::DocFreqPair>> {
    apply_updates(terms, batch_updates(b))
}

/// One entry `e` of document `doc` goes to the batch of its word's shard; a
/// batch that reaches `batch_size` entries is recorded and emptied.
pub open spec fn route(
    terms: Map<Seq<char>, Seq<crate::index_store::DocFreqPair>>,
    batches: Seq<Seq<BatchEntry>>,
    e: (Seq<char>, i64),
    doc: i64,
    batch_size: nat,
) -> (Map<Seq<char>, Seq<crate::index_store::DocFreqPair>>, Seq<Seq<BatchEntry>>) {
    let s = shard_of(e.0);
    let b = batches[s].push((doc, e.0, e.1));
    if b.len() >= batch_size {
        (record_batch(terms, b), batches.update(s, seq![]))
    } else {
        (terms, batches.update(s, b))
    }
}

/// All the entries `es` of document `doc`, routed in order.
pub open spec fn route_all(
    terms: Map<Seq<char>, Seq<crate::index_store::DocFreqPair>>,
    batches: Seq<Seq<BatchEntry>>,
    es: Seq<(Seq<char>, i64)>,
    doc: i64,
    batch_size: nat,
) -> (Map<Seq<char>, Seq<crate::index_store::DocFreqPair>>, Seq<Seq<BatchEntry>>)
    decreases es.len(),
{
    if es.len() == 0 {
        (terms, batches)
    } else {
        let p = route_all(terms, batches, es.drop_last(), doc, batch_size);
        route(p.0, p.1, es.last(), doc, batch_size)
    }
}

/// The term index after the batches of the first `k` shards are recorded,
/// in shard order.
pub open spec fn flush_shards(
    terms: Map<Seq<char>, Seq<crate::index_store::DocFreqPair>>,
    batches: Seq<Seq<BatchEntry>>,
    k: int,
) -> Map<Seq<char>, Seq<crate::index_store::DocFreqPair>>
    decreases k,
{
    if k <= 0 {
        terms
    } else {
        record_batch(flush_shards(terms, batches, k - 1), batches[k - 1])
    }
}

/// What a batch processor holds.
#[verifier::ext_equal]
pub struct BatchView {
    pub batch_size: nat,
    pub batches: Seq<Seq<BatchEntry>>,
    pub buffered: Seq<(i64, Map<Seq<char>, i64>)>,
}

/// Collects the word counts of documents into per-shard batches.
pub struct BatchIndexProcessor {
    batch_size: usize,
    current_batches: Vec<Vec<(i64, String, i64)>>,
    document_buffer: Vec<(i64, WordFrequencies)>,
}

pub open spec fn entry_view(e: (i64, String, i64)) -> BatchEntry {
    (e.0, e.1@, e.2)
}

pub open spec fn entries_view(b: Seq<(i64, String, i64)>) -> Seq<BatchEntry> {
    b.map_values(|e: (i64, String, i64)| entry_view(e))
}

pub open spec fn batches_view(v: Seq<Vec<(i64, String, i64)>>) -> Seq<Seq<BatchEntry>> {
    v.map_values(|b: Vec<(i64, String, i64)>| entries_view(b@))
}

impl View for BatchIndexProcessor {
    type V = BatchView;

    closed spec fn view(&self) -> BatchView {
        BatchView {
            batch_size: self.batch_size as nat,
            batches: batches_view(self.current_batches@),
            buffered: update_views(self.document_buffer@),
        }
    }
}

impl BatchIndexProcessor {
    pub closed spec fn wf(&self) -> bool {
        &&& self.current_batches@.len() == NUM_SHARDS
        &&& self.batch_size >= 1
        &&& forall|i: int|
            0 <= i < self.document_buffer@.len() ==> (#[trigger] self.document_buffer@[i]).1.wf()
    }

    /// A processor with empty batches of `SHARD_BATCH_SIZE` entries.
    pub fn new() -> (result: Self)
        ensures
            result.wf(),
            result@.batch_size == SHARD_BATCH_SIZE,
            result@.batches == Seq::new(NUM_SHARDS as nat, |i: int| Seq::<BatchEntry>::empty()),
            result@.buffered == Seq::<(i64, Map<Seq<char>, i64>)>::empty(),
    {
        let mut current_batches: Vec<Vec<(i64, String, i64)>> = Vec::new();
        let mut i: usize = 0;
        while i < NUM_SHARDS
            invariant
                i <= NUM_SHARDS,
                current_batches@.len() == i,
                forall|k: int| 0 <= k < i ==> (#[trigger] current_batches@[k])@.len() == 0,
            decreases NUM_SHARDS - i,
        {
            current_batches.push(Vec::new());
            i = i + 1;
        }
        let r = BatchIndexProcessor {
            batch_size: SHARD_BATCH_SIZE,
            current_batches,
            document_buffer: Vec::new(),
        };
        assert forall|k: int| 0 <= k < NUM_SHARDS implies #[trigger] r@.batches[k] =~= Seq::<BatchEntry>::empty() by {
            assert(r.current_batches@[k]@.len() == 0);
        }
        assert(r@.batches =~= Seq::new(NUM_SHARDS as nat, |i: int| Seq::<BatchEntry>::empty()));
        assert(r@.buffered =~= Seq::<(i64, Map<Seq<char>, i64>)>::empty());
        r
    }

    /// Records the batch of `shard`, each entry under its own document, and
    /// empties it.
    fn flush_shard(&mut self, store: &mut IndexStore, shard: usize)
        requires
            old(self).wf(),
            old(store).wf(),
            shard < NUM_SHARDS,
        ensures
            final(self).wf(),
            final(store).wf(),
            final(store)@.documents == old(store)@.documents,
            final(store)@.next_document_number == old(store)@.next_document_number,
            final(self)@.batch_size == old(self)@.batch_size,
            final(self)@.buffered == old(self)@.buffered,
            final(self)@.batches == old(self)@.batches.update(shard as int, seq![]),
            final(store)@.terms == record_batch(old(store)@.terms, old(self)@.batches[shard as int]),
    {
        let mut batch: Vec<(i64, String, i64)> = Vec::new();
        std::mem::swap(&mut batch, &mut self.current_batches[shard]);
        let ghost b = entries_view(batch@);
        assert(b == old(self)@.batches[shard as int]);
        let mut updates: Vec<(i64, WordFrequencies)> = Vec::new();
        let mut i: usize = 0;
        assert(batch_updates(b).take(0) =~= update_views(updates@));
        while i < batch.len()
            invariant
                i <= batch@.len(),
                b == entries_view(batch@),
                update_views(updates@) == batch_updates(b).take(i as int),
                forall|k: int| 0 <= k < updates@.len() ==> (#[trigger] updates@[k]).1.wf(),
            decreases batch@.len() - i,
        {
            let doc = batch[i].0;
            let word = batch[i].1.clone();
            let freq = batch[i].2;
            let ghost before = update_views(updates@);
            let mut single = WordFrequencies::new();
            single.insert(word, freq);
            updates.push((doc, single));
            assert(b[i as int] == entry_view(batch@[i as int]));
            assert(update_views(updates@) =~= before.push(batch_updates(b)[i as int]));
            assert(batch_updates(b).take(i + 1) =~= batch_updates(b).take(i as int).push(
                batch_updates(b)[i as int],
            ));
            i = i + 1;
        }
        assert(batch_updates(b).take(batch@.len() as int) =~= batch_updates(b));
        store.batch_update_index(updates);
        proof {
            assert(self.current_batches@[shard as int]@.len() == 0);
            assert(self@.batches[shard as int] =~= Seq::<BatchEntry>::empty());
            assert forall|k: int| 0 <= k < NUM_SHARDS && k != shard implies self.current_batches@[k]
                == old(self).current_batches@[k] by {}
            assert(self@.batches =~= old(self)@.batches.update(shard as int, seq![]));
        }
    }

    /// Indexes a document: numbers its path in the store, counts its words,
    /// and puts each counted word, with the document's number, in the batch
    /// of its shard; a batch that fills up is recorded, each entry under its
    /// own document. Returns the document's number.
    pub fn process_document(&mut self, store: &mut IndexStore, content: &str, path: &str) -> (result: i64)
        requires
            old(self).wf(),
            old(store).wf(),
            content@.len() <= i64::MAX,
            !old(store)@.documents.contains_key(path@) ==> old(store)@.next_document_number
                < i64::MAX,
        ensures
            final(self).wf(),
            final(store).wf(),
            result == number_for(old(store)@, path@),
            final(store)@.documents == old(store)@.documents.insert(path@, result),
            final(store)@.next_document_number == (if old(store)@.documents.contains_key(path@) {
                old(store)@.next_document_number
            } else {
                (old(store)@.next_document_number + 1) as i64
            }),
            final(self)@.batch_size == old(self)@.batch_size,
            final(self)@.buffered == old(self)@.buffered,
            exists|m: Map<Seq<char>, i64>, es: Seq<(Seq<char>, i64)>|
                {
                    &&& int_map(m) == word_counts(content@)
                    &&& lists_map(es, m)
                    &&& (final(store)@.terms, final(self)@.batches) == route_all(
                        old(store)@.terms,
                        old(self)@.batches,
                        es,
                        result,
                        old(self)@.batch_size,
                    )
                },
    {
        let path_chars = str_to_chars(path);
        let path_string = chars_to_string(path_chars.as_slice());
        let doc_num = store.put_document(path_string);
        let freq_map = count_words(content);
        proof {
            freq_map.lemma_entries_list_map();
        }
        let ghost es = freq_map.entries();
        let ghost t0 = store@.terms;
        let ghost docs = store@.documents;
        let ghost next = store@.next_document_number;
        let ghost bs = self@.batch_size;
        let ghost b0 = self@.batches;
        assert(es.take(0) =~= Seq::<(Seq<char>, i64)>::empty());
        let n = freq_map.len();
        let mut i: usize = 0;
        while i < n
            invariant
                freq_map.wf(),
                n == freq_map.word_seq().len(),
                es == freq_map.entries(),
                i <= n,
                self.wf(),
                store.wf(),
                store@.documents == docs,
                store@.next_document_number == next,
                self@.batch_size == bs,
                self@.buffered == old(self)@.buffered,
                (store@.terms, self@.batches) == route_all(t0, b0, es.take(i as int), doc_num, bs),
            decreases n - i,
        {
            let word = freq_map.word_at(i).clone();
            let freq = freq_map.freq_at(i);
            let ghost e = es[i as int];
            assert(e == (word@, freq));
            let shard = shard_index(word.as_str());
            let ghost before = self@.batches;
            let ghost cb = self.current_batches@;
            let ghost db = self.document_buffer@;
            assert(es.take(i + 1).drop_last() =~= es.take(i as int));
            assert(es.take(i + 1).last() == e);
            self.current_batches[shard].push((doc_num, word, freq));
            proof {
                assert(self.document_buffer@ == db);
                assert(self.current_batches@[shard as int]@ == cb[shard as int]@.push((doc_num, word, freq)));
                assert(entries_view(self.current_batches@[shard as int]@) =~= before[shard as int].push(
                    (doc_num, e.0, e.1),
                ));
                assert forall|k: int| 0 <= k < NUM_SHARDS && k != shard implies self.current_batches@[k]
                    == cb[k] by {}
                assert(self@.batches =~= before.update(
                    shard as int,
                    before[shard as int].push((doc_num, e.0, e.1)),
                ));
            }
            if self.current_batches[shard].len() >= self.batch_size {
                self.flush_shard(store, shard);
                proof {
                    assert(self@.batches =~= before.update(shard as int, seq![]));
                }
            }
            i = i + 1;
        }
        assert(es.take(n as int) =~= es);
        assert(store@.documents =~= old(store)@.documents.insert(path@, doc_num));
        doc_num
    }

    /// Records what is buffered, then the batch of every shard in shard
    /// order, each entry under its own document; every batch ends up empty.
    pub fn flush_all(&mut self, store: &mut IndexStore)
        requires
            old(self).wf(),
            old(store).wf(),
        ensures
            final(self).wf(),
            final(store).wf(),
            final(store)@.documents == old(store)@.documents,
            final(store)@.next_document_number == old(store)@.next_document_number,
            final(store)@.terms == flush_shards(
                apply_updates(old(store)@.terms, old(self)@.buffered),
                old(self)@.batches,
                NUM_SHARDS as int,
            ),
            final(self)@.batch_size == old(self)@.batch_size,
            final(self)@.batches == Seq::new(NUM_SHARDS as nat, |i: int| Seq::<BatchEntry>::empty()),
            final(self)@.buffered == Seq::<(i64, Map<Seq<char>, i64>)>::empty(),
    {
        let mut updates: Vec<(i64, WordFrequencies)> = Vec::new();
        std::mem::swap(&mut updates, &mut self.document_buffer);
        let ghost t1 = apply_updates(old(store)@.terms, old(self)@.buffered);
        if updates.len() > 0 {
            store.batch_update_index(updates);
        } else {
            assert(old(self)@.buffered =~= Seq::<(i64, Map<Seq<char>, i64>)>::empty());
        }
        assert(store@.terms == t1);
        let ghost b0 = self@.batches;
        let mut shard: usize = 0;
        while shard < NUM_SHARDS
            invariant
                shard <= NUM_SHARDS,
                self.wf(),
                store.wf(),
                store@.documents == old(store)@.documents,
                store@.next_document_number == old(store)@.next_document_number,
                self@.batch_size == old(self)@.batch_size,
                self@.buffered == Seq::<(i64, Map<Seq<char>, i64>)>::empty(),
                b0.len() == NUM_SHARDS,
                store@.terms == flush_shards(t1, b0, shard as int),
                forall|k: int| 0 <= k < shard ==> (#[trigger] self@.batches[k]).len() == 0,
                forall|k: int| shard <= k < NUM_SHARDS ==> #[trigger] self@.batches[k] == b0[k],
            decreases NUM_SHARDS - shard,
        {
            let ghost before = self@.batches;
            if self.current_batches[shard].len() > 0 {
                self.flush_shard(store, shard);
            } else {
                proof {
                    assert(before[shard as int] =~= Seq::<BatchEntry>::empty());
                    assert(batch_updates(before[shard as int]) =~= Seq::<(i64, Map<Seq<char>, i64>)>::empty());
                }
            }
            proof {
                assert(before[shard as int] == b0[shard as int]);
                assert forall|k: int| 0 <= k < shard + 1 implies (#[trigger] self@.batches[k]).len()
                    == 0 by {
                    if k < shard {
                        assert(self@.batches[k] == before[k]);
                    }
                }
                assert forall|k: int| shard + 1 <= k < NUM_SHARDS implies #[trigger] self@.batches[k]
                    == b0[k] by {
                    assert(self@.batches[k] == before[k]);
                }
            }
            shard = shard + 1;
        }
        assert forall|k: int| 0 <= k < NUM_SHARDS implies #[trigger] self@.batches[k] =~= Seq::<BatchEntry>::empty() by {
            assert(self@.batches[k].len() == 0);
        }
        assert(self@.batches =~= Seq::new(NUM_SHARDS as nat, |i: int| Seq::<BatchEntry>::empty()));
    }
}

} // verus!
