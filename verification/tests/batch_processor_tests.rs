use file_retrieval_engine::batch_processor::BatchIndexProcessor;
use file_retrieval_engine::index_store::IndexStore;

#[test]
fn batches_reach_the_store_when_flushed() {
    let mut store = IndexStore::new();
    let mut p = BatchIndexProcessor::new();
    let d = p.process_document(&mut store, "alpha beta alpha", "/f.txt");
    assert_eq!(d, 1);
    assert_eq!(store.get_document(1), Some("/f.txt".to_string()));
    assert!(store.lookup_index("alpha").is_empty());
    p.flush_all(&mut store);
    let r = store.lookup_index("alpha");
    assert_eq!(r.len(), 1);
    assert_eq!(r[0].document_number, d);
    assert_eq!(r[0].word_frequency, 2);
    let b = store.lookup_index("beta");
    assert_eq!(b.len(), 1);
    assert_eq!(b[0].document_number, d);
    assert_eq!(b[0].word_frequency, 1);
}

#[test]
fn each_batched_word_keeps_its_document() {
    let mut store = IndexStore::new();
    let mut p = BatchIndexProcessor::new();
    let d1 = p.process_document(&mut store, "shared first", "/a.txt");
    let d2 = p.process_document(&mut store, "shared shared second", "/b.txt");
    assert_eq!((d1, d2), (1, 2));
    p.flush_all(&mut store);
    let shared = store.lookup_index("shared");
    assert_eq!(shared.len(), 2);
    assert!(shared.iter().any(|e| e.document_number == 1 && e.word_frequency == 1));
    assert!(shared.iter().any(|e| e.document_number == 2 && e.word_frequency == 2));
    assert_eq!(store.lookup_index("first")[0].document_number, 1);
    assert_eq!(store.lookup_index("second")[0].document_number, 2);
}
