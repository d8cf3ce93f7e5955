use file_retrieval_engine::index_store::{DocFreqPair, IndexStore};
use file_retrieval_engine::word_freqs::WordFrequencies;

#[test]
fn test_document_operations() {
    let mut store = IndexStore::new();
    let doc_path = "test/path/doc1.txt".to_string();

    let doc_num = store.put_document(doc_path.clone());
    assert!(doc_num > 0);

    let retrieved_path = store.get_document(doc_num).unwrap();
    assert_eq!(retrieved_path, doc_path);
}

#[test]
fn test_index_operations() {
    let mut store = IndexStore::new();
    let doc_num = store.put_document("test/doc1.txt".to_string());

    let mut word_freqs = WordFrequencies::new();
    word_freqs.insert("test".to_string(), 5);
    word_freqs.insert("word".to_string(), 3);

    store.update_index(doc_num, word_freqs);

    let results = store.lookup_index("test");
    assert_eq!(results.len(), 1);
    assert_eq!(results[0].document_number, doc_num);
    assert_eq!(results[0].word_frequency, 5);
}

#[test]
fn put_document_numbers_from_one_and_keeps_numbers() {
    let mut store = IndexStore::new();
    assert_eq!(store.put_document("a.txt".to_string()), 1);
    assert_eq!(store.put_document("b.txt".to_string()), 2);
    assert_eq!(store.put_document("a.txt".to_string()), 1);
    assert_eq!(store.put_document("c.txt".to_string()), 3);
    assert_eq!(store.get_document(2), Some("b.txt".to_string()));
    assert_eq!(store.get_document(4), None);
    assert_eq!(store.get_document(0), None);
    assert_eq!(store.get_document(-1), None);
}

#[test]
fn update_index_replaces_frequency_in_place() {
    let mut store = IndexStore::new();
    let d1 = store.put_document("one".to_string());
    let d2 = store.put_document("two".to_string());
    let mut f = WordFrequencies::new();
    f.insert("apple".to_string(), 2);
    store.update_index(d1, f);
    let mut f = WordFrequencies::new();
    f.insert("apple".to_string(), 7);
    store.update_index(d2, f);
    let mut f = WordFrequencies::new();
    f.insert("apple".to_string(), 9);
    store.update_index(d1, f);
    let r = store.lookup_index("apple");
    assert_eq!(
        r,
        vec![
            DocFreqPair { document_number: d1, word_frequency: 9 },
            DocFreqPair { document_number: d2, word_frequency: 7 },
        ]
    );
    assert!(store.lookup_index("banana").is_empty());
}

#[test]
fn update_index_twice_is_update_once() {
    let mut a = IndexStore::new();
    let mut b = IndexStore::new();
    for store in [&mut a, &mut b] {
        store.put_document("doc".to_string());
    }
    let make = || {
        let mut f = WordFrequencies::new();
        f.insert("alpha".to_string(), 3);
        f.insert("beta".to_string(), 4);
        f
    };
    a.update_index(1, make());
    b.update_index(1, make());
    b.update_index(1, make());
    assert_eq!(a.lookup_index("alpha"), b.lookup_index("alpha"));
    assert_eq!(a.lookup_index("beta"), b.lookup_index("beta"));
}

#[test]
fn batch_update_matches_sequential_updates() {
    let mut a = IndexStore::new();
    let mut b = IndexStore::new();
    let make = |w: &str, n: i64| {
        let mut f = WordFrequencies::new();
        f.insert(w.to_string(), n);
        f.insert("shared".to_string(), n * 10);
        f
    };
    a.batch_update_index(vec![(1, make("x", 1)), (2, make("y", 2)), (1, make("x", 5))]);
    b.update_index(1, make("x", 1));
    b.update_index(2, make("y", 2));
    b.update_index(1, make("x", 5));
    for w in ["x", "y", "shared"] {
        assert_eq!(a.lookup_index(w), b.lookup_index(w));
    }
    assert_eq!(
        a.lookup_index("shared"),
        vec![
            DocFreqPair { document_number: 1, word_frequency: 50 },
            DocFreqPair { document_number: 2, word_frequency: 20 },
        ]
    );
}

#[test]
fn search_ands_terms_and_sums_frequencies() {
    let mut store = IndexStore::new();
    let d1 = store.put_document("p1".to_string());
    let d2 = store.put_document("p2".to_string());
    let d3 = store.put_document("p3".to_string());
    let mut f = WordFrequencies::new();
    f.insert("cat".to_string(), 1);
    f.insert("dog".to_string(), 2);
    store.update_index(d1, f);
    let mut f = WordFrequencies::new();
    f.insert("cat".to_string(), 5);
    store.update_index(d2, f);
    let mut f = WordFrequencies::new();
    f.insert("cat".to_string(), 4);
    f.insert("dog".to_string(), 4);
    store.update_index(d3, f);
    let r = store.search(&["cat".to_string(), "dog".to_string()]);
    assert_eq!(r, vec![("p3".to_string(), 8), ("p1".to_string(), 3)]);
    let r = store.search(&["cat".to_string()]);
    assert_eq!(r, vec![("p2".to_string(), 5), ("p3".to_string(), 4), ("p1".to_string(), 1)]);
    assert!(store.search(&[]).is_empty());
    assert!(store.search(&["cat".to_string(), "bird".to_string()]).is_empty());
}

#[test]
fn search_returns_at_most_ten_best() {
    let mut store = IndexStore::new();
    for i in 0..15 {
        let d = store.put_document(format!("doc{}", i));
        let mut f = WordFrequencies::new();
        f.insert("term".to_string(), i);
        store.update_index(d, f);
    }
    let r = store.search(&["term".to_string()]);
    assert_eq!(r.len(), 10);
    for (k, (path, freq)) in r.iter().enumerate() {
        assert_eq!(*freq, 14 - k as i64);
        assert_eq!(*path, format!("doc{}", 14 - k));
    }
}

#[test]
fn search_skips_documents_without_a_path() {
    let mut store = IndexStore::new();
    let d = store.put_document("known".to_string());
    let mut f = WordFrequencies::new();
    f.insert("zeta".to_string(), 3);
    store.update_index(d, f);
    let mut f = WordFrequencies::new();
    f.insert("zeta".to_string(), 100);
    store.update_index(0, f);
    assert_eq!(store.search(&["zeta".to_string()]), vec![("known".to_string(), 3)]);
}

#[test]
fn search_sum_wraps_like_release_arithmetic() {
    let mut store = IndexStore::new();
    let d = store.put_document("big".to_string());
    let mut f = WordFrequencies::new();
    f.insert("aaa".to_string(), i64::MAX);
    f.insert("bbb".to_string(), 1);
    store.update_index(d, f);
    let r = store.search(&["aaa".to_string(), "bbb".to_string()]);
    assert_eq!(r, vec![("big".to_string(), i64::MIN)]);
}

#[test]
fn update_keeps_other_documents_entries() {
    let mut store = IndexStore::new();
    for (doc, freq) in [(1, 4), (2, 5), (3, 6)] {
        let mut f = WordFrequencies::new();
        f.insert("kiwi".to_string(), freq);
        store.update_index(doc, f);
    }
    let before = store.lookup_index("kiwi");
    let mut f = WordFrequencies::new();
    f.insert("kiwi".to_string(), 50);
    f.insert("lime".to_string(), 1);
    store.update_index(2, f);
    let after = store.lookup_index("kiwi");
    assert_eq!(after.len(), before.len());
    assert_eq!(after[0], before[0]);
    assert_eq!(after[1], DocFreqPair { document_number: 2, word_frequency: 50 });
    assert_eq!(after[2], before[2]);
    let mut f = WordFrequencies::new();
    f.insert("kiwi".to_string(), 8);
    store.update_index(9, f);
    let grown = store.lookup_index("kiwi");
    assert_eq!(&grown[..3], &after[..]);
    assert_eq!(grown[3], DocFreqPair { document_number: 9, word_frequency: 8 });
}
