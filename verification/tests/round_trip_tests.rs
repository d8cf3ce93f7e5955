use file_retrieval_engine::client::ClientProcessingEngine;
use file_retrieval_engine::index_store::IndexStore;
use file_retrieval_engine::server::{ClientInfo, ServerProcessingEngine};
use file_retrieval_engine::word_freqs::WordFrequencies;

fn client(id: i32) -> ClientInfo {
    ClientInfo::new(id, "127.0.0.1".to_string(), 4000)
}

#[test]
fn client_reads_back_the_number_the_server_gave_it() {
    let mut server = ServerProcessingEngine::new(IndexStore::new());
    for id in [1, 42, -7, i32::MAX] {
        let reply = server.process_message("REGISTER_REQUEST\n", &client(id));
        let mut c = ClientProcessingEngine::new();
        assert_eq!(c.handle_register_reply(&reply), Ok(()));
        assert_eq!(c.get_client_id(), id);
    }
}

#[test]
fn client_reads_back_a_stored_path() {
    let mut server = ServerProcessingEngine::new(IndexStore::new());
    let info = client(1);
    server.process_message("INDEX_REQUEST /data/client_1/folder4/notes.txt alpha 2\n", &info);
    let c = ClientProcessingEngine::new();
    let request = c.document_path_request(1);
    let reply = server.process_message(&request, &info);
    assert_eq!(
        c.parse_document_path_reply(&reply),
        Some("/data/client_1/folder4/notes.txt".to_string())
    );
}

#[test]
fn client_reads_back_the_search_results_shown() {
    let mut server = ServerProcessingEngine::new(IndexStore::new());
    let info = client(2);
    server.process_message("INDEX_REQUEST /d/client_2/folder1/a.txt cat 4 dog 1\n", &info);
    server.process_message("INDEX_REQUEST /d/client_2/folder1/b.txt cat 9\n", &info);
    server.process_message("INDEX_REQUEST /elsewhere/c.txt cat 100\n", &info);
    let reply = server.process_message("SEARCH_REQUEST cat\n", &info);
    let c = ClientProcessingEngine::new();
    let results = c.handle_search_reply(&reply).unwrap();
    let shown: Vec<(String, i64)> =
        results.into_iter().map(|r| (r.document_path, r.word_frequency)).collect();
    assert_eq!(
        shown,
        vec![
            ("Client 2:folder1/b.txt".to_string(), 9),
            ("Client 2:folder1/a.txt".to_string(), 4),
        ]
    );
}

#[test]
fn indexing_through_batched_requests_records_every_count() {
    let mut server = ServerProcessingEngine::new(IndexStore::new());
    let info = client(3);
    let mut c = ClientProcessingEngine::new();
    c.handle_register_reply("REGISTER_REPLY 3\n").unwrap();
    let big = "q".repeat(600_000);
    let mut freqs = WordFrequencies::new();
    freqs.insert("apple".to_string(), 3);
    freqs.insert(big.clone(), 2);
    freqs.insert(format!("{}r", big), 5);
    freqs.insert("pear".to_string(), 1);
    let messages = c.index_request_messages("/d/client_3/folder9/doc.txt", &freqs);
    assert!(messages.len() >= 2);
    for m in &messages {
        assert!(server.can_process_message(m));
        assert_eq!(server.process_message(m, &info), "INDEX_REPLY SUCCESS\n");
    }
    let store = server.store();
    assert_eq!(store.get_document(1), Some("/d/client_3/folder9/doc.txt".to_string()));
    assert_eq!(store.get_document(2), None);
    for (word, freq) in [("apple", 3), ("pear", 1)] {
        let postings = store.lookup_index(word);
        assert_eq!(postings.len(), 1);
        assert_eq!(postings[0].document_number, 1);
        assert_eq!(postings[0].word_frequency, freq);
    }
    assert_eq!(store.lookup_index(&big)[0].word_frequency, 2);
    assert_eq!(store.lookup_index(&format!("{}r", big))[0].word_frequency, 5);
}

#[test]
fn searches_with_unwritable_result_lines_are_refused() {
    let mut server = ServerProcessingEngine::new(IndexStore::new());
    let info = client(1);
    server.process_message("INDEX_REQUEST /d/client_é/folder/x.txt word 1 other 2\n", &info);
    server.process_message("INDEX_REQUEST /d/client_5/folder/y.txt other 3\n", &info);
    assert!(!server.can_process_message("SEARCH_REQUEST word\n"));
    assert!(!server.can_process_message("SEARCH_REQUEST other\n"));
    assert!(server.can_process_message("SEARCH_REQUEST missing\n"));
    assert!(server.can_process_message("INDEX_REQUEST /new/path.txt a 1\n"));
    assert!(server.can_process_message("REGISTER_REQUEST\n"));
}

#[test]
fn unwritable_lines_below_the_shown_results_do_not_matter() {
    let mut server = ServerProcessingEngine::new(IndexStore::new());
    let info = client(1);
    for i in 0..11 {
        let m = format!("INDEX_REQUEST /d/client_{}/folder/f{}.txt term {}\n", i % 10, i, 100 + i);
        server.process_message(&m, &info);
    }
    server.process_message("INDEX_REQUEST /d/client_é/folder/low.txt term 1\n", &info);
    assert!(server.can_process_message("SEARCH_REQUEST term\n"));
    let reply = server.process_message("SEARCH_REQUEST term\n", &info);
    assert!(reply.starts_with("SEARCH_REPLY 10\nClient 0:folder/f10.txt 110\n"));
    assert!(!reply.contains("low.txt"));
}
