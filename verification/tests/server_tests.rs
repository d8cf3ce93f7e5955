use file_retrieval_engine::index_store::IndexStore;
use file_retrieval_engine::server::{
    append_received, is_quit_request, parse_server_command, ClientInfo, IndexBatch, PendingBatches, ServerCommand,
    ServerProcessingEngine,
};
use file_retrieval_engine::word_freqs::WordFrequencies;

fn client(id: i32) -> ClientInfo {
    ClientInfo::new(id, "10.0.0.1".to_string(), 5555)
}

#[test]
fn register_request_gets_client_number() {
    let mut e = ServerProcessingEngine::new(IndexStore::new());
    assert_eq!(e.process_message("REGISTER_REQUEST\n", &client(3)), "REGISTER_REPLY 3\n");
    assert_eq!(e.process_message("  \n", &client(3)), "ERROR Empty request\n");
    assert_eq!(e.process_message("FOO\n", &client(3)), "ERROR Invalid request\n");
}

#[test]
fn index_then_search_then_doc_path() {
    let mut e = ServerProcessingEngine::new(IndexStore::new());
    let c = client(1);
    assert_eq!(
        e.process_message("INDEX_REQUEST /x/client_1/folder2/a.txt apple 3 pear 2 plum\n", &c),
        "INDEX_REPLY SUCCESS\n"
    );
    assert_eq!(
        e.process_message("INDEX_REQUEST /x/client_1/folder2/b.txt apple 5 pear oops\n", &c),
        "INDEX_REPLY SUCCESS\n"
    );
    assert_eq!(
        e.process_message("SEARCH_REQUEST apple\n", &c),
        "SEARCH_REPLY 2\nClient 1:folder2/b.txt 5\nClient 1:folder2/a.txt 3\n"
    );
    assert_eq!(
        e.process_message("SEARCH_REQUEST apple pear\n", &c),
        "SEARCH_REPLY 1\nClient 1:folder2/a.txt 5\n"
    );
    assert_eq!(e.process_message("SEARCH_REQUEST\n", &c), "ERROR Empty search terms\n");
    assert_eq!(e.process_message("GET_DOC_PATH 2\n", &c), "DOC_PATH /x/client_1/folder2/b.txt\n");
    assert_eq!(e.process_message("GET_DOC_PATH 9\n", &c), "ERROR Document not found\n");
    assert_eq!(e.process_message("GET_DOC_PATH x\n", &c), "ERROR Invalid document ID\n");
    assert_eq!(e.process_message("GET_DOC_PATH 1 2\n", &c), "ERROR Invalid document ID request\n");
    assert_eq!(e.process_message("INDEX_REQUEST\n", &c), "ERROR Invalid index request format\n");
}

#[test]
fn search_reply_counts_results_without_client_folder() {
    let mut e = ServerProcessingEngine::new(IndexStore::new());
    let c = client(1);
    e.process_message("INDEX_REQUEST /plain/path.txt word 4\n", &c);
    assert_eq!(e.process_message("SEARCH_REQUEST word\n", &c), "SEARCH_REPLY 1\n");
}

#[test]
fn clients_are_registered_and_removed() {
    let mut e = ServerProcessingEngine::new(IndexStore::new());
    let a = e.register_client("1.1.1.1".to_string(), 10);
    let b = e.register_client("2.2.2.2".to_string(), 20);
    assert_eq!(a.client_id, 1);
    assert_eq!(b.client_id, 2);
    assert_eq!(
        e.get_connected_clients(),
        vec![
            "Client ID: 1, IP: 1.1.1.1, Port: 10".to_string(),
            "Client ID: 2, IP: 2.2.2.2, Port: 20".to_string(),
        ]
    );
    e.remove_client(1);
    assert_eq!(e.get_connected_clients(), vec!["Client ID: 2, IP: 2.2.2.2, Port: 20".to_string()]);
    assert!(!e.is_stopping());
    e.shutdown();
    assert!(e.is_stopping());
}

#[test]
fn console_commands_are_read() {
    assert_eq!(parse_server_command("quit"), ServerCommand::Quit);
    assert_eq!(parse_server_command("list"), ServerCommand::List);
    assert_eq!(parse_server_command("help"), ServerCommand::Help);
    assert_eq!(parse_server_command("invalid_command"), ServerCommand::Unrecognized);
}

#[test]
fn received_chunks_make_a_message() {
    let mut m = String::new();
    assert!(!append_received(&mut m, b"SEARCH_"));
    assert!(!append_received(&mut m, &[0xff, 0xfe]));
    assert!(append_received(&mut m, b"REQUEST a\n"));
    assert_eq!(m, "SEARCH_REQUEST a\n");
}

#[test]
fn pending_batches_fill_up_at_one_hundred() {
    let mut p = PendingBatches::new();
    for i in 0..99 {
        assert!(p.push(IndexBatch { document_number: i, word_frequencies: WordFrequencies::new() }).is_none());
    }
    let full = p.push(IndexBatch { document_number: 99, word_frequencies: WordFrequencies::new() }).unwrap();
    assert_eq!(full.len(), 100);
    assert_eq!(full[99].0, 99);
    assert!(p.take_all().is_empty());
}

#[test]
fn removing_a_new_client_gives_back_the_list() {
    let mut e = ServerProcessingEngine::new(IndexStore::new());
    e.register_client("1.1.1.1".to_string(), 10);
    let before = e.get_connected_clients();
    let c = e.register_client("3.3.3.3".to_string(), 30);
    assert_eq!(e.get_connected_clients().len(), 2);
    e.remove_client(c.client_id);
    assert_eq!(e.get_connected_clients(), before);
}

#[test]
fn quit_request_ends_the_session_without_reply() {
    let mut e = ServerProcessingEngine::new(IndexStore::new());
    assert!(is_quit_request("QUIT_REQUEST"));
    assert!(is_quit_request("  QUIT_REQUEST\n"));
    assert!(!is_quit_request("QUIT"));
    assert!(!is_quit_request(""));
    assert_eq!(e.process_message("QUIT_REQUEST", &client(4)), "");
}
