use file_retrieval_engine::client::{ClientProcessingEngine, RegisterReplyError};
use file_retrieval_engine::client_commands::{
    display_line_exec, format_search_results, parse_client_command, ClientCommand,
};
use file_retrieval_engine::client::DocPathFreqPair;
use file_retrieval_engine::word_freqs::{count_words, WordFrequencies};

#[test]
fn test_process_document() {
    let engine = ClientProcessingEngine::new();
    let content = "test-word another_word simple test-word";
    let mut freqs = WordFrequencies::new();
    engine.process_document_efficient(content, &mut freqs);

    assert_eq!(freqs.get("test-word"), Some(&2));
    assert_eq!(freqs.get("another_word"), Some(&1));
    assert_eq!(freqs.get("simple"), Some(&1));
}

#[test]
fn test_document_processing() {
    // The text a file written with `writeln!` holds: the line and its line end.
    let content = format!("{}\n", "test-word another_word simple test-word");
    let engine = ClientProcessingEngine::new();
    let mut freqs = WordFrequencies::new();
    engine.process_document_efficient(&content, &mut freqs);

    assert_eq!(freqs.get("test-word"), Some(&2));
}

#[test]
fn short_words_are_not_counted() {
    let f = count_words("an ox is big, a cat; é! ééé éé");
    assert_eq!(f.get("an"), None);
    assert_eq!(f.get("ox"), None);
    assert_eq!(f.get("big"), Some(&1));
    assert_eq!(f.get("cat"), Some(&1));
    // "éé" is four bytes long, so it counts; "é" (two bytes) does not.
    assert_eq!(f.get("éé"), Some(&1));
    assert_eq!(f.get("é"), None);
    assert_eq!(f.get("ééé"), Some(&1));
    assert_eq!(f.len(), 4);
}

#[test]
fn counting_adds_to_existing_counts() {
    let engine = ClientProcessingEngine::new();
    let mut freqs = WordFrequencies::new();
    engine.process_document_efficient("alpha beta", &mut freqs);
    engine.process_document_efficient("alpha\ngamma-ray_9\talpha", &mut freqs);
    assert_eq!(freqs.get("alpha"), Some(&3));
    assert_eq!(freqs.get("beta"), Some(&1));
    assert_eq!(freqs.get("gamma-ray_9"), Some(&1));
}

#[test]
fn register_reply_connects() {
    let mut e = ClientProcessingEngine::new();
    assert!(!e.is_server_connected());
    assert_eq!(e.get_client_id(), -1);
    assert_eq!(e.handle_register_reply("REGISTER_REPLY 7\n"), Ok(()));
    assert!(e.is_server_connected());
    assert_eq!(e.get_client_id(), 7);
    assert!(e.disconnect());
    assert!(!e.disconnect());
    assert_eq!(e.get_client_id(), -1);
}

#[test]
fn bad_register_replies_are_refused() {
    let mut e = ClientProcessingEngine::new();
    assert_eq!(e.handle_register_reply("REGISTER_REPLY x\n"), Err(RegisterReplyError::InvalidClientId));
    assert_eq!(e.handle_register_reply("HELLO 3\n"), Err(RegisterReplyError::InvalidReply));
    assert_eq!(e.handle_register_reply("REGISTER_REPLY"), Err(RegisterReplyError::InvalidReply));
    assert_eq!(RegisterReplyError::InvalidClientId.message(), "Invalid client ID received");
    assert!(!e.is_server_connected());
}

#[test]
fn document_path_reply() {
    let e = ClientProcessingEngine::new();
    assert_eq!(e.document_path_request(42), "GET_DOC_PATH 42");
    assert_eq!(e.document_path_request(-3), "GET_DOC_PATH -3");
    assert_eq!(e.parse_document_path_reply("DOC_PATH /a/b.txt\n"), Some("/a/b.txt".to_string()));
    assert_eq!(e.parse_document_path_reply("ERROR Document not found\n"), None);
    assert_eq!(e.parse_document_path_reply("DOC_PATH"), None);
}

#[test]
fn search_request_needs_connection() {
    let mut e = ClientProcessingEngine::new();
    let terms = vec!["a".to_string(), "b".to_string()];
    assert_eq!(e.search_request(&terms), Err("Not connected to server".to_string()));
    e.handle_register_reply("REGISTER_REPLY 1").unwrap();
    assert_eq!(e.search_request(&terms), Ok("SEARCH_REQUEST a b".to_string()));
}

#[test]
fn search_reply_is_read() {
    let e = ClientProcessingEngine::new();
    let r = e
        .handle_search_reply("SEARCH_REPLY 2\nClient 1:folder3/x.txt 12\n/tmp/y.txt 4\n\nno-number here\n")
        .unwrap();
    assert_eq!(r.len(), 2);
    assert_eq!(r[0].document_path, "Client 1:folder3/x.txt");
    assert_eq!(r[0].word_frequency, 12);
    assert_eq!(r[1].document_path, "/tmp/y.txt");
    assert_eq!(r[1].word_frequency, 4);
    assert!(e.handle_search_reply("SEARCH_REPLY 0\nClient 1:folder/x 3\n").unwrap().is_empty());
    assert_eq!(e.handle_search_reply("NOPE 1\n").unwrap_err(), "Invalid reply format");
    assert_eq!(e.handle_search_reply("SEARCH_REPLY -1\n").unwrap_err(), "Invalid result count");
}

#[test]
fn index_requests_sorted_by_word_length() {
    let e = ClientProcessingEngine::new();
    let mut f = WordFrequencies::new();
    f.insert("longest".to_string(), 1);
    f.insert("abc".to_string(), 2);
    f.insert("mid-1".to_string(), 3);
    let msgs = e.index_request_messages("/d/f.txt", &f);
    assert_eq!(msgs, vec!["INDEX_REQUEST /d/f.txt abc 2 mid-1 3 longest 1 \n".to_string()]);
    let empty = WordFrequencies::new();
    assert!(e.index_request_messages("/d/f.txt", &empty).is_empty());
}

#[test]
fn index_requests_split_at_batch_size() {
    let e = ClientProcessingEngine::new();
    let mut f = WordFrequencies::new();
    let big = "w".repeat(700_000);
    f.insert(big.clone(), 1);
    f.insert(format!("{}x", big), 2);
    let msgs = e.index_request_messages("p", &f);
    assert_eq!(msgs.len(), 2);
    assert_eq!(msgs[0], format!("INDEX_REQUEST p {} 1 \n", big));
    assert_eq!(msgs[1], format!("INDEX_REQUEST p {}x 2 \n", big));
}

#[test]
fn client_commands_are_read() {
    assert!(matches!(parse_client_command("quit"), Ok(Some(ClientCommand::Quit))));
    assert!(matches!(parse_client_command("   "), Ok(None)));
    match parse_client_command("connect 127.0.0.1 9000") {
        Ok(Some(ClientCommand::Connect { server_ip, server_port })) => {
            assert_eq!(server_ip, "127.0.0.1");
            assert_eq!(server_port, "9000");
        }
        _ => panic!("connect not read"),
    }
    assert_eq!(
        parse_client_command("connect 1.2.3.4").err(),
        Some("Usage: connect <server IP> <server port>".to_string())
    );
    match parse_client_command("search cat AND dog") {
        Ok(Some(ClientCommand::Search { terms })) => assert_eq!(terms, vec!["cat", "dog"]),
        _ => panic!("search not read"),
    }
    assert_eq!(parse_client_command("search AND").err(), Some("No valid search terms provided".to_string()));
    assert_eq!(
        parse_client_command("index").err(),
        Some("Usage: index <folder_path>".to_string())
    );
}

#[test]
fn app_interface_test_help_command() {
    assert!(matches!(parse_client_command("help"), Ok(Some(ClientCommand::Help))));
}

#[test]
fn app_interface_test_invalid_command() {
    assert!(matches!(parse_client_command("invalid_command"), Ok(Some(ClientCommand::Unrecognized))));
}

#[test]
fn results_are_shown_best_first() {
    let rs: Vec<DocPathFreqPair> = (0..12)
        .map(|i| DocPathFreqPair { document_path: format!("p{}", i), word_frequency: i % 3 })
        .collect();
    let lines = format_search_results(&rs);
    assert_eq!(lines.len(), 10);
    assert_eq!(lines[0], "* p2: 2");
    assert_eq!(lines[1], "* p5: 2");
    assert_eq!(lines[3], "* p11: 2");
    assert_eq!(lines[4], "* p1: 1");
    assert_eq!(lines[8], "* p0: 0");
    assert_eq!(lines[9], "* p3: 0");
}

#[test]
fn client_paths_are_shown_with_their_number() {
    assert_eq!(
        display_line_exec(&"Client s:/data/client_12/folder/a.txt".to_string(), 5),
        "* Client 12:/data/client_12/folder/a.txt: 5"
    );
    assert_eq!(
        display_line_exec(&"Client 1:folder/a.txt".to_string(), 3),
        "* Client 1:folder/a.txt: 3"
    );
    assert_eq!(display_line_exec(&"Client s:/data/client_x".to_string(), 1), "* Client s:/data/client_x: 1");
}

#[test]
fn word_counts_add_up_across_joined_texts() {
    let a = "alpha beta alpha-1";
    let b = "beta gamma alpha";
    let joined = count_words(&format!("{} {}", a, b));
    let fa = count_words(a);
    let fb = count_words(b);
    for w in ["alpha", "beta", "gamma", "alpha-1"] {
        let sum = fa.get(w).copied().unwrap_or(0) + fb.get(w).copied().unwrap_or(0);
        assert_eq!(joined.get(w).copied().unwrap_or(0), sum);
    }
    assert_eq!(joined.len(), 4);

    let engine = ClientProcessingEngine::new();
    let mut m = count_words(a);
    engine.process_document_efficient(b, &mut m);
    for w in ["alpha", "beta", "gamma", "alpha-1"] {
        assert_eq!(m.get(w), joined.get(w));
    }
}
