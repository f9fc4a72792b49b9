use word_index::inverted_index::InvertedIndex;
use word_index::server::handle_request;
use word_index::tokenizer::tokenize;

fn sorted(mut v: Vec<String>) -> Vec<String> {
    v.sort();
    v
}

#[test]
fn tokenize_normalizes_case_and_punctuation() {
    let words = tokenize("Hello, world! Hello?");
    assert_eq!(
        sorted(words),
        vec!["hello".to_string(), "world".to_string()]
    );
}

#[test]
fn tokenize_drops_empty_words() {
    assert_eq!(tokenize(""), Vec::<String>::new());
    assert_eq!(tokenize("   \t \n "), Vec::<String>::new());
    assert_eq!(tokenize("!!! ... ---"), Vec::<String>::new());
}

#[test]
fn tokenize_keeps_distinct_words_once() {
    let words = tokenize("a b a b c a");
    assert_eq!(
        sorted(words),
        vec!["a".to_string(), "b".to_string(), "c".to_string()]
    );
}

#[test]
fn search_finds_exactly_the_documents_with_the_word() {
    let mut index = InvertedIndex::new();
    index.index_document("apple banana", &"/docs/one.txt".to_string());
    index.index_document("banana cherry", &"/docs/two.txt".to_string());

    let apple = index.search("apple").expect("apple is indexed");
    assert_eq!(apple.clone(), vec!["/docs/one.txt".to_string()]);

    let banana = sorted(index.search("banana").expect("banana is indexed").clone());
    assert_eq!(
        banana,
        vec!["/docs/one.txt".to_string(), "/docs/two.txt".to_string()]
    );

    assert!(index.search("nonexistent_token").is_none());
    assert!(index.search("Apple").is_none());
}

#[test]
fn indexing_a_document_twice_changes_nothing() {
    let mut once = InvertedIndex::new();
    once.index_document("apple banana", &"/docs/one.txt".to_string());

    let mut twice = InvertedIndex::new();
    twice.index_document("apple banana", &"/docs/one.txt".to_string());
    twice.index_document("apple banana", &"/docs/one.txt".to_string());

    assert!(once == twice);
    assert_eq!(
        twice.search("apple").expect("indexed").clone(),
        vec!["/docs/one.txt".to_string()]
    );
}

#[test]
fn clear_then_rebuild_matches_single_build() {
    let mut index = InvertedIndex::new();
    index.index_document("apple", &"/docs/one.txt".to_string());
    index.clear();
    assert!(index.search("apple").is_none());
    index.index_document("apple", &"/docs/one.txt".to_string());

    let mut fresh = InvertedIndex::new();
    fresh.index_document("apple", &"/docs/one.txt".to_string());
    assert!(index == fresh);
}

#[test]
fn merge_order_does_not_change_the_index() {
    let contribs = |paths: &[(&str, &str)]| {
        paths
            .iter()
            .map(|(text, path)| (tokenize(text), path.to_string()))
            .collect::<Vec<(Vec<String>, String)>>()
    };
    let docs: Vec<(&str, &str)> = vec![
        ("apple banana", "/corpus/a.txt"),
        ("banana cherry date", "/corpus/b.txt"),
        ("cherry", "/corpus/c.txt"),
        ("apple apple date", "/corpus/d.txt"),
        ("elder fig", "/corpus/e.txt"),
    ];
    let mut forward = InvertedIndex::new();
    forward.merge_contributions(&contribs(&docs));

    let mut backward_docs = docs.clone();
    backward_docs.reverse();
    let mut backward = InvertedIndex::new();
    backward.merge_contributions(&contribs(&backward_docs));

    let mut shuffled_docs = docs.clone();
    shuffled_docs.swap(0, 3);
    shuffled_docs.swap(1, 4);
    let mut shuffled = InvertedIndex::new();
    shuffled.merge_contributions(&contribs(&shuffled_docs));

    assert!(forward == backward);
    assert!(forward == shuffled);
    let hits = sorted(forward.search("cherry").expect("indexed").clone());
    assert_eq!(
        hits,
        vec!["/corpus/b.txt".to_string(), "/corpus/c.txt".to_string()]
    );
}

fn fixture_index() -> InvertedIndex {
    let mut index = InvertedIndex::new();
    index.index_document("apple pie recipe", &"/corpus/apple.txt".to_string());
    index
}

#[test]
fn search_request_for_known_word_returns_ok_with_body() {
    let index = fixture_index();
    let reply = handle_request("GET /search?query=apple HTTP/1.1", &index);
    assert!(!reply.sleep_before);
    let body = "[\"/corpus/apple.txt\"]";
    let expected = format!(
        "HTTP/1.1 200 OK\r\nContent-Length: {}\r\n\r\n{}",
        body.len(),
        body
    );
    assert_eq!(reply.response, expected);
}

#[test]
fn search_request_for_unknown_word_is_not_found() {
    let index = fixture_index();
    let reply = handle_request("GET /search?query=banana HTTP/1.1", &index);
    assert!(!reply.sleep_before);
    assert_eq!(reply.response, "HTTP/1.1 404 NOT FOUND");
}

#[test]
fn search_request_without_query_string_is_bad_request() {
    let index = fixture_index();
    let reply = handle_request("GET /search HTTP/1.1", &index);
    assert!(!reply.sleep_before);
    assert_eq!(reply.response, "HTTP/1.1 400 BAD REQUEST");
}

#[test]
fn search_request_without_query_field_is_bad_request() {
    let index = fixture_index();
    let reply = handle_request("GET /search?other=1 HTTP/1.1", &index);
    assert_eq!(reply.response, "HTTP/1.1 400 BAD REQUEST");
}

#[test]
fn unknown_path_is_not_found() {
    let index = fixture_index();
    let reply = handle_request("GET /unknown HTTP/1.1", &index);
    assert!(!reply.sleep_before);
    assert_eq!(reply.response, "HTTP/1.1 404 NOT FOUND");
}

#[test]
fn non_get_request_is_not_found() {
    let index = fixture_index();
    let reply = handle_request("POST /search?query=apple HTTP/1.1", &index);
    assert!(!reply.sleep_before);
    assert_eq!(reply.response, "HTTP/1.1 404 NOT FOUND");
    let bare = handle_request("GET", &index);
    assert_eq!(bare.response, "HTTP/1.1 404 NOT FOUND");
}

#[test]
fn sleep_route_asks_the_caller_to_sleep_then_answers_ok() {
    let index = fixture_index();
    let reply = handle_request("GET /sleep HTTP/1.1", &index);
    assert!(reply.sleep_before);
    assert_eq!(reply.response, "HTTP/1.1 200 OK");
}

#[test]
fn percent_decoding_applies_to_the_query_field() {
    let mut index = InvertedIndex::new();
    index.insert_words(
        &vec!["hello world".to_string()],
        &"/corpus/odd.txt".to_string(),
    );
    let reply = handle_request("GET /search?query=hello%20world HTTP/1.1", &index);
    let body = "[\"/corpus/odd.txt\"]";
    let expected = format!(
        "HTTP/1.1 200 OK\r\nContent-Length: {}\r\n\r\n{}",
        body.len(),
        body
    );
    assert_eq!(reply.response, expected);
}

#[test]
fn results_truncate_to_one_hundred_documents() {
    let mut index = InvertedIndex::new();
    for i in 0..150 {
        index.index_document("common", &format!("/corpus/{}.txt", i));
    }
    let reply = handle_request("GET /search?query=common HTTP/1.1", &index);
    let marker = "\r\n\r\n";
    let pos = reply
        .response
        .find(marker)
        .expect("response carries a body");
    let body = &reply.response[pos + marker.len()..];
    let entries: Vec<String> = serde_json::from_str(body).expect("body is a JSON string array");
    assert_eq!(entries.len(), 100);
    for entry in &entries {
        assert!(entry.starts_with("/corpus/") && entry.ends_with(".txt"));
    }
    let header = &reply.response[..pos];
    assert!(header.starts_with("HTTP/1.1 200 OK\r\nContent-Length: "));
    let len_str = &header["HTTP/1.1 200 OK\r\nContent-Length: ".len()..];
    assert_eq!(len_str.parse::<usize>().unwrap(), body.len());
}

#[test]
fn extra_whitespace_between_tokens_is_accepted() {
    let index = fixture_index();
    let reply = handle_request("GET   /sleep   HTTP/1.1", &index);
    assert!(reply.sleep_before);
    assert_eq!(reply.response, "HTTP/1.1 200 OK");
}
