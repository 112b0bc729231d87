use vector::event::{Instant, LogEvent, LogSchema, LogValue};
use vector::sources::http::{
    add_headers, add_path, add_query_parameters, body_to_lines, decode_body, decode_json_object,
    default_path, default_path_key, Encoding, SimpleHttpSource,
};

const NOW: Instant = Instant { seconds: 1_600_000_000, nanos: 123_456_789 };

fn source(encoding: Encoding, headers: Vec<&str>, query: Vec<&str>, path_key: &str) -> SimpleHttpSource {
    SimpleHttpSource {
        encoding,
        headers: headers.into_iter().map(String::from).collect(),
        query_parameters: query.into_iter().map(String::from).collect(),
        path_key: path_key.to_string(),
    }
}

fn bytes(log: &LogEvent, key: &str) -> Option<Vec<u8>> {
    match log.get(key) {
        Some(LogValue::Bytes(b)) => Some(b.clone()),
        _ => None,
    }
}

fn is_null(log: &LogEvent, key: &str) -> bool {
    matches!(log.get(key), Some(LogValue::Null))
}

fn has_timestamp(log: &LogEvent) -> bool {
    matches!(log.get("timestamp"), Some(LogValue::Timestamp(t)) if *t == NOW)
}

/// The status a request is answered with, and the events it gives.
fn request(
    src: &SimpleHttpSource,
    body: &str,
    headers: Vec<(String, Vec<u8>)>,
    query: Vec<(String, String)>,
    path: &str,
) -> (u16, Vec<LogEvent>, String) {
    match src.build_events(body.as_bytes(), &headers, &query, path, &LogSchema::standard(), NOW) {
        Ok(events) => (200, events, String::new()),
        Err(e) => (e.code, vec![], e.message),
    }
}

fn send(src: &SimpleHttpSource, body: &str, path: &str) -> (u16, Vec<LogEvent>) {
    let (status, events, _) = request(src, body, vec![], vec![], path);
    (status, events)
}

fn refusal(encoding: Encoding, body: &str) -> (u16, String) {
    match decode_body(body.as_bytes(), encoding, NOW, &LogSchema::standard()) {
        Ok(_) => panic!("the body is refused"),
        Err(e) => (e.code, e.message),
    }
}

#[test]
fn http_multiline_text() {
    let src = source(Encoding::Text, vec![], vec![], "http_path");
    let (status, events) = send(&src, "test body\n\ntest body 2", "/");
    assert_eq!(status, 200);
    assert_eq!(events.len(), 2);
    for (event, msg) in events.iter().zip(["test body", "test body 2"]) {
        assert_eq!(bytes(event, "message").unwrap(), msg.as_bytes());
        assert!(has_timestamp(event));
        assert_eq!(bytes(event, "source_type").unwrap(), b"http");
        assert_eq!(bytes(event, "http_path").unwrap(), b"/");
    }
}

#[test]
fn http_multiline_text2() {
    let src = source(Encoding::Text, vec![], vec![], "http_path");
    let (status, events) = send(&src, "test body\n\ntest body 2\n", "/");
    assert_eq!(status, 200);
    assert_eq!(events.len(), 2);
    assert_eq!(bytes(&events[0], "message").unwrap(), b"test body");
    assert_eq!(bytes(&events[1], "message").unwrap(), b"test body 2");
    for event in &events {
        assert!(has_timestamp(event));
        assert_eq!(bytes(event, "source_type").unwrap(), b"http");
        assert_eq!(bytes(event, "http_path").unwrap(), b"/");
    }
}

#[test]
fn http_multiline_text3() {
    let src = source(Encoding::Binary, vec![], vec![], "http_path");
    let (status, events) = send(&src, "test body\n\ntest body 2\n", "/");
    assert_eq!(status, 200);
    assert_eq!(events.len(), 1);
    assert_eq!(bytes(&events[0], "message").unwrap(), b"test body\n\ntest body 2\n");
    assert!(has_timestamp(&events[0]));
    assert_eq!(bytes(&events[0], "source_type").unwrap(), b"http");
    assert_eq!(bytes(&events[0], "http_path").unwrap(), b"/");
}

#[test]
fn http_headers() {
    let headers = vec![
        ("user-agent".to_string(), b"test_client".to_vec()),
        ("upgrade-insecure-requests".to_string(), b"false".to_vec()),
    ];
    let src = source(
        Encoding::Ndjson,
        vec!["User-Agent", "Upgrade-Insecure-Requests", "AbsentHeader"],
        vec![],
        "http_path",
    );
    let (status, events, _) = request(&src, "{\"key1\":\"value1\"}", headers, vec![], "/");
    assert_eq!(status, 200);
    assert_eq!(events.len(), 1);
    let log = &events[0];
    assert_eq!(bytes(log, "key1").unwrap(), b"value1");
    assert_eq!(bytes(log, "User-Agent").unwrap(), b"test_client");
    assert_eq!(bytes(log, "Upgrade-Insecure-Requests").unwrap(), b"false");
    assert!(is_null(log, "AbsentHeader"));
    assert_eq!(bytes(log, "http_path").unwrap(), b"/");
    assert!(has_timestamp(log));
    assert_eq!(bytes(log, "source_type").unwrap(), b"http");
}

#[test]
fn http_query() {
    let query = vec![
        ("source".to_string(), "staging".to_string()),
        ("region".to_string(), "gb".to_string()),
    ];
    let src = source(Encoding::Ndjson, vec![], vec!["source", "region", "absent"], "http_path");
    let (status, events, _) = request(&src, "{\"key1\":\"value1\"}", vec![], query, "/");
    assert_eq!(status, 200);
    assert_eq!(events.len(), 1);
    let log = &events[0];
    assert_eq!(bytes(log, "key1").unwrap(), b"value1");
    assert_eq!(bytes(log, "source").unwrap(), b"staging");
    assert_eq!(bytes(log, "region").unwrap(), b"gb");
    assert!(is_null(log, "absent"));
    assert_eq!(bytes(log, "http_path").unwrap(), b"/");
    assert!(has_timestamp(log));
    assert_eq!(bytes(log, "source_type").unwrap(), b"http");
}

#[test]
fn http_path() {
    let src = source(Encoding::Ndjson, vec![], vec![], "vector_http_path");
    let (status, events) = send(&src, "{\"key1\":\"value1\"}", "/event/path");
    assert_eq!(status, 200);
    assert_eq!(events.len(), 1);
    assert_eq!(bytes(&events[0], "key1").unwrap(), b"value1");
    assert_eq!(bytes(&events[0], "vector_http_path").unwrap(), b"/event/path");
    assert!(has_timestamp(&events[0]));
    assert_eq!(bytes(&events[0], "source_type").unwrap(), b"http");
}

#[test]
fn http_path_no_restriction() {
    let src = source(Encoding::Ndjson, vec![], vec![], "vector_http_path");
    let (status, first) = send(&src, "{\"key1\":\"value1\"}", "/event/path1");
    assert_eq!(status, 200);
    let (status, second) = send(&src, "{\"key2\":\"value2\"}", "/event/path2");
    assert_eq!(status, 200);
    assert_eq!(bytes(&first[0], "key1").unwrap(), b"value1");
    assert_eq!(bytes(&first[0], "vector_http_path").unwrap(), b"/event/path1");
    assert!(has_timestamp(&first[0]));
    assert_eq!(bytes(&first[0], "source_type").unwrap(), b"http");
    assert_eq!(bytes(&second[0], "key2").unwrap(), b"value2");
    assert_eq!(bytes(&second[0], "vector_http_path").unwrap(), b"/event/path2");
    assert!(has_timestamp(&second[0]));
    assert_eq!(bytes(&second[0], "source_type").unwrap(), b"http");
}

#[test]
fn http_json_parsing() {
    let src = source(Encoding::Json, vec![], vec![], "http_path");
    assert_eq!(send(&src, "{", "/").0, 400); // malformed
    assert_eq!(send(&src, r#"{"key"}"#, "/").0, 400); // key without value
    let (status, one) = send(&src, "{}", "/");
    assert_eq!(status, 200);
    let (status, three) = send(&src, "[{},{},{}]", "/");
    assert_eq!(status, 200);
    assert_eq!(one.len(), 1);
    assert_eq!(three.len(), 3);
    assert!(has_timestamp(&one[0]));
    assert!(three.iter().all(has_timestamp));
}

#[test]
fn http_json_values() {
    let src = source(Encoding::Json, vec![], vec![], "http_path");
    let (status, first) = send(&src, r#"[{"key":"value"}]"#, "/");
    assert_eq!(status, 200);
    let (status, second) = send(&src, r#"{"key2":"value2"}"#, "/");
    assert_eq!(status, 200);
    for (events, key, value) in [(&first, "key", "value"), (&second, "key2", "value2")] {
        let log = &events[0];
        assert_eq!(bytes(log, key).unwrap(), value.as_bytes());
        assert!(has_timestamp(log));
        assert_eq!(bytes(log, "source_type").unwrap(), b"http");
        assert_eq!(bytes(log, "http_path").unwrap(), b"/");
    }
}

#[test]
fn http_json_dotted_keys() {
    let src = source(Encoding::Json, vec![], vec![], "http_path");
    let (status, first) = send(&src, r#"[{"dotted.key":"value"}]"#, "/");
    assert_eq!(status, 200);
    let (status, second) = send(&src, r#"{"nested":{"dotted.key2":"value2"}}"#, "/");
    assert_eq!(status, 200);
    assert!(matches!(first[0].get_flat("dotted.key"), Some(LogValue::Bytes(b)) if b == b"value"));
    match second[0].get("nested") {
        Some(LogValue::Object(entries)) => {
            assert_eq!(entries.len(), 1);
            assert_eq!(entries[0].0, "dotted.key2");
            assert!(matches!(&entries[0].1, LogValue::Bytes(b) if b == b"value2"));
        }
        other => panic!("nested is {:?}", other),
    }
}

#[test]
fn http_ndjson() {
    let src = source(Encoding::Ndjson, vec![], vec![], "http_path");
    assert_eq!(send(&src, r#"[{"key":"value"}]"#, "/").0, 400); // one object per line
    let (status, events) = send(&src, "{\"key1\":\"value1\"}\n\n{\"key2\":\"value2\"}", "/");
    assert_eq!(status, 200);
    assert_eq!(events.len(), 2);
    for (log, key, value) in [(&events[0], "key1", "value1"), (&events[1], "key2", "value2")] {
        assert_eq!(bytes(log, key).unwrap(), value.as_bytes());
        assert!(has_timestamp(log));
        assert_eq!(bytes(log, "source_type").unwrap(), b"http");
        assert_eq!(bytes(log, "http_path").unwrap(), b"/");
    }
}

#[test]
fn json_refusals_name_what_they_got() {
    assert_eq!(refusal(Encoding::Json, "3"), (400, "Expected Object or Array, got Number".to_string()));
    assert_eq!(refusal(Encoding::Json, r#"[{}, "x", null]"#), (400, "Expected Object, got String".to_string()));
    assert_eq!(refusal(Encoding::Ndjson, "{}\n[1]\nnot json"), (400, "Expected Object, got Array".to_string()));
    let (code, message) = refusal(Encoding::Ndjson, "{}\nnot json\n[1]");
    assert_eq!(code, 400);
    assert!(message.starts_with("Error parsing Ndjson: "));
    assert!(refusal(Encoding::Json, "{").1.starts_with("Error parsing Json: "));
    assert!(matches!(decode_json_object(LogValue::Null, NOW, &LogSchema::standard()), Err(e) if e.message == "Expected Object, got Null"));
}

#[test]
fn json_fields_override_the_timestamp() {
    let events = decode_body(br#"{"timestamp":"then","a":1}"#, Encoding::Json, NOW, &LogSchema::standard()).unwrap();
    assert_eq!(bytes(&events[0], "timestamp").unwrap(), b"then");
    assert!(matches!(events[0].get("a"), Some(LogValue::Integer(1))));
}

#[test]
fn decoding_error_is_passed_on() {
    let src = source(Encoding::Json, vec!["User-Agent"], vec![], "http_path");
    let (status, events, message) = request(&src, "not json", vec![], vec![], "/");
    assert_eq!(status, 400);
    assert!(events.is_empty());
    assert!(message.starts_with("Error parsing Json: "));
}

#[test]
fn existing_source_type_is_kept() {
    let src = source(Encoding::Json, vec![], vec![], "path");
    let (status, events) = send(&src, r#"{"source_type":"custom"}"#, "/");
    assert_eq!(status, 200);
    assert_eq!(bytes(&events[0], "source_type").unwrap(), b"custom");
}

#[test]
fn dotted_names_are_paths() {
    let src = source(Encoding::Text, vec![], vec!["req.id"], "request.path");
    let query = vec![("req.id".to_string(), "7".to_string())];
    let (_, events, _) = request(&src, "line", vec![], query, "/a");
    let log = &events[0];
    assert_eq!(bytes(log, "request.path").unwrap(), b"/a");
    assert_eq!(bytes(log, "req.id").unwrap(), b"7");
    assert!(log.get_flat("request.path").is_none());
    assert!(matches!(log.get("request"), Some(LogValue::Object(e)) if e.len() == 1 && e[0].0 == "path"));
}

#[test]
fn path_write_replaces_what_is_no_object() {
    let mut log = LogEvent::new();
    log.insert("a", LogValue::Integer(1));
    log.insert("a.b", LogValue::Integer(2));
    assert!(matches!(log.get("a.b"), Some(LogValue::Integer(2))));
    assert!(matches!(log.get("a"), Some(LogValue::Object(e)) if e.len() == 1));
    log.insert("a.c", LogValue::Integer(3));
    assert!(matches!(log.get("a.b"), Some(LogValue::Integer(2))));
    assert!(matches!(log.get("a.c"), Some(LogValue::Integer(3))));
    log.try_insert("a.c", LogValue::Null);
    assert!(matches!(log.get("a.c"), Some(LogValue::Integer(3))));
    assert!(log.get("a.b.c").is_none());
    log.insert_flat("x.y", LogValue::Null);
    assert!(log.get("x.y").is_none());
    assert!(log.get_flat("x.y").is_some());
}

#[test]
fn last_path_wins() {
    let once = add_path(vec![LogEvent::new()], "p.q", "/2");
    let twice = add_path(add_path(vec![LogEvent::new()], "p.q", "/1"), "p.q", "/2");
    assert_eq!(format!("{:?}", once), format!("{:?}", twice));
    assert!(add_path(vec![], "p", "/").is_empty());
}

#[test]
fn header_names_match_without_case() {
    let headers = vec![
        ("X-First".to_string(), b"one".to_vec()),
        ("x-first".to_string(), b"two".to_vec()),
    ];
    let events = add_headers(vec![LogEvent::new()], &vec!["X-FIRST".to_string()], &headers);
    assert_eq!(bytes(&events[0], "X-FIRST").unwrap(), b"one");
}

#[test]
fn query_and_path_fill_every_event() {
    let events = add_query_parameters(
        vec![LogEvent::new(), LogEvent::new()],
        &vec!["q".to_string()],
        &vec![("q".to_string(), "v".to_string())],
    );
    let events = add_path(events, "p", "/x");
    assert_eq!(events.len(), 2);
    for e in &events {
        assert_eq!(bytes(e, "q").unwrap(), b"v");
        assert_eq!(bytes(e, "p").unwrap(), b"/x");
    }
}

#[test]
fn lines_skip_empty_ones() {
    let lines = body_to_lines(b"\n\na\n\nbc\n");
    assert_eq!(lines, vec![b"a".to_vec(), b"bc".to_vec()]);
    assert!(body_to_lines(b"").is_empty());
    assert!(body_to_lines(b"\n\n").is_empty());
    assert_eq!(body_to_lines(b"x\r\ny"), vec![b"x\r".to_vec(), b"y".to_vec()]);
}

#[test]
fn http_defaults() {
    assert_eq!(default_path(), "/");
    assert_eq!(default_path_key(), "path");
    assert_eq!(Encoding::default(), Encoding::Text);
}

#[test]
fn later_write_replaces_value_in_place() {
    let mut log = LogEvent::new();
    log.insert("b", LogValue::Integer(2));
    log.insert("a", LogValue::Integer(1));
    log.insert("a", LogValue::Integer(3));
    let keys: Vec<&str> = log.entries().iter().map(|(k, _)| k.as_str()).collect();
    assert_eq!(keys, vec!["a", "b"]);
    assert!(matches!(log.get("a"), Some(LogValue::Integer(3))));
    log.try_insert("b", LogValue::Integer(9));
    assert!(matches!(log.get("b"), Some(LogValue::Integer(2))));
    log.try_insert("c", LogValue::Null);
    assert!(log.contains("c"));
}

#[test]
fn fields_are_kept_in_byte_order_of_their_names() {
    let mut log = LogEvent::new();
    for key in ["zeta", "Zeta", "alpha", "\u{e9}t\u{e9}", "al", "beta", "alpha"] {
        log.insert(key, LogValue::Null);
    }
    let keys: Vec<&str> = log.entries().iter().map(|(k, _)| k.as_str()).collect();
    assert_eq!(keys, vec!["Zeta", "al", "alpha", "beta", "zeta", "\u{e9}t\u{e9}"]);
}

#[test]
fn path_write_leaves_one_field_of_its_name() {
    let mut log = LogEvent::new();
    log.insert(
        "a",
        LogValue::Object(vec![
            ("b".to_string(), LogValue::Integer(1)),
            ("b".to_string(), LogValue::Integer(2)),
        ]),
    );
    log.insert("a.b.c", LogValue::Integer(3));
    match log.get("a") {
        Some(LogValue::Object(e)) => {
            assert_eq!(e.len(), 1);
            assert_eq!(e[0].0, "b");
        }
        other => panic!("a is {:?}", other),
    }
    assert!(matches!(log.get("a.b.c"), Some(LogValue::Integer(3))));
}
