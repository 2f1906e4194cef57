use local_logger::codec::{parse_entry_line, serialize_entry};
use local_logger::json::{parse_json, json_to_bytes, Json};
use local_logger::schema::{LogEntry, LogEvent, BodyContent, SCHEMA_VERSION};
use local_logger::tail::read_last_n_lines;
use local_logger::writer::{LogWriter, validate_date_format};

fn mcp(session: &str, level: &str, message: &str) -> LogEntry {
    LogEntry::new_mcp(session.to_string(), level.to_string(), message.to_string())
}

#[test]
fn test_schema_version() {
    let entry = mcp("test-session", "INFO", "test message");
    assert_eq!(entry.schema_version, SCHEMA_VERSION);
}

#[test]
fn test_log_entry_serialization() {
    let entry = mcp("test-session", "INFO", "Test message");
    let json = String::from_utf8(serialize_entry(&entry)).unwrap();
    assert!(json.contains("\"type\":\"Mcp\""));
    assert!(json.contains("\"level\":\"INFO\""));
    assert!(json.contains("\"message\":\"Test message\""));
    assert!(json.contains("\"schema_version\":1"));
}

#[test]
fn schema_test_log_entry_serialization() {
    let entry = mcp("test-123", "INFO", "test");
    let json = String::from_utf8(serialize_entry(&entry)).unwrap();
    assert!(json.contains("\"schema_version\":1"));
    assert!(json.contains("\"type\":\"Mcp\""));
}

#[test]
fn test_hook_log_entry_serialization() {
    let mut input: Vec<(String, Json)> = Vec::new();
    input.push(("command".to_string(), Json::Str("ls".to_string())));
    let entry = LogEntry::new_hook(
        "test-123".to_string(),
        "PreToolUse".to_string(),
        Some("Bash".to_string()),
        Some(Json::Obj(input)),
        None,
        None,
        Vec::new(),
    );
    let json = String::from_utf8(serialize_entry(&entry)).unwrap();
    assert!(json.contains("\"type\":\"Hook\""));
    assert!(json.contains("\"event_type\":\"PreToolUse\""));
    assert!(json.contains("\"tool_name\":\"Bash\""));
    assert!(json.contains("\"session_id\":\"test-123\""));
}

#[test]
fn test_hook_event_input_with_missing_fields() {
    let json_str = r#"{"hook_event_name": "UserPromptSubmit", "session_id": "abc123", "cwd": "/home/user"}"#;
    let parsed = parse_json(json_str.as_bytes()).unwrap();
    let entry = local_logger::hook::hook_entry_from_json(&parsed, "fallback".to_string());
    assert_eq!(entry.session_id, "abc123");
    match &entry.event {
        LogEvent::Hook(h) => {
            assert_eq!(h.event_type, "UserPromptSubmit");
            assert_eq!(h.cwd.as_deref(), Some("/home/user"));
            assert!(h.tool_name.is_none());
            assert!(h.tool_input.is_none());
        }
        _ => panic!("expected a hook event"),
    }
}

#[test]
fn round_trip_mcp_entry() {
    let entry = mcp("s-1", "WARN", "quotes \" and \\ and\nnewlines\tand unicode \u{00e9}\u{4e16}");
    let bytes = serialize_entry(&entry);
    let back = parse_entry_line(&bytes).expect("round trip should parse");
    assert_eq!(back.schema_version, entry.schema_version);
    assert_eq!(back.timestamp, entry.timestamp);
    assert_eq!(back.date, entry.date);
    assert_eq!(back.session_id, entry.session_id);
    assert_eq!(back.correlation_id, entry.correlation_id);
    match (&back.event, &entry.event) {
        (LogEvent::Mcp(a), LogEvent::Mcp(b)) => {
            assert_eq!(a.level, b.level);
            assert_eq!(a.message, b.message);
        }
        _ => panic!("expected matching event kinds"),
    }
}

#[test]
fn round_trip_hook_entry_with_extras() {
    let mut extra: Vec<(String, Json)> = Vec::new();
    extra.push(("custom_field".to_string(), Json::Int(42)));
    extra.push(("flag".to_string(), Json::Bool(true)));
    let entry = LogEntry::new_hook(
        "hs".to_string(),
        "PostToolUse".to_string(),
        Some("Read".to_string()),
        Some(Json::Arr(vec![Json::Int(1), Json::Null, Json::Str("x".to_string())])),
        Some("/tmp/t.jsonl".to_string()),
        None,
        extra,
    );
    let bytes = serialize_entry(&entry);
    let back = parse_entry_line(&bytes).expect("round trip should parse");
    match &back.event {
        LogEvent::Hook(h) => {
            assert_eq!(h.event_type, "PostToolUse");
            assert_eq!(h.tool_name.as_deref(), Some("Read"));
            assert!(h.cwd.is_none());
            assert_eq!(h.extra.len(), 2);
            assert_eq!(h.extra[0].0, "custom_field");
            assert!(matches!(h.extra[0].1, Json::Int(42)));
        }
        _ => panic!("expected a hook event"),
    }
}

#[test]
fn round_trip_proxy_response_entry() {
    let headers = vec![("content-type".to_string(), "application/json".to_string())];
    let entry = local_logger::proxy::build_proxy_response_entry(
        "sess".to_string(),
        "corr".to_string(),
        "11111111-2222-3333-4444-555555555555".to_string(),
        200,
        &headers,
        b"{\"y\":2}",
        7,
        1024,
    );
    let bytes = serialize_entry(&entry);
    let back = parse_entry_line(&bytes).expect("round trip should parse");
    match &back.event {
        LogEvent::ProxyResponse(r) => {
            assert_eq!(r.status, 200);
            assert_eq!(r.duration_ms, 7);
            match &r.body.content {
                BodyContent::Text { data } => assert_eq!(data, "{\"y\":2}"),
                _ => panic!("expected a text body"),
            }
        }
        _ => panic!("expected a response event"),
    }
}

#[test]
fn json_parser_accepts_whitespace_and_escapes() {
    let text = "{ \"a\" : [ 1 , -2 , true , null ] , \"b\" : \"x\\u0041\\n\" }";
    let v = parse_json(text.as_bytes()).expect("should parse");
    let bytes = json_to_bytes(&v);
    assert_eq!(String::from_utf8(bytes).unwrap(), "{\"a\":[1,-2,true,null],\"b\":\"xA\\n\"}");
}

#[test]
fn json_parser_rejects_garbage() {
    assert!(parse_json(b"{invalid json").is_none());
    assert!(parse_json(b"not even json").is_none());
    assert!(parse_json(b"{\"partial\": ").is_none());
    assert!(parse_json(b"{\"a\":1.}").is_none());
    assert!(parse_json(b"{\"a\":1e}").is_none());
}

#[test]
fn json_numbers_beyond_i64_keep_their_lexemes() {
    let text = "{\"a\":1.5,\"b\":2e10,\"c\":-0.25,\"d\":18446744073709551615}";
    let v = parse_json(text.as_bytes()).expect("should parse");
    assert_eq!(String::from_utf8(json_to_bytes(&v)).unwrap(), text);
}

#[test]
fn json_surrogate_pairs_decode() {
    let v = parse_json(b"{\"e\":\"\\ud83c\\udf0d\"}").expect("should parse");
    assert_eq!(
        String::from_utf8(json_to_bytes(&v)).unwrap(),
        "{\"e\":\"\u{1f30d}\"}"
    );
    assert!(parse_json(b"\"\\ud83c\"").is_none());
    assert!(parse_json(b"\"\\udf0d\"").is_none());
}

#[test]
fn hook_payload_with_fraction_is_logged() {
    let payload = "{\"hook_event_name\":\"PostToolUse\",\"tool_input\":{\"timeout\":1.5}}";
    let parsed = parse_json(payload.as_bytes()).expect("should parse");
    let entry = local_logger::hook::hook_entry_from_json(&parsed, "fb".to_string());
    let back = parse_entry_line(&serialize_entry(&entry)).expect("round trip should parse");
    match &back.event {
        LogEvent::Hook(h) => {
            assert_eq!(h.event_type, "PostToolUse");
            assert!(h.tool_input.is_some());
        }
        _ => panic!("expected a hook event"),
    }
}

fn file_of(entries: &[LogEntry]) -> Vec<u8> {
    let writer = LogWriter::new("logs".to_string());
    let mut out = Vec::new();
    for e in entries {
        out.extend_from_slice(&writer.encode_line(e));
    }
    out
}

#[test]
fn test_read_last_n_lines_basic() {
    let mut entries = Vec::new();
    for i in 0..10 {
        entries.push(mcp(&format!("session-{}", i), "INFO", &format!("Message {}", i)));
    }
    let bytes = file_of(&entries);
    let got = read_last_n_lines(&bytes, 5);
    assert_eq!(got.len(), 5);
    for (i, entry) in got.iter().enumerate() {
        let expected_index = 5 + i;
        assert_eq!(entry.session_id, format!("session-{}", expected_index));
    }
}

#[test]
fn test_read_more_than_available() {
    let mut entries = Vec::new();
    for i in 0..3 {
        entries.push(mcp(&format!("session-{}", i), "INFO", &format!("Message {}", i)));
    }
    let bytes = file_of(&entries);
    let got = read_last_n_lines(&bytes, 10);
    assert_eq!(got.len(), 3);
}

#[test]
fn tail_tolerates_partial_trailing_line() {
    let mut entries = Vec::new();
    for i in 0..4 {
        entries.push(mcp(&format!("s-{}", i), "INFO", "m"));
    }
    let mut bytes = file_of(&entries);
    let extra = serialize_entry(&mcp("s-cut", "INFO", "cut"));
    bytes.extend_from_slice(&extra[..extra.len() / 2]);
    let got = read_last_n_lines(&bytes, 100);
    assert_eq!(got.len(), 4);
    assert_eq!(got[3].session_id, "s-3");
}

#[test]
fn tail_skips_unparseable_complete_lines() {
    let mut bytes = file_of(&[mcp("a", "INFO", "m")]);
    bytes.extend_from_slice(b"this is not json\n");
    bytes.extend_from_slice(&file_of(&[mcp("b", "INFO", "m")]));
    let got = read_last_n_lines(&bytes, 10);
    assert_eq!(got.len(), 2);
    assert_eq!(got[0].session_id, "a");
    assert_eq!(got[1].session_id, "b");
}

#[test]
fn encoded_line_is_single_line() {
    let writer = LogWriter::new(".".to_string());
    let entry = mcp("s", "INFO", "embedded\nnewline and \u{1f30d}");
    let line = writer.encode_line(&entry);
    assert_eq!(line.iter().filter(|&&b| b == b'\n').count(), 1);
    assert_eq!(*line.last().unwrap(), b'\n');
}

#[test]
fn test_validate_date_format() {
    assert!(validate_date_format("2025-01-19"));
    assert!(validate_date_format("2024-12-31"));
    assert!(!validate_date_format("2025-1-19"));
    assert!(!validate_date_format("2025/01/19"));
    assert!(!validate_date_format("25-01-19"));
    assert!(!validate_date_format("not-a-date"));
    assert!(!validate_date_format("abcd-ef-gh"));
}

#[test]
fn test_log_file_path_generation() {
    let writer = LogWriter::new("/tmp/logs".to_string());
    let path = writer.get_log_file_path("2025-01-19");
    assert!(path.ends_with("2025-01-19.jsonl"));
}

#[test]
fn entry_date_prefixes_timestamp() {
    let entry = mcp("s", "INFO", "m");
    assert!(entry.timestamp.starts_with(&entry.date));
    assert!(validate_date_format(&entry.date));
}

#[test]
fn round_trip_proxy_request_entry() {
    let headers = vec![
        ("Authorization".to_string(), "Bearer t".to_string()),
        ("content-type".to_string(), "application/json".to_string()),
    ];
    let entry = local_logger::proxy::build_proxy_request_entry(
        "sess".to_string(),
        "corr".to_string(),
        "rid".to_string(),
        "POST",
        "https://api.anthropic.com/v1/messages?beta=true",
        &headers,
        b"{\"x\":1}",
        1024,
    );
    let bytes = serialize_entry(&entry);
    let back = parse_entry_line(&bytes).expect("round trip should parse");
    match (&back.event, &entry.event) {
        (LogEvent::ProxyRequest(a), LogEvent::ProxyRequest(b)) => {
            assert_eq!(a.method, b.method);
            assert_eq!(a.uri, b.uri);
            assert_eq!(a.headers, b.headers);
            assert_eq!(a.endpoint_pattern, b.endpoint_pattern);
            assert_eq!(a.api_version, b.api_version);
            assert_eq!(a.curl_command, b.curl_command);
            let (ua, ub) = (
                a.url_components.as_ref().unwrap(),
                b.url_components.as_ref().unwrap(),
            );
            assert_eq!(ua.host, ub.host);
            assert_eq!(ua.query_params, ub.query_params);
        }
        _ => panic!("expected request events"),
    }
}

#[test]
fn null_optional_reads_as_absent() {
    let mut line = String::from("{\"schema_version\":1,\"timestamp\":\"t\",\"date\":\"d\",");
    line.push_str("\"session_id\":\"s\",\"correlation_id\":\"c\",");
    line.push_str("\"event\":{\"type\":\"ProxyDebug\",\"level\":\"INFO\",\"message\":\"m\",");
    line.push_str("\"module\":null,\"target\":\"tg\"}}");
    let back = parse_entry_line(line.as_bytes()).expect("should parse");
    match &back.event {
        LogEvent::ProxyDebug(d) => {
            assert!(d.module.is_none());
            assert_eq!(d.target.as_deref(), Some("tg"));
            assert!(d.file.is_none());
            assert!(d.line.is_none());
        }
        _ => panic!("expected a diagnostic event"),
    }
}

#[test]
fn integer_bounds_round_trip() {
    let v = parse_json(b"[9223372036854775807,-9223372036854775808]").unwrap();
    assert_eq!(
        String::from_utf8(json_to_bytes(&v)).unwrap(),
        "[9223372036854775807,-9223372036854775808]"
    );
    let big = parse_json(b"9223372036854775808").unwrap();
    assert_eq!(String::from_utf8(json_to_bytes(&big)).unwrap(), "9223372036854775808");
}

#[test]
fn hook_empty_object_falls_back() {
    let parsed = parse_json(b"{}").unwrap();
    let entry = local_logger::hook::hook_entry_from_json(&parsed, "fresh".to_string());
    assert_eq!(entry.session_id, "fresh");
    match &entry.event {
        LogEvent::Hook(h) => {
            assert_eq!(h.event_type, "Unknown");
            assert!(h.extra.is_empty());
        }
        _ => panic!("expected a hook event"),
    }
}

#[test]
fn hook_extras_survive_the_round_trip() {
    let mut payload = String::from("{\"hook_event_name\":\"ExtraFieldsTest\",");
    payload.push_str("\"session_id\":\"extra-test\",\"tool_name\":\"TestTool\",");
    payload.push_str("\"custom_field_1\":\"value1\",\"custom_field_2\":42}");
    let parsed = parse_json(payload.as_bytes()).unwrap();
    let entry = local_logger::hook::hook_entry_from_json(&parsed, "fb".to_string());
    let back = parse_entry_line(&serialize_entry(&entry)).unwrap();
    match &back.event {
        LogEvent::Hook(h) => {
            assert_eq!(h.event_type, "ExtraFieldsTest");
            assert_eq!(h.tool_name.as_deref(), Some("TestTool"));
            assert_eq!(h.extra.len(), 2);
            assert_eq!(h.extra[0].0, "custom_field_1");
            assert!(matches!(h.extra[1].1, Json::Int(42)));
        }
        _ => panic!("expected a hook event"),
    }
}

#[test]
fn file_lines_never_concatenate_records() {
    let mut entries = Vec::new();
    for i in 0..20 {
        entries.push(mcp(&format!("w-{}", i), "INFO", "body with } and { braces"));
    }
    let bytes = file_of(&entries);
    let text = String::from_utf8(bytes).unwrap();
    for line in text.trim_end().split('\n') {
        assert!(parse_json(line.as_bytes()).is_some(), "line is not valid JSON: {}", line);
        assert!(!line.contains("}{\""), "line holds concatenated records: {}", line);
    }
    assert_eq!(text.trim_end().split('\n').count(), 20);
}
