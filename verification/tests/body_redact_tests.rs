use std::io::Write;

use local_logger::schema::{BodyData, BodyContent};
use local_logger::redact::{redact_sensitive_headers, is_sensitive_key};

#[test]
fn test_body_data_text() {
    let body = BodyData::from_bytes(b"hello world", None, Some("text/plain".to_string()), 1024);
    assert_eq!(body.size_bytes, 11);
    assert_eq!(body.stored_size_bytes, 11);
    assert!(!body.truncated);
    match body.content {
        BodyContent::Text { data } => assert_eq!(data, "hello world"),
        _ => panic!("Expected Text content"),
    }
}

#[test]
fn test_body_data_truncation() {
    let large_data = vec![b'a'; 2000];
    let body = BodyData::from_bytes(&large_data, None, None, 1000);
    assert_eq!(body.size_bytes, 2000);
    assert!(body.truncated);
    match body.content {
        BodyContent::Truncated { preview, reason } => {
            assert!(!preview.is_empty());
            assert!(preview.len() <= 1024);
            assert!(reason.contains("exceeds max"));
            assert!(reason.contains("2000"));
            assert!(reason.contains("1000"));
        }
        _ => panic!("Expected Truncated content"),
    }
}

#[test]
fn test_body_data_empty() {
    let body = BodyData::from_bytes(b"", None, None, 1024);
    assert_eq!(body.size_bytes, 0);
    assert_eq!(body.stored_size_bytes, 0);
    match body.content {
        BodyContent::Empty => {}
        _ => panic!("Expected Empty content"),
    }
}

#[test]
fn body_data_binary_base64() {
    let body = BodyData::from_bytes(&[0xff, 0xfe], None, None, 1024);
    match body.content {
        BodyContent::Binary { data } => assert_eq!(data, "//4="),
        _ => panic!("expected a binary body"),
    }
    assert_eq!(body.stored_size_bytes, 4);
}

fn gzip(text: &[u8]) -> Vec<u8> {
    let mut enc = flate2::write::GzEncoder::new(Vec::new(), flate2::Compression::default());
    enc.write_all(text).unwrap();
    enc.finish().unwrap()
}

#[test]
fn body_data_gzip_decodes_to_text() {
    let wire = gzip(b"{\"hello\":\"world\"}");
    let wire_len = wire.len() as u64;
    let body = BodyData::from_bytes(&wire, Some("gzip".to_string()), None, 1024);
    assert_eq!(body.size_bytes, wire_len);
    assert!(!body.truncated);
    match body.content {
        BodyContent::Text { data } => assert_eq!(data, "{\"hello\":\"world\"}"),
        _ => panic!("expected decoded text"),
    }
}

#[test]
fn body_data_bogus_gzip_is_recorded() {
    let body = BodyData::from_bytes(b"definitely not gzip", Some("gzip".to_string()), None, 1024);
    assert!(matches!(body.content, BodyContent::DecompressionFailed { .. }));
    assert_eq!(body.stored_size_bytes, 0);
    assert!(!body.truncated);
}

#[test]
fn body_data_oversize_after_decode_is_truncated() {
    let text = vec![b'x'; 5000];
    let wire = gzip(&text);
    let body = BodyData::from_bytes(&wire, Some("gzip".to_string()), None, 4096);
    assert!(body.truncated);
    match body.content {
        BodyContent::Truncated { preview, .. } => assert_eq!(preview.len(), 1024),
        _ => panic!("expected truncation"),
    }
}

#[test]
fn redaction_hides_sensitive_values() {
    let headers = vec![
        ("Authorization".to_string(), "Bearer xyz".to_string()),
        ("COOKIE".to_string(), "a=b".to_string()),
        ("Content-Type".to_string(), "text/plain".to_string()),
        ("x-api-key".to_string(), "SECRET-REDACTED".to_string()),
    ];
    let red = redact_sensitive_headers(&headers);
    assert_eq!(red.len(), 4);
    assert_eq!(red[0].0, "Authorization");
    assert_eq!(red[0].1, "[REDACTED:Bearer]");
    assert_eq!(red[1].0, "COOKIE");
    assert_eq!(red[1].1, "[REDACTED]");
    assert_eq!(red[2].1, "text/plain");
    assert_eq!(red[3].1, "[REDACTED]");
}

#[test]
fn redaction_authorization_without_scheme() {
    let headers = vec![("authorization".to_string(), "tokenonly".to_string())];
    let red = redact_sensitive_headers(&headers);
    assert_eq!(red[0].1, "[REDACTED]");
}

#[test]
fn sensitive_names_match_any_case() {
    assert!(is_sensitive_key("AUTHORIZATION"));
    assert!(is_sensitive_key("Set-Cookie"));
    assert!(is_sensitive_key("x-session-token"));
    assert!(!is_sensitive_key("content-length"));
    assert!(!is_sensitive_key("accept"));
}
