use local_logger::proxy::{
    should_intercept, detect_endpoint_pattern, extract_api_version, parse_url_components,
    synthesize_https_uri, generate_curl_command, hostname_of_authority,
    build_proxy_request_entry,
};
use local_logger::config::{ProxyConfig, parse_port_exec};
use local_logger::schema::{LogEvent, BodyContent};
use local_logger::ca::{generate_root_ca, CertificateManager};

#[test]
fn test_default_config() {
    let config = ProxyConfig::default_under("/home/user");
    assert_eq!(config.listen_port, 6969);
    assert!(config.recording.include_bodies);
    assert!(config.tls.generate_ca);
    assert_eq!(config.recording.max_body_size, 10 * 1024 * 1024);
    assert_eq!(config.filtering.target_hosts, vec!["api.anthropic.com".to_string()]);
}

#[test]
fn config_env_overrides_take_precedence() {
    let config = ProxyConfig::default_under("/home/user").apply_env(
        None,
        Some("9090".to_string()),
        Some("/certs".to_string()),
        None,
    );
    assert_eq!(config.listen_port, 9090);
    assert_eq!(config.tls.cert_dir, "/certs");
    assert_eq!(config.listen_addr, "127.0.0.1");
}

#[test]
fn port_parsing_rejects_bad_values() {
    assert_eq!(parse_port_exec("9090"), Some(9090));
    assert_eq!(parse_port_exec("0"), Some(0));
    assert_eq!(parse_port_exec("65535"), Some(65535));
    assert_eq!(parse_port_exec("65536"), None);
    assert_eq!(parse_port_exec(""), None);
    assert_eq!(parse_port_exec("9x"), None);
}

#[test]
fn intercept_decision_follows_target_hosts() {
    let hosts = vec!["api.anthropic.com".to_string()];
    assert!(should_intercept(&hosts, "api.anthropic.com"));
    assert!(!should_intercept(&hosts, "example.com"));
    let empty: Vec<String> = Vec::new();
    assert!(should_intercept(&empty, "example.com"));
}

#[test]
fn authority_splits_host_and_port() {
    assert_eq!(hostname_of_authority("api.anthropic.com:443"), "api.anthropic.com");
    assert_eq!(hostname_of_authority("localhost"), "localhost");
}

#[test]
fn synthesized_uri_strips_default_port() {
    assert_eq!(
        synthesize_https_uri("api.anthropic.com:443", "/v1/messages"),
        "https://api.anthropic.com/v1/messages"
    );
    assert_eq!(
        synthesize_https_uri("example.com:8443", "/x?y=1"),
        "https://example.com:8443/x?y=1"
    );
}

#[test]
fn endpoint_pattern_detection() {
    assert_eq!(detect_endpoint_pattern("/v1/messages"), Some("/v1/messages".to_string()));
    assert_eq!(
        detect_endpoint_pattern("/anything/v1/messages/extra"),
        Some("/v1/messages".to_string())
    );
    assert_eq!(
        detect_endpoint_pattern("/api/users/123/posts"),
        Some("/api/users/123".to_string())
    );
    assert_eq!(detect_endpoint_pattern("/plain/path"), None);
}

#[test]
fn api_version_from_path_then_headers() {
    let no_headers: Vec<(String, String)> = Vec::new();
    assert_eq!(extract_api_version("/v1/messages", &no_headers), Some("v1".to_string()));
    let headers = vec![("anthropic-version".to_string(), "2023-06-01".to_string())];
    assert_eq!(extract_api_version("/v/x", &headers), Some("2023-06-01".to_string()));
    let headers = vec![("Anthropic-Version".to_string(), "2023-06-01".to_string())];
    assert_eq!(extract_api_version("/messages", &headers), Some("2023-06-01".to_string()));
    assert_eq!(extract_api_version("/messages", &no_headers), None);
}

#[test]
fn url_components_parse() {
    let uc = parse_url_components("https://api.example.com:8443/v1/messages?beta=true&x")
        .expect("should parse");
    assert_eq!(uc.scheme, "https");
    assert_eq!(uc.host, "api.example.com");
    assert_eq!(uc.port, Some(8443));
    assert_eq!(uc.path, "/v1/messages");
    assert_eq!(uc.query_params.len(), 2);
    assert_eq!(uc.query_params[0], ("beta".to_string(), "true".to_string()));
    assert_eq!(uc.query_params[1], ("x".to_string(), "".to_string()));
    assert!(parse_url_components("/relative/path").is_none());
    let dup = parse_url_components("https://h/p?a=1&b=2&a=3").unwrap();
    assert_eq!(
        dup.query_params,
        vec![("a".to_string(), "3".to_string()), ("b".to_string(), "2".to_string())]
    );
}

#[test]
fn curl_command_shape() {
    let headers = vec![
        ("Host".to_string(), "h".to_string()),
        ("Authorization".to_string(), "[REDACTED:Bearer]".to_string()),
    ];
    let cmd = generate_curl_command("POST", "https://h/v1/messages", &headers, b"{'a':1}");
    assert!(cmd.starts_with("curl -X POST 'https://h/v1/messages'"));
    assert!(!cmd.contains("-H 'Host"));
    assert!(cmd.contains("-H 'Authorization: [REDACTED:Bearer]'"));
    assert!(cmd.contains("-d '{'\\''a'\\'':1}'"));
}

#[test]
fn request_entry_carries_redaction_and_pattern() {
    let headers = vec![
        ("Authorization".to_string(), "Bearer t".to_string()),
        ("content-type".to_string(), "application/json".to_string()),
    ];
    let entry = build_proxy_request_entry(
        "sess".to_string(),
        "corr".to_string(),
        "rid".to_string(),
        "POST",
        "https://api.anthropic.com/v1/messages",
        &headers,
        b"{\"x\":1}",
        10 * 1024 * 1024,
    );
    assert_eq!(entry.correlation_id, "corr");
    match &entry.event {
        LogEvent::ProxyRequest(r) => {
            assert_eq!(r.method, "POST");
            assert_eq!(r.headers[0].1, "[REDACTED:Bearer]");
            assert_eq!(r.endpoint_pattern.as_deref(), Some("/v1/messages"));
            assert_eq!(r.api_version.as_deref(), Some("v1"));
            let uc = r.url_components.as_ref().unwrap();
            assert_eq!(uc.host, "api.anthropic.com");
            assert!(uc.port.is_none());
            match &r.body.content {
                BodyContent::Text { data } => assert_eq!(data, "{\"x\":1}"),
                _ => panic!("expected text body"),
            }
            assert!(r.curl_command.as_ref().unwrap().starts_with("curl -X POST"));
        }
        _ => panic!("expected a request event"),
    }
}

#[test]
fn test_generate_root_ca() {
    let (pem, _key) = generate_root_ca().unwrap();
    assert!(pem.contains("BEGIN CERTIFICATE"));
    assert!(pem.contains("END CERTIFICATE"));
}

#[test]
fn certificate_cache_reuses_minted_leaves() {
    let (cert_pem, key_pem) = generate_root_ca().unwrap();
    let mut manager = CertificateManager::from_material(cert_pem, key_pem);
    let host = "api.anthropic.com".to_string();
    let first = manager.get_certificate(&host).unwrap();
    assert_eq!(manager.cache.len(), 1);
    assert!(!manager.cache[first].1.chain_der.is_empty());
    let second = manager.get_certificate(&host).unwrap();
    assert_eq!(first, second);
    assert_eq!(manager.cache.len(), 1);
    let other = manager.get_certificate(&"example.com".to_string()).unwrap();
    assert_eq!(manager.cache.len(), 2);
    assert_eq!(manager.cache[other].0, "example.com");
}

#[test]
fn reloaded_root_material_still_signs_leaves() {
    let (cert_pem, key_pem) = generate_root_ca().unwrap();
    let mut first = CertificateManager::from_material(cert_pem.clone(), key_pem.clone());
    let idx = first.get_certificate(&"api.anthropic.com".to_string()).unwrap();
    assert!(!first.cache[idx].1.chain_der[0].is_empty());
    assert!(!first.cache[idx].1.key_der.is_empty());
    let mut reloaded = CertificateManager::from_material(cert_pem, key_pem);
    let idx2 = reloaded.get_certificate(&"api.anthropic.com".to_string()).unwrap();
    assert!(!reloaded.cache[idx2].1.chain_der[0].is_empty());
}
