use rustproxy::forward::{
    address_from_parts, bytes_after_head, backend_target, forward_headers, request_target, upgrade_accepted,
    upgrade_request, Header,
};
use rustproxy::request::{
    after_lookup, dispatch, failure_status, is_https_request, is_websocket_upgrade, Dispatch,
    ForwardFailure, RouteDecision,
};
use rustproxy::{Mapping, MappingTable, ProxyConfig};

fn mapping(front_uri: &str, back_port: u16, back_uri: &str, backend: Option<&str>) -> Mapping {
    Mapping {
        id: "test".to_string(),
        domain: "example.com".to_string(),
        front_uri: front_uri.to_string(),
        back_port,
        back_uri: back_uri.to_string(),
        backend: backend.map(|b| b.to_string()),
        created_at: String::new(),
        updated_at: String::new(),
    }
}

#[test]
fn health_is_answered_first() {
    assert!(matches!(dispatch("/health", Some("/health"), None, true, false), Dispatch::Health));
}

#[test]
fn acme_challenge_token_is_taken_from_path() {
    match dispatch("/.well-known/acme-challenge/tok123", None, None, false, false) {
        Dispatch::AcmeChallenge { token } => assert_eq!(token, "tok123"),
        _ => panic!("expected a challenge"),
    }
}

#[test]
fn missing_host_is_bad_request() {
    assert!(matches!(dispatch("/test", Some("/test"), None, false, false), Dispatch::MissingHost));
    assert!(matches!(dispatch("/test", Some("/test"), None, true, true), Dispatch::MissingHost));
}

#[test]
fn forced_https_redirects_plain_requests() {
    match dispatch("/a", Some("/a?x=1"), Some("example.com:8080"), true, false) {
        Dispatch::RedirectHttps { location } => assert_eq!(location, "https://example.com/a?x=1"),
        _ => panic!("expected a redirect"),
    }
    match dispatch("/a", Some("/a"), Some("example.com:8080"), true, true) {
        Dispatch::Lookup { host } => assert_eq!(host, "example.com"),
        _ => panic!("expected a lookup"),
    }
}

#[test]
fn unmapped_host_is_not_found() {
    let mut table = MappingTable::new();
    table.add_mapping("localhost", "", 3000, "", None).unwrap();
    let host = match dispatch("/test", Some("/test"), Some("unknown.example.com"), false, false) {
        Dispatch::Lookup { host } => host,
        _ => panic!("expected a lookup"),
    };
    let decision = after_lookup(table.find_mapping(&host, "/test"), false);
    assert!(matches!(decision, RouteDecision::NotFound));
}

#[test]
fn websocket_requests_are_tunnelled() {
    assert!(matches!(after_lookup(Some(mapping("", 1, "", None)), true), RouteDecision::Tunnel(_)));
    assert!(matches!(after_lookup(Some(mapping("", 1, "", None)), false), RouteDecision::Forward(_)));
}

#[test]
fn https_detection_from_proxy_headers() {
    assert!(is_https_request(Some("https"), None, None));
    assert!(is_https_request(None, Some("on"), None));
    assert!(is_https_request(None, None, Some("on")));
    assert!(!is_https_request(Some("http"), Some("off"), None));
    assert!(!is_https_request(Some("HTTPS"), None, None));
    assert!(!is_https_request(None, None, None));
}

#[test]
fn websocket_upgrade_ignores_ascii_case() {
    assert!(is_websocket_upgrade(Some("websocket")));
    assert!(is_websocket_upgrade(Some("WebSocket")));
    assert!(!is_websocket_upgrade(Some("h2c")));
    assert!(!is_websocket_upgrade(Some("websockets")));
    assert!(!is_websocket_upgrade(None));
}

#[test]
fn failure_statuses() {
    assert_eq!(failure_status(ForwardFailure::Connect), 502);
    assert_eq!(failure_status(ForwardFailure::Send), 502);
    assert_eq!(failure_status(ForwardFailure::ReadResponse), 502);
    assert_eq!(failure_status(ForwardFailure::UpgradeRejected), 502);
    assert_eq!(failure_status(ForwardFailure::ReadRequestBody), 400);
    assert_eq!(failure_status(ForwardFailure::InvalidBackendUrl), 500);
    assert_eq!(failure_status(ForwardFailure::InvalidTarget), 500);
}

#[test]
fn backend_target_for_local_backend() {
    let m = mapping("api", 3000, "v1", None);
    let t = backend_target(&m, "/api/users", Some("id=1")).unwrap();
    assert_eq!(t.url, "http://localhost:3000/v1/users?id=1");
    assert_eq!(t.host, "localhost");
    assert_eq!(t.port, 3000);
    assert_eq!(t.target, "/v1/users?id=1");
}

#[test]
fn backend_target_default_ports() {
    let m = mapping("", 443, "", Some("https://api.external.com"));
    let t = backend_target(&m, "/users", None).unwrap();
    assert_eq!(t.host, "api.external.com");
    assert_eq!(t.port, 443);
    let m = mapping("", 80, "", None);
    let t = backend_target(&m, "/", None).unwrap();
    assert_eq!(t.port, 80);
}

#[test]
fn backend_target_rejects_bad_url() {
    let m = mapping("", 80, "", Some("not a url"));
    assert!(matches!(backend_target(&m, "/", None), Err(ForwardFailure::InvalidBackendUrl)));
}

#[test]
fn address_defaults() {
    assert_eq!(address_from_parts(None, None, "https"), ("localhost".to_string(), 443));
    assert_eq!(address_from_parts(Some("h"), None, "http"), ("h".to_string(), 80));
    assert_eq!(address_from_parts(Some("h"), Some(9), "https"), ("h".to_string(), 9));
}

#[test]
fn request_target_keeps_query() {
    let m = mapping("api/v1", 3000, "v1", None);
    assert_eq!(request_target(&m, "/api/v1/users", Some("foo=bar&baz=qux")), "/v1/users?foo=bar&baz=qux");
    assert_eq!(request_target(&m, "/api/v1/users", None), "/v1/users");
}

fn h(name: &str, value: &[u8]) -> Header {
    Header { name: name.to_string(), value: value.to_vec() }
}

#[test]
fn forwarded_headers_replace_host() {
    let headers = vec![h("host", b"example.com:8080"), h("accept", b"*/*"), h("x-raw", &[0xff, 0x01])];
    let out = forward_headers(&headers, "example.com:8080", "127.0.0.1", false);
    let pairs: Vec<(String, Vec<u8>)> = out.into_iter().map(|h| (h.name, h.value)).collect();
    assert_eq!(
        pairs,
        vec![
            ("accept".to_string(), b"*/*".to_vec()),
            ("x-raw".to_string(), vec![0xff, 0x01]),
            ("host".to_string(), b"example.com:8080".to_vec()),
            ("x-forwarded-for".to_string(), b"127.0.0.1".to_vec()),
            ("x-forwarded-host".to_string(), b"example.com:8080".to_vec()),
            ("x-forwarded-proto".to_string(), b"http".to_vec()),
        ]
    );
}

#[test]
fn upgrade_request_text() {
    let headers = vec![h("host", b"a.com"), h("upgrade", b"websocket"), h("x-bin", &[0x80])];
    let bytes = upgrade_request("/ws?x=1", "a.com", &headers, "10.0.0.1", true);
    assert_eq!(
        String::from_utf8(bytes).unwrap(),
        "GET /ws?x=1 HTTP/1.1\r\nHost: a.com\r\nupgrade: websocket\r\nX-Forwarded-For: 10.0.0.1\r\nX-Forwarded-Host: a.com\r\nX-Forwarded-Proto: https\r\n\r\n"
    );
}

#[test]
fn upgrade_acceptance() {
    assert!(upgrade_accepted(&b"HTTP/1.1 101 Switching Protocols\r\n".to_vec()));
    assert!(!upgrade_accepted(&b"HTTP/1.1 400 Bad Request\r\n".to_vec()));
    assert!(!upgrade_accepted(&b"10".to_vec()));
    assert!(upgrade_accepted(&b"101".to_vec()));
    assert!(!upgrade_accepted(&b"HTTP/1.1 400 Bad Request\r\nX-Id: 101\r\n\r\n".to_vec()));
}

#[test]
fn config_defaults_and_production() {
    let c = ProxyConfig::default();
    assert_eq!((c.http_port, c.https_port, c.enable_https, c.force_https), (8080, 8443, false, false));
    let p = c.production();
    assert_eq!((p.http_port, p.https_port, p.enable_https, p.force_https), (80, 443, true, false));
}

#[test]
fn bytes_after_response_head() {
    let v = b"HTTP/1.1 101 Switching Protocols\r\nUpgrade: websocket\r\n\r\n\x81\x01a".to_vec();
    assert_eq!(bytes_after_head(&v), vec![0x81, 0x01, b'a']);
    assert_eq!(bytes_after_head(&b"HTTP/1.1 101\r\n\r\n".to_vec()), Vec::<u8>::new());
    assert_eq!(bytes_after_head(&b"HTTP/1.1 101\r\n".to_vec()), Vec::<u8>::new());
}
