use rustproxy::rewrite::{build_backend_url, redirect_location, rewrite_path, strip_port};
use rustproxy::Mapping;

fn mapping(front_uri: &str, back_port: u16, back_uri: &str, backend: Option<&str>) -> Mapping {
    Mapping {
        id: "test".to_string(),
        domain: "example.com".to_string(),
        front_uri: front_uri.to_string(),
        back_port,
        back_uri: back_uri.to_string(),
        backend: backend.map(|b| b.to_string()),
        created_at: String::new(),
        updated_at: String::new(),
    }
}

#[test]
fn test_rewrite_path_with_front_and_back() {
    let mapping = mapping("api/v1", 3000, "v1", None);
    assert_eq!(rewrite_path("/api/v1/users", &mapping), "/v1/users");
}

#[test]
fn test_rewrite_path_front_only() {
    let mapping = mapping("api", 3000, "", None);
    assert_eq!(rewrite_path("/api/users", &mapping), "/users");
}

#[test]
fn test_rewrite_path_back_only() {
    let mapping = mapping("", 3000, "api", None);
    assert_eq!(rewrite_path("/users", &mapping), "/api/users");
}

#[test]
fn test_rewrite_path_no_change() {
    let mapping = mapping("", 3000, "", None);
    assert_eq!(rewrite_path("/users", &mapping), "/users");
}

#[test]
fn test_build_backend_url() {
    let mapping = mapping("api", 3000, "v1", None);
    assert_eq!(
        build_backend_url(&mapping, "/api/users", Some("id=1")),
        "http://localhost:3000/v1/users?id=1"
    );
}

#[test]
fn test_build_backend_url_external() {
    let mapping = mapping("", 8080, "", Some("https://api.external.com"));
    assert_eq!(
        build_backend_url(&mapping, "/users", None),
        "https://api.external.com:8080/users"
    );
}

#[test]
fn rewrite_without_prefixes_keeps_clean_paths() {
    let m = mapping("", 3000, "", None);
    for p in ["/", "/a", "/a/b/c", "/users/42/profile"] {
        assert_eq!(rewrite_path(p, &m), p);
    }
}

#[test]
fn rewrite_collapses_slashes_and_adds_leading_slash() {
    let m = mapping("", 3000, "", None);
    assert_eq!(rewrite_path("/a//b///c", &m), "/a/b/c");
    assert_eq!(rewrite_path("users", &m), "/users");
    assert_eq!(rewrite_path("", &m), "/");
}

#[test]
fn rewrite_exact_front_prefix_gives_root() {
    let m = mapping("api", 3000, "", None);
    assert_eq!(rewrite_path("/api", &m), "/");
    let m = mapping("api", 3000, "v2", None);
    assert_eq!(rewrite_path("/api", &m), "/v2");
}

#[test]
fn rewrite_front_prefix_is_a_string_prefix() {
    let m = mapping("api", 3000, "", None);
    assert_eq!(rewrite_path("/apiary", &m), "/ary");
    assert_eq!(rewrite_path("/other/api", &m), "/other/api");
}

#[test]
fn backend_url_port_is_written_in_decimal() {
    let m = mapping("", 0, "", None);
    assert_eq!(build_backend_url(&m, "/", None), "http://localhost:0/");
    let m = mapping("", 65535, "", None);
    assert_eq!(build_backend_url(&m, "/x", Some("")), "http://localhost:65535/x?");
}

#[test]
fn strip_port_keeps_host_name() {
    assert_eq!(strip_port("example.com:8080"), "example.com");
    assert_eq!(strip_port("example.com"), "example.com");
    assert_eq!(strip_port(""), "");
}

#[test]
fn redirect_location_uses_https() {
    assert_eq!(redirect_location("example.com", Some("/a?b=1")), "https://example.com/a?b=1");
    assert_eq!(redirect_location("example.com", None), "https://example.com/");
}
