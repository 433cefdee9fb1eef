use rustproxy::certificate::{CertError, COOLDOWN_SECS, DEFAULT_ACME_DIRECTORY, WEEK_SECS};
use rustproxy::CertificateManager;

#[test]
fn test_generate_self_signed() {
    let manager = CertificateManager::new("/tmp/certs", None);

    let san = vec!["example.com".to_string(), "www.example.com".to_string()];
    let generated: Result<_, CertError> = manager.generate_self_signed("example.com", &san);
    let generated = generated.unwrap();

    assert_eq!(generated.cert_path, "/tmp/certs/example.com.crt");
    assert_eq!(generated.key_path, "/tmp/certs/example.com.key");
    assert!(generated.cert_pem.starts_with("-----BEGIN CERTIFICATE-----"));
    assert!(generated.key_pem.contains("PRIVATE KEY"));
}

#[test]
fn test_sanitize_domain() {
    assert_eq!(CertificateManager::sanitize_domain("example.com"), "example.com");
    assert_eq!(CertificateManager::sanitize_domain("*.example.com"), "wildcard.example.com");
}

#[test]
fn test_acme_challenge_storage() {
    let mut manager = CertificateManager::new("certs", None);

    manager.store_acme_challenge("token123", "key_auth_value");

    let result = manager.get_acme_challenge("token123");
    assert_eq!(result, Some("key_auth_value".to_string()));

    manager.remove_acme_challenge("token123");
    assert!(manager.get_acme_challenge("token123").is_none());
}

#[test]
fn challenge_replaced_by_second_store() {
    let mut manager = CertificateManager::new("certs", None);
    manager.store_acme_challenge("t", "one");
    manager.store_acme_challenge("t", "two");
    assert_eq!(manager.get_acme_challenge("t"), Some("two".to_string()));
    assert!(manager.get_acme_challenge("other").is_none());
}

#[test]
fn default_and_given_acme_directory() {
    let manager = CertificateManager::new("certs", None);
    assert_eq!(manager.acme_directory_url(), DEFAULT_ACME_DIRECTORY);
    assert_eq!(manager.certs_dir(), "certs");
    let manager = CertificateManager::new("certs", Some("https://acme.test/dir".to_string()));
    assert_eq!(manager.acme_directory_url(), "https://acme.test/dir");
}

#[test]
fn certificate_paths_for_wildcard() {
    let manager = CertificateManager::new("certs/", None);
    let (crt, key) = manager.certificate_paths("*.a.com");
    assert_eq!(crt, "certs/wildcard.a.com.crt");
    assert_eq!(key, "certs/wildcard.a.com.key");
}

#[test]
fn cooldown_between_requests() {
    let mut manager = CertificateManager::new("certs", None);
    assert!(!manager.is_rate_limited("a.com", 1000));
    manager.update_rate_limit("a.com", 1000);
    assert!(manager.is_rate_limited("a.com", 1000 + COOLDOWN_SECS - 1));
    assert!(!manager.is_rate_limited("a.com", 1000 + COOLDOWN_SECS));
    assert!(!manager.is_rate_limited("b.com", 1000));
}

#[test]
fn weekly_cap_and_reset() {
    let mut manager = CertificateManager::new("certs", None);
    let mut now = 10_000u64;
    for _ in 0..5 {
        assert!(!manager.is_rate_limited("a.com", now));
        manager.update_rate_limit("a.com", now);
        now += COOLDOWN_SECS;
    }
    assert!(manager.is_rate_limited("a.com", now));
    let later = 10_000 + WEEK_SECS;
    assert!(!manager.is_rate_limited("a.com", later));
    manager.update_rate_limit("a.com", later);
    assert!(!manager.is_rate_limited("a.com", later + COOLDOWN_SECS));
}

#[test]
fn non_ascii_names_are_refused() {
    let manager = CertificateManager::new("/tmp/certs", None);
    let san = vec!["bücher.example".to_string()];
    assert!(matches!(manager.generate_self_signed("bücher.example", &san), Err(CertError::Generation)));
    assert!(rustproxy::certificate::names_are_ascii(&vec!["a.com".to_string(), "127.0.0.1".to_string()]));
    assert!(!rustproxy::certificate::names_are_ascii(&vec!["a.com".to_string(), "é".to_string()]));
}
