use devrelay::certs::{
    ensure_action, regenerate_action, CertError, CertManager, FileAction, CA_VALIDITY_SECS,
    FIRST_SIGNABLE_SECS, LAST_SIGNABLE_SECS, LEAF_VALIDITY_SECS,
};
use devrelay::fingerprint::cert_fingerprint_sha256_from_pem;

fn manager() -> CertManager {
    CertManager::new("/home/dev/.devrelay/certs".to_string(), "DevRelay CA".to_string())
}

#[test]
fn certificate_paths() {
    let m = manager();
    assert_eq!(m.ca_cert_path(), "/home/dev/.devrelay/certs/ca.crt");
    assert_eq!(m.ca_key_path(), "/home/dev/.devrelay/certs/ca.key");
    assert_eq!(m.combined_cert_path(), "/home/dev/.devrelay/certs/server.crt");
    assert_eq!(m.combined_key_path(), "/home/dev/.devrelay/certs/server.key");
    assert_eq!(m.server_cert_path("app.test"), "/home/dev/.devrelay/certs/app.test.crt");
    assert_eq!(m.server_key_path("app.test"), "/home/dev/.devrelay/certs/app.test.key");
    let m = CertManager::new("certs/".to_string(), "X".to_string());
    assert_eq!(m.ca_cert_path(), "certs/ca.crt");
    let m = CertManager::new(String::new(), "X".to_string());
    assert_eq!(m.ca_cert_path(), "ca.crt");
}

#[test]
fn generation_needed_unless_both_files_exist() {
    assert_eq!(ensure_action(true, true), FileAction::Keep);
    assert_eq!(ensure_action(true, false), FileAction::Write);
    assert_eq!(ensure_action(false, true), FileAction::Write);
    assert_eq!(ensure_action(false, false), FileAction::Write);
    assert_eq!(regenerate_action(true, true), FileAction::Write);
    assert_eq!(regenerate_action(false, false), FileAction::Write);
}

#[test]
fn ca_request_content() {
    let q = manager().ca_request(1_700_000_000).unwrap();
    assert_eq!(q.common_name, "DevRelay CA");
    assert_eq!(q.organization.as_deref(), Some("DevRelay"));
    assert!(q.is_ca);
    assert!(q.dns_names.is_empty());
    assert_eq!(q.not_before, 1_700_000_000);
    assert_eq!(q.not_after, 1_700_000_000 + 3650 * 86400);
    assert_eq!(CA_VALIDITY_SECS, 315_360_000);
    assert_eq!(manager().ca_request(i64::MAX - 10).err(), Some(CertError::ClockOutOfRange));
    assert_eq!(manager().ca_request(i64::MIN).err(), Some(CertError::ClockOutOfRange));
    assert_eq!(manager().ca_request(FIRST_SIGNABLE_SECS - 1).err(), Some(CertError::ClockOutOfRange));
    assert!(manager().ca_request(FIRST_SIGNABLE_SECS).is_ok());
    assert!(manager().ca_request(LAST_SIGNABLE_SECS - CA_VALIDITY_SECS).is_ok());
    assert_eq!(
        manager().ca_request(LAST_SIGNABLE_SECS - CA_VALIDITY_SECS + 1).err(),
        Some(CertError::ClockOutOfRange)
    );
    assert_eq!(FIRST_SIGNABLE_SECS, -62_167_219_200);
    assert_eq!(LAST_SIGNABLE_SECS, 253_402_300_799);
}

#[test]
fn leaf_request_content() {
    let q = CertManager::server_request("app.test", 100).unwrap();
    assert_eq!(q.common_name, "app.test");
    assert_eq!(q.organization, None);
    assert!(!q.is_ca);
    assert_eq!(q.dns_names, vec!["app.test".to_string()]);
    assert_eq!(q.not_after - q.not_before, LEAF_VALIDITY_SECS);
    assert_eq!(LEAF_VALIDITY_SECS, 31_536_000);
    let domains = vec!["b.test".to_string(), "a.test".to_string()];
    let q = CertManager::combined_request(&domains, 100).unwrap();
    assert_eq!(q.common_name, "DevRelay Server");
    assert_eq!(q.dns_names, domains);
    assert_eq!(q.not_after, 100 + 365 * 86400);
    assert_eq!(
        CertManager::server_request("a.test", FIRST_SIGNABLE_SECS - 1).err(),
        Some(CertError::ClockOutOfRange)
    );
    assert_eq!(
        CertManager::combined_request(&domains, LAST_SIGNABLE_SECS).err(),
        Some(CertError::ClockOutOfRange)
    );
}

#[test]
fn server_cert_signed_for_domain() {
    let m = manager();
    let ca = m.generate_ca().unwrap();
    assert!(ca.cert_pem.starts_with("-----BEGIN CERTIFICATE-----"));
    assert!(ca.key_pem.contains("PRIVATE KEY"));
    let leaf = m.generate_server_cert(&ca.key_pem, "app.test").unwrap();
    assert!(cert_fingerprint_sha256_from_pem(leaf.cert_pem.as_bytes()).is_some());
    assert_ne!(
        cert_fingerprint_sha256_from_pem(leaf.cert_pem.as_bytes()),
        cert_fingerprint_sha256_from_pem(ca.cert_pem.as_bytes())
    );
}

#[test]
fn server_cert_rejects_non_ascii_domain() {
    let m = manager();
    let ca = m.generate_ca().unwrap();
    assert_eq!(
        m.generate_server_cert(&ca.key_pem, "caf\u{e9}.test").err(),
        Some(CertError::InvalidDomain("caf\u{e9}.test".to_string()))
    );
}

#[test]
fn server_cert_with_bad_ca_key() {
    let m = manager();
    assert_eq!(m.generate_server_cert("not a key", "app.test").err(), Some(CertError::KeyParse));
}

#[test]
fn combined_cert_rejects_first_invalid_domain() {
    let m = manager();
    let ca = m.generate_ca().unwrap();
    let domains = vec!["a.test".to_string(), "\u{fc}.test".to_string(), "\u{e9}.test".to_string()];
    assert_eq!(
        m.generate_combined_server_cert(&ca.key_pem, &domains).err(),
        Some(CertError::InvalidDomain("\u{fc}.test".to_string()))
    );
}

#[test]
fn combined_cert_regenerated_each_call() {
    let m = manager();
    let ca = m.generate_ca().unwrap();
    let domains = vec!["a.test".to_string(), "b.test".to_string()];
    let first = m.generate_combined_server_cert(&ca.key_pem, &domains).unwrap();
    let second = m.generate_combined_server_cert(&ca.key_pem, &domains).unwrap();
    let f1 = cert_fingerprint_sha256_from_pem(first.cert_pem.as_bytes()).unwrap();
    let f2 = cert_fingerprint_sha256_from_pem(second.cert_pem.as_bytes()).unwrap();
    assert_ne!(f1, f2);
    assert_ne!(first.key_pem, second.key_pem);
}
