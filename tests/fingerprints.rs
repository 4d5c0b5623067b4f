use devrelay::certs::CertManager;
use devrelay::fingerprint::{cert_fingerprint_sha256_from_pem, contains_fingerprint, same_fingerprint};
use devrelay::hosts::Installer;
use sha2::Digest;

fn new_ca(name: &str) -> String {
    CertManager::new("/tmp/unused".to_string(), name.to_string()).generate_ca().unwrap().cert_pem
}

fn der_of(pem: &str) -> Vec<u8> {
    match rustls_pemfile::read_one_from_slice(pem.as_bytes()).unwrap() {
        Some((rustls_pemfile::Item::X509Certificate(der), _)) => der.to_vec(),
        _ => panic!("no certificate"),
    }
}

#[test]
fn fingerprint_is_sha256_of_der() {
    let pem = new_ca("Test CA");
    let fp = cert_fingerprint_sha256_from_pem(pem.as_bytes()).unwrap();
    let expected: [u8; 32] = sha2::Sha256::digest(der_of(&pem)).into();
    assert_eq!(fp, expected);
}

#[test]
fn fingerprint_is_stable_and_distinguishes_keys() {
    let a = new_ca("Same Name");
    let b = new_ca("Same Name");
    let fa1 = cert_fingerprint_sha256_from_pem(a.as_bytes()).unwrap();
    let fa2 = cert_fingerprint_sha256_from_pem(a.as_bytes()).unwrap();
    let fb = cert_fingerprint_sha256_from_pem(b.as_bytes()).unwrap();
    assert_eq!(fa1, fa2);
    assert_ne!(fa1, fb);
    assert!(same_fingerprint(&fa1, &fa2));
    assert!(!same_fingerprint(&fa1, &fb));
}

#[test]
fn fingerprint_skips_non_certificate_sections() {
    let pair = CertManager::new("/tmp/unused".to_string(), "K".to_string()).generate_ca().unwrap();
    let blob = format!("{}{}", pair.key_pem, pair.cert_pem);
    assert_eq!(
        cert_fingerprint_sha256_from_pem(blob.as_bytes()),
        cert_fingerprint_sha256_from_pem(pair.cert_pem.as_bytes())
    );
}

#[test]
fn fingerprint_of_no_certificate_is_none() {
    assert_eq!(cert_fingerprint_sha256_from_pem(b""), None);
    assert_eq!(cert_fingerprint_sha256_from_pem(b"hello world\n"), None);
    assert_eq!(
        cert_fingerprint_sha256_from_pem(b"-----BEGIN CERTIFICATE-----\n!!!!\n-----END CERTIFICATE-----\n"),
        None
    );
}

#[test]
fn keychain_with_only_stale_same_named_entry_is_not_installed() {
    let ours = new_ca("DevRelay CA");
    let stale = new_ca("DevRelay CA");
    let fp = cert_fingerprint_sha256_from_pem(ours.as_bytes()).unwrap();
    assert!(!Installer::is_ca_installed_macos(stale.as_bytes(), &fp));
    let both = format!("{}{}", stale, ours);
    assert!(Installer::is_ca_installed_macos(both.as_bytes(), &fp));
    assert!(contains_fingerprint(both.as_bytes(), &fp));
    assert!(!Installer::is_ca_installed_macos(b"", &fp));
}

#[test]
fn linux_anchor_first_present_file_decides() {
    let ours = new_ca("DevRelay CA");
    let other = new_ca("DevRelay CA");
    let fp = cert_fingerprint_sha256_from_pem(ours.as_bytes()).unwrap();
    let files = vec![None, Some(ours.as_bytes().to_vec())];
    assert!(Installer::is_ca_installed_linux(&files, &fp));
    let files = vec![Some(other.as_bytes().to_vec()), Some(ours.as_bytes().to_vec())];
    assert!(!Installer::is_ca_installed_linux(&files, &fp));
    let files = vec![Some(b"junk".to_vec()), Some(ours.as_bytes().to_vec())];
    assert!(Installer::is_ca_installed_linux(&files, &fp));
    assert!(!Installer::is_ca_installed_linux(&vec![None, None], &fp));
}
