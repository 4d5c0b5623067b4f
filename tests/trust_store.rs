use devrelay::trust::{
    after_removal, copy_command, install_plan, keychain_add_command, keychain_add_outcome,
    keychain_delete_command, keychain_hashes, overall_success, privileged_outcome,
    remove_file_command, LinuxStore, StepOutcome, TrustStoreBackend,
};

#[test]
fn backend_by_os_name() {
    assert_eq!(TrustStoreBackend::for_os("macos"), TrustStoreBackend::MacKeychain);
    assert_eq!(TrustStoreBackend::for_os("linux"), TrustStoreBackend::LinuxAnchor);
    assert_eq!(TrustStoreBackend::for_os("windows"), TrustStoreBackend::Unsupported);
    assert_eq!(TrustStoreBackend::for_os("mac"), TrustStoreBackend::Unsupported);
}

#[test]
fn cancellation_is_not_failure() {
    assert_eq!(privileged_outcome(true, ""), StepOutcome::Done);
    assert_eq!(privileged_outcome(false, "Command failed: sudo: user cancelled"), StepOutcome::Skipped);
    assert_eq!(privileged_outcome(false, "Command failed: permission denied"), StepOutcome::Failed);
    assert_eq!(
        keychain_add_outcome(false, "Error: The specified item already exists in the keychain."),
        StepOutcome::Done
    );
    assert_eq!(keychain_add_outcome(false, "user cancelled"), StepOutcome::Skipped);
    assert_eq!(keychain_add_outcome(false, "boom"), StepOutcome::Failed);
    assert_eq!(privileged_outcome(false, "The specified item already exists in the keychain"), StepOutcome::Failed);
}

#[test]
fn removals_continue_past_failures() {
    assert_eq!(after_removal(true, StepOutcome::Done), (true, true));
    assert_eq!(after_removal(true, StepOutcome::Failed), (true, false));
    assert_eq!(after_removal(false, StepOutcome::Done), (true, false));
    assert_eq!(after_removal(true, StepOutcome::Skipped), (false, false));
}

#[test]
fn install_plan_purges_stale_keychain_entries() {
    let p = install_plan(TrustStoreBackend::MacKeychain, false);
    assert!(p.purge_first && p.install);
    let p = install_plan(TrustStoreBackend::LinuxAnchor, false);
    assert!(!p.purge_first && p.install);
    let p = install_plan(TrustStoreBackend::MacKeychain, true);
    assert!(!p.purge_first && !p.install);
    assert!(overall_success(StepOutcome::Done, StepOutcome::Done));
    assert!(!overall_success(StepOutcome::Done, StepOutcome::Skipped));
    assert!(!overall_success(StepOutcome::Failed, StepOutcome::Done));
}

#[test]
fn linux_store_choice() {
    assert_eq!(LinuxStore::pick(true, true), Some(LinuxStore::Debian));
    assert_eq!(LinuxStore::pick(false, true), Some(LinuxStore::Rhel));
    assert_eq!(LinuxStore::pick(false, false), None);
    assert_eq!(LinuxStore::Debian.anchor_file(), "/usr/local/share/ca-certificates/devrelay-ca.crt");
    assert_eq!(LinuxStore::Rhel.anchor_dir(), "/etc/pki/ca-trust/source/anchors");
    assert_eq!(LinuxStore::Debian.refresh_command(), "update-ca-certificates");
    assert_eq!(LinuxStore::Rhel.refresh_command(), "update-ca-trust");
}

#[test]
fn trust_store_commands() {
    assert_eq!(
        keychain_add_command("/tmp/it's/ca.crt"),
        "security add-trusted-cert -d -r trustRoot -k /Library/Keychains/System.keychain '/tmp/it'\\''s/ca.crt'"
    );
    assert_eq!(
        keychain_delete_command("ABCDEF"),
        "security delete-certificate -Z ABCDEF /Library/Keychains/System.keychain"
    );
    assert_eq!(copy_command("/a/ca.crt", "/b/x.crt"), "cp '/a/ca.crt' '/b/x.crt'");
    assert_eq!(remove_file_command("/b/x.crt"), "rm -f '/b/x.crt'");
}

#[test]
fn keychain_hashes_from_find_output() {
    let out = "SHA-256 hash: 1111\nSHA-1 hash: AB12CD\nkeychain: \"/Library/Keychains/System.keychain\"\nSHA-1 hash:  EF34  \r\n  SHA-1 hash: 99\n";
    assert_eq!(keychain_hashes(out), vec!["AB12CD".to_string(), "EF34".to_string()]);
    assert!(keychain_hashes("").is_empty());
}
