use devrelay::hosts::Installer;

fn names(v: &[&str]) -> Vec<String> {
    v.iter().map(|s| s.to_string()).collect()
}

#[test]
fn add_entries_to_plain_hosts_file() {
    let content = "127.0.0.1 localhost\n";
    let addition = Installer::hosts_addition(content, &names(&["a.test", "b.test"])).unwrap();
    assert_eq!(addition, "# DevRelay entries\n127.0.0.1 a.test\n127.0.0.1 b.test\n");
    let after = format!("{}{}", content, addition);
    assert!(after.ends_with("# DevRelay entries\n127.0.0.1 a.test\n127.0.0.1 b.test\n"));
    assert_eq!(Installer::hosts_addition(&after, &names(&["a.test", "b.test"])), None);
}

#[test]
fn add_entries_after_unterminated_line() {
    let content = "127.0.0.1 localhost";
    let addition = Installer::hosts_addition(content, &names(&["a.test"])).unwrap();
    assert_eq!(addition, "\n# DevRelay entries\n127.0.0.1 a.test\n");
    let after = format!("{}{}", content, addition);
    assert!(Installer::is_domain_in_hosts(&after, "a.test"));
    assert!(Installer::is_domain_in_hosts(&after, "localhost"));
}

#[test]
fn add_entries_only_missing_in_order() {
    let content = "127.0.0.1 localhost b.test\n";
    let missing = Installer::missing_domains(content, &names(&["c.test", "b.test", "a.test"]));
    assert_eq!(missing, names(&["c.test", "a.test"]));
    let addition = Installer::hosts_addition(content, &names(&["c.test", "b.test", "a.test"]));
    assert_eq!(
        addition.as_deref(),
        Some("# DevRelay entries\n127.0.0.1 c.test\n127.0.0.1 a.test\n")
    );
}

#[test]
fn add_entries_empty_list_is_noop() {
    assert_eq!(Installer::hosts_addition("127.0.0.1 localhost\n", &Vec::new()), None);
}

#[test]
fn domain_presence_is_whole_word() {
    let content = "# 127.0.0.1 commented.test\n127.0.0.1 mysite.test.example\n  127.0.0.1\tother.test  \r\n::1 v6.test\n";
    assert!(!Installer::is_domain_in_hosts(content, "mysite.test"));
    assert!(Installer::is_domain_in_hosts(content, "mysite.test.example"));
    assert!(Installer::is_domain_in_hosts(content, "other.test"));
    assert!(!Installer::is_domain_in_hosts(content, "commented.test"));
    assert!(!Installer::is_domain_in_hosts(content, "v6.test"));
    assert!(!Installer::is_domain_in_hosts(content, "127.0.0.1"));
    assert!(!Installer::is_domain_in_hosts(content, ""));
    assert!(!Installer::is_domain_in_hosts("", "a.test"));
}

#[test]
fn remove_entry_from_block() {
    let content = "127.0.0.1 localhost\n# DevRelay entries\n127.0.0.1 a.test\n127.0.0.1 b.test\n";
    let after = Installer::hosts_after_removal(content, &names(&["a.test"])).unwrap();
    // The sentinel opens the block and is dropped with it; the entry that is
    // not removed ends the block and stays.
    assert_eq!(after, "127.0.0.1 localhost\n127.0.0.1 b.test\n");
    assert!(!after.contains("a.test"));
    assert!(after.contains("127.0.0.1 b.test"));
}

#[test]
fn remove_never_touches_lines_outside_block() {
    let content = "127.0.0.1 mysite.test\n127.0.0.1 localhost\n# DevRelay entries\n127.0.0.1 a.test\n\n127.0.0.1 b.test\n# other\n127.0.0.1 mysite.test\n";
    let after = Installer::hosts_after_removal(content, &names(&["a.test", "b.test", "mysite.test"])).unwrap();
    assert_eq!(after, "127.0.0.1 mysite.test\n127.0.0.1 localhost\n# other\n127.0.0.1 mysite.test\n");
}

#[test]
fn remove_without_matching_entry_is_noop() {
    let content = "127.0.0.1 localhost\n# DevRelay entries\n127.0.0.1 b.test\n";
    assert_eq!(Installer::hosts_after_removal(content, &names(&["a.test"])), None);
    assert_eq!(Installer::hosts_after_removal("127.0.0.1 a.test\n", &names(&["a.test"])), None);
}

#[test]
fn remove_everything_leaves_one_line_feed() {
    let content = "# DevRelay entries\r\n127.0.0.1 a.test\r\n";
    assert_eq!(Installer::hosts_after_removal(content, &names(&["a.test"])).as_deref(), Some("\n"));
}

#[test]
fn remove_strips_carriage_returns_of_kept_lines() {
    let content = "127.0.0.1 localhost\r\n# DevRelay entries\r\n127.0.0.1 a.test x.test\r\n";
    let after = Installer::hosts_after_removal(content, &names(&["x.test"])).unwrap();
    assert_eq!(after, "127.0.0.1 localhost\n");
}

#[test]
fn shell_commands_quote_content() {
    assert_eq!(
        Installer::append_command("# it's\n"),
        "printf '%s' '# it'\\''s\n' >> /etc/hosts"
    );
    assert_eq!(
        Installer::rewrite_command("a \"b\"\n"),
        "printf '%s' 'a \"b\"\n' | tee /etc/hosts > /dev/null"
    );
}
