use forsaken_mail::config::{
    default_mailbox_blacklist, i64_or_default, normalize_domain, normalize_listen_addr,
    parse_list, text_or_default, usize_or_default, Config, Settings,
};

fn unset() -> Settings {
    Settings {
        http_addr: None,
        smtp_addr: None,
        mail_domain: None,
        mailbox_blacklist: None,
        banned_sender_domains: None,
        max_messages_per_mailbox: None,
        message_ttl_minutes: None,
        max_message_bytes: None,
    }
}

fn some(s: &str) -> Option<String> {
    Some(s.to_string())
}

fn sorted(mut v: Vec<String>) -> Vec<String> {
    v.sort();
    v
}

#[test]
fn config_defaults() {
    let c = Config::from_settings(&unset());
    assert_eq!(c.http_addr, ":3000");
    assert_eq!(c.smtp_addr, ":25");
    assert_eq!(c.domain, "");
    assert_eq!(
        c.mailbox_blacklist,
        vec![
            "admin", "master", "info", "mail", "webadmin", "webmaster", "noreply", "system",
            "postmaster"
        ]
    );
    assert!(c.banned_sender_domains.is_empty());
    assert_eq!(c.max_messages_per_mailbox, 200);
    assert_eq!(c.message_ttl_minutes, 1440);
    assert_eq!(c.max_message_bytes, 10485760);
}

#[test]
fn config_reads_every_setting() {
    let c = Config::from_settings(&Settings {
        http_addr: some(" 127.0.0.1:8080 "),
        smtp_addr: some(":2525"),
        mail_domain: some("  Example.TEST "),
        mailbox_blacklist: some("Root, abuse ,,root"),
        banned_sender_domains: some("Spam.test,  ,bad.test"),
        max_messages_per_mailbox: some(" 5 "),
        message_ttl_minutes: some("+60"),
        max_message_bytes: some("4096"),
    });
    assert_eq!(c.http_addr, "127.0.0.1:8080");
    assert_eq!(c.smtp_addr, ":2525");
    assert_eq!(c.domain, "example.test");
    assert_eq!(sorted(c.mailbox_blacklist.clone()), vec!["abuse", "root"]);
    assert_eq!(sorted(c.banned_sender_domains.clone()), vec!["bad.test", "spam.test"]);
    assert_eq!(c.max_messages_per_mailbox, 5);
    assert_eq!(c.message_ttl_minutes, 60);
    assert_eq!(c.max_message_bytes, 4096);
}

#[test]
fn config_raises_numbers_to_their_floors() {
    let c = Config::from_settings(&Settings {
        max_messages_per_mailbox: some("0"),
        message_ttl_minutes: some("-5"),
        max_message_bytes: some("100"),
        ..unset()
    });
    assert_eq!(c.max_messages_per_mailbox, 1);
    assert_eq!(c.message_ttl_minutes, 1);
    assert_eq!(c.max_message_bytes, 1024);
}

#[test]
fn config_falls_back_where_a_number_does_not_parse() {
    let c = Config::from_settings(&Settings {
        max_messages_per_mailbox: some("many"),
        message_ttl_minutes: some(""),
        max_message_bytes: some("-1"),
        ..unset()
    });
    assert_eq!(c.max_messages_per_mailbox, 200);
    assert_eq!(c.message_ttl_minutes, 1440);
    assert_eq!(c.max_message_bytes, 10485760);
}

#[test]
fn config_blank_addresses_fall_back() {
    let c = Config::from_settings(&Settings {
        http_addr: some("   "),
        smtp_addr: some(""),
        ..unset()
    });
    assert_eq!(c.http_addr, ":3000");
    assert_eq!(c.smtp_addr, ":25");
}

#[test]
fn config_empty_blacklist_blocks_nothing() {
    let c = Config::from_settings(&Settings { mailbox_blacklist: some(""), ..unset() });
    assert!(c.mailbox_blacklist.is_empty());
    assert!(!c.is_mailbox_blacklisted("admin"));
}

#[test]
fn blacklist_lookup_is_canonical() {
    let c = Config::from_settings(&unset());
    assert!(c.is_mailbox_blacklisted("admin"));
    assert!(c.is_mailbox_blacklisted("  Admin "));
    assert!(c.is_mailbox_blacklisted("POSTMASTER"));
    assert!(!c.is_mailbox_blacklisted("bob"));
    assert!(!c.is_mailbox_blacklisted(""));
}

#[test]
fn banned_domain_lookup_is_canonical() {
    let c = Config::from_settings(&Settings {
        banned_sender_domains: some("spam.test"),
        ..unset()
    });
    assert!(c.is_sender_domain_blocked("spam.test"));
    assert!(c.is_sender_domain_blocked(" SPAM.test "));
    assert!(!c.is_sender_domain_blocked("x.test"));
    assert!(!Config::from_settings(&unset()).is_sender_domain_blocked("spam.test"));
}

#[test]
fn list_items_are_canonical_and_unique() {
    assert_eq!(sorted(parse_list("b, A ,a,,B ,c")), vec!["a", "b", "c"]);
    assert!(parse_list("").is_empty());
    assert!(parse_list(" , ,").is_empty());
    assert_eq!(parse_list("one"), vec!["one"]);
}

#[test]
fn default_blacklist_has_nine_names() {
    assert_eq!(default_mailbox_blacklist().len(), 9);
}

#[test]
fn setting_readers_fall_back() {
    assert_eq!(text_or_default(&None, ":25"), ":25");
    assert_eq!(text_or_default(&some(" x "), ":25"), "x");
    assert_eq!(usize_or_default(&None, 7), 7);
    assert_eq!(usize_or_default(&some(" 12 "), 7), 12);
    assert_eq!(usize_or_default(&some("1 2"), 7), 7);
    assert_eq!(i64_or_default(&None, -3), -3);
    assert_eq!(i64_or_default(&some("-12"), 0), -12);
    assert_eq!(normalize_domain(" Example.TEST\n"), "example.test");
}

#[test]
fn listen_address_gets_every_interface() {
    assert_eq!(normalize_listen_addr(":25"), "0.0.0.0:25");
    assert_eq!(normalize_listen_addr(":3000"), "0.0.0.0:3000");
    assert_eq!(normalize_listen_addr("127.0.0.1:25"), "127.0.0.1:25");
    assert_eq!(normalize_listen_addr(""), "");
    assert_eq!(normalize_listen_addr(" :25"), " :25");
}

#[test]
fn config_clone_keeps_every_setting() {
    let c = Config::from_settings(&Settings {
        mail_domain: some("example.test"),
        banned_sender_domains: some("spam.test"),
        max_message_bytes: some("2048"),
        ..unset()
    });
    let d = c.clone();
    assert_eq!(d.http_addr, c.http_addr);
    assert_eq!(d.smtp_addr, c.smtp_addr);
    assert_eq!(d.domain, "example.test");
    assert_eq!(d.mailbox_blacklist, c.mailbox_blacklist);
    assert_eq!(d.banned_sender_domains, vec!["spam.test"]);
    assert_eq!(d.max_messages_per_mailbox, 200);
    assert_eq!(d.message_ttl_minutes, 1440);
    assert_eq!(d.max_message_bytes, 2048);
}
