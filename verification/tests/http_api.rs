use forsaken_mail::config::{Config, Settings};
use forsaken_mail::http_api::{
    clear_mailbox, delete_by_mailbox, email_input, extension, get_by_email, health, list_by_email,
    normalize_static_path, pick_static, request_id, request_target, static_candidates,
    static_not_found, summarize, write_message_detail, write_message_list, ApiError, LongPoll,
    PollInput, PollOutput,
};
use forsaken_mail::message::Message;
use forsaken_mail::smtp_server::Session;
use forsaken_mail::store::{Store, StoreEvent, StoreEventType};
use forsaken_mail::time::Timestamp;

fn config(domain: &str) -> Config {
    Config::from_settings(&Settings {
        http_addr: None,
        smtp_addr: None,
        mail_domain: Some(domain.to_string()),
        mailbox_blacklist: None,
        banned_sender_domains: None,
        max_messages_per_mailbox: None,
        message_ttl_minutes: None,
        max_message_bytes: None,
    })
}

fn msg(id: &str, text: &str) -> Message {
    Message {
        id: id.to_string(),
        mailbox: String::new(),
        to: "bob@example.test".to_string(),
        from: "a@x.test".to_string(),
        subject: format!("subject {id}"),
        date: Timestamp { secs: 0, nanos: 0 },
        text: Some(text.to_string()),
        html: None,
        headers: Vec::new(),
        received_at: Timestamp { secs: 0, nanos: 0 },
    }
}

fn filled() -> Store {
    let mut store = Store::new(10, 60);
    store.add("bob", msg("a", "first  message"));
    store.add("bob", msg("b", "second"));
    store.add("alice", msg("c", "third"));
    let _ = store.take_events();
    store
}

fn error<T: std::fmt::Debug>(r: Result<T, ApiError>) -> (u16, String) {
    let e = r.unwrap_err();
    (e.status, e.message)
}

fn event(mailbox: &str, id: &str) -> StoreEvent {
    StoreEvent {
        event: StoreEventType::Added,
        mailbox: mailbox.to_string(),
        message_id: Some(id.to_string()),
        at: Timestamp { secs: 5, nanos: 0 },
    }
}

#[test]
fn health_says_ok() {
    let h = health("1.2.3");
    assert_eq!((h.status.as_str(), h.version.as_str()), ("ok", "1.2.3"));
}

#[test]
fn static_path_drops_what_does_not_count() {
    assert_eq!(normalize_static_path("/css/site.css"), "css/site.css");
    assert_eq!(normalize_static_path("//a/./b/../c//"), "a/b/c");
    assert_eq!(normalize_static_path("/../../etc/passwd"), "etc/passwd");
    assert_eq!(normalize_static_path("  /index.html "), "index.html");
    assert_eq!(normalize_static_path("/"), "");
    assert_eq!(normalize_static_path(""), "");
    assert_eq!(normalize_static_path("   "), "");
    assert_eq!(normalize_static_path("/.../x"), ".../x");
    assert_eq!(normalize_static_path("a / b"), "a / b");
}

#[test]
fn static_candidates_are_tried_in_order() {
    assert_eq!(static_candidates("/"), ["index.html"]);
    assert_eq!(static_candidates(""), ["index.html"]);
    assert_eq!(static_candidates("/app.js"), ["app.js", "app.js/index.html"]);
    assert_eq!(static_candidates("/docs/"), ["docs", "docs/index.html"]);
    assert_eq!(static_candidates("/a/../b"), ["a/b", "a/b/index.html"]);
}

#[test]
fn first_present_candidate_wins() {
    let candidates = vec!["docs".to_string(), "docs/index.html".to_string()];
    let asset = pick_static(&candidates, &vec![false, true]).unwrap();
    assert_eq!((asset.index, asset.content_type.as_str()), (1, "text/html"));
    let asset = pick_static(&candidates, &vec![true, true]).unwrap();
    assert_eq!((asset.index, asset.content_type.as_str()), (0, "application/octet-stream"));
    assert!(pick_static(&candidates, &vec![false, false]).is_none());
    assert!(pick_static(&candidates, &Vec::new()).is_none());
    assert!(pick_static(&candidates, &vec![false, false, true]).is_none());
    assert!(pick_static(&Vec::new(), &vec![true]).is_none());
}

#[test]
fn content_type_follows_the_extension() {
    let type_of = |name: &str| pick_static(&vec![name.to_string()], &vec![true]).unwrap().content_type;
    assert_eq!(type_of("site.css"), "text/css");
    assert_eq!(type_of("logo.PNG"), "image/png");
    assert_eq!(type_of("data.json"), "application/json");
    assert_eq!(type_of("README"), "application/octet-stream");
}

#[test]
fn extension_is_what_follows_the_last_dot_of_the_last_segment() {
    assert_eq!(extension("index.html"), "html");
    assert_eq!(extension("a/b.tar.gz"), "gz");
    assert_eq!(extension("css.d/site"), "");
    assert_eq!(extension("a.b/c.D"), "D");
    assert_eq!(extension(".bashrc"), "");
    assert_eq!(extension("x/.hidden"), "");
    assert_eq!(extension("x/.hidden.txt"), "txt");
    assert_eq!(extension("file."), "");
    assert_eq!(extension(""), "");
    assert_eq!(extension("README"), "");
}

#[test]
fn extension_agrees_with_paths_of_std() {
    for path in [
        "index.html", "a/b.tar.gz", "css.d/site", "a.b/c.D", ".bashrc", "x/.hidden",
        "x/.hidden.txt", "file.", "README", "a/b/c.min.js", "...", "a/...b", "\u{e9}.\u{e9}",
    ] {
        let expected = std::path::Path::new(path)
            .extension()
            .and_then(|e| e.to_str())
            .unwrap_or_default();
        assert_eq!(extension(path), expected, "{path}");
    }
}

#[test]
fn content_type_is_that_of_the_extension() {
    for (name, kind) in [
        ("docs/index.html", "text/html"),
        ("a.b.css", "text/css"),
        ("app.JS", "text/javascript"),
        ("css.d/site", "application/octet-stream"),
        (".css", "application/octet-stream"),
        ("file.", "application/octet-stream"),
        ("x.unknown-extension", "application/octet-stream"),
    ] {
        let asset = pick_static(&vec![name.to_string()], &vec![true]).unwrap();
        let by_path = mime_guess::from_path(name).first_or_octet_stream();
        assert_eq!(asset.content_type, by_path.essence_str(), "{name}");
        assert_eq!(asset.content_type, kind, "{name}");
    }
}

#[test]
fn static_path_never_ends_with_a_slash() {
    for path in ["/docs/", "/a//", "///", "/a/./", "/a/../", " /x/ ", "/x/ "] {
        assert!(!normalize_static_path(path).ends_with('/'), "{path:?}");
    }
}

#[test]
fn missing_static_file_is_not_found() {
    let e = static_not_found("/nope.txt");
    assert_eq!((e.status, e.message.as_str()), (404, "static file not found: /nope.txt"));
}

#[test]
fn email_parameter_must_not_be_blank() {
    assert_eq!(email_input(Some(" bob@example.test ")).unwrap(), "bob@example.test");
    let missing = (400, "missing email query parameter".to_string());
    assert_eq!(error(email_input(None)), missing);
    assert_eq!(error(email_input(Some(""))), missing);
    assert_eq!(error(email_input(Some("  \t"))), missing);
}

#[test]
fn message_id_must_not_be_blank() {
    assert_eq!(request_id(" abc ").unwrap(), "abc");
    assert_eq!(error(request_id("")), (400, "missing message id".to_string()));
    assert_eq!(error(request_id(" \n")), (400, "missing message id".to_string()));
}

#[test]
fn target_is_the_normalized_mailbox() {
    let cfg = config("example.test");
    assert_eq!(
        request_target(&cfg, " Bob ").unwrap(),
        ("bob".to_string(), "bob@example.test".to_string())
    );
    assert_eq!(
        error(request_target(&cfg, "bob@other.test")),
        (400, "email domain must be example.test".to_string())
    );
    assert_eq!(error(request_target(&cfg, "b b")), (400, "invalid mailbox".to_string()));
    assert_eq!(error(request_target(&cfg, "@")), (400, "invalid email address".to_string()));
}

#[test]
fn constructors_set_the_status() {
    assert_eq!(ApiError::bad_request("a".to_string()).status, 400);
    assert_eq!(ApiError::not_found("b".to_string()).status, 404);
    let e = ApiError::service_unavailable("c".to_string());
    assert_eq!((e.status, e.message.as_str()), (503, "c"));
}

#[test]
fn list_answers_with_summaries_newest_first() {
    let cfg = config("example.test");
    let mut store = filled();
    let r = write_message_list(&cfg, &mut store, "Bob@example.test").unwrap();
    assert_eq!((r.mailbox.as_str(), r.email.as_str(), r.count), ("bob", "bob@example.test", 2));
    assert_eq!(r.messages.iter().map(|m| m.id.as_str()).collect::<Vec<_>>(), ["b", "a"]);
    assert_eq!(r.messages[1].preview, "first message");
    assert_eq!(r.messages[1].subject, "subject a");
    let r = write_message_list(&cfg, &mut store, "nobody").unwrap();
    assert_eq!((r.count, r.messages.len()), (0, 0));
    assert_eq!(
        error(write_message_list(&cfg, &mut store, "-bad")),
        (400, "invalid mailbox".to_string())
    );
}

#[test]
fn list_by_email_needs_the_parameter() {
    let cfg = config("example.test");
    let mut store = filled();
    assert_eq!(list_by_email(&cfg, &mut store, Some(" alice@example.test ")).unwrap().count, 1);
    assert_eq!(
        error(list_by_email(&cfg, &mut store, None)),
        (400, "missing email query parameter".to_string())
    );
    assert_eq!(
        error(list_by_email(&cfg, &mut store, Some("alice@other.test"))),
        (400, "email domain must be example.test".to_string())
    );
}

#[test]
fn detail_answers_with_the_message() {
    let cfg = config("example.test");
    let mut store = filled();
    let r = write_message_detail(&cfg, &mut store, "bob", " a ").unwrap();
    assert_eq!((r.mailbox.as_str(), r.email.as_str()), ("bob", "bob@example.test"));
    assert_eq!((r.message.id.as_str(), r.message.subject.as_str()), ("a", "subject a"));
    assert_eq!(
        error(write_message_detail(&cfg, &mut store, "bob", "zzz")),
        (404, "message not found".to_string())
    );
    assert_eq!(
        error(write_message_detail(&cfg, &mut store, "alice", "a")),
        (404, "message not found".to_string())
    );
    assert_eq!(
        error(write_message_detail(&cfg, &mut store, "bob", "  ")),
        (400, "missing message id".to_string())
    );
    assert_eq!(
        error(write_message_detail(&cfg, &mut store, "b@d@", "  ")),
        (400, "invalid email address".to_string())
    );
}

#[test]
fn get_by_email_checks_the_parameter_first() {
    let cfg = config("example.test");
    let mut store = filled();
    assert_eq!(get_by_email(&cfg, &mut store, "c", Some("alice@example.test")).unwrap().message.id, "c");
    assert_eq!(
        error(get_by_email(&cfg, &mut store, "", None)),
        (400, "missing email query parameter".to_string())
    );
    assert_eq!(
        error(get_by_email(&cfg, &mut store, "", Some("alice"))),
        (400, "missing message id".to_string())
    );
}

#[test]
fn delete_answers_whether_a_message_went() {
    let cfg = config("example.test");
    let mut store = filled();
    let r = delete_by_mailbox(&cfg, &mut store, "bob", " a ").unwrap();
    assert_eq!((r.mailbox.as_str(), r.email.as_str(), r.deleted), ("bob", "bob@example.test", true));
    assert!(!delete_by_mailbox(&cfg, &mut store, "bob", "a").unwrap().deleted);
    assert_eq!(
        error(delete_by_mailbox(&cfg, &mut store, "bob", "")),
        (400, "missing message id".to_string())
    );
    assert_eq!(
        error(delete_by_mailbox(&cfg, &mut store, "", "a")),
        (400, "invalid mailbox".to_string())
    );
    let events = store.take_events();
    assert_eq!(events.len(), 1);
    assert_eq!(events[0].event, StoreEventType::Deleted);
    assert_eq!(events[0].message_id, Some("a".to_string()));
}

#[test]
fn clear_answers_how_many_went() {
    let cfg = config("");
    let mut store = filled();
    let r = clear_mailbox(&cfg, &mut store, "bob").unwrap();
    assert_eq!((r.mailbox.as_str(), r.email.as_str(), r.removed), ("bob", "bob", 2));
    assert_eq!(clear_mailbox(&cfg, &mut store, "bob").unwrap().removed, 0);
    assert_eq!(error(clear_mailbox(&cfg, &mut store, "Ü")), (400, "invalid mailbox".to_string()));
    assert_eq!(write_message_list(&cfg, &mut store, "alice").unwrap().count, 1);
}

#[test]
fn summaries_keep_the_order() {
    let s = summarize(&vec![msg("a", "x"), msg("b", "y")]);
    assert_eq!(s.iter().map(|m| m.preview.as_str()).collect::<Vec<_>>(), ["x", "y"]);
}

#[test]
fn long_poll() {
    let cfg = config("example.test");
    let mut bob = LongPoll::begin(&cfg, "Bob").unwrap();
    let mut alice = LongPoll::begin(&cfg, "alice@example.test").unwrap();
    assert_eq!((bob.mailbox.as_str(), bob.remaining_ms), ("bob", 25000));

    let mut store = Store::new(10, 60);
    let mut session = Session::new();
    for line in [
        "MAIL FROM:<a@x.test>\r\n",
        "RCPT TO:<bob@example.test>\r\n",
        "DATA\r\n",
        "Subject: Hi\r\n",
        "\r\n",
        "Hello\r\n",
        ".\r\n",
    ] {
        let _ = session.step(&cfg, &mut store, line);
    }
    let id = store.list("bob")[0].id.clone();
    let events = store.take_events();
    assert_eq!(events.len(), 1);

    match bob.next(PollInput::Event(events[0].clone()), 1200) {
        PollOutput::Deliver(e) => {
            assert_eq!(e.event, StoreEventType::Added);
            assert_eq!(e.mailbox, "bob");
            assert_eq!(e.message_id, Some(id));
        }
        other => panic!("{other:?}"),
    }
    assert!(matches!(
        alice.next(PollInput::Event(events[0].clone()), 1200),
        PollOutput::Wait(23800)
    ));
    assert!(matches!(alice.next(PollInput::TimedOut, 23800), PollOutput::NoContent));
    assert_eq!(alice.remaining_ms, 0);
}

#[test]
fn long_poll_waits_within_what_is_left_of_its_budget() {
    let cfg = config("");
    let mut poll = LongPoll::begin(&cfg, "bob").unwrap();
    assert!(matches!(poll.next(PollInput::Lagged, 5000), PollOutput::Wait(20000)));
    assert!(matches!(poll.next(PollInput::Event(event("alice", "x")), 19999), PollOutput::Wait(1)));
    assert!(matches!(poll.next(PollInput::Event(event("alice", "y")), 1), PollOutput::NoContent));
    let mut poll = LongPoll::begin(&cfg, "bob").unwrap();
    assert!(matches!(poll.next(PollInput::Lagged, 30000), PollOutput::NoContent));
    let mut poll = LongPoll::begin(&cfg, "bob").unwrap();
    assert!(matches!(poll.next(PollInput::Event(event("bob", "z")), 30000), PollOutput::Deliver(_)));
}

#[test]
fn long_poll_on_a_closed_feed_is_unavailable() {
    let cfg = config("");
    let mut poll = LongPoll::begin(&cfg, "bob").unwrap();
    match poll.next(PollInput::Closed, 10) {
        PollOutput::Unavailable(e) => {
            assert_eq!((e.status, e.message.as_str()), (503, "event stream closed"))
        }
        other => panic!("{other:?}"),
    }
}

#[test]
fn long_poll_refuses_a_bad_mailbox() {
    let cfg = config("example.test");
    assert_eq!(error(LongPoll::begin(&cfg, "no such box")), (400, "invalid mailbox".to_string()));
}
