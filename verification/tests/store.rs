use forsaken_mail::message::Message;
use forsaken_mail::store::{
    find_latest, mailbox_key, newest_first, prune_messages, remove_id, stamp, Store,
    StoreEvent, StoreEventType,
};
use forsaken_mail::time::{is_expired, Timestamp};

fn at(secs: i64) -> Timestamp {
    Timestamp { secs, nanos: 0 }
}

const UNSET: Timestamp = Timestamp { secs: 0, nanos: 0 };

const T0: i64 = 1_700_000_000;

fn msg(id: &str) -> Message {
    Message {
        id: id.to_string(),
        mailbox: String::new(),
        to: "bob@example.test".to_string(),
        from: "a@x.test".to_string(),
        subject: format!("subject {id}"),
        date: UNSET,
        text: Some("Hello".to_string()),
        html: None,
        headers: Vec::new(),
        received_at: UNSET,
    }
}

fn received(id: &str, secs: i64) -> Message {
    Message { received_at: at(secs), date: at(secs), ..msg(id) }
}

fn ids(messages: &[Message]) -> Vec<String> {
    messages.iter().map(|m| m.id.clone()).collect()
}

fn kinds(events: &[StoreEvent]) -> Vec<(StoreEventType, String, Option<String>, Timestamp)> {
    events.iter().map(|e| (e.event, e.mailbox.clone(), e.message_id.clone(), e.at)).collect()
}

#[test]
fn expiry_is_strictly_before_the_cutoff() {
    let now = Timestamp { secs: T0, nanos: 500 };
    assert!(!is_expired(&Timestamp { secs: T0 - 60, nanos: 500 }, &now, 1));
    assert!(is_expired(&Timestamp { secs: T0 - 60, nanos: 499 }, &now, 1));
    assert!(is_expired(&Timestamp { secs: T0 - 61, nanos: 999 }, &now, 1));
    assert!(!is_expired(&Timestamp { secs: T0 - 59, nanos: 0 }, &now, 1));
    assert!(!is_expired(&Timestamp { secs: T0 + 5, nanos: 0 }, &now, 1));
    assert!(is_expired(&at(T0 - 86_401), &at(T0), 1440));
    assert!(!is_expired(&at(T0 - 86_400), &at(T0), 1440));
    assert!(!is_expired(&at(i64::MIN), &at(i64::MIN), i64::MAX));
    assert!(is_expired(&at(i64::MIN), &at(i64::MAX), 1));
}

#[test]
fn timestamps_are_ordered_by_seconds_then_nanoseconds() {
    let a = Timestamp { secs: 1, nanos: 9 };
    let b = Timestamp { secs: 2, nanos: 0 };
    let c = Timestamp { secs: 2, nanos: 1 };
    assert!(a.before(&b) && b.before(&c) && a.before(&c));
    assert!(!b.before(&a) && !c.before(&b) && !a.before(&a));
    assert!(Timestamp::epoch().unset());
    assert!(Timestamp { secs: 0, nanos: 7 }.unset());
    assert!(!a.unset());
}

#[test]
fn mailbox_key_is_canonical() {
    assert_eq!(mailbox_key("  Bob "), "bob");
    assert_eq!(mailbox_key("bob"), "bob");
    assert_eq!(mailbox_key(""), "");
}

#[test]
fn stamp_fills_what_is_unset() {
    let key = "bob".to_string();
    let m = stamp(msg("a"), &key, at(T0));
    assert_eq!(m.received_at, at(T0));
    assert_eq!(m.date, at(T0));
    assert_eq!(m.mailbox, "bob");
    let m = stamp(Message { date: at(5), ..msg("a") }, &key, at(T0));
    assert_eq!((m.received_at, m.date), (at(T0), at(5)));
    let m = stamp(Message { received_at: at(7), ..msg("a") }, &key, at(T0));
    assert_eq!((m.received_at, m.date), (at(7), at(7)));
    let m = stamp(Message { mailbox: "alice".to_string(), ..msg("a") }, &key, at(T0));
    assert_eq!(m.mailbox, "bob");
}

#[test]
fn prune_drops_expired_then_oldest() {
    let bucket = vec![
        received("old", T0 - 61),
        received("a", T0 - 60),
        received("b", T0 - 30),
        received("c", T0 - 10),
        received("d", T0),
    ];
    assert_eq!(ids(&prune_messages(bucket.clone(), at(T0), 1, 10)), ["a", "b", "c", "d"]);
    assert_eq!(ids(&prune_messages(bucket.clone(), at(T0), 1, 2)), ["c", "d"]);
    assert_eq!(ids(&prune_messages(bucket.clone(), at(T0), 1, 4)), ["a", "b", "c", "d"]);
    assert!(prune_messages(bucket.clone(), at(T0), 1, 0).is_empty());
    assert!(prune_messages(bucket, at(T0 + 3600), 1, 10).is_empty());
    assert!(prune_messages(Vec::new(), at(T0), 1, 10).is_empty());
}

#[test]
fn remove_id_drops_every_message_of_the_id() {
    let bucket = vec![msg("a"), msg("b"), msg("a"), msg("c")];
    assert_eq!(ids(&remove_id(bucket.clone(), &"a".to_string())), ["b", "c"]);
    assert_eq!(ids(&remove_id(bucket, &"x".to_string())), ["a", "b", "a", "c"]);
}

#[test]
fn find_latest_takes_the_newest_of_the_id() {
    let mut bucket = vec![msg("a"), msg("b"), msg("a")];
    bucket[0].subject = "first".to_string();
    bucket[2].subject = "last".to_string();
    assert_eq!(find_latest(&bucket, "a").unwrap().subject, "last");
    assert_eq!(find_latest(&bucket, "b").unwrap().id, "b");
    assert!(find_latest(&bucket, "c").is_none());
    assert!(find_latest(&bucket, " a").is_none());
}

#[test]
fn newest_first_reverses() {
    assert_eq!(ids(&newest_first(&vec![msg("a"), msg("b"), msg("c")])), ["c", "b", "a"]);
    assert!(newest_first(&Vec::new()).is_empty());
}

#[test]
fn new_store_is_empty_and_keeps_its_limits() {
    let mut s = Store::new(3, 0);
    assert_eq!(s.max_messages(), 3);
    assert_eq!(s.ttl_minutes(), 1);
    assert_eq!(Store::new(3, -9).ttl_minutes(), 1);
    assert_eq!(Store::new(3, 1440).ttl_minutes(), 1440);
    assert!(s.list_at("bob", at(T0)).is_empty());
    assert!(s.take_events().is_empty());
}

#[test]
fn add_then_list_newest_first() {
    let mut s = Store::new(10, 60);
    s.add_at("bob", msg("a"), at(T0));
    s.add_at(" Bob ", msg("b"), at(T0 + 1));
    s.add_at("BOB", msg("c"), at(T0 + 1));
    s.add_at("alice", msg("z"), at(T0 + 2));
    let listed = s.list_at("bob", at(T0 + 3));
    assert_eq!(ids(&listed), ["c", "b", "a"]);
    assert_eq!(listed[0].received_at, at(T0 + 1));
    assert_eq!(listed[2].received_at, at(T0));
    assert_eq!(listed[2].date, at(T0));
    assert!(listed.iter().all(|m| m.mailbox == "bob"));
    assert_eq!(ids(&s.list_at("alice", at(T0 + 3))), ["z"]);
    assert!(s.list_at("carol", at(T0 + 3)).is_empty());
}

#[test]
fn list_never_exceeds_the_capacity() {
    let mut s = Store::new(3, 60);
    for i in 0..10 {
        s.add_at("bob", msg(&format!("m{i}")), at(T0 + i));
        assert!(s.list_at("bob", at(T0 + i)).len() <= 3);
    }
    assert_eq!(ids(&s.list_at("bob", at(T0 + 10))), ["m9", "m8", "m7"]);
}

#[test]
fn store_without_capacity_keeps_nothing() {
    let mut s = Store::new(0, 60);
    s.add_at("bob", msg("a"), at(T0));
    assert!(s.list_at("bob", at(T0)).is_empty());
    assert_eq!(s.take_events().len(), 1);
}

#[test]
fn reads_never_show_expired_messages() {
    let mut s = Store::new(10, 1);
    s.add_at("bob", msg("a"), at(T0));
    s.add_at("bob", msg("b"), at(T0 + 30));
    assert_eq!(ids(&s.list_at("bob", at(T0 + 60))), ["b", "a"]);
    assert_eq!(ids(&s.list_at("bob", at(T0 + 61))), ["b"]);
    assert!(s.get_at("bob", "a", at(T0 + 61)).is_none());
    assert_eq!(s.get_at("bob", "b", at(T0 + 61)).unwrap().id, "b");
    assert!(s.list_at("bob", at(T0 + 91)).is_empty());
}

#[test]
fn ttl_expiry() {
    let mut s = Store::new(200, 1);
    s.add_at("bob", msg("a"), at(T0));
    assert_eq!(s.cleanup_expired_at(at(T0 + 120)), 1);
    assert!(s.list_at("bob", at(T0 + 120)).is_empty());
    assert_eq!(s.cleanup_expired_at(at(T0 + 120)), 0);
}

#[test]
fn cleanup_counts_over_all_mailboxes() {
    let mut s = Store::new(10, 1);
    s.add_at("bob", msg("a"), at(T0));
    s.add_at("bob", received("b", T0 + 100), at(T0));
    s.add_at("alice", msg("c"), at(T0));
    s.add_at("alice", msg("d"), at(T0 + 1));
    s.add_at("carol", received("e", T0 + 100), at(T0));
    let _ = s.take_events();
    assert_eq!(s.cleanup_expired_at(at(T0 + 120)), 3);
    assert_eq!(ids(&s.list_at("bob", at(T0 + 120))), ["b"]);
    assert!(s.list_at("alice", at(T0 + 120)).is_empty());
    assert_eq!(ids(&s.list_at("carol", at(T0 + 120))), ["e"]);
    assert!(s.take_events().is_empty());
}

#[test]
fn get_finds_by_exact_id() {
    let mut s = Store::new(10, 60);
    s.add_at("bob", msg("a"), at(T0));
    s.add_at("bob", msg("b"), at(T0));
    assert_eq!(s.get_at("bob", "a", at(T0)).unwrap().subject, "subject a");
    assert_eq!(s.get_at(" BOB ", "b", at(T0)).unwrap().id, "b");
    assert!(s.get_at("bob", "c", at(T0)).is_none());
    assert!(s.get_at("bob", " a ", at(T0)).is_none());
    assert!(s.get_at("alice", "a", at(T0)).is_none());
}

#[test]
fn delete_says_whether_the_listing_held_the_id() {
    let mut s = Store::new(10, 60);
    s.add_at("bob", msg("a"), at(T0));
    s.add_at("bob", msg("b"), at(T0));
    let listed = ids(&s.list_at("bob", at(T0)));
    for id in ["a", "x", "b", "a"] {
        let was_listed = ids(&s.list_at("bob", at(T0))).contains(&id.to_string());
        assert_eq!(s.delete_at("bob", id, at(T0 + 1)), was_listed, "{id}");
        assert!(s.get_at("bob", id, at(T0 + 1)).is_none());
    }
    assert_eq!(listed, ["b", "a"]);
    assert!(s.list_at("bob", at(T0)).is_empty());
}

#[test]
fn delete_takes_the_id_as_it_stands() {
    let mut s = Store::new(10, 60);
    s.add_at("bob", msg("x"), at(T0));
    s.add_at("bob", msg(" y "), at(T0));
    s.add_at("bob", msg(""), at(T0));
    let _ = s.take_events();
    assert!(!s.delete_at("bob", " x", at(T0)));
    assert!(!s.delete_at("bob", "y", at(T0)));
    assert!(!s.delete_at("bob", "  ", at(T0)));
    assert!(!s.delete_at("alice", "x", at(T0)));
    assert_eq!(ids(&s.list_at("bob", at(T0))), ["", " y ", "x"]);
    assert!(s.take_events().is_empty());
    assert!(s.delete_at("bob", " y ", at(T0)));
    assert!(s.get_at("bob", " y ", at(T0)).is_none());
    assert!(s.delete_at("bob", "", at(T0)));
    assert!(s.get_at("bob", "", at(T0)).is_none());
    assert!(s.delete_at("bob", "x", at(T0)));
    assert!(s.list_at("bob", at(T0)).is_empty());
    assert_eq!(
        s.take_events().iter().map(|e| e.message_id.clone()).collect::<Vec<_>>(),
        [Some(" y ".to_string()), Some(String::new()), Some("x".to_string())]
    );
}

#[test]
fn delete_does_not_prune() {
    let mut s = Store::new(10, 1);
    s.add_at("bob", msg("a"), at(T0));
    assert!(s.delete_at("bob", "a", at(T0 + 3600)));
}

#[test]
fn clear_is_idempotent() {
    let mut s = Store::new(10, 60);
    s.add_at("bob", msg("a"), at(T0));
    s.add_at("bob", msg("b"), at(T0));
    s.add_at("alice", msg("c"), at(T0));
    assert_eq!(s.clear_at(" Bob", at(T0 + 1)), 2);
    assert_eq!(s.clear_at("bob", at(T0 + 2)), 0);
    assert!(s.list_at("bob", at(T0 + 2)).is_empty());
    assert_eq!(ids(&s.list_at("alice", at(T0 + 2))), ["c"]);
    assert_eq!(s.clear_at("nobody", at(T0 + 2)), 0);
}

#[test]
fn every_add_publishes_one_added_event() {
    let mut s = Store::new(1, 60);
    s.add_at(" Bob ", msg("a"), at(T0));
    s.add_at("bob", msg("b"), at(T0 + 1));
    assert_eq!(
        kinds(&s.take_events()),
        [
            (StoreEventType::Added, "bob".to_string(), Some("a".to_string()), at(T0)),
            (StoreEventType::Added, "bob".to_string(), Some("b".to_string()), at(T0 + 1)),
        ]
    );
    assert!(s.take_events().is_empty());
}

#[test]
fn delete_and_clear_publish_only_where_something_went() {
    let mut s = Store::new(10, 60);
    s.add_at("bob", msg("a"), at(T0));
    s.add_at("bob", msg("b"), at(T0));
    let _ = s.take_events();
    assert!(!s.delete_at("bob", "x", at(T0 + 1)));
    assert_eq!(s.clear_at("alice", at(T0 + 1)), 0);
    let _ = s.list_at("bob", at(T0 + 1));
    let _ = s.get_at("bob", "a", at(T0 + 1));
    assert!(s.take_events().is_empty());
    assert!(s.delete_at("bob", "a", at(T0 + 2)));
    assert_eq!(s.clear_at("bob", at(T0 + 3)), 1);
    assert_eq!(
        kinds(&s.take_events()),
        [
            (StoreEventType::Deleted, "bob".to_string(), Some("a".to_string()), at(T0 + 2)),
            (StoreEventType::Cleared, "bob".to_string(), None, at(T0 + 3)),
        ]
    );
}

#[test]
fn events_beyond_the_capacity_push_out_the_oldest() {
    let mut s = Store::new(1, 60);
    for i in 0..1030 {
        s.add_at("bob", msg(&format!("m{i}")), at(T0));
    }
    let events = s.take_events();
    assert_eq!(events.len(), 1024);
    assert_eq!(events[0].message_id, Some("m6".to_string()));
    assert_eq!(events[1023].message_id, Some("m1029".to_string()));
}

#[test]
fn clock_variants_use_the_current_time() {
    let mut s = Store::new(2, 60);
    s.add("bob", msg("a"));
    s.add("bob", received("late", i64::MAX));
    s.add("bob", received("stale", 5));
    let listed = s.list("bob");
    assert_eq!(ids(&listed), ["late", "a"]);
    assert!(listed[1].received_at.secs > 1_600_000_000);
    assert!(listed[1].received_at.nanos < 1_000_000_000);
    assert_eq!(s.get("bob", "a").unwrap().id, "a");
    assert_eq!(s.cleanup_expired(), 0);
    assert!(s.delete("bob", "a"));
    assert_eq!(s.clear("bob"), 1);
    let events = s.take_events();
    assert_eq!(events.len(), 5);
    assert!(events.iter().all(|e| e.at.secs > 1_600_000_000));
}

#[test]
fn event_clone_keeps_every_field() {
    let e = StoreEvent {
        event: StoreEventType::Deleted,
        mailbox: "bob".to_string(),
        message_id: Some("a".to_string()),
        at: at(9),
    };
    assert_eq!(kinds(&[e.clone()]), kinds(&[e]));
}
