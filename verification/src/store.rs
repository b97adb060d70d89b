//! The message store: per-mailbox buckets under a capacity and a time to
//! live, and the events that tell observers what changed.
//!
//! [`StoreModel`] is the store as mathematics: a map from mailbox to the
//! messages of its bucket, oldest first, and the events waiting to be handed
//! out. Each operation of [`Store`] is stated as the step that the model
//! takes.

use crate::mail_parser::opt_view;
use crate::message::{lemma_message_views_push, message_views, Message, MessageView};
use crate::text::{canonical, canonical_chars, chars_of, equal, text_of};
use crate::time::{current_time, expired, is_expired, Timestamp};
use vstd::prelude::*;

verus! {

/// How many events wait for observers at most; older ones are dropped.
pub const EVENT_CAPACITY: usize = 1024;

/// What happened to a mailbox.
#[derive(Clone, Copy, Debug, PartialEq, Eq, Structural)]
pub enum StoreEventType {
    Added,
    Deleted,
    Cleared,
}

/// A change of one mailbox; `message_id` is absent where the mailbox was
/// cleared.
#[derive(Debug)]
pub struct StoreEvent {
    pub event: StoreEventType,
    pub mailbox: String,
    pub message_id: Option<String>,
    pub at: Timestamp,
}

/// What a [`StoreEvent`] holds, as mathematics.
pub struct StoreEventView {
    pub event: StoreEventType,
    pub mailbox: Seq<char>,
    pub message_id: Option<Seq<char>>,
    pub at: Timestamp,
}

impl View for StoreEvent {
    type V = StoreEventView;

    open spec fn view(&self) -> StoreEventView {
        StoreEventView {
            event: self.event,
            mailbox: self.mailbox@,
            message_id: opt_view(self.message_id),
            at: self.at,
        }
    }
}

impl Clone for StoreEvent {
    fn clone(&self) -> (r: Self)
        ensures
            r@ == self@,
    {
        StoreEvent {
            event: self.event,
            mailbox: self.mailbox.clone(),
            message_id: crate::mail_parser::clone_opt(&self.message_id),
            at: self.at,
        }
    }
}

/// The views of a vector of events, in order.
pub open spec fn event_views(v: Seq<StoreEvent>) -> Seq<StoreEventView> {
    Seq::new(v.len(), |i: int| v[i]@)
}

/// The test that a message passes while it is no older than the time to live.
pub open spec fn is_fresh(now: Timestamp, ttl_minutes: int) -> spec_fn(MessageView) -> bool {
    |m: MessageView| !expired(m.received_at, now, ttl_minutes)
}

/// The test that a message passes unless it has the given id.
pub open spec fn has_other_id(id: Seq<char>) -> spec_fn(MessageView) -> bool {
    |m: MessageView| m.id != id
}

/// The messages that are no older than the time to live, in order.
pub open spec fn fresh(msgs: Seq<MessageView>, now: Timestamp, ttl_minutes: int) -> Seq<
    MessageView,
> {
    msgs.filter(is_fresh(now, ttl_minutes))
}

/// The last `max` items, or all where there are no more.
pub open spec fn newest<T>(items: Seq<T>, max: nat) -> Seq<T> {
    if items.len() > max {
        items.skip(items.len() - max)
    } else {
        items
    }
}

/// A bucket after pruning: without what has expired, and of the rest the
/// newest `max`.
pub open spec fn pruned(msgs: Seq<MessageView>, now: Timestamp, ttl_minutes: int, max: nat) -> Seq<
    MessageView,
> {
    newest(fresh(msgs, now, ttl_minutes), max)
}

/// The messages without those of the given id.
pub open spec fn without_id(msgs: Seq<MessageView>, id: Seq<char>) -> Seq<MessageView> {
    msgs.filter(has_other_id(id))
}

/// Whether one of the messages has the given id.
pub open spec fn has_id(msgs: Seq<MessageView>, id: Seq<char>) -> bool {
    exists|i: int| 0 <= i < msgs.len() && (#[trigger] msgs[i]).id == id
}

/// The newest message of the given id.
pub open spec fn latest_with_id(msgs: Seq<MessageView>, id: Seq<char>) -> Option<MessageView>
    decreases msgs.len(),
{
    if msgs.len() == 0 {
        None
    } else if msgs.last().id == id {
        Some(msgs.last())
    } else {
        latest_with_id(msgs.drop_last(), id)
    }
}

/// A message as it enters the bucket `key` at `now`: received now unless it
/// says when, dated as received unless it has a date, and of that mailbox.
pub open spec fn stamped(m: MessageView, key: Seq<char>, now: Timestamp) -> MessageView {
    let received_at: Timestamp = if m.received_at.is_unset() {
        now
    } else {
        m.received_at
    };
    MessageView {
        received_at,
        date: if m.date.is_unset() {
            received_at
        } else {
            m.date
        },
        mailbox: key,
        ..m
    }
}

/// Whether the messages are in the order of their arrival times.
pub open spec fn time_ordered(msgs: Seq<MessageView>) -> bool {
    forall|i: int, j: int|
        0 <= i <= j < msgs.len() ==> (#[trigger] msgs[i]).received_at.not_after(
            (#[trigger] msgs[j]).received_at,
        )
}

/// The store as mathematics.
pub struct StoreModel {
    /// The bucket of each mailbox that has messages, oldest message first.
    pub buckets: Map<Seq<char>, Seq<MessageView>>,
    /// The events that no observer has taken yet, oldest first.
    pub pending: Seq<StoreEventView>,
    /// How many messages a bucket holds at most.
    pub max_messages: nat,
    /// How many minutes a message is kept.
    pub ttl_minutes: int,
}

impl StoreModel {
    /// The messages of a mailbox, oldest first; none where it has no bucket.
    pub open spec fn bucket(self, key: Seq<char>) -> Seq<MessageView> {
        if self.buckets.dom().contains(key) {
            self.buckets[key]
        } else {
            Seq::empty()
        }
    }

    /// What holds of every store: no bucket is empty or over the capacity,
    /// each message lies in the bucket of its mailbox, and no more events
    /// wait than the capacity for events allows.
    pub open spec fn wf(self) -> bool {
        &&& forall|k: Seq<char>| #[trigger]
            self.buckets.dom().contains(k) ==> 0 < self.buckets[k].len() <= self.max_messages
        &&& forall|k: Seq<char>, i: int|
            self.buckets.dom().contains(k) && 0 <= i < self.buckets[k].len() ==> (
            #[trigger] self.buckets[k][i]).mailbox == k
        &&& self.pending.len() <= EVENT_CAPACITY
    }

    /// The store with the bucket of `key` replaced; an empty bucket is
    /// removed.
    pub open spec fn with_bucket(self, key: Seq<char>, msgs: Seq<MessageView>) -> StoreModel {
        StoreModel {
            buckets: if msgs.len() == 0 {
                self.buckets.remove(key)
            } else {
                self.buckets.insert(key, msgs)
            },
            ..self
        }
    }

    /// The store with one more event waiting, the oldest dropped where the
    /// capacity is exceeded.
    pub open spec fn published(self, event: StoreEventView) -> StoreModel {
        StoreModel { pending: newest(self.pending.push(event), EVENT_CAPACITY as nat), ..self }
    }

    /// The store with no event waiting.
    pub open spec fn drained(self) -> StoreModel {
        StoreModel { pending: Seq::empty(), ..self }
    }

    /// The store after the bucket of `key` was pruned at `now`.
    pub open spec fn touched(self, key: Seq<char>, now: Timestamp) -> StoreModel {
        self.with_bucket(
            key,
            pruned(self.bucket(key), now, self.ttl_minutes, self.max_messages),
        )
    }

    /// The store after `message` was added to `mailbox` at `now`: the
    /// message is stamped and appended, the bucket pruned, and an `Added`
    /// event published.
    pub open spec fn add(self, mailbox: Seq<char>, message: MessageView, now: Timestamp)
        -> StoreModel {
        let key: Seq<char> = canonical(mailbox);
        self.with_bucket(
            key,
            pruned(
                self.bucket(key).push(stamped(message, key, now)),
                now,
                self.ttl_minutes,
                self.max_messages,
            ),
        ).published(
            StoreEventView {
                event: StoreEventType::Added,
                mailbox: key,
                message_id: Some(message.id),
                at: now,
            },
        )
    }

    /// The store after a listing of `mailbox` at `now`, and the listing: the
    /// pruned bucket, newest message first.
    pub open spec fn list(self, mailbox: Seq<char>, now: Timestamp) -> (StoreModel, Seq<MessageView>) {
        let after: StoreModel = self.touched(canonical(mailbox), now);
        (after, after.bucket(canonical(mailbox)).reverse())
    }

    /// The store after a lookup in `mailbox` at `now`, and what was found:
    /// the newest message of that id in the pruned bucket.
    pub open spec fn get(self, mailbox: Seq<char>, id: Seq<char>, now: Timestamp) -> (
        StoreModel,
        Option<MessageView>,
    ) {
        let after: StoreModel = self.touched(canonical(mailbox), now);
        (after, latest_with_id(after.bucket(canonical(mailbox)), id))
    }

    /// The store after the messages of the given id were deleted from
    /// `mailbox`, and whether there was any. The id is taken as it stands
    /// and nothing is pruned. A `Deleted` event is published where a
    /// message went; where none bears the id the store stays as it is.
    pub open spec fn delete(self, mailbox: Seq<char>, id: Seq<char>, now: Timestamp) -> (
        StoreModel,
        bool,
    ) {
        let key: Seq<char> = canonical(mailbox);
        if has_id(self.bucket(key), id) {
            (
                self.with_bucket(key, without_id(self.bucket(key), id)).published(
                    StoreEventView {
                        event: StoreEventType::Deleted,
                        mailbox: key,
                        message_id: Some(id),
                        at: now,
                    },
                ),
                true,
            )
        } else {
            (self, false)
        }
    }

    /// The store after `mailbox` was cleared, and how many messages it held.
    /// A `Cleared` event is published where it held any.
    pub open spec fn clear(self, mailbox: Seq<char>, now: Timestamp) -> (StoreModel, nat) {
        let key: Seq<char> = canonical(mailbox);
        let removed: nat = self.bucket(key).len();
        if removed > 0 {
            (
                self.with_bucket(key, Seq::empty()).published(
                    StoreEventView {
                        event: StoreEventType::Cleared,
                        mailbox: key,
                        message_id: None,
                        at: now,
                    },
                ),
                removed,
            )
        } else {
            (self, 0)
        }
    }

    /// The store after every bucket was pruned at `now`.
    pub open spec fn swept(self, now: Timestamp) -> StoreModel {
        StoreModel {
            buckets: Map::new(
                |k: Seq<char>|
                    pruned(self.bucket(k), now, self.ttl_minutes, self.max_messages).len() > 0,
                |k: Seq<char>| pruned(self.bucket(k), now, self.ttl_minutes, self.max_messages),
            ),
            ..self
        }
    }

    /// How many messages pruning at `now` takes from the buckets of `keys`.
    pub open spec fn removed_in(self, keys: Seq<Seq<char>>, now: Timestamp) -> nat
        decreases keys.len(),
    {
        if keys.len() == 0 {
            0
        } else {
            let b: Seq<MessageView> = self.bucket(keys.last());
            let left: nat = pruned(b, now, self.ttl_minutes, self.max_messages).len();
            self.removed_in(keys.drop_last(), now) + if b.len() >= left {
                (b.len() - left) as nat
            } else {
                0
            }
        }
    }

    /// Whether `keys` names each mailbox that has a bucket, once.
    pub open spec fn enumerated_by(self, keys: Seq<Seq<char>>) -> bool {
        &&& keys.no_duplicates()
        &&& forall|k: Seq<char>| keys.contains(k) <==> self.buckets.dom().contains(k)
    }
}

/// What a filter keeps passes its test and was there before.
pub proof fn lemma_filter_members(msgs: Seq<MessageView>, test: spec_fn(MessageView) -> bool)
    ensures
        msgs.filter(test).len() <= msgs.len(),
        forall|i: int|
            0 <= i < msgs.filter(test).len() ==> test(#[trigger] msgs.filter(test)[i])
                && msgs.contains(msgs.filter(test)[i]),
    decreases msgs.len(),
{
    reveal(Seq::filter);
    if msgs.len() > 0 {
        let rest = msgs.drop_last();
        lemma_filter_members(rest, test);
        let out = msgs.filter(test);
        assert forall|i: int| 0 <= i < out.len() implies test(#[trigger] out[i]) && msgs.contains(
            out[i],
        ) by {
            if i < rest.filter(test).len() {
                assert(out[i] == rest.filter(test)[i]);
                let j = choose|j: int| 0 <= j < rest.len() && rest[j] == out[i];
                assert(msgs[j] == out[i]);
            } else {
                assert(out[i] == msgs.last());
                assert(msgs[msgs.len() - 1] == out[i]);
            }
        }
    }
}

/// What is fresh has not expired and was there before.
pub proof fn lemma_fresh_properties(msgs: Seq<MessageView>, now: Timestamp, ttl_minutes: int)
    ensures
        fresh(msgs, now, ttl_minutes).len() <= msgs.len(),
        forall|i: int|
            0 <= i < fresh(msgs, now, ttl_minutes).len() ==> !expired(
                (#[trigger] fresh(msgs, now, ttl_minutes)[i]).received_at,
                now,
                ttl_minutes,
            ) && msgs.contains(fresh(msgs, now, ttl_minutes)[i]),
{
    lemma_filter_members(msgs, is_fresh(now, ttl_minutes));
}

/// What pruning keeps: at most `max` messages, none of them expired, each
/// one of the bucket.
pub proof fn lemma_pruned_properties(
    msgs: Seq<MessageView>,
    now: Timestamp,
    ttl_minutes: int,
    max: nat,
)
    ensures
        pruned(msgs, now, ttl_minutes, max).len() <= max,
        pruned(msgs, now, ttl_minutes, max).len() <= msgs.len(),
        forall|i: int|
            0 <= i < pruned(msgs, now, ttl_minutes, max).len() ==> !expired(
                (#[trigger] pruned(msgs, now, ttl_minutes, max)[i]).received_at,
                now,
                ttl_minutes,
            ) && msgs.contains(pruned(msgs, now, ttl_minutes, max)[i]),
{
    lemma_fresh_properties(msgs, now, ttl_minutes);
    let f = fresh(msgs, now, ttl_minutes);
    let p = pruned(msgs, now, ttl_minutes, max);
    assert forall|i: int| 0 <= i < p.len() implies !expired(
        (#[trigger] p[i]).received_at,
        now,
        ttl_minutes,
    ) && msgs.contains(p[i]) by {
        if f.len() > max {
            assert(p[i] == f[i + f.len() - max]);
        }
    }
}

/// Replacing a bucket twice is replacing it once, by what came last.
pub proof fn lemma_with_bucket_twice(
    m: StoreModel,
    key: Seq<char>,
    first: Seq<MessageView>,
    second: Seq<MessageView>,
)
    ensures
        m.with_bucket(key, first).with_bucket(key, second) == m.with_bucket(key, second),
{
    assert(m.with_bucket(key, first).with_bucket(key, second).buckets =~= m.with_bucket(
        key,
        second,
    ).buckets);
}

/// Replacing a bucket by itself changes nothing.
pub proof fn lemma_with_bucket_same(m: StoreModel, key: Seq<char>)
    requires
        m.wf(),
    ensures
        m.with_bucket(key, m.bucket(key)) == m,
{
    assert(m.with_bucket(key, m.bucket(key)).buckets =~= m.buckets);
}

/// After a bucket was replaced it is what it was replaced by, and every
/// other bucket is as before.
pub proof fn lemma_with_bucket_reads(
    m: StoreModel,
    key: Seq<char>,
    msgs: Seq<MessageView>,
    other: Seq<char>,
)
    ensures
        m.with_bucket(key, msgs).bucket(key) == msgs,
        other != key ==> m.with_bucket(key, msgs).bucket(other) == m.bucket(other),
{
    assert(m.with_bucket(key, msgs).bucket(key) =~= msgs);
}

/// A filter that drops nothing changes nothing.
pub proof fn lemma_filter_all(msgs: Seq<MessageView>, test: spec_fn(MessageView) -> bool)
    requires
        forall|i: int| 0 <= i < msgs.len() ==> test(#[trigger] msgs[i]),
    ensures
        msgs.filter(test) == msgs,
    decreases msgs.len(),
{
    reveal(Seq::filter);
    if msgs.len() > 0 {
        let rest = msgs.drop_last();
        lemma_filter_all(rest, test);
        assert(rest.push(msgs.last()) =~= msgs);
    }
}

/// Deleting by id shortens a bucket exactly where it holds that id.
pub proof fn lemma_without_id_len(msgs: Seq<MessageView>, id: Seq<char>)
    ensures
        without_id(msgs, id).len() <= msgs.len(),
        has_id(msgs, id) <==> without_id(msgs, id).len() < msgs.len(),
        !has_id(msgs, id) ==> without_id(msgs, id) == msgs,
        !has_id(without_id(msgs, id), id),
{
    let test = has_other_id(id);
    lemma_filter_members(msgs, test);
    if has_id(msgs, id) {
        let i = choose|i: int| 0 <= i < msgs.len() && (#[trigger] msgs[i]).id == id;
        lemma_filter_drops(msgs, test, i);
    } else {
        lemma_filter_all(msgs, test);
    }
}

/// A filter that drops a message gives a shorter sequence.
pub proof fn lemma_filter_drops(msgs: Seq<MessageView>, test: spec_fn(MessageView) -> bool, i: int)
    requires
        0 <= i < msgs.len(),
        !test(msgs[i]),
    ensures
        msgs.filter(test).len() < msgs.len(),
    decreases msgs.len(),
{
    reveal(Seq::filter);
    let rest = msgs.drop_last();
    lemma_filter_members(rest, test);
    if i < msgs.len() - 1 {
        assert(rest[i] == msgs[i]);
        lemma_filter_drops(rest, test, i);
    }
}

/// Messages that were taken from a bucket still lie in its mailbox.
pub proof fn lemma_kept_lie_in_mailbox(kept: Seq<Message>, held: Seq<Message>, key: Seq<char>)
    requires
        forall|j: int|
            0 <= j < kept.len() ==> message_views(held).contains(#[trigger] message_views(kept)[j]),
        forall|i: int| 0 <= i < held.len() ==> (#[trigger] held[i])@.mailbox == key,
    ensures
        forall|j: int| 0 <= j < kept.len() ==> (#[trigger] kept[j])@.mailbox == key,
{
    let before = message_views(held);
    assert forall|j: int| 0 <= j < kept.len() implies (#[trigger] kept[j])@.mailbox == key by {
        let v = message_views(kept)[j];
        assert(before.contains(v));
        let i = choose|i: int| 0 <= i < before.len() && before[i] == v;
        assert(before[i] == held[i]@);
    }
}

/// Whether the message has expired at `now` under the given time to live.
fn message_expired(m: &Message, now: &Timestamp, ttl_minutes: i64) -> (b: bool)
    ensures
        b == !is_fresh(*now, ttl_minutes as int)(m@),
{
    is_expired(&m.received_at, now, ttl_minutes)
}

/// Prunes a bucket: drops what has expired at `now`, then the oldest
/// messages beyond `max_messages`.
pub fn prune_messages(
    messages: Vec<Message>,
    now: Timestamp,
    ttl_minutes: i64,
    max_messages: usize,
) -> (r: Vec<Message>)
    ensures
        message_views(r@) == pruned(
            message_views(messages@),
            now,
            ttl_minutes as int,
            max_messages as nat,
        ),
{
    broadcast use vstd::std_specs::vec::group_vec_axioms;

    let ghost all = message_views(messages@);
    let ghost test = is_fresh(now, ttl_minutes as int);
    let mut kept: Vec<Message> = Vec::new();
    assert(all.take(0) =~= Seq::<MessageView>::empty());
    assert(message_views(kept@) =~= Seq::<MessageView>::empty());
    assert(Seq::<MessageView>::empty().filter(test) =~= Seq::<MessageView>::empty()) by {
        lemma_filter_members(Seq::<MessageView>::empty(), test);
    }
    for m in it: messages
        invariant
            message_views(it.seq()) == all,
            test == is_fresh(now, ttl_minutes as int),
            message_views(kept@) == all.take(it.index() as int).filter(test),
    {
        let ghost i = it.index() as int;
        proof {
            assert(all[i] == m@);
            assert(all.take(i).push(m@) =~= all.take(i + 1));
            all.take(i).lemma_filter_push(m@, test);
            lemma_message_views_push(kept@, m);
        }
        if !message_expired(&m, &now, ttl_minutes) {
            kept.push(m);
        }
    }
    assert(all.take(all.len() as int) =~= all);
    if kept.len() > max_messages {
        let keep_from: usize = kept.len() - max_messages;
        let ghost before = kept@;
        let tail = kept.split_off(keep_from);
        assert(message_views(tail@) =~= message_views(before).skip(keep_from as int));
        tail
    } else {
        kept
    }
}

/// The messages of a bucket without those of the given id.
pub fn remove_id(messages: Vec<Message>, id: &String) -> (r: Vec<Message>)
    ensures
        message_views(r@) == without_id(message_views(messages@), id@),
{
    broadcast use vstd::std_specs::vec::group_vec_axioms;

    let ghost all = message_views(messages@);
    let ghost test = has_other_id(id@);
    let mut kept: Vec<Message> = Vec::new();
    assert(all.take(0) =~= Seq::<MessageView>::empty());
    assert(message_views(kept@) =~= Seq::<MessageView>::empty());
    assert(Seq::<MessageView>::empty().filter(test) =~= Seq::<MessageView>::empty()) by {
        lemma_filter_members(Seq::<MessageView>::empty(), test);
    }
    for m in it: messages
        invariant
            message_views(it.seq()) == all,
            test == has_other_id(id@),
            message_views(kept@) == all.take(it.index() as int).filter(test),
    {
        let ghost i = it.index() as int;
        proof {
            assert(all[i] == m@);
            assert(all.take(i).push(m@) =~= all.take(i + 1));
            all.take(i).lemma_filter_push(m@, test);
            lemma_message_views_push(kept@, m);
        }
        if m.id != *id {
            kept.push(m);
        }
    }
    assert(all.take(all.len() as int) =~= all);
    kept
}

/// A copy of the newest message of the given id.
pub fn find_latest(messages: &Vec<Message>, id: &str) -> (r: Option<Message>)
    ensures
        match r {
            Some(m) => latest_with_id(message_views(messages@), id@) == Some(m@),
            None => latest_with_id(message_views(messages@), id@) is None,
        },
{
    let wanted = chars_of(id);
    let ghost all = message_views(messages@);
    let mut i: usize = messages.len();
    assert(all.take(i as int) =~= all);
    while i > 0
        invariant
            i <= messages.len(),
            all == message_views(messages@),
            wanted@ == id@,
            latest_with_id(all, id@) == latest_with_id(all.take(i as int), id@),
        decreases i,
    {
        let m = &messages[i - 1];
        proof {
            let upto = all.take(i as int);
            assert(upto.last() == m@);
            assert(upto.drop_last() =~= all.take(i - 1));
        }
        if equal(&chars_of(m.id.as_str()), &wanted) {
            return Some(m.clone());
        }
        i -= 1;
    }
    None
}

/// A copy of the messages, last first.
pub fn newest_first(messages: &Vec<Message>) -> (r: Vec<Message>)
    ensures
        message_views(r@) == message_views(messages@).reverse(),
{
    let ghost all = message_views(messages@);
    let mut r: Vec<Message> = Vec::new();
    let mut i: usize = messages.len();
    while i > 0
        invariant
            i <= messages.len(),
            all == message_views(messages@),
            r.len() == messages.len() - i,
            forall|j: int| 0 <= j < r.len() ==> (#[trigger] r@[j])@ == all[all.len() - 1 - j],
        decreases i,
    {
        r.push(messages[i - 1].clone());
        i -= 1;
    }
    assert(message_views(r@) =~= all.reverse());
    r
}

/// One mailbox and its messages, oldest first.
struct Bucket {
    mailbox: String,
    messages: Vec<Message>,
}

/// The store: a bucket of messages for each mailbox that has any, and the
/// events that wait to be handed to observers.
pub struct Store {
    buckets: Vec<Bucket>,
    pending: Vec<StoreEvent>,
    max_messages: usize,
    ttl_minutes: i64,
}

/// The mailboxes of the buckets, in order.
spec fn names(buckets: Seq<Bucket>) -> Seq<Seq<char>> {
    Seq::new(buckets.len(), |i: int| buckets[i].mailbox@)
}

/// The messages of the last bucket of that mailbox; none without one.
spec fn lookup(buckets: Seq<Bucket>, key: Seq<char>) -> Seq<MessageView>
    decreases buckets.len(),
{
    if buckets.len() == 0 {
        Seq::empty()
    } else if buckets.last().mailbox@ == key {
        message_views(buckets.last().messages@)
    } else {
        lookup(buckets.drop_last(), key)
    }
}

/// Whether the bucket is one that a store may hold under the capacity.
spec fn bucket_ok(b: Bucket, max_messages: usize) -> bool {
    &&& 0 < b.messages@.len() <= max_messages
    &&& forall|j: int| 0 <= j < b.messages@.len() ==> (#[trigger] b.messages@[j])@.mailbox == b.mailbox@
}

/// The map from mailbox to messages that the buckets stand for.
spec fn bucket_map(buckets: Seq<Bucket>) -> Map<Seq<char>, Seq<MessageView>> {
    Map::new(|k: Seq<char>| lookup(buckets, k).len() > 0, |k: Seq<char>| lookup(buckets, k))
}

proof fn lemma_lookup_push(buckets: Seq<Bucket>, b: Bucket, key: Seq<char>)
    ensures
        lookup(buckets.push(b), key) == if b.mailbox@ == key {
            message_views(b.messages@)
        } else {
            lookup(buckets, key)
        },
{
    assert(buckets.push(b).drop_last() =~= buckets);
}

proof fn lemma_lookup_absent(buckets: Seq<Bucket>, key: Seq<char>)
    requires
        !names(buckets).contains(key),
    ensures
        lookup(buckets, key) == Seq::<MessageView>::empty(),
    decreases buckets.len(),
{
    if buckets.len() > 0 {
        let rest = buckets.drop_last();
        assert(names(buckets)[buckets.len() - 1] == buckets.last().mailbox@);
        assert forall|i: int| 0 <= i < rest.len() implies names(rest)[i] != key by {
            assert(names(buckets)[i] == names(rest)[i]);
        }
        lemma_lookup_absent(rest, key);
    }
}

proof fn lemma_lookup_at(buckets: Seq<Bucket>, i: int)
    requires
        names(buckets).no_duplicates(),
        0 <= i < buckets.len(),
    ensures
        lookup(buckets, buckets[i].mailbox@) == message_views(buckets[i].messages@),
    decreases buckets.len(),
{
    let rest = buckets.drop_last();
    let last = buckets.len() - 1;
    if i < last {
        assert(names(buckets)[i] == buckets[i].mailbox@);
        assert(names(buckets)[last] == buckets.last().mailbox@);
        assert forall|a: int, b: int| 0 <= a < rest.len() && 0 <= b < rest.len() && a != b implies names(
            rest,
        )[a] != names(rest)[b] by {
            assert(names(buckets)[a] == names(rest)[a]);
            assert(names(buckets)[b] == names(rest)[b]);
        }
        lemma_lookup_at(rest, i);
    }
}

proof fn lemma_lookup_found(buckets: Seq<Bucket>, key: Seq<char>) -> (i: int)
    requires
        lookup(buckets, key).len() > 0,
    ensures
        0 <= i < buckets.len(),
        buckets[i].mailbox@ == key,
        lookup(buckets, key) == message_views(buckets[i].messages@),
    decreases buckets.len(),
{
    if buckets.last().mailbox@ == key {
        buckets.len() - 1
    } else {
        lemma_lookup_found(buckets.drop_last(), key)
    }
}

proof fn lemma_lookup_remove(buckets: Seq<Bucket>, i: int, key: Seq<char>)
    requires
        names(buckets).no_duplicates(),
        0 <= i < buckets.len(),
    ensures
        names(buckets.remove(i)).no_duplicates(),
        lookup(buckets.remove(i), key) == if key == buckets[i].mailbox@ {
            Seq::<MessageView>::empty()
        } else {
            lookup(buckets, key)
        },
    decreases buckets.len(),
{
    let removed = buckets.remove(i);
    let rest = buckets.drop_last();
    let last = buckets.len() - 1;
    assert forall|a: int, b: int|
        0 <= a < removed.len() && 0 <= b < removed.len() && a != b implies names(removed)[a]
        != names(removed)[b] by {
        let a0 = if a < i {
            a
        } else {
            a + 1
        };
        let b0 = if b < i {
            b
        } else {
            b + 1
        };
        assert(names(buckets)[a0] == names(removed)[a]);
        assert(names(buckets)[b0] == names(removed)[b]);
    }
    assert(names(buckets)[i] == buckets[i].mailbox@);
    assert(names(buckets)[last] == buckets.last().mailbox@);
    if i == last {
        assert(removed =~= rest);
        if key == buckets[i].mailbox@ {
            assert forall|a: int| 0 <= a < rest.len() implies names(rest)[a] != key by {
                assert(names(buckets)[a] == names(rest)[a]);
            }
            lemma_lookup_absent(rest, key);
        }
    } else {
        assert forall|a: int, b: int| 0 <= a < rest.len() && 0 <= b < rest.len() && a != b implies names(
            rest,
        )[a] != names(rest)[b] by {
            assert(names(buckets)[a] == names(rest)[a]);
            assert(names(buckets)[b] == names(rest)[b]);
        }
        lemma_lookup_remove(rest, i, key);
        assert(removed =~= rest.remove(i).push(buckets.last()));
        lemma_lookup_push(rest.remove(i), buckets.last(), key);
        assert(rest[i] == buckets[i]);
    }
}

impl View for Store {
    type V = StoreModel;

    closed spec fn view(&self) -> StoreModel {
        StoreModel {
            buckets: bucket_map(self.buckets@),
            pending: event_views(self.pending@),
            max_messages: self.max_messages as nat,
            ttl_minutes: self.ttl_minutes as int,
        }
    }
}

impl Store {
    /// What every operation of the store keeps: each mailbox has one bucket
    /// at most, and the model is well formed.
    pub closed spec fn wf(&self) -> bool {
        &&& names(self.buckets@).no_duplicates()
        &&& forall|i: int|
            0 <= i < self.buckets@.len() ==> bucket_ok(#[trigger] self.buckets@[i], self.max_messages)
        &&& self.pending@.len() <= EVENT_CAPACITY
        &&& self.ttl_minutes >= 1
    }

    /// A well-formed store has a well-formed model, whose capacity fits a
    /// machine word and whose time to live is a minute at least.
    pub proof fn lemma_wf_model(&self)
        requires
            self.wf(),
        ensures
            self@.wf(),
            self@.max_messages <= usize::MAX,
            1 <= self@.ttl_minutes <= i64::MAX,
    {
        let m = self@;
        assert forall|k: Seq<char>| #[trigger] m.buckets.dom().contains(k) implies 0
            < m.buckets[k].len() <= m.max_messages && forall|j: int|
            0 <= j < m.buckets[k].len() ==> (#[trigger] m.buckets[k][j]).mailbox == k by {
            let i = lemma_lookup_found(self.buckets@, k);
            assert(bucket_ok(self.buckets@[i], self.max_messages));
            assert forall|j: int| 0 <= j < m.buckets[k].len() implies (
            #[trigger] m.buckets[k][j]).mailbox == k by {
                assert(m.buckets[k][j] == self.buckets@[i].messages@[j]@);
            }
        }
    }

    /// An empty store that keeps `max_messages` messages in each mailbox,
    /// each for `ttl_minutes` minutes and for one minute at least.
    pub fn new(max_messages: usize, ttl_minutes: i64) -> (s: Store)
        ensures
            s.wf(),
            s@ == (StoreModel {
                buckets: Map::empty(),
                pending: Seq::empty(),
                max_messages: max_messages as nat,
                ttl_minutes: if ttl_minutes < 1 {
                    1
                } else {
                    ttl_minutes as int
                },
            }),
    {
        let s = Store {
            buckets: Vec::new(),
            pending: Vec::new(),
            max_messages,
            ttl_minutes: if ttl_minutes < 1 {
                1
            } else {
                ttl_minutes
            },
        };
        assert(s@.buckets =~= Map::<Seq<char>, Seq<MessageView>>::empty());
        assert(s@.pending =~= Seq::<StoreEventView>::empty());
        s
    }

    /// How many messages a mailbox keeps at most.
    pub fn max_messages(&self) -> (n: usize)
        ensures
            n == self@.max_messages,
    {
        self.max_messages
    }

    /// How many minutes a message is kept.
    pub fn ttl_minutes(&self) -> (n: i64)
        ensures
            n == self@.ttl_minutes,
    {
        self.ttl_minutes
    }

    /// The index of the bucket of `key`.
    fn position(&self, key: &String) -> (r: Option<usize>)
        requires
            self.wf(),
        ensures
            match r {
                Some(i) => i < self.buckets@.len() && self.buckets@[i as int].mailbox@ == key@
                    && self@.bucket(key@) == message_views(self.buckets@[i as int].messages@)
                    && self@.bucket(key@).len() > 0,
                None => !names(self.buckets@).contains(key@) && self@.bucket(key@).len() == 0,
            },
    {
        let mut i: usize = 0;
        while i < self.buckets.len()
            invariant
                self.wf(),
                i <= self.buckets@.len(),
                forall|j: int| 0 <= j < i ==> #[trigger] names(self.buckets@)[j] != key@,
            decreases self.buckets@.len() - i,
        {
            if self.buckets[i].mailbox == *key {
                proof {
                    lemma_lookup_at(self.buckets@, i as int);
                    assert(bucket_ok(self.buckets@[i as int], self.max_messages));
                }
                return Some(i);
            }
            i += 1;
        }
        proof {
            lemma_lookup_absent(self.buckets@, key@);
        }
        None
    }

    /// Takes the bucket of `key` out of the store and hands out its
    /// messages.
    fn detach(&mut self, key: &String) -> (r: Vec<Message>)
        requires
            old(self).wf(),
        ensures
            final(self).wf(),
            final(self)@ == old(self)@.with_bucket(key@, Seq::empty()),
            message_views(r@) == old(self)@.bucket(key@),
            r@.len() <= old(self)@.max_messages,
            forall|j: int| 0 <= j < r@.len() ==> (#[trigger] r@[j])@.mailbox == key@,
    {
        match self.position(key) {
            Some(i) => {
                let ghost before = self.buckets@;
                let bucket = self.buckets.remove(i);
                proof {
                    assert(bucket_ok(before[i as int], self.max_messages));
                    assert forall|k: Seq<char>| #[trigger]
                        lookup(self.buckets@, k) == if k == key@ {
                            Seq::<MessageView>::empty()
                        } else {
                            lookup(before, k)
                        } by {
                        lemma_lookup_remove(before, i as int, k);
                    }
                    lemma_lookup_remove(before, i as int, key@);
                    assert(bucket_map(self.buckets@) =~= bucket_map(before).remove(key@));
                    assert forall|j: int| 0 <= j < self.buckets@.len() implies bucket_ok(
                        #[trigger] self.buckets@[j],
                        self.max_messages,
                    ) by {
                        let j0 = if j < i {
                            j
                        } else {
                            j + 1
                        };
                        assert(self.buckets@[j] == before[j0]);
                    }
                }
                bucket.messages
            },
            None => {
                proof {
                    assert(bucket_map(self.buckets@).remove(key@) =~= bucket_map(self.buckets@));
                }
                let r: Vec<Message> = Vec::new();
                assert(message_views(r@) =~= Seq::<MessageView>::empty());
                r
            },
        }
    }

    /// Puts the messages into the store as the bucket of `key`, which has
    /// none; no messages, no bucket.
    fn attach(&mut self, key: String, messages: Vec<Message>)
        requires
            old(self).wf(),
            old(self)@.bucket(key@).len() == 0,
            messages@.len() <= old(self)@.max_messages,
            forall|j: int| 0 <= j < messages@.len() ==> (#[trigger] messages@[j])@.mailbox == key@,
        ensures
            final(self).wf(),
            final(self)@ == old(self)@.with_bucket(key@, message_views(messages@)),
    {
        if messages.len() == 0 {
            proof {
                assert(bucket_map(self.buckets@).remove(key@) =~= bucket_map(self.buckets@));
            }
            return ;
        }
        let ghost before = self.buckets@;
        let bucket = Bucket { mailbox: key, messages };
        proof {
            if names(before).contains(key@) {
                let i = choose|i: int| 0 <= i < before.len() && names(before)[i] == key@;
                lemma_lookup_at(before, i);
                assert(bucket_ok(before[i], self.max_messages));
            }
            assert forall|k: Seq<char>| #[trigger]
                lookup(before.push(bucket), k) == if k == key@ {
                    message_views(bucket.messages@)
                } else {
                    lookup(before, k)
                } by {
                lemma_lookup_push(before, bucket, k);
            }
            lemma_lookup_push(before, bucket, key@);
            assert(bucket_map(before.push(bucket)) =~= bucket_map(before).insert(
                key@,
                message_views(bucket.messages@),
            ));
            assert forall|a: int, b: int|
                0 <= a < before.len() + 1 && 0 <= b < before.len() + 1 && a != b implies names(
                before.push(bucket),
            )[a] != names(before.push(bucket))[b] by {
                if a < before.len() {
                    assert(names(before)[a] == names(before.push(bucket))[a]);
                }
                if b < before.len() {
                    assert(names(before)[b] == names(before.push(bucket))[b]);
                }
            }
        }
        self.buckets.push(bucket);
    }

    /// Makes an event wait for observers; the oldest goes where more than
    /// the capacity would wait.
    fn publish(&mut self, event: StoreEvent)
        requires
            old(self).wf(),
        ensures
            final(self).wf(),
            final(self)@ == old(self)@.published(event@),
    {
        let ghost before = event_views(self.pending@);
        self.pending.push(event);
        assert(event_views(self.pending@) =~= before.push(event@));
        if self.pending.len() > EVENT_CAPACITY {
            let ghost pushed = event_views(self.pending@);
            let _ = self.pending.remove(0);
            assert(event_views(self.pending@) =~= pushed.skip(1));
        }
    }

    /// Hands out the events that wait, oldest first, and keeps none.
    pub fn take_events(&mut self) -> (r: Vec<StoreEvent>)
        requires
            old(self).wf(),
        ensures
            final(self).wf(),
            final(self)@ == old(self)@.drained(),
            event_views(r@) == old(self)@.pending,
    {
        let mut taken: Vec<StoreEvent> = Vec::new();
        core::mem::swap(&mut self.pending, &mut taken);
        assert(event_views(self.pending@) =~= Seq::<StoreEventView>::empty());
        taken
    }
}

/// The name under which the store keeps a mailbox: trimmed, in lower case.
pub fn mailbox_key(mailbox: &str) -> (key: String)
    ensures
        key@ == canonical(mailbox@),
{
    text_of(&canonical_chars(&chars_of(mailbox)))
}

/// The message as it enters the bucket `key` at `now`.
pub fn stamp(message: Message, key: &String, now: Timestamp) -> (r: Message)
    ensures
        r@ == stamped(message@, key@, now),
{
    let mut message = message;
    if message.received_at.unset() {
        message.received_at = now;
    }
    if message.date.unset() {
        message.date = message.received_at;
    }
    message.mailbox = key.clone();
    message
}

/// Whether none of the messages is older than the time to live at `now`.
pub open spec fn none_expired(msgs: Seq<MessageView>, now: Timestamp, ttl_minutes: int) -> bool {
    forall|i: int| 0 <= i < msgs.len() ==> !expired((#[trigger] msgs[i]).received_at, now, ttl_minutes)
}

impl Store {
    /// Prunes the bucket of `key` at `now`.
    fn prune_mailbox(&mut self, key: &String, now: Timestamp)
        requires
            old(self).wf(),
        ensures
            final(self).wf(),
            final(self)@ == old(self)@.touched(key@, now),
    {
        let messages = self.detach(key);
        let ghost emptied = self@;
        let ghost before = message_views(messages@);
        let kept = prune_messages(messages, now, self.ttl_minutes, self.max_messages);
        proof {
            lemma_pruned_properties(before, now, self.ttl_minutes as int, self.max_messages as nat);
            lemma_with_bucket_reads(old(self)@, key@, Seq::empty(), key@);
            lemma_kept_lie_in_mailbox(kept@, messages@, key@);
            lemma_with_bucket_twice(old(self)@, key@, Seq::empty(), message_views(kept@));
        }
        self.attach(key.clone(), kept);
    }

    /// Adds a message to a mailbox at `now`.
    ///
    /// The message is stamped: received at `now` unless it says when, dated
    /// as received unless it has a date, and of the mailbox it is added to.
    /// It is appended to the bucket, the bucket is pruned, and an `Added`
    /// event is published.
    pub fn add_at(&mut self, mailbox: &str, message: Message, now: Timestamp)
        requires
            old(self).wf(),
        ensures
            final(self).wf(),
            final(self)@ == old(self)@.add(mailbox@, message@, now),
    {
        let key = mailbox_key(mailbox);
        let id = message.id.clone();
        let entering = stamp(message, &key, now);
        let mut messages = self.detach(&key);
        let ghost held = message_views(messages@);
        proof {
            lemma_message_views_push(messages@, entering);
            lemma_with_bucket_reads(old(self)@, key@, Seq::empty(), key@);
        }
        messages.push(entering);
        let ghost grown = message_views(messages@);
        let kept = prune_messages(messages, now, self.ttl_minutes, self.max_messages);
        proof {
            lemma_pruned_properties(grown, now, self.ttl_minutes as int, self.max_messages as nat);
            lemma_kept_lie_in_mailbox(kept@, messages@, key@);
            lemma_with_bucket_twice(old(self)@, key@, Seq::empty(), message_views(kept@));
        }
        self.attach(key.clone(), kept);
        self.publish(
            StoreEvent { event: StoreEventType::Added, mailbox: key, message_id: Some(id), at: now },
        );
    }

    /// Lists a mailbox at `now`: prunes its bucket and hands out copies of
    /// what is left, newest first. No more than the capacity come back, and
    /// none that has expired.
    pub fn list_at(&mut self, mailbox: &str, now: Timestamp) -> (r: Vec<Message>)
        requires
            old(self).wf(),
        ensures
            final(self).wf(),
            (final(self)@, message_views(r@)) == old(self)@.list(mailbox@, now),
            r@.len() <= old(self)@.max_messages,
            none_expired(message_views(r@), now, old(self)@.ttl_minutes),
    {
        let key = mailbox_key(mailbox);
        self.prune_mailbox(&key, now);
        proof {
            lemma_pruned_properties(
                old(self)@.bucket(key@),
                now,
                old(self)@.ttl_minutes,
                old(self)@.max_messages,
            );
            lemma_with_bucket_reads(
                old(self)@,
                key@,
                pruned(
                    old(self)@.bucket(key@),
                    now,
                    old(self)@.ttl_minutes,
                    old(self)@.max_messages,
                ),
                key@,
            );
        }
        let r = match self.position(&key) {
            Some(i) => newest_first(&self.buckets[i].messages),
            None => {
                let r: Vec<Message> = Vec::new();
                assert(message_views(r@) =~= self@.bucket(key@).reverse());
                r
            },
        };
        proof {
            let listed = message_views(r@);
            let bucket = self@.bucket(key@);
            assert(listed.len() == r@.len());
            assert forall|i: int| 0 <= i < listed.len() implies !expired(
                (#[trigger] listed[i]).received_at,
                now,
                old(self)@.ttl_minutes,
            ) by {
                assert(listed[i] == bucket[bucket.len() - 1 - i]);
            }
        }
        r
    }

    /// Looks a message up at `now`: prunes the bucket of the mailbox and
    /// hands out a copy of the newest message of that id that is left.
    pub fn get_at(&mut self, mailbox: &str, id: &str, now: Timestamp) -> (r: Option<Message>)
        requires
            old(self).wf(),
        ensures
            final(self).wf(),
            final(self)@ == old(self)@.get(mailbox@, id@, now).0,
            match r {
                Some(m) => old(self)@.get(mailbox@, id@, now).1 == Some(m@),
                None => old(self)@.get(mailbox@, id@, now).1 is None,
            },
    {
        let key = mailbox_key(mailbox);
        self.prune_mailbox(&key, now);
        match self.position(&key) {
            Some(i) => find_latest(&self.buckets[i].messages, id),
            None => {
                assert(self@.bucket(key@) =~= Seq::<MessageView>::empty());
                None
            },
        }
    }

    /// Deletes from a mailbox the messages of the given id, taken as it
    /// stands, and says whether there was any. Nothing is pruned. Where a
    /// message went, a `Deleted` event is published.
    pub fn delete_at(&mut self, mailbox: &str, id: &str, now: Timestamp) -> (deleted: bool)
        requires
            old(self).wf(),
        ensures
            final(self).wf(),
            (final(self)@, deleted) == old(self)@.delete(mailbox@, id@, now),
            deleted == has_id(old(self)@.bucket(canonical(mailbox@)), id@),
    {
        let key = mailbox_key(mailbox);
        let wanted = id.to_string();
        proof {
            old(self).lemma_wf_model();
        }
        let messages = self.detach(&key);
        let ghost held = message_views(messages@);
        let before = messages.len();
        let kept = remove_id(messages, &wanted);
        proof {
            lemma_without_id_len(held, wanted@);
            lemma_filter_members(held, has_other_id(wanted@));
            lemma_kept_lie_in_mailbox(kept@, messages@, key@);
            lemma_with_bucket_reads(old(self)@, key@, Seq::empty(), key@);
            lemma_with_bucket_twice(old(self)@, key@, Seq::empty(), message_views(kept@));
            if !has_id(held, wanted@) {
                lemma_with_bucket_same(old(self)@, key@);
            }
        }
        let deleted = kept.len() != before;
        self.attach(key.clone(), kept);
        if deleted {
            self.publish(
                StoreEvent {
                    event: StoreEventType::Deleted,
                    mailbox: key,
                    message_id: Some(wanted),
                    at: now,
                },
            );
        }
        deleted
    }

    /// Removes a mailbox with all its messages and says how many there
    /// were. Where there were any, a `Cleared` event is published.
    pub fn clear_at(&mut self, mailbox: &str, now: Timestamp) -> (removed: usize)
        requires
            old(self).wf(),
        ensures
            final(self).wf(),
            (final(self)@, removed as nat) == old(self)@.clear(mailbox@, now),
    {
        let key = mailbox_key(mailbox);
        proof {
            old(self).lemma_wf_model();
        }
        let messages = self.detach(&key);
        let removed = messages.len();
        if removed > 0 {
            self.publish(
                StoreEvent {
                    event: StoreEventType::Cleared,
                    mailbox: key,
                    message_id: None,
                    at: now,
                },
            );
        } else {
            proof {
                assert(old(self)@.bucket(key@) =~= Seq::<MessageView>::empty());
                lemma_with_bucket_same(old(self)@, key@);
            }
        }
        removed
    }
}

/// A count as a machine word holds it: itself, or the largest word.
pub open spec fn capped(n: nat) -> nat {
    if n > usize::MAX {
        usize::MAX as nat
    } else {
        n
    }
}

/// Pruning nothing leaves nothing.
pub proof fn lemma_pruned_empty(now: Timestamp, ttl_minutes: int, max: nat)
    ensures
        pruned(Seq::empty(), now, ttl_minutes, max) == Seq::<MessageView>::empty(),
{
    lemma_pruned_properties(Seq::empty(), now, ttl_minutes, max);
    assert(pruned(Seq::empty(), now, ttl_minutes, max) =~= Seq::<MessageView>::empty());
}

impl Store {
    /// Prunes every bucket at `now` and says how many messages went.
    ///
    /// Afterwards no message that is kept has expired at `now`. The count is
    /// the sum, over the mailboxes that had a bucket, of what pruning took
    /// from each; a sum beyond the largest machine word comes back as that
    /// word.
    pub fn cleanup_expired_at(&mut self, now: Timestamp) -> (removed: usize)
        requires
            old(self).wf(),
        ensures
            final(self).wf(),
            final(self)@ == old(self)@.swept(now),
            exists|keys: Seq<Seq<char>>|
                old(self)@.enumerated_by(keys) && removed as nat == capped(
                    #[trigger] old(self)@.removed_in(keys, now),
                ),
            forall|k: Seq<char>|
                none_expired(#[trigger] final(self)@.bucket(k), now, old(self)@.ttl_minutes),
    {
        broadcast use vstd::std_specs::vec::group_vec_axioms;

        let ghost model = self@;
        let mut taken: Vec<Bucket> = Vec::new();
        core::mem::swap(&mut self.buckets, &mut taken);
        let ghost all = taken@;
        assert(all.len() == taken.len());
        let ghost ttl = self.ttl_minutes as int;
        let ghost max = self.max_messages as nat;
        let mut count: u128 = 0;
        proof {
            lemma_pruned_empty(now, ttl, max);
            assert(names(all).take(0) =~= Seq::<Seq<char>>::empty());
            assert(all.take(0) =~= Seq::<Bucket>::empty());
        }
        for bucket in it: taken
            invariant
                it.seq() == all,
                all.len() <= usize::MAX,
                model.buckets == bucket_map(all),
                model.ttl_minutes == ttl,
                model.max_messages == max,
                ttl == self.ttl_minutes,
                max == self.max_messages,
                self.ttl_minutes >= 1,
                self.pending == old(self).pending,
                self.pending@.len() <= EVENT_CAPACITY,
                names(all).no_duplicates(),
                forall|j: int| 0 <= j < all.len() ==> bucket_ok(#[trigger] all[j], self.max_messages),
                names(self.buckets@).no_duplicates(),
                forall|j: int|
                    0 <= j < self.buckets@.len() ==> bucket_ok(
                        #[trigger] self.buckets@[j],
                        self.max_messages,
                    ),
                forall|j: int|
                    0 <= j < self.buckets@.len() ==> names(all).take(it.index() as int).contains(
                        #[trigger] names(self.buckets@)[j],
                    ),
                forall|k: Seq<char>| #[trigger]
                    lookup(self.buckets@, k) == pruned(
                        lookup(all.take(it.index() as int), k),
                        now,
                        ttl,
                        max,
                    ),
                count == model.removed_in(names(all).take(it.index() as int), now),
                count <= it.index() * 0xFFFF_FFFF_FFFF_FFFF,
        {
            let ghost i = it.index() as int;
            let ghost held = self.buckets@;
            let ghost name = bucket.mailbox@;
            let ghost before_views = message_views(bucket.messages@);
            let ghost bucket_in = bucket;
            let Bucket { mailbox, messages } = bucket;
            let before = messages.len();
            let kept = prune_messages(messages, now, self.ttl_minutes, self.max_messages);
            proof {
                assert(bucket_in == all[i]);
                assert(bucket_ok(all[i], self.max_messages));
                assert(names(all)[i] == name);
                lemma_pruned_properties(before_views, now, ttl, max);
                lemma_lookup_at(all, i);
                assert(model.bucket(name) == before_views);
                let upto = names(all).take(i + 1);
                assert(upto.drop_last() =~= names(all).take(i));
                assert(upto.last() == name);
                assert(all.take(i + 1) =~= all.take(i).push(all[i]));
                assert forall|k: Seq<char>| #[trigger]
                    lookup(all.take(i + 1), k) == if name == k {
                        before_views
                    } else {
                        lookup(all.take(i), k)
                    } by {
                    lemma_lookup_push(all.take(i), all[i], k);
                }
                assert(!names(held).contains(name)) by {
                    if names(held).contains(name) {
                        let j = choose|j: int| 0 <= j < held.len() && names(held)[j] == name;
                        assert(names(all).take(i).contains(names(held)[j]));
                        let a = choose|a: int| 0 <= a < i && names(all).take(i)[a] == name;
                        assert(names(all)[a] == names(all)[i]);
                    }
                }
                lemma_lookup_absent(held, name);
            }
            proof {
                assert(i < all.len());
                assert(all.len() <= usize::MAX);
                assert(before <= 0xFFFF_FFFF_FFFF_FFFF);
                assert(i * 0xFFFF_FFFF_FFFF_FFFF + 0xFFFF_FFFF_FFFF_FFFF <= u128::MAX) by {
                    assert(i <= 0xFFFF_FFFF_FFFF_FFFF);
                }
            }
            count = count + (before - kept.len()) as u128;
            if kept.len() > 0 {
                let renewed = Bucket { mailbox, messages: kept };
                proof {
                    assert forall|k: Seq<char>| #[trigger]
                        lookup(held.push(renewed), k) == if name == k {
                            message_views(renewed.messages@)
                        } else {
                            lookup(held, k)
                        } by {
                        lemma_lookup_push(held, renewed, k);
                    }
                    lemma_kept_lie_in_mailbox(kept@, bucket_in.messages@, name);
                    assert(bucket_ok(renewed, self.max_messages));
                    assert forall|a: int, b: int|
                        0 <= a < held.len() + 1 && 0 <= b < held.len() + 1 && a != b implies names(
                        held.push(renewed),
                    )[a] != names(held.push(renewed))[b] by {
                        if a < held.len() {
                            assert(names(held)[a] == names(held.push(renewed))[a]);
                        }
                        if b < held.len() {
                            assert(names(held)[b] == names(held.push(renewed))[b]);
                        }
                    }
                    assert forall|j: int| 0 <= j < held.len() + 1 implies names(all).take(
                        i + 1,
                    ).contains(#[trigger] names(held.push(renewed))[j]) by {
                        if j < held.len() {
                            assert(names(held)[j] == names(held.push(renewed))[j]);
                            assert(names(all).take(i).contains(names(held)[j]));
                            let a = choose|a: int|
                                0 <= a < i && names(all).take(i)[a] == names(held)[j];
                            assert(names(all).take(i + 1)[a] == names(held)[j]);
                        } else {
                            assert(names(all).take(i + 1)[i] == name);
                        }
                    }
                }
                self.buckets.push(renewed);
            } else {
                proof {
                    assert(message_views(kept@) =~= Seq::<MessageView>::empty());
                    assert forall|j: int| 0 <= j < held.len() implies names(all).take(
                        i + 1,
                    ).contains(#[trigger] names(held)[j]) by {
                        assert(names(all).take(i).contains(names(held)[j]));
                        let a = choose|a: int|
                            0 <= a < i && names(all).take(i)[a] == names(held)[j];
                        assert(names(all).take(i + 1)[a] == names(held)[j]);
                    }
                }
            }
        }
        proof {
            assert(all.take(all.len() as int) =~= all);
            assert(names(all).take(all.len() as int) =~= names(all));
            assert forall|k: Seq<char>| #[trigger]
                lookup(self.buckets@, k) == pruned(model.bucket(k), now, ttl, max) by {
                assert(model.bucket(k) =~= lookup(all, k));
            }
            assert(self@.buckets =~= model.swept(now).buckets);
            assert(self@.pending == model.pending);
            assert(model.enumerated_by(names(all))) by {
                assert forall|k: Seq<char>| names(all).contains(k) <==> model.buckets.dom().contains(
                    k,
                ) by {
                    if names(all).contains(k) {
                        let j = choose|j: int| 0 <= j < all.len() && names(all)[j] == k;
                        lemma_lookup_at(all, j);
                        assert(bucket_ok(all[j], self.max_messages));
                    }
                    if model.buckets.dom().contains(k) {
                        let j = lemma_lookup_found(all, k);
                        assert(names(all)[j] == k);
                    }
                }
            }
            assert forall|k: Seq<char>|
                none_expired(#[trigger] self@.bucket(k), now, ttl) by {
                lemma_pruned_properties(model.bucket(k), now, ttl, max);
                assert(self@.bucket(k) =~= pruned(model.bucket(k), now, ttl, max));
            }
        }
        if count > usize::MAX as u128 {
            usize::MAX
        } else {
            count as usize
        }
    }

    /// Adds a message to a mailbox at the current time; see `add_at`.
    pub fn add(&mut self, mailbox: &str, message: Message)
        requires
            old(self).wf(),
        ensures
            final(self).wf(),
            exists|now: Timestamp| final(self)@ == #[trigger] old(self)@.add(mailbox@, message@, now),
    {
        let now = current_time();
        self.add_at(mailbox, message, now);
    }

    /// Lists a mailbox at the current time, newest message first; see
    /// `list_at`.
    pub fn list(&mut self, mailbox: &str) -> (r: Vec<Message>)
        requires
            old(self).wf(),
        ensures
            final(self).wf(),
            r@.len() <= old(self)@.max_messages,
            exists|now: Timestamp|
                (final(self)@, message_views(r@)) == #[trigger] old(self)@.list(mailbox@, now),
    {
        let now = current_time();
        self.list_at(mailbox, now)
    }

    /// Looks a message up at the current time; see `get_at`.
    pub fn get(&mut self, mailbox: &str, id: &str) -> (r: Option<Message>)
        requires
            old(self).wf(),
        ensures
            final(self).wf(),
            exists|now: Timestamp|
                final(self)@ == (#[trigger] old(self)@.get(mailbox@, id@, now)).0 && match r {
                    Some(m) => old(self)@.get(mailbox@, id@, now).1 == Some(m@),
                    None => old(self)@.get(mailbox@, id@, now).1 is None,
                },
    {
        let now = current_time();
        self.get_at(mailbox, id, now)
    }

    /// Prunes every bucket at the current time; see `cleanup_expired_at`.
    pub fn cleanup_expired(&mut self) -> (removed: usize)
        requires
            old(self).wf(),
        ensures
            final(self).wf(),
            exists|now: Timestamp|
                final(self)@ == #[trigger] old(self)@.swept(now) && (forall|k: Seq<char>|
                    none_expired(#[trigger] final(self)@.bucket(k), now, old(self)@.ttl_minutes))
                    && exists|keys: Seq<Seq<char>>|
                    old(self)@.enumerated_by(keys) && removed as nat == capped(
                        #[trigger] old(self)@.removed_in(keys, now),
                    ),
    {
        let now = current_time();
        self.cleanup_expired_at(now)
    }

    /// Deletes a message; the event is dated with the current time. See
    /// `delete_at`.
    pub fn delete(&mut self, mailbox: &str, id: &str) -> (deleted: bool)
        requires
            old(self).wf(),
        ensures
            final(self).wf(),
            deleted == has_id(old(self)@.bucket(canonical(mailbox@)), id@),
            exists|now: Timestamp|
                (final(self)@, deleted) == #[trigger] old(self)@.delete(mailbox@, id@, now),
    {
        let now = current_time();
        self.delete_at(mailbox, id, now)
    }

    /// Removes a mailbox; the event is dated with the current time. See
    /// `clear_at`.
    pub fn clear(&mut self, mailbox: &str) -> (removed: usize)
        requires
            old(self).wf(),
        ensures
            final(self).wf(),
            removed == old(self)@.bucket(canonical(mailbox@)).len(),
            exists|now: Timestamp|
                (final(self)@, removed as nat) == #[trigger] old(self)@.clear(mailbox@, now),
    {
        let now = current_time();
        self.clear_at(mailbox, now)
    }
}

} // verus!
