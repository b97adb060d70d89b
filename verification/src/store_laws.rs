//! What holds of the store whatever is done to it, proved over its model.

use crate::message::MessageView;
use crate::store::{
    fresh, has_id, has_other_id, is_fresh, latest_with_id, lemma_filter_members,
    lemma_pruned_properties, lemma_with_bucket_reads, lemma_without_id_len,
    newest, none_expired, pruned, stamped, time_ordered, without_id, StoreEventType,
    StoreEventView, StoreModel, EVENT_CAPACITY,
};
use crate::text::canonical;
use crate::time::Timestamp;
use vstd::prelude::*;

verus! {

/// One addition to a store: the mailbox, the message, and when.
pub struct Addition {
    pub mailbox: Seq<char>,
    pub message: MessageView,
    pub at: Timestamp,
}

/// The store after the additions, made in order.
pub open spec fn after_adds(m: StoreModel, adds: Seq<Addition>) -> StoreModel
    decreases adds.len(),
{
    if adds.len() == 0 {
        m
    } else {
        after_adds(m, adds.drop_last()).add(adds.last().mailbox, adds.last().message, adds.last().at)
    }
}

/// Additions change neither the capacity nor the time to live.
pub proof fn lemma_adds_keep_limits(m: StoreModel, adds: Seq<Addition>)
    ensures
        after_adds(m, adds).max_messages == m.max_messages,
        after_adds(m, adds).ttl_minutes == m.ttl_minutes,
    decreases adds.len(),
{
    if adds.len() > 0 {
        lemma_adds_keep_limits(m, adds.drop_last());
    }
}

/// After any additions, a listing of any mailbox holds no more messages
/// than the capacity.
pub proof fn lemma_list_within_capacity(
    m: StoreModel,
    adds: Seq<Addition>,
    mailbox: Seq<char>,
    now: Timestamp,
)
    ensures
        after_adds(m, adds).list(mailbox, now).1.len() <= m.max_messages,
{
    let s = after_adds(m, adds);
    let key = canonical(mailbox);
    lemma_adds_keep_limits(m, adds);
    lemma_pruned_properties(s.bucket(key), now, s.ttl_minutes, s.max_messages);
    lemma_with_bucket_reads(
        s,
        key,
        pruned(s.bucket(key), now, s.ttl_minutes, s.max_messages),
        key,
    );
}

/// Replacing a bucket by messages of its mailbox, no more than the
/// capacity, keeps a store well formed.
pub proof fn lemma_with_bucket_keeps_wf(m: StoreModel, key: Seq<char>, msgs: Seq<MessageView>)
    requires
        m.wf(),
        msgs.len() <= m.max_messages,
        forall|i: int| 0 <= i < msgs.len() ==> (#[trigger] msgs[i]).mailbox == key,
    ensures
        m.with_bucket(key, msgs).wf(),
{
    let after = m.with_bucket(key, msgs);
    assert forall|k: Seq<char>| #[trigger] after.buckets.dom().contains(k) implies 0
        < after.buckets[k].len() <= after.max_messages by {
        if k != key {
            assert(m.buckets.dom().contains(k));
        }
    }
    assert forall|k: Seq<char>, i: int|
        after.buckets.dom().contains(k) && 0 <= i < after.buckets[k].len() implies (
    #[trigger] after.buckets[k][i]).mailbox == k by {
        if k != key {
            assert(m.buckets.dom().contains(k));
            assert(m.buckets[k][i].mailbox == k);
        }
    }
}

/// The messages of a bucket of a well-formed store are of its mailbox and no
/// more than the capacity.
pub proof fn lemma_bucket_of_wf(m: StoreModel, key: Seq<char>)
    requires
        m.wf(),
    ensures
        m.bucket(key).len() <= m.max_messages,
        forall|i: int| 0 <= i < m.bucket(key).len() ==> (#[trigger] m.bucket(key)[i]).mailbox == key,
{
    if m.buckets.dom().contains(key) {
        assert forall|i: int| 0 <= i < m.bucket(key).len() implies (
        #[trigger] m.bucket(key)[i]).mailbox == key by {
            assert(m.buckets[key][i].mailbox == key);
        }
    }
}

/// Pruning a bucket keeps a store well formed.
pub proof fn lemma_touched_keeps_wf(m: StoreModel, key: Seq<char>, now: Timestamp)
    requires
        m.wf(),
    ensures
        m.touched(key, now).wf(),
{
    let b = m.bucket(key);
    let p = pruned(b, now, m.ttl_minutes, m.max_messages);
    lemma_bucket_of_wf(m, key);
    lemma_pruned_properties(b, now, m.ttl_minutes, m.max_messages);
    assert forall|i: int| 0 <= i < p.len() implies (#[trigger] p[i]).mailbox == key by {
        assert(b.contains(p[i]));
    }
    lemma_with_bucket_keeps_wf(m, key, p);
}

/// Every step of the store keeps it well formed: no bucket is empty or over
/// the capacity, and each message lies in the bucket of its mailbox.
pub proof fn lemma_steps_keep_wf(
    m: StoreModel,
    mailbox: Seq<char>,
    message: MessageView,
    id: Seq<char>,
    now: Timestamp,
)
    requires
        m.wf(),
    ensures
        m.add(mailbox, message, now).wf(),
        m.list(mailbox, now).0.wf(),
        m.get(mailbox, id, now).0.wf(),
        m.delete(mailbox, id, now).0.wf(),
        m.clear(mailbox, now).0.wf(),
        m.swept(now).wf(),
        m.drained().wf(),
{
    let key = canonical(mailbox);
    let b = m.bucket(key);
    lemma_bucket_of_wf(m, key);
    lemma_touched_keeps_wf(m, key, now);
    assert(m.add(mailbox, message, now).wf()) by {
        let grown = b.push(stamped(message, key, now));
        let p = pruned(grown, now, m.ttl_minutes, m.max_messages);
        lemma_pruned_properties(grown, now, m.ttl_minutes, m.max_messages);
        assert forall|i: int| 0 <= i < p.len() implies (#[trigger] p[i]).mailbox == key by {
            assert(grown.contains(p[i]));
        }
        lemma_with_bucket_keeps_wf(m, key, p);
    }
    assert(m.delete(mailbox, id, now).0.wf()) by {
        let left = without_id(b, id);
        lemma_filter_members(b, has_other_id(id));
        assert forall|i: int| 0 <= i < left.len() implies (#[trigger] left[i]).mailbox == key by {
            assert(b.contains(left[i]));
        }
        lemma_with_bucket_keeps_wf(m, key, left);
    }
    assert(m.clear(mailbox, now).0.wf()) by {
        lemma_with_bucket_keeps_wf(m, key, Seq::empty());
    }
    assert(m.swept(now).wf()) by {
        let after = m.swept(now);
        assert forall|k: Seq<char>| #[trigger] after.buckets.dom().contains(k) implies 0
            < after.buckets[k].len() <= after.max_messages && forall|i: int|
            0 <= i < after.buckets[k].len() ==> (#[trigger] after.buckets[k][i]).mailbox == k by {
            let p = pruned(m.bucket(k), now, m.ttl_minutes, m.max_messages);
            lemma_pruned_properties(m.bucket(k), now, m.ttl_minutes, m.max_messages);
            lemma_bucket_of_wf(m, k);
            assert forall|i: int| 0 <= i < p.len() implies (#[trigger] p[i]).mailbox == k by {
                assert(m.bucket(k).contains(p[i]));
            }
        }
    }
}

/// After an addition, a listing or a lookup at `now`, the bucket of the
/// mailbox holds no message that has expired at `now`.
pub proof fn lemma_touched_bucket_has_nothing_expired(
    m: StoreModel,
    mailbox: Seq<char>,
    message: MessageView,
    id: Seq<char>,
    now: Timestamp,
)
    ensures
        none_expired(m.add(mailbox, message, now).bucket(canonical(mailbox)), now, m.ttl_minutes),
        none_expired(m.list(mailbox, now).0.bucket(canonical(mailbox)), now, m.ttl_minutes),
        none_expired(m.list(mailbox, now).1, now, m.ttl_minutes),
        none_expired(m.get(mailbox, id, now).0.bucket(canonical(mailbox)), now, m.ttl_minutes),
{
    let key = canonical(mailbox);
    let b = m.bucket(key);
    let grown = b.push(stamped(message, key, now));
    let p = pruned(b, now, m.ttl_minutes, m.max_messages);
    lemma_pruned_properties(b, now, m.ttl_minutes, m.max_messages);
    lemma_pruned_properties(grown, now, m.ttl_minutes, m.max_messages);
    lemma_with_bucket_reads(m, key, p, key);
    lemma_with_bucket_reads(m, key, pruned(grown, now, m.ttl_minutes, m.max_messages), key);
    let listing = m.list(mailbox, now).1;
    assert forall|i: int| 0 <= i < listing.len() implies !crate::time::expired(
        (#[trigger] listing[i]).received_at,
        now,
        m.ttl_minutes,
    ) by {
        assert(listing[i] == p[p.len() - 1 - i]);
    }
}

/// After a sweep at `now`, no message that is kept has expired at `now`.
pub proof fn lemma_swept_has_nothing_expired(m: StoreModel, now: Timestamp, key: Seq<char>)
    ensures
        none_expired(m.swept(now).bucket(key), now, m.ttl_minutes),
        m.swept(now).bucket(key) == pruned(m.bucket(key), now, m.ttl_minutes, m.max_messages),
{
    lemma_pruned_properties(m.bucket(key), now, m.ttl_minutes, m.max_messages);
    assert(m.swept(now).bucket(key) =~= pruned(
        m.bucket(key),
        now,
        m.ttl_minutes,
        m.max_messages,
    ));
}

/// A filter keeps the order of arrival.
pub proof fn lemma_filter_keeps_time_order(
    msgs: Seq<MessageView>,
    test: spec_fn(MessageView) -> bool,
)
    requires
        time_ordered(msgs),
    ensures
        time_ordered(msgs.filter(test)),
    decreases msgs.len(),
{
    reveal(Seq::filter);
    if msgs.len() > 0 {
        let rest = msgs.drop_last();
        assert(time_ordered(rest)) by {
            assert forall|i: int, j: int| 0 <= i <= j < rest.len() implies (
            #[trigger] rest[i]).received_at.not_after((#[trigger] rest[j]).received_at) by {
                assert(rest[i] == msgs[i] && rest[j] == msgs[j]);
            }
        }
        lemma_filter_keeps_time_order(rest, test);
        lemma_filter_members(rest, test);
        let kept = rest.filter(test);
        let out = msgs.filter(test);
        assert forall|i: int, j: int| 0 <= i <= j < out.len() implies (
        #[trigger] out[i]).received_at.not_after((#[trigger] out[j]).received_at) by {
            if j < kept.len() {
                assert(out[i] == kept[i] && out[j] == kept[j]);
            } else if i < kept.len() {
                assert(out[i] == kept[i]);
                assert(rest.contains(kept[i]));
                let a = choose|a: int| 0 <= a < rest.len() && rest[a] == kept[i];
                assert(msgs[a] == kept[i]);
                assert(out[j] == msgs[msgs.len() - 1]);
            }
        }
    }
}

/// Pruning keeps the order of arrival.
pub proof fn lemma_pruned_keeps_time_order(
    msgs: Seq<MessageView>,
    now: Timestamp,
    ttl_minutes: int,
    max: nat,
)
    requires
        time_ordered(msgs),
    ensures
        time_ordered(pruned(msgs, now, ttl_minutes, max)),
{
    lemma_filter_keeps_time_order(msgs, is_fresh(now, ttl_minutes));
    let f = fresh(msgs, now, ttl_minutes);
    let p = pruned(msgs, now, ttl_minutes, max);
    assert forall|i: int, j: int| 0 <= i <= j < p.len() implies (
    #[trigger] p[i]).received_at.not_after((#[trigger] p[j]).received_at) by {
        if f.len() > max {
            assert(p[i] == f[i + f.len() - max]);
            assert(p[j] == f[j + f.len() - max]);
        }
    }
}

/// A listing is the bucket backwards: what was appended last comes first.
/// Where the bucket is in the order of arrival, no message of the listing
/// arrived after one that stands before it.
pub proof fn lemma_list_is_newest_first(m: StoreModel, mailbox: Seq<char>, now: Timestamp)
    ensures
        m.list(mailbox, now).1 == m.list(mailbox, now).0.bucket(canonical(mailbox)).reverse(),
        time_ordered(m.bucket(canonical(mailbox))) ==> forall|i: int, j: int|
            0 <= i <= j < m.list(mailbox, now).1.len() ==> (#[trigger] m.list(
                mailbox,
                now,
            ).1[j]).received_at.not_after((#[trigger] m.list(mailbox, now).1[i]).received_at),
{
    let key = canonical(mailbox);
    let p = pruned(m.bucket(key), now, m.ttl_minutes, m.max_messages);
    let l = m.list(mailbox, now).1;
    lemma_with_bucket_reads(m, key, p, key);
    if time_ordered(m.bucket(key)) {
        lemma_pruned_keeps_time_order(m.bucket(key), now, m.ttl_minutes, m.max_messages);
        assert forall|i: int, j: int| 0 <= i <= j < l.len() implies (
        #[trigger] l[j]).received_at.not_after((#[trigger] l[i]).received_at) by {
            assert(l[i] == p[p.len() - 1 - i]);
            assert(l[j] == p[p.len() - 1 - j]);
        }
    }
}

/// An addition keeps a bucket in the order of arrival where the message, as
/// stamped, arrives no earlier than the last one of the bucket.
pub proof fn lemma_add_keeps_time_order(
    m: StoreModel,
    mailbox: Seq<char>,
    message: MessageView,
    now: Timestamp,
)
    requires
        time_ordered(m.bucket(canonical(mailbox))),
        m.bucket(canonical(mailbox)).len() > 0 ==> m.bucket(
            canonical(mailbox),
        ).last().received_at.not_after(stamped(message, canonical(mailbox), now).received_at),
    ensures
        time_ordered(m.add(mailbox, message, now).bucket(canonical(mailbox))),
{
    let key = canonical(mailbox);
    let b = m.bucket(key);
    let entering = stamped(message, key, now);
    let grown = b.push(entering);
    assert(time_ordered(grown)) by {
        assert forall|i: int, j: int| 0 <= i <= j < grown.len() implies (
        #[trigger] grown[i]).received_at.not_after((#[trigger] grown[j]).received_at) by {
            if j < b.len() {
                assert(grown[i] == b[i] && grown[j] == b[j]);
            } else if i < b.len() {
                assert(grown[i] == b[i]);
                assert(b[i].received_at.not_after(b[b.len() - 1].received_at));
            }
        }
    }
    lemma_pruned_keeps_time_order(grown, now, m.ttl_minutes, m.max_messages);
    lemma_with_bucket_reads(
        m,
        key,
        pruned(grown, now, m.ttl_minutes, m.max_messages),
        key,
    );
}

/// A lookup finds nothing exactly where no message has the id.
pub proof fn lemma_latest_with_id(msgs: Seq<MessageView>, id: Seq<char>)
    ensures
        latest_with_id(msgs, id) is None <==> !has_id(msgs, id),
        latest_with_id(msgs, id) matches Some(m) ==> m.id == id && msgs.contains(m),
    decreases msgs.len(),
{
    if msgs.len() > 0 {
        let rest = msgs.drop_last();
        lemma_latest_with_id(rest, id);
        if msgs.last().id == id {
            assert(msgs[msgs.len() - 1].id == id);
        } else {
            if has_id(msgs, id) {
                let i = choose|i: int| 0 <= i < msgs.len() && (#[trigger] msgs[i]).id == id;
                assert(rest[i].id == id);
            }
            if has_id(rest, id) {
                let i = choose|i: int| 0 <= i < rest.len() && (#[trigger] rest[i]).id == id;
                assert(msgs[i].id == id);
            }
            if latest_with_id(rest, id) is Some {
                let found = latest_with_id(rest, id)->0;
                let i = choose|i: int| 0 <= i < rest.len() && rest[i] == found;
                assert(msgs[i] == found);
            }
        }
    }
}

/// A deletion right after a listing says `true` exactly where the listing
/// held a message of the id; and a lookup of that id after the deletion
/// finds nothing, whatever the deletion said.
pub proof fn lemma_delete_after_list(
    m: StoreModel,
    mailbox: Seq<char>,
    id: Seq<char>,
    listed_at: Timestamp,
    deleted_at: Timestamp,
    read_at: Timestamp,
)
    ensures
        ({
            let (listed_store, listing) = m.list(mailbox, listed_at);
            let (after, deleted) = listed_store.delete(mailbox, id, deleted_at);
            let (_, found) = after.get(mailbox, id, read_at);
            &&& deleted <==> has_id(listing, id)
            &&& found is None
        }),
{
    let key = canonical(mailbox);
    let (listed_store, listing) = m.list(mailbox, listed_at);
    let b = listed_store.bucket(key);
    assert(has_id(listing, id) <==> has_id(b, id)) by {
        if has_id(listing, id) {
            let i = choose|i: int| 0 <= i < listing.len() && (#[trigger] listing[i]).id == id;
            assert(b[b.len() - 1 - i].id == id);
        }
        if has_id(b, id) {
            let i = choose|i: int| 0 <= i < b.len() && (#[trigger] b[i]).id == id;
            assert(listing[b.len() - 1 - i].id == id);
        }
    }
    lemma_get_after_delete(listed_store, mailbox, id, deleted_at, read_at);
}

/// After a deletion, whatever it said, a lookup of the id in the mailbox
/// finds nothing; and where no message bore the id, the deletion said
/// `false`, changed no bucket and published no event.
pub proof fn lemma_get_after_delete(
    m: StoreModel,
    mailbox: Seq<char>,
    id: Seq<char>,
    deleted_at: Timestamp,
    read_at: Timestamp,
)
    ensures
        m.delete(mailbox, id, deleted_at).0.get(mailbox, id, read_at).1 is None,
        m.delete(mailbox, id, deleted_at).1 == has_id(m.bucket(canonical(mailbox)), id),
        !has_id(m.bucket(canonical(mailbox)), id) ==> m.delete(mailbox, id, deleted_at) == (
            m,
            false,
        ),
{
    let key = canonical(mailbox);
    let b = m.bucket(key);
    let (after, deleted) = m.delete(mailbox, id, deleted_at);
    lemma_without_id_len(b, id);
    let left = after.bucket(key);
    assert(!has_id(left, id)) by {
        if deleted {
            lemma_with_bucket_reads(m, key, without_id(b, id), key);
        }
    }
    let p = pruned(left, read_at, after.ttl_minutes, after.max_messages);
    lemma_pruned_properties(left, read_at, after.ttl_minutes, after.max_messages);
    lemma_with_bucket_reads(after, key, p, key);
    assert(!has_id(p, id)) by {
        if has_id(p, id) {
            let i = choose|i: int| 0 <= i < p.len() && (#[trigger] p[i]).id == id;
            assert(left.contains(p[i]));
            let j = choose|j: int| 0 <= j < left.len() && left[j] == p[i];
            assert(left[j].id == id);
        }
    }
    lemma_latest_with_id(p, id);
}

/// Clearing a mailbox twice is clearing it once: the second call removes
/// nothing, says 0 and publishes no event.
pub proof fn lemma_clear_twice(
    m: StoreModel,
    mailbox: Seq<char>,
    first: Timestamp,
    second: Timestamp,
)
    ensures
        m.clear(mailbox, first).0.clear(mailbox, second) == (m.clear(mailbox, first).0, 0nat),
        m.clear(mailbox, first).0.bucket(canonical(mailbox)).len() == 0,
{
    let key = canonical(mailbox);
    lemma_with_bucket_reads(m, key, Seq::empty(), key);
}

/// An addition publishes exactly one event, an `Added` one that names the
/// mailbox and the message: it is the newest event waiting, and before it
/// wait the events from before, less the oldest where the buffer was full.
pub proof fn lemma_add_publishes_one(
    m: StoreModel,
    mailbox: Seq<char>,
    message: MessageView,
    now: Timestamp,
)
    requires
        m.pending.len() <= EVENT_CAPACITY,
    ensures
        m.add(mailbox, message, now).pending.len() > 0,
        m.add(mailbox, message, now).pending.last() == (StoreEventView {
            event: StoreEventType::Added,
            mailbox: canonical(mailbox),
            message_id: Some(message.id),
            at: now,
        }),
        m.add(mailbox, message, now).pending.drop_last() == newest(
            m.pending,
            (EVENT_CAPACITY - 1) as nat,
        ),
{
    let event = StoreEventView {
        event: StoreEventType::Added,
        mailbox: canonical(mailbox),
        message_id: Some(message.id),
        at: now,
    };
    let after = m.add(mailbox, message, now).pending;
    assert(after == newest(m.pending.push(event), EVENT_CAPACITY as nat));
    assert(after.drop_last() =~= newest(m.pending, (EVENT_CAPACITY - 1) as nat));
}

/// The event that an addition publishes.
pub open spec fn added_event(a: Addition) -> StoreEventView {
    StoreEventView {
        event: StoreEventType::Added,
        mailbox: canonical(a.mailbox),
        message_id: Some(a.message.id),
        at: a.at,
    }
}

/// The events that additions publish, in the order of the additions.
pub open spec fn added_events(adds: Seq<Addition>) -> Seq<StoreEventView> {
    Seq::new(adds.len(), |i: int| added_event(adds[i]))
}

/// Events are published in the order of the additions: after any additions
/// the events that wait are those from before and then one for each
/// addition, in order, less the oldest beyond the capacity.
pub proof fn lemma_adds_publish_in_order(m: StoreModel, adds: Seq<Addition>)
    requires
        m.pending.len() <= EVENT_CAPACITY,
    ensures
        after_adds(m, adds).pending == newest(
            m.pending + added_events(adds),
            EVENT_CAPACITY as nat,
        ),
    decreases adds.len(),
{
    if adds.len() == 0 {
        assert(m.pending + added_events(adds) =~= m.pending);
    } else {
        let rest = adds.drop_last();
        let before = after_adds(m, rest).pending;
        let event = added_event(adds.last());
        lemma_adds_publish_in_order(m, rest);
        let all = m.pending + added_events(adds);
        assert(all =~= (m.pending + added_events(rest)).push(event));
        assert(newest(before.push(event), EVENT_CAPACITY as nat) =~= newest(
            all,
            EVENT_CAPACITY as nat,
        ));
    }
}

/// Listing, looking up and sweeping publish nothing; deleting and clearing
/// publish one event where something went, and nothing otherwise.
pub proof fn lemma_events_of_other_steps(
    m: StoreModel,
    mailbox: Seq<char>,
    id: Seq<char>,
    now: Timestamp,
)
    ensures
        m.list(mailbox, now).0.pending == m.pending,
        m.get(mailbox, id, now).0.pending == m.pending,
        m.swept(now).pending == m.pending,
        !m.delete(mailbox, id, now).1 ==> m.delete(mailbox, id, now).0 == m,
        m.delete(mailbox, id, now).1 ==> m.delete(mailbox, id, now).0.pending == newest(
            m.pending.push(
                StoreEventView {
                    event: StoreEventType::Deleted,
                    mailbox: canonical(mailbox),
                    message_id: Some(id),
                    at: now,
                },
            ),
            EVENT_CAPACITY as nat,
        ),
        m.clear(mailbox, now).1 == 0 ==> m.clear(mailbox, now).0 == m,
        m.clear(mailbox, now).1 > 0 ==> m.clear(mailbox, now).0.pending == newest(
            m.pending.push(
                StoreEventView {
                    event: StoreEventType::Cleared,
                    mailbox: canonical(mailbox),
                    message_id: None,
                    at: now,
                },
            ),
            EVENT_CAPACITY as nat,
        ),
{
}

} // verus!
