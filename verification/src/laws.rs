//! Properties of the broker that span several operations.
use vstd::prelude::*;

use crate::broker::{
    accepts,
    evicts_when_full,
    new_subscriber,
    SubscriberStats,
    count_accepted,
    count_dropped,
    deliver,
    drops,
    Broker,
    BrokerView,
    OverflowPolicy,
    SubscriberView,
};
use crate::topic::topic_matches;

verus! {

/// The number of messages queued across `subs`.
pub open spec fn total_queued(subs: Seq<SubscriberView>) -> nat
    decreases subs.len(),
{
    if subs.len() == 0 {
        0
    } else {
        total_queued(subs.drop_last()) + subs.last().queue.len()
    }
}

/// The sum of the queue depths of `subs`.
pub open spec fn total_depth(subs: Seq<SubscriberView>) -> nat
    decreases subs.len(),
{
    if subs.len() == 0 {
        0
    } else {
        total_depth(subs.drop_last()) + subs.last().max_depth as nat
    }
}

/// The sum of the delivered counters of `subs`.
pub open spec fn total_delivered(subs: Seq<SubscriberView>) -> nat
    decreases subs.len(),
{
    if subs.len() == 0 {
        0
    } else {
        total_delivered(subs.drop_last()) + subs.last().stats.delivered as nat
    }
}

/// The sum of the dropped counters of `subs`.
pub open spec fn total_dropped(subs: Seq<SubscriberView>) -> nat
    decreases subs.len(),
{
    if subs.len() == 0 {
        0
    } else {
        total_dropped(subs.drop_last()) + subs.last().stats.dropped as nat
    }
}

/// The number of bytes in the messages of `queue`.
pub open spec fn queue_bytes(queue: Seq<Seq<u8>>) -> nat
    decreases queue.len(),
{
    if queue.len() == 0 {
        0
    } else {
        queue_bytes(queue.drop_last()) + queue.last().len()
    }
}

/// The number of bytes queued across `subs`.
pub open spec fn total_bytes(subs: Seq<SubscriberView>) -> nat
    decreases subs.len(),
{
    if subs.len() == 0 {
        0
    } else {
        total_bytes(subs.drop_last()) + queue_bytes(subs.last().queue)
    }
}

/// Every subscriber of `subs` after one publish of `message` to `topic`.
pub open spec fn delivered_all(subs: Seq<SubscriberView>, topic: Seq<char>, message: Seq<u8>) -> Seq<
    SubscriberView,
> {
    Seq::new(subs.len(), |i: int| deliver(subs[i], topic, message))
}

/// A subscriber's queue never holds more than its depth.
pub proof fn law_queue_never_exceeds_depth(b: &Broker)
    requires
        b.wf(),
    ensures
        forall|i: int|
            0 <= i < b@.subscribers.len() ==> #[trigger] b@.subscribers[i].queue.len()
                <= b@.subscribers[i].max_depth,
{
    b.lemma_wf_view();
}

/// Bounded memory: the messages queued in a broker never outnumber the sum
/// of its subscribers' queue depths, however slowly they receive.
pub proof fn law_backlog_is_capped(b: &Broker)
    requires
        b.wf(),
    ensures
        total_queued(b@.subscribers) <= total_depth(b@.subscribers),
{
    b.lemma_wf_view();
    lemma_queued_within_depth(b@.subscribers);
}

/// Bounded memory in bytes: what a broker holds queued never exceeds the
/// sum of its subscribers' queue depths times the maximum message size.
pub proof fn law_backlog_bytes_are_capped(b: &Broker)
    requires
        b.wf(),
    ensures
        total_bytes(b@.subscribers) <= total_depth(b@.subscribers) * b@.max_message_size,
{
    b.lemma_wf_view();
    lemma_bytes_within_depth(b@.subscribers, b@.max_message_size as nat);
}

proof fn lemma_queue_bytes_bound(queue: Seq<Seq<u8>>, max: nat)
    requires
        forall|k: int| 0 <= k < queue.len() ==> #[trigger] queue[k].len() <= max,
    ensures
        queue_bytes(queue) <= queue.len() * max,
    decreases queue.len(),
{
    if queue.len() > 0 {
        let init = queue.drop_last();
        assert forall|k: int| 0 <= k < init.len() implies #[trigger] init[k].len() <= max by {
            assert(init[k] == queue[k]);
        }
        lemma_queue_bytes_bound(init, max);
        assert(queue.last().len() <= max) by {
            assert(queue.last() == queue[queue.len() - 1]);
        }
        let n = init.len();
        assert(n * max + max == (n + 1) * max) by (nonlinear_arith);
    }
}

proof fn lemma_bytes_within_depth(subs: Seq<SubscriberView>, max: nat)
    requires
        forall|i: int|
            0 <= i < subs.len() ==> #[trigger] subs[i].queue.len() <= subs[i].max_depth,
        forall|i: int, k: int|
            0 <= i < subs.len() && 0 <= k < subs[i].queue.len() ==> #[trigger] subs[i].queue[k].len()
                <= max,
    ensures
        total_bytes(subs) <= total_depth(subs) * max,
    decreases subs.len(),
{
    if subs.len() > 0 {
        let init = subs.drop_last();
        assert forall|i: int| 0 <= i < init.len() implies #[trigger] init[i].queue.len()
            <= init[i].max_depth by {
            assert(init[i] == subs[i]);
        }
        assert forall|i: int, k: int|
            0 <= i < init.len() && 0 <= k < init[i].queue.len() implies #[trigger] init[i].queue[k].len()
            <= max by {
            assert(init[i] == subs[i]);
        }
        lemma_bytes_within_depth(init, max);
        let last = subs[subs.len() - 1];
        assert(subs.last() == last);
        assert forall|k: int| 0 <= k < last.queue.len() implies #[trigger] last.queue[k].len()
            <= max by {
            assert(subs[subs.len() - 1].queue[k].len() <= max);
        }
        lemma_queue_bytes_bound(last.queue, max);
        let ql = last.queue.len();
        let d = last.max_depth as nat;
        let td = total_depth(init);
        assert(ql <= d);
        assert(ql * max <= d * max) by (nonlinear_arith)
            requires
                ql <= d,
        ;
        assert(td * max + d * max == (td + d) * max) by (nonlinear_arith);
    }
}

proof fn lemma_queued_within_depth(subs: Seq<SubscriberView>)
    requires
        forall|i: int|
            0 <= i < subs.len() ==> #[trigger] subs[i].queue.len() <= subs[i].max_depth,
    ensures
        total_queued(subs) <= total_depth(subs),
    decreases subs.len(),
{
    if subs.len() > 0 {
        let init = subs.drop_last();
        assert forall|i: int| 0 <= i < init.len() implies #[trigger] init[i].queue.len()
            <= init[i].max_depth by {
            assert(init[i] == subs[i]);
        }
        lemma_queued_within_depth(init);
        assert(subs.last() == subs[subs.len() - 1]);
    }
}

/// Every operation keeps a well-formed broker well formed: ids stay
/// increasing and below `next_id`, and no queue outgrows its depth.
pub proof fn law_operations_preserve_well_formed(
    v: BrokerView,
    pattern: Seq<char>,
    max_depth: usize,
    policy: OverflowPolicy,
    topic: Seq<char>,
    message: Seq<u8>,
    i: int,
)
    requires
        v.well_formed(),
    ensures
        v.next_id < u64::MAX ==> v.after_subscribe(pattern, max_depth, policy).well_formed(),
        message.len() <= v.max_message_size ==> v.after_publish(topic, message).well_formed(),
        0 <= i < v.subscribers.len() ==> v.after_unsubscribe(i).well_formed(),
        0 <= i < v.subscribers.len() && v.subscribers[i].queue.len() > 0 ==> v.after_receive(
            i,
        ).well_formed(),
{
    if 0 <= i < v.subscribers.len() {
        let u = v.after_unsubscribe(i);
        assert forall|a: int, b: int| 0 <= a < b < u.subscribers.len() implies #[trigger] u.subscribers[a].id
            < #[trigger] u.subscribers[b].id by {
            let a2 = if a < i { a } else { a + 1 };
            let b2 = if b < i { b } else { b + 1 };
            assert(u.subscribers[a] == v.subscribers[a2]);
            assert(u.subscribers[b] == v.subscribers[b2]);
            assert(v.subscribers[a2].id < v.subscribers[b2].id);
        }
        assert forall|a: int| 0 <= a < u.subscribers.len() implies #[trigger] u.subscribers[a].id
            < u.next_id by {
            let a2 = if a < i { a } else { a + 1 };
            assert(u.subscribers[a] == v.subscribers[a2]);
        }
        assert forall|a: int| 0 <= a < u.subscribers.len() implies #[trigger] u.subscribers[a].queue.len()
            <= u.subscribers[a].max_depth by {
            let a2 = if a < i { a } else { a + 1 };
            assert(u.subscribers[a] == v.subscribers[a2]);
        }
    }
    if 0 <= i < v.subscribers.len() && v.subscribers[i].queue.len() > 0 {
        let r = v.after_receive(i);
        assert forall|a: int, b: int| 0 <= a < b < r.subscribers.len() implies #[trigger] r.subscribers[a].id
            < #[trigger] r.subscribers[b].id by {
            assert(v.subscribers[a].id < v.subscribers[b].id);
        }
        assert forall|a: int| 0 <= a < r.subscribers.len() implies #[trigger] r.subscribers[a].id
            < r.next_id by {
            assert(v.subscribers[a].id < v.next_id);
        }
        assert forall|a: int| 0 <= a < r.subscribers.len() implies #[trigger] r.subscribers[a].queue.len()
            <= r.subscribers[a].max_depth by {
            assert(v.subscribers[a].queue.len() <= v.subscribers[a].max_depth);
        }
    }
    if message.len() <= v.max_message_size {
        lemma_publish_preserves_well_formed(v, topic, message);
    }
    if v.next_id < u64::MAX {
        let s = v.after_subscribe(pattern, max_depth, policy);
        let n = v.subscribers.len() as int;
        assert forall|a: int, b: int| 0 <= a < b < s.subscribers.len() implies #[trigger] s.subscribers[a].id
            < #[trigger] s.subscribers[b].id by {
            if b < n {
                assert(v.subscribers[a].id < v.subscribers[b].id);
            } else {
                assert(v.subscribers[a].id < v.next_id);
            }
        }
        assert forall|a: int| 0 <= a < s.subscribers.len() implies #[trigger] s.subscribers[a].id
            < s.next_id by {
            if a < n {
                assert(v.subscribers[a].id < v.next_id);
            }
        }
        assert forall|a: int| 0 <= a < s.subscribers.len() implies #[trigger] s.subscribers[a].queue.len()
            <= s.subscribers[a].max_depth by {
            if a < n {
            }
        }
    }
}

proof fn lemma_publish_preserves_well_formed(v: BrokerView, topic: Seq<char>, message: Seq<u8>)
    requires
        v.well_formed(),
        message.len() <= v.max_message_size,
    ensures
        v.after_publish(topic, message).well_formed(),
{
    let p = v.after_publish(topic, message);
    assert forall|a: int, k: int|
        0 <= a < p.subscribers.len() && 0 <= k < p.subscribers[a].queue.len() implies #[trigger] p.subscribers[a].queue[k].len()
        <= p.max_message_size by {
        let old_q = v.subscribers[a].queue;
        if p.subscribers[a].queue != old_q && k < p.subscribers[a].queue.len() - 1 {
            if p.subscribers[a].queue == old_q.push(message) {
                assert(p.subscribers[a].queue[k] == old_q[k]);
            } else {
                assert(p.subscribers[a].queue[k] == old_q[k + 1]);
            }
        }
    }
    assert forall|a: int, b: int| 0 <= a < b < p.subscribers.len() implies #[trigger] p.subscribers[a].id
        < #[trigger] p.subscribers[b].id by {
        assert(v.subscribers[a].id < v.subscribers[b].id);
    }
    assert forall|a: int| 0 <= a < p.subscribers.len() implies #[trigger] p.subscribers[a].id
        < p.next_id by {
        assert(v.subscribers[a].id < v.next_id);
    }
    assert forall|a: int| 0 <= a < p.subscribers.len() implies #[trigger] p.subscribers[a].queue.len()
            <= p.subscribers[a].max_depth by {
    }
}

/// In a well-formed broker, the id `id` resolves to the subscriber at
/// position `i` exactly when that subscriber carries the id.
proof fn lemma_lookup_at(v: BrokerView, i: int)
    requires
        v.well_formed(),
        0 <= i < v.subscribers.len(),
    ensures
        v.lookup(v.subscribers[i].id) == Some(v.subscribers[i]),
{
    crate::broker::lemma_find_at(v, i);
}

/// In a well-formed broker an id resolves to the subscriber carrying it, or
/// to nothing exactly when no subscriber carries it.
pub proof fn law_lookup_finds_the_subscriber_with_that_id(v: BrokerView, id: u64)
    requires
        v.well_formed(),
    ensures
        v.lookup(id) is None <==> forall|i: int|
            0 <= i < v.subscribers.len() ==> v.subscribers[i].id != id,
        v.lookup(id) is Some ==> (v.find(id) matches Some(i) && 0 <= i < v.subscribers.len()
            && v.subscribers[i].id == id && v.lookup(id) == Some(v.subscribers[i])),
{
    if exists|i: int| 0 <= i < v.subscribers.len() && v.subscribers[i].id == id {
        let i = choose|i: int| 0 <= i < v.subscribers.len() && v.subscribers[i].id == id;
        crate::broker::lemma_find_at(v, i);
    }
}

/// A successful subscribe adds exactly the subscriber asked for: under the
/// id `next_id`, with the given pattern, depth and policy, an empty queue and
/// zero counters. Every existing subscriber, every other id, the topic
/// counters and the size limit are left as they were, and `next_id` moves
/// on by one.
pub proof fn law_subscribe_adds_exactly_the_requested_subscriber(
    v: BrokerView,
    pattern: Seq<char>,
    max_depth: usize,
    policy: OverflowPolicy,
)
    requires
        v.well_formed(),
        v.next_id < u64::MAX,
    ensures
        v.after_subscribe(pattern, max_depth, policy).subscribers.len() == v.subscribers.len() + 1,
        forall|i: int|
            0 <= i < v.subscribers.len() ==> #[trigger] v.after_subscribe(
                pattern,
                max_depth,
                policy,
            ).subscribers[i] == v.subscribers[i],
        v.after_subscribe(pattern, max_depth, policy).lookup(v.next_id) matches Some(sub) && {
            &&& sub.id == v.next_id
            &&& sub.pattern == pattern
            &&& sub.max_depth == max_depth
            &&& sub.policy == policy
            &&& sub.queue.len() == 0
            &&& sub.stats.delivered == 0
            &&& sub.stats.dropped == 0
        },
        forall|id: u64|
            id != v.next_id ==> #[trigger] v.after_subscribe(pattern, max_depth, policy).lookup(id)
                == v.lookup(id),
        v.after_subscribe(pattern, max_depth, policy).next_id == v.next_id + 1,
        v.after_subscribe(pattern, max_depth, policy).max_message_size == v.max_message_size,
        v.after_subscribe(pattern, max_depth, policy).topic_stats == v.topic_stats,
{
    let s = v.after_subscribe(pattern, max_depth, policy);
    let n = v.subscribers.len() as int;
    law_operations_preserve_well_formed(v, pattern, max_depth, policy, Seq::empty(), Seq::empty(), 0);
    lemma_lookup_at(s, n);
    assert forall|id: u64| id != v.next_id implies #[trigger] s.lookup(id) == v.lookup(id) by {
        law_lookup_finds_the_subscriber_with_that_id(v, id);
        law_lookup_finds_the_subscriber_with_that_id(s, id);
        if v.lookup(id) is Some {
            let j = v.find(id)->0;
            assert(s.subscribers[j] == v.subscribers[j]);
            lemma_lookup_at(s, j);
        } else {
            assert forall|i: int| 0 <= i < s.subscribers.len() implies s.subscribers[i].id != id by {
                if i < n {
                    assert(s.subscribers[i] == v.subscribers[i]);
                }
            }
        }
    }
}

/// Unsubscribing removes exactly the one subscriber with that id: there is
/// one subscriber fewer, the id resolves to nothing, and every other id
/// resolves to the same subscriber as before, with the topic counters, the
/// size limit and `next_id` unchanged.
pub proof fn law_unsubscribe_removes_only_that_subscriber(v: BrokerView, id: u64)
    requires
        v.well_formed(),
        v.lookup(id) is Some,
    ensures
        v.find(id) matches Some(i) && {
            let u = v.after_unsubscribe(i);
            &&& u.subscribers.len() == v.subscribers.len() - 1
            &&& u.lookup(id) is None
            &&& forall|other: u64| other != id ==> #[trigger] u.lookup(other) == v.lookup(other)
            &&& u.next_id == v.next_id
            &&& u.max_message_size == v.max_message_size
            &&& u.topic_stats == v.topic_stats
        },
{
    law_lookup_finds_the_subscriber_with_that_id(v, id);
    let i = v.find(id)->0;
    let u = v.after_unsubscribe(i);
    law_operations_preserve_well_formed(v, Seq::empty(), 0, OverflowPolicy::RejectNew, Seq::empty(), Seq::empty(), i);
    law_unsubscribed_id_is_gone(v, i);
    assert forall|other: u64| other != id implies #[trigger] u.lookup(other) == v.lookup(other) by {
        law_lookup_finds_the_subscriber_with_that_id(v, other);
        law_lookup_finds_the_subscriber_with_that_id(u, other);
        if v.lookup(other) is Some {
            let j = v.find(other)->0;
            assert(j != i);
            let j2 = if j < i { j } else { j - 1 };
            assert(u.subscribers[j2] == v.subscribers[j]);
            lemma_lookup_at(u, j2);
        } else {
            assert forall|a: int| 0 <= a < u.subscribers.len() implies u.subscribers[a].id != other by {
                let a2 = if a < i { a } else { a + 1 };
                assert(u.subscribers[a] == v.subscribers[a2]);
            }
        }
    }
}

/// A receive that yields a message takes the oldest message off that
/// subscriber's queue and changes nothing else: the rest of its queue, its
/// settings and counters, every other subscriber and every counter stay.
pub proof fn law_receive_pops_only_that_queue(v: BrokerView, id: u64)
    requires
        v.well_formed(),
        v.lookup(id) matches Some(sub) && sub.queue.len() > 0,
    ensures
        v.find(id) matches Some(i) && {
            let r = v.after_receive(i);
            let sub = v.lookup(id)->0;
            &&& r.lookup(id) matches Some(after) && {
                &&& after.queue == sub.queue.subrange(1, sub.queue.len() as int)
                &&& after.id == sub.id
                &&& after.pattern == sub.pattern
                &&& after.max_depth == sub.max_depth
                &&& after.policy == sub.policy
                &&& after.stats == sub.stats
            }
            &&& r.subscribers.len() == v.subscribers.len()
            &&& forall|other: u64| other != id ==> #[trigger] r.lookup(other) == v.lookup(other)
            &&& r.next_id == v.next_id
            &&& r.max_message_size == v.max_message_size
            &&& r.topic_stats == v.topic_stats
        },
{
    law_lookup_finds_the_subscriber_with_that_id(v, id);
    let i = v.find(id)->0;
    let r = v.after_receive(i);
    law_operations_preserve_well_formed(v, Seq::empty(), 0, OverflowPolicy::RejectNew, Seq::empty(), Seq::empty(), i);
    lemma_lookup_at(r, i);
    assert forall|other: u64| other != id implies #[trigger] r.lookup(other) == v.lookup(other) by {
        law_lookup_finds_the_subscriber_with_that_id(v, other);
        law_lookup_finds_the_subscriber_with_that_id(r, other);
        if v.lookup(other) is Some {
            let j = v.find(other)->0;
            assert(j != i);
            assert(r.subscribers[j] == v.subscribers[j]);
            lemma_lookup_at(r, j);
        } else {
            assert forall|a: int| 0 <= a < r.subscribers.len() implies r.subscribers[a].id != other by {
                assert(r.subscribers[a].id == v.subscribers[a].id);
            }
        }
    }
}

/// A publish acts on every subscriber by its own pattern, queue and policy:
/// a subscriber whose pattern does not match the topic is left exactly as
/// it was; with room, the message joins the back of its queue and counts a
/// delivery; when full, `DropOldest` (with a depth above 0) evicts the
/// oldest message, appends the new one and counts a delivery and a drop,
/// and otherwise the queue is kept and one drop is counted. No subscriber
/// appears or disappears, and the size limit and `next_id` stay.
pub proof fn law_publish_acts_on_every_subscriber(
    v: BrokerView,
    topic: Seq<char>,
    message: Seq<u8>,
    id: u64,
)
    requires
        v.well_formed(),
        v.publish_fits(topic),
        message.len() <= v.max_message_size,
    ensures
        v.after_publish(topic, message).subscribers.len() == v.subscribers.len(),
        v.after_publish(topic, message).next_id == v.next_id,
        v.after_publish(topic, message).max_message_size == v.max_message_size,
        v.lookup(id) is None ==> v.after_publish(topic, message).lookup(id) is None,
        v.lookup(id) matches Some(sub) ==> (v.after_publish(topic, message).lookup(id) matches Some(
            after,
        ) && {
            &&& after.id == sub.id
            &&& after.pattern == sub.pattern
            &&& after.max_depth == sub.max_depth
            &&& after.policy == sub.policy
            &&& !topic_matches(sub.pattern, topic) ==> after == sub
            &&& topic_matches(sub.pattern, topic) && sub.queue.len() < sub.max_depth ==> {
                &&& after.queue == sub.queue.push(message)
                &&& after.stats.delivered == sub.stats.delivered + 1
                &&& after.stats.dropped == sub.stats.dropped
            }
            &&& topic_matches(sub.pattern, topic) && sub.queue.len() >= sub.max_depth
                && sub.max_depth > 0 && sub.policy == OverflowPolicy::DropOldest ==> {
                &&& after.queue == sub.queue.subrange(1, sub.queue.len() as int).push(message)
                &&& after.stats.delivered == sub.stats.delivered + 1
                &&& after.stats.dropped == sub.stats.dropped + 1
            }
            &&& topic_matches(sub.pattern, topic) && sub.queue.len() >= sub.max_depth && (sub.max_depth
                == 0 || sub.policy == OverflowPolicy::RejectNew) ==> {
                &&& after.queue == sub.queue
                &&& after.stats.delivered == sub.stats.delivered
                &&& after.stats.dropped == sub.stats.dropped + 1
            }
        }),
{
    let p = v.after_publish(topic, message);
    law_operations_preserve_well_formed(v, Seq::empty(), 0, OverflowPolicy::RejectNew, topic, message, 0);
    law_lookup_finds_the_subscriber_with_that_id(v, id);
    law_lookup_finds_the_subscriber_with_that_id(p, id);
    if v.lookup(id) is Some {
        let j = v.find(id)->0;
        let sub = v.subscribers[j];
        assert(p.subscribers[j] == deliver(sub, topic, message));
        if topic_matches(sub.pattern, topic) {
            if sub.queue.len() < sub.max_depth || (sub.max_depth > 0 && sub.policy
                == OverflowPolicy::DropOldest) {
                assert(accepts(sub, topic));
                assert(sub.stats.delivered < u64::MAX);
            }
            if sub.queue.len() >= sub.max_depth {
                assert(drops(sub, topic));
                assert(sub.stats.dropped < u64::MAX);
            }
        }
        lemma_lookup_at(p, j);
    } else {
        assert forall|a: int| 0 <= a < p.subscribers.len() implies p.subscribers[a].id != id by {
            assert(p.subscribers[a].id == v.subscribers[a].id);
        }
    }
}

/// After a subscriber is removed, its id resolves to nothing.
pub proof fn law_unsubscribed_id_is_gone(v: BrokerView, i: int)
    requires
        v.well_formed(),
        0 <= i < v.subscribers.len(),
    ensures
        v.after_unsubscribe(i).lookup(v.subscribers[i].id) is None,
        v.subscribers[i].id < v.after_unsubscribe(i).next_id,
{
    let id = v.subscribers[i].id;
    let u = v.after_unsubscribe(i);
    assert forall|a: int| 0 <= a < u.subscribers.len() implies u.subscribers[a].id != id by {
        let a2 = if a < i { a } else { a + 1 };
        assert(u.subscribers[a] == v.subscribers[a2]);
        if a2 < i {
            assert(v.subscribers[a2].id < v.subscribers[i].id);
        } else {
            assert(v.subscribers[i].id < v.subscribers[a2].id);
        }
    }
}

/// An id that resolves to nothing and was handed out before keeps
/// resolving to nothing, whatever operation comes next: ids are never
/// reused, so an unsubscribed subscriber receives nothing further.
pub proof fn law_absent_id_stays_absent(
    v: BrokerView,
    id: u64,
    pattern: Seq<char>,
    max_depth: usize,
    policy: OverflowPolicy,
    topic: Seq<char>,
    message: Seq<u8>,
    i: int,
)
    requires
        v.well_formed(),
        v.lookup(id) is None,
        id < v.next_id,
    ensures
        v.after_subscribe(pattern, max_depth, policy).lookup(id) is None,
        v.next_id < u64::MAX ==> id < v.after_subscribe(pattern, max_depth, policy).next_id,
        v.after_publish(topic, message).lookup(id) is None,
        0 <= i < v.subscribers.len() ==> v.after_unsubscribe(i).lookup(id) is None,
        0 <= i < v.subscribers.len() ==> v.after_receive(i).lookup(id) is None,
{
    assert(forall|a: int| 0 <= a < v.subscribers.len() ==> v.subscribers[a].id != id);
    let s = v.after_subscribe(pattern, max_depth, policy);
    assert forall|a: int| 0 <= a < s.subscribers.len() implies s.subscribers[a].id != id by {
        if a < v.subscribers.len() {
            assert(s.subscribers[a] == v.subscribers[a]);
        }
    }
    let p = v.after_publish(topic, message);
    assert forall|a: int| 0 <= a < p.subscribers.len() implies p.subscribers[a].id != id by {
        assert(p.subscribers[a].id == v.subscribers[a].id);
    }
    if 0 <= i < v.subscribers.len() {
        let u = v.after_unsubscribe(i);
        assert forall|a: int| 0 <= a < u.subscribers.len() implies u.subscribers[a].id != id by {
            let a2 = if a < i { a } else { a + 1 };
            assert(u.subscribers[a] == v.subscribers[a2]);
        }
        let r = v.after_receive(i);
        assert forall|a: int| 0 <= a < r.subscribers.len() implies r.subscribers[a].id != id by {
            assert(r.subscribers[a].id == v.subscribers[a].id);
        }
    }
}

/// Unsubscribing the subscriber just subscribed gives back the broker as it
/// was, except that `next_id` has moved on: the new id is found at the end,
/// and removing it restores every subscriber, queue and counter.
pub proof fn law_unsubscribe_undoes_subscribe(
    v: BrokerView,
    pattern: Seq<char>,
    max_depth: usize,
    policy: OverflowPolicy,
)
    requires
        v.well_formed(),
        v.next_id < u64::MAX,
    ensures
        v.after_subscribe(pattern, max_depth, policy).find(v.next_id) == Some(
            v.subscribers.len() as int,
        ),
        v.after_subscribe(pattern, max_depth, policy).after_unsubscribe(
            v.subscribers.len() as int,
        ) == (BrokerView { next_id: (v.next_id + 1) as u64, ..v }),
{
    let s = v.after_subscribe(pattern, max_depth, policy);
    let n = v.subscribers.len() as int;
    law_operations_preserve_well_formed(v, pattern, max_depth, policy, Seq::empty(), Seq::empty(), 0);
    crate::broker::lemma_find_at(s, n);
    assert(s.subscribers.remove(n) =~= v.subscribers);
}

/// A publish adds to its topic's counters exactly the deliveries and drops
/// it made, the deliveries being what `publish` returns; other topics'
/// counters stay as they were.
pub proof fn law_publish_updates_topic_counters(v: BrokerView, topic: Seq<char>, message: Seq<u8>)
    requires
        v.publish_fits(topic),
    ensures
        v.after_publish(topic, message).stats_of(topic).delivered == v.stats_of(topic).delivered
            + count_accepted(v.subscribers, topic),
        v.after_publish(topic, message).stats_of(topic).dropped == v.stats_of(topic).dropped
            + count_dropped(v.subscribers, topic),
        forall|other: Seq<char>|
            other != topic ==> #[trigger] v.after_publish(topic, message).stats_of(other)
                == v.stats_of(other),
{
}

/// A topic's counters are the subscribers' counters summed: one publish
/// raises the sum of the subscribers' delivered counters by exactly the
/// deliveries it made, and the sum of their dropped counters by exactly
/// the drops it made.
pub proof fn law_topic_counters_sum_subscriber_counters(
    v: BrokerView,
    topic: Seq<char>,
    message: Seq<u8>,
)
    requires
        v.publish_fits(topic),
    ensures
        total_delivered(v.after_publish(topic, message).subscribers) == total_delivered(
            v.subscribers,
        ) + count_accepted(v.subscribers, topic),
        total_dropped(v.after_publish(topic, message).subscribers) == total_dropped(v.subscribers)
            + count_dropped(v.subscribers, topic),
{
    assert(v.after_publish(topic, message).subscribers =~= delivered_all(
        v.subscribers,
        topic,
        message,
    ));
    lemma_totals_after_publish(v.subscribers, topic, message);
}

proof fn lemma_totals_after_publish(subs: Seq<SubscriberView>, topic: Seq<char>, message: Seq<u8>)
    requires
        forall|i: int|
            0 <= i < subs.len() && accepts(#[trigger] subs[i], topic) ==> subs[i].stats.delivered
                < u64::MAX,
        forall|i: int|
            0 <= i < subs.len() && drops(#[trigger] subs[i], topic) ==> subs[i].stats.dropped
                < u64::MAX,
    ensures
        total_delivered(delivered_all(subs, topic, message)) == total_delivered(subs)
            + count_accepted(subs, topic),
        total_dropped(delivered_all(subs, topic, message)) == total_dropped(subs) + count_dropped(
            subs,
            topic,
        ),
    decreases subs.len(),
{
    if subs.len() > 0 {
        let init = subs.drop_last();
        assert forall|i: int|
            0 <= i < init.len() && accepts(#[trigger] init[i], topic) implies init[i].stats.delivered
            < u64::MAX by {
            assert(init[i] == subs[i]);
        }
        assert forall|i: int|
            0 <= i < init.len() && drops(#[trigger] init[i], topic) implies init[i].stats.dropped
            < u64::MAX by {
            assert(init[i] == subs[i]);
        }
        lemma_totals_after_publish(init, topic, message);
        let all = delivered_all(subs, topic, message);
        assert(all.drop_last() =~= delivered_all(init, topic, message));
        let last = subs[subs.len() - 1];
        assert(subs.last() == last);
        assert(all.last() == deliver(last, topic, message));
        if accepts(last, topic) {
            assert(last.stats.delivered < u64::MAX);
        }
        if drops(last, topic) {
            assert(last.stats.dropped < u64::MAX);
        }
    }
}

/// How one publish changes one subscriber, per its overflow policy: a
/// subscriber that does not match is left alone; with room, the message
/// goes to the back of its queue; when full, `DropOldest` evicts the
/// front and appends, keeping the queue at its depth, and `RejectNew`
/// leaves the queue untouched. A subscriber of depth 0 queues nothing
/// under either policy. Each enqueued message counts one delivery, each
/// evicted or rejected one counts one drop.
pub proof fn law_delivery_follows_policy(sub: SubscriberView, topic: Seq<char>, message: Seq<u8>)
    requires
        sub.queue.len() <= sub.max_depth,
        sub.stats.delivered < u64::MAX,
        sub.stats.dropped < u64::MAX,
    ensures
        !topic_matches(sub.pattern, topic) ==> deliver(sub, topic, message) == sub,
        topic_matches(sub.pattern, topic) && sub.queue.len() < sub.max_depth ==> {
            &&& deliver(sub, topic, message).queue == sub.queue.push(message)
            &&& deliver(sub, topic, message).stats == SubscriberStats {
                delivered: (sub.stats.delivered + 1) as u64,
                dropped: sub.stats.dropped,
            }
        },
        topic_matches(sub.pattern, topic) && sub.queue.len() == sub.max_depth && sub.max_depth > 0
            && sub.policy == OverflowPolicy::DropOldest ==> {
            &&& deliver(sub, topic, message).queue == sub.queue.drop_first().push(message)
            &&& deliver(sub, topic, message).queue.len() == sub.max_depth
            &&& deliver(sub, topic, message).stats == SubscriberStats {
                delivered: (sub.stats.delivered + 1) as u64,
                dropped: (sub.stats.dropped + 1) as u64,
            }
        },
        topic_matches(sub.pattern, topic) && sub.queue.len() == sub.max_depth && (sub.policy
            == OverflowPolicy::RejectNew || sub.max_depth == 0) ==> {
            &&& deliver(sub, topic, message).queue == sub.queue
            &&& deliver(sub, topic, message).stats == SubscriberStats {
                delivered: sub.stats.delivered,
                dropped: (sub.stats.dropped + 1) as u64,
            }
        },
        deliver(sub, topic, message).id == sub.id,
        deliver(sub, topic, message).pattern == sub.pattern,
        deliver(sub, topic, message).max_depth == sub.max_depth,
        deliver(sub, topic, message).policy == sub.policy,
{
}

/// The broker after the publishes in `publishes`, one after another, each a
/// topic and a message.
pub open spec fn publish_all(v: BrokerView, publishes: Seq<(Seq<char>, Seq<u8>)>) -> BrokerView
    decreases publishes.len(),
{
    if publishes.len() == 0 {
        v
    } else {
        publish_all(v, publishes.drop_last()).after_publish(
            publishes.last().0,
            publishes.last().1,
        )
    }
}

/// The messages of `publishes`, in order.
pub open spec fn messages_of(publishes: Seq<(Seq<char>, Seq<u8>)>) -> Seq<Seq<u8>> {
    publishes.map_values(|p: (Seq<char>, Seq<u8>)| p.1)
}

/// The broker after the subscriber at `i` popped `n` messages, one after another.
pub open spec fn receive_times(v: BrokerView, i: int, n: nat) -> BrokerView
    decreases n,
{
    if n == 0 {
        v
    } else {
        receive_times(v, i, (n - 1) as nat).after_receive(i)
    }
}

proof fn lemma_publish_all_appends(
    v: BrokerView,
    i: int,
    publishes: Seq<(Seq<char>, Seq<u8>)>,
)
    requires
        0 <= i < v.subscribers.len(),
        forall|k: int|
            0 <= k < publishes.len() ==> topic_matches(
                v.subscribers[i].pattern,
                #[trigger] publishes[k].0,
            ),
        v.subscribers[i].queue.len() + publishes.len() <= v.subscribers[i].max_depth,
    ensures
        publish_all(v, publishes).subscribers.len() == v.subscribers.len(),
        publish_all(v, publishes).subscribers[i].pattern == v.subscribers[i].pattern,
        publish_all(v, publishes).subscribers[i].max_depth == v.subscribers[i].max_depth,
        publish_all(v, publishes).subscribers[i].queue == v.subscribers[i].queue + messages_of(
            publishes,
        ),
    decreases publishes.len(),
{
    if publishes.len() == 0 {
        assert(v.subscribers[i].queue + messages_of(publishes) =~= v.subscribers[i].queue);
    } else {
        let init = publishes.drop_last();
        assert forall|k: int| 0 <= k < init.len() implies topic_matches(
            v.subscribers[i].pattern,
            #[trigger] init[k].0,
        ) by {
            assert(init[k] == publishes[k]);
        }
        lemma_publish_all_appends(v, i, init);
        let last = publishes[publishes.len() - 1];
        assert(publishes.last() == last);
        assert(topic_matches(v.subscribers[i].pattern, last.0));
        assert(v.subscribers[i].queue + messages_of(init) + seq![last.1] =~= v.subscribers[i].queue
            + messages_of(publishes));
    }
}

proof fn lemma_receive_times_pops(v: BrokerView, i: int, n: nat)
    requires
        0 <= i < v.subscribers.len(),
        n <= v.subscribers[i].queue.len(),
    ensures
        receive_times(v, i, n).subscribers.len() == v.subscribers.len(),
        receive_times(v, i, n).subscribers[i].queue == v.subscribers[i].queue.skip(n as int),
    decreases n,
{
    if n == 0 {
        assert(v.subscribers[i].queue.skip(0) =~= v.subscribers[i].queue);
    } else {
        lemma_receive_times_pops(v, i, (n - 1) as nat);
        let q = v.subscribers[i].queue;
        assert(q.skip(n - 1).drop_first() =~= q.skip(n as int));
    }
}

/// Messages leave a queue in the order they were published: after any
/// sequence of publishes that reach a subscriber, whatever matching topic
/// each uses, into a queue with room for all of them, its queue is the old
/// queue followed by their messages in publish order, and each receive
/// takes the next of them from the front. From an empty queue, the `n`-th
/// receive yields the `n`-th message, and once all are taken the queue is
/// empty, so the next receive yields `None`.
pub proof fn law_queue_is_first_in_first_out(
    v: BrokerView,
    i: int,
    publishes: Seq<(Seq<char>, Seq<u8>)>,
)
    requires
        0 <= i < v.subscribers.len(),
        forall|k: int|
            0 <= k < publishes.len() ==> topic_matches(
                v.subscribers[i].pattern,
                #[trigger] publishes[k].0,
            ),
        v.subscribers[i].queue.len() + publishes.len() <= v.subscribers[i].max_depth,
    ensures
        publish_all(v, publishes).subscribers[i].queue == v.subscribers[i].queue + messages_of(
            publishes,
        ),
        forall|n: nat|
            n <= v.subscribers[i].queue.len() + publishes.len() ==> #[trigger] receive_times(
                publish_all(v, publishes),
                i,
                n,
            ).subscribers[i].queue == (v.subscribers[i].queue + messages_of(publishes)).skip(
                n as int,
            ),
        v.subscribers[i].queue.len() == 0 ==> {
            &&& forall|n: nat|
                n < publishes.len() ==> #[trigger] receive_times(
                    publish_all(v, publishes),
                    i,
                    n,
                ).subscribers[i].queue[0] == publishes[n as int].1
            &&& receive_times(publish_all(v, publishes), i, publishes.len()).subscribers[i].queue.len()
                == 0
        },
{
    lemma_publish_all_appends(v, i, publishes);
    let w = publish_all(v, publishes);
    let q = v.subscribers[i].queue + messages_of(publishes);
    assert forall|n: nat| n <= q.len() implies #[trigger] receive_times(w, i, n).subscribers[i].queue
        == q.skip(n as int) by {
        lemma_receive_times_pops(w, i, n);
    }
    if v.subscribers[i].queue.len() == 0 {
        assert(q =~= messages_of(publishes));
        assert forall|n: nat| n < publishes.len() implies #[trigger] receive_times(
            w,
            i,
            n,
        ).subscribers[i].queue[0] == publishes[n as int].1 by {
            lemma_receive_times_pops(w, i, n);
        }
        lemma_receive_times_pops(w, i, publishes.len());
    }
}

/// The messages evicted from a subscriber's queue to make room: its drops
/// when a full queue takes the place of its oldest message, none otherwise.
pub open spec fn evicted(sub: SubscriberView) -> int {
    if evicts_when_full(sub) {
        sub.stats.dropped as int
    } else {
        0
    }
}

/// The messages delivered to a subscriber that are neither still queued nor
/// evicted: those it has taken with `receive`.
pub open spec fn received_count(sub: SubscriberView) -> int {
    sub.stats.delivered - sub.queue.len() - evicted(sub)
}

/// Every delivered message is still queued, was received or was evicted:
/// `delivered == queued + received + evicted`. A fresh subscriber has
/// received nothing, a publish leaves every subscriber's received count
/// as it was, and each receive that yields a message raises it by one, so
/// `received_count` is exactly the number of messages received.
pub proof fn law_delivered_is_queued_plus_received_plus_evicted(
    v: BrokerView,
    id: u64,
    pattern: Seq<char>,
    max_depth: usize,
    policy: OverflowPolicy,
    topic: Seq<char>,
    message: Seq<u8>,
    i: int,
)
    requires
        v.well_formed(),
    ensures
        received_count(new_subscriber(id, pattern, max_depth, policy)) == 0,
        v.publish_fits(topic) ==> forall|j: int|
            0 <= j < v.subscribers.len() ==> #[trigger] received_count(
                v.after_publish(topic, message).subscribers[j],
            ) == received_count(v.subscribers[j]),
        0 <= i < v.subscribers.len() && v.subscribers[i].queue.len() > 0 ==> {
            &&& received_count(v.after_receive(i).subscribers[i]) == received_count(
                v.subscribers[i],
            ) + 1
            &&& forall|j: int|
                0 <= j < v.subscribers.len() && j != i ==> #[trigger] v.after_receive(
                    i,
                ).subscribers[j] == v.subscribers[j]
        },
{
    if v.publish_fits(topic) {
        assert forall|j: int| 0 <= j < v.subscribers.len() implies #[trigger] received_count(
            v.after_publish(topic, message).subscribers[j],
        ) == received_count(v.subscribers[j]) by {
            let sub = v.subscribers[j];
            assert(sub.queue.len() <= sub.max_depth);
            if accepts(sub, topic) {
                assert(sub.stats.delivered < u64::MAX);
            }
            if drops(sub, topic) {
                assert(sub.stats.dropped < u64::MAX);
            }
        }
    }
}

/// One subscriber cannot affect another: what a publish does to each
/// subscriber depends on that subscriber alone, so changing one leaves
/// the outcome for every other unchanged.
pub proof fn law_subscribers_are_independent(
    v: BrokerView,
    w: BrokerView,
    j: int,
    topic: Seq<char>,
    message: Seq<u8>,
)
    requires
        v.subscribers.len() == w.subscribers.len(),
        forall|i: int| 0 <= i < v.subscribers.len() && i != j ==> v.subscribers[i] == w.subscribers[i],
    ensures
        forall|i: int|
            0 <= i < v.subscribers.len() && i != j ==> #[trigger] v.after_publish(
                topic,
                message,
            ).subscribers[i] == w.after_publish(topic, message).subscribers[i],
{
}

} // verus!
