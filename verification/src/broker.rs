//! The broker: subscribers with bounded queues, publishing, receiving and counters.
use std::collections::VecDeque;
use vstd::prelude::*;

use crate::error::BrokerError;
use crate::topic::topic_matches;

verus! {

/// What the broker does when a subscriber's queue is at capacity and a new
/// message arrives for it.
///
/// A subscriber created with a depth of 0 never queues anything: every
/// matching message is dropped for it, under either policy, since there is
/// no oldest message to evict.
#[derive(Debug, Clone, Copy, PartialEq, Eq, Structural)]
pub enum OverflowPolicy {
    /// Drop the oldest queued message to make room for the new one.
    DropOldest,
    /// Keep the queue as is and drop the new message instead.
    RejectNew,
}

/// Counters for one subscriber: how many messages it actually received
/// versus how many were dropped because its queue was full.
#[derive(Debug, Clone, Copy, Default, PartialEq, Eq, Structural)]
pub struct SubscriberStats {
    pub delivered: u64,
    pub dropped: u64,
}

/// Counters for one topic name as it was published to: how many
/// deliveries the publish produced across all matching subscribers, and
/// how many of those deliveries were dropped by a full queue.
#[derive(Debug, Clone, Copy, Default, PartialEq, Eq, Structural)]
pub struct TopicStats {
    pub delivered: u64,
    pub dropped: u64,
}

/// The abstract state of one subscriber.
pub struct SubscriberView {
    pub id: u64,
    pub pattern: Seq<char>,
    /// Queued messages, oldest first.
    pub queue: Seq<Seq<u8>>,
    pub max_depth: usize,
    pub policy: OverflowPolicy,
    pub stats: SubscriberStats,
}

/// The abstract state of a broker. Subscribers are listed in the order in
/// which they subscribed.
pub struct BrokerView {
    pub subscribers: Seq<SubscriberView>,
    pub next_id: u64,
    pub max_message_size: usize,
    /// Counters of every topic name published to so far.
    pub topic_stats: Map<Seq<char>, TopicStats>,
}

/// When the subscriber's queue is full, a new message takes the place of the
/// oldest one: the policy is `DropOldest` and the queue has room for one message.
pub open spec fn evicts_when_full(sub: SubscriberView) -> bool {
    sub.policy == OverflowPolicy::DropOldest && sub.max_depth > 0
}

/// A subscriber matches the topic and its message is enqueued
/// (possibly by evicting the oldest queued one).
pub open spec fn accepts(sub: SubscriberView, topic: Seq<char>) -> bool {
    &&& topic_matches(sub.pattern, topic)
    &&& (sub.queue.len() < sub.max_depth || evicts_when_full(sub))
}

/// A subscriber matches the topic and its queue is full, so a message is
/// dropped for it (the oldest one or the new one, per its policy).
pub open spec fn drops(sub: SubscriberView, topic: Seq<char>) -> bool {
    &&& topic_matches(sub.pattern, topic)
    &&& sub.queue.len() >= sub.max_depth
}

/// What one publish of `message` to `topic` does to one subscriber.
pub open spec fn deliver(sub: SubscriberView, topic: Seq<char>, message: Seq<u8>) -> SubscriberView {
    if !topic_matches(sub.pattern, topic) {
        sub
    } else if sub.queue.len() < sub.max_depth {
        SubscriberView {
            queue: sub.queue.push(message),
            stats: SubscriberStats {
                delivered: (sub.stats.delivered + 1) as u64,
                dropped: sub.stats.dropped,
            },
            ..sub
        }
    } else if evicts_when_full(sub) {
        SubscriberView {
            queue: sub.queue.drop_first().push(message),
            stats: SubscriberStats {
                delivered: (sub.stats.delivered + 1) as u64,
                dropped: (sub.stats.dropped + 1) as u64,
            },
            ..sub
        }
    } else {
        SubscriberView {
            stats: SubscriberStats {
                delivered: sub.stats.delivered,
                dropped: (sub.stats.dropped + 1) as u64,
            },
            ..sub
        }
    }
}

/// How many of `subs` accept a message published to `topic`.
pub open spec fn count_accepted(subs: Seq<SubscriberView>, topic: Seq<char>) -> nat
    decreases subs.len(),
{
    if subs.len() == 0 {
        0
    } else {
        count_accepted(subs.drop_last(), topic) + if accepts(subs.last(), topic) {
            1nat
        } else {
            0nat
        }
    }
}

/// How many of `subs` drop a message when one is published to `topic`.
pub open spec fn count_dropped(subs: Seq<SubscriberView>, topic: Seq<char>) -> nat
    decreases subs.len(),
{
    if subs.len() == 0 {
        0
    } else {
        count_dropped(subs.drop_last(), topic) + if drops(subs.last(), topic) {
            1nat
        } else {
            0nat
        }
    }
}

/// A fresh subscriber, as `subscribe` creates it, with an empty queue and zero counters.
pub open spec fn new_subscriber(
    id: u64,
    pattern: Seq<char>,
    max_depth: usize,
    policy: OverflowPolicy,
) -> SubscriberView {
    SubscriberView {
        id,
        pattern,
        queue: Seq::empty(),
        max_depth,
        policy,
        stats: SubscriberStats { delivered: 0, dropped: 0 },
    }
}

impl BrokerView {
    /// Ids increase in subscription order and stay below `next_id`; no
    /// queue holds more than its depth, and no queued message is larger
    /// than the broker's maximum message size.
    pub open spec fn well_formed(self) -> bool {
        &&& forall|i: int, k: int|
            0 <= i < self.subscribers.len() && 0 <= k < self.subscribers[i].queue.len()
                ==> #[trigger] self.subscribers[i].queue[k].len() <= self.max_message_size
        &&& forall|i: int, j: int|
            0 <= i < j < self.subscribers.len() ==> #[trigger] self.subscribers[i].id
                < #[trigger] self.subscribers[j].id
        &&& forall|i: int|
            0 <= i < self.subscribers.len() ==> #[trigger] self.subscribers[i].id < self.next_id
        &&& forall|i: int|
            0 <= i < self.subscribers.len() ==> #[trigger] self.subscribers[i].queue.len()
                <= self.subscribers[i].max_depth
    }

    /// The position of the subscriber with id `id`, if there is one.
    pub open spec fn find(self, id: u64) -> Option<int> {
        if exists|i: int| 0 <= i < self.subscribers.len() && self.subscribers[i].id == id {
            Some(choose|i: int| 0 <= i < self.subscribers.len() && self.subscribers[i].id == id)
        } else {
            None
        }
    }

    /// The subscriber with id `id`, if there is one.
    pub open spec fn lookup(self, id: u64) -> Option<SubscriberView> {
        match self.find(id) {
            Some(i) => Some(self.subscribers[i]),
            None => None,
        }
    }

    /// The counters of `topic`, zero for a topic never published to.
    pub open spec fn stats_of(self, topic: Seq<char>) -> TopicStats {
        if self.topic_stats.dom().contains(topic) {
            self.topic_stats[topic]
        } else {
            TopicStats { delivered: 0, dropped: 0 }
        }
    }

    /// A publish to `topic` cannot push a counter past `u64::MAX`.
    pub open spec fn publish_fits(self, topic: Seq<char>) -> bool {
        &&& forall|i: int|
            0 <= i < self.subscribers.len() && accepts(#[trigger] self.subscribers[i], topic)
                ==> self.subscribers[i].stats.delivered < u64::MAX
        &&& forall|i: int|
            0 <= i < self.subscribers.len() && drops(#[trigger] self.subscribers[i], topic)
                ==> self.subscribers[i].stats.dropped < u64::MAX
        &&& self.stats_of(topic).delivered + count_accepted(self.subscribers, topic) <= u64::MAX
        &&& self.stats_of(topic).dropped + count_dropped(self.subscribers, topic) <= u64::MAX
    }

    /// The state after a successful `subscribe`.
    pub open spec fn after_subscribe(
        self,
        pattern: Seq<char>,
        max_depth: usize,
        policy: OverflowPolicy,
    ) -> BrokerView {
        BrokerView {
            subscribers: self.subscribers.push(
                new_subscriber(self.next_id, pattern, max_depth, policy),
            ),
            next_id: (self.next_id + 1) as u64,
            ..self
        }
    }

    /// The state after a successful `unsubscribe` of the subscriber at `i`.
    pub open spec fn after_unsubscribe(self, i: int) -> BrokerView {
        BrokerView { subscribers: self.subscribers.remove(i), ..self }
    }

    /// The state after a successful publish of `message` to `topic`: every
    /// subscriber is delivered to on its own, and the topic's counters grow
    /// by the deliveries and drops of this publish.
    pub open spec fn after_publish(self, topic: Seq<char>, message: Seq<u8>) -> BrokerView {
        BrokerView {
            subscribers: Seq::new(
                self.subscribers.len(),
                |i: int| deliver(self.subscribers[i], topic, message),
            ),
            topic_stats: self.topic_stats.insert(
                topic,
                TopicStats {
                    delivered: (self.stats_of(topic).delivered + count_accepted(
                        self.subscribers,
                        topic,
                    )) as u64,
                    dropped: (self.stats_of(topic).dropped + count_dropped(
                        self.subscribers,
                        topic,
                    )) as u64,
                },
            ),
            ..self
        }
    }

    /// The state after the subscriber at `i` popped its oldest message.
    pub open spec fn after_receive(self, i: int) -> BrokerView {
        BrokerView {
            subscribers: self.subscribers.update(
                i,
                SubscriberView {
                    queue: self.subscribers[i].queue.drop_first(),
                    ..self.subscribers[i]
                },
            ),
            ..self
        }
    }
}

struct Subscriber {
    id: u64,
    pattern: String,
    queue: VecDeque<Vec<u8>>,
    max_depth: usize,
    policy: OverflowPolicy,
    stats: SubscriberStats,
}

impl View for Subscriber {
    type V = SubscriberView;

    closed spec fn view(&self) -> SubscriberView {
        SubscriberView {
            id: self.id,
            pattern: self.pattern@,
            queue: self.queue@.map_values(|m: Vec<u8>| m@),
            max_depth: self.max_depth,
            policy: self.policy,
            stats: self.stats,
        }
    }
}

/// The counters held in `entries`, keyed by topic name.
spec fn stats_map(entries: Seq<(String, TopicStats)>) -> Map<Seq<char>, TopicStats> {
    Map::new(
        |k: Seq<char>| exists|i: int| 0 <= i < entries.len() && entries[i].0@ == k,
        |k: Seq<char>| entries[choose|i: int| 0 <= i < entries.len() && entries[i].0@ == k].1,
    )
}

/// No topic name occurs twice in `entries`.
spec fn distinct_names(entries: Seq<(String, TopicStats)>) -> bool {
    forall|i: int, j: int|
        0 <= i < entries.len() && 0 <= j < entries.len() && i != j ==> #[trigger] entries[i].0@
            != #[trigger] entries[j].0@
}

/// An in-memory publish/subscribe broker.
///
/// Every subscriber owns a bounded queue. Publishing to a topic delivers to
/// every current subscriber whose pattern matches, following the
/// [`OverflowPolicy`] each subscriber was created with when its queue is
/// full. Memory use is capped by `subscriber_count * max_depth`, it can
/// never grow past that no matter how slow a subscriber is.
pub struct Broker {
    subscribers: Vec<Subscriber>,
    next_id: u64,
    max_message_size: usize,
    topic_stats: Vec<(String, TopicStats)>,
}

impl View for Broker {
    type V = BrokerView;

    closed spec fn view(&self) -> BrokerView {
        BrokerView {
            subscribers: self.subscribers@.map_values(|s: Subscriber| s@),
            next_id: self.next_id,
            max_message_size: self.max_message_size,
            topic_stats: stats_map(self.topic_stats@),
        }
    }
}


/// The counters of the entry at `k` are what the map holds for its name.
proof fn lemma_stats_hit(entries: Seq<(String, TopicStats)>, k: int)
    requires
        distinct_names(entries),
        0 <= k < entries.len(),
    ensures
        stats_map(entries).dom().contains(entries[k].0@),
        stats_map(entries)[entries[k].0@] == entries[k].1,
{
    let key = entries[k].0@;
    assert(exists|i: int| 0 <= i < entries.len() && entries[i].0@ == key);
    let j = choose|i: int| 0 <= i < entries.len() && entries[i].0@ == key;
    assert(j == k);
}

/// Replacing the counters of the entry at `k` updates the map at its name.
proof fn lemma_stats_set(entries: Seq<(String, TopicStats)>, k: int, v: TopicStats)
    requires
        distinct_names(entries),
        0 <= k < entries.len(),
    ensures
        distinct_names(entries.update(k, (entries[k].0, v))),
        stats_map(entries.update(k, (entries[k].0, v))) =~= stats_map(entries).insert(
            entries[k].0@,
            v,
        ),
{
    let e2 = entries.update(k, (entries[k].0, v));
    let key = entries[k].0@;
    assert(distinct_names(e2)) by {
        assert forall|i: int, j: int|
            0 <= i < e2.len() && 0 <= j < e2.len() && i != j implies #[trigger] e2[i].0@
            != #[trigger] e2[j].0@ by {
            assert(e2[i].0 == entries[i].0);
            assert(e2[j].0 == entries[j].0);
        }
    }
    lemma_stats_hit(e2, k);
    assert forall|q: Seq<char>| #[trigger]
        stats_map(e2).dom().contains(q) == stats_map(entries).insert(key, v).dom().contains(q) by {
        if exists|i: int| 0 <= i < entries.len() && entries[i].0@ == q {
            let i = choose|i: int| 0 <= i < entries.len() && entries[i].0@ == q;
            assert(e2[i].0 == entries[i].0);
        }
        if exists|i: int| 0 <= i < e2.len() && e2[i].0@ == q {
            let i = choose|i: int| 0 <= i < e2.len() && e2[i].0@ == q;
            assert(e2[i].0 == entries[i].0);
        }
    }
    assert forall|q: Seq<char>| stats_map(e2).dom().contains(q) implies #[trigger] stats_map(
        e2,
    )[q] == stats_map(entries).insert(key, v)[q] by {
        let i = choose|i: int| 0 <= i < e2.len() && e2[i].0@ == q;
        lemma_stats_hit(e2, i);
        if q != key {
            assert(i != k);
            assert(e2[i] == entries[i]);
            lemma_stats_hit(entries, i);
        }
    }
}

/// Appending an entry under a new name inserts it into the map.
proof fn lemma_stats_push(entries: Seq<(String, TopicStats)>, name: String, v: TopicStats)
    requires
        distinct_names(entries),
        forall|i: int| 0 <= i < entries.len() ==> entries[i].0@ != name@,
    ensures
        distinct_names(entries.push((name, v))),
        stats_map(entries.push((name, v))) =~= stats_map(entries).insert(name@, v),
{
    let e2 = entries.push((name, v));
    let k = entries.len() as int;
    assert(distinct_names(e2)) by {
        assert forall|i: int, j: int|
            0 <= i < e2.len() && 0 <= j < e2.len() && i != j implies #[trigger] e2[i].0@
            != #[trigger] e2[j].0@ by {
            if i < k && j < k {
                assert(e2[i] == entries[i] && e2[j] == entries[j]);
            }
        }
    }
    lemma_stats_hit(e2, k);
    assert forall|q: Seq<char>| #[trigger]
        stats_map(e2).dom().contains(q) == stats_map(entries).insert(name@, v).dom().contains(
            q,
        ) by {
        if exists|i: int| 0 <= i < entries.len() && entries[i].0@ == q {
            let i = choose|i: int| 0 <= i < entries.len() && entries[i].0@ == q;
            assert(e2[i] == entries[i]);
        }
    }
    assert forall|q: Seq<char>| stats_map(e2).dom().contains(q) implies #[trigger] stats_map(
        e2,
    )[q] == stats_map(entries).insert(name@, v)[q] by {
        let i = choose|i: int| 0 <= i < e2.len() && e2[i].0@ == q;
        lemma_stats_hit(e2, i);
        if q != name@ {
            assert(i != k);
            assert(e2[i] == entries[i]);
            lemma_stats_hit(entries, i);
        }
    }
}

/// In a well-formed broker the subscriber at `i` is the one found by its id.
pub proof fn lemma_find_at(v: BrokerView, i: int)
    requires
        v.well_formed(),
        0 <= i < v.subscribers.len(),
    ensures
        v.find(v.subscribers[i].id) == Some(i),
{
    let id = v.subscribers[i].id;
    assert(exists|j: int| 0 <= j < v.subscribers.len() && v.subscribers[j].id == id);
    let j = choose|j: int| 0 <= j < v.subscribers.len() && v.subscribers[j].id == id;
    if j < i {
        assert(v.subscribers[j].id < v.subscribers[i].id);
    } else if i < j {
        assert(v.subscribers[i].id < v.subscribers[j].id);
    }
}

/// What one publish does to one subscriber, returning whether the message
/// was enqueued and whether a message was dropped.
fn deliver_to(sub: &mut Subscriber, topic: &str, message: &Vec<u8>) -> (outcome: (bool, bool))
    requires
        old(sub)@.queue.len() <= old(sub)@.max_depth,
        accepts(old(sub)@, topic@) ==> old(sub)@.stats.delivered < u64::MAX,
        drops(old(sub)@, topic@) ==> old(sub)@.stats.dropped < u64::MAX,
    ensures
        final(sub)@ == deliver(old(sub)@, topic@, message@),
        outcome == (accepts(old(sub)@, topic@), drops(old(sub)@, topic@)),
{
    if !crate::topic::matches(sub.pattern.as_str(), topic) {
        return (false, false);
    }
    if sub.queue.len() >= sub.max_depth {
        match sub.policy {
            OverflowPolicy::DropOldest if sub.max_depth > 0 => {
                let _evicted = sub.queue.pop_front();
                let copy = message.clone();
                assert(copy@ =~= message@);
                sub.queue.push_back(copy);
                sub.stats.delivered = sub.stats.delivered + 1;
                sub.stats.dropped = sub.stats.dropped + 1;
                assert(sub@.queue =~= old(sub)@.queue.drop_first().push(message@));
                (true, true)
            },
            _ => {
                sub.stats.dropped = sub.stats.dropped + 1;
                assert(sub@.queue =~= old(sub)@.queue);
                (false, true)
            },
        }
    } else {
        let copy = message.clone();
        assert(copy@ =~= message@);
        sub.queue.push_back(copy);
        sub.stats.delivered = sub.stats.delivered + 1;
        assert(sub@.queue =~= old(sub)@.queue.push(message@));
        (true, false)
    }
}

/// At most every subscriber drops a message on a publish.
pub proof fn lemma_count_dropped_bound(subs: Seq<SubscriberView>, topic: Seq<char>)
    ensures
        count_dropped(subs, topic) <= subs.len(),
    decreases subs.len(),
{
    if subs.len() > 0 {
        lemma_count_dropped_bound(subs.drop_last(), topic);
    }
}

/// At most every subscriber accepts a publish.
pub proof fn lemma_count_accepted_bound(subs: Seq<SubscriberView>, topic: Seq<char>)
    ensures
        count_accepted(subs, topic) <= subs.len(),
    decreases subs.len(),
{
    if subs.len() > 0 {
        lemma_count_accepted_bound(subs.drop_last(), topic);
    }
}

impl Broker {
    /// The broker's internal invariant: its view is well formed and no
    /// topic name is counted twice.
    pub closed spec fn wf(&self) -> bool {
        &&& self@.well_formed()
        &&& distinct_names(self.topic_stats@)
    }

    /// A broker that keeps its invariant has a well-formed view.
    pub proof fn lemma_wf_view(&self)
        requires
            self.wf(),
        ensures
            self@.well_formed(),
    {
    }

    /// Create a broker that rejects any message body larger than
    /// `max_message_size` bytes.
    pub fn new(max_message_size: usize) -> (b: Broker)
        ensures
            b.wf(),
            b@.subscribers == Seq::<SubscriberView>::empty(),
            b@.next_id == 1,
            b@.max_message_size == max_message_size,
            b@.topic_stats == Map::<Seq<char>, TopicStats>::empty(),
    {
        let b = Broker {
            subscribers: Vec::new(),
            next_id: 1,
            max_message_size,
            topic_stats: Vec::new(),
        };
        assert(b@.subscribers =~= Seq::<SubscriberView>::empty());
        assert(b@.topic_stats =~= Map::<Seq<char>, TopicStats>::empty());
        b
    }

    /// The position of the subscriber with id `id`, if any, found by binary
    /// search over the ids, which increase along the list.
    fn position(&self, id: u64) -> (r: Option<usize>)
        requires
            self.wf(),
        ensures
            match r {
                Some(i) => self@.find(id) == Some(i as int) && i < self.subscribers@.len(),
                None => self@.find(id) is None,
            },
    {
        let n = self.subscribers.len();
        let mut lo: usize = 0;
        let mut hi: usize = n;
        while lo < hi
            invariant
                0 <= lo <= hi <= n,
                n == self.subscribers@.len(),
                self.wf(),
                forall|j: int| 0 <= j < lo ==> self@.subscribers[j].id < id,
                forall|j: int| hi <= j < n ==> self@.subscribers[j].id > id,
            decreases hi - lo,
        {
            let mid = lo + (hi - lo) / 2;
            let mid_id = self.subscribers[mid].id;
            if mid_id == id {
                proof {
                    lemma_find_at(self@, mid as int);
                }
                return Some(mid);
            } else if mid_id < id {
                assert forall|j: int| 0 <= j <= mid implies self@.subscribers[j].id < id by {
                    if j < mid {
                        assert(self@.subscribers[j].id < self@.subscribers[mid as int].id);
                    }
                }
                lo = mid + 1;
            } else {
                assert forall|j: int| mid <= j < n implies self@.subscribers[j].id > id by {
                    if j > mid {
                        assert(self@.subscribers[mid as int].id < self@.subscribers[j].id);
                    }
                }
                hi = mid;
            }
        }
        None
    }

    /// Subscribe to `pattern` (an exact topic or a `*`-wildcard pattern, see
    /// [`crate::topic::matches`]) with a bounded queue of `max_depth` messages
    /// and the given overflow policy. Returns the new subscriber's id. A
    /// depth of 0 gives a subscriber that queues nothing and drops every
    /// matching message.
    pub fn subscribe(&mut self, pattern: &str, max_depth: usize, policy: OverflowPolicy) -> (r:
        Result<u64, BrokerError>)
        requires
            old(self).wf(),
            pattern@.len() > 0 ==> old(self)@.next_id < u64::MAX,
        ensures
            final(self).wf(),
            pattern@.len() == 0 ==> r == Err::<u64, BrokerError>(BrokerError::EmptyTopic)
                && final(self)@ == old(self)@,
            pattern@.len() > 0 ==> r == Ok::<u64, BrokerError>(old(self)@.next_id)
                && final(self)@ == old(self)@.after_subscribe(pattern@, max_depth, policy),
    {
        if pattern.is_empty() {
            return Err(BrokerError::EmptyTopic);
        }
        let id = self.next_id;
        self.next_id = self.next_id + 1;
        let sub = Subscriber {
            id,
            pattern: pattern.to_owned(),
            queue: VecDeque::new(),
            max_depth,
            policy,
            stats: SubscriberStats { delivered: 0, dropped: 0 },
        };
        self.subscribers.push(sub);
        assert(sub@.queue =~= Seq::<Seq<u8>>::empty());
        assert(self@.subscribers =~= old(self)@.subscribers.push(
            new_subscriber(id, pattern@, max_depth, policy),
        ));
        Ok(id)
    }

    /// Remove a subscriber. After this call it receives no further
    /// messages and its queued messages are discarded.
    pub fn unsubscribe(&mut self, id: u64) -> (r: Result<(), BrokerError>)
        requires
            old(self).wf(),
        ensures
            final(self).wf(),
            match old(self)@.find(id) {
                Some(i) => r == Ok::<(), BrokerError>(()) && final(self)@ == old(self)@.after_unsubscribe(i),
                None => r == Err::<(), BrokerError>(BrokerError::UnknownSubscriber(id)) && final(self)@ == old(self)@,
            },
    {
        match self.position(id) {
            Some(i) => {
                let _gone = self.subscribers.remove(i);
                assert(self@.subscribers =~= old(self)@.subscribers.remove(i as int));
                Ok(())
            },
            None => Err(BrokerError::UnknownSubscriber(id)),
        }
    }

    /// How many messages are currently queued for a subscriber.
    pub fn queue_len(&self, id: u64) -> (r: Result<usize, BrokerError>)
        requires
            self.wf(),
        ensures
            r == match self@.lookup(id) {
                Some(sub) => Ok::<usize, BrokerError>(sub.queue.len() as usize),
                None => Err(BrokerError::UnknownSubscriber(id)),
            },
    {
        match self.position(id) {
            Some(i) => Ok(self.subscribers[i].queue.len()),
            None => Err(BrokerError::UnknownSubscriber(id)),
        }
    }

    /// Delivered/dropped counters for one subscriber.
    pub fn subscriber_stats(&self, id: u64) -> (r: Result<SubscriberStats, BrokerError>)
        requires
            self.wf(),
        ensures
            r == match self@.lookup(id) {
                Some(sub) => Ok::<SubscriberStats, BrokerError>(sub.stats),
                None => Err(BrokerError::UnknownSubscriber(id)),
            },
    {
        match self.position(id) {
            Some(i) => Ok(self.subscribers[i].stats),
            None => Err(BrokerError::UnknownSubscriber(id)),
        }
    }

    /// Publish `message` to `topic`. Delivers to every current subscriber
    /// whose pattern matches the topic, applying that subscriber's
    /// overflow policy if its queue is full. Returns the number of
    /// subscribers the message was actually enqueued for (drops do not
    /// count).
    pub fn publish(&mut self, topic: &str, message: Vec<u8>) -> (r: Result<usize, BrokerError>)
        requires
            old(self).wf(),
            topic@.len() > 0 && message@.len() <= old(self)@.max_message_size ==> old(
                self,
            )@.publish_fits(topic@),
        ensures
            final(self).wf(),
            topic@.len() == 0 ==> r == Err::<usize, BrokerError>(BrokerError::EmptyTopic)
                && final(self)@ == old(self)@,
            topic@.len() > 0 && message@.len() > old(self)@.max_message_size ==> r == Err::<
                usize,
                BrokerError,
            >(
                BrokerError::MessageTooLarge {
                    size: message@.len() as usize,
                    max: old(self)@.max_message_size,
                },
            ) && final(self)@ == old(self)@,
            topic@.len() > 0 && message@.len() <= old(self)@.max_message_size ==> r == Ok::<
                usize,
                BrokerError,
            >(count_accepted(old(self)@.subscribers, topic@) as usize) && final(self)@ == old(
                self,
            )@.after_publish(topic@, message@),
    {
        if topic.is_empty() {
            return Err(BrokerError::EmptyTopic);
        }
        if message.len() > self.max_message_size {
            return Err(
                BrokerError::MessageTooLarge { size: message.len(), max: self.max_message_size },
            );
        }
        let ghost subs0 = self@.subscribers;
        let n = self.subscribers.len();
        let mut delivered_count: usize = 0;
        let mut dropped_count: usize = 0;
        let mut i: usize = 0;
        while i < n
            invariant
                0 <= i <= n,
                n == subs0.len(),
                self.subscribers@.len() == n,
                subs0 == old(self)@.subscribers,
                old(self).wf(),
                old(self)@.publish_fits(topic@),
                forall|j: int| 0 <= j < i ==> self@.subscribers[j] == deliver(subs0[j], topic@, message@),
                forall|j: int| i <= j < n ==> self@.subscribers[j] == subs0[j],
                delivered_count == count_accepted(subs0.take(i as int), topic@),
                dropped_count == count_dropped(subs0.take(i as int), topic@),
                self.next_id == old(self).next_id,
                self.max_message_size == old(self).max_message_size,
                self.topic_stats == old(self).topic_stats,
            decreases n - i,
        {
            proof {
                lemma_count_accepted_bound(subs0.take(i as int), topic@);
                lemma_count_dropped_bound(subs0.take(i as int), topic@);
                assert(subs0.take(i + 1).drop_last() =~= subs0.take(i as int));
                assert(self@.subscribers[i as int] == subs0[i as int]);
            }
            let ghost before = self.subscribers@;
            let ghost before_view = self@.subscribers;
            let outcome = deliver_to(&mut self.subscribers[i], topic, &message);
            proof {
                assert forall|j: int| 0 <= j < n && j != i implies self@.subscribers[j]
                    == before_view[j] by {
                    assert(self.subscribers@[j] == before[j]);
                }
                assert(self.subscribers@[i as int]@ == deliver(before[i as int]@, topic@, message@));
                assert forall|j: int| 0 <= j <= i implies self@.subscribers[j] == deliver(
                    subs0[j],
                    topic@,
                    message@,
                ) by {
                    if j < i {
                        assert(before_view[j] == deliver(subs0[j], topic@, message@));
                    }
                }
            }
            if outcome.0 {
                delivered_count = delivered_count + 1;
            }
            if outcome.1 {
                dropped_count = dropped_count + 1;
            }
            i = i + 1;
        }
        proof {
            assert(subs0.take(n as int) =~= subs0);
            assert(self@.subscribers =~= old(self)@.after_publish(topic@, message@).subscribers);
        }
        let name = topic.to_owned();
        let ghost entries0 = self.topic_stats@;
        match self.stats_position(&name) {
            Some(k) => {
                proof {
                    lemma_stats_hit(entries0, k as int);
                }
                let current = self.topic_stats[k].1;
                let updated = TopicStats {
                    delivered: current.delivered + delivered_count as u64,
                    dropped: current.dropped + dropped_count as u64,
                };
                self.topic_stats[k].1 = updated;
                proof {
                    assert(self.topic_stats@ =~= entries0.update(
                        k as int,
                        (entries0[k as int].0, updated),
                    ));
                    lemma_stats_set(entries0, k as int, updated);
                }
            },
            None => {
                let fresh = TopicStats {
                    delivered: delivered_count as u64,
                    dropped: dropped_count as u64,
                };
                proof {
                    lemma_stats_push(entries0, name, fresh);
                }
                self.topic_stats.push((name, fresh));
            },
        }
        Ok(delivered_count)
    }

    /// Pop the next queued message for a subscriber, if any.
    pub fn receive(&mut self, id: u64) -> (r: Result<Option<Vec<u8>>, BrokerError>)
        requires
            old(self).wf(),
        ensures
            final(self).wf(),
            match old(self)@.find(id) {
                None => r == Err::<Option<Vec<u8>>, BrokerError>(BrokerError::UnknownSubscriber(id))
                    && final(self)@ == old(self)@,
                Some(i) => if old(self)@.subscribers[i].queue.len() == 0 {
                    r == Ok::<Option<Vec<u8>>, BrokerError>(None) && final(self)@ == old(self)@
                } else {
                    &&& r matches Ok(Some(m)) && m@ == old(self)@.subscribers[i].queue[0]
                    &&& final(self)@ == old(self)@.after_receive(i)
                },
            },
    {
        match self.position(id) {
            Some(i) => {
                let ghost before = self.subscribers[i as int];
                let m = self.subscribers[i].queue.pop_front();
                proof {
                    let after = self.subscribers[i as int];
                    if m is None {
                        assert(after@.queue =~= before@.queue);
                        assert(self@.subscribers =~= old(self)@.subscribers);
                    } else {
                        assert(after@.queue =~= before@.queue.drop_first());
                        assert(self@.subscribers =~= old(self)@.after_receive(i as int).subscribers);
                    }
                }
                Ok(m)
            },
            None => Err(BrokerError::UnknownSubscriber(id)),
        }
    }

    /// The position of the counters of the topic named `name`, if any.
    fn stats_position(&self, name: &String) -> (r: Option<usize>)
        requires
            self.wf(),
        ensures
            match r {
                Some(k) => k < self.topic_stats@.len() && self.topic_stats@[k as int].0@ == name@,
                None => forall|k: int|
                    0 <= k < self.topic_stats@.len() ==> self.topic_stats@[k].0@ != name@,
            },
    {
        let n = self.topic_stats.len();
        let mut k: usize = 0;
        while k < n
            invariant
                0 <= k <= n,
                n == self.topic_stats@.len(),
                forall|j: int| 0 <= j < k ==> self.topic_stats@[j].0@ != name@,
            decreases n - k,
        {
            if self.topic_stats[k].0 == *name {
                return Some(k);
            }
            k = k + 1;
        }
        None
    }

    /// Delivered/dropped counters for a topic name, as published to so far.
    pub fn topic_stats(&self, topic: &str) -> (s: TopicStats)
        requires
            self.wf(),
        ensures
            s == self@.stats_of(topic@),
    {
        let name = topic.to_owned();
        match self.stats_position(&name) {
            Some(k) => {
                proof {
                    lemma_stats_hit(self.topic_stats@, k as int);
                }
                self.topic_stats[k].1
            },
            None => TopicStats { delivered: 0, dropped: 0 },
        }
    }

    /// Number of currently active subscribers.
    pub fn subscriber_count(&self) -> (n: usize)
        ensures
            n == self@.subscribers.len(),
    {
        self.subscribers.len()
    }
}

} // verus!
