//! Laws over whole histories of calls on a broker.
use vstd::prelude::*;

use crate::broker::{BrokerView, OverflowPolicy};
use crate::laws::{
    law_delivered_is_queued_plus_received_plus_evicted,
    law_operations_preserve_well_formed,
    received_count,
};

verus! {

/// One call on a broker, with its arguments.
pub enum Call {
    Subscribe { pattern: Seq<char>, max_depth: usize, policy: OverflowPolicy },
    Unsubscribe { id: u64 },
    Publish { topic: Seq<char>, message: Seq<u8> },
    Receive { id: u64 },
}

/// The broker after `call`, as the call's contract fixes it; a call that
/// fails, or a receive from an empty queue, leaves the broker as it was.
pub open spec fn after_call(v: BrokerView, call: Call) -> BrokerView {
    match call {
        Call::Subscribe { pattern, max_depth, policy } => if pattern.len() == 0 {
            v
        } else {
            v.after_subscribe(pattern, max_depth, policy)
        },
        Call::Unsubscribe { id } => match v.find(id) {
            Some(i) => v.after_unsubscribe(i),
            None => v,
        },
        Call::Publish { topic, message } => if topic.len() == 0 || message.len()
            > v.max_message_size {
            v
        } else {
            v.after_publish(topic, message)
        },
        Call::Receive { id } => match v.find(id) {
            Some(i) => if v.subscribers[i].queue.len() > 0 {
                v.after_receive(i)
            } else {
                v
            },
            None => v,
        },
    }
}

/// `call` meets the preconditions of its function on `v`: no id or counter
/// would pass `u64::MAX`.
pub open spec fn call_fits(v: BrokerView, call: Call) -> bool {
    match call {
        Call::Subscribe { pattern, .. } => pattern.len() > 0 ==> v.next_id < u64::MAX,
        Call::Publish { topic, message } => topic.len() > 0 && message.len()
            <= v.max_message_size ==> v.publish_fits(topic),
        _ => true,
    }
}

/// `call` is a receive by subscriber `id` that yields a message.
pub open spec fn call_receives(v: BrokerView, call: Call, id: u64) -> bool {
    &&& call matches Call::Receive { id: target }
    &&& target == id
    &&& v.lookup(id) matches Some(sub)
    &&& sub.queue.len() > 0
}

/// The broker after `calls`, one after another.
pub open spec fn run(v: BrokerView, calls: Seq<Call>) -> BrokerView
    decreases calls.len(),
{
    if calls.len() == 0 {
        v
    } else {
        after_call(run(v, calls.drop_last()), calls.last())
    }
}

/// Every call of `calls` meets its preconditions when it is made.
pub open spec fn run_fits(v: BrokerView, calls: Seq<Call>) -> bool
    decreases calls.len(),
{
    if calls.len() == 0 {
        true
    } else {
        run_fits(v, calls.drop_last()) && call_fits(run(v, calls.drop_last()), calls.last())
    }
}

/// How many calls of `calls` were receives by subscriber `id` that yielded a message.
pub open spec fn receives_of(v: BrokerView, calls: Seq<Call>, id: u64) -> nat
    decreases calls.len(),
{
    if calls.len() == 0 {
        0
    } else {
        receives_of(v, calls.drop_last(), id) + if call_receives(
            run(v, calls.drop_last()),
            calls.last(),
            id,
        ) {
            1nat
        } else {
            0nat
        }
    }
}

/// What `received_count` was for subscriber `id` before the calls, zero if
/// it did not exist yet.
pub open spec fn received_before(v: BrokerView, id: u64) -> int {
    match v.lookup(id) {
        Some(sub) => received_count(sub),
        None => 0,
    }
}

/// The invariant kept along a history.
spec fn history_inv(v: BrokerView, calls: Seq<Call>) -> bool {
    let w = run(v, calls);
    &&& w.well_formed()
    &&& w.next_id >= v.next_id
    &&& forall|i: int|
        0 <= i < w.subscribers.len() ==> #[trigger] received_count(w.subscribers[i])
            == received_before(v, w.subscribers[i].id) + receives_of(v, calls, w.subscribers[i].id)
    &&& forall|id: u64| id >= w.next_id ==> #[trigger] receives_of(v, calls, id) == 0
    &&& forall|id: u64, i: int|
        #![trigger v.lookup(id), w.subscribers[i]]
        id < v.next_id && v.lookup(id) is None && 0 <= i < w.subscribers.len()
            ==> w.subscribers[i].id != id
}

/// In a well-formed broker, `lookup` finds exactly the subscribers present.
proof fn lemma_lookup(v: BrokerView, id: u64)
    requires
        v.well_formed(),
    ensures
        v.lookup(id) is Some ==> id < v.next_id,
        v.lookup(id) matches Some(s) ==> s.id == id && exists|i: int|
            0 <= i < v.subscribers.len() && v.subscribers[i] == s,
        v.lookup(id) is None ==> forall|i: int|
            0 <= i < v.subscribers.len() ==> v.subscribers[i].id != id,
{
    if v.lookup(id) is Some {
        let i = choose|i: int| 0 <= i < v.subscribers.len() && v.subscribers[i].id == id;
        assert(v.subscribers[i].id < v.next_id);
    }
}

#[verifier::rlimit(40)]
proof fn lemma_history(v: BrokerView, calls: Seq<Call>)
    requires
        v.well_formed(),
        run_fits(v, calls),
    ensures
        history_inv(v, calls),
    decreases calls.len(),
{
    if calls.len() == 0 {
        assert forall|i: int| 0 <= i < v.subscribers.len() implies #[trigger] received_count(
            v.subscribers[i],
        ) == received_before(v, v.subscribers[i].id) + receives_of(v, calls, v.subscribers[i].id) by {
            crate::broker::lemma_find_at(v, i);
        }
        return;
    }
    let init = calls.drop_last();
    let call = calls.last();
    lemma_history(v, init);
    let w = run(v, init);
    let w2 = run(v, calls);
    assert(w2 == after_call(w, call));
    assert(forall|id: u64| #[trigger] receives_of(v, calls, id) == receives_of(v, init, id) + if call_receives(w, call, id) {
        1nat
    } else {
        0nat
    });
    match call {
        Call::Subscribe { pattern, max_depth, policy } => {
            assert(forall|id: u64| !call_receives(w, call, id));
            if pattern.len() > 0 {
                law_operations_preserve_well_formed(w, pattern, max_depth, policy, Seq::empty(), Seq::empty(), 0);
                let n = w.subscribers.len() as int;
                lemma_lookup(v, w.next_id);
                law_delivered_is_queued_plus_received_plus_evicted(w, w.next_id, pattern, max_depth, policy, Seq::empty(), Seq::empty(), 0);
                assert forall|i: int| 0 <= i < w2.subscribers.len() implies #[trigger] received_count(w2.subscribers[i])
                    == received_before(v, w2.subscribers[i].id) + receives_of(v, calls, w2.subscribers[i].id) by {
                    if i < n {
                        assert(w2.subscribers[i] == w.subscribers[i]);
                    }
                }
                assert forall|id: u64, i: int|
                    #![trigger v.lookup(id), w2.subscribers[i]]
                    id < v.next_id && v.lookup(id) is None && 0 <= i < w2.subscribers.len()
                        implies w2.subscribers[i].id != id by {
                    if i < n {
                        assert(w2.subscribers[i] == w.subscribers[i]);
                    }
                }
            }
        },
        Call::Unsubscribe { id: target } => {
            assert(forall|id: u64| !call_receives(w, call, id));
            if let Some(k) = w.find(target) {
                law_operations_preserve_well_formed(w, Seq::empty(), 0, OverflowPolicy::RejectNew, Seq::empty(), Seq::empty(), k);
                assert forall|i: int| 0 <= i < w2.subscribers.len() implies #[trigger] received_count(w2.subscribers[i])
                    == received_before(v, w2.subscribers[i].id) + receives_of(v, calls, w2.subscribers[i].id) by {
                    let i2 = if i < k { i } else { i + 1 };
                    assert(w2.subscribers[i] == w.subscribers[i2]);
                }
                assert forall|id: u64, i: int|
                    #![trigger v.lookup(id), w2.subscribers[i]]
                    id < v.next_id && v.lookup(id) is None && 0 <= i < w2.subscribers.len()
                        implies w2.subscribers[i].id != id by {
                    let i2 = if i < k { i } else { i + 1 };
                    assert(w2.subscribers[i] == w.subscribers[i2]);
                }
            }
        },
        Call::Publish { topic, message } => {
            assert(forall|id: u64| !call_receives(w, call, id));
            if !(topic.len() == 0 || message.len() > w.max_message_size) {
                assert(call_fits(w, call));
                law_operations_preserve_well_formed(w, Seq::empty(), 0, OverflowPolicy::RejectNew, topic, message, 0);
                law_delivered_is_queued_plus_received_plus_evicted(w, 0, Seq::empty(), 0, OverflowPolicy::RejectNew, topic, message, 0);
                assert forall|i: int| 0 <= i < w2.subscribers.len() implies #[trigger] received_count(w2.subscribers[i])
                    == received_before(v, w2.subscribers[i].id) + receives_of(v, calls, w2.subscribers[i].id) by {
                    assert(w2.subscribers[i].id == w.subscribers[i].id);
                }
                assert forall|id: u64, i: int|
                    #![trigger v.lookup(id), w2.subscribers[i]]
                    id < v.next_id && v.lookup(id) is None && 0 <= i < w2.subscribers.len()
                        implies w2.subscribers[i].id != id by {
                    assert(w2.subscribers[i].id == w.subscribers[i].id);
                }
            }
        },
        Call::Receive { id: target } => {
            lemma_lookup(w, target);
            match w.find(target) {
                Some(k) => {
                    crate::broker::lemma_find_at(w, k);
                    if w.subscribers[k].queue.len() > 0 {
                        assert(call_receives(w, call, target));
                        assert(forall|id: u64| id != target ==> !call_receives(w, call, id));
                        law_operations_preserve_well_formed(w, Seq::empty(), 0, OverflowPolicy::RejectNew, Seq::empty(), Seq::empty(), k);
                        law_delivered_is_queued_plus_received_plus_evicted(w, 0, Seq::empty(), 0, OverflowPolicy::RejectNew, Seq::empty(), Seq::empty(), k);
                        assert forall|i: int| 0 <= i < w2.subscribers.len() implies #[trigger] received_count(w2.subscribers[i])
                            == received_before(v, w2.subscribers[i].id) + receives_of(v, calls, w2.subscribers[i].id) by {
                            if i != k {
                                assert(w2.subscribers[i] == w.subscribers[i]);
                                assert(w.subscribers[i].id != w.subscribers[k].id) by {
                                    if i < k {
                                        assert(w.subscribers[i].id < w.subscribers[k].id);
                                    } else {
                                        assert(w.subscribers[k].id < w.subscribers[i].id);
                                    }
                                }
                            }
                        }
                        assert forall|id: u64, i: int|
                            #![trigger v.lookup(id), w2.subscribers[i]]
                            id < v.next_id && v.lookup(id) is None && 0 <= i < w2.subscribers.len()
                                implies w2.subscribers[i].id != id by {
                            assert(w2.subscribers[i].id == w.subscribers[i].id);
                        }
                    } else {
                        assert(forall|id: u64| !call_receives(w, call, id));
                    }
                },
                None => {
                    assert(forall|id: u64| !call_receives(w, call, id));
                },
            }
        },
    }
}

/// Over any history of calls, for every subscriber present at its end,
/// `delivered == queued + received + evicted`, where `received` counts the
/// receives that yielded a message to it (plus what it had received before
/// the history began). Along the way the broker stays well formed, and an
/// id handed out before and absent at the start never comes back, so
/// ids are never reused.
pub proof fn law_history_accounts_for_every_delivery(v: BrokerView, calls: Seq<Call>, id: u64)
    requires
        v.well_formed(),
        run_fits(v, calls),
    ensures
        run(v, calls).well_formed(),
        run(v, calls).lookup(id) matches Some(sub) ==> sub.stats.delivered == sub.queue.len()
            + receives_of(v, calls, id) + received_before(v, id) + crate::laws::evicted(sub),
        id < v.next_id && v.lookup(id) is None ==> run(v, calls).lookup(id) is None,
{
    lemma_history(v, calls);
    let w = run(v, calls);
    lemma_lookup(w, id);
    if w.lookup(id) is Some {
        let i = choose|i: int| 0 <= i < w.subscribers.len() && w.subscribers[i].id == id;
        assert(received_count(w.subscribers[i]) == received_before(v, id) + receives_of(v, calls, id));
    }
}

} // verus!
