use riverbed::{Broker, BrokerError, OverflowPolicy, SubscriberStats, TopicStats};

#[test]
fn delivers_to_all_subscribers_of_topic_and_no_other_topic() {
    let mut b = Broker::new(1024);
    let a = b.subscribe("orders", 10, OverflowPolicy::RejectNew).unwrap();
    let c = b.subscribe("orders", 10, OverflowPolicy::RejectNew).unwrap();
    let other = b.subscribe("shipping", 10, OverflowPolicy::RejectNew).unwrap();

    b.publish("orders", b"hello".to_vec()).unwrap();

    assert_eq!(b.receive(a).unwrap(), Some(b"hello".to_vec()));
    assert_eq!(b.receive(c).unwrap(), Some(b"hello".to_vec()));
    assert_eq!(b.receive(other).unwrap(), None);
}

#[test]
fn wildcard_delivers_only_to_matching_topics() {
    let mut b = Broker::new(1024);
    let s = b.subscribe("logs.*", 10, OverflowPolicy::RejectNew).unwrap();

    b.publish("logs.error", b"e".to_vec()).unwrap();
    b.publish("metrics.error", b"m".to_vec()).unwrap();

    assert_eq!(b.receive(s).unwrap(), Some(b"e".to_vec()));
    assert_eq!(b.receive(s).unwrap(), None);
}

#[test]
fn bounded_queue_drops_oldest_at_capacity_instead_of_growing() {
    let mut b = Broker::new(1024);
    let s = b.subscribe("t", 2, OverflowPolicy::DropOldest).unwrap();

    b.publish("t", b"1".to_vec()).unwrap();
    b.publish("t", b"2".to_vec()).unwrap();
    b.publish("t", b"3".to_vec()).unwrap();

    assert_eq!(b.queue_len(s).unwrap(), 2);
    assert_eq!(b.receive(s).unwrap(), Some(b"2".to_vec()));
    assert_eq!(b.receive(s).unwrap(), Some(b"3".to_vec()));
}

#[test]
fn bounded_queue_rejects_new_at_capacity_instead_of_growing() {
    let mut b = Broker::new(1024);
    let s = b.subscribe("t", 2, OverflowPolicy::RejectNew).unwrap();

    b.publish("t", b"1".to_vec()).unwrap();
    b.publish("t", b"2".to_vec()).unwrap();
    b.publish("t", b"3".to_vec()).unwrap();

    assert_eq!(b.queue_len(s).unwrap(), 2);
    assert_eq!(b.receive(s).unwrap(), Some(b"1".to_vec()));
    assert_eq!(b.receive(s).unwrap(), Some(b"2".to_vec()));
}

#[test]
fn counters_reflect_delivered_and_dropped() {
    let mut b = Broker::new(1024);
    let s = b.subscribe("t", 1, OverflowPolicy::RejectNew).unwrap();

    b.publish("t", b"1".to_vec()).unwrap();
    b.publish("t", b"2".to_vec()).unwrap();
    b.publish("t", b"3".to_vec()).unwrap();

    let stats = b.subscriber_stats(s).unwrap();
    assert_eq!(stats.delivered, 1);
    assert_eq!(stats.dropped, 2);

    let tstats = b.topic_stats("t");
    assert_eq!(tstats.delivered, 1);
    assert_eq!(tstats.dropped, 2);
}

#[test]
fn unsubscribe_stops_delivery() {
    let mut b = Broker::new(1024);
    let s = b.subscribe("t", 10, OverflowPolicy::RejectNew).unwrap();
    b.unsubscribe(s).unwrap();

    let result = b.publish("t", b"x".to_vec()).unwrap();
    assert_eq!(result, 0);
    assert!(matches!(b.receive(s), Err(BrokerError::UnknownSubscriber(_))));
}

#[test]
fn message_too_large_is_rejected() {
    let mut b = Broker::new(4);
    let err = b.publish("t", b"way too big".to_vec()).unwrap_err();
    assert!(matches!(err, BrokerError::MessageTooLarge { .. }));
}

#[test]
fn message_too_large_reports_sizes_and_changes_nothing() {
    let mut b = Broker::new(4);
    let s = b.subscribe("t", 10, OverflowPolicy::RejectNew).unwrap();
    let err = b.publish("t", b"way too big".to_vec()).unwrap_err();
    assert_eq!(err, BrokerError::MessageTooLarge { size: 11, max: 4 });
    assert_eq!(b.queue_len(s).unwrap(), 0);
    assert_eq!(b.topic_stats("t"), TopicStats::default());
    // exactly at the limit is accepted
    assert_eq!(b.publish("t", b"four".to_vec()), Ok(1));
}

#[test]
fn empty_topic_and_pattern_are_rejected() {
    let mut b = Broker::new(16);
    assert_eq!(b.subscribe("", 10, OverflowPolicy::RejectNew), Err(BrokerError::EmptyTopic));
    assert_eq!(b.publish("", b"x".to_vec()), Err(BrokerError::EmptyTopic));
    assert_eq!(b.subscriber_count(), 0);
    // an empty topic is reported even when the message is also too large
    assert_eq!(b.publish("", vec![0; 100]), Err(BrokerError::EmptyTopic));
}

#[test]
fn ids_start_at_one_and_are_never_reused() {
    let mut b = Broker::new(16);
    let a = b.subscribe("t", 1, OverflowPolicy::RejectNew).unwrap();
    let c = b.subscribe("t", 1, OverflowPolicy::RejectNew).unwrap();
    assert_eq!((a, c), (1, 2));
    b.unsubscribe(c).unwrap();
    let d = b.subscribe("t", 1, OverflowPolicy::RejectNew).unwrap();
    assert_eq!(d, 3);
    assert_eq!(b.unsubscribe(c), Err(BrokerError::UnknownSubscriber(2)));
    assert_eq!(b.queue_len(c), Err(BrokerError::UnknownSubscriber(2)));
    assert_eq!(b.subscriber_stats(c), Err(BrokerError::UnknownSubscriber(2)));
    assert_eq!(b.subscriber_count(), 2);
}

#[test]
fn zero_depth_queues_nothing() {
    let mut b = Broker::new(1024);
    let s = b.subscribe("t", 0, OverflowPolicy::RejectNew).unwrap();
    assert_eq!(b.publish("t", b"x".to_vec()), Ok(0));
    assert_eq!(b.queue_len(s), Ok(0));
    assert_eq!(
        b.subscriber_stats(s),
        Ok(SubscriberStats { delivered: 0, dropped: 1 })
    );
    assert_eq!(b.receive(s), Ok(None));

    let d = b.subscribe("u", 0, OverflowPolicy::DropOldest).unwrap();
    assert_eq!(b.publish("u", b"a".to_vec()), Ok(0));
    assert_eq!(b.publish("u", b"b".to_vec()), Ok(0));
    assert_eq!(b.queue_len(d), Ok(0));
    assert_eq!(
        b.subscriber_stats(d),
        Ok(SubscriberStats { delivered: 0, dropped: 2 })
    );
    assert_eq!(b.topic_stats("u"), TopicStats { delivered: 0, dropped: 2 });
}

#[test]
fn delivered_is_queued_plus_received_plus_evicted() {
    let mut b = Broker::new(16);
    let keep = b.subscribe("t", 3, OverflowPolicy::DropOldest).unwrap();
    let reject = b.subscribe("t", 2, OverflowPolicy::RejectNew).unwrap();
    let mut received = [0u64; 2];
    for i in 0..20u8 {
        b.publish("t", vec![i]).unwrap();
        if i % 3 == 0 {
            for (k, id) in [keep, reject].iter().enumerate() {
                if b.receive(*id).unwrap().is_some() {
                    received[k] += 1;
                }
            }
        }
    }
    let sk = b.subscriber_stats(keep).unwrap();
    assert_eq!(sk.delivered, b.queue_len(keep).unwrap() as u64 + received[0] + sk.dropped);
    let sr = b.subscriber_stats(reject).unwrap();
    assert_eq!(sr.delivered, b.queue_len(reject).unwrap() as u64 + received[1]);
}

#[test]
fn many_messages_come_out_in_publish_order() {
    let mut b = Broker::new(16);
    let s = b.subscribe("q", 100, OverflowPolicy::RejectNew).unwrap();
    for i in 0..50u8 {
        b.publish("q", vec![i]).unwrap();
    }
    for i in 0..50u8 {
        assert_eq!(b.receive(s), Ok(Some(vec![i])));
    }
    assert_eq!(b.receive(s), Ok(None));
}

#[test]
fn lookups_find_every_subscriber_among_many() {
    let mut b = Broker::new(16);
    let mut ids = Vec::new();
    for i in 0..40usize {
        ids.push(b.subscribe("t", i, OverflowPolicy::RejectNew).unwrap());
    }
    for k in (0..40).step_by(3) {
        b.unsubscribe(ids[k]).unwrap();
    }
    for (k, id) in ids.iter().enumerate() {
        if k % 3 == 0 {
            assert_eq!(b.queue_len(*id), Err(BrokerError::UnknownSubscriber(*id)));
        } else {
            assert_eq!(b.queue_len(*id), Ok(0));
        }
    }
    assert_eq!(b.queue_len(0), Err(BrokerError::UnknownSubscriber(0)));
    assert_eq!(b.queue_len(1000), Err(BrokerError::UnknownSubscriber(1000)));
}

#[test]
fn drop_oldest_counts_both_eviction_and_arrival() {
    let mut b = Broker::new(16);
    let s = b.subscribe("t", 1, OverflowPolicy::DropOldest).unwrap();
    assert_eq!(b.publish("t", b"a".to_vec()), Ok(1));
    assert_eq!(b.publish("t", b"b".to_vec()), Ok(1));
    assert_eq!(
        b.subscriber_stats(s),
        Ok(SubscriberStats { delivered: 2, dropped: 1 })
    );
    assert_eq!(b.topic_stats("t"), TopicStats { delivered: 2, dropped: 1 });
    assert_eq!(b.receive(s), Ok(Some(b"b".to_vec())));
    assert_eq!(b.receive(s), Ok(None));
}

#[test]
fn topic_counters_are_sums_over_subscribers() {
    let mut b = Broker::new(16);
    let x = b.subscribe("t.*", 1, OverflowPolicy::RejectNew).unwrap();
    let y = b.subscribe("t.a", 2, OverflowPolicy::DropOldest).unwrap();
    let _z = b.subscribe("u", 5, OverflowPolicy::RejectNew).unwrap();
    for i in 0..3u8 {
        b.publish("t.a", vec![i]).unwrap();
    }
    let sx = b.subscriber_stats(x).unwrap();
    let sy = b.subscriber_stats(y).unwrap();
    let t = b.topic_stats("t.a");
    assert_eq!(t.delivered, sx.delivered + sy.delivered);
    assert_eq!(t.dropped, sx.dropped + sy.dropped);
    assert_eq!(t, TopicStats { delivered: 4, dropped: 3 });
    assert_eq!(b.topic_stats("t.b"), TopicStats::default());
    assert_eq!(b.topic_stats("u"), TopicStats::default());
}

#[test]
fn publish_without_subscribers_records_topic() {
    let mut b = Broker::new(16);
    assert_eq!(b.publish("nobody", b"x".to_vec()), Ok(0));
    assert_eq!(b.topic_stats("nobody"), TopicStats { delivered: 0, dropped: 0 });
}

#[test]
fn queue_is_first_in_first_out() {
    let mut b = Broker::new(16);
    let s = b.subscribe("q", 5, OverflowPolicy::RejectNew).unwrap();
    b.publish("q", vec![1]).unwrap();
    b.publish("q", vec![2]).unwrap();
    assert_eq!(b.receive(s), Ok(Some(vec![1])));
    b.publish("q", vec![3]).unwrap();
    assert_eq!(b.receive(s), Ok(Some(vec![2])));
    assert_eq!(b.receive(s), Ok(Some(vec![3])));
    assert_eq!(b.receive(s), Ok(None));
}

#[test]
fn slow_subscriber_affects_only_itself() {
    let mut b = Broker::new(16);
    let slow = b.subscribe("t", 1, OverflowPolicy::RejectNew).unwrap();
    let fast = b.subscribe("t", 100, OverflowPolicy::RejectNew).unwrap();
    for i in 0..10u8 {
        b.publish("t", vec![i]).unwrap();
    }
    assert_eq!(b.queue_len(slow), Ok(1));
    assert_eq!(b.queue_len(fast), Ok(10));
    assert_eq!(
        b.subscriber_stats(fast),
        Ok(SubscriberStats { delivered: 10, dropped: 0 })
    );
}

#[test]
fn backlog_never_exceeds_total_depth() {
    let mut b = Broker::new(16);
    let depths = [1usize, 3, 7];
    let mut ids = Vec::new();
    for d in depths {
        ids.push(b.subscribe("m", d, OverflowPolicy::DropOldest).unwrap());
    }
    for i in 0..50u8 {
        b.publish("m", vec![i]).unwrap();
        let total: usize = ids.iter().map(|id| b.queue_len(*id).unwrap()).sum();
        assert!(total <= depths.iter().sum::<usize>());
    }
    assert_eq!(b.receive(ids[2]), Ok(Some(vec![43])));
}

#[test]
fn error_text() {
    assert_eq!(
        BrokerError::MessageTooLarge { size: 11, max: 4 }.to_string(),
        "message size 11 exceeds max 4"
    );
    assert_eq!(
        BrokerError::UnknownSubscriber(1234567890).to_string(),
        "unknown subscriber id 1234567890"
    );
    assert_eq!(BrokerError::UnknownSubscriber(0).to_string(), "unknown subscriber id 0");
    assert_eq!(BrokerError::EmptyTopic.to_string(), "topic name must not be empty");
    assert_eq!(
        BrokerError::MessageTooLarge { size: usize::MAX, max: 10 }.to_string(),
        format!("message size {} exceeds max 10", usize::MAX)
    );
}

#[test]
fn order_is_kept_across_different_matching_topics() {
    let mut b = Broker::new(16);
    let s = b.subscribe("logs.*", 10, OverflowPolicy::RejectNew).unwrap();
    b.publish("logs.error", vec![1]).unwrap();
    b.publish("logs.info", vec![2]).unwrap();
    b.publish("metrics.cpu", vec![9]).unwrap();
    b.publish("logs.warn", vec![3]).unwrap();
    assert_eq!(b.receive(s), Ok(Some(vec![1])));
    assert_eq!(b.receive(s), Ok(Some(vec![2])));
    assert_eq!(b.receive(s), Ok(Some(vec![3])));
    assert_eq!(b.receive(s), Ok(None));
}
