use ternary_channel::{
    BroadcastChannel, Channel, ChannelMux, DeliveryStatus, DirectChannel, Message,
    PriorityChannel, ReliableChannel, TernaryPriority,
};

fn note(id: u64, priority: TernaryPriority) -> Message {
    Message::new(id, "from", "to", vec![id as u8], priority)
}

// -- Message and priority --

#[test]
fn message_new_keeps_fields() {
    let m = Message::new(7, "room-a", "room-b", vec![0x42], TernaryPriority::Positive);
    assert_eq!(m.id, 7);
    assert_eq!(m.sender, "room-a");
    assert_eq!(m.recipient, "room-b");
    assert_eq!(m.payload, vec![0x42]);
    assert_eq!(m.priority, TernaryPriority::Positive);
}

#[test]
fn priority_values_and_order() {
    assert_eq!(TernaryPriority::Negative.value(), -1);
    assert_eq!(TernaryPriority::Neutral.value(), 0);
    assert_eq!(TernaryPriority::Positive.value(), 1);
    assert!(TernaryPriority::Positive > TernaryPriority::Neutral);
    assert!(TernaryPriority::Neutral > TernaryPriority::Negative);
}

// -- DirectChannel --

#[test]
fn direct_errors_name_the_cause() {
    let mut ch = DirectChannel::new("d", 1);
    assert_eq!(ch.name(), "d");
    ch.send(note(1, TernaryPriority::Neutral)).unwrap();
    assert_eq!(ch.send(note(2, TernaryPriority::Neutral)), Err("Channel buffer full"));
    ch.close();
    assert_eq!(ch.send(note(3, TernaryPriority::Neutral)), Err("Channel is closed"));
}

#[test]
fn direct_zero_capacity_refuses_everything() {
    let mut ch = DirectChannel::new("d", 0);
    assert_eq!(ch.send(note(1, TernaryPriority::Positive)), Err("Channel buffer full"));
    assert_eq!(ch.pending_count(), 0);
}

#[test]
fn direct_closed_hands_out_nothing_but_keeps_messages() {
    let mut ch = DirectChannel::new("d", 5);
    ch.send(note(1, TernaryPriority::Neutral)).unwrap();
    ch.close();
    assert!(ch.receive().is_none());
    assert_eq!(ch.pending_count(), 1);
}

#[test]
fn direct_send_never_overtakes() {
    let mut ch = DirectChannel::new("d", 5);
    ch.send(note(1, TernaryPriority::Negative)).unwrap();
    ch.send(note(2, TernaryPriority::Positive)).unwrap();
    assert_eq!(ch.receive().unwrap().id, 1);
    ch.send(note(3, TernaryPriority::Positive)).unwrap();
    assert_eq!(ch.receive().unwrap().id, 2);
    assert_eq!(ch.receive().unwrap().id, 3);
    assert!(ch.receive().is_none());
}

// -- BroadcastChannel --

#[test]
fn broadcast_errors_name_the_cause() {
    let mut ch = BroadcastChannel::new("b", 1);
    assert_eq!(ch.name(), "b");
    ch.subscribe("x").unwrap();
    assert_eq!(ch.subscribe("x"), Err("Already subscribed"));
    ch.send(note(1, TernaryPriority::Neutral)).unwrap();
    assert_eq!(ch.send(note(2, TernaryPriority::Neutral)), Err("Channel buffer full"));
    ch.close();
    assert_eq!(ch.send(note(3, TernaryPriority::Neutral)), Err("Channel is closed"));
    assert!(ch.receive().is_none());
    assert_eq!(ch.pending_count(), 1);
}

#[test]
fn broadcast_unsubscribe_keeps_order_of_others() {
    let mut ch = BroadcastChannel::new("b", 3);
    ch.subscribe("a").unwrap();
    ch.subscribe("b").unwrap();
    ch.subscribe("c").unwrap();
    ch.unsubscribe("b");
    ch.unsubscribe("nobody");
    let subs: Vec<&str> = ch.subscribers().iter().map(|s| s.as_str()).collect();
    assert_eq!(subs, vec!["a", "c"]);
}

#[test]
fn broadcast_subscribe_then_unsubscribe_restores() {
    let mut ch = BroadcastChannel::new("b", 3);
    ch.subscribe("a").unwrap();
    ch.subscribe("b").unwrap();
    ch.subscribe("new").unwrap();
    ch.unsubscribe("new");
    let subs: Vec<&str> = ch.subscribers().iter().map(|s| s.as_str()).collect();
    assert_eq!(subs, vec!["a", "b"]);
    assert_eq!(ch.subscriber_count(), 2);
}

// -- PriorityChannel --

#[test]
fn priority_fifo_within_band() {
    let mut ch = PriorityChannel::new("p", 10);
    ch.send(note(1, TernaryPriority::Neutral)).unwrap();
    ch.send(note(2, TernaryPriority::Positive)).unwrap();
    ch.send(note(3, TernaryPriority::Neutral)).unwrap();
    ch.send(note(4, TernaryPriority::Positive)).unwrap();
    ch.send(note(5, TernaryPriority::Negative)).unwrap();
    assert_eq!(ch.pending_count(), 5);
    let order: Vec<u64> = (0..5).map(|_| ch.receive().unwrap().id).collect();
    assert_eq!(order, vec![2, 4, 1, 3, 5]);
    assert!(ch.receive().is_none());
}

#[test]
fn priority_errors_and_close() {
    let mut ch = PriorityChannel::new("p", 1);
    assert_eq!(ch.name(), "p");
    ch.send(note(1, TernaryPriority::Negative)).unwrap();
    assert_eq!(ch.send(note(2, TernaryPriority::Positive)), Err("Channel buffer full"));
    ch.close();
    assert!(!ch.is_open());
    assert_eq!(ch.send(note(3, TernaryPriority::Positive)), Err("Channel is closed"));
    assert!(ch.receive().is_none());
    assert_eq!(ch.pending_count(), 1);
}

// -- ReliableChannel --

#[test]
fn reliable_retry_counts_and_limits() {
    let mut ch = ReliableChannel::new("r", 10, 1);
    assert_eq!(ch.name(), "r");
    ch.send(note(1, TernaryPriority::Neutral)).unwrap();
    ch.send(note(2, TernaryPriority::Neutral)).unwrap();
    ch.ack(2).unwrap();
    assert_eq!(ch.retry_pending(), 1);
    assert_eq!(ch.status(1), Some(DeliveryStatus::Pending));
    assert_eq!(ch.retry_pending(), 0);
    assert_eq!(ch.status(1), Some(DeliveryStatus::Failed));
    assert_eq!(ch.status(2), Some(DeliveryStatus::Acknowledged));
    assert_eq!(ch.count_with_status(DeliveryStatus::Failed), 1);
    assert_eq!(ch.count_with_status(DeliveryStatus::Acknowledged), 1);
    assert_eq!(ch.count_with_status(DeliveryStatus::Pending), 0);
}

#[test]
fn reliable_zero_retries_fails_on_first_round() {
    let mut ch = ReliableChannel::new("r", 10, 0);
    ch.send(note(1, TernaryPriority::Neutral)).unwrap();
    assert_eq!(ch.retry_pending(), 0);
    assert_eq!(ch.status(1), Some(DeliveryStatus::Failed));
}

#[test]
fn reliable_ack_survives_retries() {
    let mut ch = ReliableChannel::new("r", 10, 0);
    ch.send(note(1, TernaryPriority::Neutral)).unwrap();
    ch.ack(1).unwrap();
    ch.retry_pending();
    ch.retry_pending();
    assert_eq!(ch.status(1), Some(DeliveryStatus::Acknowledged));
}

#[test]
fn reliable_ack_takes_first_with_id() {
    let mut ch = ReliableChannel::new("r", 10, 3);
    ch.send(note(5, TernaryPriority::Neutral)).unwrap();
    ch.send(note(5, TernaryPriority::Positive)).unwrap();
    ch.ack(5).unwrap();
    assert_eq!(ch.count_with_status(DeliveryStatus::Acknowledged), 1);
    assert_eq!(ch.count_with_status(DeliveryStatus::Pending), 1);
    assert_eq!(ch.status(5), Some(DeliveryStatus::Acknowledged));
}

#[test]
fn reliable_errors_and_capacity() {
    let mut ch = ReliableChannel::new("r", 2, 3);
    assert_eq!(ch.ack(4), Err("Message ID not found in outbox"));
    assert_eq!(ch.status(4), None);
    ch.send(note(1, TernaryPriority::Neutral)).unwrap();
    ch.send(note(2, TernaryPriority::Neutral)).unwrap();
    assert_eq!(ch.pending_count(), 2);
    assert_eq!(ch.send(note(3, TernaryPriority::Neutral)), Err("Channel buffer full"));
    ch.ack(1).unwrap();
    ch.clean_outbox();
    assert_eq!(ch.pending_count(), 1);
    assert_eq!(ch.status(1), None);
    ch.send(note(3, TernaryPriority::Neutral)).unwrap();
    ch.close();
    assert_eq!(ch.send(note(4, TernaryPriority::Neutral)), Err("Channel is closed"));
    assert!(ch.receive().is_none());
}

#[test]
fn reliable_clean_keeps_exactly_pending() {
    let mut ch = ReliableChannel::new("r", 10, 0);
    ch.send(note(1, TernaryPriority::Neutral)).unwrap();
    ch.retry_pending();
    ch.send(note(2, TernaryPriority::Neutral)).unwrap();
    ch.send(note(3, TernaryPriority::Neutral)).unwrap();
    ch.ack(3).unwrap();
    ch.clean_outbox();
    assert_eq!(ch.count_with_status(DeliveryStatus::Pending), 1);
    assert_eq!(ch.count_with_status(DeliveryStatus::Failed), 0);
    assert_eq!(ch.count_with_status(DeliveryStatus::Acknowledged), 0);
    assert_eq!(ch.status(2), Some(DeliveryStatus::Pending));
}

// -- ChannelMux --

#[test]
fn mux_errors_name_the_cause() {
    let mut mux = ChannelMux::default();
    assert!(mux.is_open());
    assert_eq!(mux.add_channel("a", 1), Ok(()));
    assert_eq!(mux.add_channel("a", 1), Err("Channel name already exists"));
    assert_eq!(mux.send_on("zz", note(1, TernaryPriority::Neutral)), Err("Channel not found"));
    assert_eq!(mux.remove_channel("zz"), Err("Channel not found"));
    assert!(mux.receive_from("zz").is_none());
    mux.send_on("a", note(1, TernaryPriority::Neutral)).unwrap();
    assert_eq!(mux.send_on("a", note(2, TernaryPriority::Neutral)), Err("Channel buffer full"));
    mux.close();
    assert_eq!(mux.send_on("a", note(3, TernaryPriority::Neutral)), Err("Mux is closed"));
}

#[test]
fn mux_close_stops_sub_channels() {
    let mut mux = ChannelMux::new();
    mux.add_channel("a", 4).unwrap();
    mux.send_on("a", note(1, TernaryPriority::Neutral)).unwrap();
    mux.close();
    assert!(mux.receive_from("a").is_none());
    assert!(mux.receive_any().is_none());
    assert_eq!(mux.total_pending(), 1);
}

#[test]
fn mux_receive_any_round_robin() {
    let mut mux = ChannelMux::new();
    mux.add_channel("a", 4).unwrap();
    mux.add_channel("b", 4).unwrap();
    mux.add_channel("c", 4).unwrap();
    mux.send_on("a", note(1, TernaryPriority::Neutral)).unwrap();
    mux.send_on("a", note(2, TernaryPriority::Neutral)).unwrap();
    mux.send_on("c", note(3, TernaryPriority::Neutral)).unwrap();
    mux.send_on("c", note(4, TernaryPriority::Neutral)).unwrap();
    let mut seen = Vec::new();
    while let Some((name, m)) = mux.receive_any() {
        seen.push((name, m.id));
    }
    assert_eq!(
        seen,
        vec![
            ("a".to_string(), 1),
            ("c".to_string(), 3),
            ("a".to_string(), 2),
            ("c".to_string(), 4),
        ]
    );
    assert_eq!(mux.total_pending(), 0);
}

#[test]
fn mux_names_and_add_then_remove() {
    let mut mux = ChannelMux::new();
    mux.add_channel("x", 1).unwrap();
    mux.add_channel("y", 1).unwrap();
    assert_eq!(mux.channel_names(), vec!["x", "y"]);
    mux.add_channel("z", 1).unwrap();
    mux.remove_channel("z").unwrap();
    assert_eq!(mux.channel_names(), vec!["x", "y"]);
    mux.remove_channel("x").unwrap();
    assert_eq!(mux.channel_names(), vec!["y"]);
    assert_eq!(mux.channel_count(), 1);
}

#[test]
fn mux_send_on_routes_only_to_named() {
    let mut mux = ChannelMux::new();
    mux.add_channel("x", 2).unwrap();
    mux.add_channel("y", 2).unwrap();
    mux.send_on("y", note(9, TernaryPriority::Neutral)).unwrap();
    assert!(mux.receive_from("x").is_none());
    assert_eq!(mux.receive_from("y").unwrap().id, 9);
}

#[test]
fn broadcast_reaches_every_subscriber() {
    let mut ch = BroadcastChannel::new("bc", 10);
    ch.subscribe("agent1").unwrap();
    ch.subscribe("agent2").unwrap();
    ch.send(note(1, TernaryPriority::Positive)).unwrap();
    assert_eq!(ch.pending_count(), 2);
    assert_eq!(ch.receive().unwrap().id, 1);
    assert_eq!(ch.receive().unwrap().id, 1);
    assert!(ch.receive().is_none());
}

#[test]
fn broadcast_receive_for_each_subscriber() {
    let mut ch = BroadcastChannel::new("bc", 10);
    ch.subscribe("a").unwrap();
    ch.subscribe("b").unwrap();
    ch.send(note(1, TernaryPriority::Neutral)).unwrap();
    ch.send(note(2, TernaryPriority::Neutral)).unwrap();
    assert_eq!(ch.receive_for("b").unwrap().id, 1);
    assert_eq!(ch.receive_for("b").unwrap().id, 2);
    assert!(ch.receive_for("b").is_none());
    assert!(ch.receive_for("nobody").is_none());
    assert_eq!(ch.receive_for("a").unwrap().id, 1);
    assert_eq!(ch.pending_count(), 1);
    ch.unsubscribe("a");
    assert_eq!(ch.pending_count(), 0);
}

#[test]
fn broadcast_capacity_is_per_subscriber() {
    let mut ch = BroadcastChannel::new("bc", 1);
    ch.subscribe("a").unwrap();
    ch.subscribe("b").unwrap();
    ch.send(note(1, TernaryPriority::Neutral)).unwrap();
    assert_eq!(ch.receive_for("a").unwrap().id, 1);
    assert_eq!(ch.send(note(2, TernaryPriority::Neutral)), Err("Channel buffer full"));
    assert_eq!(ch.receive_for("b").unwrap().id, 1);
    ch.send(note(2, TernaryPriority::Neutral)).unwrap();
    assert_eq!(ch.pending_count(), 2);
}

#[test]
fn broadcast_without_subscribers_keeps_nothing() {
    let mut ch = BroadcastChannel::new("bc", 1);
    ch.send(note(1, TernaryPriority::Neutral)).unwrap();
    ch.send(note(2, TernaryPriority::Neutral)).unwrap();
    assert_eq!(ch.pending_count(), 0);
    assert!(ch.receive().is_none());
}

#[test]
fn reliable_delivers_what_it_sends() {
    let mut ch = ReliableChannel::new("rel", 10, 1);
    ch.send(note(1, TernaryPriority::Neutral)).unwrap();
    ch.send(note(2, TernaryPriority::Neutral)).unwrap();
    assert_eq!(ch.receive().unwrap().id, 1);
    ch.ack(2).unwrap();
    assert_eq!(ch.retry_pending(), 1);
    assert_eq!(ch.receive().unwrap().id, 2);
    assert_eq!(ch.receive().unwrap().id, 1);
    assert!(ch.receive().is_none());
    assert_eq!(ch.pending_count(), 2);
}

#[test]
fn reliable_nothing_pending_after_limit_plus_one_rounds() {
    let mut ch = ReliableChannel::new("rel", 10, 2);
    ch.send(note(1, TernaryPriority::Neutral)).unwrap();
    ch.send(note(2, TernaryPriority::Neutral)).unwrap();
    ch.send(note(3, TernaryPriority::Neutral)).unwrap();
    ch.ack(2).unwrap();
    assert_eq!(ch.retry_pending(), 2);
    assert_eq!(ch.retry_pending(), 2);
    assert_eq!(ch.retry_pending(), 0);
    assert_eq!(ch.count_with_status(DeliveryStatus::Pending), 0);
    assert_eq!(ch.count_with_status(DeliveryStatus::Failed), 2);
    assert_eq!(ch.count_with_status(DeliveryStatus::Acknowledged), 1);
    assert_eq!(ch.status(1), Some(DeliveryStatus::Failed));
    assert_eq!(ch.status(2), Some(DeliveryStatus::Acknowledged));
    assert_eq!(ch.pending_count(), 3);
}

#[test]
fn priority_stable_sort_of_sends() {
    let mut ch = PriorityChannel::new("p", 6);
    let prios = [
        TernaryPriority::Negative,
        TernaryPriority::Positive,
        TernaryPriority::Neutral,
        TernaryPriority::Negative,
        TernaryPriority::Positive,
        TernaryPriority::Neutral,
    ];
    for (i, p) in prios.iter().enumerate() {
        ch.send(note(i as u64, *p)).unwrap();
    }
    let order: Vec<u64> = (0..6).map(|_| ch.receive().unwrap().id).collect();
    assert_eq!(order, vec![1, 4, 2, 5, 0, 3]);
    assert!(ch.receive().is_none());
}

#[test]
fn mux_open_send_on_full_sub_channel() {
    let mut mux = ChannelMux::new();
    mux.add_channel("a", 1).unwrap();
    mux.add_channel("b", 1).unwrap();
    assert!(mux.receive_any().is_none());
    mux.send_on("b", note(1, TernaryPriority::Neutral)).unwrap();
    assert_eq!(mux.send_on("b", note(2, TernaryPriority::Neutral)), Err("Channel buffer full"));
    assert!(mux.receive_from("a").is_none());
    assert_eq!(mux.receive_any().unwrap().1.id, 1);
    assert!(mux.receive_any().is_none());
}
