use ternary_channel::{
    BroadcastChannel, Channel, ChannelMux, DeliveryStatus, DirectChannel, Message,
    PriorityChannel, ReliableChannel, TernaryPriority,
};

fn msg(id: u64, sender: &str, recipient: &str, priority: TernaryPriority) -> Message {
    Message::new(id, sender, recipient, vec![1, 2, 3], priority)
}

// -- DirectChannel tests --

#[test]
fn direct_channel_send_receive() {
    let mut ch = DirectChannel::new("test", 10);
    ch.send(msg(1, "a", "b", TernaryPriority::Neutral)).unwrap();
    assert_eq!(ch.pending_count(), 1);
    let m = ch.receive().unwrap();
    assert_eq!(m.id, 1);
    assert_eq!(ch.pending_count(), 0);
}

#[test]
fn direct_channel_fifo_order() {
    let mut ch = DirectChannel::new("test", 10);
    ch.send(msg(1, "a", "b", TernaryPriority::Neutral)).unwrap();
    ch.send(msg(2, "a", "b", TernaryPriority::Neutral)).unwrap();
    assert_eq!(ch.receive().unwrap().id, 1);
    assert_eq!(ch.receive().unwrap().id, 2);
}

#[test]
fn direct_channel_capacity() {
    let mut ch = DirectChannel::new("test", 2);
    ch.send(msg(1, "a", "b", TernaryPriority::Neutral)).unwrap();
    ch.send(msg(2, "a", "b", TernaryPriority::Neutral)).unwrap();
    assert!(ch.send(msg(3, "a", "b", TernaryPriority::Neutral)).is_err());
}

#[test]
fn direct_channel_close() {
    let mut ch = DirectChannel::new("test", 10);
    assert!(ch.is_open());
    ch.close();
    assert!(!ch.is_open());
    assert!(ch.send(msg(1, "a", "b", TernaryPriority::Neutral)).is_err());
}

#[test]
fn direct_channel_empty_receive() {
    let mut ch = DirectChannel::new("test", 10);
    assert!(ch.receive().is_none());
}

// -- BroadcastChannel tests --

#[test]
fn broadcast_subscribe_unsubscribe() {
    let mut ch = BroadcastChannel::new("bc", 10);
    ch.subscribe("agent1").unwrap();
    ch.subscribe("agent2").unwrap();
    assert_eq!(ch.subscriber_count(), 2);
    ch.unsubscribe("agent1");
    assert_eq!(ch.subscriber_count(), 1);
}

#[test]
fn broadcast_no_duplicate_subscriber() {
    let mut ch = BroadcastChannel::new("bc", 10);
    ch.subscribe("agent1").unwrap();
    assert!(ch.subscribe("agent1").is_err());
}

#[test]
fn broadcast_send_receive() {
    let mut ch = BroadcastChannel::new("bc", 10);
    ch.subscribe("agent1").unwrap();
    ch.send(msg(1, "src", "all", TernaryPriority::Positive)).unwrap();
    let m = ch.receive().unwrap();
    assert_eq!(m.id, 1);
}

#[test]
fn broadcast_close() {
    let mut ch = BroadcastChannel::new("bc", 10);
    ch.close();
    assert!(!ch.is_open());
    assert!(ch.send(msg(1, "a", "b", TernaryPriority::Neutral)).is_err());
}

// -- PriorityChannel tests --

#[test]
fn priority_positive_first() {
    let mut ch = PriorityChannel::new("pq", 10);
    ch.send(msg(1, "a", "b", TernaryPriority::Negative)).unwrap();
    ch.send(msg(2, "a", "b", TernaryPriority::Neutral)).unwrap();
    ch.send(msg(3, "a", "b", TernaryPriority::Positive)).unwrap();
    assert_eq!(ch.receive().unwrap().id, 3); // positive first
    assert_eq!(ch.receive().unwrap().id, 2); // then neutral
    assert_eq!(ch.receive().unwrap().id, 1); // then negative
}

#[test]
fn priority_neutral_before_negative() {
    let mut ch = PriorityChannel::new("pq", 10);
    ch.send(msg(1, "a", "b", TernaryPriority::Negative)).unwrap();
    ch.send(msg(2, "a", "b", TernaryPriority::Neutral)).unwrap();
    assert_eq!(ch.receive().unwrap().id, 2);
    assert_eq!(ch.receive().unwrap().id, 1);
}

#[test]
fn priority_capacity() {
    let mut ch = PriorityChannel::new("pq", 2);
    ch.send(msg(1, "a", "b", TernaryPriority::Positive)).unwrap();
    ch.send(msg(2, "a", "b", TernaryPriority::Neutral)).unwrap();
    assert!(ch.send(msg(3, "a", "b", TernaryPriority::Negative)).is_err());
}

#[test]
fn priority_close_blocks_send() {
    let mut ch = PriorityChannel::new("pq", 10);
    ch.close();
    assert!(ch.send(msg(1, "a", "b", TernaryPriority::Positive)).is_err());
}

// -- ReliableChannel tests --

#[test]
fn reliable_send_and_ack() {
    let mut ch = ReliableChannel::new("rel", 10, 3);
    ch.send(msg(1, "a", "b", TernaryPriority::Neutral)).unwrap();
    assert_eq!(ch.status(1), Some(DeliveryStatus::Pending));
    ch.ack(1).unwrap();
    assert_eq!(ch.status(1), Some(DeliveryStatus::Acknowledged));
}

#[test]
fn reliable_retry_and_fail() {
    let mut ch = ReliableChannel::new("rel", 10, 2);
    ch.send(msg(1, "a", "b", TernaryPriority::Neutral)).unwrap();
    ch.retry_pending(); // retry 1
    ch.retry_pending(); // retry 2 — max reached
    ch.retry_pending(); // this should mark as failed
    assert_eq!(ch.status(1), Some(DeliveryStatus::Failed));
}

#[test]
fn reliable_clean_outbox() {
    let mut ch = ReliableChannel::new("rel", 10, 3);
    ch.send(msg(1, "a", "b", TernaryPriority::Neutral)).unwrap();
    ch.send(msg(2, "a", "b", TernaryPriority::Neutral)).unwrap();
    ch.ack(1).unwrap();
    ch.clean_outbox();
    assert_eq!(ch.count_with_status(DeliveryStatus::Pending), 1);
}

#[test]
fn reliable_ack_unknown_fails() {
    let mut ch = ReliableChannel::new("rel", 10, 3);
    assert!(ch.ack(999).is_err());
}

#[test]
fn reliable_close() {
    let mut ch = ReliableChannel::new("rel", 10, 3);
    ch.close();
    assert!(ch.send(msg(1, "a", "b", TernaryPriority::Neutral)).is_err());
}

// -- ChannelMux tests --

#[test]
fn mux_add_remove_channel() {
    let mut mux = ChannelMux::new();
    mux.add_channel("ch1", 10).unwrap();
    mux.add_channel("ch2", 10).unwrap();
    assert_eq!(mux.channel_count(), 2);
    mux.remove_channel("ch1").unwrap();
    assert_eq!(mux.channel_count(), 1);
}

#[test]
fn mux_no_duplicate_names() {
    let mut mux = ChannelMux::new();
    mux.add_channel("ch1", 10).unwrap();
    assert!(mux.add_channel("ch1", 10).is_err());
}

#[test]
fn mux_send_and_receive_named() {
    let mut mux = ChannelMux::new();
    mux.add_channel("ch1", 10).unwrap();
    mux.add_channel("ch2", 10).unwrap();
    mux.send_on("ch1", msg(1, "a", "b", TernaryPriority::Neutral)).unwrap();
    mux.send_on("ch2", msg(2, "a", "b", TernaryPriority::Neutral)).unwrap();
    assert_eq!(mux.receive_from("ch1").unwrap().id, 1);
    assert_eq!(mux.receive_from("ch2").unwrap().id, 2);
}

#[test]
fn mux_receive_any() {
    let mut mux = ChannelMux::new();
    mux.add_channel("ch1", 10).unwrap();
    mux.send_on("ch1", msg(1, "a", "b", TernaryPriority::Neutral)).unwrap();
    let (name, m) = mux.receive_any().unwrap();
    assert_eq!(name, "ch1");
    assert_eq!(m.id, 1);
}

#[test]
fn mux_close_all() {
    let mut mux = ChannelMux::new();
    mux.add_channel("ch1", 10).unwrap();
    mux.close();
    assert!(!mux.is_open());
    assert!(mux.send_on("ch1", msg(1, "a", "b", TernaryPriority::Neutral)).is_err());
}

#[test]
fn mux_total_pending() {
    let mut mux = ChannelMux::new();
    mux.add_channel("ch1", 10).unwrap();
    mux.add_channel("ch2", 10).unwrap();
    mux.send_on("ch1", msg(1, "a", "b", TernaryPriority::Neutral)).unwrap();
    mux.send_on("ch2", msg(2, "a", "b", TernaryPriority::Neutral)).unwrap();
    assert_eq!(mux.total_pending(), 2);
}

#[test]
fn mux_remove_nonexistent() {
    let mut mux = ChannelMux::new();
    assert!(mux.remove_channel("nope").is_err());
}
