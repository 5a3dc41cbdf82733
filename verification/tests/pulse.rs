use ocrop::address::SocketAddress;
use ocrop::packet::{Packet, PacketKind};
use ocrop::process::Processes;
use ocrop::receiver::{Action as ReceiverAction, Receiver, State};
use ocrop::sender::{Action as SenderAction, Sender};

fn v4(last: u8, port: u16) -> SocketAddress {
    SocketAddress::V4 { ip: u32::from_be_bytes([127, 0, 0, last]), port }
}

fn snapshot(id: &str) -> Processes {
    Processes::new(id.to_string())
}

fn data(from: SocketAddress, to: SocketAddress, id: usize, machine: &str) -> Packet {
    Packet::new(from, to, id, PacketKind::Data(snapshot(machine)))
}

fn received_id(a: &ReceiverAction) -> Option<String> {
    match a {
        ReceiverAction::Received(p) => Some(p.id.clone()),
        _ => None,
    }
}

#[test]
fn packet_getters_give_back_construction() {
    let p = Packet::new(v4(1, 10), v4(2, 20), 7, PacketKind::RetransmitRequest);
    assert_eq!(p.sender_address(), v4(1, 10));
    assert_eq!(p.receiver_address(), v4(2, 20));
    assert_eq!(p.packet_id(), 7);
    assert!(matches!(p.packet_kind(), PacketKind::RetransmitRequest));
    assert!(matches!(p.get_ownership_of_packet_kind(), PacketKind::RetransmitRequest));
}

#[test]
fn first_snapshot_from_new_sender_is_taken() {
    let me = v4(9, 9000);
    let agent = v4(1, 8000);
    let mut r = Receiver::new(me, 5);
    let a = r.receive(data(agent, me, 3, "m1"), 100);
    assert_eq!(received_id(&a.unwrap()), Some("m1".to_string()));
    let c = r.connection(agent).unwrap();
    assert_eq!(c.last_received, 3);
    assert_eq!(c.curr_timer, 100);
    assert_eq!(c.state, State::Regular);
}

#[test]
fn stale_and_duplicate_snapshots_are_dropped() {
    let me = v4(9, 9000);
    let agent = v4(1, 8000);
    let mut r = Receiver::new(me, 5);
    assert!(r.receive(data(agent, me, 5, "a"), 0).is_some());
    assert!(r.receive(data(agent, me, 5, "b"), 10).is_none());
    assert!(r.receive(data(agent, me, 4, "c"), 20).is_none());
    assert_eq!(r.connection(agent).unwrap().last_received, 5);
    assert_eq!(r.connection(agent).unwrap().curr_timer, 0);
    let a = r.receive(data(agent, me, 6, "d"), 30).unwrap();
    assert_eq!(received_id(&a), Some("d".to_string()));
    assert_eq!(r.connection(agent).unwrap().last_received, 6);
}

#[test]
fn retransmit_requests_are_not_handed_on() {
    let me = v4(9, 9000);
    let agent = v4(1, 8000);
    let mut r = Receiver::new(me, 5);
    let req = Packet::new(agent, me, 1, PacketKind::RetransmitRequest);
    assert!(r.receive(req, 0).is_none());
    assert!(r.connection(agent).is_none());
}

#[test]
fn quiet_sender_is_asked_after_delay_plus_one_seconds() {
    let me = v4(9, 9000);
    let agent = v4(1, 8000);
    let mut r = Receiver::new(me, 5);
    r.receive(data(agent, me, 1, "a"), 1_000);
    assert!(r.check_timeouts(6_999).is_empty());
    let acts = r.check_timeouts(7_000);
    assert_eq!(acts.len(), 1);
    assert!(matches!(acts[0], ReceiverAction::RequestRetransmit(a) if a == agent));
    let c = r.connection(agent).unwrap();
    assert_eq!(c.state, State::WaitingForRetransmit);
    assert_eq!(c.curr_timer, 7_000);
    // then once a second
    assert!(r.check_timeouts(7_999).is_empty());
    assert_eq!(r.check_timeouts(8_000).len(), 1);
    // a new snapshot puts the sender back in good standing
    assert!(r.receive(data(agent, me, 2, "b"), 8_500).is_some());
    assert_eq!(r.connection(agent).unwrap().state, State::Regular);
    assert!(r.check_timeouts(9_500).is_empty());
}

#[test]
fn clock_going_backwards_counts_as_no_time() {
    let me = v4(9, 9000);
    let agent = v4(1, 8000);
    let mut r = Receiver::new(me, 0);
    r.receive(data(agent, me, 1, "a"), 50_000);
    assert!(r.check_timeouts(10).is_empty());
}

#[test]
fn tick_hands_on_snapshots_then_requests_in_order() {
    let me = v4(9, 9000);
    let a1 = v4(1, 8000);
    let a2 = v4(2, 8000);
    let mut r = Receiver::new(me, 1);
    r.receive(data(a1, me, 1, "old1"), 0);
    r.receive(data(a2, me, 1, "old2"), 0);
    let arrivals = vec![
        (data(a2, me, 2, "x"), 1_000),
        (data(a2, me, 2, "dup"), 1_100),
        (Packet::new(a1, me, 0, PacketKind::RetransmitRequest), 1_200),
    ];
    let acts = r.tick(arrivals, 2_000);
    assert_eq!(acts.len(), 2);
    assert_eq!(received_id(&acts[0]), Some("x".to_string()));
    assert!(matches!(acts[1], ReceiverAction::RequestRetransmit(a) if a == a1));
    assert_eq!(r.connection(a2).unwrap().last_received, 2);
}

#[test]
fn retransmit_request_carries_last_received_id() {
    let me = v4(9, 9000);
    let agent = v4(1, 8000);
    let mut r = Receiver::new(me, 5);
    assert!(r.send_retransmit_request(agent).is_none());
    r.receive(data(agent, me, 41, "a"), 0);
    let p = r.send_retransmit_request(agent).unwrap();
    assert_eq!(p.sender_address(), me);
    assert_eq!(p.receiver_address(), agent);
    assert_eq!(p.packet_id(), 41);
    assert!(matches!(p.packet_kind(), PacketKind::RetransmitRequest));
}

#[test]
fn v6_and_v4_addresses_are_distinct_senders() {
    let me = v4(9, 9000);
    let a = v4(1, 8000);
    let b = SocketAddress::V6 { ip6: 1, port: 8000, flowinfo: 0, scope_id: 0 };
    let mut r = Receiver::new(me, 5);
    assert!(r.receive(data(a, me, 1, "a"), 0).is_some());
    assert!(r.receive(data(b, me, 1, "b"), 0).is_some());
    assert_eq!(r.connection(a).unwrap().last_received, 1);
    assert_eq!(r.connection(b).unwrap().last_received, 1);
}

#[test]
fn sender_sends_when_interval_is_over() {
    let s = Sender::new(v4(1, 8000), 1_000);
    assert_eq!(s.tick(5_999, None), SenderAction::Nothing);
    assert_eq!(s.tick(6_000, None), SenderAction::Send);
}

#[test]
fn sender_ids_count_up_and_wrap() {
    let me = v4(1, 8000);
    let to = v4(9, 9000);
    let mut s = Sender::new(me, 0);
    assert_eq!(s.last_sent(), 0);
    let p1 = s.send(snapshot("a"), to);
    assert_eq!(p1.packet_id(), 1);
    assert_eq!(p1.sender_address(), me);
    assert_eq!(p1.receiver_address(), to);
    let p2 = s.send(snapshot("b"), to);
    assert_eq!(p2.packet_id(), 2);
    assert_eq!(s.last_sent(), 2);
    // the interval restarts only when asked
    assert_eq!(s.tick(5_000, None), SenderAction::Send);
    s.restart_timer(5_000);
    assert_eq!(s.tick(5_000, None), SenderAction::Nothing);
}

#[test]
fn sender_retransmits_only_to_a_receiver_behind() {
    let me = v4(1, 8000);
    let agg = v4(9, 9000);
    let mut s = Sender::new(me, 0);
    s.send(snapshot("a"), agg);
    s.send(snapshot("b"), agg);
    let behind = Packet::new(agg, me, 1, PacketKind::RetransmitRequest);
    assert_eq!(s.tick(100, Some(behind)), SenderAction::Retransmit);
    let current = Packet::new(agg, me, 2, PacketKind::RetransmitRequest);
    assert_eq!(s.tick(100, Some(current)), SenderAction::Nothing);
    let stray = data(agg, me, 0, "x");
    assert_eq!(s.tick(100, Some(stray)), SenderAction::Nothing);
}

#[test]
fn receiver_catches_up_with_sender() {
    let agent = v4(1, 8000);
    let agg = v4(9, 9000);
    let mut s = Sender::new(agent, 0);
    let mut r = Receiver::new(agg, 5);
    let p1 = s.send(snapshot("1"), agg);
    assert!(r.receive(p1, 10).is_some());
    let _lost = s.send(snapshot("2"), agg);
    let req = r.send_retransmit_request(agent).unwrap();
    assert_eq!(s.tick(20, Some(req)), SenderAction::Retransmit);
    let p3 = s.send(snapshot("3"), agg);
    let a = r.receive(p3, 30).unwrap();
    assert_eq!(received_id(&a), Some("3".to_string()));
    let req = r.send_retransmit_request(agent).unwrap();
    assert_eq!(s.tick(40, Some(req)), SenderAction::Nothing);
}

#[test]
fn tick_records_the_largest_id_per_sender() {
    let me = v4(9, 9000);
    let a = v4(1, 8000);
    let b = v4(2, 8000);
    let mut r = Receiver::new(me, 5);
    let arrivals = vec![
        (data(a, me, 3, "a3"), 0),
        (data(a, me, 7, "a7"), 1),
        (data(b, me, 2, "b2"), 2),
        (data(a, me, 5, "a5"), 3),
        (Packet::new(b, me, 9, PacketKind::RetransmitRequest), 4),
    ];
    let acts = r.tick(arrivals, 10);
    assert_eq!(acts.len(), 3);
    assert_eq!(r.connection(a).unwrap().last_received, 7);
    assert_eq!(r.connection(b).unwrap().last_received, 2);
    let acts = r.tick(vec![(data(b, me, 1, "b1"), 20), (data(b, me, 4, "b4"), 21)], 30);
    assert_eq!(acts.len(), 1);
    assert_eq!(received_id(&acts[0]), Some("b4".to_string()));
    assert_eq!(r.connection(b).unwrap().last_received, 4);
    assert_eq!(r.connection(a).unwrap().last_received, 7);
}

#[test]
fn tick_asks_each_quiet_sender_once_and_spares_refreshed_ones() {
    let me = v4(9, 9000);
    let a = v4(1, 8000);
    let b = v4(2, 8000);
    let c = v4(3, 8000);
    let mut r = Receiver::new(me, 1);
    for (addr, id) in [(a, 1), (b, 1), (c, 1)] {
        r.receive(data(addr, me, id, "x"), 0);
    }
    let acts = r.tick(vec![(data(b, me, 2, "b2"), 2_500), (data(b, me, 3, "b3"), 2_600)], 2_900);
    assert_eq!(acts.len(), 4);
    assert!(received_id(&acts[0]).is_some());
    assert!(received_id(&acts[1]).is_some());
    assert!(matches!(acts[2], ReceiverAction::RequestRetransmit(x) if x == a));
    assert!(matches!(acts[3], ReceiverAction::RequestRetransmit(x) if x == c));
}

#[test]
fn largest_delay_is_accepted() {
    let me = v4(9, 9000);
    let a = v4(1, 8000);
    let mut r = Receiver::new(me, usize::MAX);
    r.receive(data(a, me, 1, "x"), 0);
    assert!(r.check_timeouts(u64::MAX).is_empty());
}
