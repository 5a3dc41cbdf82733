use vstd::prelude::*;
use crate::address::SocketAddress;
use crate::packet::{Packet, PacketKind};
use crate::process::Processes;

verus! {

/// Where the receiver stands with one sender.
#[derive(Clone, Copy, Debug, PartialEq, Eq, Structural)]
pub enum State {
    /// Snapshots arrive as expected.
    Regular,
    /// The sender went quiet and retransmission has been requested.
    WaitingForRetransmit,
}

/// What the receiver knows of one sender.
#[derive(Clone, Copy, Debug, PartialEq, Eq, Structural)]
pub struct Connection {
    pub address: SocketAddress,
    /// The id of the last snapshot taken from this sender.
    pub last_received: usize,
    /// When the current waiting period began, in milliseconds of a
    /// monotonic clock.
    pub curr_timer: u64,
    pub state: State,
}

/// What the receiver asks its caller to do.
#[derive(Debug)]
pub enum Action {
    /// Send a retransmission request to this sender.
    RequestRetransmit(SocketAddress),
    /// Hand on this snapshot.
    Received(Processes),
}

/// The receiving end of Pulse: one connection per sender, kept in the order
/// in which the senders were first heard from.
pub struct Receiver {
    address: SocketAddress,
    connections: Vec<Connection>,
    state: State,
    delay: usize,
}

/// No two connections are for the same sender.
pub open spec fn addresses_distinct(cs: Seq<Connection>) -> bool {
    forall|i: int, j: int|
        0 <= i < cs.len() && 0 <= j < cs.len() && i != j ==> #[trigger] cs[i].address
            != #[trigger] cs[j].address
}

/// Whether some connection is for `a`.
pub open spec fn has_connection(cs: Seq<Connection>, a: SocketAddress) -> bool {
    exists|i: int| 0 <= i < cs.len() && #[trigger] cs[i].address == a
}

/// The index of the connection for `a`, where there is one.
pub open spec fn position(cs: Seq<Connection>, a: SocketAddress) -> Option<int> {
    if has_connection(cs, a) {
        Some(choose|i: int| 0 <= i < cs.len() && #[trigger] cs[i].address == a)
    } else {
        None
    }
}

/// A connection that has just taken snapshot `id` at time `now`.
pub open spec fn fresh_connection(a: SocketAddress, id: usize, now: u64) -> Connection {
    Connection { address: a, last_received: id, curr_timer: now, state: State::Regular }
}

/// The connections after `packet` arrives at time `now`, and the snapshot
/// handed on, if any. A snapshot is taken from a sender heard from for the
/// first time, or when its id is greater than the last one taken from that
/// sender; other snapshots and all retransmission requests are dropped.
pub open spec fn receive_spec(cs: Seq<Connection>, packet: Packet, now: u64) -> (Seq<Connection>, Option<Action>) {
    let a = packet.spec_sender_address();
    let id = packet.spec_packet_id();
    match packet.spec_packet_kind() {
        PacketKind::Data(p) => match position(cs, a) {
            Some(i) => if id > cs[i].last_received {
                (cs.update(i, fresh_connection(a, id, now)), Some(Action::Received(p)))
            } else {
                (cs, None)
            },
            None => (cs.push(fresh_connection(a, id, now)), Some(Action::Received(p))),
        },
        PacketKind::RetransmitRequest => (cs, None),
    }
}

/// Whole seconds from `start` to `now`; none where `now` comes first.
pub open spec fn elapsed_secs(start: u64, now: u64) -> int {
    if now >= start {
        (now - start) / 1000
    } else {
        0
    }
}

/// Whether the waiting period of `c` is over at `now`: `delay + 1` seconds
/// for a sender in good standing, one second between repeated requests.
pub open spec fn timer_fires(c: Connection, now: u64, delay: usize) -> bool {
    match c.state {
        State::Regular => elapsed_secs(c.curr_timer, now) >= delay + 1,
        State::WaitingForRetransmit => elapsed_secs(c.curr_timer, now) >= 1,
    }
}

/// The connection after its timer is looked at, at `now`.
pub open spec fn after_timer(c: Connection, now: u64, delay: usize) -> Connection {
    if timer_fires(c, now, delay) {
        Connection { curr_timer: now, state: State::WaitingForRetransmit, ..c }
    } else {
        c
    }
}

/// All connections after their timers are looked at.
pub open spec fn timers_after(cs: Seq<Connection>, now: u64, delay: usize) -> Seq<Connection> {
    cs.map_values(|c: Connection| after_timer(c, now, delay))
}

/// The retransmission requests that the timers of `cs` call for at `now`,
/// in the order of the connections.
pub open spec fn retransmit_requests(cs: Seq<Connection>, now: u64, delay: usize) -> Seq<Action>
    decreases cs.len(),
{
    if cs.len() == 0 {
        Seq::empty()
    } else {
        let rest = retransmit_requests(cs.drop_last(), now, delay);
        if timer_fires(cs.last(), now, delay) {
            rest.push(Action::RequestRetransmit(cs.last().address))
        } else {
            rest
        }
    }
}

/// The connections after a run of arrivals, each a packet with the time it
/// came, and the snapshots handed on, in order.
pub open spec fn receive_all(cs: Seq<Connection>, arrivals: Seq<(Packet, u64)>) -> (Seq<Connection>, Seq<Action>)
    decreases arrivals.len(),
{
    if arrivals.len() == 0 {
        (cs, Seq::empty())
    } else {
        let (cs1, acts) = receive_all(cs, arrivals.drop_last());
        let (cs2, r) = receive_spec(cs1, arrivals.last().0, arrivals.last().1);
        match r {
            Some(a) => (cs2, acts.push(a)),
            None => (cs2, acts),
        }
    }
}

/// The id a retransmission request to `a` carries: the last snapshot id
/// taken from `a`, where `a` is known.
pub open spec fn request_id(cs: Seq<Connection>, a: SocketAddress) -> Option<usize> {
    match position(cs, a) {
        Some(i) => Some(cs[i].last_received),
        None => None,
    }
}

proof fn lemma_position(cs: Seq<Connection>, a: SocketAddress, i: int)
    requires
        addresses_distinct(cs),
        0 <= i < cs.len(),
        cs[i].address == a,
    ensures
        position(cs, a) == Some(i),
{
}

pub proof fn lemma_receive_keeps_distinct(cs: Seq<Connection>, packet: Packet, now: u64)
    requires
        addresses_distinct(cs),
    ensures
        addresses_distinct(receive_spec(cs, packet, now).0),
{
    let a = packet.spec_sender_address();
    let id = packet.spec_packet_id();
    if let PacketKind::Data(p) = packet.spec_packet_kind() {
        match position(cs, a) {
            Some(i) => {
                let ncs = cs.update(i, fresh_connection(a, id, now));
                assert forall|x: int, y: int|
                    0 <= x < ncs.len() && 0 <= y < ncs.len() && x != y implies #[trigger] ncs[x].address
                    != #[trigger] ncs[y].address by {
                    assert(cs[i].address == a);
                }
            },
            None => {
                let ncs = cs.push(fresh_connection(a, id, now));
                assert forall|x: int, y: int|
                    0 <= x < ncs.len() && 0 <= y < ncs.len() && x != y implies #[trigger] ncs[x].address
                    != #[trigger] ncs[y].address by {
                    if x < cs.len() && y < cs.len() {
                    } else if x < cs.len() {
                        assert(cs[x].address == ncs[x].address);
                    } else {
                        assert(cs[y].address == ncs[y].address);
                    }
                }
            },
        }
    }
}

/// Looking at the timers keeps every connection, for the same sender, with
/// the same last snapshot id.
pub proof fn lemma_timers_keep_addresses(cs: Seq<Connection>, now: u64, delay: usize)
    ensures
        timers_after(cs, now, delay).len() == cs.len(),
        forall|i: int|
            0 <= i < cs.len() ==> (#[trigger] timers_after(cs, now, delay)[i]).address == cs[i].address
                && timers_after(cs, now, delay)[i].last_received == cs[i].last_received,
        addresses_distinct(cs) ==> addresses_distinct(timers_after(cs, now, delay)),
{
    let ncs = timers_after(cs, now, delay);
    if addresses_distinct(cs) {
        assert forall|x: int, y: int|
            0 <= x < ncs.len() && 0 <= y < ncs.len() && x != y implies #[trigger] ncs[x].address
            != #[trigger] ncs[y].address by {
            assert(ncs[x].address == cs[x].address);
            assert(ncs[y].address == cs[y].address);
        }
    }
}

/// Receiving a packet forgets no sender and never lowers the last snapshot
/// id taken from a sender.
pub proof fn lemma_receive_never_forgets(cs: Seq<Connection>, packet: Packet, now: u64)
    requires
        addresses_distinct(cs),
    ensures
        ({
            let ncs = receive_spec(cs, packet, now).0;
            &&& ncs.len() >= cs.len()
            &&& forall|i: int|
                0 <= i < cs.len() ==> (#[trigger] ncs[i]).address == cs[i].address
                    && ncs[i].last_received >= cs[i].last_received
        }),
{
    let a = packet.spec_sender_address();
    if let PacketKind::Data(p) = packet.spec_packet_kind() {
        if let Some(i) = position(cs, a) {
            assert(cs[i].address == a);
        }
    }
}

/// A run of arrivals followed by a look at the timers forgets no sender and
/// never lowers the last snapshot id taken from a sender.
pub proof fn lemma_tick_never_forgets(cs: Seq<Connection>, arrivals: Seq<(Packet, u64)>, now: u64, delay: usize)
    requires
        addresses_distinct(cs),
    ensures
        ({
            let ncs = timers_after(receive_all(cs, arrivals).0, now, delay);
            &&& addresses_distinct(ncs)
            &&& ncs.len() >= cs.len()
            &&& forall|i: int|
                0 <= i < cs.len() ==> (#[trigger] ncs[i]).address == cs[i].address
                    && ncs[i].last_received >= cs[i].last_received
        }),
{
    lemma_receive_all_never_forgets(cs, arrivals);
    lemma_timers_keep_addresses(receive_all(cs, arrivals).0, now, delay);
}

proof fn lemma_receive_all_never_forgets(cs: Seq<Connection>, arrivals: Seq<(Packet, u64)>)
    requires
        addresses_distinct(cs),
    ensures
        ({
            let ncs = receive_all(cs, arrivals).0;
            &&& addresses_distinct(ncs)
            &&& ncs.len() >= cs.len()
            &&& forall|i: int|
                0 <= i < cs.len() ==> (#[trigger] ncs[i]).address == cs[i].address
                    && ncs[i].last_received >= cs[i].last_received
        }),
    decreases arrivals.len(),
{
    if arrivals.len() > 0 {
        lemma_receive_all_never_forgets(cs, arrivals.drop_last());
        let cs1 = receive_all(cs, arrivals.drop_last()).0;
        lemma_receive_keeps_distinct(cs1, arrivals.last().0, arrivals.last().1);
        lemma_receive_never_forgets(cs1, arrivals.last().0, arrivals.last().1);
        let ncs = receive_all(cs, arrivals).0;
        assert forall|i: int| 0 <= i < cs.len() implies (#[trigger] ncs[i]).address == cs[i].address
            && ncs[i].last_received >= cs[i].last_received by {
            assert(cs1[i].address == cs[i].address);
        }
    }
}

/// Snapshots from one sender are handed on in strictly increasing id order:
/// once a snapshot has been taken, one with the same or a lower id from the
/// same sender is dropped.
pub proof fn lemma_no_redelivery(
    cs: Seq<Connection>,
    first: Packet,
    t1: u64,
    second: Packet,
    t2: u64,
)
    requires
        addresses_distinct(cs),
        receive_spec(cs, first, t1).1 is Some,
        second.spec_packet_kind() is Data,
        second.spec_sender_address() == first.spec_sender_address(),
        second.spec_packet_id() <= first.spec_packet_id(),
    ensures
        receive_spec(receive_spec(cs, first, t1).0, second, t2).1 is None,
{
    lemma_taken_id_recorded(cs, first, t1);
    let cs1 = receive_spec(cs, first, t1).0;
    lemma_receive_keeps_distinct(cs, first, t1);
    let a = first.spec_sender_address();
    let i = position(cs1, a)->Some_0;
    assert(cs1[i].address == a);
}

/// Once a snapshot is taken from a sender, a retransmission request to that
/// sender carries that snapshot's id.
pub proof fn lemma_taken_id_recorded(cs: Seq<Connection>, packet: Packet, now: u64)
    requires
        addresses_distinct(cs),
        receive_spec(cs, packet, now).1 is Some,
    ensures
        request_id(receive_spec(cs, packet, now).0, packet.spec_sender_address())
            == Some(packet.spec_packet_id()),
{
    lemma_receive_keeps_distinct(cs, packet, now);
    let a = packet.spec_sender_address();
    let cs1 = receive_spec(cs, packet, now).0;
    match position(cs, a) {
        Some(i) => {
            assert(cs[i].address == a);
            assert(cs1[i].address == a);
            lemma_position(cs1, a, i);
        },
        None => {
            assert(cs1[cs.len() as int].address == a);
            lemma_position(cs1, a, cs.len() as int);
        },
    }
}

/// Every retransmission request names a connection whose timer fired.
pub proof fn lemma_requests_are_for_fired_timers(cs: Seq<Connection>, now: u64, delay: usize, k: int)
    requires
        0 <= k < retransmit_requests(cs, now, delay).len(),
    ensures
        exists|i: int|
            0 <= i < cs.len() && timer_fires(#[trigger] cs[i], now, delay)
                && retransmit_requests(cs, now, delay)[k] == Action::RequestRetransmit(cs[i].address),
    decreases cs.len(),
{
    let rest = retransmit_requests(cs.drop_last(), now, delay);
    if k < rest.len() {
        lemma_requests_are_for_fired_timers(cs.drop_last(), now, delay, k);
        let i = choose|i: int|
            0 <= i < cs.drop_last().len() && timer_fires(#[trigger] cs.drop_last()[i], now, delay)
                && rest[k] == Action::RequestRetransmit(cs.drop_last()[i].address);
        assert(cs[i] == cs.drop_last()[i]);
    } else {
        assert(cs[cs.len() - 1] == cs.last());
    }
}

/// A sender whose snapshot was taken less than `delay + 1` seconds ago is
/// not asked for a retransmission.
pub proof fn lemma_quiet_period(cs: Seq<Connection>, packet: Packet, t1: u64, now: u64, delay: usize)
    requires
        addresses_distinct(cs),
        receive_spec(cs, packet, t1).1 is Some,
        elapsed_secs(t1, now) < delay + 1,
    ensures
        !retransmit_requests(receive_spec(cs, packet, t1).0, now, delay).contains(
            Action::RequestRetransmit(packet.spec_sender_address()),
        ),
{
    let a = packet.spec_sender_address();
    let cs1 = receive_spec(cs, packet, t1).0;
    let reqs = retransmit_requests(cs1, now, delay);
    lemma_taken_id_recorded(cs, packet, t1);
    lemma_receive_keeps_distinct(cs, packet, t1);
    let j = position(cs1, a)->Some_0;
    assert(cs1[j].address == a);
    assert(cs1[j] == fresh_connection(a, packet.spec_packet_id(), t1)) by {
        match position(cs, a) {
            Some(i) => {
                assert(cs[i].address == a);
                assert(cs1[i].address == a);
                lemma_position(cs1, a, i);
            },
            None => {
                assert(cs1[cs.len() as int].address == a);
                lemma_position(cs1, a, cs.len() as int);
            },
        }
    }
    if reqs.contains(Action::RequestRetransmit(a)) {
        let k = choose|k: int| 0 <= k < reqs.len() && reqs[k] == Action::RequestRetransmit(a);
        lemma_requests_are_for_fired_timers(cs1, now, delay, k);
        let i = choose|i: int|
            0 <= i < cs1.len() && timer_fires(#[trigger] cs1[i], now, delay)
                && reqs[k] == Action::RequestRetransmit(cs1[i].address);
        assert(cs1[i].address == a);
        assert(i == j);
    }
}

/// The id of `packet` as a snapshot from `a`: its id, where it is a
/// snapshot sent by `a`.
pub open spec fn data_id_from(packet: Packet, a: SocketAddress) -> Option<usize> {
    if packet.spec_packet_kind() is Data && packet.spec_sender_address() == a {
        Some(packet.spec_packet_id())
    } else {
        None
    }
}

/// The larger of two ids, either of which may be absent.
pub open spec fn max_id(x: Option<usize>, y: Option<usize>) -> Option<usize> {
    match (x, y) {
        (None, _) => y,
        (_, None) => x,
        (Some(a), Some(b)) => Some(if a >= b { a } else { b }),
    }
}

/// The largest id of the snapshots from `a` among `arrivals`, if any.
pub open spec fn max_data_id(arrivals: Seq<(Packet, u64)>, a: SocketAddress) -> Option<usize>
    decreases arrivals.len(),
{
    if arrivals.len() == 0 {
        None
    } else {
        max_id(max_data_id(arrivals.drop_last(), a), data_id_from(arrivals.last().0, a))
    }
}

proof fn lemma_receive_request_id(cs: Seq<Connection>, packet: Packet, now: u64, a: SocketAddress)
    requires
        addresses_distinct(cs),
    ensures
        request_id(receive_spec(cs, packet, now).0, a) == max_id(
            request_id(cs, a),
            data_id_from(packet, a),
        ),
{
    lemma_receive_keeps_distinct(cs, packet, now);
    let s = packet.spec_sender_address();
    let id = packet.spec_packet_id();
    let ncs = receive_spec(cs, packet, now).0;
    if let PacketKind::Data(p) = packet.spec_packet_kind() {
        match position(cs, s) {
            Some(i) => {
                assert(cs[i].address == s);
                assert(ncs.len() == cs.len());
                assert(ncs[i].address == s);
                match position(cs, a) {
                    Some(j) => {
                        assert(cs[j].address == a);
                        assert(ncs[j].address == a);
                        lemma_position(ncs, a, j);
                        if a == s {
                            assert(i == j);
                        }
                    },
                    None => {
                        assert(!has_connection(ncs, a)) by {
                            if has_connection(ncs, a) {
                                let k = choose|k: int| 0 <= k < ncs.len() && #[trigger] ncs[k].address == a;
                                if k == i {
                                    assert(cs[i].address == a);
                                } else {
                                    assert(cs[k].address == a);
                                }
                            }
                        }
                    },
                }
            },
            None => {
                assert(ncs[cs.len() as int].address == s);
                match position(cs, a) {
                    Some(j) => {
                        assert(cs[j].address == a);
                        assert(ncs[j].address == a);
                        lemma_position(ncs, a, j);
                    },
                    None => {
                        if a == s {
                            lemma_position(ncs, a, cs.len() as int);
                        } else {
                            assert(!has_connection(ncs, a)) by {
                                if has_connection(ncs, a) {
                                    let k = choose|k: int| 0 <= k < ncs.len() && #[trigger] ncs[k].address == a;
                                    if k < cs.len() {
                                        assert(cs[k].address == a);
                                    }
                                }
                            }
                        }
                    },
                }
            },
        }
    }
}

proof fn lemma_receive_all_request_id(cs: Seq<Connection>, arrivals: Seq<(Packet, u64)>, a: SocketAddress)
    requires
        addresses_distinct(cs),
    ensures
        request_id(receive_all(cs, arrivals).0, a) == max_id(request_id(cs, a), max_data_id(arrivals, a)),
    decreases arrivals.len(),
{
    if arrivals.len() > 0 {
        lemma_receive_all_request_id(cs, arrivals.drop_last(), a);
        lemma_receive_all_never_forgets(cs, arrivals.drop_last());
        let cs1 = receive_all(cs, arrivals.drop_last()).0;
        lemma_receive_request_id(cs1, arrivals.last().0, arrivals.last().1, a);
    }
}

proof fn lemma_timers_request_id(cs: Seq<Connection>, now: u64, delay: usize, a: SocketAddress)
    requires
        addresses_distinct(cs),
    ensures
        request_id(timers_after(cs, now, delay), a) == request_id(cs, a),
{
    lemma_timers_keep_addresses(cs, now, delay);
    let ncs = timers_after(cs, now, delay);
    match position(cs, a) {
        Some(j) => {
            assert(cs[j].address == a);
            assert(ncs[j].address == a);
            lemma_position(ncs, a, j);
        },
        None => {
            assert(!has_connection(ncs, a)) by {
                if has_connection(ncs, a) {
                    let k = choose|k: int| 0 <= k < ncs.len() && #[trigger] ncs[k].address == a;
                    assert(cs[k].address == a);
                }
            }
        },
    }
}

/// Over a tick, the last snapshot id recorded for each sender becomes the
/// largest of the one recorded before and the ids of the snapshots from
/// that sender among the arrivals; a sender is known afterwards exactly
/// when it was known before or a snapshot from it arrived.
pub proof fn lemma_tick_records_largest_ids(
    cs: Seq<Connection>,
    arrivals: Seq<(Packet, u64)>,
    now: u64,
    delay: usize,
    a: SocketAddress,
)
    requires
        addresses_distinct(cs),
    ensures
        ({
            let ncs = timers_after(receive_all(cs, arrivals).0, now, delay);
            &&& request_id(ncs, a) == max_id(request_id(cs, a), max_data_id(arrivals, a))
            &&& has_connection(ncs, a) <==> (has_connection(cs, a) || max_data_id(arrivals, a) is Some)
        }),
{
    lemma_receive_all_request_id(cs, arrivals, a);
    lemma_receive_all_never_forgets(cs, arrivals);
    lemma_timers_request_id(receive_all(cs, arrivals).0, now, delay, a);
}

/// For a receiver that started empty, the last snapshot id recorded for
/// each sender is the largest id of all snapshots from it that arrived;
/// the senders known are exactly those a snapshot came from.
pub proof fn lemma_fresh_receiver_records_largest_ids(arrivals: Seq<(Packet, u64)>, a: SocketAddress)
    ensures
        request_id(receive_all(Seq::empty(), arrivals).0, a) == max_data_id(arrivals, a),
{
    lemma_receive_all_request_id(Seq::empty(), arrivals, a);
}

/// Splitting a run of arrivals in two, the largest id is the larger of the
/// largest ids of the two parts: ticks one after another record the
/// largest id over all of them.
pub proof fn lemma_max_data_id_concat(
    first: Seq<(Packet, u64)>,
    second: Seq<(Packet, u64)>,
    a: SocketAddress,
)
    ensures
        max_data_id(first + second, a) == max_id(max_data_id(first, a), max_data_id(second, a)),
    decreases second.len(),
{
    if second.len() == 0 {
        assert(first + second =~= first);
    } else {
        lemma_max_data_id_concat(first, second.drop_last(), a);
        assert((first + second).drop_last() =~= first + second.drop_last());
        assert((first + second).last() == second.last());
    }
}

proof fn lemma_receive_all_hands_on_snapshots(cs: Seq<Connection>, arrivals: Seq<(Packet, u64)>)
    ensures
        forall|i: int|
            0 <= i < receive_all(cs, arrivals).1.len() ==> #[trigger] receive_all(cs, arrivals).1[i] is Received,
    decreases arrivals.len(),
{
    if arrivals.len() > 0 {
        lemma_receive_all_hands_on_snapshots(cs, arrivals.drop_last());
    }
}

proof fn lemma_receive_all_recent(cs: Seq<Connection>, arrivals: Seq<(Packet, u64)>, now: u64)
    requires
        addresses_distinct(cs),
        forall|i: int| 0 <= i < arrivals.len() ==> elapsed_secs(#[trigger] arrivals[i].1, now) < 1,
    ensures
        ({
            let ncs = receive_all(cs, arrivals).0;
            &&& ncs.len() >= cs.len()
            &&& forall|i: int|
                0 <= i < ncs.len() ==> (i < cs.len() && #[trigger] ncs[i] == cs[i]) || (ncs[i].state
                    == State::Regular && elapsed_secs(ncs[i].curr_timer, now) < 1)
        }),
    decreases arrivals.len(),
{
    if arrivals.len() > 0 {
        let init = arrivals.drop_last();
        assert forall|i: int| 0 <= i < init.len() implies elapsed_secs(#[trigger] init[i].1, now) < 1 by {
            assert(init[i] == arrivals[i]);
        }
        lemma_receive_all_recent(cs, init, now);
        lemma_receive_all_never_forgets(cs, init);
        let cs1 = receive_all(cs, init).0;
        let last = arrivals.last();
        assert(elapsed_secs(arrivals[arrivals.len() - 1].1, now) < 1);
        let ncs = receive_all(cs, arrivals).0;
        let s = last.0.spec_sender_address();
        if let PacketKind::Data(p) = last.0.spec_packet_kind() {
            match position(cs1, s) {
                Some(j) => {
                    assert forall|i: int| 0 <= i < ncs.len() implies (i < cs.len() && #[trigger] ncs[i]
                        == cs[i]) || (ncs[i].state == State::Regular && elapsed_secs(
                        ncs[i].curr_timer,
                        now,
                    ) < 1) by {
                        if i != j {
                            assert(ncs[i] == cs1[i]);
                        }
                    }
                },
                None => {
                    assert forall|i: int| 0 <= i < ncs.len() implies (i < cs.len() && #[trigger] ncs[i]
                        == cs[i]) || (ncs[i].state == State::Regular && elapsed_secs(
                        ncs[i].curr_timer,
                        now,
                    ) < 1) by {
                        if i < cs1.len() {
                            assert(ncs[i] == cs1[i]);
                        }
                    }
                },
            }
        }
    }
}

proof fn lemma_requests_distinct(cs: Seq<Connection>, now: u64, delay: usize)
    requires
        addresses_distinct(cs),
    ensures
        forall|k1: int, k2: int|
            0 <= k1 < k2 < retransmit_requests(cs, now, delay).len() ==> #[trigger] retransmit_requests(
                cs,
                now,
                delay,
            )[k1] != #[trigger] retransmit_requests(cs, now, delay)[k2],
    decreases cs.len(),
{
    if cs.len() > 0 {
        let init = cs.drop_last();
        assert(addresses_distinct(init)) by {
            assert forall|x: int, y: int|
                0 <= x < init.len() && 0 <= y < init.len() && x != y implies #[trigger] init[x].address
                != #[trigger] init[y].address by {
                assert(init[x] == cs[x]);
                assert(init[y] == cs[y]);
            }
        }
        lemma_requests_distinct(init, now, delay);
        let rest = retransmit_requests(init, now, delay);
        let reqs = retransmit_requests(cs, now, delay);
        if timer_fires(cs.last(), now, delay) {
            assert forall|k1: int, k2: int| 0 <= k1 < k2 < reqs.len() implies #[trigger] reqs[k1]
                != #[trigger] reqs[k2] by {
                if k2 == rest.len() {
                    lemma_requests_are_for_fired_timers(init, now, delay, k1);
                    let i = choose|i: int|
                        0 <= i < init.len() && timer_fires(#[trigger] init[i], now, delay) && rest[k1]
                            == Action::RequestRetransmit(init[i].address);
                    assert(init[i] == cs[i]);
                    assert(cs[i].address != cs[cs.len() - 1].address);
                } else {
                    assert(reqs[k1] == rest[k1]);
                    assert(reqs[k2] == rest[k2]);
                }
            }
        }
    }
}

/// What a tick asks for, when every packet of the tick arrived less than a
/// second before `now`: first the snapshots handed on, then the
/// retransmission requests; each request is for a sender known before the
/// tick whose connection the tick's arrivals left as it was and whose timer
/// ran out, and no sender is asked twice.
pub proof fn lemma_tick_requests(cs: Seq<Connection>, arrivals: Seq<(Packet, u64)>, now: u64, delay: usize)
    requires
        addresses_distinct(cs),
        forall|i: int| 0 <= i < arrivals.len() ==> elapsed_secs(#[trigger] arrivals[i].1, now) < 1,
    ensures
        ({
            let (cs1, received) = receive_all(cs, arrivals);
            let reqs = retransmit_requests(cs1, now, delay);
            &&& forall|i: int| 0 <= i < received.len() ==> #[trigger] received[i] is Received
            &&& forall|k: int|
                0 <= k < reqs.len() ==> exists|j: int|
                    0 <= j < cs.len() && #[trigger] reqs[k] == Action::RequestRetransmit(cs[j].address)
                        && position(cs, cs[j].address) == Some(j) && position(cs1, cs[j].address)
                        == Some(j) && cs1[j] == cs[j] && timer_fires(cs[j], now, delay)
            &&& forall|k1: int, k2: int| 0 <= k1 < k2 < reqs.len() ==> #[trigger] reqs[k1] != #[trigger] reqs[k2]
        }),
{
    lemma_receive_all_hands_on_snapshots(cs, arrivals);
    lemma_receive_all_recent(cs, arrivals, now);
    lemma_receive_all_never_forgets(cs, arrivals);
    let cs1 = receive_all(cs, arrivals).0;
    let reqs = retransmit_requests(cs1, now, delay);
    lemma_requests_distinct(cs1, now, delay);
    assert forall|k: int| 0 <= k < reqs.len() implies exists|j: int|
        0 <= j < cs.len() && #[trigger] reqs[k] == Action::RequestRetransmit(cs[j].address) && position(
            cs,
            cs[j].address,
        ) == Some(j) && position(cs1, cs[j].address) == Some(j) && cs1[j] == cs[j] && timer_fires(
            cs[j],
            now,
            delay,
        ) by {
        lemma_requests_are_for_fired_timers(cs1, now, delay, k);
        let i = choose|i: int|
            0 <= i < cs1.len() && timer_fires(#[trigger] cs1[i], now, delay) && reqs[k]
                == Action::RequestRetransmit(cs1[i].address);
        assert(i < cs.len() && cs1[i] == cs[i]);
        lemma_position(cs, cs[i].address, i);
        lemma_position(cs1, cs[i].address, i);
    }
}

proof fn lemma_fired_is_requested(cs: Seq<Connection>, now: u64, delay: usize, i: int)
    requires
        0 <= i < cs.len(),
        timer_fires(cs[i], now, delay),
    ensures
        retransmit_requests(cs, now, delay).contains(Action::RequestRetransmit(cs[i].address)),
    decreases cs.len(),
{
    let init = cs.drop_last();
    let rest = retransmit_requests(init, now, delay);
    let reqs = retransmit_requests(cs, now, delay);
    if i < cs.len() - 1 {
        assert(init[i] == cs[i]);
        lemma_fired_is_requested(init, now, delay, i);
        let k = choose|k: int| 0 <= k < rest.len() && rest[k] == Action::RequestRetransmit(cs[i].address);
        if timer_fires(cs.last(), now, delay) {
            assert(reqs[k] == rest[k]);
        }
        assert(reqs[k] == Action::RequestRetransmit(cs[i].address));
    } else {
        assert(reqs[rest.len() as int] == Action::RequestRetransmit(cs[i].address));
    }
}

/// A sender is due a retransmission request when it has been quiet, since
/// its timer began, for `delay + 1` whole seconds in good standing, or for a
/// second since it was last asked. Every due sender is asked, however long
/// past due, and its timer restarts at `now` with the sender waiting for a
/// retransmission; a sender not due is left as it was.
pub proof fn lemma_due_senders_are_asked(cs: Seq<Connection>, now: u64, delay: usize, i: int)
    requires
        0 <= i < cs.len(),
    ensures
        ({
            let c = cs[i];
            let due = now >= c.curr_timer && match c.state {
                State::Regular => (now - c.curr_timer) / 1000 >= delay + 1,
                State::WaitingForRetransmit => now - c.curr_timer >= 1000,
            };
            &&& due ==> retransmit_requests(cs, now, delay).contains(Action::RequestRetransmit(c.address))
            &&& due ==> timers_after(cs, now, delay)[i] == Connection {
                address: c.address,
                last_received: c.last_received,
                curr_timer: now,
                state: State::WaitingForRetransmit,
            }
            &&& !due ==> timers_after(cs, now, delay)[i] == c
        }),
{
    let c = cs[i];
    let due = now >= c.curr_timer && match c.state {
        State::Regular => (now - c.curr_timer) / 1000 >= delay + 1,
        State::WaitingForRetransmit => now - c.curr_timer >= 1000,
    };
    assert(due == timer_fires(c, now, delay));
    if due {
        lemma_fired_is_requested(cs, now, delay, i);
    }
}

/// Only due senders are asked: every retransmission request names a sender
/// that has been quiet for `delay + 1` whole seconds in good standing, or
/// for a second since it was last asked.
pub proof fn lemma_only_due_senders_are_asked(cs: Seq<Connection>, now: u64, delay: usize, a: SocketAddress)
    requires
        retransmit_requests(cs, now, delay).contains(Action::RequestRetransmit(a)),
    ensures
        exists|i: int|
            0 <= i < cs.len() && #[trigger] cs[i].address == a && now >= cs[i].curr_timer && match cs[i].state {
                State::Regular => (now - cs[i].curr_timer) / 1000 >= delay + 1,
                State::WaitingForRetransmit => now - cs[i].curr_timer >= 1000,
            },
{
    let reqs = retransmit_requests(cs, now, delay);
    let k = choose|k: int| 0 <= k < reqs.len() && reqs[k] == Action::RequestRetransmit(a);
    lemma_requests_are_for_fired_timers(cs, now, delay, k);
    let i = choose|i: int|
        0 <= i < cs.len() && timer_fires(#[trigger] cs[i], now, delay) && reqs[k]
            == Action::RequestRetransmit(cs[i].address);
    assert(cs[i].address == a);
}

/// A snapshot is taken when it comes from a sender not heard from before,
/// or when its id is greater than the last one taken from its sender,
/// whatever the gap; its id is then the one recorded for its sender.
pub proof fn lemma_newer_snapshot_taken(cs: Seq<Connection>, packet: Packet, now: u64)
    requires
        addresses_distinct(cs),
        packet.spec_packet_kind() is Data,
        match request_id(cs, packet.spec_sender_address()) {
            Some(k) => packet.spec_packet_id() > k,
            None => true,
        },
    ensures
        receive_spec(cs, packet, now).1 is Some,
        request_id(receive_spec(cs, packet, now).0, packet.spec_sender_address()) == Some(
            packet.spec_packet_id(),
        ),
{
    lemma_taken_id_recorded(cs, packet, now);
}

impl Receiver {
    pub closed spec fn wf(&self) -> bool {
        &&& addresses_distinct(self.connections@)
    }

    /// A receiver is well formed exactly when it keeps one connection per
    /// sender.
    pub proof fn lemma_wf_distinct(&self)
        ensures
            self.wf() <==> addresses_distinct(self.connections()),
    {
    }

    /// The connections, in the order in which the senders were first heard from.
    pub closed spec fn connections(&self) -> Seq<Connection> {
        self.connections@
    }

    pub closed spec fn spec_address(&self) -> SocketAddress {
        self.address
    }

    pub closed spec fn spec_delay(&self) -> usize {
        self.delay
    }

    /// The receiver's own standing, as opposed to that of each connection;
    /// it starts `Regular`, and nothing changes it.
    pub closed spec fn spec_state(&self) -> State {
        self.state
    }

    /// A receiver at `address` that waits `delay` seconds beyond the usual
    /// before requesting retransmission.
    pub fn new(address: SocketAddress, delay: usize) -> (r: Self)
        ensures
            r.wf(),
            r.spec_address() == address,
            r.spec_delay() == delay,
            r.spec_state() == State::Regular,
            r.connections() == Seq::<Connection>::empty(),
    {
        Receiver { address, connections: Vec::new(), state: State::Regular, delay }
    }

    fn find(&self, a: SocketAddress) -> (r: Option<usize>)
        requires
            self.wf(),
        ensures
            match r {
                Some(i) => position(self.connections(), a) == Some(i as int),
                None => position(self.connections(), a) is None,
            },
    {
        let n = self.connections.len();
        for i in 0..n
            invariant
                n == self.connections.len(),
                self.wf(),
                forall|j: int| 0 <= j < i ==> self.connections@[j].address != a,
        {
            if self.connections[i].address == a {
                proof {
                    lemma_position(self.connections@, a, i as int);
                }
                return Some(i);
            }
        }
        None
    }

    /// The connection for sender `a`, where there is one.
    pub fn connection(&self, a: SocketAddress) -> (r: Option<Connection>)
        requires
            self.wf(),
        ensures
            match position(self.connections(), a) {
                Some(i) => r == Some(self.connections()[i]),
                None => r is None,
            },
    {
        match self.find(a) {
            Some(i) => Some(self.connections[i]),
            None => None,
        }
    }

    /// Handles one packet that arrived at time `now`.
    pub fn receive(&mut self, packet: Packet, now: u64) -> (r: Option<Action>)
        requires
            old(self).wf(),
        ensures
            final(self).wf(),
            final(self).spec_address() == old(self).spec_address(),
            final(self).spec_delay() == old(self).spec_delay(),
            final(self).spec_state() == old(self).spec_state(),
            (final(self).connections(), r) == receive_spec(old(self).connections(), packet, now),
    {
        proof {
            lemma_receive_keeps_distinct(self.connections@, packet, now);
        }
        let ghost old_packet = packet;
        let sender = packet.sender_address();
        let id = packet.packet_id();
        match packet.get_ownership_of_packet_kind() {
            PacketKind::Data(processes) => {
                match self.find(sender) {
                    Some(i) => {
                        if id > self.connections[i].last_received {
                            let c = Connection {
                                address: sender,
                                last_received: id,
                                curr_timer: now,
                                state: State::Regular,
                            };
                            self.connections.set(i, c);
                            Some(Action::Received(processes))
                        } else {
                            None
                        }
                    },
                    None => {
                        let c = Connection {
                            address: sender,
                            last_received: id,
                            curr_timer: now,
                            state: State::Regular,
                        };
                        self.connections.push(c);
                        Some(Action::Received(processes))
                    },
                }
            },
            PacketKind::RetransmitRequest => None,
        }
    }
    /// Looks at every connection's timer at time `now`: a sender in good
    /// standing that has been quiet for `delay + 1` seconds, or one already
    /// asked that has been quiet for another second, is asked again, and its
    /// timer restarts.
    pub fn check_timeouts(&mut self, now: u64) -> (r: Vec<Action>)
        requires
            old(self).wf(),
        ensures
            final(self).wf(),
            final(self).spec_address() == old(self).spec_address(),
            final(self).spec_delay() == old(self).spec_delay(),
            final(self).spec_state() == old(self).spec_state(),
            final(self).connections() == timers_after(old(self).connections(), now, old(self).spec_delay()),
            r@ == retransmit_requests(old(self).connections(), now, old(self).spec_delay()),
    {
        let ghost cs0 = self.connections@;
        let delay = self.delay;
        let mut actions: Vec<Action> = Vec::new();
        let n = self.connections.len();
        proof {
            lemma_timers_keep_addresses(cs0, now, delay);
        }
        for i in 0..n
            invariant
                n == cs0.len(),
                delay == self.delay,
                self.address == old(self).address,
                self.delay == old(self).delay,
                self.state == old(self).state,
                cs0 == old(self).connections@,
                self.connections@.len() == n,
                forall|j: int| 0 <= j < i ==> self.connections@[j] == after_timer(cs0[j], now, delay),
                forall|j: int| i <= j < n ==> self.connections@[j] == cs0[j],
                actions@ == retransmit_requests(cs0.take(i as int), now, delay),
        {
            let c = self.connections[i];
            let elapsed: u64 = if now >= c.curr_timer {
                (now - c.curr_timer) / 1000
            } else {
                0
            };
            let fires = match c.state {
                State::Regular => elapsed as u128 >= delay as u128 + 1,
                State::WaitingForRetransmit => elapsed >= 1,
            };
            proof {
                assert(cs0.take(i + 1).drop_last() =~= cs0.take(i as int));
                assert(fires == timer_fires(cs0[i as int], now, delay));
            }
            if fires {
                self.connections.set(
                    i,
                    Connection { curr_timer: now, state: State::WaitingForRetransmit, ..c },
                );
                actions.push(Action::RequestRetransmit(c.address));
            }
        }
        proof {
            assert(cs0.take(n as int) =~= cs0);
            assert(self.connections@ =~= timers_after(cs0, now, delay));
        }
        actions
    }

    /// Handles a run of packets, each with the time it arrived, then looks
    /// at the timers at time `now`. The snapshots handed on come first, in
    /// the order of arrival, then the retransmission requests.
    pub fn tick(&mut self, arrivals: Vec<(Packet, u64)>, now: u64) -> (r: Vec<Action>)
        requires
            old(self).wf(),
        ensures
            final(self).wf(),
            final(self).spec_address() == old(self).spec_address(),
            final(self).spec_delay() == old(self).spec_delay(),
            final(self).spec_state() == old(self).spec_state(),
            ({
                let (cs1, received) = receive_all(old(self).connections(), arrivals@);
                &&& final(self).connections() == timers_after(cs1, now, old(self).spec_delay())
                &&& r@ == received + retransmit_requests(cs1, now, old(self).spec_delay())
            }),
            // the last id recorded per sender is the largest seen, and the
            // senders known grow by those a snapshot came from
            forall|a: SocketAddress|
                #![trigger request_id(final(self).connections(), a)]
                request_id(final(self).connections(), a) == max_id(
                    request_id(old(self).connections(), a),
                    max_data_id(arrivals@, a),
                ),
            // when every packet came less than a second before `now`: the
            // snapshots handed on come first; each request after them is for
            // a sender known before, whose connection the arrivals left as
            // it was and whose timer ran out; no sender is asked twice
            (forall|i: int| 0 <= i < arrivals@.len() ==> elapsed_secs(#[trigger] arrivals@[i].1, now) < 1)
                ==> ({
                let cs0 = old(self).connections();
                let (cs1, received) = receive_all(cs0, arrivals@);
                &&& forall|i: int| 0 <= i < received.len() ==> #[trigger] r@[i] is Received
                &&& forall|i: int|
                    received.len() <= i < r@.len() ==> exists|j: int|
                        0 <= j < cs0.len() && #[trigger] r@[i] == Action::RequestRetransmit(cs0[j].address)
                            && position(cs0, cs0[j].address) == Some(j) && position(cs1, cs0[j].address)
                            == Some(j) && cs1[j] == cs0[j] && timer_fires(cs0[j], now, old(self).spec_delay())
                &&& forall|i1: int, i2: int|
                    received.len() <= i1 < i2 < r@.len() ==> #[trigger] r@[i1] != #[trigger] r@[i2]
            }),
    {
        let ghost all = arrivals@;
        let ghost cs0 = self.connections@;
        let mut actions: Vec<Action> = Vec::new();
        for arrival in it: arrivals
            invariant
                self.wf(),
                self.address == old(self).address,
                self.delay == old(self).delay,
                self.state == old(self).state,
                cs0 == old(self).connections@,
                all == it.seq(),
                (self.connections@, actions@) == receive_all(cs0, all.take(it.index() as int)),
        {
            let ghost k = it.index() as int;
            proof {
                assert(all.take(k + 1).drop_last() =~= all.take(k));
            }
            let (packet, at) = arrival;
            let r = self.receive(packet, at);
            if let Some(a) = r {
                actions.push(a);
            }
        }
        proof {
            assert(all.take(all.len() as int) =~= all);
        }
        let mut requests = self.check_timeouts(now);
        actions.append(&mut requests);
        proof {
            let cs1 = receive_all(cs0, all).0;
            let received = receive_all(cs0, all).1;
            let reqs = retransmit_requests(cs1, now, self.delay);
            assert forall|a: SocketAddress| #[trigger] request_id(self.connections@, a) == max_id(
                request_id(cs0, a),
                max_data_id(all, a),
            ) by {
                lemma_tick_records_largest_ids(cs0, all, now, self.delay, a);
            }
            if forall|i: int| 0 <= i < all.len() ==> elapsed_secs(#[trigger] all[i].1, now) < 1 {
                lemma_tick_requests(cs0, all, now, self.delay);
                let k = received.len() as int;
                assert forall|i: int| 0 <= i < k implies #[trigger] actions@[i] is Received by {
                    assert(actions@[i] == received[i]);
                }
                assert forall|i: int| k <= i < actions@.len() implies exists|j: int|
                    0 <= j < cs0.len() && #[trigger] actions@[i] == Action::RequestRetransmit(cs0[j].address)
                        && position(cs0, cs0[j].address) == Some(j) && position(cs1, cs0[j].address)
                        == Some(j) && cs1[j] == cs0[j] && timer_fires(cs0[j], now, self.delay) by {
                    assert(actions@[i] == reqs[i - k]);
                }
                assert forall|i1: int, i2: int| k <= i1 < i2 < actions@.len() implies #[trigger] actions@[i1]
                    != #[trigger] actions@[i2] by {
                    assert(actions@[i1] == reqs[i1 - k]);
                    assert(actions@[i2] == reqs[i2 - k]);
                }
            }
        }
        actions
    }

    /// The retransmission request for sender `addr_to`: from this receiver,
    /// carrying the id of the last snapshot taken from that sender. None
    /// where the sender is unknown.
    pub fn send_retransmit_request(&self, addr_to: SocketAddress) -> (r: Option<Packet>)
        requires
            self.wf(),
        ensures
            match request_id(self.connections(), addr_to) {
                Some(id) => r matches Some(p) && p.spec_sender_address() == self.spec_address()
                    && p.spec_receiver_address() == addr_to && p.spec_packet_id() == id
                    && p.spec_packet_kind() == PacketKind::RetransmitRequest,
                None => r is None,
            },
    {
        match self.find(addr_to) {
            Some(i) => Some(
                Packet::new(
                    self.address,
                    addr_to,
                    self.connections[i].last_received,
                    PacketKind::RetransmitRequest,
                ),
            ),
            None => None,
        }
    }
}

} // verus!
