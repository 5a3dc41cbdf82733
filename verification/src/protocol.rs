//! Properties of the sender and the receiver together.

use vstd::prelude::*;
use crate::address::SocketAddress;
use crate::packet::Packet;
use crate::receiver::{addresses_distinct, receive_spec, request_id, lemma_taken_id_recorded, Connection};
use crate::sender::{next_id, tick_spec, Action};

verus! {

/// A retransmission request is answered with a snapshot exactly when the
/// requester is behind: a sender whose interval is not over retransmits when
/// the request's id is below its last id sent, and otherwise does nothing.
pub proof fn lemma_request_answered_iff_behind(last_sent: usize, timer: u64, now: u64, request: Packet)
    requires
        request.spec_packet_kind() is RetransmitRequest,
    ensures
        tick_spec(last_sent, timer, now, Some(request)) != Action::Nothing
            <==> (request.spec_packet_id() < last_sent || now >= timer + 5000),
        tick_spec(last_sent, timer, now, Some(request)) == Action::Retransmit
            ==> request.spec_packet_id() < last_sent,
{
}

/// A receiver that is behind a sender gets caught up: the request it sends
/// carries the last id it took from that sender, and on such a request the
/// sender sends a snapshot, new or again.
pub proof fn lemma_catch_up(
    cs: Seq<Connection>,
    sender: SocketAddress,
    request: Packet,
    last_sent: usize,
    timer: u64,
    now: u64,
)
    requires
        addresses_distinct(cs),
        request_id(cs, sender) matches Some(k) && k < last_sent,
        request.spec_packet_kind() is RetransmitRequest,
        Some(request.spec_packet_id()) == request_id(cs, sender),
    ensures
        tick_spec(last_sent, timer, now, Some(request)) == Action::Retransmit
            || tick_spec(last_sent, timer, now, Some(request)) == Action::Send,
{
}

/// A receiver that holds a sender's last snapshot takes the sender's next
/// one, as long as the id does not wrap around, and records its id.
pub proof fn lemma_next_snapshot_taken(
    cs: Seq<Connection>,
    packet: Packet,
    last_sent: usize,
    now: u64,
)
    requires
        addresses_distinct(cs),
        request_id(cs, packet.spec_sender_address()) == Some(last_sent),
        last_sent < usize::MAX,
        packet.spec_packet_kind() is Data,
        packet.spec_packet_id() == next_id(last_sent),
    ensures
        receive_spec(cs, packet, now).1 is Some,
        request_id(receive_spec(cs, packet, now).0, packet.spec_sender_address()) == Some(
            next_id(last_sent),
        ),
{
    let a = packet.spec_sender_address();
    let i = crate::receiver::position(cs, a)->Some_0;
    assert(cs[i].address == a);
    lemma_taken_id_recorded(cs, packet, now);
}

} // verus!
