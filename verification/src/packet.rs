use vstd::prelude::*;
use crate::address::SocketAddress;
use crate::process::Processes;

verus! {

/// What a Pulse datagram carries: a snapshot, or a request to send again.
#[derive(Debug)]
pub enum PacketKind {
    Data(Processes),
    /// Carries, in the packet's id, the last snapshot id the requester holds.
    RetransmitRequest,
}

/// A Pulse datagram.
#[derive(Debug)]
pub struct Packet {
    sender_address: SocketAddress,
    receiver_address: SocketAddress,
    packet_id: usize,
    packet_kind: PacketKind,
}

impl Packet {
    pub closed spec fn spec_sender_address(&self) -> SocketAddress {
        self.sender_address
    }

    pub closed spec fn spec_receiver_address(&self) -> SocketAddress {
        self.receiver_address
    }

    pub closed spec fn spec_packet_id(&self) -> usize {
        self.packet_id
    }

    pub closed spec fn spec_packet_kind(&self) -> PacketKind {
        self.packet_kind
    }

    pub fn new(
        sender_address: SocketAddress,
        receiver_address: SocketAddress,
        packet_id: usize,
        packet_kind: PacketKind,
    ) -> (p: Self)
        ensures
            p.spec_sender_address() == sender_address,
            p.spec_receiver_address() == receiver_address,
            p.spec_packet_id() == packet_id,
            p.spec_packet_kind() == packet_kind,
    {
        Packet { sender_address, receiver_address, packet_id, packet_kind }
    }

    pub fn sender_address(&self) -> (a: SocketAddress)
        ensures
            a == self.spec_sender_address(),
    {
        self.sender_address
    }

    pub fn receiver_address(&self) -> (a: SocketAddress)
        ensures
            a == self.spec_receiver_address(),
    {
        self.receiver_address
    }

    pub fn packet_id(&self) -> (id: usize)
        ensures
            id == self.spec_packet_id(),
    {
        self.packet_id
    }

    pub fn packet_kind(&self) -> (k: &PacketKind)
        ensures
            *k == self.spec_packet_kind(),
    {
        &self.packet_kind
    }

    pub fn get_ownership_of_packet_kind(self) -> (k: PacketKind)
        ensures
            k == self.spec_packet_kind(),
    {
        self.packet_kind
    }
}

} // verus!
