use vstd::prelude::*;
use crate::address::SocketAddress;
use crate::packet::{Packet, PacketKind};
use crate::process::Processes;

verus! {

/// What the sender asks its caller to do.
#[derive(Clone, Copy, Debug, PartialEq, Eq, Structural)]
pub enum Action {
    /// Send the latest snapshot again: a receiver is behind.
    Retransmit,
    /// Send a new snapshot: the interval is over.
    Send,
    Nothing,
}

/// How long the sender waits between snapshots, in milliseconds.
pub const SEND_INTERVAL_MS: u64 = 5000;

/// The sending end of Pulse.
pub struct Sender {
    address: SocketAddress,
    last_sent: usize,
    curr_timer: u64,
}

/// Milliseconds from `start` to `now`; none where `now` comes first.
pub open spec fn elapsed_ms(start: u64, now: u64) -> int {
    if now >= start {
        now - start
    } else {
        0
    }
}

/// The decision of a sender whose last snapshot had id `last_sent` and whose
/// interval began at `timer`, at time `now`, having read `incoming` (if
/// anything): send when the interval is over; otherwise retransmit when the
/// packet read is a retransmission request from a receiver behind the
/// sender; otherwise nothing.
pub open spec fn tick_spec(last_sent: usize, timer: u64, now: u64, incoming: Option<Packet>) -> Action {
    if elapsed_ms(timer, now) >= SEND_INTERVAL_MS {
        Action::Send
    } else {
        match incoming {
            Some(p) => if p.spec_packet_kind() is RetransmitRequest && p.spec_packet_id() < last_sent {
                Action::Retransmit
            } else {
                Action::Nothing
            },
            None => Action::Nothing,
        }
    }
}

/// The id after `id`, wrapping around at the end of `usize`.
pub open spec fn next_id(id: usize) -> usize {
    if id == usize::MAX {
        0
    } else {
        (id + 1) as usize
    }
}

/// Once the interval is over the sender sends, whatever it read meanwhile:
/// a retransmission request, a stray snapshot, or nothing.
pub proof fn lemma_interval_over_sends(last_sent: usize, timer: u64, now: u64, incoming: Option<Packet>)
    requires
        now >= timer + SEND_INTERVAL_MS,
    ensures
        tick_spec(last_sent, timer, now, incoming) == Action::Send,
{
}

/// Within the interval, and with nothing read, the sender does nothing.
pub proof fn lemma_within_interval_idle(last_sent: usize, timer: u64, now: u64)
    requires
        now < timer + SEND_INTERVAL_MS,
    ensures
        tick_spec(last_sent, timer, now, None) == Action::Nothing,
{
}

/// Ids count up by one from each id to the next, and after the largest
/// `usize` start again at zero.
pub proof fn lemma_next_id_counts_up(id: usize)
    ensures
        id < usize::MAX ==> next_id(id) == id + 1,
        id == usize::MAX ==> next_id(id) == 0,
{
}

impl Sender {
    pub closed spec fn spec_address(&self) -> SocketAddress {
        self.address
    }

    /// The id of the last snapshot sent; zero before the first.
    pub closed spec fn spec_last_sent(&self) -> usize {
        self.last_sent
    }

    /// When the current interval began, in milliseconds of a monotonic clock.
    pub closed spec fn spec_timer(&self) -> u64 {
        self.curr_timer
    }

    /// A sender at `address` whose first interval begins at `now`.
    pub fn new(address: SocketAddress, now: u64) -> (s: Self)
        ensures
            s.spec_address() == address,
            s.spec_last_sent() == 0,
            s.spec_timer() == now,
    {
        Sender { address, last_sent: 0, curr_timer: now }
    }

    pub fn last_sent(&self) -> (id: usize)
        ensures
            id == self.spec_last_sent(),
    {
        self.last_sent
    }

    /// Decides what to do at time `now`, given the packet read meanwhile.
    pub fn tick(&self, now: u64, incoming: Option<Packet>) -> (a: Action)
        ensures
            a == tick_spec(self.spec_last_sent(), self.spec_timer(), now, incoming),
    {
        let elapsed: u64 = if now >= self.curr_timer {
            now - self.curr_timer
        } else {
            0
        };
        if elapsed >= SEND_INTERVAL_MS {
            return Action::Send;
        }
        match incoming {
            Some(p) => match p.packet_kind() {
                PacketKind::Data(_) => Action::Nothing,
                PacketKind::RetransmitRequest => {
                    if p.packet_id() < self.last_sent {
                        Action::Retransmit
                    } else {
                        Action::Nothing
                    }
                },
            },
            None => Action::Nothing,
        }
    }

    /// The packet for a new snapshot to `addr_to`: it takes the next id,
    /// which becomes the last one sent. The interval restarts only once the
    /// packet is out (`restart_timer`).
    pub fn send(&mut self, processes: Processes, addr_to: SocketAddress) -> (p: Packet)
        ensures
            final(self).spec_last_sent() == next_id(old(self).spec_last_sent()),
            final(self).spec_address() == old(self).spec_address(),
            final(self).spec_timer() == old(self).spec_timer(),
            p.spec_sender_address() == old(self).spec_address(),
            p.spec_receiver_address() == addr_to,
            p.spec_packet_id() == next_id(old(self).spec_last_sent()),
            p.spec_packet_kind() == PacketKind::Data(processes),
    {
        self.last_sent = self.last_sent.wrapping_add(1);
        Packet::new(self.address, addr_to, self.last_sent, PacketKind::Data(processes))
    }

    /// Begins a new interval at `now`, once a snapshot is out.
    pub fn restart_timer(&mut self, now: u64)
        ensures
            final(self).spec_timer() == now,
            final(self).spec_address() == old(self).spec_address(),
            final(self).spec_last_sent() == old(self).spec_last_sent(),
    {
        self.curr_timer = now;
    }
}

} // verus!
