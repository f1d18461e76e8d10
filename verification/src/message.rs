//! The unit of dissemination: a message with an origin, a payload, a hop
//! limit and a sequence number that, with the origin, identifies it.
use vstd::prelude::*;

verus! {

/// The abstract content of a `GossipMessage`.
pub struct MessageView {
    pub origin: Seq<char>,
    pub payload: Seq<u8>,
    pub ttl: u32,
    pub sequence: u64,
}

/// What identifies a message across the network: its origin and sequence number.
pub type MessageId = (Seq<char>, u64);

/// The ids named by a sequence of `(origin, sequence)` pairs.
pub open spec fn id_views(s: Seq<(String, u64)>) -> Seq<MessageId> {
    s.map_values(|x: (String, u64)| x@)
}

impl MessageView {
    pub open spec fn id(self) -> MessageId {
        (self.origin, self.sequence)
    }

    /// The message after one hop: one hop fewer, never below zero.
    pub open spec fn hopped(self) -> MessageView {
        MessageView { ttl: if self.ttl > 0 { (self.ttl - 1) as u32 } else { 0 }, ..self }
    }
}

/// A hop takes one off a live message's hop count and leaves its origin,
/// payload and sequence number as they were; an expired message stays expired.
pub proof fn law_hop_spends_one_hop(m: MessageView)
    ensures
        m.ttl > 0 ==> m.hopped().ttl == m.ttl - 1,
        m.ttl == 0 ==> m.hopped().ttl == 0,
        m.hopped().origin == m.origin,
        m.hopped().payload == m.payload,
        m.hopped().sequence == m.sequence,
        m.hopped().id() == m.id(),
{
}

/// A gossip message propagating through the network.
///
/// Each message carries its origin, payload, time-to-live (hop limit),
/// and a monotonically increasing sequence number for ordering.
#[derive(Debug, Clone, PartialEq)]
pub struct GossipMessage {
    /// Origin node that created this message.
    pub origin: String,
    /// Message payload bytes.
    pub payload: Vec<u8>,
    /// Time-to-live: decremented at each hop, dropped when 0.
    pub ttl: u32,
    /// Monotonic sequence number from the origin.
    pub sequence: u64,
}

impl View for GossipMessage {
    type V = MessageView;

    open spec fn view(&self) -> MessageView {
        MessageView {
            origin: self.origin@,
            payload: self.payload@,
            ttl: self.ttl,
            sequence: self.sequence,
        }
    }
}

/// The views of a sequence of messages.
pub open spec fn message_views(s: Seq<GossipMessage>) -> Seq<MessageView> {
    s.map_values(|m: GossipMessage| m@)
}

impl GossipMessage {
    /// Create with explicit sequence number (for testing/deserialization).
    pub fn with_sequence(origin: &str, payload: Vec<u8>, ttl: u32, sequence: u64) -> (m: Self)
        ensures
            m@ == (MessageView { origin: origin@, payload: payload@, ttl, sequence }),
    {
        GossipMessage { origin: origin.to_owned(), payload, ttl, sequence }
    }

    /// Decrement TTL. Returns false if the message has expired (TTL was 0).
    pub fn hop(&mut self) -> (alive: bool)
        ensures
            alive == (old(self).ttl > 0),
            final(self)@ == old(self)@.hopped(),
    {
        if self.ttl == 0 {
            return false;
        }
        self.ttl = self.ttl - 1;
        true
    }

    /// Check if the message has remaining hops.
    pub fn is_alive(&self) -> (alive: bool)
        ensures
            alive == (self.ttl > 0),
    {
        self.ttl > 0
    }

    /// The identifier `(origin, sequence)` of this message.
    pub(crate) fn id(&self) -> (id: (String, u64))
        ensures
            id@ == self@.id(),
    {
        (self.origin.clone(), self.sequence)
    }

    /// A copy with the same content.
    pub(crate) fn duplicate(&self) -> (m: Self)
        ensures
            m@ == self@,
    {
        let payload = self.payload.clone();
        assert(payload@ =~= self.payload@);
        GossipMessage {
            origin: self.origin.clone(),
            payload,
            ttl: self.ttl,
            sequence: self.sequence,
        }
    }
}

} // verus!
