//! Gossip-based message dissemination: messages with a hop limit, peer
//! subscriptions, a deduplicating fan-out router, heartbeat membership with
//! suspicion-based failure detection, and anti-entropy reconciliation.
pub mod keyed;
pub mod membership;
pub mod message;
pub mod router;
pub mod peers;
pub mod anti_entropy;

pub use anti_entropy::AntiEntropy;
pub use membership::MembershipProtocol;
pub use message::GossipMessage;
pub use peers::PeerState;
pub use router::GossipRouter;
