use gossip_sub::{AntiEntropy, GossipMessage, GossipRouter, MembershipProtocol, PeerState};

#[test]
fn test_message_hop() {
    let mut msg = GossipMessage::with_sequence("n1", vec![], 2, 1);
    assert!(msg.hop()); // ttl: 2 → 1
    assert!(msg.is_alive());
    assert!(msg.hop()); // ttl: 1 → 0
    assert!(!msg.is_alive());
    assert!(!msg.hop()); // already 0
}

#[test]
fn test_peer_state_add_remove() {
    let mut ps = PeerState::new();
    ps.add_peer("n1");
    ps.add_peer("n2");
    assert_eq!(ps.peer_count(), 2);
    assert!(ps.has_peer("n1"));
    assert!(ps.remove_peer("n1"));
    assert!(!ps.has_peer("n1"));
    assert_eq!(ps.peer_count(), 1);
}

#[test]
fn test_peer_state_subscribe() {
    let mut ps = PeerState::new();
    ps.add_peer("n1");
    ps.add_peer("n2");
    ps.subscribe("n1", "topic-a");
    ps.subscribe("n1", "topic-b");
    ps.subscribe("n2", "topic-a");
    let subs = ps.subscribers("topic-a");
    assert_eq!(subs.len(), 2);
    let topics = ps.topics("n1");
    assert_eq!(topics.len(), 2);
}

#[test]
fn test_peer_state_unsubscribe() {
    let mut ps = PeerState::new();
    ps.add_peer("n1");
    ps.subscribe("n1", "topic-a");
    ps.unsubscribe("n1", "topic-a");
    assert!(ps.subscribers("topic-a").is_empty());
}

#[test]
fn test_peer_state_last_seen() {
    let mut ps = PeerState::new();
    ps.add_peer("n1");
    let t1 = ps.last_seen("n1").unwrap();
    ps.touch("n1");
    let t2 = ps.last_seen("n1").unwrap();
    assert!(t2 > t1);
}

#[test]
fn test_router_broadcast() {
    let mut router = GossipRouter::new("n1", 3);
    let msg = GossipMessage::with_sequence("n1", vec![1], 5, 1);
    router.broadcast(&msg);
    assert_eq!(router.seen_count(), 1);
    assert_eq!(router.drain_pending().len(), 1);
}

#[test]
fn test_router_dedup() {
    let mut router = GossipRouter::new("n1", 3);
    let msg = GossipMessage::with_sequence("n1", vec![1], 5, 1);
    router.broadcast(&msg);
    router.broadcast(&msg); // duplicate
    assert_eq!(router.seen_count(), 1);
}

#[test]
fn test_router_receive_new() {
    let mut router = GossipRouter::new("n1", 3);
    let mut msg = GossipMessage::with_sequence("n2", vec![2], 5, 1);
    assert!(router.receive(&mut msg));
    assert_eq!(router.seen_count(), 1);
}

#[test]
fn test_router_receive_duplicate() {
    let mut router = GossipRouter::new("n1", 3);
    let mut msg = GossipMessage::with_sequence("n2", vec![2], 5, 1);
    router.receive(&mut msg);
    let mut msg2 = GossipMessage::with_sequence("n2", vec![2], 5, 1);
    assert!(!router.receive(&mut msg2));
}

#[test]
fn test_membership_add_remove() {
    let mut m = MembershipProtocol::new("n1", 5000);
    m.add_peer("n2");
    m.add_peer("n3");
    assert_eq!(m.member_count(), 2);
    assert!(m.is_alive("n2"));
    m.remove_peer("n2");
    assert!(!m.is_alive("n2"));
}

#[test]
fn test_membership_heartbeat() {
    let mut m = MembershipProtocol::new("n1", 5000);
    m.add_peer("n2");
    m.receive_heartbeat("n2");
    assert!(m.is_alive("n2"));
}

#[test]
fn test_membership_tick_failure() {
    let mut m = MembershipProtocol::new("n1", 5000);
    m.add_peer("n2");
    // Tick many times without heartbeat
    for _ in 0..20 {
        m.tick();
    }
    assert!(!m.is_alive("n2"));
}

#[test]
fn test_anti_entropy_record_and_digest() {
    let mut ae = AntiEntropy::new();
    ae.record("n1", 1);
    ae.record("n1", 2);
    ae.record("n2", 1);
    assert_eq!(ae.known_count(), 3);
    let digest = ae.digest();
    assert_eq!(digest.len(), 3);
}

#[test]
fn test_anti_entropy_diff() {
    let mut ae1 = AntiEntropy::new();
    ae1.record("n1", 1);
    ae1.record("n1", 2);
    let mut ae2 = AntiEntropy::new();
    ae2.record("n1", 1);
    let digest = ae1.digest();
    let diff = ae2.diff(&digest);
    assert_eq!(diff.len(), 1);
    assert_eq!(diff[0], ("n1".to_string(), 2));
}

#[test]
fn test_anti_entropy_missing() {
    let mut ae = AntiEntropy::new();
    ae.request_missing(vec![("n2".to_string(), 5), ("n3".to_string(), 1)]);
    assert_eq!(ae.missing_count(), 2);
    let drained = ae.drain_missing();
    assert_eq!(drained.len(), 2);
    assert_eq!(ae.missing_count(), 0);
}
