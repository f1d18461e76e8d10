use gossip_sub::{AntiEntropy, GossipMessage, GossipRouter, MembershipProtocol, PeerState};

fn sorted(mut v: Vec<String>) -> Vec<String> {
    v.sort();
    v
}

// ---- messages ----

#[test]
fn message_with_sequence_keeps_fields() {
    let msg = GossipMessage::with_sequence("n1", vec![1, 2, 3], 5, 42);
    assert_eq!(msg.origin, "n1");
    assert_eq!(msg.payload, vec![1, 2, 3]);
    assert_eq!(msg.ttl, 5);
    assert_eq!(msg.sequence, 42);
}

#[test]
fn message_hop_stops_at_zero() {
    let mut msg = GossipMessage::with_sequence("n1", vec![], 0, 1);
    assert!(!msg.is_alive());
    assert!(!msg.hop());
    assert_eq!(msg.ttl, 0);
    let mut msg = GossipMessage::with_sequence("n1", vec![], 3, 1);
    assert!(msg.hop());
    assert_eq!(msg.ttl, 2);
}

// ---- router ----

#[test]
fn router_fanout_is_at_least_one() {
    assert_eq!(GossipRouter::new("n1", 0).fanout(), 1);
    assert_eq!(GossipRouter::new("n1", 4).fanout(), 4);
}

#[test]
fn router_broadcast_width_grows_with_seen_messages() {
    let mut router = GossipRouter::new("n1", 3);
    let mut counts = Vec::new();
    for seq in 1..=5u64 {
        let msg = GossipMessage::with_sequence("n1", vec![], 5, seq);
        counts.push(router.broadcast(&msg));
    }
    assert_eq!(counts, vec![1, 1, 2, 3, 3]);
    assert_eq!(router.forwarded_count(), 5);
}

#[test]
fn router_refuses_a_seen_id_whatever_its_content() {
    let mut router = GossipRouter::new("n1", 3);
    let msg = GossipMessage::with_sequence("n1", vec![1], 5, 7);
    assert_eq!(router.broadcast(&msg), 1);
    let other = GossipMessage::with_sequence("n1", vec![9, 9], 1, 7);
    assert_eq!(router.broadcast(&other), 0);
    let mut again = GossipMessage::with_sequence("n1", vec![4], 3, 7);
    assert!(!router.receive(&mut again));
    assert_eq!(again.ttl, 3);
    assert_eq!(router.seen_count(), 1);
    assert_eq!(router.forwarded_count(), 1);
    assert_eq!(router.drain_pending().len(), 1);
}

#[test]
fn router_receive_forwards_with_one_hop_less() {
    let mut router = GossipRouter::new("n1", 3);
    let mut msg = GossipMessage::with_sequence("n2", vec![2], 5, 1);
    assert!(router.receive(&mut msg));
    assert_eq!(msg.ttl, 4);
    assert!(router.is_seen(&msg));
    assert_eq!(router.forwarded_count(), 1);
    let out = router.drain_pending();
    assert_eq!(out.len(), 1);
    assert_eq!(out[0].ttl, 4);
    assert_eq!(out[0].origin, "n2");
    assert_eq!(out[0].payload, vec![2]);
    assert_eq!(out[0].sequence, 1);
}

#[test]
fn router_receive_expired_is_seen_but_not_forwarded() {
    let mut router = GossipRouter::new("n1", 3);
    let mut msg = GossipMessage::with_sequence("n2", vec![2], 0, 1);
    assert!(router.receive(&mut msg));
    assert_eq!(msg.ttl, 0);
    assert_eq!(router.seen_count(), 1);
    assert_eq!(router.forwarded_count(), 0);
    assert!(router.drain_pending().is_empty());
}

#[test]
fn router_drain_is_first_in_first_out_and_empties() {
    let mut router = GossipRouter::new("n1", 2);
    for seq in 1..=3u64 {
        let msg = GossipMessage::with_sequence("n1", vec![], 2, seq);
        router.broadcast(&msg);
    }
    let out = router.drain_pending();
    let seqs: Vec<u64> = out.iter().map(|m| m.sequence).collect();
    assert_eq!(seqs, vec![1, 2, 3]);
    assert!(router.drain_pending().is_empty());
    assert_eq!(router.seen_count(), 3);
}

// ---- peers ----

#[test]
fn peers_add_known_peer_drops_its_topics() {
    let mut ps = PeerState::new();
    ps.add_peer("n1");
    assert!(ps.subscribe("n1", "a"));
    ps.add_peer("n1");
    assert!(ps.topics("n1").is_empty());
    assert_eq!(ps.peer_count(), 1);
}

#[test]
fn peers_subscribe_unknown_peer_only_touches() {
    let mut ps = PeerState::default();
    assert!(!ps.subscribe("ghost", "a"));
    assert!(!ps.has_peer("ghost"));
    assert_eq!(ps.last_seen("ghost"), Some(1));
    assert!(ps.subscribers("a").is_empty());
    assert!(ps.topics("ghost").is_empty());
}

#[test]
fn peers_subscribe_reports_new_topics_only() {
    let mut ps = PeerState::new();
    ps.add_peer("n1");
    assert!(ps.subscribe("n1", "a"));
    assert!(!ps.subscribe("n1", "a"));
    assert!(ps.unsubscribe("n1", "a"));
    assert!(!ps.unsubscribe("n1", "a"));
    assert!(!ps.unsubscribe("n9", "a"));
}

#[test]
fn peers_unsubscribe_undoes_subscribe() {
    let mut ps = PeerState::new();
    ps.add_peer("n1");
    ps.subscribe("n1", "a");
    let before = sorted(ps.topics("n1"));
    ps.subscribe("n1", "b");
    assert!(ps.unsubscribe("n1", "b"));
    assert_eq!(sorted(ps.topics("n1")), before);
}

#[test]
fn peers_subscribers_are_exactly_the_subscribed() {
    let mut ps = PeerState::new();
    ps.add_peer("n1");
    ps.add_peer("n2");
    ps.add_peer("n3");
    ps.subscribe("n1", "a");
    ps.subscribe("n3", "a");
    ps.subscribe("n2", "b");
    assert_eq!(sorted(ps.subscribers("a")), vec!["n1".to_string(), "n3".to_string()]);
    assert_eq!(sorted(ps.subscribers("b")), vec!["n2".to_string()]);
    assert_eq!(
        sorted(ps.peer_ids()),
        vec!["n1".to_string(), "n2".to_string(), "n3".to_string()]
    );
}

#[test]
fn peers_touch_is_newest() {
    let mut ps = PeerState::new();
    ps.add_peer("n1");
    ps.add_peer("n2");
    assert!(ps.last_seen("n2").unwrap() > ps.last_seen("n1").unwrap());
    ps.touch("n1");
    assert!(ps.last_seen("n1").unwrap() > ps.last_seen("n2").unwrap());
    assert_eq!(ps.last_seen("n1"), Some(3));
}

#[test]
fn peers_remove_forgets_everything() {
    let mut ps = PeerState::new();
    ps.add_peer("n1");
    ps.subscribe("n1", "a");
    assert!(ps.remove_peer("n1"));
    assert!(!ps.remove_peer("n1"));
    assert_eq!(ps.last_seen("n1"), None);
    assert!(ps.topics("n1").is_empty());
    assert!(ps.subscribers("a").is_empty());
}

// ---- membership ----

#[test]
fn membership_suspicion_schedule() {
    let mut m = MembershipProtocol::new("n1", 5000);
    m.add_peer("n2");
    for _ in 0..6 {
        assert!(m.tick().is_empty());
        assert_eq!(m.suspicion_level("n2"), 0);
    }
    // The tick that first suspects n2 reports it, as does the one that removes it.
    assert_eq!(m.tick(), vec!["n2".to_string()]);
    assert!(m.is_alive("n2"));
    assert_eq!(m.suspicion_level("n2"), 1);
    assert!(m.tick().is_empty());
    assert_eq!(m.suspicion_level("n2"), 2);
    assert_eq!(m.tick(), vec!["n2".to_string()]);
    assert!(!m.is_alive("n2"));
    assert_eq!(m.suspicion_level("n2"), 0);
    assert_eq!(m.member_count(), 0);
}

#[test]
fn membership_short_timeout_waits_more_intervals() {
    // timeout 5 gives an interval of 1, so five intervals may be missed.
    let mut m = MembershipProtocol::new("n1", 5);
    m.add_peer("n2");
    for _ in 0..8 {
        assert!(m.tick().is_empty());
        assert_eq!(m.suspicion_level("n2"), 0);
    }
    assert_eq!(m.tick(), vec!["n2".to_string()]);
    assert!(m.tick().is_empty());
    assert_eq!(m.tick(), vec!["n2".to_string()]);
    assert!(!m.is_alive("n2"));
}

#[test]
fn membership_heartbeat_clears_suspicion() {
    let mut m = MembershipProtocol::new("n1", 5000);
    m.add_peer("n2");
    for _ in 0..8 {
        m.tick();
    }
    assert_eq!(m.suspicion_level("n2"), 2);
    m.receive_heartbeat("n2");
    assert_eq!(m.suspicion_level("n2"), 0);
    for _ in 0..6 {
        assert!(m.tick().is_empty());
    }
    assert!(m.is_alive("n2"));
}

#[test]
fn membership_heartbeat_from_stranger_is_ignored() {
    let mut m = MembershipProtocol::new("n1", 5000);
    m.receive_heartbeat("n9");
    assert!(!m.is_alive("n9"));
    assert_eq!(m.heartbeat(), ("n1", 0));
    m.add_peer("n2");
    assert_eq!(m.heartbeat(), ("n1", 1));
    m.receive_heartbeat("n2");
    assert_eq!(m.heartbeat(), ("n1", 2));
}

#[test]
fn membership_members_lists_each_live_peer() {
    let mut m = MembershipProtocol::new("n1", 5000);
    m.add_peer("b");
    m.add_peer("a");
    m.add_peer("b");
    assert_eq!(sorted(m.members()), vec!["a".to_string(), "b".to_string()]);
    assert!(m.remove_peer("a"));
    assert!(!m.remove_peer("a"));
    assert_eq!(m.members(), vec!["b".to_string()]);
}

// ---- anti-entropy ----

#[test]
fn anti_entropy_record_twice_keeps_one_entry() {
    let mut ae = AntiEntropy::default();
    ae.record("n1", 1);
    ae.record("n1", 1);
    assert_eq!(ae.known_count(), 1);
    assert_eq!(ae.generation(), 2);
}

#[test]
fn anti_entropy_diff_is_a_set() {
    let mut ae = AntiEntropy::new();
    ae.record("b", 2);
    let digest = vec![
        ("a".to_string(), 1),
        ("b".to_string(), 2),
        ("c".to_string(), 3),
        ("a".to_string(), 1),
    ];
    assert_eq!(ae.diff(&digest), vec![("a".to_string(), 1), ("c".to_string(), 3)]);
    let fresh = AntiEntropy::new();
    let repeated = vec![("n1".to_string(), 2), ("n1".to_string(), 2)];
    assert_eq!(fresh.diff(&repeated), vec![("n1".to_string(), 2)]);
}

#[test]
fn anti_entropy_request_missing_is_a_set() {
    let mut ae = AntiEntropy::new();
    ae.request_missing(vec![("n2".to_string(), 5), ("n2".to_string(), 5)]);
    ae.request_missing(vec![("n2".to_string(), 5)]);
    assert_eq!(ae.missing_count(), 1);
    assert_eq!(ae.drain_missing(), vec![("n2".to_string(), 5)]);
    assert!(ae.drain_missing().is_empty());
}

#[test]
fn anti_entropy_recording_the_diff_reconciles() {
    let mut a = AntiEntropy::new();
    a.record("n1", 1);
    a.record("n3", 7);
    let mut b = AntiEntropy::new();
    b.record("n1", 1);
    b.record("n2", 1);
    b.record("n2", 2);
    let missing = a.diff(&b.digest());
    assert_eq!(missing.len(), 2);
    for (origin, seq) in &missing {
        a.record(origin, *seq);
    }
    assert_eq!(a.known_count(), 4);
    assert!(a.diff(&b.digest()).is_empty());
    assert_eq!(a.generation(), 4);
}

#[test]
fn membership_failure_window_follows_the_timeout() {
    // timeout 8 gives an interval of 2, so four intervals may be missed:
    // a fresh peer stays unreported for 7 ticks and is gone after 10.
    let mut m = MembershipProtocol::new("n1", 8);
    m.add_peer("n2");
    for _ in 0..7 {
        assert!(m.tick().is_empty());
    }
    assert_eq!(m.tick(), vec!["n2".to_string()]);
    assert!(m.tick().is_empty());
    assert_eq!(m.tick(), vec!["n2".to_string()]);
    assert!(!m.is_alive("n2"));
}

#[test]
fn anti_entropy_diff_keeps_digest_order() {
    let mut ae = AntiEntropy::new();
    ae.record("m", 4);
    let digest = vec![
        ("z".to_string(), 9),
        ("m".to_string(), 4),
        ("b".to_string(), 1),
        ("a".to_string(), 7),
    ];
    assert_eq!(
        ae.diff(&digest),
        vec![("z".to_string(), 9), ("b".to_string(), 1), ("a".to_string(), 7)]
    );
    assert!(ae.diff(&ae.digest()).is_empty());
}

#[test]
fn anti_entropy_generation_counts_every_record() {
    let mut ae = AntiEntropy::new();
    ae.record("n1", 1);
    ae.request_missing(vec![("n2".to_string(), 1)]);
    ae.record("n1", 1);
    ae.drain_missing();
    ae.record("n2", 3);
    let _ = ae.diff(&[("n9".to_string(), 9)]);
    let _ = ae.digest();
    assert_eq!(ae.generation(), 3);
    assert_eq!(ae.known_count(), 2);
}

#[test]
fn router_counts_forwarding_calls() {
    let mut router = GossipRouter::new("n1", 2);
    let a = GossipMessage::with_sequence("n1", vec![], 3, 1);
    router.broadcast(&a); // forwards
    router.broadcast(&a); // seen: no forward
    let mut b = GossipMessage::with_sequence("n2", vec![], 0, 1);
    router.receive(&mut b); // new but expired: seen, no forward
    let mut c = GossipMessage::with_sequence("n3", vec![], 2, 1);
    router.receive(&mut c); // forwards
    router.drain_pending();
    assert_eq!(router.forwarded_count(), 2);
    assert_eq!(router.seen_count(), 3);
    assert!(router.is_seen(&GossipMessage::with_sequence("n2", vec![7], 9, 1)));
    assert!(!router.is_seen(&GossipMessage::with_sequence("n2", vec![], 0, 2)));
}
