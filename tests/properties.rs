use gossipsub_chat::{GossipError, GossipMessage, GossipSubNode, MessageType, Outbound};

fn s(x: &str) -> String {
    x.to_string()
}

fn node_with_peers(id: &str, peers: &[&str]) -> GossipSubNode {
    let mut n = GossipSubNode::new(s(id));
    for p in peers {
        n.add_peer(s(p), format!("connection_to_{}", p));
    }
    n
}

fn frame(kind: MessageType, topic: &str, now: u64) -> GossipMessage {
    GossipMessage::stamped(kind, now).with_topic(s(topic))
}

fn peers_of(out: &[Outbound], kind: MessageType) -> Vec<String> {
    let mut v: Vec<String> =
        out.iter().filter(|o| o.message.message_type == kind).map(|o| o.peer.clone()).collect();
    v.sort();
    v
}

fn names(prefix: &str, n: usize) -> Vec<String> {
    (0..n).map(|i| format!("{}{}", prefix, i)).collect()
}

#[test]
fn heartbeat_restores_mesh_bounds() {
    let peers = names("peer", 8);
    let refs: Vec<&str> = peers.iter().map(|p| p.as_str()).collect();
    let mut a = node_with_peers("A", &refs);
    a.subscribe_at(s("T"), 0);
    assert_eq!(a.get_mesh_size("T"), 6);
    a.config.mesh_size = 2;
    a.config.mesh_low = 1;
    a.config.mesh_high = 3;
    a.take_outbox();
    a.gossip_heartbeat_at(5000);
    assert_eq!(a.get_mesh_size("T"), 2);
    let out = a.take_outbox();
    assert_eq!(peers_of(&out, MessageType::Prune).len(), 4);
    for o in out.iter().filter(|o| o.message.message_type == MessageType::Prune) {
        assert!(!a.is_in_mesh("T", &o.peer));
        assert!(a.is_peer_in_backoff(&s("T"), &o.peer, false, 5001));
        let until = a.prune_backoff.get(&s("T")).and_then(|m| m.get(&o.peer)).copied();
        assert_eq!(until, Some(5000 + 60000));
    }
}

#[test]
fn heartbeat_grows_small_mesh() {
    let mut a = GossipSubNode::new(s("A"));
    a.subscribe_at(s("T"), 0);
    assert_eq!(a.get_mesh_size("T"), 0);
    for p in names("peer", 10) {
        a.add_peer(p, s("c"));
    }
    a.gossip_heartbeat_at(1000);
    assert_eq!(a.get_mesh_size("T"), 6);
    assert_eq!(peers_of(&a.take_outbox(), MessageType::Graft).len(), 6);
}

#[test]
fn heartbeat_drops_stale_cache_and_requests() {
    let mut a = node_with_peers("A", &["B"]);
    a.subscribe_at(s("T"), 0);
    let old_id = a.publish_at("T", vec![1], 100).unwrap();
    let new_id = a.publish_at("T", vec![2], 20000).unwrap();
    a.gossip_heartbeat_at(30100);
    assert!(!a.message_cache.contains_key(&old_id));
    assert!(a.message_cache.contains_key(&new_id));
}

#[test]
fn handling_twice_equals_once() {
    let mut a = node_with_peers("A", &["peer1", "peer2", "B"]);
    a.subscribe_at(s("T"), 0);
    a.take_outbox();
    let graft = frame(MessageType::Prune, "T", 3);
    assert_eq!(a.handle_message_at(graft.clone(), "B", 3), Ok(()));
    let size = a.get_mesh_size("T");
    let backoff = a.graft_backoff.get(&s("T")).and_then(|m| m.get(&s("B"))).copied();
    assert_eq!(a.handle_message_at(graft, "B", 4), Ok(()));
    assert_eq!(a.get_mesh_size("T"), size);
    assert_eq!(a.graft_backoff.get(&s("T")).and_then(|m| m.get(&s("B"))).copied(), backoff);
    assert!(a.take_outbox().is_empty());
}

#[test]
fn publish_forwarded_to_mesh_except_sender() {
    let mut a = node_with_peers("A", &["peer1", "peer2", "peer3"]);
    a.subscribe_at(s("T"), 0);
    a.take_outbox();
    let m = frame(MessageType::Publish, "T", 7).with_content(vec![9]);
    assert_eq!(a.handle_message_at(m.clone(), "peer2", 7), Ok(()));
    let out = a.take_outbox();
    assert_eq!(peers_of(&out, MessageType::Publish), vec![s("peer1"), s("peer3")]);
    assert!(out.iter().all(|o| o.message.message_id == m.message_id));
}

#[test]
fn expand_never_grafts_backed_off_peer() {
    let mut a = node_with_peers("A", &["B", "C"]);
    a.subscribe_at(s("T"), 0);
    assert_eq!(a.handle_message_at(frame(MessageType::Prune, "T", 10), "B", 10), Ok(()));
    assert_eq!(a.handle_message_at(frame(MessageType::Prune, "T", 11), "C", 11), Ok(()));
    a.take_outbox();
    a.expand_mesh_at(&s("T"), 500);
    a.gossip_heartbeat_at(600);
    assert_eq!(a.get_mesh_size("T"), 0);
    assert!(peers_of(&a.take_outbox(), MessageType::Graft).is_empty());
}

#[test]
fn history_keeps_last_nine_ids() {
    let mut a = node_with_peers("A", &["B"]);
    a.subscribe_at(s("T"), 0);
    let ids: Vec<String> = (0..20).map(|i| a.publish_at("T", vec![i as u8], i as u64).unwrap()).collect();
    let h = a.gossip_history.get(&s("T")).cloned().unwrap();
    assert_eq!(h.len(), 9);
    assert_eq!(h, ids[11..].to_vec());
}

#[test]
fn removed_peer_leaves_every_table() {
    let mut a = node_with_peers("A", &["B", "C"]);
    a.subscribe_at(s("T"), 0);
    a.subscribe_at(s("U"), 0);
    assert_eq!(a.handle_message_at(frame(MessageType::Prune, "U", 5), "B", 5), Ok(()));
    a.remove_peer("B");
    assert!(!a.peers.contains_key(&s("B")));
    assert!(!a.is_in_mesh("T", "B"));
    assert!(!a.is_in_mesh("U", "B"));
    assert!(a.is_in_mesh("T", "C"));
    assert_eq!(a.graft_backoff.get(&s("U")).and_then(|m| m.get(&s("B"))), None);
    // A frame from the removed peer is now refused.
    let r = a.handle_message_at(frame(MessageType::Graft, "T", 6), "B", 6);
    assert_eq!(r, Err(GossipError::UnknownPeer(s("B"))));
    // Removing an unknown peer changes nothing.
    a.remove_peer("Z");
    assert_eq!(a.get_mesh_size("T"), 1);
}

#[test]
fn publish_on_unjoined_topic_fails() {
    let mut a = node_with_peers("A", &["B"]);
    assert_eq!(a.publish_at("T", vec![1], 1), Err(GossipError::NotSubscribed(s("T"))));
    assert!(a.take_outbox().is_empty());
}

#[test]
fn frame_without_topic_is_invalid() {
    let mut a = node_with_peers("A", &["B"]);
    a.subscribe_at(s("T"), 0);
    let m = GossipMessage::stamped(MessageType::Graft, 1);
    assert!(matches!(a.handle_message_at(m.clone(), "B", 1), Err(GossipError::InvalidFrame(_))));
    assert!(!a.seen_messages.contains(&m.message_id));
    // An IWANT needs no topic.
    let w = GossipMessage::stamped(MessageType::IWant, 1).with_message_ids(vec![s("nope")]);
    assert_eq!(a.handle_message_at(w, "B", 1), Ok(()));
}

#[test]
fn message_ids_are_fresh_uuids() {
    let m1 = GossipMessage::new(MessageType::Publish);
    let m2 = GossipMessage::new(MessageType::Publish);
    assert_eq!(m1.message_id.len(), 36);
    assert_ne!(m1.message_id, m2.message_id);
    assert_eq!(m1.message_id.matches('-').count(), 4);
    assert!(m1.timestamp > 1_600_000_000_000);
    assert_eq!(m1.topic, None);
    assert!(m1.message_ids.is_empty());
}

#[test]
fn publish_with_clock_returns_uuid() {
    let mut a = node_with_peers("A", &["B"]);
    a.subscribe(s("T"));
    let id = a.publish("T", b"hi".to_vec()).unwrap();
    assert_eq!(id.len(), 36);
    let out = a.take_outbox();
    let p = out.iter().find(|o| o.message.message_type == MessageType::Publish).unwrap();
    assert!(p.message.timestamp > 1_600_000_000_000);
}

#[test]
fn unsubscribe_prunes_mesh_and_forgets_topic() {
    let mut a = node_with_peers("A", &["B", "C"]);
    a.subscribe_at(s("T"), 0);
    a.publish_at("T", vec![1], 1).unwrap();
    a.take_outbox();
    a.unsubscribe_at("T", 2);
    assert_eq!(peers_of(&a.take_outbox(), MessageType::Prune), vec![s("B"), s("C")]);
    assert_eq!(a.get_mesh_size("T"), 0);
    assert!(!a.topics.contains(&s("T")));
    assert!(a.gossip_history.get(&s("T")).is_none());
    assert_eq!(a.publish_at("T", vec![1], 3), Err(GossipError::NotSubscribed(s("T"))));
    a.unsubscribe_at("T", 4);
    assert!(a.take_outbox().is_empty());
}

#[test]
fn subscribe_twice_is_idempotent() {
    let mut a = node_with_peers("A", &["B"]);
    a.subscribe_at(s("T"), 0);
    let first = a.take_outbox();
    assert_eq!(peers_of(&first, MessageType::Graft), vec![s("B")]);
    a.subscribe_at(s("T"), 1);
    assert!(a.take_outbox().is_empty());
    assert_eq!(a.get_mesh_size("T"), 1);
}

#[test]
fn empty_mesh_publishes_through_fanout() {
    let mut a = GossipSubNode::new(s("A"));
    a.subscribe_at(s("T"), 0);
    a.add_peer(s("B"), s("c"));
    let id = a.publish_at("T", vec![1], 10).unwrap();
    let out = a.take_outbox();
    assert_eq!(peers_of(&out, MessageType::Publish), vec![s("B")]);
    assert!(a.fanout.contains_key(&s("T")));
    assert!(a.message_cache.contains_key(&id));
    // The heartbeat grafts B; the fanout is no longer needed.
    a.gossip_heartbeat_at(1000);
    assert!(a.is_in_mesh("T", "B"));
    assert!(!a.fanout.contains_key(&s("T")));
}

#[test]
fn repeated_graft_within_window_is_flooding() {
    let mut a = node_with_peers("A", &["peer1"]);
    a.subscribe_at(s("T"), 0);
    a.add_peer(s("B"), s("c"));
    a.take_outbox();
    assert_eq!(a.handle_message_at(frame(MessageType::Graft, "T", 100), "B", 100), Ok(()));
    assert!(a.take_outbox().is_empty());
    assert_eq!(a.handle_message_at(frame(MessageType::Graft, "T", 200), "B", 200), Ok(()));
    assert_eq!(peers_of(&a.take_outbox(), MessageType::Prune), vec![s("B")]);
    assert!(a.is_peer_in_backoff(&s("T"), &s("B"), true, 201));
    // Past the window a GRAFT is no flood.
    assert_eq!(a.handle_message_at(frame(MessageType::Graft, "T", 20000), "B", 20000), Ok(()));
    assert!(a.take_outbox().is_empty());
}

#[test]
fn graft_on_unjoined_topic_is_refused() {
    let mut a = node_with_peers("A", &["B"]);
    assert_eq!(a.handle_message_at(frame(MessageType::Graft, "X", 1), "B", 1), Ok(()));
    let out = a.take_outbox();
    assert_eq!(peers_of(&out, MessageType::Prune), vec![s("B")]);
    assert_eq!(out[0].message.topic, Some(s("X")));
    assert_eq!(a.get_mesh_size("X"), 0);
}

#[test]
fn prune_backoff_blocks_regraft() {
    let peers = names("peer", 8);
    let refs: Vec<&str> = peers.iter().map(|p| p.as_str()).collect();
    let mut a = node_with_peers("A", &refs);
    a.subscribe_at(s("T"), 0);
    a.config.mesh_size = 2;
    a.config.mesh_low = 1;
    a.config.mesh_high = 3;
    a.contract_mesh_at(&s("T"), 100);
    let pruned = peers_of(&a.take_outbox(), MessageType::Prune);
    assert_eq!(pruned.len(), 4);
    let victim = pruned[0].clone();
    assert_eq!(a.handle_message_at(frame(MessageType::Graft, "T", 200), &victim, 200), Ok(()));
    assert_eq!(peers_of(&a.take_outbox(), MessageType::Prune), vec![victim.clone()]);
    assert!(!a.is_in_mesh("T", &victim));
}

#[test]
fn ihave_asks_only_for_unknown_ids() {
    let mut b = node_with_peers("B", &["A"]);
    b.subscribe_at(s("T"), 0);
    let known = frame(MessageType::Publish, "T", 1);
    assert_eq!(b.handle_message_at(known.clone(), "A", 1), Ok(()));
    b.take_outbox();
    let ihave = frame(MessageType::IHave, "T", 2).with_message_ids(vec![known.message_id.clone(), s("fresh")]);
    assert_eq!(b.handle_message_at(ihave, "A", 2), Ok(()));
    let out = b.take_outbox();
    assert_eq!(out.len(), 1);
    assert_eq!(out[0].message.message_type, MessageType::IWant);
    assert_eq!(out[0].message.message_ids, vec![s("fresh")]);
    assert_eq!(b.iwant_requests.get(&s("fresh")).copied(), Some(2));
    // An IHAVE on a topic not joined is ignored.
    let other = frame(MessageType::IHave, "U", 3).with_message_ids(vec![s("x")]);
    assert_eq!(b.handle_message_at(other, "A", 3), Ok(()));
    assert!(b.take_outbox().is_empty());
    // Requests expire with the cache lifetime.
    b.cleanup_expired_iwant_requests_at(30002);
    assert!(b.iwant_requests.get(&s("fresh")).is_none());
}

#[test]
fn publish_on_unjoined_topic_is_cached_not_delivered() {
    let mut a = node_with_peers("A", &["B", "C"]);
    a.subscribe_at(s("T"), 0);
    a.take_outbox();
    let m = frame(MessageType::Publish, "U", 1);
    assert_eq!(a.handle_message_at(m.clone(), "B", 1), Ok(()));
    assert!(a.message_cache.contains_key(&m.message_id));
    assert!(a.take_delivered().is_empty());
    assert!(a.take_outbox().is_empty());
}

#[test]
fn cleanups_drop_expired_entries() {
    let mut a = node_with_peers("A", &["B"]);
    a.subscribe_at(s("T"), 0);
    assert_eq!(a.handle_message_at(frame(MessageType::Prune, "T", 0), "B", 0), Ok(()));
    a.cleanup_backoffs_at(59999);
    assert!(a.graft_backoff.get(&s("T")).is_some());
    a.cleanup_backoffs_at(60000);
    assert!(a.graft_backoff.get(&s("T")).is_none());
    for i in 0..1001u64 {
        let m = frame(MessageType::Publish, "U", i);
        assert_eq!(a.handle_message_at(m, "B", i), Ok(()));
    }
    // The PRUNE frame was seen too.
    assert_eq!(a.seen_messages.len(), 1002);
    a.cleanup_message_cache_at(2000);
    assert_eq!(a.seen_messages.len(), 0);
    assert_eq!(a.message_cache.len(), 1001);
    a.cleanup_message_cache_at(32000);
    assert_eq!(a.message_cache.len(), 0);
}

#[test]
fn publish_after_removal_skips_removed_peer() {
    let mut a = node_with_peers("A", &["B", "C"]);
    a.subscribe_at(s("T"), 0);
    a.remove_peer("B");
    a.take_outbox();
    a.publish_at("T", vec![1], 5).unwrap();
    assert_eq!(peers_of(&a.take_outbox(), MessageType::Publish), vec![s("C")]);
}

#[test]
fn maintenance_within_bounds_sends_nothing() {
    let peers = names("peer", 8);
    let refs: Vec<&str> = peers.iter().map(|p| p.as_str()).collect();
    let mut a = node_with_peers("A", &refs);
    a.subscribe_at(s("T"), 0);
    a.take_outbox();
    a.maintain_mesh_at(&s("T"), 100);
    assert!(a.take_outbox().is_empty());
    assert_eq!(a.get_mesh_size("T"), 6);
}

#[test]
fn heartbeat_drops_expired_prune_backoffs() {
    let peers = names("peer", 8);
    let refs: Vec<&str> = peers.iter().map(|p| p.as_str()).collect();
    let mut a = node_with_peers("A", &refs);
    a.subscribe_at(s("T"), 0);
    a.config.mesh_size = 2;
    a.config.mesh_low = 1;
    a.config.mesh_high = 3;
    a.contract_mesh_at(&s("T"), 0);
    assert!(a.prune_backoff.get(&s("T")).is_some());
    a.gossip_heartbeat_at(60000);
    assert!(a.prune_backoff.get(&s("T")).is_none());
}
