use gossipsub_chat::{GossipError, GossipMessage, GossipSubNode, MessageType, Outbound};

fn s(x: &str) -> String {
    x.to_string()
}

fn node_with_peers(id: &str, peers: &[&str]) -> GossipSubNode {
    let mut n = GossipSubNode::new(s(id));
    for p in peers {
        n.add_peer(s(p), format!("connection_to_{}", p));
    }
    n
}

fn frame(kind: MessageType, topic: &str, now: u64) -> GossipMessage {
    GossipMessage::stamped(kind, now).with_topic(s(topic))
}

fn sent_to<'a>(out: &'a [Outbound], kind: MessageType) -> Vec<&'a str> {
    out.iter().filter(|o| o.message.message_type == kind).map(|o| o.peer.as_str()).collect()
}

fn graft_backoff_of(n: &GossipSubNode, topic: &str, peer: &str) -> Option<u64> {
    n.graft_backoff.get(&s(topic)).and_then(|m| m.get(&s(peer))).copied()
}

fn history_of(n: &GossipSubNode, topic: &str) -> Vec<String> {
    n.gossip_history.get(&s(topic)).cloned().unwrap_or_default()
}

#[test]
fn publish_fans_out_to_mesh() {
    let mut a = node_with_peers("A", &["peer1", "peer2"]);
    a.subscribe_at(s("T"), 0);
    assert_eq!(a.get_mesh_size("T"), 2);
    a.take_outbox();
    let id = a.publish_at("T", b"hello".to_vec(), 10).unwrap();
    let out = a.take_outbox();
    assert_eq!(out.len(), 2);
    let mut peers: Vec<&str> = out.iter().map(|o| o.peer.as_str()).collect();
    peers.sort();
    assert_eq!(peers, vec!["peer1", "peer2"]);
    for o in &out {
        assert_eq!(o.message.message_type, MessageType::Publish);
        assert_eq!(o.message.message_id, id);
        assert_eq!(o.message.content, Some(b"hello".to_vec()));
    }
    assert!(a.message_cache.contains_key(&id));
    assert!(a.seen_messages.contains(&id));
    assert_eq!(history_of(&a, "T"), vec![id.clone()]);
}

#[test]
fn duplicate_publish_is_delivered_once() {
    let mut a = node_with_peers("A", &["peer1", "peer2"]);
    a.subscribe_at(s("T"), 0);
    a.take_outbox();
    let m = frame(MessageType::Publish, "T", 5).with_content(b"x".to_vec()).with_from(s("peer1"));
    assert_eq!(a.handle_message_at(m.clone(), "peer1", 10), Ok(()));
    let first = a.take_outbox();
    assert_eq!(sent_to(&first, MessageType::Publish), vec!["peer2"]);
    assert_eq!(a.handle_message_at(m.clone(), "peer1", 11), Ok(()));
    assert!(a.take_outbox().is_empty());
    let delivered = a.take_delivered();
    assert_eq!(delivered.len(), 1);
    assert_eq!(delivered[0].message_id, m.message_id);
}

#[test]
fn ihave_iwant_round_trip() {
    let mut a = node_with_peers("A", &["B"]);
    a.subscribe_at(s("T"), 0);
    // B leaves A's mesh and may not be grafted again for a while.
    assert_eq!(a.handle_message_at(frame(MessageType::Prune, "T", 1), "B", 1), Ok(()));
    assert!(!a.is_in_mesh("T", "B"));
    let ids: Vec<String> =
        (0..3).map(|i| a.publish_at("T", vec![i as u8], 10 + i as u64).unwrap()).collect();
    a.take_outbox();
    a.gossip_heartbeat_at(1000);
    let out = a.take_outbox();
    let ihaves: Vec<&Outbound> =
        out.iter().filter(|o| o.message.message_type == MessageType::IHave).collect();
    assert_eq!(ihaves.len(), 1);
    assert_eq!(ihaves[0].peer, "B");
    assert_eq!(ihaves[0].message.message_ids, ids);

    let mut b = node_with_peers("B", &["A"]);
    b.subscribe_at(s("T"), 0);
    b.take_outbox();
    assert_eq!(b.handle_message_at(ihaves[0].message.clone(), "A", 1001), Ok(()));
    let out_b = b.take_outbox();
    assert_eq!(out_b.len(), 1);
    assert_eq!(out_b[0].peer, "A");
    assert_eq!(out_b[0].message.message_type, MessageType::IWant);
    assert_eq!(out_b[0].message.message_ids, ids);

    assert_eq!(a.handle_message_at(out_b[0].message.clone(), "B", 1002), Ok(()));
    let replies = a.take_outbox();
    assert_eq!(replies.len(), 3);
    for (r, id) in replies.iter().zip(ids.iter()) {
        assert_eq!(r.peer, "B");
        assert_eq!(r.message.message_type, MessageType::Publish);
        assert_eq!(&r.message.message_id, id);
        assert_eq!(b.handle_message_at(r.message.clone(), "A", 1003), Ok(()));
    }
    for id in &ids {
        assert!(b.message_cache.contains_key(id));
    }
}

#[test]
fn graft_accepted_below_mesh_high() {
    let mut a = node_with_peers("A", &["peer1", "peer2"]);
    a.subscribe_at(s("T"), 0);
    a.add_peer(s("B"), s("connection_to_B"));
    assert_eq!(a.get_mesh_size("T"), 2);
    a.take_outbox();
    assert_eq!(a.handle_message_at(frame(MessageType::Graft, "T", 5), "B", 5), Ok(()));
    assert!(a.is_in_mesh("T", "B"));
    assert_eq!(a.get_mesh_size("T"), 3);
    assert!(a.take_outbox().is_empty());
}

#[test]
fn graft_rejected_when_mesh_full() {
    let mut a = GossipSubNode::new(s("A"));
    a.subscribe_at(s("T"), 0);
    for i in 0..12 {
        let p = format!("peer{}", i);
        a.add_peer(p.clone(), s("c"));
        assert_eq!(a.handle_message_at(frame(MessageType::Graft, "T", 1), &p, 1), Ok(()));
    }
    assert_eq!(a.get_mesh_size("T"), 12);
    a.take_outbox();
    a.add_peer(s("B"), s("c"));
    assert_eq!(a.handle_message_at(frame(MessageType::Graft, "T", 2), "B", 2), Ok(()));
    let out = a.take_outbox();
    assert_eq!(sent_to(&out, MessageType::Prune), vec!["B"]);
    assert_eq!(out[0].message.topic, Some(s("T")));
    assert!(!a.is_in_mesh("T", "B"));
    assert_eq!(a.get_mesh_size("T"), 12);
}

#[test]
fn prune_sets_graft_backoff() {
    let mut a = node_with_peers("A", &["B"]);
    a.subscribe_at(s("T"), 0);
    assert!(a.is_in_mesh("T", "B"));
    assert_eq!(a.handle_message_at(frame(MessageType::Prune, "T", 1000), "B", 1000), Ok(()));
    assert!(!a.is_in_mesh("T", "B"));
    assert_eq!(graft_backoff_of(&a, "T", "B"), Some(1000 + 60000));
    a.take_outbox();
    a.expand_mesh_at(&s("T"), 2000);
    assert!(sent_to(&a.take_outbox(), MessageType::Graft).is_empty());
    assert!(!a.is_in_mesh("T", "B"));
    // After the window the peer is eligible again.
    a.expand_mesh_at(&s("T"), 61001);
    assert_eq!(sent_to(&a.take_outbox(), MessageType::Graft), vec!["B"]);
    assert!(a.is_in_mesh("T", "B"));
}

#[test]
fn forwards_in_ascending_peer_id_order() {
    let mut a = GossipSubNode::new(s("A"));
    a.subscribe_at(s("T"), 0);
    for p in ["zeta", "peer2", "alpha", "peer1"] {
        a.add_peer(s(p), s("c"));
        assert_eq!(a.handle_message_at(frame(MessageType::Graft, "T", 1), p, 1), Ok(()));
    }
    a.take_outbox();
    a.publish_at("T", b"hello".to_vec(), 2).unwrap();
    let out = a.take_outbox();
    let order: Vec<&str> = out.iter().map(|o| o.peer.as_str()).collect();
    assert_eq!(order, vec!["alpha", "peer1", "peer2", "zeta"]);
    // A relayed PUBLISH skips its sender and keeps the same order.
    let m = frame(MessageType::Publish, "T", 3);
    assert_eq!(a.handle_message_at(m, "peer1", 3), Ok(()));
    let out = a.take_outbox();
    let order: Vec<&str> = out.iter().map(|o| o.peer.as_str()).collect();
    assert_eq!(order, vec!["alpha", "peer2", "zeta"]);
}

#[test]
fn ids_compare_by_code_point() {
    let mut a = GossipSubNode::new(s("A"));
    a.subscribe_at(s("T"), 0);
    for p in ["b", "ab", "a", "é", "Z"] {
        a.add_peer(s(p), s("c"));
        assert_eq!(a.handle_message_at(frame(MessageType::Graft, "T", 1), p, 1), Ok(()));
    }
    a.take_outbox();
    a.publish_at("T", vec![1], 2).unwrap();
    let order: Vec<String> = a.take_outbox().into_iter().map(|o| o.peer).collect();
    assert_eq!(order, vec![s("Z"), s("a"), s("ab"), s("b"), s("é")]);
}
