use crate::collections::first_n;
use crate::gossip::{copies_in_id_order, publish_frame, publish_local, publish_step};
use crate::order::{id_lt, lemma_id_lt_irreflexive};
use crate::heartbeat::{fresh, heartbeat_done};
use crate::mesh::{expanded, sent_after};
use crate::message::MessageView;
use crate::node::{backoff_expiry, in_backoff, without_peer, GossipSubNode, NodeView};
use crate::router::{accepted, handled, malformed};
use crate::types::{GossipError, MessageType};
use vstd::prelude::*;

verus! {

/// After a heartbeat at `now`: mesh peers are connected peers; only joined
/// topics have a mesh; fanout and mesh of a topic are disjoint; every cached
/// message is younger than the cache lifetime; every mesh has at most
/// `mesh_high` peers, and at least `mesh_low` unless no eligible peer is
/// left; and no mesh peer is under an unexpired PRUNE back-off.
pub proof fn heartbeat_invariants(pre: GossipSubNode, post: GossipSubNode, now: u64)
    requires
        pre.wf(),
        post.wf(),
        heartbeat_done(pre, post, now),
    ensures
        forall|t: Seq<char>, p: Seq<char>|
            post@.mesh.contains_key(t) && #[trigger] post@.mesh[t].contains(p) ==> post@.peers.contains_key(p),
        forall|t: Seq<char>| #[trigger] post@.mesh.contains_key(t) ==> post@.topics.contains(t),
        forall|t: Seq<char>| #[trigger] post@.fanout.contains_key(t) ==> post@.fanout[t].disjoint(post@.mesh_of(t)),
        forall|id: Seq<char>| #[trigger]
            post@.cache.contains_key(id) ==> (now as int) < post@.cache[id].1 + post@.config.message_cache_ttl,
        forall|t: Seq<char>| #[trigger] post@.mesh.contains_key(t) ==> post@.mesh[t].len() <= post@.config.mesh_high,
        forall|t: Seq<char>|
            #[trigger] post@.topics.contains(t) ==> post@.mesh_of(t).len() >= post@.config.mesh_low || forall|
                p: Seq<char>,
            | !#[trigger] post@.eligible(t, p, now),
        forall|t: Seq<char>, p: Seq<char>|
            post@.mesh.contains_key(t) && #[trigger] post@.mesh[t].contains(p) ==> !in_backoff(
                post@.prune_backoff,
                t,
                p,
                now,
            ),
{
    assert forall|id: Seq<char>| #[trigger] post@.cache.contains_key(id) implies (now as int) < post@.cache[id].1
        + post@.config.message_cache_ttl by {
        assert(fresh(post@.cache[id].1, now, post@.config.message_cache_ttl));
    }
    assert forall|t: Seq<char>| #[trigger] post@.topics.contains(t) implies post@.mesh_of(t).len()
        >= post@.config.mesh_low || forall|p: Seq<char>| !#[trigger] post@.eligible(t, p, now) by {
        assert(post@.mesh_settled(t, now));
    }
}

/// Handling the same frame twice leaves the state as handling it once, and
/// the second call answers as the first did.
pub proof fn handle_twice_is_handle_once(
    s0: GossipSubNode,
    s1: GossipSubNode,
    s2: GossipSubNode,
    m: MessageView,
    from: Seq<char>,
    now1: u64,
    now2: u64,
    r1: Result<(), GossipError>,
    r2: Result<(), GossipError>,
)
    requires
        s0.wf(),
        handled(s0, s1@, m, from, now1, r1),
        handled(s1, s2@, m, from, now2, r2),
    ensures
        s2@ == s1@,
        r1 is Ok <==> r2 is Ok,
{
    if s0@.peers.contains_key(from) && !malformed(m) && !s0@.seen.contains(m.message_id) {
        let v = NodeView { seen: s0@.seen.insert(m.message_id), ..s0@ };
        assert(accepted(s0, s1@, m, from, now1));
        assert(s1@.seen == v.seen && s1@.peers == v.peers) by {
            match m.message_type {
                MessageType::Publish => {},
                MessageType::IHave => {},
                MessageType::IWant => {},
                MessageType::Graft => {},
                MessageType::Prune => {},
            }
        }
        assert(s1@.seen.contains(m.message_id));
    }
}

/// A PUBLISH accepted on a joined topic is forwarded exactly once to each
/// mesh peer of its topic other than the sender, and to no one else, in
/// ascending order of peer id.
pub proof fn publish_forwarded_to_mesh_but_sender(
    pre: GossipSubNode,
    post: NodeView,
    m: MessageView,
    from: Seq<char>,
    now: u64,
)
    requires
        pre.tables_wf(),
        m.message_type == MessageType::Publish,
        !malformed(m),
        pre@.topics.contains(m.topic.unwrap()),
        accepted(pre, post, m, from, now),
    ensures
        ({
            let sent = sent_after(post, pre@.outbox.len());
            &&& forall|i: int| 0 <= i < sent.len() ==> (#[trigger] sent[i]).1 == m
            &&& forall|i: int, j: int| 0 <= i < j < sent.len() ==> id_lt(sent[i].0, sent[j].0)
            &&& forall|i: int, j: int| 0 <= i < j < sent.len() ==> sent[i].0 != sent[j].0
            &&& forall|q: Seq<char>|
                (exists|i: int| 0 <= i < sent.len() && #[trigger] sent[i].0 == q) <==> (pre@.mesh_of(
                    m.topic.unwrap(),
                ).contains(q) && q != from)
        }),
{
    let t = m.topic.unwrap();
    let v = NodeView { seen: pre@.seen.insert(m.message_id), ..pre@ };
    let sent = sent_after(post, pre@.outbox.len());
    assert(publish_step(v, post, m, from, now));
    let to = sent.map_values(|f: (Seq<char>, MessageView)| f.0);
    assert(copies_in_id_order(sent, pre@.mesh_of(t).remove(from), m));
    assert forall|i: int, j: int| 0 <= i < j < sent.len() implies id_lt(sent[i].0, sent[j].0) by {
        assert(to[i] == sent[i].0 && to[j] == sent[j].0);
    }
    assert forall|i: int, j: int| 0 <= i < j < sent.len() implies sent[i].0 != sent[j].0 by {
        assert(to[i] == sent[i].0 && to[j] == sent[j].0);
        lemma_id_lt_irreflexive(sent[i].0);
    }
    assert forall|q: Seq<char>|
        (exists|i: int| 0 <= i < sent.len() && #[trigger] sent[i].0 == q) <==> (pre@.mesh_of(t).contains(q) && q != from) by {
        if exists|i: int| 0 <= i < sent.len() && #[trigger] sent[i].0 == q {
            let i = choose|i: int| 0 <= i < sent.len() && #[trigger] sent[i].0 == q;
            assert(to[i] == q);
            assert(to.to_set().contains(q));
        }
        if pre@.mesh_of(t).contains(q) && q != from {
            assert(to.to_set().contains(q));
            let i = choose|i: int| 0 <= i < to.len() && to[i] == q;
            assert(sent[i].0 == q);
        }
    }
}

/// Expanding a mesh never grafts a peer that is under an unexpired GRAFT
/// back-off for that topic.
pub proof fn expand_skips_graft_backoff(pre: GossipSubNode, post: NodeView, t: Seq<char>, now: u64, p: Seq<char>)
    requires
        pre.wf(),
        expanded(pre, post, t, now),
        in_backoff(pre@.graft_backoff, t, p, now),
        !pre@.mesh_of(t).contains(p),
    ensures
        !post.mesh_of(t).contains(p),
{
    let sel = pre.graft_selection(t, now);
    if sel.len() > 0 {
        let need = pre.config.mesh_size - pre.mesh_seq(t).len();
        pre.lemma_selection(t, now, false, need);
        if sel.to_set().contains(p) {
            let k = choose|k: int| 0 <= k < sel.len() && sel[k] == p;
            assert(pre.selectable(t, sel[k], now, false));
        }
    }
}

/// Between operations, the gossip history of every topic holds at most
/// three times `gossip_size` ids.
pub proof fn history_bounded(node: GossipSubNode, t: Seq<char>)
    requires
        node.wf(),
    ensures
        node@.history_of(t).len() <= 3 * node.config.gossip_size,
{
    if node@.history.contains_key(t) {
        assert(node@.history[t].len() <= node@.config.history_limit());
    }
}

/// Once a peer is removed it is in no mesh, no fanout set, no back-off
/// table and not among the peers.
pub proof fn removed_peer_is_gone(v: NodeView, p: Seq<char>, t: Seq<char>)
    ensures
        !without_peer(v, p).peers.contains_key(p),
        !without_peer(v, p).mesh_of(t).contains(p),
        without_peer(v, p).fanout.contains_key(t) ==> !without_peer(v, p).fanout[t].contains(p),
        backoff_expiry(without_peer(v, p).graft_backoff, t, p).is_none(),
        backoff_expiry(without_peer(v, p).prune_backoff, t, p).is_none(),
        backoff_expiry(without_peer(v, p).graft_requests, t, p).is_none(),
{
}

/// After a peer is removed, publishing sends it nothing and leaves it out of
/// every fanout set, including one made by that publish.
pub proof fn removed_peer_gets_no_publish(
    s: NodeView,
    pre: GossipSubNode,
    post: NodeView,
    t: Seq<char>,
    content: Seq<u8>,
    id: Seq<char>,
    now: u64,
    p: Seq<char>,
)
    requires
        pre.wf(),
        pre@ == without_peer(s, p),
        pre@.topics.contains(t),
        publish_local(pre, post, t, content, id, now),
    ensures
        forall|i: int|
            pre@.outbox.len() <= i < post.outbox.len() ==> (#[trigger] post.outbox[i]).0 != p,
        forall|u: Seq<char>| #[trigger] post.fanout.contains_key(u) ==> !post.fanout[u].contains(p),
{
    let v = pre@;
    let n0 = v.outbox.len();
    let sent = sent_after(post, n0);
    let m = publish_frame(id, t, content, v.node_id, now);
    let set = if v.mesh_of(t).len() > 0 {
        v.mesh_of(t)
    } else if v.fanout.contains_key(t) {
        v.fanout[t]
    } else {
        first_n(pre.candidates(t, now, false), pre.config.gossip_size as int).to_set()
    };
    assert(copies_in_id_order(sent, set, m));
    assert(!set.contains(p)) by {
        if v.mesh_of(t).len() == 0 && !v.fanout.contains_key(t) {
            let sel = first_n(pre.candidates(t, now, false), pre.config.gossip_size as int);
            pre.lemma_selection(t, now, false, pre.config.gossip_size as int);
            if sel.to_set().contains(p) {
                let k = choose|k: int| 0 <= k < sel.len() && sel[k] == p;
                assert(v.peers.contains_key(sel[k]));
            }
        }
    }
    assert(post.outbox == v.outbox + sent);
    let to = sent.map_values(|f: (Seq<char>, MessageView)| f.0);
    assert forall|i: int| n0 <= i < post.outbox.len() implies (#[trigger] post.outbox[i]).0 != p by {
        assert(post.outbox[i] == sent[i - n0]);
        assert(to[i - n0] == sent[i - n0].0);
        assert(to.to_set().contains(to[i - n0]));
    }
    assert forall|u: Seq<char>| #[trigger] post.fanout.contains_key(u) implies !post.fanout[u].contains(p) by {
        if u != t || v.mesh_of(t).len() > 0 || v.fanout.contains_key(t) {
            assert(v.fanout.contains_key(u));
        }
    }
}

} // verus!
