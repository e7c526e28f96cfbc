use crate::collections::{first_n, lemma_map_values_dom, str_views, StrMap};
use crate::gossip::{ihave_emission, recent_ids};
use crate::mesh::{contracted, expanded, grafted, pruned, sent_after};
use crate::node::{frames_listing, is_frame};
use crate::types::MessageType;
use crate::node::{
    backoff_expiry, in_backoff, lemma_consistent_frame, table_view, table_wf, CacheEntry, FanoutEntry, GossipSubNode,
    NodeView,
};
use vstd::prelude::*;

verus! {

/// Above this many ids the dedup set is cleared at a heartbeat.
pub const SEEN_CAPACITY: usize = 1000;

/// A stamp `at` is still fresh at `now` for a lifetime of `ttl`.
pub open spec fn fresh(at: u64, now: u64, ttl: u64) -> bool {
    (now as int) < at + ttl
}

/// The entries of `m` whose stamp is fresh at `now`.
pub open spec fn fresh_only(m: Map<Seq<char>, u64>, now: u64, ttl: u64) -> Map<Seq<char>, u64> {
    Map::new(|k: Seq<char>| m.contains_key(k) && fresh(m[k], now, ttl), |k: Seq<char>| m[k])
}

/// A two-level table with the entries stale at `now` dropped, and the
/// topics left without entries dropped too.
pub open spec fn table_gc(
    m: Map<Seq<char>, Map<Seq<char>, u64>>,
    now: u64,
    ttl: u64,
) -> Map<Seq<char>, Map<Seq<char>, u64>> {
    Map::new(
        |t: Seq<char>| m.contains_key(t) && exists|p: Seq<char>| #[trigger] fresh_only(m[t], now, ttl).contains_key(p),
        |t: Seq<char>| fresh_only(m[t], now, ttl),
    )
}

/// What a heartbeat at `now` does, from `pre` to `post`, as far as it is
/// determined: the tables settle, the GC steps drop exactly the stale
/// entries (every PRUNE back-off left expires after `now`, and no topic is
/// left with an empty back-off table), a fanout stays exactly when it was
/// used within its lifetime and its topic's mesh is empty, and frames are
/// only appended.
pub open spec fn beat(pre: NodeView, post: NodeView, now: u64) -> bool {
    &&& post.settled(now)
    &&& post.node_id == pre.node_id
    &&& post.peers == pre.peers
    &&& post.topics == pre.topics
    &&& post.history == pre.history
    &&& post.delivered == pre.delivered
    &&& post.config == pre.config
    &&& post.iwant == fresh_only(pre.iwant, now, pre.config.message_cache_ttl)
    &&& post.cache == Map::new(
        |k: Seq<char>| pre.cache.contains_key(k) && fresh(pre.cache[k].1, now, pre.config.message_cache_ttl),
        |k: Seq<char>| pre.cache[k],
    )
    &&& post.seen == (if pre.seen.len() > SEEN_CAPACITY { Set::empty() } else { pre.seen })
    &&& post.graft_backoff == table_gc(pre.graft_backoff, now, 0)
    &&& post.graft_requests == table_gc(pre.graft_requests, now, pre.config.graft_flood_threshold)
    &&& forall|t: Seq<char>, p: Seq<char>|
        #[trigger] backoff_expiry(post.prune_backoff, t, p) is Some ==> now < backoff_expiry(
            post.prune_backoff,
            t,
            p,
        )->Some_0
    &&& forall|t: Seq<char>| #[trigger]
        post.prune_backoff.contains_key(t) ==> exists|p: Seq<char>| #[trigger] post.prune_backoff[t].contains_key(p)
    &&& forall|t: Seq<char>| #[trigger]
        post.fanout.contains_key(t) <==> (pre.fanout.contains_key(t) && fresh(
            pre.fanout_used[t],
            now,
            pre.config.fanout_ttl,
        ) && post.mesh_of(t).len() == 0)
    &&& forall|t: Seq<char>| #[trigger]
        post.fanout.contains_key(t) ==> post.fanout[t] == pre.fanout[t] && post.fanout_used.contains_key(t)
            && post.fanout_used[t] == pre.fanout_used[t]
    &&& post.outbox.len() >= pre.outbox.len()
    &&& post.outbox.take(pre.outbox.len() as int) == pre.outbox
}

/// How one heartbeat at `now` moved the mesh of `t` from `pre` to `post`: a
/// mesh below `mesh_low` gained the peers of `graft_selection`, one within
/// bounds stayed as it was, and one above `mesh_high` lost the peers of
/// `prune_selection`, leaving `mesh_size` peers.
pub open spec fn mesh_outcome(pre: GossipSubNode, post: NodeView, t: Seq<char>, now: u64) -> bool {
    let n = pre@.mesh_of(t).len();
    &&& (n < pre.config.mesh_low ==> post.mesh_of(t) == pre@.mesh_of(t) + pre.graft_selection(t, now).to_set())
    &&& (pre.config.mesh_low <= n <= pre.config.mesh_high ==> post.mesh_of(t) == pre@.mesh_of(t))
    &&& (n > pre.config.mesh_high ==> post.mesh_of(t) == pre@.mesh_of(t) - pre.prune_selection(t).to_set()
        && post.mesh_of(t).len() == pre.config.mesh_size)
}

/// Among the frames of `post` from position `n0` on there is an IHAVE on
/// `t` to `p`, made at `now`, listing `r`.
pub open spec fn has_ihave(post: NodeView, n0: nat, t: Seq<char>, p: Seq<char>, now: u64, r: Seq<Seq<char>>) -> bool {
    exists|i: int|
        n0 <= i < post.outbox.len() && (#[trigger] post.outbox[i]).0 == p && is_frame(
            post.outbox[i].1,
            MessageType::IHave,
            t,
            post.node_id,
            p,
            now,
            r,
        )
}

/// Among the frames of `post` from position `n0` on, each of the first
/// `gossip_size` peers outside the mesh of `t` has an IHAVE on `t` made at
/// `now` that lists the last `gossip_size` ids of the history of `t`, where
/// that history is not empty.
pub open spec fn ihave_sent(n0: nat, post: GossipSubNode, t: Seq<char>, now: u64) -> bool {
    let g = post.config.gossip_size as int;
    let r = recent_ids(post@.history_of(t), g);
    let targets = first_n(post.candidates(t, now, true), g);
    r.len() > 0 ==> forall|k: int|
        0 <= k < targets.len() ==> #[trigger] has_ihave(post@, n0, t, targets[k], now, r)
}

/// What a heartbeat at `now` does, from `pre` to `post`: `beat` holds, each
/// joined topic's mesh moved as `mesh_outcome` states, and each joined
/// topic had its IHAVE emission.
pub open spec fn heartbeat_done(pre: GossipSubNode, post: GossipSubNode, now: u64) -> bool {
    &&& beat(pre@, post@, now)
    &&& forall|t: Seq<char>| #[trigger] pre@.topics.contains(t) ==> mesh_outcome(pre, post@, t, now)
    &&& forall|t: Seq<char>| #[trigger] pre@.topics.contains(t) ==> ihave_sent(pre@.outbox.len(), post, t, now)
}

/// What cleaning the cache at `now` does, from `pre` to `post`.
pub open spec fn cache_cleaned(pre: NodeView, post: NodeView, now: u64) -> bool {
    post == NodeView {
        cache: Map::new(
            |k: Seq<char>| pre.cache.contains_key(k) && fresh(pre.cache[k].1, now, pre.config.message_cache_ttl),
            |k: Seq<char>| pre.cache[k],
        ),
        seen: if pre.seen.len() > SEEN_CAPACITY { Set::empty() } else { pre.seen },
        ..pre
    }
}

/// What cleaning the back-offs at `now` does, from `pre` to `post`.
pub open spec fn backoffs_cleaned(pre: NodeView, post: NodeView, now: u64) -> bool {
    post == NodeView {
        graft_backoff: table_gc(pre.graft_backoff, now, 0),
        prune_backoff: table_gc(pre.prune_backoff, now, 0),
        graft_requests: table_gc(pre.graft_requests, now, pre.config.graft_flood_threshold),
        ..pre
    }
}

/// Dropping stale entries leaves the unexpired back-offs as they were.
pub proof fn lemma_gc_in_backoff(m: Map<Seq<char>, Map<Seq<char>, u64>>, t: Seq<char>, p: Seq<char>, now: u64)
    ensures
        in_backoff(table_gc(m, now, 0), t, p, now) == in_backoff(m, t, p, now),
{
    if m.contains_key(t) && m[t].contains_key(p) && now < m[t][p] {
        assert(fresh_only(m[t], now, 0).contains_key(p));
    }
}

/// IHAVEs already queued stay queued while frames are only appended and the
/// peers, the mesh of `t`, the history and the configuration stay.
pub proof fn lemma_ihave_sent_kept(n0: nat, a: GossipSubNode, b: GossipSubNode, t: Seq<char>, now: u64)
    requires
        ihave_sent(n0, a, t, now),
        a.peers == b.peers,
        a@.mesh_of(t) == b@.mesh_of(t),
        a@.history == b@.history,
        a.config == b.config,
        a@.node_id == b@.node_id,
        b@.outbox.len() >= a@.outbox.len(),
        b@.outbox.take(a@.outbox.len() as int) == a@.outbox,
    ensures
        ihave_sent(n0, b, t, now),
{
    let g = b.config.gossip_size as int;
    let r = recent_ids(b@.history_of(t), g);
    let f1 = |p: Seq<char>| b.selectable(t, p, now, true);
    let f2 = |p: Seq<char>| a.selectable(t, p, now, true);
    assert(f1 =~= f2);
    assert(b.candidates(t, now, true) == a.candidates(t, now, true));
    let targets = first_n(b.candidates(t, now, true), g);
    if r.len() > 0 {
        assert forall|j: int| 0 <= j < targets.len() implies #[trigger] has_ihave(b@, n0, t, targets[j], now, r) by {
            assert(has_ihave(a@, n0, t, targets[j], now, r));
            let x = choose|x: int|
                n0 <= x < a@.outbox.len() && (#[trigger] a@.outbox[x]).0 == targets[j] && is_frame(
                    a@.outbox[x].1, MessageType::IHave, t, a@.node_id, targets[j], now, r);
            assert(b@.outbox.take(a@.outbox.len() as int)[x] == b@.outbox[x]);
            assert(b@.outbox[x] == a@.outbox[x]);
        }
    }
}

/// Which peers maintenance grafts into or prunes from the mesh of `u` depends
/// only on the peer table, the topics, the configuration, that mesh, and
/// the back-offs of `u`.
pub proof fn lemma_selection_frame(a: GossipSubNode, b: GossipSubNode, u: Seq<char>, now: u64)
    requires
        a.peers == b.peers,
        a@.peers == b@.peers,
        a@.topics == b@.topics,
        a.config == b.config,
        a.mesh_seq(u) == b.mesh_seq(u),
        a@.mesh_of(u) == b@.mesh_of(u),
        a@.graft_backoff == b@.graft_backoff,
        forall|p: Seq<char>| #[trigger] backoff_expiry(a@.prune_backoff, u, p) == backoff_expiry(b@.prune_backoff, u, p),
    ensures
        a.graft_selection(u, now) == b.graft_selection(u, now),
        a.prune_selection(u) == b.prune_selection(u),
{
    let f1 = |p: Seq<char>| a.selectable(u, p, now, false);
    let f2 = |p: Seq<char>| b.selectable(u, p, now, false);
    assert forall|p: Seq<char>| #[trigger] f1(p) == f2(p) by {
        assert(backoff_expiry(a@.prune_backoff, u, p) == backoff_expiry(b@.prune_backoff, u, p));
    }
    assert(f1 =~= f2);
    assert(a.candidates(u, now, false) == b.candidates(u, now, false));
}

/// `x < at + ttl` computed in `u64` without overflow.
fn is_fresh(at: u64, now: u64, ttl: u64) -> (r: bool)
    ensures
        r == fresh(at, now, ttl),
{
    if now < at {
        true
    } else {
        now - at < ttl
    }
}

/// Drops the entries of `m` whose stamp is stale at `now`.
fn retain_fresh(m: &mut StrMap<u64>, now: u64, ttl: u64)
    requires
        old(m).wf(),
    ensures
        final(m).wf(),
        final(m)@ == fresh_only(old(m)@, now, ttl),
{
    let n = m.len();
    let mut keep: Vec<bool> = Vec::new();
    let mut i: usize = 0;
    while i < n
        invariant
            m.wf(),
            n == m.key_seq().len(),
            i <= n,
            keep@.len() == i,
            forall|j: int| 0 <= j < i ==> keep@[j] == fresh(m@[m.key_seq()[j]], now, ttl),
        decreases n - i,
    {
        keep.push(is_fresh(*m.val_at(i), now, ttl));
        i += 1;
    }
    let ghost o = *m;
    m.retain_mask(&keep);
    proof {
        o.lemma_keys();
        assert forall|k: Seq<char>| #[trigger] m@.contains_key(k) <==> fresh_only(o@, now, ttl).contains_key(k) by {
            if o@.contains_key(k) {
                let j = choose|j: int| 0 <= j < o.key_seq().len() && o.key_seq()[j] == k;
                assert(m@.contains_key(o.key_seq()[j]) == keep@[j]);
            }
        }
        assert(m@ =~= fresh_only(o@, now, ttl));
    }
}

/// Drops the stale entries of a two-level table, then its empty topics.
fn table_retain_fresh(m: &mut StrMap<StrMap<u64>>, now: u64, ttl: u64)
    requires
        table_wf(*old(m)),
    ensures
        table_wf(*final(m)),
        table_view(*final(m)) == table_gc(table_view(*old(m)), now, ttl),
{
    let ghost o = *m;
    proof {
        o.lemma_keys();
    }
    let ghost ks = m.key_seq();
    let n = m.len();
    let mut keep: Vec<bool> = Vec::new();
    let mut i: usize = 0;
    while i < n
        invariant
            m.wf(),
            table_wf(o),
            m.key_seq() == ks,
            ks == o.key_seq(),
            ks.no_duplicates(),
            n == ks.len(),
            i <= n,
            keep@.len() == i,
            m@.dom() == o@.dom(),
            forall|j: int| 0 <= j < i ==> (#[trigger] m@[ks[j]]).wf() && m@[ks[j]]@ == fresh_only(o@[ks[j]]@, now, ttl)
                && keep@[j] == (m@[ks[j]]@.dom().len() > 0),
            forall|j: int| i <= j < n ==> #[trigger] m@[ks[j]] == o@[ks[j]],
        decreases n - i,
    {
        proof {
            m.lemma_keys();
            assert(ks.contains(ks[i as int]));
            assert(o@.contains_key(ks[i as int]));
            assert(m@[ks[i as int]] == o@[ks[i as int]]);
        }
        let mut inner = m.replace_at(i, StrMap::new());
        retain_fresh(&mut inner, now, ttl);
        let nonempty = inner.len() > 0;
        proof {
            inner.lemma_keys();
        }
        m.replace_at(i, inner);
        keep.push(nonempty);
        proof {
            assert forall|j: int| 0 <= j < n && j != i implies ks[j] != ks[i as int] by {}
            assert(m@.dom() =~= o@.dom());
        }
        i += 1;
    }
    let ghost mid = *m;
    m.retain_mask(&keep);
    proof {
        mid.lemma_keys();
        let g = table_gc(table_view(o), now, ttl);
        assert forall|t: Seq<char>| #[trigger] table_view(*m).contains_key(t) <==> g.contains_key(t) by {
            lemma_map_values_dom(m@, |x: StrMap<u64>| x@, t);
            lemma_map_values_dom(o@, |x: StrMap<u64>| x@, t);
            if o@.contains_key(t) {
                let j = choose|j: int| 0 <= j < ks.len() && ks[j] == t;
                assert(m@.contains_key(ks[j]) == keep@[j]);
                let f = fresh_only(o@[t]@, now, ttl);
                assert(mid@[t]@ == f);
                mid@[t].lemma_keys();
                if keep@[j] {
                    assert(mid@[t]@.dom().len() > 0);
                    let p = mid@[t]@.dom().choose();
                    assert(f.contains_key(p));
                } else {
                    if exists|p: Seq<char>| #[trigger] f.contains_key(p) {
                        let p = choose|p: Seq<char>| #[trigger] f.contains_key(p);
                        assert(mid@[t]@.dom().contains(p));
                    }
                }
            }
        }
        assert forall|t: Seq<char>| #[trigger] table_view(*m).contains_key(t) implies table_view(*m)[t] == g[t] by {
            lemma_map_values_dom(m@, |x: StrMap<u64>| x@, t);
            lemma_map_values_dom(o@, |x: StrMap<u64>| x@, t);
            let j = choose|j: int| 0 <= j < ks.len() && ks[j] == t;
            assert(mid@[ks[j]]@ == fresh_only(o@[ks[j]]@, now, ttl));
        }
        assert(table_view(*m) =~= g);
        assert forall|t: Seq<char>| #[trigger] m@.contains_key(t) implies m@[t].wf() by {
            let j = choose|j: int| 0 <= j < ks.len() && ks[j] == t;
            assert(mid@[ks[j]].wf());
        }
    }
}

impl NodeView {
    /// The mesh of `t` is within its bounds at `now`: at most `mesh_high`
    /// peers, and at least `mesh_low` unless no eligible peer is left.
    pub open spec fn mesh_settled(&self, t: Seq<char>, now: u64) -> bool {
        &&& self.mesh_of(t).len() <= self.config.mesh_high
        &&& (self.mesh_of(t).len() >= self.config.mesh_low || forall|p: Seq<char>| !#[trigger] self.eligible(t, p, now))
    }

    /// The relations a heartbeat at `now` establishes: fanout and mesh are
    /// disjoint, cached messages are fresh, every mesh of a joined topic is
    /// within its bounds, and no mesh peer is under PRUNE back-off.
    pub open spec fn settled(&self, now: u64) -> bool {
        &&& forall|t: Seq<char>| #[trigger] self.fanout.contains_key(t) ==> self.fanout[t].disjoint(self.mesh_of(t))
        &&& forall|id: Seq<char>| #[trigger]
            self.cache.contains_key(id) ==> fresh(self.cache[id].1, now, self.config.message_cache_ttl)
        &&& forall|t: Seq<char>| #[trigger] self.mesh.contains_key(t) ==> self.mesh[t].len() <= self.config.mesh_high
        &&& forall|t: Seq<char>| #[trigger] self.topics.contains(t) ==> self.mesh_settled(t, now)
        &&& forall|t: Seq<char>, p: Seq<char>|
            self.mesh.contains_key(t) && #[trigger] self.mesh[t].contains(p) ==> !in_backoff(
                self.prune_backoff,
                t,
                p,
                now,
            )
    }

    /// The fanout of `t` is kept at `now`: it was used within its lifetime
    /// and `t` still has no mesh peers.
    pub open spec fn fanout_kept(&self, t: Seq<char>, now: u64) -> bool {
        fresh(self.fanout_used[t], now, self.config.fanout_ttl) && self.mesh_of(t).len() == 0
    }
}

impl GossipSubNode {
    /// Drops the IWANT requests older than the message-cache lifetime.
    pub fn cleanup_expired_iwant_requests_at(&mut self, now: u64)
        requires
            old(self).wf(),
        ensures
            final(self).wf(),
            final(self)@ == (NodeView {
                iwant: fresh_only(old(self)@.iwant, now, old(self).config.message_cache_ttl),
                ..old(self)@
            }),
            *final(self) == (GossipSubNode { iwant_requests: final(self).iwant_requests, ..*old(self) }),
    {
        let ttl = self.config.message_cache_ttl;
        retain_fresh(&mut self.iwant_requests, now, ttl);
        proof {
            lemma_consistent_frame(old(self)@, self@);
        }
    }

    /// Drops the cached messages older than the message-cache lifetime, and
    /// clears the dedup set once it holds more than `SEEN_CAPACITY` ids.
    pub fn cleanup_message_cache_at(&mut self, now: u64)
        requires
            old(self).wf(),
        ensures
            final(self).wf(),
            cache_cleaned(old(self)@, final(self)@, now),
            final(self).peers == old(self).peers,
    {
        let ghost o = *old(self);
        let ttl = self.config.message_cache_ttl;
        let n = self.message_cache.len();
        let mut keep: Vec<bool> = Vec::new();
        let mut i: usize = 0;
        while i < n
            invariant
                self.message_cache.wf(),
                n == self.message_cache.key_seq().len(),
                ttl == self.config.message_cache_ttl,
                i <= n,
                keep@.len() == i,
                forall|j: int|
                    0 <= j < i ==> keep@[j] == fresh(
                        self.message_cache@[self.message_cache.key_seq()[j]].inserted_at,
                        now,
                        ttl,
                    ),
            decreases n - i,
        {
            keep.push(is_fresh(self.message_cache.val_at(i).inserted_at, now, ttl));
            i += 1;
        }
        let ghost c0 = self.message_cache;
        self.message_cache.retain_mask(&keep);
        proof {
            c0.lemma_keys();
            let f = |e: CacheEntry| (e.message@, e.inserted_at);
            assert forall|k: Seq<char>| #[trigger] self@.cache.contains_key(k) <==> (o@.cache.contains_key(k)
                && fresh(o@.cache[k].1, now, ttl)) by {
                lemma_map_values_dom(self.message_cache@, f, k);
                lemma_map_values_dom(c0@, f, k);
                if c0@.contains_key(k) {
                    let j = choose|j: int| 0 <= j < c0.key_seq().len() && c0.key_seq()[j] == k;
                    assert(self.message_cache@.contains_key(c0.key_seq()[j]) == keep@[j]);
                }
            }
            assert forall|k: Seq<char>| #[trigger] self@.cache.contains_key(k) implies self@.cache[k] == o@.cache[k] by {
                lemma_map_values_dom(self.message_cache@, f, k);
                lemma_map_values_dom(c0@, f, k);
            }
        }
        let count = self.seen_messages.len();
        proof {
            self.seen_messages.lemma_len();
        }
        if count > SEEN_CAPACITY {
            self.seen_messages.clear();
            assert(self@.seen =~= Set::empty());
        }
        proof {
            assert(self@.cache =~= Map::new(
                |k: Seq<char>| o@.cache.contains_key(k) && fresh(o@.cache[k].1, now, o.config.message_cache_ttl),
                |k: Seq<char>| o@.cache[k],
            ));
            lemma_consistent_frame(o@, self@);
        }
    }

    /// Drops the expired GRAFT and PRUNE back-offs and the GRAFT times older
    /// than the flood window, and then the topics left without entries.
    pub fn cleanup_backoffs_at(&mut self, now: u64)
        requires
            old(self).wf(),
        ensures
            final(self).wf(),
            backoffs_cleaned(old(self)@, final(self)@, now),
            *final(self) == (GossipSubNode {
                graft_backoff: final(self).graft_backoff,
                prune_backoff: final(self).prune_backoff,
                graft_requests: final(self).graft_requests,
                ..*old(self)
            }),
    {
        let ghost o = *old(self);
        table_retain_fresh(&mut self.graft_backoff, now, 0);
        table_retain_fresh(&mut self.prune_backoff, now, 0);
        let window = self.config.graft_flood_threshold;
        table_retain_fresh(&mut self.graft_requests, now, window);
        proof {
            let v = self@;
            assert forall|t: Seq<char>, q: Seq<char>|
                v.mesh.contains_key(t) && #[trigger] v.mesh[t].contains(q) implies v.peers.contains_key(q)
                    && crate::node::backoff_expiry(v.prune_backoff, t, q).is_none() by {
                assert(o@.mesh.contains_key(t) && o@.mesh[t].contains(q));
                assert(crate::node::backoff_expiry(o@.prune_backoff, t, q).is_none());
            }
            assert forall|t: Seq<char>| #[trigger] v.mesh.contains_key(t) implies v.topics.contains(t) by {
                assert(o@.mesh.contains_key(t));
            }
            assert forall|u: Seq<char>| #[trigger] v.fanout.contains_key(u) implies v.topics.contains(u) by {
                assert(o@.fanout.contains_key(u));
            }
            assert forall|u: Seq<char>| #[trigger] v.history.contains_key(u) implies v.history[u].len() <= v.config.history_limit() by {
                assert(o@.history.contains_key(u));
            }
        }
    }

    /// Drops the fanout of each topic that was not used within the fanout
    /// lifetime, or whose mesh has peers again.
    pub fn expire_fanout_at(&mut self, now: u64)
        requires
            old(self).wf(),
        ensures
            final(self).wf(),
            final(self)@ == (NodeView {
                fanout: Map::new(
                    |t: Seq<char>| old(self)@.fanout.contains_key(t) && old(self)@.fanout_kept(t, now),
                    |t: Seq<char>| old(self)@.fanout[t],
                ),
                fanout_used: Map::new(
                    |t: Seq<char>| old(self)@.fanout.contains_key(t) && old(self)@.fanout_kept(t, now),
                    |t: Seq<char>| old(self)@.fanout_used[t],
                ),
                ..old(self)@
            }),
            *final(self) == (GossipSubNode { fanout: final(self).fanout, ..*old(self) }),
    {
        let ghost o = *old(self);
        let ttl = self.config.fanout_ttl;
        let n = self.fanout.len();
        let mut keep: Vec<bool> = Vec::new();
        let mut i: usize = 0;
        while i < n
            invariant
                self.wf(),
                *self == o,
                n == self.fanout.key_seq().len(),
                ttl == self.config.fanout_ttl,
                i <= n,
                keep@.len() == i,
                forall|j: int| 0 <= j < i ==> keep@[j] == o@.fanout_kept(o.fanout.key_seq()[j], now),
            decreases n - i,
        {
            let t = self.fanout.key_at(i);
            let e = self.fanout.val_at(i);
            let k = is_fresh(e.last_used, now, ttl) && self.get_mesh_size(t.as_str()) == 0;
            proof {
                lemma_map_values_dom(o.fanout@, |f: FanoutEntry| f.last_used, t@);
            }
            keep.push(k);
            i += 1;
        }
        self.fanout.retain_mask(&keep);
        proof {
            o.fanout.lemma_keys();
            let f1 = |f: FanoutEntry| f.peers.set();
            let f2 = |f: FanoutEntry| f.last_used;
            assert forall|t: Seq<char>| #[trigger] self.fanout@.contains_key(t) <==> (o@.fanout.contains_key(t)
                && o@.fanout_kept(t, now)) by {
                lemma_map_values_dom(o.fanout@, f1, t);
                lemma_map_values_dom(o.fanout@, f2, t);
                if o.fanout@.contains_key(t) {
                    let j = choose|j: int| 0 <= j < o.fanout.key_seq().len() && o.fanout.key_seq()[j] == t;
                    assert(self.fanout@.contains_key(o.fanout.key_seq()[j]) == keep@[j]);
                }
            }
            assert forall|t: Seq<char>| #[trigger] self.fanout@.contains_key(t) implies self.fanout@[t] == o.fanout@[t] by {}
            assert(self@.fanout =~= Map::new(
                |t: Seq<char>| o@.fanout.contains_key(t) && o@.fanout_kept(t, now),
                |t: Seq<char>| o@.fanout[t],
            ));
            assert(self@.fanout_used =~= Map::new(
                |t: Seq<char>| o@.fanout.contains_key(t) && o@.fanout_kept(t, now),
                |t: Seq<char>| o@.fanout_used[t],
            ));
            assert forall|t: Seq<char>| #[trigger] self.fanout@.contains_key(t) implies self.fanout@[t].peers.wf() by {}
            let v = self@;
            assert forall|t: Seq<char>, q: Seq<char>|
                v.mesh.contains_key(t) && #[trigger] v.mesh[t].contains(q) implies v.peers.contains_key(q)
                    && backoff_expiry(v.prune_backoff, t, q).is_none() by {
                assert(o@.mesh.contains_key(t) && o@.mesh[t].contains(q));
            }
            assert forall|t: Seq<char>| #[trigger] v.mesh.contains_key(t) implies v.topics.contains(t) by {
                assert(o@.mesh.contains_key(t));
            }
            assert forall|u: Seq<char>| #[trigger] v.history.contains_key(u) implies v.history[u].len() <= v.config.history_limit() by {
                assert(o@.history.contains_key(u));
            }
            assert forall|u: Seq<char>| #[trigger] v.fanout.contains_key(u) implies v.topics.contains(u) by {
                assert(o@.fanout.contains_key(u));
            }
        }
    }

    /// Brings the mesh of `topic` back within its bounds at `now`: below
    /// `mesh_low` it is expanded, above `mesh_high` contracted.
    pub fn maintain_mesh_at(&mut self, topic: &String, now: u64)
        requires
            old(self).wf(),
        ensures
            final(self).wf(),
            old(self)@.topics.contains(topic@) ==> final(self)@.mesh_settled(topic@, now),
            old(self)@.topics.contains(topic@) ==> mesh_outcome(*old(self), final(self)@, topic@, now),
            forall|u: Seq<char>| u != topic@ ==> #[trigger] final(self).mesh_seq(u) == old(self).mesh_seq(u),
            old(self)@.mesh_of(topic@).len() < old(self).config.mesh_low ==> expanded(*old(self), final(self)@, topic@, now),
            old(self)@.mesh_of(topic@).len() > old(self).config.mesh_high ==> contracted(*old(self), final(self)@, topic@, now),
            old(self).config.mesh_low <= old(self)@.mesh_of(topic@).len() <= old(self).config.mesh_high ==> final(self)@ == old(self)@,
            final(self).peers == old(self).peers,
            final(self)@ == (NodeView {
                mesh: final(self)@.mesh,
                prune_backoff: final(self)@.prune_backoff,
                outbox: final(self)@.outbox,
                ..old(self)@
            }),
            forall|u: Seq<char>| u != topic@ ==> #[trigger] final(self)@.mesh_of(u) == old(self)@.mesh_of(u),
            final(self)@.outbox.len() >= old(self)@.outbox.len(),
            final(self)@.outbox.take(old(self)@.outbox.len() as int) == old(self)@.outbox,
            forall|u: Seq<char>, p: Seq<char>|
                u != topic@ ==> #[trigger] backoff_expiry(final(self)@.prune_backoff, u, p) == backoff_expiry(
                    old(self)@.prune_backoff,
                    u,
                    p,
                ),
    {
        let ghost o = *old(self);
        let t = topic;
        proof {
            o.lemma_mesh_len(t@);
        }
        let size = self.get_mesh_size(t.as_str());
        if size < self.config.mesh_low {
            self.expand_mesh_at(t, now);
            proof {
                self.lemma_mesh_len(t@);
                let sel = o.graft_selection(t@, now);
                let v = self@;
                assert(v == grafted(o@, t@, sel, sent_after(v, o@.outbox.len())));
                if sel.len() == 0 {
                    assert(sel.to_set() =~= Set::<Seq<char>>::empty());
                    assert(o@.mesh_of(t@) + sel.to_set() =~= o@.mesh_of(t@));
                }
                assert(v.mesh_of(t@) == o@.mesh_of(t@) + sel.to_set());
                assert(v.outbox.take(o@.outbox.len() as int) =~= o@.outbox);
                assert forall|u: Seq<char>| u != t@ implies #[trigger] v.mesh_of(u) == o@.mesh_of(u) by {}
                assert forall|u: Seq<char>, p: Seq<char>|
                    u != t@ implies #[trigger] backoff_expiry(v.prune_backoff, u, p) == backoff_expiry(o@.prune_backoff, u, p) by {}
                if o@.topics.contains(t@) {
                    let c = o.candidates(t@, now, false);
                    let need = o.config.mesh_size - size;
                    assert(sel == first_n(c, need));
                    if sel.len() < need {
                        assert(sel == c);
                        assert forall|p: Seq<char>| !#[trigger] v.eligible(t@, p, now) by {
                            if v.eligible(t@, p, now) {
                                assert(!sel.contains(p)) by {
                                    if sel.contains(p) {
                                        assert(sel.to_set().contains(p));
                                        assert(v.mesh_of(t@).contains(p));
                                    }
                                }
                                assert(backoff_expiry(v.prune_backoff, t@, p) == backoff_expiry(o@.prune_backoff, t@, p)) by {
                                    assert(!sel.to_set().contains(p));
                                }
                                if sel.len() > 0 {
                                    assert(!o@.mesh_of(t@).contains(p));
                                }
                                assert(o@.eligible(t@, p, now));
                                o.peers.lemma_keys();
                                lemma_map_values_dom(o.peers@, |c: String| c@, p);
                                let ks = o.peers.key_seq();
                                assert(ks.contains(p));
                                let k = choose|k: int| 0 <= k < ks.len() && ks[k] == p;
                                ks.lemma_filter_contains(|q: Seq<char>| o.selectable(t@, q, now, false), k);
                            }
                        }
                    }
                }
            }
        } else if size > self.config.mesh_high {
            self.contract_mesh_at(t, now);
            proof {
                self.lemma_mesh_len(t@);
                let v = self@;
                let vs = o.prune_selection(t@);
                assert(v == pruned(o@, t@, vs, crate::node::sat_add(now, o.config.prune_backoff), sent_after(v, o@.outbox.len())));
                assert(vs.len() > 0);
                assert(v.mesh_of(t@) == o@.mesh_of(t@) - vs.to_set());
                assert(v.outbox == o@.outbox + sent_after(v, o@.outbox.len())) by {
                    if vs.len() == 0 {
                    } else {
                    }
                }
                assert(v.outbox.take(o@.outbox.len() as int) =~= o@.outbox);
                assert forall|u: Seq<char>| u != t@ implies #[trigger] v.mesh_of(u) == o@.mesh_of(u) by {}
                assert forall|u: Seq<char>, p: Seq<char>|
                    u != t@ implies #[trigger] backoff_expiry(v.prune_backoff, u, p) == backoff_expiry(o@.prune_backoff, u, p) by {}
            }
        } else {
            assert(self@.outbox.take(o@.outbox.len() as int) =~= o@.outbox);
        }
    }

    /// The periodic maintenance at `now`: for each joined topic, in the order
    /// joined, the mesh is brought within its bounds and an IHAVE emission
    /// follows; then IWANT requests, the cache and dedup set, back-offs and
    /// stale fanouts are cleaned up.
    pub fn gossip_heartbeat_at(&mut self, now: u64)
        requires
            old(self).wf(),
        ensures
            final(self).wf(),
            heartbeat_done(*old(self), *final(self), now),
    {
        let ghost o = *old(self);
        let ts = self.topics.to_vec();
        let ghost tsv = str_views(ts@);
        let mut i: usize = 0;
        while i < ts.len()
            invariant
                self.wf(),
                o.wf(),
                i <= ts.len(),
                tsv == str_views(ts@),
                tsv == o.topics@,
                self@ == (NodeView {
                    mesh: self@.mesh,
                    prune_backoff: self@.prune_backoff,
                    outbox: self@.outbox,
                    ..o@
                }),
                self@.outbox.len() >= o@.outbox.len(),
                self@.outbox.take(o@.outbox.len() as int) == o@.outbox,
                forall|k: int| 0 <= k < i ==> #[trigger] self@.mesh_settled(tsv[k], now),
                tsv.no_duplicates(),
                self.peers == o.peers,
                forall|k: int| 0 <= k < i ==> #[trigger] mesh_outcome(o, self@, tsv[k], now),
                forall|k: int| i <= k < tsv.len() ==> #[trigger] self@.mesh_of(tsv[k]) == o@.mesh_of(tsv[k]),
                forall|k: int| i <= k < tsv.len() ==> #[trigger] self.mesh_seq(tsv[k]) == o.mesh_seq(tsv[k]),
                forall|k: int, p: Seq<char>|
                    i <= k < tsv.len() ==> #[trigger] backoff_expiry(self@.prune_backoff, tsv[k], p) == backoff_expiry(
                        o@.prune_backoff,
                        tsv[k],
                        p,
                    ),
                forall|k: int| 0 <= k < i ==> #[trigger] ihave_sent(o@.outbox.len(), *self, tsv[k], now),
            decreases ts.len() - i,
        {
            let ghost before = self@;
            let ghost before_node = *self;
            self.maintain_mesh_at(&ts[i], now);
            let ghost maintained = self@;
            let ghost maintained_node = *self;
            self.send_ihave_messages(&ts[i], now);
            proof {
                let u0 = tsv[i as int];
                let g = o.config.gossip_size as int;
                // The mesh of this topic was untouched before its turn.
                assert(before.mesh_of(u0) == o@.mesh_of(u0));
                assert(before_node.mesh_seq(u0) == o.mesh_seq(u0));
                assert forall|p: Seq<char>| #[trigger] backoff_expiry(before.prune_backoff, u0, p) == backoff_expiry(o@.prune_backoff, u0, p) by {
                    assert(backoff_expiry(before.prune_backoff, tsv[i as int], p) == backoff_expiry(o@.prune_backoff, tsv[i as int], p));
                }
                lemma_selection_frame(before_node, o, u0, now);
                assert forall|k: int| 0 <= k < i + 1 implies #[trigger] mesh_outcome(o, self@, tsv[k], now) by {
                    assert(self@.mesh_of(tsv[k]) == maintained.mesh_of(tsv[k]));
                    if k < i {
                        assert(tsv[k] != u0);
                        assert(mesh_outcome(o, before, tsv[k], now));
                    } else {
                        assert(o@.topics.contains(u0)) by {
                            assert(o.topics@.contains(u0));
                        }
                        assert(mesh_outcome(before_node, maintained, u0, now));
                    }
                }
                assert forall|k: int| i + 1 <= k < tsv.len() implies #[trigger] self@.mesh_of(tsv[k]) == o@.mesh_of(tsv[k]) by {
                    assert(tsv[k] != u0);
                    assert(maintained.mesh_of(tsv[k]) == before.mesh_of(tsv[k]));
                }
                assert forall|k: int| i + 1 <= k < tsv.len() implies #[trigger] self.mesh_seq(tsv[k]) == o.mesh_seq(tsv[k]) by {
                    assert(tsv[k] != u0);
                    assert(maintained_node.mesh_seq(tsv[k]) == before_node.mesh_seq(tsv[k]));
                }
                assert forall|k: int, p: Seq<char>| i + 1 <= k < tsv.len() implies #[trigger] backoff_expiry(self@.prune_backoff, tsv[k], p)
                    == backoff_expiry(o@.prune_backoff, tsv[k], p) by {
                    assert(tsv[k] != u0);
                    assert(backoff_expiry(maintained.prune_backoff, tsv[k], p) == backoff_expiry(before.prune_backoff, tsv[k], p));
                }
                let u = u0;
                assert(self@ == (NodeView { outbox: self@.outbox, ..maintained }));
                assert(before.topics == o@.topics);
                assert forall|k: int| 0 <= k < i + 1 implies #[trigger] self@.mesh_settled(tsv[k], now) by {
                    if k == i {
                        assert(o@.topics.contains(u)) by {
                            assert(o.topics@.contains(u));
                        }
                        assert(maintained.mesh_settled(u, now));
                        assert(self@.mesh == maintained.mesh && self@.prune_backoff == maintained.prune_backoff);
                        assert forall|p: Seq<char>| #[trigger] self@.eligible(u, p, now) == maintained.eligible(u, p, now) by {}
                        assert(self@.mesh_settled(u, now));
                    } else {
                        let w = tsv[k];
                        assert(w != u);
                        assert(before.mesh_settled(w, now));
                        assert(maintained.mesh_of(w) == before.mesh_of(w));
                        assert(self@.mesh_of(w) == before.mesh_of(w));
                        assert forall|p: Seq<char>| #[trigger] self@.eligible(w, p, now) == before.eligible(w, p, now) by {
                            assert(backoff_expiry(maintained.prune_backoff, w, p) == backoff_expiry(before.prune_backoff, w, p));
                        }
                        assert(self@.mesh_settled(w, now));
                    }
                }
                // Earlier IHAVEs stay queued, to the same peers.
                let n0 = o@.outbox.len();
                assert(self@.outbox.len() >= before.outbox.len());
                assert(self@.outbox.take(before.outbox.len() as int) =~= before.outbox) by {
                    assert(maintained.outbox.take(before.outbox.len() as int) == before.outbox);
                    if self@ != maintained {
                        assert(self@.outbox == maintained.outbox + sent_after(self@, maintained.outbox.len()));
                    }
                    assert forall|x: int| 0 <= x < before.outbox.len() implies self@.outbox[x] == before.outbox[x] by {
                        assert(maintained.outbox.take(before.outbox.len() as int)[x] == maintained.outbox[x]);
                    }
                }
                assert(self@.outbox.take(n0 as int) =~= o@.outbox) by {
                    assert forall|x: int| 0 <= x < n0 implies self@.outbox[x] == o@.outbox[x] by {
                        assert(self@.outbox.take(before.outbox.len() as int)[x] == before.outbox[x]);
                        assert(before.outbox.take(n0 as int)[x] == o@.outbox[x]);
                    }
                }
                assert forall|k: int| 0 <= k < i + 1 implies #[trigger] ihave_sent(n0, *self, tsv[k], now) by {
                    let w = tsv[k];
                    if k < i {
                        assert(w != u0);
                        assert(ihave_sent(n0, before_node, w, now));
                        assert(maintained.mesh_of(w) == before.mesh_of(w));
                        lemma_ihave_sent_kept(n0, before_node, *self, w, now);
                    } else {
                        let r = recent_ids(self@.history_of(u0), g);
                        assert(ihave_emission(maintained_node, self@, u0, now));
                        let f1 = |p: Seq<char>| self.selectable(u0, p, now, true);
                        let f2 = |p: Seq<char>| maintained_node.selectable(u0, p, now, true);
                        assert(f1 =~= f2);
                        assert(self.candidates(u0, now, true) == maintained_node.candidates(u0, now, true));
                        let targets = first_n(self.candidates(u0, now, true), g);
                        if r.len() > 0 {
                            let m0 = maintained.outbox.len() as int;
                            let sent = sent_after(self@, maintained.outbox.len());
                            assert(frames_listing(sent, targets, MessageType::IHave, u0, self@.node_id, now, r));
                            assert(m0 >= n0) by {
                                assert(before.outbox.len() >= n0);
                            }
                            assert forall|j: int| 0 <= j < targets.len() implies #[trigger] has_ihave(self@, n0, u0, targets[j], now, r) by {
                                assert(sent[j] == self@.outbox[m0 + j]);
                                assert(is_frame(self@.outbox[m0 + j].1, MessageType::IHave, u0, self@.node_id, targets[j], now, r));
                            }
                        }
                    }
                }
            }
            i += 1;
        }
        let ghost after_mesh = self@;
        let ghost after_mesh_node = *self;
        self.cleanup_expired_iwant_requests_at(now);
        self.cleanup_message_cache_at(now);
        self.cleanup_backoffs_at(now);
        let ghost before_fanout = self@;
        self.expire_fanout_at(now);
        proof {
            let v = self@;
            assert forall|t: Seq<char>| #[trigger] v.topics.contains(t) implies v.mesh_settled(t, now) by {
                assert(o.topics@.contains(t));
                let k = choose|k: int| 0 <= k < tsv.len() && tsv[k] == t;
                assert(after_mesh.mesh_settled(tsv[k], now));
                assert forall|p: Seq<char>| #[trigger] v.eligible(t, p, now) == after_mesh.eligible(t, p, now) by {
                    lemma_gc_in_backoff(after_mesh.graft_backoff, t, p, now);
                    lemma_gc_in_backoff(after_mesh.prune_backoff, t, p, now);
                }
            }
            assert forall|t: Seq<char>| #[trigger] v.mesh.contains_key(t) implies v.mesh[t].len() <= v.config.mesh_high by {
                assert(v.topics.contains(t));
                assert(v.mesh_settled(t, now));
            }
            assert forall|t: Seq<char>| #[trigger] v.fanout.contains_key(t) implies v.fanout[t].disjoint(v.mesh_of(t)) by {
                assert(before_fanout.fanout_kept(t, now));
                self.lemma_mesh_len(t);
                assert(v.mesh_of(t) =~= Set::empty());
            }
            assert forall|t: Seq<char>, p: Seq<char>|
                v.mesh.contains_key(t) && #[trigger] v.mesh[t].contains(p) implies !in_backoff(v.prune_backoff, t, p, now) by {
                assert(backoff_expiry(v.prune_backoff, t, p).is_none());
            }
            assert(v.prune_backoff == table_gc(after_mesh.prune_backoff, now, 0));
            assert forall|t: Seq<char>, p: Seq<char>|
                #[trigger] backoff_expiry(v.prune_backoff, t, p) is Some implies now < backoff_expiry(v.prune_backoff, t, p)->Some_0 by {
                assert(fresh_only(after_mesh.prune_backoff[t], now, 0).contains_key(p));
            }
            assert forall|t: Seq<char>| #[trigger] v.prune_backoff.contains_key(t) implies exists|p: Seq<char>|
                #[trigger] v.prune_backoff[t].contains_key(p) by {
                let p = choose|p: Seq<char>| #[trigger] fresh_only(after_mesh.prune_backoff[t], now, 0).contains_key(p);
                assert(v.prune_backoff[t].contains_key(p));
            }
            assert(before_fanout.fanout == o@.fanout && before_fanout.fanout_used == o@.fanout_used);
            assert forall|t: Seq<char>| #[trigger] v.fanout.contains_key(t) <==> (o@.fanout.contains_key(t) && fresh(
                o@.fanout_used[t], now, o@.config.fanout_ttl) && v.mesh_of(t).len() == 0) by {
                assert(v.mesh_of(t) == before_fanout.mesh_of(t));
            }
            assert forall|t: Seq<char>| #[trigger] v.fanout.contains_key(t) implies v.fanout[t] == o@.fanout[t]
                && v.fanout_used.contains_key(t) && v.fanout_used[t] == o@.fanout_used[t] by {}
            assert(v.outbox.take(o@.outbox.len() as int) =~= o@.outbox) by {
                assert(after_mesh.outbox.take(o@.outbox.len() as int) == o@.outbox);
            }
            assert forall|t: Seq<char>| #[trigger] o@.topics.contains(t) implies mesh_outcome(o, v, t, now)
                && ihave_sent(o@.outbox.len(), *self, t, now) by {
                assert(o.topics@.contains(t));
                let k = choose|k: int| 0 <= k < tsv.len() && tsv[k] == t;
                assert(mesh_outcome(o, after_mesh, tsv[k], now));
                assert(ihave_sent(o@.outbox.len(), after_mesh_node, tsv[k], now));
                assert(v.outbox =~= after_mesh.outbox.take(after_mesh.outbox.len() as int));
                lemma_ihave_sent_kept(o@.outbox.len(), after_mesh_node, *self, t, now);
            }
        }
    }

    /// The periodic maintenance, at the current time; see `gossip_heartbeat_at`.
    pub fn gossip_heartbeat(&mut self)
        requires
            old(self).wf(),
        ensures
            final(self).wf(),
            exists|now: u64| heartbeat_done(*old(self), *final(self), now),
    {
        let now = crate::message::GossipMessage::current_timestamp();
        self.gossip_heartbeat_at(now)
    }

    /// Cleans the message cache at the current time; see `cleanup_message_cache_at`.
    pub fn cleanup_message_cache(&mut self)
        requires
            old(self).wf(),
        ensures
            final(self).wf(),
            exists|now: u64| cache_cleaned(old(self)@, final(self)@, now),
    {
        let now = crate::message::GossipMessage::current_timestamp();
        self.cleanup_message_cache_at(now)
    }

    /// Cleans the back-off tables at the current time; see `cleanup_backoffs_at`.
    pub fn cleanup_backoffs(&mut self)
        requires
            old(self).wf(),
        ensures
            final(self).wf(),
            exists|now: u64| backoffs_cleaned(old(self)@, final(self)@, now),
    {
        let now = crate::message::GossipMessage::current_timestamp();
        self.cleanup_backoffs_at(now)
    }
}

} // verus!
