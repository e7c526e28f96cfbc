use crate::collections::{
    first_n, lemma_filter_no_dup, lemma_map_values_insert, lemma_map_values_remove, str_views, IdList,
};
use crate::node::{
    backoff_clear, backoff_expiry, backoff_set, is_frame, control_frames, in_backoff, sat_add, table_clear,
    table_set, lemma_consistent_frame, FanoutEntry, GossipSubNode, NodeView,
};
use crate::message::MessageView;
use crate::types::MessageType;
use vstd::prelude::*;

verus! {

/// The table with the entries of every peer of `ps` under topic `t` removed.
pub open spec fn backoff_clear_all(
    m: Map<Seq<char>, Map<Seq<char>, u64>>,
    t: Seq<char>,
    ps: Set<Seq<char>>,
) -> Map<Seq<char>, Map<Seq<char>, u64>> {
    if m.contains_key(t) {
        m.insert(t, m[t].remove_keys(ps))
    } else {
        m
    }
}

/// The state after grafting the peers of `sel` into the mesh of `t` and
/// queueing `frames`: they join the mesh and lose any PRUNE back-off there.
pub open spec fn grafted(
    pre: NodeView,
    t: Seq<char>,
    sel: Seq<Seq<char>>,
    frames: Seq<(Seq<char>, MessageView)>,
) -> NodeView {
    NodeView {
        mesh: if sel.len() == 0 {
            pre.mesh
        } else {
            pre.mesh.insert(t, pre.mesh_of(t) + sel.to_set())
        },
        prune_backoff: backoff_clear_all(pre.prune_backoff, t, sel.to_set()),
        outbox: pre.outbox + frames,
        ..pre
    }
}

/// The table with every peer of `ps` bound to `e` under topic `t`.
pub open spec fn backoff_set_all(
    m: Map<Seq<char>, Map<Seq<char>, u64>>,
    t: Seq<char>,
    ps: Set<Seq<char>>,
    e: u64,
) -> Map<Seq<char>, Map<Seq<char>, u64>> {
    let inner = if m.contains_key(t) { m[t] } else { Map::empty() };
    m.insert(
        t,
        Map::new(
            |p: Seq<char>| inner.contains_key(p) || ps.contains(p),
            |p: Seq<char>| if ps.contains(p) { e } else { inner[p] },
        ),
    )
}

/// The state after pruning the peers of `vs` from the mesh of `t` and
/// queueing `frames`: they leave the mesh and get a PRUNE back-off until `e`.
pub open spec fn pruned(
    pre: NodeView,
    t: Seq<char>,
    vs: Seq<Seq<char>>,
    e: u64,
    frames: Seq<(Seq<char>, MessageView)>,
) -> NodeView {
    if vs.len() == 0 {
        NodeView { outbox: pre.outbox + frames, ..pre }
    } else {
        NodeView {
            mesh: pre.mesh.insert(t, pre.mesh_of(t) - vs.to_set()),
            prune_backoff: backoff_set_all(pre.prune_backoff, t, vs.to_set(), e),
            outbox: pre.outbox + frames,
            ..pre
        }
    }
}

/// A PRUNE on `t` to `p`, made at `now`, was queued after the frames of `pre`.
pub open spec fn replied_prune(pre: NodeView, post: NodeView, t: Seq<char>, p: Seq<char>, now: u64) -> bool {
    &&& post.outbox.len() == pre.outbox.len() + 1
    &&& post.outbox.drop_last() == pre.outbox
    &&& post.outbox.last().0 == p
    &&& is_frame(post.outbox.last().1, MessageType::Prune, t, pre.node_id, p, now, Seq::empty())
}

impl NodeView {
    /// `p` asked to join the mesh of `t` less than the flood window before `now`.
    pub open spec fn graft_flooding(&self, t: Seq<char>, p: Seq<char>, now: u64) -> bool {
        match backoff_expiry(self.graft_requests, t, p) {
            Some(last) => (now as int) < last + self.config.graft_flood_threshold,
            None => false,
        }
    }
}

/// What a GRAFT on `t` from peer `p` at `now` does. On a topic not joined it
/// is refused with a PRUNE. Otherwise its time is noted; a flood is refused
/// with a PRUNE and a GRAFT back-off; a peer under PRUNE back-off, or a full
/// mesh, is refused with a PRUNE; else the peer joins the mesh silently.
pub open spec fn graft_step(pre: NodeView, post: NodeView, t: Seq<char>, p: Seq<char>, now: u64) -> bool {
    if !pre.topics.contains(t) {
        &&& replied_prune(pre, post, t, p, now)
        &&& post == NodeView { outbox: post.outbox, ..pre }
    } else {
        let noted = backoff_set(pre.graft_requests, t, p, now);
        if pre.graft_flooding(t, p, now) {
            &&& replied_prune(pre, post, t, p, now)
            &&& post == NodeView {
                graft_requests: noted,
                graft_backoff: backoff_set(pre.graft_backoff, t, p, sat_add(now, pre.config.graft_backoff)),
                outbox: post.outbox,
                ..pre
            }
        } else if in_backoff(pre.prune_backoff, t, p, now) || pre.mesh_of(t).len() >= pre.config.mesh_high {
            &&& replied_prune(pre, post, t, p, now)
            &&& post == NodeView { graft_requests: noted, outbox: post.outbox, ..pre }
        } else {
            post == NodeView {
                graft_requests: noted,
                mesh: pre.mesh.insert(t, pre.mesh_of(t).insert(p)),
                prune_backoff: backoff_clear(pre.prune_backoff, t, p),
                ..pre
            }
        }
    }
}

/// What a PRUNE on `t` from peer `p` at `now` does: `p` leaves the mesh of
/// `t`, and this node does not graft it there for the GRAFT back-off.
pub open spec fn prune_step(pre: NodeView, post: NodeView, t: Seq<char>, p: Seq<char>, now: u64) -> bool {
    post == NodeView {
        mesh: if pre.mesh.contains_key(t) {
            pre.mesh.insert(t, pre.mesh[t].remove(p))
        } else {
            pre.mesh
        },
        graft_backoff: backoff_set(pre.graft_backoff, t, p, sat_add(now, pre.config.graft_backoff)),
        ..pre
    }
}

/// What expanding the mesh of `t` at `now` does, from `pre` to `post`.
pub open spec fn expanded(pre: GossipSubNode, post: NodeView, t: Seq<char>, now: u64) -> bool {
    let sel = pre.graft_selection(t, now);
    let sent = sent_after(post, pre@.outbox.len());
    &&& control_frames(sent, sel, MessageType::Graft, t, pre@.node_id, now)
    &&& post == grafted(pre@, t, sel, sent)
}

/// What contracting the mesh of `t` at `now` does, from `pre` to `post`.
pub open spec fn contracted(pre: GossipSubNode, post: NodeView, t: Seq<char>, now: u64) -> bool {
    let vs = pre.prune_selection(t);
    let sent = sent_after(post, pre@.outbox.len());
    &&& control_frames(sent, vs, MessageType::Prune, t, pre@.node_id, now)
    &&& post == pruned(pre@, t, vs, sat_add(now, pre.config.prune_backoff), sent)
}

/// What joining `t` at `now` does, from `pre` to `post`.
pub open spec fn subscribed(pre: GossipSubNode, post: NodeView, t: Seq<char>, now: u64) -> bool {
    if pre@.topics.contains(t) {
        post == pre@
    } else {
        let sel = first_n(pre.candidates(t, now, false), pre.config.mesh_size as int);
        let joined = NodeView {
            topics: pre@.topics.insert(t),
            mesh: pre@.mesh.insert(t, Set::empty()),
            ..pre@
        };
        let sent = sent_after(post, pre@.outbox.len());
        &&& control_frames(sent, sel, MessageType::Graft, t, pre@.node_id, now)
        &&& post == grafted(joined, t, sel, sent)
    }
}

/// What leaving `t` at `now` does, from `pre` to `post`.
pub open spec fn unsubscribed(pre: GossipSubNode, post: NodeView, t: Seq<char>, now: u64) -> bool {
    if !pre@.topics.contains(t) {
        post == pre@
    } else {
        let sent = sent_after(post, pre@.outbox.len());
        &&& control_frames(sent, pre.mesh_seq(t), MessageType::Prune, t, pre@.node_id, now)
        &&& post == NodeView {
            topics: pre@.topics.remove(t),
            mesh: pre@.mesh.remove(t),
            fanout: pre@.fanout.remove(t),
            fanout_used: pre@.fanout_used.remove(t),
            history: pre@.history.remove(t),
            outbox: pre@.outbox + sent,
            ..pre@
        }
    }
}

/// The frames queued after the first `n`.
pub open spec fn sent_after(post: NodeView, n: nat) -> Seq<(Seq<char>, MessageView)> {
    post.outbox.skip(n as int)
}

impl GossipSubNode {
    /// The peers that a mesh expansion of `t` at `now` grafts: none for a
    /// topic not joined, else the first eligible peers, as many as the mesh
    /// lacks to reach its target size.
    pub open spec fn graft_selection(&self, t: Seq<char>, now: u64) -> Seq<Seq<char>> {
        let size = self.mesh_seq(t).len();
        if !self@.topics.contains(t) || size >= self.config.mesh_size {
            Seq::empty()
        } else {
            first_n(self.candidates(t, now, false), self.config.mesh_size - size)
        }
    }

    /// How many peers a contraction of the mesh of `t` prunes.
    pub open spec fn excess(&self, t: Seq<char>) -> int {
        if self.mesh_seq(t).len() > self.config.mesh_size {
            self.mesh_seq(t).len() - self.config.mesh_size
        } else {
            0
        }
    }

    /// The peers a contraction of the mesh of `t` prunes: the longest-standing ones.
    pub open spec fn prune_selection(&self, t: Seq<char>) -> Seq<Seq<char>> {
        self.mesh_seq(t).take(self.excess(t))
    }

    /// Adds `p` to the mesh of `t`, creating that mesh if needed.
    fn mesh_add(&mut self, t: &String, p: String)
        requires
            old(self).tables_wf(),
        ensures
            final(self).tables_wf(),
            final(self)@ == (NodeView {
                mesh: old(self)@.mesh.insert(t@, old(self)@.mesh_of(t@).insert(p@)),
                ..old(self)@
            }),
            final(self).mesh_seq(t@) == (if old(self).mesh_seq(t@).contains(p@) {
                old(self).mesh_seq(t@)
            } else {
                old(self).mesh_seq(t@).push(p@)
            }),
            forall|u: Seq<char>| u != t@ ==> #[trigger] final(self).mesh_seq(u) == old(self).mesh_seq(u),
            *final(self) == (GossipSubNode { mesh: final(self).mesh, ..*old(self) }),
    {
        let ghost pv = p@;
        let mut l = match self.mesh.remove(t) {
            Some(l) => l,
            None => IdList::new(),
        };
        assert(l@ == old(self).mesh_seq(t@));
        assert(l.set() == old(self)@.mesh_of(t@)) by {
            if !old(self).mesh@.contains_key(t@) {
                assert(l.set() =~= Set::empty());
            }
        }
        l.insert(p);
        let ghost lv = l;
        self.mesh.insert(t.clone(), l);
        proof {
            assert(self.mesh@ =~= old(self).mesh@.insert(t@, lv));
            lemma_map_values_insert(old(self).mesh@, t@, lv, |l: IdList| l.set());
            assert(self@.mesh =~= old(self)@.mesh.insert(t@, old(self)@.mesh_of(t@).insert(pv)));
        }
    }

    /// Removes `p` from the mesh of `t`, if that mesh exists.
    pub(crate) fn mesh_drop(&mut self, t: &String, p: &String)
        requires
            old(self).tables_wf(),
        ensures
            final(self).tables_wf(),
            final(self)@ == (NodeView {
                mesh: if old(self)@.mesh.contains_key(t@) {
                    old(self)@.mesh.insert(t@, old(self)@.mesh[t@].remove(p@))
                } else {
                    old(self)@.mesh
                },
                ..old(self)@
            }),
            final(self).mesh_seq(t@).len() == (if old(self).mesh_seq(t@).contains(p@) {
                old(self).mesh_seq(t@).len() - 1
            } else {
                old(self).mesh_seq(t@).len() as int
            }),
            forall|u: Seq<char>| u != t@ ==> #[trigger] final(self).mesh_seq(u) == old(self).mesh_seq(u),
            *final(self) == (GossipSubNode { mesh: final(self).mesh, ..*old(self) }),
    {
        match self.mesh.find(t) {
            Some(i) => {
                let mut l = self.mesh.replace_at(i, IdList::new());
                l.remove(p);
                let ghost lv = l;
                self.mesh.replace_at(i, l);
                proof {
                    lemma_map_values_insert(old(self).mesh@, t@, lv, |l: IdList| l.set());
                    assert(self@.mesh =~= old(self)@.mesh.insert(t@, old(self)@.mesh[t@].remove(p@)));
                }
            },
            None => {},
        }
    }

    /// Grows the mesh of `topic` towards its target size with the first
    /// eligible peers, sending each a GRAFT. A topic not joined is left alone.
    pub fn expand_mesh_at(&mut self, topic: &String, now: u64)
        requires
            old(self).wf(),
        ensures
            final(self).wf(),
            expanded(*old(self), final(self)@, topic@, now),
            final(self).peers == old(self).peers,
            final(self).mesh_seq(topic@).len() == old(self).mesh_seq(topic@).len()
                + old(self).graft_selection(topic@, now).len(),
            forall|u: Seq<char>| u != topic@ ==> #[trigger] final(self).mesh_seq(u) == old(self).mesh_seq(u),
    {
        let ghost o = *old(self);
        let ghost n0 = o@.outbox.len();
        proof {
            o.lemma_mesh_len(topic@);
        }
        if !self.topics.contains(topic) {
            assert(self@.outbox.skip(n0 as int) =~= Seq::empty());
            assert(self@.mesh_of(topic@) + Seq::<Seq<char>>::empty().to_set() =~= self@.mesh_of(topic@));
            assert(backoff_clear_all(o@.prune_backoff, topic@, Set::empty()) =~= o@.prune_backoff) by {
                if o@.prune_backoff.contains_key(topic@) {
                    assert(o@.prune_backoff[topic@].remove_keys(Set::empty()) =~= o@.prune_backoff[topic@]);
                }
            }
            assert(self@.outbox + Seq::empty() =~= self@.outbox);
            return;
        }
        let size = self.get_mesh_size(topic.as_str());
        if size >= self.config.mesh_size {
            assert(Seq::<Seq<char>>::empty().to_set() =~= Set::empty());
            assert(self@.outbox.skip(n0 as int) =~= Seq::empty());
            assert(backoff_clear_all(o@.prune_backoff, topic@, Set::empty()) =~= o@.prune_backoff) by {
                if o@.prune_backoff.contains_key(topic@) {
                    assert(o@.prune_backoff[topic@].remove_keys(Set::empty()) =~= o@.prune_backoff[topic@]);
                }
            }
            assert(self@.outbox + Seq::empty() =~= self@.outbox);
            return;
        }
        let needed = self.config.mesh_size - size;
        let sel = self.select_peers(topic, now, needed, false);
        let ghost s = str_views(sel@);
        proof {
            assert(s == o.graft_selection(topic@, now));
            o.peers.lemma_keys();
            let pred = |p: Seq<char>| o.selectable(topic@, p, now, false);
            let c = o.peers.key_seq().filter(pred);
            lemma_filter_no_dup(o.peers.key_seq(), pred);
            assert forall|k: int| 0 <= k < s.len() implies o@.eligible(topic@, #[trigger] s[k], now) by {
                o.peers.key_seq().lemma_filter_pred(pred, k);
                assert(s[k] == c[k]);
            }
            assert(s.no_duplicates()) by {
                assert forall|a: int, b: int| 0 <= a < s.len() && 0 <= b < s.len() && a != b implies s[a] != s[b] by {
                    assert(s[a] == c[a] && s[b] == c[b]);
                }
            }
            assert(self@.outbox.skip(n0 as int) =~= Seq::empty());
            assert(s.take(0) =~= Seq::<Seq<char>>::empty());
            assert(self@.outbox + Seq::empty() =~= self@.outbox);
            assert(backoff_clear_all(o@.prune_backoff, topic@, Set::empty()) =~= o@.prune_backoff) by {
                if o@.prune_backoff.contains_key(topic@) {
                    assert(o@.prune_backoff[topic@].remove_keys(Set::empty()) =~= o@.prune_backoff[topic@]);
                }
            }
            assert(Seq::<Seq<char>>::empty().to_set() =~= Set::empty());
        }
        let mut j: usize = 0;
        while j < sel.len()
            invariant
                self.tables_wf(),
                o.wf(),
                j <= sel.len(),
                s == str_views(sel@),
                s.no_duplicates(),
                forall|k: int| 0 <= k < s.len() ==> o@.eligible(topic@, #[trigger] s[k], now),
                o@.topics.contains(topic@),
                n0 == o@.outbox.len(),
                self@ == grafted(o@, topic@, s.take(j as int), sent_after(self@, n0)),
                control_frames(sent_after(self@, n0), s.take(j as int), MessageType::Graft, topic@, o@.node_id, now),
                self.mesh_seq(topic@).len() == o.mesh_seq(topic@).len() + j,
                forall|u: Seq<char>| u != topic@ ==> #[trigger] self.mesh_seq(u) == o.mesh_seq(u),
                self.peers == o.peers,
            decreases sel.len() - j,
        {
            let p = &sel[j];
            let ghost pv = p@;
            let ghost prev = *self;
            let ghost sj = s.take(j as int);
            let f = self.control_frame(MessageType::Graft, topic, p, now);
            self.send_message_to_peer(p, f);
            let ghost sent = *self;
            self.mesh_add(topic, p.clone());
            let ghost added = *self;
            table_clear(&mut self.prune_backoff, topic, p);
            proof {
                assert(self.mesh == added.mesh);
                assert(sent.mesh == prev.mesh);
                assert forall|u: Seq<char>| u != topic@ implies #[trigger] self.mesh_seq(u) == o.mesh_seq(u) by {
                    assert(added.mesh_seq(u) == sent.mesh_seq(u));
                    assert(sent.mesh_seq(u) == prev.mesh_seq(u));
                    assert(prev.mesh_seq(u) == o.mesh_seq(u));
                }
                let sj1 = s.take(j + 1);
                assert(pv == s[j as int]);
                assert(sj1 =~= sj.push(pv));
                // The peer is new to the mesh.
                prev.lemma_mesh_len(topic@);
                o.lemma_mesh_len(topic@);
                assert(!sj.contains(pv)) by {
                    if sj.contains(pv) {
                        let k = choose|k: int| 0 <= k < sj.len() && sj[k] == pv;
                        assert(s[k] == s[j as int]);
                    }
                }
                assert(prev@.mesh_of(topic@) =~= o@.mesh_of(topic@) + sj.to_set());
                assert(o@.eligible(topic@, s[j as int], now));
                assert(!o@.mesh_of(topic@).contains(pv));
                assert(!sj.to_set().contains(pv));
                assert(!prev@.mesh_of(topic@).contains(pv));
                assert(!prev.mesh_seq(topic@).contains(pv));
                // The view moved one step.
                sj.lemma_push_to_set_commute(pv);
                assert(sj1.to_set() =~= sj.to_set().insert(pv));
                assert((o@.mesh_of(topic@) + sj.to_set()).insert(pv) =~= o@.mesh_of(topic@) + sj1.to_set());
                assert(self@.mesh =~= grafted(o@, topic@, sj1, sent_after(self@, n0)).mesh);
                assert(self@.prune_backoff =~= backoff_clear_all(o@.prune_backoff, topic@, sj1.to_set())) by {
                    if o@.prune_backoff.contains_key(topic@) {
                        assert(o@.prune_backoff[topic@].remove_keys(sj.to_set()).remove(pv)
                            =~= o@.prune_backoff[topic@].remove_keys(sj1.to_set()));
                    }
                }
                let fr = sent_after(self@, n0);
                assert(fr =~= sent_after(prev@, n0).push(fr.last()));
                assert(self@.outbox =~= o@.outbox + fr);
                assert(self@ == grafted(o@, topic@, sj1, fr));
                assert(control_frames(fr, sj1, MessageType::Graft, topic@, o@.node_id, now)) by {
                    assert forall|i: int| 0 <= i < fr.len() implies (#[trigger] fr[i]).0 == sj1[i] && crate::node::is_frame(
                        fr[i].1, MessageType::Graft, topic@, o@.node_id, sj1[i], now, Seq::empty()) by {
                        if i < fr.len() - 1 {
                            assert(fr[i] == sent_after(prev@, n0)[i]);
                        }
                    }
                }
            }
            j += 1;
        }
        proof {
            assert(s.take(j as int) =~= s);
            let v = self@;
            o.lemma_mesh_len(topic@);
            assert forall|t: Seq<char>, q: Seq<char>|
                v.mesh.contains_key(t) && #[trigger] v.mesh[t].contains(q) implies v.peers.contains_key(q)
                    && backoff_expiry(v.prune_backoff, t, q).is_none() by {
                if t == topic@ && s.len() > 0 {
                    if s.to_set().contains(q) {
                        let k = choose|k: int| 0 <= k < s.len() && s[k] == q;
                        assert(o@.eligible(topic@, s[k], now));
                    } else {
                        assert(o@.mesh_of(t).contains(q));
                    }
                } else {
                    assert(o@.mesh.contains_key(t) && o@.mesh[t].contains(q));
                }
            }
            assert forall|t: Seq<char>| #[trigger] v.mesh.contains_key(t) implies v.topics.contains(t) by {
                if t != topic@ {
                    assert(o@.mesh.contains_key(t));
                }
            }
        }
    }

    /// Sends PRUNE on `topic` to `peer_id`, drops it from that mesh, and bars
    /// it from rejoining for the PRUNE back-off.
    fn prune_peer_from_mesh(&mut self, topic: &String, peer_id: &String, now: u64)
        requires
            old(self).tables_wf(),
        ensures
            final(self).tables_wf(),
            final(self)@.outbox.len() == old(self)@.outbox.len() + 1,
            final(self)@.outbox.drop_last() == old(self)@.outbox,
            final(self)@.outbox.last().0 == peer_id@,
            crate::node::is_frame(final(self)@.outbox.last().1, MessageType::Prune, topic@, old(self)@.node_id, peer_id@, now, Seq::empty()),
            final(self)@ == (NodeView {
                mesh: if old(self)@.mesh.contains_key(topic@) {
                    old(self)@.mesh.insert(topic@, old(self)@.mesh[topic@].remove(peer_id@))
                } else {
                    old(self)@.mesh
                },
                prune_backoff: backoff_set(old(self)@.prune_backoff, topic@, peer_id@, sat_add(now, old(self).config.prune_backoff)),
                outbox: final(self)@.outbox,
                ..old(self)@
            }),
            final(self).mesh_seq(topic@).len() == (if old(self).mesh_seq(topic@).contains(peer_id@) {
                old(self).mesh_seq(topic@).len() - 1
            } else {
                old(self).mesh_seq(topic@).len() as int
            }),
            forall|u: Seq<char>| u != topic@ ==> #[trigger] final(self).mesh_seq(u) == old(self).mesh_seq(u),
            final(self).peers == old(self).peers,
    {
        let f = self.control_frame(MessageType::Prune, topic, peer_id, now);
        self.send_message_to_peer(peer_id, f);
        let ghost sent = *self;
        self.mesh_drop(topic, peer_id);
        let ghost dropped = *self;
        let until = now.saturating_add(self.config.prune_backoff);
        table_set(&mut self.prune_backoff, topic, peer_id, until);
        proof {
            assert(self@.outbox.drop_last() =~= old(self)@.outbox);
            assert forall|u: Seq<char>| u != topic@ implies #[trigger] self.mesh_seq(u) == old(self).mesh_seq(u) by {
                assert(dropped.mesh_seq(u) == sent.mesh_seq(u));
            }
        }
    }

    /// Shrinks the mesh of `topic` to its target size, pruning the
    /// longest-standing peers first.
    pub fn contract_mesh_at(&mut self, topic: &String, now: u64)
        requires
            old(self).wf(),
        ensures
            final(self).wf(),
            contracted(*old(self), final(self)@, topic@, now),
            final(self).peers == old(self).peers,
            final(self).mesh_seq(topic@).len() == old(self).mesh_seq(topic@).len() - old(self).excess(topic@),
            forall|u: Seq<char>| u != topic@ ==> #[trigger] final(self).mesh_seq(u) == old(self).mesh_seq(u),
    {
        let ghost o = *old(self);
        let ghost n0 = o@.outbox.len();
        let ghost e = sat_add(now, o.config.prune_backoff);
        proof {
            o.lemma_mesh_len(topic@);
        }
        let members = match self.mesh.get(topic) {
            Some(l) => l.to_vec(),
            None => Vec::new(),
        };
        let size = members.len();
        let ghost ms = o.mesh_seq(topic@);
        assert(str_views(members@) == ms) by {
            if !o.mesh@.contains_key(topic@) {
                assert(str_views(members@) =~= Seq::<Seq<char>>::empty());
            }
        }
        let k = if size > self.config.mesh_size { size - self.config.mesh_size } else { 0 };
        let ghost vs = o.prune_selection(topic@);
        proof {
            assert(self@.outbox.skip(n0 as int) =~= Seq::empty());
            assert(self@.outbox + Seq::empty() =~= self@.outbox);
            assert(vs.take(0) =~= Seq::<Seq<char>>::empty());
        }
        let mut j: usize = 0;
        while j < k
            invariant
                self.tables_wf(),
                o.wf(),
                j <= k,
                k == o.excess(topic@),
                k <= size,
                size == ms.len(),
                ms == o.mesh_seq(topic@),
                ms.no_duplicates(),
                str_views(members@) == ms,
                vs == ms.take(k as int),
                n0 == o@.outbox.len(),
                e == sat_add(now, o.config.prune_backoff),
                self.config == o.config,
                self@ == pruned(o@, topic@, vs.take(j as int), e, sent_after(self@, n0)),
                control_frames(sent_after(self@, n0), vs.take(j as int), MessageType::Prune, topic@, o@.node_id, now),
                self.mesh_seq(topic@).len() == ms.len() - j,
                self.mesh_seq(topic@).to_set() == ms.to_set() - vs.take(j as int).to_set(),
                forall|u: Seq<char>| u != topic@ ==> #[trigger] self.mesh_seq(u) == o.mesh_seq(u),
                self.peers == o.peers,
            decreases k - j,
        {
            let p = &members[j];
            let ghost pv = p@;
            let ghost prev = *self;
            let ghost sj = vs.take(j as int);
            self.prune_peer_from_mesh(topic, p, now);
            proof {
                let sj1 = vs.take(j + 1);
                assert(pv == ms[j as int]);
                assert(pv == vs[j as int]);
                assert(sj1 =~= sj.push(pv));
                sj.lemma_push_to_set_commute(pv);
                assert(!sj.contains(pv)) by {
                    if sj.contains(pv) {
                        let i = choose|i: int| 0 <= i < sj.len() && sj[i] == pv;
                        assert(ms[i] == ms[j as int]);
                    }
                }
                assert(ms.to_set().contains(pv));
                assert(prev.mesh_seq(topic@).contains(pv)) by {
                    assert(prev.mesh_seq(topic@).to_set().contains(pv));
                }
                assert(self.mesh_seq(topic@).to_set() =~= ms.to_set() - sj1.to_set()) by {
                    self.lemma_mesh_len(topic@);
                    prev.lemma_mesh_len(topic@);
                }
                o.lemma_mesh_len(topic@);
                assert(o@.mesh.contains_key(topic@));
                assert(prev@.mesh.contains_key(topic@));
                assert(prev@.mesh_of(topic@) == prev.mesh_seq(topic@).to_set()) by {
                    prev.lemma_mesh_len(topic@);
                }
                assert(self@.mesh =~= o@.mesh.insert(topic@, o@.mesh_of(topic@) - sj1.to_set())) by {
                    assert(prev@.mesh[topic@].remove(pv) =~= o@.mesh_of(topic@) - sj1.to_set());
                }
                let target = backoff_set_all(o@.prune_backoff, topic@, sj1.to_set(), e);
                assert(self@.prune_backoff =~= target) by {
                    assert(self@.prune_backoff == backoff_set(prev@.prune_backoff, topic@, pv, e));
                    if j > 0 {
                        assert(prev@.prune_backoff == backoff_set_all(o@.prune_backoff, topic@, sj.to_set(), e));
                        assert(prev@.prune_backoff[topic@].insert(pv, e) =~= target[topic@]);
                    } else {
                        assert(prev@.prune_backoff == o@.prune_backoff);
                        let inner = if o@.prune_backoff.contains_key(topic@) { o@.prune_backoff[topic@] } else { Map::empty() };
                        assert(inner.insert(pv, e) =~= target[topic@]);
                    }
                }
                let fr = sent_after(self@, n0);
                assert(prev@.outbox == o@.outbox + sent_after(prev@, n0)) by {
                    if sj.len() == 0 {
                    } else {
                    }
                }
                assert(self@.outbox =~= prev@.outbox.push(self@.outbox.last()));
                assert(fr =~= sent_after(prev@, n0).push(fr.last()));
                assert(self@.outbox =~= o@.outbox + fr);
                assert(self@ == pruned(o@, topic@, sj1, e, fr));
                assert(control_frames(fr, sj1, MessageType::Prune, topic@, o@.node_id, now)) by {
                    assert forall|i: int| 0 <= i < fr.len() implies (#[trigger] fr[i]).0 == sj1[i] && crate::node::is_frame(
                        fr[i].1, MessageType::Prune, topic@, o@.node_id, sj1[i], now, Seq::empty()) by {
                        if i < fr.len() - 1 {
                            assert(fr[i] == sent_after(prev@, n0)[i]);
                        }
                    }
                }
                assert forall|u: Seq<char>| u != topic@ implies #[trigger] self.mesh_seq(u) == o.mesh_seq(u) by {
                    assert(prev.mesh_seq(u) == o.mesh_seq(u));
                }
            }
            j += 1;
        }
        proof {
            assert(vs.take(k as int) =~= vs);
            let v = self@;
            self.lemma_mesh_len(topic@);
            assert forall|t: Seq<char>, q: Seq<char>|
                v.mesh.contains_key(t) && #[trigger] v.mesh[t].contains(q) implies v.peers.contains_key(q)
                    && backoff_expiry(v.prune_backoff, t, q).is_none() by {
                assert(o@.mesh.contains_key(t) && o@.mesh[t].contains(q));
                if t == topic@ && vs.len() > 0 {
                    assert(!vs.to_set().contains(q));
                }
            }
            assert forall|t: Seq<char>| #[trigger] v.mesh.contains_key(t) implies v.topics.contains(t) by {
                assert(o@.mesh.contains_key(t));
            }
        }
    }

    /// Whether a GRAFT from `peer_id` on `topic` at `now` comes within the
    /// flood window of the previous one.
    fn is_graft_flooding(&self, topic: &String, peer_id: &String, now: u64) -> (r: bool)
        requires
            self.tables_wf(),
        ensures
            r == self@.graft_flooding(topic@, peer_id@, now),
    {
        match self.graft_requests.get(topic) {
            Some(inner) => match inner.get(peer_id) {
                Some(last) => {
                    let last = *last;
                    if now < last {
                        true
                    } else {
                        now - last < self.config.graft_flood_threshold
                    }
                },
                None => false,
            },
            None => false,
        }
    }

    /// Queues a PRUNE on `topic` for `peer_id`.
    fn reply_prune(&mut self, topic: &String, peer_id: &String, now: u64)
        requires
            old(self).tables_wf(),
        ensures
            final(self).tables_wf(),
            replied_prune(old(self)@, final(self)@, topic@, peer_id@, now),
            final(self)@ == (NodeView { outbox: final(self)@.outbox, ..old(self)@ }),
            *final(self) == (GossipSubNode { outbox: final(self).outbox, ..*old(self) }),
    {
        let f = self.control_frame(MessageType::Prune, topic, peer_id, now);
        self.send_message_to_peer(peer_id, f);
        assert(self@.outbox.drop_last() =~= old(self)@.outbox);
    }

    /// Handles a GRAFT on `topic` from the connected peer `from_peer`.
    pub(crate) fn handle_graft_message(&mut self, topic: &String, from_peer: &String, now: u64)
        requires
            old(self).wf(),
            old(self)@.peers.contains_key(from_peer@),
        ensures
            final(self).wf(),
            graft_step(old(self)@, final(self)@, topic@, from_peer@, now),
    {
        let ghost o = *old(self);
        if !self.topics.contains(topic) {
            self.reply_prune(topic, from_peer, now);
            return;
        }
        let flooding = self.is_graft_flooding(topic, from_peer, now);
        table_set(&mut self.graft_requests, topic, from_peer, now);
        if flooding {
            self.reply_prune(topic, from_peer, now);
            let until = now.saturating_add(self.config.graft_backoff);
            table_set(&mut self.graft_backoff, topic, from_peer, until);
            proof {
                lemma_consistent_frame(o@, self@);
            }
            return;
        }
        let barred = self.is_peer_in_backoff(topic, from_peer, false, now);
        let size = self.get_mesh_size(topic.as_str());
        if barred || size >= self.config.mesh_high {
            self.reply_prune(topic, from_peer, now);
            proof {
                lemma_consistent_frame(o@, self@);
            }
            return;
        }
        self.mesh_add(topic, from_peer.clone());
        table_clear(&mut self.prune_backoff, topic, from_peer);
        proof {
            let v = self@;
            assert(v.peers == o@.peers);
            assert(v.history == o@.history);
            assert(v.config == o@.config);
            assert(v.topics == o@.topics);
            assert forall|t: Seq<char>, q: Seq<char>|
                v.mesh.contains_key(t) && #[trigger] v.mesh[t].contains(q) implies v.peers.contains_key(q)
                    && backoff_expiry(v.prune_backoff, t, q).is_none() by {
                if t != topic@ || q != from_peer@ {
                    assert(o@.mesh.contains_key(t) && o@.mesh[t].contains(q));
                }
            }
            assert forall|u: Seq<char>| #[trigger] v.fanout.contains_key(u) implies v.topics.contains(u) by {
                assert(o@.fanout.contains_key(u));
            }
            assert forall|t: Seq<char>| #[trigger] v.mesh.contains_key(t) implies v.topics.contains(t) by {
                if t != topic@ {
                    assert(o@.mesh.contains_key(t));
                }
            }
        }
    }

    /// Handles a PRUNE on `topic` from `from_peer`.
    pub(crate) fn handle_prune_message(&mut self, topic: &String, from_peer: &String, now: u64)
        requires
            old(self).wf(),
        ensures
            final(self).wf(),
            prune_step(old(self)@, final(self)@, topic@, from_peer@, now),
    {
        let ghost o = *old(self);
        self.mesh_drop(topic, from_peer);
        let until = now.saturating_add(self.config.graft_backoff);
        table_set(&mut self.graft_backoff, topic, from_peer, until);
        proof {
            let v = self@;
            assert forall|t: Seq<char>, q: Seq<char>|
                v.mesh.contains_key(t) && #[trigger] v.mesh[t].contains(q) implies v.peers.contains_key(q)
                    && backoff_expiry(v.prune_backoff, t, q).is_none() by {
                assert(o@.mesh.contains_key(t) && o@.mesh[t].contains(q));
            }
            assert forall|t: Seq<char>| #[trigger] v.mesh.contains_key(t) implies v.topics.contains(t) by {
                assert(o@.mesh.contains_key(t));
            }
        }
    }

    /// Joins `topic` at `now`: the topic is added with an empty mesh, which is
    /// then filled with up to `mesh_size` eligible peers, each sent a GRAFT.
    /// Joining a topic already joined changes nothing. Every connected peer
    /// counts as a subscriber of every topic. Only joined topics have a
    /// fanout (the invariant says so: publishing needs the topic joined, and
    /// leaving drops it), so a topic being joined has no fanout to absorb,
    /// and the joined topic is left without one.
    pub fn subscribe_at(&mut self, topic: String, now: u64)
        requires
            old(self).wf(),
        ensures
            final(self).wf(),
            subscribed(*old(self), final(self)@, topic@, now),
            !old(self)@.topics.contains(topic@) ==> !final(self)@.fanout.contains_key(topic@),
    {
        let ghost o = *old(self);
        if self.topics.contains(&topic) {
            return;
        }
        self.topics.insert(topic.clone());
        assert(!o@.fanout.contains_key(topic@));
        let empty = IdList::new();
        let ghost lv = empty;
        self.mesh.insert(topic.clone(), empty);
        proof {
            assert(!o@.mesh.contains_key(topic@));
            lemma_map_values_insert(o.mesh@, topic@, lv, |l: IdList| l.set());
            assert(lv.set() =~= Set::empty());
            let v = self@;
            assert forall|t: Seq<char>, q: Seq<char>|
                v.mesh.contains_key(t) && #[trigger] v.mesh[t].contains(q) implies v.peers.contains_key(q)
                    && backoff_expiry(v.prune_backoff, t, q).is_none() by {
                assert(t != topic@);
                assert(o@.mesh.contains_key(t) && o@.mesh[t].contains(q));
            }
            assert forall|t: Seq<char>| #[trigger] v.mesh.contains_key(t) implies v.topics.contains(t) by {
                if t != topic@ {
                    assert(o@.mesh.contains_key(t));
                }
            }
            assert(v.history == o@.history);
            assert(v.config == o@.config);
            assert forall|u: Seq<char>| #[trigger] v.history.contains_key(u) implies v.history[u].len() <= v.config.history_limit() by {
                assert(o@.history.contains_key(u));
            }
            assert forall|u: Seq<char>| #[trigger] v.fanout.contains_key(u) implies v.topics.contains(u) by {
                assert(o@.fanout.contains_key(u));
            }
            assert(self.wf());
            assert(self.mesh_seq(topic@) =~= Seq::<Seq<char>>::empty());
            let f1 = |p: Seq<char>| self.selectable(topic@, p, now, false);
            let f2 = |p: Seq<char>| o.selectable(topic@, p, now, false);
            assert(f1 =~= f2);
            assert(self.candidates(topic@, now, false) == o.candidates(topic@, now, false));
            let c = o.candidates(topic@, now, false);
            if o.config.mesh_size == 0 {
                assert(first_n(c, 0) =~= Seq::<Seq<char>>::empty());
            }
        }
        self.expand_mesh_at(&topic, now);
    }

    /// Leaves `topic` at `now`: every mesh peer of it is sent a PRUNE, and its
    /// mesh, fanout and history are dropped. Leaving a topic not joined
    /// changes nothing.
    pub fn unsubscribe_at(&mut self, topic: &str, now: u64)
        requires
            old(self).wf(),
        ensures
            final(self).wf(),
            unsubscribed(*old(self), final(self)@, topic@, now),
    {
        let ghost o = *old(self);
        let t = topic.to_owned();
        if !self.topics.contains(&t) {
            return;
        }
        let members = match self.mesh.get(&t) {
            Some(l) => l.to_vec(),
            None => Vec::new(),
        };
        assert(str_views(members@) == o.mesh_seq(t@)) by {
            if !o.mesh@.contains_key(t@) {
                assert(str_views(members@) =~= Seq::<Seq<char>>::empty());
            }
        }
        let no_ids: Vec<String> = Vec::new();
        assert(str_views(no_ids@) =~= Seq::<Seq<char>>::empty());
        self.send_to_all(&members, MessageType::Prune, &t, &no_ids, now);
        self.topics.remove(&t);
        let ghost m0 = self.mesh@;
        self.mesh.remove(&t);
        let ghost f0 = self.fanout@;
        self.fanout.remove(&t);
        let ghost h0 = self.gossip_history@;
        self.gossip_history.remove(&t);
        proof {
            lemma_map_values_remove(m0, t@, |l: IdList| l.set());
            lemma_map_values_remove(f0, t@, |f: FanoutEntry| f.peers.set());
            lemma_map_values_remove(f0, t@, |f: FanoutEntry| f.last_used);
            lemma_map_values_remove(h0, t@, |h: Vec<String>| str_views(h@));
            let v = self@;
            assert forall|u: Seq<char>, q: Seq<char>|
                v.mesh.contains_key(u) && #[trigger] v.mesh[u].contains(q) implies v.peers.contains_key(q)
                    && backoff_expiry(v.prune_backoff, u, q).is_none() by {
                assert(o@.mesh.contains_key(u) && o@.mesh[u].contains(q));
            }
            assert forall|u: Seq<char>| #[trigger] v.mesh.contains_key(u) implies v.topics.contains(u) by {
                assert(o@.mesh.contains_key(u));
            }
            assert forall|u: Seq<char>| #[trigger] v.history.contains_key(u) implies v.history[u].len() <= v.config.history_limit() by {
                assert(o@.history.contains_key(u));
            }
        }
    }
}

} // verus!
