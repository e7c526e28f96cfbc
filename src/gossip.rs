use crate::collections::{
    copy_strs, first_n, lemma_filter_take_prefix, lemma_map_values_dom,
    lemma_map_values_insert, str_views, IdList,
};
use crate::mesh::sent_after;
use crate::order::{ids_ascending, sort_ids};
use crate::message::{opt_str_view, GossipMessage, MessageView};
use crate::node::{lemma_consistent_frame, copies_to, frames_listing, is_frame, CacheEntry, FanoutEntry, GossipSubNode, NodeView};
use crate::types::{GossipError, MessageType};
use vstd::prelude::*;

verus! {

/// `h` with `id` appended, and its oldest id dropped where it would then
/// exceed `limit`.
pub open spec fn history_append(h: Seq<Seq<char>>, id: Seq<char>, limit: int) -> Seq<Seq<char>> {
    let h2 = h.push(id);
    if h2.len() > limit {
        h2.drop_first()
    } else {
        h2
    }
}

/// The PUBLISH frame this node makes for `content` on `t`, with id `id`, at `now`.
pub open spec fn publish_frame(
    id: Seq<char>,
    t: Seq<char>,
    content: Seq<u8>,
    from: Seq<char>,
    now: u64,
) -> MessageView {
    MessageView {
        message_type: MessageType::Publish,
        message_id: id,
        timestamp: now,
        from: Some(from),
        to: None,
        topic: Some(t),
        content: Some(content),
        message_ids: Seq::empty(),
    }
}

/// `s` without `o`, where `o` names an element.
pub open spec fn skipped(s: Set<Seq<char>>, o: Option<Seq<char>>) -> Set<Seq<char>> {
    match o {
        Some(x) => s.remove(x),
        None => s,
    }
}

/// `frames` holds one copy of `m` for each peer of `peers`, in ascending
/// order of peer id.
pub open spec fn copies_in_id_order(
    frames: Seq<(Seq<char>, MessageView)>,
    peers: Set<Seq<char>>,
    m: MessageView,
) -> bool {
    let to = frames.map_values(|f: (Seq<char>, MessageView)| f.0);
    &&& forall|i: int| 0 <= i < frames.len() ==> (#[trigger] frames[i]).1 == m
    &&& ids_ascending(to)
    &&& to.to_set() == peers
}

/// The peers of `targets` other than `skip`, in order.
fn without_skip(targets: &Vec<String>, skip: &Option<String>) -> (r: Vec<String>)
    requires
        str_views(targets@).no_duplicates(),
    ensures
        str_views(r@).no_duplicates(),
        str_views(r@).to_set() == skipped(str_views(targets@).to_set(), opt_str_view(*skip)),
{
    let ghost ts = str_views(targets@);
    let ghost sk = opt_str_view(*skip);
    let mut r: Vec<String> = Vec::new();
    let mut i: usize = 0;
    while i < targets.len()
        invariant
            i <= targets.len(),
            ts == str_views(targets@),
            ts.no_duplicates(),
            sk == opt_str_view(*skip),
            str_views(r@).no_duplicates(),
            forall|y: Seq<char>| #[trigger] str_views(r@).contains(y) <==> ts.take(i as int).contains(y) && sk != Some(y),
        decreases targets.len() - i,
    {
        let p = &targets[i];
        let keep = match skip {
            Some(s) => *s != *p,
            None => true,
        };
        let ghost before = str_views(r@);
        let ghost x = ts[i as int];
        if keep {
            r.push(p.clone());
        }
        proof {
            let t0 = ts.take(i as int);
            let t1 = ts.take(i + 1);
            assert(t1 =~= t0.push(x));
            assert forall|y: Seq<char>| t1.contains(y) <==> t0.contains(y) || y == x by {
                if t1.contains(y) {
                    let k = choose|k: int| 0 <= k < t1.len() && t1[k] == y;
                    if k < i {
                        assert(t0[k] == y);
                    }
                }
                if t0.contains(y) {
                    let k = choose|k: int| 0 <= k < t0.len() && t0[k] == y;
                    assert(t1[k] == y);
                }
                if y == x {
                    assert(t1[i as int] == y);
                }
            }
            if keep {
                assert(str_views(r@) =~= before.push(x));
                assert(!before.contains(x)) by {
                    if before.contains(x) {
                        assert(t0.contains(x));
                        let k = choose|k: int| 0 <= k < t0.len() && t0[k] == x;
                        assert(ts[k] == ts[i as int]);
                    }
                }
                assert forall|y: Seq<char>| #[trigger] str_views(r@).contains(y) <==> before.contains(y) || y == x by {
                    if str_views(r@).contains(y) {
                        let k = choose|k: int| 0 <= k < str_views(r@).len() && str_views(r@)[k] == y;
                        if k < before.len() {
                            assert(before[k] == y);
                        }
                    }
                    if before.contains(y) {
                        let k = choose|k: int| 0 <= k < before.len() && before[k] == y;
                        assert(str_views(r@)[k] == y);
                    }
                    if y == x {
                        assert(str_views(r@)[before.len() as int] == y);
                    }
                }
            } else {
                assert(str_views(r@) =~= before);
            }
        }
        i += 1;
    }
    assert(ts.take(i as int) =~= ts);
    assert(str_views(r@).to_set() =~= skipped(ts.to_set(), sk));
    r
}

/// What an accepted PUBLISH `m` from peer `from` at `now` does. It is
/// cached. On a joined topic it is also delivered, recorded in the history,
/// and forwarded to every mesh peer but `from`, in ascending order of peer id.
pub open spec fn publish_step(
    pre: NodeView,
    post: NodeView,
    m: MessageView,
    from: Seq<char>,
    now: u64,
) -> bool {
    let t = m.topic.unwrap();
    let cached = NodeView { cache: pre.cache.insert(m.message_id, (m, now)), ..pre };
    if !pre.topics.contains(t) {
        post == cached
    } else {
        &&& copies_in_id_order(sent_after(post, pre.outbox.len()), pre.mesh_of(t).remove(from), m)
        &&& post == NodeView {
            delivered: pre.delivered.push(m),
            history: pre.history.insert(
                t,
                history_append(pre.history_of(t), m.message_id, pre.config.history_limit()),
            ),
            outbox: pre.outbox + sent_after(post, pre.outbox.len()),
            ..cached
        }
    }
}

/// What publishing `content` on the joined topic `t` with id `id` at `now`
/// does. The message is cached, marked seen and recorded in the history. It
/// goes to the mesh peers of `t`; where there are none, to the fanout peers
/// of `t`, which are first chosen among the eligible peers if `t` has none.
/// Either way the copies go out in ascending order of peer id.
pub open spec fn publish_local(
    pre: GossipSubNode,
    post: NodeView,
    t: Seq<char>,
    content: Seq<u8>,
    id: Seq<char>,
    now: u64,
) -> bool {
    let v = pre@;
    let m = publish_frame(id, t, content, v.node_id, now);
    let base = NodeView {
        cache: v.cache.insert(id, (m, now)),
        seen: v.seen.insert(id),
        history: v.history.insert(t, history_append(v.history_of(t), id, v.config.history_limit())),
        ..v
    };
    let sent = sent_after(post, v.outbox.len());
    if v.mesh_of(t).len() > 0 {
        &&& copies_in_id_order(sent, v.mesh_of(t), m)
        &&& post == NodeView { outbox: v.outbox + sent, ..base }
    } else if v.fanout.contains_key(t) {
        &&& copies_in_id_order(sent, v.fanout[t], m)
        &&& post == NodeView { outbox: v.outbox + sent, fanout_used: v.fanout_used.insert(t, now), ..base }
    } else {
        let sel = first_n(pre.candidates(t, now, false), pre.config.gossip_size as int);
        &&& copies_in_id_order(sent, sel.to_set(), m)
        &&& post == NodeView {
            outbox: v.outbox + sent,
            fanout: v.fanout.insert(t, sel.to_set()),
            fanout_used: v.fanout_used.insert(t, now),
            ..base
        }
    }
}

/// The ids of an IHAVE that this node asks for: those neither seen nor
/// cached, at most `max_ihave_length` of them, in the order advertised.
pub open spec fn wanted_ids(pre: NodeView, ids: Seq<Seq<char>>) -> Seq<Seq<char>> {
    first_n(
        ids.filter(|id: Seq<char>| !pre.seen.contains(id) && !pre.cache.contains_key(id)),
        pre.config.max_ihave_length as int,
    )
}

/// The IWANT table with each id of `ids` requested at `now`.
pub open spec fn record_requests(
    iwant: Map<Seq<char>, u64>,
    ids: Seq<Seq<char>>,
    now: u64,
) -> Map<Seq<char>, u64> {
    Map::new(
        |k: Seq<char>| iwant.contains_key(k) || ids.contains(k),
        |k: Seq<char>| if ids.contains(k) { now } else { iwant[k] },
    )
}

/// What an accepted IHAVE `m` from peer `from` at `now` does: on a joined
/// topic, the wanted ids are recorded as requested and asked for with one
/// IWANT to `from`; otherwise nothing.
pub open spec fn ihave_step(pre: NodeView, post: NodeView, m: MessageView, from: Seq<char>, now: u64) -> bool {
    let t = m.topic.unwrap();
    let w = wanted_ids(pre, m.message_ids);
    if !pre.topics.contains(t) || w.len() == 0 {
        post == pre
    } else {
        &&& post.outbox.len() == pre.outbox.len() + 1
        &&& post.outbox.drop_last() == pre.outbox
        &&& post.outbox.last().0 == from
        &&& is_frame(post.outbox.last().1, MessageType::IWant, t, pre.node_id, from, now, w)
        &&& post == NodeView { iwant: record_requests(pre.iwant, w, now), outbox: post.outbox, ..pre }
    }
}

/// `m` addressed to `to`.
pub open spec fn addressed(m: MessageView, to: Seq<char>) -> MessageView {
    MessageView { to: Some(to), ..m }
}

/// What an accepted IWANT `m` from peer `from` does: each requested id that
/// is cached, in the order requested, has its message sent to `from`.
pub open spec fn iwant_step(pre: NodeView, post: NodeView, m: MessageView, from: Seq<char>) -> bool {
    let served = m.message_ids.filter(|id: Seq<char>| pre.cache.contains_key(id));
    post == NodeView {
        outbox: pre.outbox + served.map_values(|id: Seq<char>| (from, addressed(pre.cache[id].0, from))),
        ..pre
    }
}

/// The last `g` ids of `h`, or all of them where there are fewer.
pub open spec fn recent_ids(h: Seq<Seq<char>>, g: int) -> Seq<Seq<char>> {
    if h.len() > g {
        h.subrange(h.len() - g, h.len() as int)
    } else {
        h
    }
}

/// What IHAVE emission on `t` at `now` does: where the history of `t` is not
/// empty, its last `gossip_size` ids go in one IHAVE to each of the first
/// `gossip_size` peers outside the mesh of `t`.
pub open spec fn ihave_emission(pre: GossipSubNode, post: NodeView, t: Seq<char>, now: u64) -> bool {
    let r = recent_ids(pre@.history_of(t), pre.config.gossip_size as int);
    if r.len() == 0 {
        post == pre@
    } else {
        &&& frames_listing(
            sent_after(post, pre@.outbox.len()),
            first_n(pre.candidates(t, now, true), pre.config.gossip_size as int),
            MessageType::IHave,
            t,
            pre@.node_id,
            now,
            r,
        )
        &&& post == NodeView { outbox: pre@.outbox + sent_after(post, pre@.outbox.len()), ..pre@ }
    }
}

/// What publishing `content` on `t` at `now` does, from `pre` to `post`,
/// returning `r`.
pub open spec fn published(
    pre: GossipSubNode,
    post: NodeView,
    t: Seq<char>,
    content: Seq<u8>,
    now: u64,
    r: Result<String, GossipError>,
) -> bool {
    if !pre@.topics.contains(t) {
        &&& post == pre@
        &&& r matches Err(GossipError::NotSubscribed(e)) && e@ == t
    } else {
        r matches Ok(id) && id@.len() == 36 && publish_local(pre, post, t, content, id@, now)
    }
}

impl GossipSubNode {
    /// The ids of `ids` this node wants, as `wanted_ids` states.
    fn wanted_from(&self, ids: &Vec<String>) -> (r: Vec<String>)
        requires
            self.tables_wf(),
        ensures
            str_views(r@) == wanted_ids(self@, str_views(ids@)),
    {
        let ghost is = str_views(ids@);
        let ghost pred = |id: Seq<char>| !self@.seen.contains(id) && !self@.cache.contains_key(id);
        let limit = self.config.max_ihave_length;
        let mut r: Vec<String> = Vec::new();
        let mut i: usize = 0;
        while i < ids.len() && r.len() < limit
            invariant
                self.tables_wf(),
                is == str_views(ids@),
                pred == (|id: Seq<char>| !self@.seen.contains(id) && !self@.cache.contains_key(id)),
                limit == self.config.max_ihave_length,
                i <= ids.len(),
                r@.len() <= limit,
                str_views(r@) == is.take(i as int).filter(pred),
            decreases ids.len() - i,
        {
            let id = &ids[i];
            let want = !self.seen_messages.contains(id) && !self.message_cache.contains_key(id);
            proof {
                lemma_map_values_dom(self.message_cache@, |e: CacheEntry| (e.message@, e.inserted_at), id@);
                assert(want == pred(is[i as int]));
            }
            let ghost before = r@;
            if want {
                r.push(id.clone());
            }
            proof {
                assert(is.take(i + 1) =~= is.take(i as int).push(is[i as int]));
                is.take(i as int).lemma_filter_push(is[i as int], pred);
                if want {
                    assert(str_views(r@) =~= str_views(before).push(is[i as int]));
                } else {
                    assert(str_views(r@) =~= str_views(before));
                }
            }
            i += 1;
        }
        proof {
            let c = is.filter(pred);
            lemma_filter_take_prefix(is, pred, i as int);
            assert(str_views(r@).len() == r@.len());
            if r@.len() < limit {
                assert(is.take(i as int) =~= is);
            } else if limit as int >= c.len() {
                assert(c.take(c.len() as int) =~= c);
            }
        }
        r
    }

    /// Handles an IHAVE, not seen before and carrying a topic, from `from_peer`.
    pub(crate) fn handle_ihave_message(&mut self, message: &GossipMessage, from_peer: &String, now: u64)
        requires
            old(self).wf(),
            message@.topic.is_some(),
        ensures
            final(self).wf(),
            ihave_step(old(self)@, final(self)@, message@, from_peer@, now),
    {
        let ghost o = *old(self);
        let topic = match &message.topic {
            Some(t) => t.clone(),
            None => {
                return;
            },
        };
        if !self.topics.contains(&topic) {
            return;
        }
        let wanted = self.wanted_from(&message.message_ids);
        if wanted.len() == 0 {
            return;
        }
        let ghost ws = str_views(wanted@);
        let mut j: usize = 0;
        assert(record_requests(o@.iwant, ws.take(0), now) =~= o@.iwant);
        while j < wanted.len()
            invariant
                self.tables_wf(),
                j <= wanted.len(),
                ws == str_views(wanted@),
                self.iwant_requests@ == record_requests(o@.iwant, ws.take(j as int), now),
                *self == (GossipSubNode { iwant_requests: self.iwant_requests, ..o }),
            decreases wanted.len() - j,
        {
            self.iwant_requests.insert(wanted[j].clone(), now);
            proof {
                let x = ws[j as int];
                assert(ws.take(j + 1) =~= ws.take(j as int).push(x));
                ws.take(j as int).lemma_push_to_set_commute(x);
                assert forall|k: Seq<char>| #[trigger] ws.take(j + 1).contains(k) <==> (ws.take(j as int).contains(k) || k == x) by {
                    assert(ws.take(j + 1).to_set().contains(k) == ws.take(j + 1).contains(k));
                    assert(ws.take(j as int).to_set().contains(k) == ws.take(j as int).contains(k));
                }
                assert(self.iwant_requests@ =~= record_requests(o@.iwant, ws.take(j + 1), now));
            }
            j += 1;
        }
        assert(ws.take(j as int) =~= ws);
        let f = self.control_frame(MessageType::IWant, &topic, from_peer, now).with_message_ids(wanted);
        self.send_message_to_peer(from_peer, f);
        proof {
            assert(self@.outbox.drop_last() =~= o@.outbox);
            assert(self@.history == o@.history);
            lemma_consistent_frame(o@, self@);
        }
    }

    /// Handles an IWANT from `from_peer`.
    pub(crate) fn handle_iwant_message(&mut self, message: &GossipMessage, from_peer: &String)
        requires
            old(self).wf(),
        ensures
            final(self).wf(),
            iwant_step(old(self)@, final(self)@, message@, from_peer@),
    {
        let ghost o = *old(self);
        let ghost is = message@.message_ids;
        let ghost pred = |id: Seq<char>| o@.cache.contains_key(id);
        let ghost f = |id: Seq<char>| (from_peer@, addressed(o@.cache[id].0, from_peer@));
        let ids = &message.message_ids;
        let mut j: usize = 0;
        assert(is.take(0).filter(pred).map_values(f) =~= Seq::empty()) by {
            reveal(Seq::filter);
        }
        assert(o@.outbox + Seq::empty() =~= o@.outbox);
        while j < ids.len()
            invariant
                self.tables_wf(),
                j <= ids.len(),
                is == str_views(ids@),
                pred == (|id: Seq<char>| o@.cache.contains_key(id)),
                f == (|id: Seq<char>| (from_peer@, addressed(o@.cache[id].0, from_peer@))),
                self@.cache == o@.cache,
                self@ == (NodeView { outbox: o@.outbox + is.take(j as int).filter(pred).map_values(f), ..o@ }),
                *self == (GossipSubNode { outbox: self.outbox, ..o }),
            decreases ids.len() - j,
        {
            let id = &ids[j];
            let ghost x = is[j as int];
            let copy = match self.message_cache.get(id) {
                Some(e) => Some(e.message.duplicate()),
                None => None,
            };
            proof {
                assert(id@ == x);
                lemma_map_values_dom(self.message_cache@, |e: CacheEntry| (e.message@, e.inserted_at), x);
                assert(is.take(j + 1) =~= is.take(j as int).push(x));
                is.take(j as int).lemma_filter_push(x, pred);
            }
            match copy {
                Some(c) => {
                    let addressed_copy = c.with_to(from_peer.clone());
                    self.send_message_to_peer(from_peer, addressed_copy);
                    proof {
                        let fs = is.take(j as int).filter(pred);
                        fs.lemma_push_map_commute(f, x);
                        assert(self@.outbox =~= o@.outbox + fs.push(x).map_values(f));
                    }
                },
                None => {},
            }
            j += 1;
        }
        proof {
            assert(is.take(j as int) =~= is);
            lemma_consistent_history(o@, self@);
        }
    }

    /// Queues the IHAVE emission on `topic` at `now`.
    pub(crate) fn send_ihave_messages(&mut self, topic: &String, now: u64)
        requires
            old(self).wf(),
        ensures
            final(self).wf(),
            ihave_emission(*old(self), final(self)@, topic@, now),
            *final(self) == (GossipSubNode { outbox: final(self).outbox, ..*old(self) }),
    {
        let ghost o = *old(self);
        let g = self.config.gossip_size;
        let mut recent: Vec<String> = Vec::new();
        match self.gossip_history.get(topic) {
            Some(h) => {
                let start = if h.len() > g { h.len() - g } else { 0 };
                let ghost hv = str_views(h@);
                let mut i = start;
                while i < h.len()
                    invariant
                        start <= i <= h.len(),
                        hv == str_views(h@),
                        str_views(recent@) == hv.subrange(start as int, i as int),
                    decreases h.len() - i,
                {
                    let ghost before = recent@;
                    recent.push(h[i].clone());
                    assert(str_views(recent@) =~= hv.subrange(start as int, i + 1)) by {
                        assert(str_views(recent@) =~= str_views(before).push(hv[i as int]));
                    }
                    i += 1;
                }
                proof {
                    assert(hv == o@.history_of(topic@));
                    if h.len() <= g {
                        assert(hv.subrange(0, hv.len() as int) =~= hv);
                    }
                }
            },
            None => {
                assert(str_views(recent@) =~= o@.history_of(topic@));
            },
        }
        assert(str_views(recent@) == recent_ids(o@.history_of(topic@), g as int));
        if recent.len() == 0 {
            return;
        }
        let targets = self.select_peers(topic, now, g, true);
        self.send_to_all(&targets, MessageType::IHave, topic, &recent, now);
        proof {
            lemma_consistent_history(o@, self@);
        }
    }

    /// Appends `message_id` to the history of `topic`, dropping the oldest
    /// id when the history would exceed its bound.
    fn add_to_gossip_history(&mut self, topic: &String, message_id: &String)
        requires
            old(self).wf(),
        ensures
            final(self).wf(),
            final(self)@ == (NodeView {
                history: old(self)@.history.insert(
                    topic@,
                    history_append(old(self)@.history_of(topic@), message_id@, old(self).config.history_limit()),
                ),
                ..old(self)@
            }),
            *final(self) == (GossipSubNode { gossip_history: final(self).gossip_history, ..*old(self) }),
    {
        let ghost o = *old(self);
        let mut h = match self.gossip_history.remove(topic) {
            Some(h) => h,
            None => Vec::new(),
        };
        let ghost h0 = str_views(h@);
        assert(h0 == o@.history_of(topic@)) by {
            if !o.gossip_history@.contains_key(topic@) {
                assert(h0 =~= Seq::<Seq<char>>::empty());
            }
        }
        h.push(message_id.clone());
        assert(str_views(h@) =~= h0.push(message_id@));
        if h.len() > self.config.gossip_size * 3 {
            h.remove(0);
            assert(str_views(h@) =~= h0.push(message_id@).drop_first());
        }
        let ghost hv = h;
        self.gossip_history.insert(topic.clone(), h);
        proof {
            assert(self.gossip_history@ =~= o.gossip_history@.insert(topic@, hv));
            lemma_map_values_insert(o.gossip_history@, topic@, hv, |h: Vec<String>| str_views(h@));
            let v = self@;
            assert forall|u: Seq<char>| #[trigger] v.history.contains_key(u) implies v.history[u].len() <= v.config.history_limit() by {
                if u != topic@ {
                    assert(o@.history.contains_key(u));
                } else if o@.history.contains_key(u) {
                    assert(o@.history[u].len() <= v.config.history_limit());
                }
            }
            lemma_consistent_history(o@, v);
        }
    }

    /// Queues a copy of `message` for each peer of `targets`, in order.
    fn send_copies(&mut self, targets: &Vec<String>, message: &GossipMessage)
        requires
            old(self).tables_wf(),
        ensures
            final(self).tables_wf(),
            final(self)@.outbox.len() >= old(self)@.outbox.len(),
            copies_to(sent_after(final(self)@, old(self)@.outbox.len()), str_views(targets@), message@),
            final(self)@ == (NodeView {
                outbox: old(self)@.outbox + sent_after(final(self)@, old(self)@.outbox.len()),
                ..old(self)@
            }),
            *final(self) == (GossipSubNode { outbox: final(self).outbox, ..*old(self) }),
    {
        let ghost o = *old(self);
        let ghost n0 = o@.outbox.len();
        let ghost ts = str_views(targets@);
        let mut j: usize = 0;
        assert(self@.outbox.skip(n0 as int) =~= Seq::empty());
        assert(self@.outbox + Seq::empty() =~= self@.outbox);
        while j < targets.len()
            invariant
                self.tables_wf(),
                j <= targets.len(),
                ts == str_views(targets@),
                n0 == o@.outbox.len(),
                self@.outbox.len() >= n0,
                copies_to(sent_after(self@, n0), ts.take(j as int), message@),
                self@ == (NodeView { outbox: o@.outbox + sent_after(self@, n0), ..o@ }),
                *self == (GossipSubNode { outbox: self.outbox, ..o }),
            decreases targets.len() - j,
        {
            let ghost prev = *self;
            let copy = message.duplicate();
            self.send_message_to_peer(&targets[j], copy);
            proof {
                let fr = sent_after(self@, n0);
                let pf = sent_after(prev@, n0);
                assert(fr =~= pf.push(fr.last()));
                assert(self@.outbox =~= o@.outbox + fr);
                let tj = ts.take(j + 1);
                assert forall|i: int| 0 <= i < fr.len() implies #[trigger] fr[i] == (tj[i], message@) by {
                    if i < fr.len() - 1 {
                        assert(fr[i] == pf[i]);
                    }
                }
            }
            j += 1;
        }
        assert(ts.take(j as int) =~= ts);
    }

    /// Queues a copy of `message` for each peer of `targets` other than
    /// `skip`, in ascending order of peer id.
    fn forward_copies(&mut self, targets: &Vec<String>, message: &GossipMessage, skip: &Option<String>)
        requires
            old(self).tables_wf(),
            str_views(targets@).no_duplicates(),
        ensures
            final(self).tables_wf(),
            final(self)@.outbox.len() >= old(self)@.outbox.len(),
            copies_in_id_order(
                sent_after(final(self)@, old(self)@.outbox.len()),
                skipped(str_views(targets@).to_set(), opt_str_view(*skip)),
                message@,
            ),
            final(self)@ == (NodeView {
                outbox: old(self)@.outbox + sent_after(final(self)@, old(self)@.outbox.len()),
                ..old(self)@
            }),
            *final(self) == (GossipSubNode { outbox: final(self).outbox, ..*old(self) }),
    {
        let kept = without_skip(targets, skip);
        let order = sort_ids(kept);
        let ghost n0 = old(self)@.outbox.len();
        self.send_copies(&order, message);
        proof {
            let sent = sent_after(self@, n0);
            let to = sent.map_values(|f: (Seq<char>, MessageView)| f.0);
            assert(to =~= str_views(order@));
        }
    }

    /// Caches `message` under its id with the time `now`.
    fn cache_message(&mut self, message: &GossipMessage, now: u64)
        requires
            old(self).tables_wf(),
        ensures
            final(self).tables_wf(),
            final(self)@ == (NodeView {
                cache: old(self)@.cache.insert(message@.message_id, (message@, now)),
                ..old(self)@
            }),
            *final(self) == (GossipSubNode { message_cache: final(self).message_cache, ..*old(self) }),
    {
        let entry = CacheEntry { message: message.duplicate(), inserted_at: now };
        let ghost ev = entry;
        self.message_cache.insert(message.message_id.clone(), entry);
        proof {
            lemma_map_values_insert(old(self).message_cache@, message@.message_id, ev, |e: CacheEntry| (e.message@, e.inserted_at));
        }
    }

    /// The mesh peers of `topic`, in order.
    fn mesh_members(&self, topic: &String) -> (r: Vec<String>)
        requires
            self.tables_wf(),
        ensures
            str_views(r@) == self.mesh_seq(topic@),
    {
        match self.mesh.get(topic) {
            Some(l) => l.to_vec(),
            None => {
                let r: Vec<String> = Vec::new();
                assert(str_views(r@) =~= Seq::<Seq<char>>::empty());
                r
            },
        }
    }

    /// Handles a PUBLISH, not seen before and carrying a topic, from `from_peer`.
    pub(crate) fn handle_publish_message(&mut self, message: GossipMessage, from_peer: &String, now: u64)
        requires
            old(self).wf(),
            message@.topic.is_some(),
        ensures
            final(self).wf(),
            publish_step(old(self)@, final(self)@, message@, from_peer@, now),
    {
        let ghost o = *old(self);
        let ghost mv = message@;
        self.cache_message(&message, now);
        let topic = match &message.topic {
            Some(t) => t.clone(),
            None => {
                return;
            },
        };
        if !self.topics.contains(&topic) {
            proof {
                lemma_consistent_history(o@, self@);
            }
            return;
        }
        let ghost cached = *self;
        let members = self.mesh_members(&topic);
        let skip = Some(from_peer.clone());
        proof {
            o.lemma_mesh_len(topic@);
        }
        self.forward_copies(&members, &message, &skip);
        proof {
            lemma_consistent_history(o@, self@);
        }
        let ghost forwarded = *self;
        let id = message.message_id.clone();
        self.add_to_gossip_history(&topic, &id);
        let ghost recorded = *self;
        self.delivered.push(message);
        proof {
            assert(self@.delivered =~= o@.delivered.push(mv));
            assert(self@.outbox == forwarded@.outbox);
            assert(sent_after(self@, o@.outbox.len()) == sent_after(forwarded@, cached@.outbox.len()));
            lemma_consistent_history(recorded@, self@);
        }
    }

    /// Publishes `content` on `topic` at `now` and returns the new message's
    /// id; fails with `NotSubscribed` on a topic not joined.
    pub fn publish_at(&mut self, topic: &str, content: Vec<u8>, now: u64) -> (r: Result<String, GossipError>)
        requires
            old(self).wf(),
        ensures
            final(self).wf(),
            published(*old(self), final(self)@, topic@, content@, now, r),
    {
        let ghost o = *old(self);
        let t = topic.to_owned();
        if !self.topics.contains(&t) {
            return Err(GossipError::NotSubscribed(t));
        }
        let ghost cv = content@;
        let message = GossipMessage::stamped(MessageType::Publish, now).with_topic(t.clone()).with_content(
            content,
        ).with_from(self.node_id.clone());
        let id = message.message_id.clone();
        assert(message@ == publish_frame(id@, t@, cv, o@.node_id, now));
        self.cache_message(&message, now);
        self.seen_messages.insert(id.clone());
        proof {
            lemma_consistent_history(o@, self@);
        }
        let ghost base = *self;
        let no_skip: Option<String> = None;
        if self.get_mesh_size(topic) > 0 {
            let members = self.mesh_members(&t);
            proof {
                self.lemma_mesh_len(t@);
            }
            self.forward_copies(&members, &message, &no_skip);
        } else {
            match self.fanout.find(&t) {
                Some(i) => {
                    let mut entry = self.fanout.replace_at(i, FanoutEntry { peers: IdList::new(), last_used: 0 });
                    entry.last_used = now;
                    let targets = entry.peers.to_vec();
                    let ghost ev = entry;
                    let ghost f0 = base.fanout@;
                    self.fanout.replace_at(i, entry);
                    proof {
                        assert(self.fanout@ =~= f0.insert(t@, ev));
                        lemma_map_values_insert(f0, t@, ev, |f: FanoutEntry| f.peers.set());
                        lemma_map_values_insert(f0, t@, ev, |f: FanoutEntry| f.last_used);
                        assert(self@.fanout =~= base@.fanout);
                        assert(self.tables_wf());
                    }
                    let ghost refreshed = *self;
                    proof {
                        assert(ev.peers.wf());
                        assert(ev.peers.set() == base@.fanout[t@]);
                    }
                    self.forward_copies(&targets, &message, &no_skip);
                    proof {
                        assert(sent_after(self@, o@.outbox.len()) == sent_after(self@, refreshed@.outbox.len()));
                    }
                },
                None => {
                    let sel = self.select_peers(&t, now, self.config.gossip_size, false);
                    proof {
                        self.lemma_selection(t@, now, false, self.config.gossip_size as int);
                        let f1 = |p: Seq<char>| self.selectable(t@, p, now, false);
                        let f2 = |p: Seq<char>| o.selectable(t@, p, now, false);
                        assert(f1 =~= f2);
                        assert(self.candidates(t@, now, false) == o.candidates(t@, now, false));
                    }
                    let peers = IdList::from_unique(copy_strs(&sel));
                    let entry = FanoutEntry { peers, last_used: now };
                    let ghost ev = entry;
                    let ghost f0 = base.fanout@;
                    self.fanout.insert(t.clone(), entry);
                    proof {
                        lemma_map_values_insert(f0, t@, ev, |f: FanoutEntry| f.peers.set());
                        lemma_map_values_insert(f0, t@, ev, |f: FanoutEntry| f.last_used);
                    }
                    self.forward_copies(&sel, &message, &no_skip);
                },
            }
        }
        proof {
            lemma_consistent_history(o@, self@);
        }
        let ghost sent = *self;
        self.add_to_gossip_history(&t, &id);
        proof {
            assert(self@.outbox == sent@.outbox);
            o.lemma_mesh_len(t@);
            let v = o@;
            let m = publish_frame(id@, t@, cv, v.node_id, now);
            let bv = NodeView {
                cache: v.cache.insert(id@, (m, now)),
                seen: v.seen.insert(id@),
                history: v.history.insert(t@, history_append(v.history_of(t@), id@, v.config.history_limit())),
                ..v
            };
            let sentv = sent_after(self@, v.outbox.len());
            assert(base@.cache == v.cache.insert(id@, (m, now)));
            assert(base@.seen == v.seen.insert(id@));
            assert(self@.history == bv.history);
            if v.mesh_of(t@).len() > 0 {
                assert(copies_in_id_order(sentv, v.mesh_of(t@), m));
                assert(self@ == NodeView { outbox: v.outbox + sentv, ..bv });
            } else if v.fanout.contains_key(t@) {
                assert(copies_in_id_order(sentv, v.fanout[t@], m));
                assert(self@ == NodeView { outbox: v.outbox + sentv, fanout_used: v.fanout_used.insert(t@, now), ..bv });
            } else {
                let sel = first_n(o.candidates(t@, now, false), o.config.gossip_size as int);
                assert(copies_in_id_order(sentv, sel.to_set(), m));
                assert(self@ == NodeView {
                    outbox: v.outbox + sentv,
                    fanout: v.fanout.insert(t@, sel.to_set()),
                    fanout_used: v.fanout_used.insert(t@, now),
                    ..bv
                });
            }
        }
        Ok(id)
    }
}

/// The invariant survives a change of history that keeps its bound.
proof fn lemma_consistent_history(a: NodeView, b: NodeView)
    requires
        a.consistent(),
        a.peers == b.peers,
        a.topics == b.topics,
        a.mesh == b.mesh,
        a.prune_backoff == b.prune_backoff,
        a.config == b.config,
        forall|u: Seq<char>| #[trigger] b.fanout.contains_key(u) ==> b.topics.contains(u),
        forall|u: Seq<char>| #[trigger] b.history.contains_key(u) ==> b.history[u].len() <= b.config.history_limit(),
    ensures
        b.consistent(),
{
}

} // verus!
