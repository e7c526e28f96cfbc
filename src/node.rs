use crate::collections::{
    copy_strs, first_n, lemma_filter_no_dup, lemma_filter_take_prefix, lemma_map_values_insert, lemma_map_values_remove, str_views,
    IdList, StrMap,
};
use crate::message::{GossipMessage, MessageView};
use crate::types::{GossipSubConfig, MessageType};
use vstd::prelude::*;

verus! {

/// A frame waiting to be handed to the transport, with its destination.
pub struct Outbound {
    pub peer: String,
    pub message: GossipMessage,
}

/// A cached message and the local time at which it was cached.
pub struct CacheEntry {
    pub message: GossipMessage,
    pub inserted_at: u64,
}

/// The peers used to publish on a topic that has no mesh peers, and the last
/// time they were used.
pub struct FanoutEntry {
    pub peers: IdList,
    pub last_used: u64,
}

/// The state of a node, seen as mathematical maps, sets and sequences.
pub struct NodeView {
    pub node_id: Seq<char>,
    /// Connected peers and their connection handles.
    pub peers: Map<Seq<char>, Seq<char>>,
    /// Topics this node has joined.
    pub topics: Set<Seq<char>>,
    /// Per topic, the peers that receive full messages.
    pub mesh: Map<Seq<char>, Set<Seq<char>>>,
    /// Per topic, the peers used to publish without mesh peers.
    pub fanout: Map<Seq<char>, Set<Seq<char>>>,
    /// Per fanout topic, when it was last used.
    pub fanout_used: Map<Seq<char>, u64>,
    /// Cached messages by id, with the time they were cached.
    pub cache: Map<Seq<char>, (MessageView, u64)>,
    /// Ids already observed.
    pub seen: Set<Seq<char>>,
    /// Per topic, recent message ids, oldest first.
    pub history: Map<Seq<char>, Seq<Seq<char>>>,
    /// Outstanding IWANT requests by id, with the time they were made.
    pub iwant: Map<Seq<char>, u64>,
    /// Per topic and peer, until when this node does not graft the peer.
    pub graft_backoff: Map<Seq<char>, Map<Seq<char>, u64>>,
    /// Per topic and peer, until when the peer may not join the mesh.
    pub prune_backoff: Map<Seq<char>, Map<Seq<char>, u64>>,
    /// Per topic and peer, when the peer last asked to be grafted.
    pub graft_requests: Map<Seq<char>, Map<Seq<char>, u64>>,
    pub config: GossipSubConfig,
    /// Frames produced and not yet taken by the transport, in order.
    pub outbox: Seq<(Seq<char>, MessageView)>,
    /// Messages delivered to the application and not yet taken, in order.
    pub delivered: Seq<MessageView>,
}

/// The state with peer `p` forgotten: it leaves the peer table, every mesh,
/// every fanout set, and every back-off and GRAFT-rate table.
pub open spec fn without_peer(v: NodeView, p: Seq<char>) -> NodeView {
    NodeView {
        peers: v.peers.remove(p),
        mesh: v.mesh.map_values(|s: Set<Seq<char>>| s.remove(p)),
        fanout: v.fanout.map_values(|s: Set<Seq<char>>| s.remove(p)),
        graft_backoff: v.graft_backoff.map_values(|m: Map<Seq<char>, u64>| m.remove(p)),
        prune_backoff: v.prune_backoff.map_values(|m: Map<Seq<char>, u64>| m.remove(p)),
        graft_requests: v.graft_requests.map_values(|m: Map<Seq<char>, u64>| m.remove(p)),
        ..v
    }
}

/// The expiry recorded for `p` on topic `t` in a back-off table.
pub open spec fn backoff_expiry(
    m: Map<Seq<char>, Map<Seq<char>, u64>>,
    t: Seq<char>,
    p: Seq<char>,
) -> Option<u64> {
    if m.contains_key(t) && m[t].contains_key(p) {
        Some(m[t][p])
    } else {
        None
    }
}

/// `p` has an entry for `t` in the table that expires after `now`.
pub open spec fn in_backoff(
    m: Map<Seq<char>, Map<Seq<char>, u64>>,
    t: Seq<char>,
    p: Seq<char>,
    now: u64,
) -> bool {
    match backoff_expiry(m, t, p) {
        Some(e) => now < e,
        None => false,
    }
}

/// The table with `p` bound to `e` under topic `t`.
pub open spec fn backoff_set(
    m: Map<Seq<char>, Map<Seq<char>, u64>>,
    t: Seq<char>,
    p: Seq<char>,
    e: u64,
) -> Map<Seq<char>, Map<Seq<char>, u64>> {
    let inner = if m.contains_key(t) { m[t] } else { Map::empty() };
    m.insert(t, inner.insert(p, e))
}

/// The table with any entry of `p` under topic `t` removed.
pub open spec fn backoff_clear(
    m: Map<Seq<char>, Map<Seq<char>, u64>>,
    t: Seq<char>,
    p: Seq<char>,
) -> Map<Seq<char>, Map<Seq<char>, u64>> {
    if m.contains_key(t) {
        m.insert(t, m[t].remove(p))
    } else {
        m
    }
}

/// `a + b` in `u64`, held at `u64::MAX`.
pub open spec fn sat_add(a: u64, b: u64) -> u64 {
    if a + b > u64::MAX {
        u64::MAX
    } else {
        (a + b) as u64
    }
}

/// `m` is a control frame of `kind` on `topic` from `from` to `to`, made at
/// `now`, listing `ids`.
pub open spec fn is_frame(
    m: MessageView,
    kind: MessageType,
    topic: Seq<char>,
    from: Seq<char>,
    to: Seq<char>,
    now: u64,
    ids: Seq<Seq<char>>,
) -> bool {
    &&& m.message_type == kind
    &&& m.topic == Some(topic)
    &&& m.from == Some(from)
    &&& m.to == Some(to)
    &&& m.timestamp == now
    &&& m.content.is_none()
    &&& m.message_ids == ids
}

/// `frames` holds, for each peer of `targets` in order, one frame of `kind`
/// on `topic` from `from` to that peer, made at `now`, listing `ids`.
pub open spec fn frames_listing(
    frames: Seq<(Seq<char>, MessageView)>,
    targets: Seq<Seq<char>>,
    kind: MessageType,
    topic: Seq<char>,
    from: Seq<char>,
    now: u64,
    ids: Seq<Seq<char>>,
) -> bool {
    &&& frames.len() == targets.len()
    &&& forall|i: int|
        0 <= i < frames.len() ==> (#[trigger] frames[i]).0 == targets[i] && is_frame(
            frames[i].1,
            kind,
            topic,
            from,
            targets[i],
            now,
            ids,
        )
}

/// `frames` holds, for each peer of `targets` in order, one frame of `kind`
/// on `topic` from `from` to that peer, made at `now`, listing no ids.
pub open spec fn control_frames(
    frames: Seq<(Seq<char>, MessageView)>,
    targets: Seq<Seq<char>>,
    kind: MessageType,
    topic: Seq<char>,
    from: Seq<char>,
    now: u64,
) -> bool {
    frames_listing(frames, targets, kind, topic, from, now, Seq::empty())
}

/// `frames` holds one copy of `m` for each peer of `targets` in order.
pub open spec fn copies_to(
    frames: Seq<(Seq<char>, MessageView)>,
    targets: Seq<Seq<char>>,
    m: MessageView,
) -> bool {
    &&& frames.len() == targets.len()
    &&& forall|i: int| 0 <= i < frames.len() ==> #[trigger] frames[i] == (targets[i], m)
}

/// The invariant depends on the peers, topics, mesh, PRUNE back-offs,
/// history and configuration alone.
pub proof fn lemma_consistent_frame(a: NodeView, b: NodeView)
    requires
        a.consistent(),
        a.peers == b.peers,
        a.topics == b.topics,
        a.mesh == b.mesh,
        a.prune_backoff == b.prune_backoff,
        a.history == b.history,
        a.config == b.config,
        a.fanout == b.fanout,
    ensures
        b.consistent(),
{
}

impl NodeView {
    /// The mesh peers of `t`; empty where the topic has no mesh.
    pub open spec fn mesh_of(&self, t: Seq<char>) -> Set<Seq<char>> {
        if self.mesh.contains_key(t) {
            self.mesh[t]
        } else {
            Set::empty()
        }
    }

    /// The gossip history of `t`; empty where there is none.
    pub open spec fn history_of(&self, t: Seq<char>) -> Seq<Seq<char>> {
        if self.history.contains_key(t) {
            self.history[t]
        } else {
            Seq::empty()
        }
    }

    /// `p` may be grafted into the mesh of `t` at time `now`: it is a
    /// connected peer, not in that mesh, and in neither back-off for `t`.
    pub open spec fn eligible(&self, t: Seq<char>, p: Seq<char>, now: u64) -> bool {
        &&& self.peers.contains_key(p)
        &&& !self.mesh_of(t).contains(p)
        &&& !in_backoff(self.graft_backoff, t, p, now)
        &&& !in_backoff(self.prune_backoff, t, p, now)
    }

    /// The relations between the tables that hold between operations.
    pub open spec fn consistent(&self) -> bool {
        // Mesh peers are connected peers.
        &&& forall|t: Seq<char>, p: Seq<char>|
            self.mesh.contains_key(t) && #[trigger] self.mesh[t].contains(p)
                ==> self.peers.contains_key(p)
        // Only joined topics have a mesh.
        &&& forall|t: Seq<char>| #[trigger] self.mesh.contains_key(t) ==> self.topics.contains(t)
        // Only joined topics have a fanout.
        &&& forall|t: Seq<char>| #[trigger] self.fanout.contains_key(t) ==> self.topics.contains(t)
        // A mesh peer has no PRUNE back-off on that topic.
        &&& forall|t: Seq<char>, p: Seq<char>|
            self.mesh.contains_key(t) && #[trigger] self.mesh[t].contains(p)
                ==> backoff_expiry(self.prune_backoff, t, p).is_none()
        // The gossip history of a topic is bounded.
        &&& forall|t: Seq<char>| #[trigger]
            self.history.contains_key(t) ==> self.history[t].len() <= self.config.history_limit()
    }
}

/// One node of the overlay. Outbound frames are queued in `outbox` and
/// delivered messages in `delivered`, for the transport and the application
/// to take.
pub struct GossipSubNode {
    pub node_id: String,
    pub peers: StrMap<String>,
    pub topics: IdList,
    pub mesh: StrMap<IdList>,
    pub fanout: StrMap<FanoutEntry>,
    pub message_cache: StrMap<CacheEntry>,
    pub seen_messages: IdList,
    pub gossip_history: StrMap<Vec<String>>,
    pub iwant_requests: StrMap<u64>,
    pub graft_backoff: StrMap<StrMap<u64>>,
    pub prune_backoff: StrMap<StrMap<u64>>,
    pub graft_requests: StrMap<StrMap<u64>>,
    pub config: GossipSubConfig,
    pub outbox: Vec<Outbound>,
    pub delivered: Vec<GossipMessage>,
}

/// A two-level table seen as a map of maps.
pub open spec fn table_view(m: StrMap<StrMap<u64>>) -> Map<Seq<char>, Map<Seq<char>, u64>> {
    m@.map_values(|inner: StrMap<u64>| inner@)
}

/// A two-level table and each of its inner tables are well formed.
pub open spec fn table_wf(m: StrMap<StrMap<u64>>) -> bool {
    &&& m.wf()
    &&& forall|t: Seq<char>| #[trigger] m@.contains_key(t) ==> m@[t].wf()
}

/// Queued frames seen as destination and frame view.
pub open spec fn outbox_view(v: Seq<Outbound>) -> Seq<(Seq<char>, MessageView)> {
    v.map_values(|o: Outbound| (o.peer@, o.message@))
}

impl View for GossipSubNode {
    type V = NodeView;

    open spec fn view(&self) -> NodeView {
        NodeView {
            node_id: self.node_id@,
            peers: self.peers@.map_values(|c: String| c@),
            topics: self.topics.set(),
            mesh: self.mesh@.map_values(|l: IdList| l.set()),
            fanout: self.fanout@.map_values(|f: FanoutEntry| f.peers.set()),
            fanout_used: self.fanout@.map_values(|f: FanoutEntry| f.last_used),
            cache: self.message_cache@.map_values(|e: CacheEntry| (e.message@, e.inserted_at)),
            seen: self.seen_messages.set(),
            history: self.gossip_history@.map_values(|h: Vec<String>| str_views(h@)),
            iwant: self.iwant_requests@,
            graft_backoff: table_view(self.graft_backoff),
            prune_backoff: table_view(self.prune_backoff),
            graft_requests: table_view(self.graft_requests),
            config: self.config,
            outbox: outbox_view(self.outbox@),
            delivered: self.delivered@.map_values(|m: GossipMessage| m@),
        }
    }
}

impl GossipSubNode {
    /// The tables are well formed and the view satisfies its invariant.
    pub open spec fn wf(&self) -> bool {
        &&& self.tables_wf()
        &&& self@.consistent()
    }

    /// Every table is well formed on its own.
    pub open spec fn tables_wf(&self) -> bool {
        &&& self.config.is_valid()
        &&& self.peers.wf()
        &&& self.topics.wf()
        &&& self.mesh.wf()
        &&& forall|t: Seq<char>| #[trigger] self.mesh@.contains_key(t) ==> self.mesh@[t].wf()
        &&& self.fanout.wf()
        &&& forall|t: Seq<char>| #[trigger] self.fanout@.contains_key(t) ==> self.fanout@[t].peers.wf()
        &&& self.message_cache.wf()
        &&& self.seen_messages.wf()
        &&& self.gossip_history.wf()
        &&& self.iwant_requests.wf()
        &&& table_wf(self.graft_backoff)
        &&& table_wf(self.prune_backoff)
        &&& table_wf(self.graft_requests)
    }

    /// The mesh peers of `t` in the order they joined.
    pub open spec fn mesh_seq(&self, t: Seq<char>) -> Seq<Seq<char>> {
        if self.mesh@.contains_key(t) {
            self.mesh@[t]@
        } else {
            Seq::empty()
        }
    }

    /// The mesh of `t` has as many peers as its sequence.
    pub proof fn lemma_mesh_len(&self, t: Seq<char>)
        requires
            self.tables_wf(),
        ensures
            self@.mesh_of(t).len() == self.mesh_seq(t).len(),
            self@.mesh_of(t) == self.mesh_seq(t).to_set(),
            self.mesh_seq(t).no_duplicates(),
    {
        if self.mesh@.contains_key(t) {
            self.mesh@[t].lemma_len();
        } else {
            assert(Seq::<Seq<char>>::empty().to_set() =~= Set::empty());
        }
    }

    /// A node with no peers, topics or messages, and the default configuration.
    pub fn new(node_id: String) -> (r: Self)
        ensures
            r.wf(),
            r@ == (NodeView {
                node_id: node_id@,
                peers: Map::empty(),
                topics: Set::empty(),
                mesh: Map::empty(),
                fanout: Map::empty(),
                fanout_used: Map::empty(),
                cache: Map::empty(),
                seen: Set::empty(),
                history: Map::empty(),
                iwant: Map::empty(),
                graft_backoff: Map::empty(),
                prune_backoff: Map::empty(),
                graft_requests: Map::empty(),
                config: GossipSubConfig::default_values(),
                outbox: Seq::empty(),
                delivered: Seq::empty(),
            }),
    {
        let r = GossipSubNode {
            node_id,
            peers: StrMap::new(),
            topics: IdList::new(),
            mesh: StrMap::new(),
            fanout: StrMap::new(),
            message_cache: StrMap::new(),
            seen_messages: IdList::new(),
            gossip_history: StrMap::new(),
            iwant_requests: StrMap::new(),
            graft_backoff: StrMap::new(),
            prune_backoff: StrMap::new(),
            graft_requests: StrMap::new(),
            config: GossipSubConfig::default(),
            outbox: Vec::new(),
            delivered: Vec::new(),
        };
        assert(r@.peers =~= Map::empty());
        assert(r@.mesh =~= Map::empty());
        assert(r@.fanout =~= Map::empty());
        assert(r@.fanout_used =~= Map::empty());
        assert(r@.cache =~= Map::empty());
        assert(r@.history =~= Map::empty());
        assert(r@.graft_backoff =~= Map::empty());
        assert(r@.prune_backoff =~= Map::empty());
        assert(r@.graft_requests =~= Map::empty());
        assert(r@.topics =~= Set::empty());
        assert(r@.seen =~= Set::empty());
        assert(r@.outbox =~= Seq::empty());
        assert(r@.delivered =~= Seq::empty());
        r
    }
}

/// Removes `p` from every list of `m`.
fn remove_from_each_list(m: &mut StrMap<IdList>, p: &String)
    requires
        old(m).wf(),
        forall|t: Seq<char>| #[trigger] old(m)@.contains_key(t) ==> old(m)@[t].wf(),
    ensures
        final(m).wf(),
        final(m)@.dom() == old(m)@.dom(),
        forall|t: Seq<char>| #[trigger] final(m)@.contains_key(t) ==> final(m)@[t].wf(),
        final(m)@.map_values(|l: IdList| l.set()) == old(m)@.map_values(|l: IdList| l.set()).map_values(
            |s: Set<Seq<char>>| s.remove(p@),
        ),
{
    proof {
        old(m).lemma_keys();
    }
    let ghost ks = m.key_seq();
    let n = m.len();
    let mut i: usize = 0;
    while i < n
        invariant
            m.wf(),
            m.key_seq() == ks,
            ks == old(m).key_seq(),
            ks.no_duplicates(),
            n == ks.len(),
            i <= n,
            m@.dom() == old(m)@.dom(),
            forall|t: Seq<char>| #[trigger] old(m)@.contains_key(t) ==> old(m)@[t].wf(),
            forall|j: int| 0 <= j < i ==> (#[trigger] m@[ks[j]]).wf() && m@[ks[j]].set() == old(m)@[ks[j]].set().remove(p@),
            forall|j: int| i <= j < n ==> #[trigger] m@[ks[j]] == old(m)@[ks[j]],
        decreases n - i,
    {
        proof {
            m.lemma_keys();
            assert(ks.contains(ks[i as int]));
            assert(m@.contains_key(ks[i as int]));
            assert(old(m)@.contains_key(ks[i as int]));
            assert(m@[ks[i as int]] == old(m)@[ks[i as int]]);
        }
        let mut l = m.replace_at(i, IdList::new());
        l.remove(p);
        m.replace_at(i, l);
        proof {
            assert forall|j: int| 0 <= j < n && j != i implies ks[j] != ks[i as int] by {}
            assert(m@.dom() =~= old(m)@.dom());
        }
        i += 1;
    }
    proof {
        m.lemma_keys();
        assert forall|t: Seq<char>| #[trigger] m@.contains_key(t) implies m@[t].wf() && m@[t].set() == old(m)@[t].set().remove(p@) by {
            assert(ks.contains(t));
            let j = choose|j: int| 0 <= j < ks.len() && ks[j] == t;
            assert(m@[ks[j]].wf());
        }
        assert(m@.map_values(|l: IdList| l.set()) =~= old(m)@.map_values(|l: IdList| l.set()).map_values(
            |s: Set<Seq<char>>| s.remove(p@),
        ));
    }
}

/// Removes `p` from the peers of every fanout entry.
fn remove_from_each_fanout(m: &mut StrMap<FanoutEntry>, p: &String)
    requires
        old(m).wf(),
        forall|t: Seq<char>| #[trigger] old(m)@.contains_key(t) ==> old(m)@[t].peers.wf(),
    ensures
        final(m).wf(),
        final(m)@.dom() == old(m)@.dom(),
        forall|t: Seq<char>| #[trigger] final(m)@.contains_key(t) ==> final(m)@[t].peers.wf(),
        final(m)@.map_values(|f: FanoutEntry| f.peers.set()) == old(m)@.map_values(
            |f: FanoutEntry| f.peers.set(),
        ).map_values(|s: Set<Seq<char>>| s.remove(p@)),
        final(m)@.map_values(|f: FanoutEntry| f.last_used) == old(m)@.map_values(|f: FanoutEntry| f.last_used),
{
    proof {
        old(m).lemma_keys();
    }
    let ghost ks = m.key_seq();
    let n = m.len();
    let mut i: usize = 0;
    while i < n
        invariant
            m.wf(),
            m.key_seq() == ks,
            ks == old(m).key_seq(),
            ks.no_duplicates(),
            n == ks.len(),
            i <= n,
            m@.dom() == old(m)@.dom(),
            forall|t: Seq<char>| #[trigger] old(m)@.contains_key(t) ==> old(m)@[t].peers.wf(),
            forall|j: int| 0 <= j < i ==> (#[trigger] m@[ks[j]]).peers.wf() && m@[ks[j]].peers.set() == old(m)@[ks[j]].peers.set().remove(p@)
                && m@[ks[j]].last_used == old(m)@[ks[j]].last_used,
            forall|j: int| i <= j < n ==> #[trigger] m@[ks[j]] == old(m)@[ks[j]],
        decreases n - i,
    {
        proof {
            m.lemma_keys();
            assert(ks.contains(ks[i as int]));
            assert(m@.contains_key(ks[i as int]));
            assert(old(m)@.contains_key(ks[i as int]));
            assert(m@[ks[i as int]] == old(m)@[ks[i as int]]);
        }
        let mut f = m.replace_at(i, FanoutEntry { peers: IdList::new(), last_used: 0 });
        f.peers.remove(p);
        m.replace_at(i, f);
        proof {
            assert forall|j: int| 0 <= j < n && j != i implies ks[j] != ks[i as int] by {}
            assert(m@.dom() =~= old(m)@.dom());
        }
        i += 1;
    }
    proof {
        m.lemma_keys();
        assert forall|t: Seq<char>| #[trigger] m@.contains_key(t) implies m@[t].peers.wf()
            && m@[t].peers.set() == old(m)@[t].peers.set().remove(p@) && m@[t].last_used == old(m)@[t].last_used by {
            assert(ks.contains(t));
            let j = choose|j: int| 0 <= j < ks.len() && ks[j] == t;
            assert(m@[ks[j]].peers.wf());
        }
        assert(m@.map_values(|f: FanoutEntry| f.peers.set()) =~= old(m)@.map_values(
            |f: FanoutEntry| f.peers.set(),
        ).map_values(|s: Set<Seq<char>>| s.remove(p@)));
        assert(m@.map_values(|f: FanoutEntry| f.last_used) =~= old(m)@.map_values(|f: FanoutEntry| f.last_used));
    }
}

/// Removes the entries of `p` under every topic of a back-off table.
fn remove_from_each_table(m: &mut StrMap<StrMap<u64>>, p: &String)
    requires
        table_wf(*old(m)),
    ensures
        table_wf(*final(m)),
        table_view(*final(m)) == table_view(*old(m)).map_values(
            |inner: Map<Seq<char>, u64>| inner.remove(p@),
        ),
{
    proof {
        old(m).lemma_keys();
    }
    let ghost ks = m.key_seq();
    let n = m.len();
    let mut i: usize = 0;
    while i < n
        invariant
            m.wf(),
            m.key_seq() == ks,
            ks == old(m).key_seq(),
            ks.no_duplicates(),
            n == ks.len(),
            i <= n,
            table_wf(*old(m)),
            m@.dom() == old(m)@.dom(),
            forall|j: int| 0 <= j < i ==> (#[trigger] m@[ks[j]]).wf() && m@[ks[j]]@ == old(m)@[ks[j]]@.remove(p@),
            forall|j: int| i <= j < n ==> #[trigger] m@[ks[j]] == old(m)@[ks[j]],
        decreases n - i,
    {
        proof {
            m.lemma_keys();
            assert(ks.contains(ks[i as int]));
            assert(m@.contains_key(ks[i as int]));
            assert(old(m)@.contains_key(ks[i as int]));
            assert(m@[ks[i as int]] == old(m)@[ks[i as int]]);
        }
        let mut inner = m.replace_at(i, StrMap::new());
        inner.remove(p);
        m.replace_at(i, inner);
        proof {
            assert forall|j: int| 0 <= j < n && j != i implies ks[j] != ks[i as int] by {}
            assert(m@.dom() =~= old(m)@.dom());
        }
        i += 1;
    }
    proof {
        m.lemma_keys();
        assert forall|t: Seq<char>| #[trigger] m@.contains_key(t) implies m@[t].wf() && m@[t]@ == old(m)@[t]@.remove(p@) by {
            assert(ks.contains(t));
            let j = choose|j: int| 0 <= j < ks.len() && ks[j] == t;
            assert(m@[ks[j]].wf());
        }
        assert(table_view(*m) =~= table_view(*old(m)).map_values(
            |inner: Map<Seq<char>, u64>| inner.remove(p@),
        ));
    }
}

/// Binds `p` to `v` under topic `t` in a two-level table.
pub(crate) fn table_set(m: &mut StrMap<StrMap<u64>>, t: &String, p: &String, v: u64)
    requires
        table_wf(*old(m)),
    ensures
        table_wf(*final(m)),
        table_view(*final(m)) == backoff_set(table_view(*old(m)), t@, p@, v),
{
    let mut inner = match m.remove(t) {
        Some(x) => x,
        None => StrMap::new(),
    };
    inner.insert(p.clone(), v);
    m.insert(t.clone(), inner);
    proof {
        lemma_map_values_remove(old(m)@, t@, |x: StrMap<u64>| x@);
        assert(table_view(*m) =~= backoff_set(table_view(*old(m)), t@, p@, v));
    }
}

/// Drops any entry of `p` under topic `t` in a two-level table.
pub(crate) fn table_clear(m: &mut StrMap<StrMap<u64>>, t: &String, p: &String)
    requires
        table_wf(*old(m)),
    ensures
        table_wf(*final(m)),
        table_view(*final(m)) == backoff_clear(table_view(*old(m)), t@, p@),
{
    match m.remove(t) {
        Some(mut inner) => {
            inner.remove(p);
            m.insert(t.clone(), inner);
            assert(table_view(*m) =~= backoff_clear(table_view(*old(m)), t@, p@));
        },
        None => {
            assert(m@ =~= old(m)@);
        },
    }
}

impl GossipSubNode {
    /// `p` is a candidate at `now` for the mesh of `t` (`gossip` false), or
    /// for an IHAVE on `t`, which goes to peers outside that mesh (`gossip` true).
    pub open spec fn selectable(&self, t: Seq<char>, p: Seq<char>, now: u64, gossip: bool) -> bool {
        if gossip {
            !self@.mesh_of(t).contains(p)
        } else {
            self@.eligible(t, p, now)
        }
    }

    /// The candidates in the order the peers were connected.
    pub open spec fn candidates(&self, t: Seq<char>, now: u64, gossip: bool) -> Seq<Seq<char>> {
        self.peers.key_seq().filter(|p: Seq<char>| self.selectable(t, p, now, gossip))
    }

    /// The first `n` candidates are distinct connected peers that pass the test.
    pub proof fn lemma_selection(&self, t: Seq<char>, now: u64, gossip: bool, n: int)
        requires
            self.tables_wf(),
            0 <= n,
        ensures
            first_n(self.candidates(t, now, gossip), n).no_duplicates(),
            forall|k: int|
                0 <= k < first_n(self.candidates(t, now, gossip), n).len() ==> {
                    let p = #[trigger] first_n(self.candidates(t, now, gossip), n)[k];
                    self.selectable(t, p, now, gossip) && self@.peers.contains_key(p)
                },
    {
        self.peers.lemma_keys();
        let pred = |p: Seq<char>| self.selectable(t, p, now, gossip);
        let ks = self.peers.key_seq();
        let c = ks.filter(pred);
        lemma_filter_no_dup(ks, pred);
        let s = first_n(c, n);
        assert forall|k: int| 0 <= k < s.len() implies {
            let p = #[trigger] s[k];
            self.selectable(t, p, now, gossip) && self@.peers.contains_key(p)
        } by {
            ks.lemma_filter_pred(pred, k);
            assert(s[k] == c[k]);
            ks.lemma_filter_contains_rev(pred, c[k]);
            assert(ks.contains(c[k]));
        }
        assert(s.no_duplicates()) by {
            assert forall|a: int, b: int| 0 <= a < s.len() && 0 <= b < s.len() && a != b implies s[a] != s[b] by {
                assert(s[a] == c[a] && s[b] == c[b]);
            }
        }
    }

    /// The first `limit` candidates.
    pub(crate) fn select_peers(&self, t: &String, now: u64, limit: usize, gossip: bool) -> (r: Vec<String>)
        requires
            self.wf(),
        ensures
            str_views(r@) == first_n(self.candidates(t@, now, gossip), limit as int),
    {
        let ghost ks = self.peers.key_seq();
        let ghost pred = |p: Seq<char>| self.selectable(t@, p, now, gossip);
        let n = self.peers.len();
        let mut r: Vec<String> = Vec::new();
        let mut i: usize = 0;
        while i < n && r.len() < limit
            invariant
                self.wf(),
                ks == self.peers.key_seq(),
                pred == (|p: Seq<char>| self.selectable(t@, p, now, gossip)),
                n == ks.len(),
                i <= n,
                r@.len() <= limit,
                str_views(r@) == ks.take(i as int).filter(pred),
            decreases n - i,
        {
            let p = self.peers.key_at(i);
            let ok = if gossip {
                !self.is_in_mesh(t.as_str(), p.as_str())
            } else {
                !self.is_in_mesh(t.as_str(), p.as_str()) && !self.is_peer_in_backoff(t, p, true, now)
                    && !self.is_peer_in_backoff(t, p, false, now)
            };
            proof {
                assert(self.peers@.contains_key(p@));
                assert(self@.peers.contains_key(p@));
                assert(p@ == ks[i as int]);
                assert(ok == self.selectable(t@, ks[i as int], now, gossip));
                assert(ok == pred(ks[i as int]));
            }
            let ghost before = r@;
            if ok {
                r.push(p.clone());
            }
            proof {
                assert(ks.take(i + 1) =~= ks.take(i as int).push(ks[i as int]));
                ks.take(i as int).lemma_filter_push(ks[i as int], pred);
                if ok {
                    assert(str_views(r@) =~= str_views(before).push(ks[i as int]));
                } else {
                    assert(str_views(r@) =~= str_views(before));
                }
            }
            i += 1;
        }
        proof {
            let c = ks.filter(pred);
            assert(self.candidates(t@, now, gossip) == c);
            lemma_filter_take_prefix(ks, pred, i as int);
            assert(str_views(r@).len() == r@.len());
            if r@.len() < limit {
                assert(ks.take(i as int) =~= ks);
            } else if limit as int >= c.len() {
                assert(c.take(c.len() as int) =~= c);
            }
        }
        r
    }

    /// A control frame of `kind` on `topic` from this node to `to`, made at `now`.
    pub(crate) fn control_frame(&self, kind: MessageType, topic: &String, to: &String, now: u64) -> (r: GossipMessage)
        ensures
            is_frame(r@, kind, topic@, self@.node_id, to@, now, Seq::empty()),
    {
        GossipMessage::stamped(kind, now).with_topic(topic.clone()).with_from(self.node_id.clone()).with_to(to.clone())
    }

    /// Sends one frame of `kind` on `topic`, listing `ids`, to each of `targets`.
    pub(crate) fn send_to_all(
        &mut self,
        targets: &Vec<String>,
        kind: MessageType,
        topic: &String,
        ids: &Vec<String>,
        now: u64,
    )
        requires
            old(self).tables_wf(),
        ensures
            final(self).tables_wf(),
            final(self)@.outbox.len() >= old(self)@.outbox.len(),
            frames_listing(
                final(self)@.outbox.skip(old(self)@.outbox.len() as int),
                str_views(targets@),
                kind,
                topic@,
                old(self)@.node_id,
                now,
                str_views(ids@),
            ),
            final(self)@ == (NodeView {
                outbox: old(self)@.outbox + final(self)@.outbox.skip(old(self)@.outbox.len() as int),
                ..old(self)@
            }),
            *final(self) == (GossipSubNode { outbox: final(self).outbox, ..*old(self) }),
    {
        let ghost o = *old(self);
        let ghost n0 = o@.outbox.len();
        let ghost ts = str_views(targets@);
        let mut j: usize = 0;
        assert(self@.outbox.skip(n0 as int) =~= Seq::empty());
        assert(self@.outbox + Seq::empty() =~= self@.outbox);
        while j < targets.len()
            invariant
                self.tables_wf(),
                j <= targets.len(),
                ts == str_views(targets@),
                n0 == o@.outbox.len(),
                self@.outbox.len() >= n0,
                frames_listing(self@.outbox.skip(n0 as int), ts.take(j as int), kind, topic@, o@.node_id, now, str_views(ids@)),
                self@ == (NodeView { outbox: o@.outbox + self@.outbox.skip(n0 as int), ..o@ }),
                *self == (GossipSubNode { outbox: self.outbox, ..o }),
            decreases targets.len() - j,
        {
            let ghost prev = *self;
            let f = self.control_frame(kind, topic, &targets[j], now).with_message_ids(copy_strs(ids));
            self.send_message_to_peer(&targets[j], f);
            proof {
                let fr = self@.outbox.skip(n0 as int);
                let pf = prev@.outbox.skip(n0 as int);
                assert(fr =~= pf.push(fr.last()));
                assert(ts.take(j + 1) =~= ts.take(j as int).push(ts[j as int]));
                assert(self@.outbox =~= o@.outbox + fr);
                assert forall|i: int| 0 <= i < fr.len() implies (#[trigger] fr[i]).0 == ts.take(j + 1)[i] && is_frame(
                    fr[i].1, kind, topic@, o@.node_id, ts.take(j + 1)[i], now, str_views(ids@)) by {
                    if i < fr.len() - 1 {
                        assert(fr[i] == pf[i]);
                    }
                }
            }
            j += 1;
        }
        assert(ts.take(j as int) =~= ts);
    }

    /// Registers `peer_id` with its connection handle; a known peer is re-bound.
    pub fn add_peer(&mut self, peer_id: String, connection_info: String)
        requires
            old(self).wf(),
        ensures
            final(self).wf(),
            final(self)@ == (NodeView {
                peers: old(self)@.peers.insert(peer_id@, connection_info@),
                ..old(self)@
            }),
    {
        let ghost pv = peer_id@;
        let ghost cv = connection_info;
        self.peers.insert(peer_id, connection_info);
        proof {
            lemma_map_values_insert(old(self).peers@, pv, cv, |c: String| c@);
        }
    }

    /// Forgets `peer_id`: it leaves the peer table, every mesh, every fanout
    /// set, and every back-off and GRAFT-rate table. An unknown peer is a no-op.
    pub fn remove_peer(&mut self, peer_id: &str)
        requires
            old(self).wf(),
        ensures
            final(self).wf(),
            final(self)@ == without_peer(old(self)@, peer_id@),
    {
        let p = peer_id.to_owned();
        self.peers.remove(&p);
        proof {
            lemma_map_values_remove(old(self).peers@, p@, |c: String| c@);
        }
        remove_from_each_list(&mut self.mesh, &p);
        remove_from_each_fanout(&mut self.fanout, &p);
        remove_from_each_table(&mut self.graft_backoff, &p);
        remove_from_each_table(&mut self.prune_backoff, &p);
        remove_from_each_table(&mut self.graft_requests, &p);
        proof {
            let v = self@;
            let o = old(self)@;
            assert(v == without_peer(o, p@));
            assert forall|t: Seq<char>, q: Seq<char>|
                v.mesh.contains_key(t) && #[trigger] v.mesh[t].contains(q) implies v.peers.contains_key(q) && backoff_expiry(v.prune_backoff, t, q).is_none() by {
                assert(o.mesh.contains_key(t) && o.mesh[t].contains(q));
            }
            assert forall|t: Seq<char>| #[trigger] v.mesh.contains_key(t) implies v.topics.contains(t) by {
                assert(o.mesh.contains_key(t));
            }
        }
    }

    /// The number of mesh peers of `topic`.
    pub fn get_mesh_size(&self, topic: &str) -> (r: usize)
        requires
            self.tables_wf(),
        ensures
            r == self@.mesh_of(topic@).len(),
    {
        let t = topic.to_owned();
        match self.mesh.get(&t) {
            Some(l) => {
                proof {
                    l.lemma_len();
                }
                l.len()
            },
            None => 0,
        }
    }

    /// Whether `peer_id` is a mesh peer of `topic`.
    pub fn is_in_mesh(&self, topic: &str, peer_id: &str) -> (r: bool)
        requires
            self.tables_wf(),
        ensures
            r == self@.mesh_of(topic@).contains(peer_id@),
    {
        let t = topic.to_owned();
        let p = peer_id.to_owned();
        match self.mesh.get(&t) {
            Some(l) => l.contains(&p),
            None => false,
        }
    }

    /// Whether `peer_id` is under an unexpired GRAFT back-off (`is_graft`) or
    /// PRUNE back-off for `topic` at time `now`.
    pub fn is_peer_in_backoff(&self, topic: &String, peer_id: &String, is_graft: bool, now: u64) -> (r: bool)
        requires
            self.tables_wf(),
        ensures
            r == in_backoff(
                if is_graft { self@.graft_backoff } else { self@.prune_backoff },
                topic@,
                peer_id@,
                now,
            ),
    {
        let table = if is_graft { &self.graft_backoff } else { &self.prune_backoff };
        match table.get(topic) {
            Some(inner) => match inner.get(peer_id) {
                Some(until) => now < *until,
                None => false,
            },
            None => false,
        }
    }

    /// Queues `message` for `peer_id`.
    pub(crate) fn send_message_to_peer(&mut self, peer_id: &String, message: GossipMessage)
        requires
            old(self).tables_wf(),
        ensures
            final(self).tables_wf(),
            final(self)@ == (NodeView {
                outbox: old(self)@.outbox.push((peer_id@, message@)),
                ..old(self)@
            }),
            *final(self) == (GossipSubNode { outbox: final(self).outbox, ..*old(self) }),
    {
        let ghost mv = message@;
        self.outbox.push(Outbound { peer: peer_id.clone(), message });
        assert(self@.outbox =~= old(self)@.outbox.push((peer_id@, mv)));
    }

    /// Hands over the queued outbound frames, oldest first.
    pub fn take_outbox(&mut self) -> (r: Vec<Outbound>)
        requires
            old(self).wf(),
        ensures
            final(self).wf(),
            outbox_view(r@) == old(self)@.outbox,
            final(self)@ == (NodeView { outbox: Seq::empty(), ..old(self)@ }),
    {
        let mut r: Vec<Outbound> = Vec::new();
        std::mem::swap(&mut r, &mut self.outbox);
        assert(self@.outbox =~= Seq::empty());
        r
    }

    /// Hands over the messages delivered to the application, oldest first.
    pub fn take_delivered(&mut self) -> (r: Vec<GossipMessage>)
        requires
            old(self).wf(),
        ensures
            final(self).wf(),
            r@.map_values(|m: GossipMessage| m@) == old(self)@.delivered,
            final(self)@ == (NodeView { delivered: Seq::empty(), ..old(self)@ }),
    {
        let mut r: Vec<GossipMessage> = Vec::new();
        std::mem::swap(&mut r, &mut self.delivered);
        assert(self@.delivered =~= Seq::empty());
        r
    }
}

} // verus!
