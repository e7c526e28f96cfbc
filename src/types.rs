use vstd::prelude::*;

verus! {

/// The kind of a frame exchanged between nodes.
#[derive(Debug, Clone, Copy, PartialEq, Eq, Structural)]
pub enum MessageType {
    /// Advertises ids of recently seen messages.
    IHave,
    /// Requests full messages by id.
    IWant,
    /// Asks the receiver to admit the sender into its mesh for a topic.
    Graft,
    /// Announces removal from, or refusal of, the mesh for a topic.
    Prune,
    /// Carries an application payload on a topic.
    Publish,
}

/// Tuning parameters of a node. All durations are in milliseconds.
#[derive(Debug, Clone, Copy, PartialEq, Eq, Structural)]
pub struct GossipSubConfig {
    /// Target mesh cardinality.
    pub mesh_size: usize,
    /// Below this size a heartbeat grows the mesh.
    pub mesh_low: usize,
    /// Above this size a heartbeat shrinks the mesh; GRAFTs are refused at it.
    pub mesh_high: usize,
    /// IHAVE fan-out, IHAVE window, and history window multiplier.
    pub gossip_size: usize,
    /// Time between heartbeats.
    pub heartbeat_interval: u64,
    /// Lifetime of cached messages and of outstanding IWANT requests.
    pub message_cache_ttl: u64,
    /// Window within which a second GRAFT from one peer counts as flooding.
    pub graft_flood_threshold: u64,
    /// After this node prunes a peer, the peer may not rejoin for this long.
    pub prune_backoff: u64,
    /// After a peer prunes this node, it is not grafted again for this long.
    pub graft_backoff: u64,
    /// A fanout set unused for this long is dropped.
    pub fanout_ttl: u64,
    /// At most this many ids are requested in answer to one IHAVE.
    pub max_ihave_length: usize,
}

impl GossipSubConfig {
    /// The mesh thresholds are ordered, and the history window fits a `usize`.
    pub open spec fn is_valid(&self) -> bool {
        &&& self.mesh_low <= self.mesh_size
        &&& self.mesh_size <= self.mesh_high
        &&& 3 * self.gossip_size <= usize::MAX
    }

    /// The largest number of ids kept in one topic's gossip history.
    pub open spec fn history_limit(&self) -> int {
        3 * self.gossip_size
    }
}

impl GossipSubConfig {
    /// The default parameters.
    pub open spec fn default_values() -> GossipSubConfig {
        GossipSubConfig {
            mesh_size: 6,
            mesh_low: 4,
            mesh_high: 12,
            gossip_size: 3,
            heartbeat_interval: 1000,
            message_cache_ttl: 30000,
            graft_flood_threshold: 10000,
            prune_backoff: 60000,
            graft_backoff: 60000,
            fanout_ttl: 60000,
            max_ihave_length: 5000,
        }
    }
}

impl Default for GossipSubConfig {
    fn default() -> (r: Self)
        ensures
            r == GossipSubConfig::default_values(),
            r.is_valid(),
    {
        GossipSubConfig {
            mesh_size: 6,
            mesh_low: 4,
            mesh_high: 12,
            gossip_size: 3,
            heartbeat_interval: 1000,
            message_cache_ttl: 30000,
            graft_flood_threshold: 10000,
            prune_backoff: 60000,
            graft_backoff: 60000,
            fanout_ttl: 60000,
            max_ihave_length: 5000,
        }
    }
}

/// Errors surfaced to the caller of a node's entry points.
#[derive(Debug, Clone, PartialEq, Eq)]
pub enum GossipError {
    /// A publish on a topic the node has not joined.
    NotSubscribed(String),
    /// A frame labelled as coming from a peer the node is not connected to.
    UnknownPeer(String),
    /// A frame that lacks a field its kind requires.
    InvalidFrame(String),
}

} // verus!
