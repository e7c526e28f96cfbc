//! A single node of a GossipSub-style publish/subscribe overlay.
//!
//! The node keeps per-topic meshes, fanout sets, a message cache with a
//! deduplication set, a gossip history for IHAVE advertisement, and the
//! GRAFT/PRUNE back-off tables. Every state change is a verified function
//! whose contract is stated over the views of these tables.
pub mod collections;
pub mod gossip;
pub mod heartbeat;
pub mod laws;
pub mod mesh;
pub mod message;
pub mod node;
pub mod order;
pub mod router;
pub mod types;

pub use collections::{IdList, StrMap};
pub use heartbeat::SEEN_CAPACITY;
pub use message::{GossipMessage, MessageView};
pub use types::{GossipError, GossipSubConfig, MessageType};
pub use node::{CacheEntry, FanoutEntry, GossipSubNode, NodeView, Outbound};
