use crate::gossip::{ihave_step, iwant_step, publish_step, published};
use crate::mesh::{contracted, expanded, graft_step, prune_step, subscribed, unsubscribed};
use crate::message::{GossipMessage, MessageView};
use crate::node::{lemma_consistent_frame, GossipSubNode, NodeView};
use crate::types::{GossipError, MessageType};
use vstd::prelude::*;

verus! {

/// A frame that lacks the topic its kind requires: every kind but IWANT
/// names a topic.
pub open spec fn malformed(m: MessageView) -> bool {
    m.topic.is_none() && m.message_type != MessageType::IWant
}

/// What a frame `m` from peer `from`, accepted at `now`, does to `pre`: its id
/// is marked seen, then its kind decides.
pub open spec fn accepted(pre: GossipSubNode, post: NodeView, m: MessageView, from: Seq<char>, now: u64) -> bool {
    let v = NodeView { seen: pre@.seen.insert(m.message_id), ..pre@ };
    match m.message_type {
        MessageType::Publish => publish_step(v, post, m, from, now),
        MessageType::IHave => ihave_step(v, post, m, from, now),
        MessageType::IWant => iwant_step(v, post, m, from),
        MessageType::Graft => graft_step(v, post, m.topic.unwrap(), from, now),
        MessageType::Prune => prune_step(v, post, m.topic.unwrap(), from, now),
    }
}

/// What handling frame `m` from `from` at `now` does, from `pre` to `post`,
/// returning `r`. A frame from an unknown peer, or without the topic its
/// kind needs, is refused; a frame whose id was seen is dropped; any other
/// is accepted.
pub open spec fn handled(
    pre: GossipSubNode,
    post: NodeView,
    m: MessageView,
    from: Seq<char>,
    now: u64,
    r: Result<(), GossipError>,
) -> bool {
    if !pre@.peers.contains_key(from) {
        &&& post == pre@
        &&& r matches Err(GossipError::UnknownPeer(p)) && p@ == from
    } else if malformed(m) {
        &&& post == pre@
        &&& r matches Err(GossipError::InvalidFrame(_))
    } else if pre@.seen.contains(m.message_id) {
        &&& post == pre@
        &&& r is Ok
    } else {
        &&& r is Ok
        &&& accepted(pre, post, m, from, now)
    }
}

impl GossipSubNode {
    /// Handles a frame received from `from_peer` at `now`.
    pub fn handle_message_at(&mut self, message: GossipMessage, from_peer: &str, now: u64) -> (r: Result<(), GossipError>)
        requires
            old(self).wf(),
        ensures
            final(self).wf(),
            handled(*old(self), final(self)@, message@, from_peer@, now, r),
    {
        let ghost o = *old(self);
        let ghost mv = message@;
        let from = from_peer.to_owned();
        if !self.peers.contains_key(&from) {
            proof {
                crate::collections::lemma_map_values_dom(self.peers@, |c: String| c@, from@);
            }
            return Err(GossipError::UnknownPeer(from));
        }
        proof {
            crate::collections::lemma_map_values_dom(self.peers@, |c: String| c@, from@);
        }
        let topic = match &message.topic {
            Some(t) => t.clone(),
            None => {
                if message.message_type != MessageType::IWant {
                    return Err(GossipError::InvalidFrame("frame without a topic".to_owned()));
                }
                String::new()
            },
        };
        if self.seen_messages.contains(&message.message_id) {
            return Ok(());
        }
        self.seen_messages.insert(message.message_id.clone());
        proof {
            lemma_consistent_frame(o@, self@);
            assert(self@ == (NodeView { seen: o@.seen.insert(mv.message_id), ..o@ }));
            assert(self.mesh == o.mesh);
        }
        match message.message_type {
            MessageType::Publish => self.handle_publish_message(message, &from, now),
            MessageType::IHave => self.handle_ihave_message(&message, &from, now),
            MessageType::IWant => self.handle_iwant_message(&message, &from),
            MessageType::Graft => self.handle_graft_message(&topic, &from, now),
            MessageType::Prune => self.handle_prune_message(&topic, &from, now),
        }
        Ok(())
    }

    /// Handles a frame received from `from_peer`, at the current time.
    pub fn handle_message(&mut self, message: GossipMessage, from_peer: &str) -> (r: Result<(), GossipError>)
        requires
            old(self).wf(),
        ensures
            final(self).wf(),
            exists|now: u64| handled(*old(self), final(self)@, message@, from_peer@, now, r),
    {
        let now = GossipMessage::current_timestamp();
        self.handle_message_at(message, from_peer, now)
    }

    /// Publishes `content` on `topic` at the current time; see `publish_at`.
    pub fn publish(&mut self, topic: &str, content: Vec<u8>) -> (r: Result<String, GossipError>)
        requires
            old(self).wf(),
        ensures
            final(self).wf(),
            exists|now: u64| published(*old(self), final(self)@, topic@, content@, now, r),
    {
        let now = GossipMessage::current_timestamp();
        self.publish_at(topic, content, now)
    }

    /// Joins `topic` at the current time; see `subscribe_at`.
    pub fn subscribe(&mut self, topic: String)
        requires
            old(self).wf(),
        ensures
            final(self).wf(),
            exists|now: u64| subscribed(*old(self), final(self)@, topic@, now),
    {
        let now = GossipMessage::current_timestamp();
        self.subscribe_at(topic, now)
    }

    /// Leaves `topic` at the current time; see `unsubscribe_at`.
    pub fn unsubscribe(&mut self, topic: &str)
        requires
            old(self).wf(),
        ensures
            final(self).wf(),
            exists|now: u64| unsubscribed(*old(self), final(self)@, topic@, now),
    {
        let now = GossipMessage::current_timestamp();
        self.unsubscribe_at(topic, now)
    }

    /// Grows the mesh of `topic` at the current time; see `expand_mesh_at`.
    pub fn expand_mesh(&mut self, topic: &str)
        requires
            old(self).wf(),
        ensures
            final(self).wf(),
            exists|now: u64| expanded(*old(self), final(self)@, topic@, now),
    {
        let now = GossipMessage::current_timestamp();
        self.expand_mesh_at(&topic.to_owned(), now)
    }

    /// Shrinks the mesh of `topic` at the current time; see `contract_mesh_at`.
    pub fn contract_mesh(&mut self, topic: &str)
        requires
            old(self).wf(),
        ensures
            final(self).wf(),
            exists|now: u64| contracted(*old(self), final(self)@, topic@, now),
    {
        let now = GossipMessage::current_timestamp();
        self.contract_mesh_at(&topic.to_owned(), now)
    }
}

} // verus!
