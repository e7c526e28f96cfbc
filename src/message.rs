use crate::collections::{copy_strs, str_views};
use crate::types::MessageType;
use vstd::prelude::*;

verus! {

/// The character sequence of an optional string.
pub open spec fn opt_str_view(o: Option<String>) -> Option<Seq<char>> {
    match o {
        Some(s) => Some(s@),
        None => None,
    }
}

/// The bytes of an optional payload.
pub open spec fn opt_bytes_view(o: Option<Vec<u8>>) -> Option<Seq<u8>> {
    match o {
        Some(b) => Some(b@),
        None => None,
    }
}

/// What a frame holds, with strings and vectors seen as sequences.
pub struct MessageView {
    pub message_type: MessageType,
    pub message_id: Seq<char>,
    pub timestamp: u64,
    pub from: Option<Seq<char>>,
    pub to: Option<Seq<char>>,
    pub topic: Option<Seq<char>>,
    pub content: Option<Seq<u8>>,
    pub message_ids: Seq<Seq<char>>,
}

/// A frame exchanged between nodes.
#[derive(Debug, Clone)]
pub struct GossipMessage {
    pub message_type: MessageType,
    pub message_id: String,
    /// Milliseconds since the Unix epoch at which the frame was made.
    pub timestamp: u64,
    /// The node the frame originates from (not the relay).
    pub from: Option<String>,
    /// The intended recipient; informative only, never trusted.
    pub to: Option<String>,
    pub topic: Option<String>,
    pub content: Option<Vec<u8>>,
    /// The ids an IHAVE advertises or an IWANT requests.
    pub message_ids: Vec<String>,
}

impl View for GossipMessage {
    type V = MessageView;

    open spec fn view(&self) -> MessageView {
        MessageView {
            message_type: self.message_type,
            message_id: self.message_id@,
            timestamp: self.timestamp,
            from: opt_str_view(self.from),
            to: opt_str_view(self.to),
            topic: opt_str_view(self.topic),
            content: opt_bytes_view(self.content),
            message_ids: str_views(self.message_ids@),
        }
    }
}

/// Relies on `uuid::Uuid::new_v4` for a random id, formatted by its `Display`
/// impl, which writes the hyphenated form of 36 characters.
#[verifier::external_body]
fn generate_id() -> (r: String)
    ensures
        r@.len() == 36,
{
    uuid::Uuid::new_v4().to_string()
}

fn copy_opt_str(o: &Option<String>) -> (r: Option<String>)
    ensures
        opt_str_view(r) == opt_str_view(*o),
{
    match o {
        Some(s) => Some(s.clone()),
        None => None,
    }
}

impl GossipMessage {
    /// A fresh frame of the given kind, with a random id and the current time.
    pub fn new(message_type: MessageType) -> (r: Self)
        ensures
            r@.message_type == message_type,
            r@.message_id.len() == 36,
            r@.from.is_none(),
            r@.to.is_none(),
            r@.topic.is_none(),
            r@.content.is_none(),
            r@.message_ids == Seq::<Seq<char>>::empty(),
    {
        Self::stamped(message_type, Self::current_timestamp())
    }

    /// A fresh frame of the given kind, with a random id and the given time.
    pub fn stamped(message_type: MessageType, timestamp: u64) -> (r: Self)
        ensures
            r@.message_type == message_type,
            r@.message_id.len() == 36,
            r@.timestamp == timestamp,
            r@.from.is_none(),
            r@.to.is_none(),
            r@.topic.is_none(),
            r@.content.is_none(),
            r@.message_ids == Seq::<Seq<char>>::empty(),
    {
        let r = GossipMessage {
            message_type,
            message_id: generate_id(),
            timestamp,
            from: None,
            to: None,
            topic: None,
            content: None,
            message_ids: Vec::new(),
        };
        assert(r@.message_ids =~= Seq::<Seq<char>>::empty());
        r
    }

    pub fn with_topic(self, topic: String) -> (r: Self)
        ensures
            r@ == (MessageView { topic: Some(topic@), ..self@ }),
    {
        GossipMessage { topic: Some(topic), ..self }
    }

    pub fn with_content(self, content: Vec<u8>) -> (r: Self)
        ensures
            r@ == (MessageView { content: Some(content@), ..self@ }),
    {
        GossipMessage { content: Some(content), ..self }
    }

    pub fn with_from(self, from: String) -> (r: Self)
        ensures
            r@ == (MessageView { from: Some(from@), ..self@ }),
    {
        GossipMessage { from: Some(from), ..self }
    }

    pub fn with_to(self, to: String) -> (r: Self)
        ensures
            r@ == (MessageView { to: Some(to@), ..self@ }),
    {
        GossipMessage { to: Some(to), ..self }
    }

    pub fn with_message_ids(self, message_ids: Vec<String>) -> (r: Self)
        ensures
            r@ == (MessageView { message_ids: str_views(message_ids@), ..self@ }),
    {
        GossipMessage { message_ids, ..self }
    }

    /// A copy of the frame.
    pub fn duplicate(&self) -> (r: Self)
        ensures
            r@ == self@,
    {
        let content = match &self.content {
            Some(c) => {
                let d = c.clone();
                assert(d@ =~= c@);
                Some(d)
            },
            None => None,
        };
        GossipMessage {
            message_type: self.message_type,
            message_id: self.message_id.clone(),
            timestamp: self.timestamp,
            from: copy_opt_str(&self.from),
            to: copy_opt_str(&self.to),
            topic: copy_opt_str(&self.topic),
            content,
            message_ids: copy_strs(&self.message_ids),
        }
    }

    /// Relies on `std::time::SystemTime::elapsed`, applied to the Unix epoch,
    /// for the current time in milliseconds; a clock set before the epoch
    /// reads as 0. Nothing is promised of the value.
    #[verifier::external_body]
    pub(crate) fn current_timestamp() -> (r: u64) {
        match std::time::UNIX_EPOCH.elapsed() {
            Ok(d) => d.as_millis() as u64,
            Err(_) => 0,
        }
    }
}

} // verus!
