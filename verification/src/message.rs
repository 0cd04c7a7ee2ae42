//! The plain message record the library aggregates: identifier, timestamp,
//! author and body text.

use vstd::prelude::*;

verus! {

/// One chat message, reduced to the fields the statistics need.
pub struct Message {
    /// Unique message identifier.
    pub id: u64,
    /// Timestamp used only as an ordering key.
    pub timestamp: i64,
    /// Identifier of the author.
    pub author_id: u64,
    /// Raw body text.
    pub content: String,
}

/// Mathematical model of a [`Message`].
#[verifier::ext_equal]
pub struct MessageV {
    pub id: u64,
    pub timestamp: i64,
    pub author_id: u64,
    pub content: Seq<char>,
}

impl View for Message {
    type V = MessageV;

    open spec fn view(&self) -> MessageV {
        MessageV {
            id: self.id,
            timestamp: self.timestamp,
            author_id: self.author_id,
            content: self.content@,
        }
    }
}

} // verus!
