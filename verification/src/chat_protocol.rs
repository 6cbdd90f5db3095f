//! The messages of the group chat.
//!
//! Actors are named by their plain addresses; a chat message is a sequence of
//! bytes, as it was read from a participant's connection.
use vstd::prelude::*;

verus! {

/// A connection asks the room to admit `member`, and to send the recent
/// history to `reply_to`.
pub struct Join {
    pub reply_to: u64,
    pub member: u64,
    /// The participant's socket address, as written for people to read.
    pub peer_addr: String,
}

/// The room's answer to `Join`: the recent messages, oldest first.
pub struct Joined {
    pub history: Vec<Vec<u8>>,
}

/// A participant posts `message`; the room acknowledges to `reply_to`.
pub struct Post {
    pub reply_to: u64,
    pub message: Vec<u8>,
}

/// A message the room passes on to a member.
pub struct Message {
    pub message: Vec<u8>,
}

/// The contents of a list of messages.
pub open spec fn messages_view(v: Seq<Vec<u8>>) -> Seq<Seq<u8>> {
    v.map_values(|m: Vec<u8>| m@)
}

} // verus!
