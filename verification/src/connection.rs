//! The group chat's connection to one participant.
//!
//! The connection reads the participant's bytes in chunks of at most
//! `READ_BUFFER_SIZE` and posts each chunk to the room as one message; a read
//! of no bytes means that the participant has closed the connection.
use vstd::prelude::*;

verus! {

/// The size of the buffer a connection reads into.
pub const READ_BUFFER_SIZE: usize = 1024;

/// What a connection does after a read.
pub enum ReadOutcome {
    /// The participant has closed its side: stop reading.
    Closed,
    /// Post these bytes to the room.
    Post(Vec<u8>),
}

/// What a read of `byte_count` bytes into `buf` leads to.
pub fn after_read(buf: &[u8], byte_count: usize) -> (r: ReadOutcome)
    requires
        byte_count <= buf@.len(),
    ensures
        byte_count == 0 ==> r is Closed,
        byte_count > 0 ==> (r matches ReadOutcome::Post(m) && m@ == buf@.take(byte_count as int)),
{
    if byte_count == 0 {
        return ReadOutcome::Closed;
    }
    let mut m: Vec<u8> = Vec::new();
    let mut i: usize = 0;
    while i < byte_count
        invariant
            i <= byte_count <= buf@.len(),
            m@ == buf@.take(i as int),
        decreases byte_count - i,
    {
        m.push(buf[i]);
        i = i + 1;
        proof {
            assert(m@ =~= buf@.take(i as int));
        }
    }
    ReadOutcome::Post(m)
}

} // verus!
