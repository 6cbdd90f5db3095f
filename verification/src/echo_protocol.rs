//! The messages of the echo ring.
use vstd::prelude::*;
use crate::command::{Command, CommandError, command_of, parse_command, result_view};

verus! {

/// The console's input has ended.
pub struct InputEof;

/// A line read from the console.
pub struct InputLine(pub String);

/// A request that travels along the ring and is answered by its oldest node.
pub struct Request;

impl InputLine {
    /// The command the line holds.
    pub fn command(&self) -> (r: Result<Command, CommandError>)
        ensures
            result_view(r) == command_of(self.0@),
    {
        parse_command(self.0.as_str())
    }
}

} // verus!
