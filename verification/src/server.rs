//! What a server decides for one connection.

use crate::cmd::{command_of, Command, Rejection};
use crate::frame::Frame;
use crate::shutdown::Shutdown;
use vstd::prelude::*;

verus! {

/// How many connections a server handles at a time. Further clients wait
/// until a handler is done.
pub const MAX_CONNECTIONS: usize = 250;

/// What a handler does after it looked for the next frame.
pub enum Next {
    /// Stop: the server shuts down, or the client closed the connection.
    Stop,
    /// Apply the command.
    Apply(Command),
}

/// Decides how a handler goes on from what it found when it looked for the
/// next frame: `None` where the client closed the connection.
///
/// A handler that has seen the shutdown signal starts no command. A frame
/// that is no command ends the connection with an error, after the client
/// was told what the rejection holds.
pub fn next_step(shutdown: &Shutdown, frame: Option<Frame>) -> (r: Result<Next, Rejection>)
    ensures
        shutdown@ || frame is None ==> r matches Ok(Next::Stop),
        !shutdown@ && frame is Some ==> match command_of(frame->Some_0@) {
            Ok(command) => r matches Ok(Next::Apply(c)) && c@ == command,
            Err(e) => r matches Err(rejection) && rejection.is_for(frame->Some_0@, e),
        },
{
    if shutdown.is_shutdown() {
        return Ok(Next::Stop);
    }
    match frame {
        None => Ok(Next::Stop),
        Some(frame) => match Command::read(frame) {
            Ok(command) => Ok(Next::Apply(command)),
            Err(rejection) => Err(rejection),
        },
    }
}

} // verus!
