//! Whether a handler has seen the signal to shut down.

use vstd::prelude::*;

verus! {

/// What a handler knows of the shutdown signal. The handler waits for the
/// signal itself and reports it here.
pub struct Shutdown {
    is_shutdown: bool,
}

impl View for Shutdown {
    type V = bool;

    /// Whether the signal was seen.
    closed spec fn view(&self) -> bool {
        self.is_shutdown
    }
}

impl Shutdown {
    /// Nothing seen yet.
    pub fn new() -> (shutdown: Shutdown)
        ensures
            !shutdown@,
    {
        Shutdown { is_shutdown: false }
    }

    /// Whether the signal was seen.
    pub fn is_shutdown(&self) -> (seen: bool)
        ensures
            seen == self@,
    {
        self.is_shutdown
    }

    /// Takes note that the signal arrived. From then on it stays seen.
    pub fn recv(&mut self)
        ensures
            final(self)@,
    {
        self.is_shutdown = true;
    }
}

} // verus!
