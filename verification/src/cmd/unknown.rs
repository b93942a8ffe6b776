//! A command that the server does not know.

use crate::frame::{Frame, FrameView};
use vstd::prelude::*;
use vstd::string::StringExecFns;

verus! {

/// A command with a name that the server does not know.
pub struct Unknown {
    command_name: String,
}

impl View for Unknown {
    type V = Seq<char>;

    /// The name that the client sent.
    closed spec fn view(&self) -> Seq<char> {
        self.command_name@
    }
}

/// The text of the error that answers an unknown command.
pub open spec fn unknown_command_text(name: Seq<char>) -> Seq<char> {
    "ERR unknown command '"@ + name + "'"@
}

impl Unknown {
    /// An unknown command with the name `name`.
    pub fn new(name: &str) -> (unknown: Unknown)
        ensures
            unknown@ == name@,
    {
        Unknown { command_name: String::from_str(name) }
    }

    /// The answer to the client: an error that names the command.
    pub fn apply(self) -> (response: Frame)
        ensures
            response@ == FrameView::Error(unknown_command_text(self@)),
    {
        let text = String::from_str("ERR unknown command '");
        let text = text.concat(self.command_name.as_str());
        let text = text.concat("'");
        Frame::Error(text)
    }

    /// The name that the client sent.
    pub fn get_name(&self) -> (name: &str)
        ensures
            name@ == self@,
    {
        self.command_name.as_str()
    }
}

} // verus!
