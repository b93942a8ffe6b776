//! An in-memory key/value store with publish/subscribe channels that speaks
//! the RESP wire protocol.
//!
//! This crate holds the verified core: the frame codec, the command model,
//! the keyspace with its expiration index, and the decision logic of the
//! connection and subscription loops. Sockets, tasks and timers live with the
//! embedding server.

use vstd::prelude::*;

pub mod cmd;
pub mod codec_laws;
pub mod connection;
pub mod db;
pub mod decimal;
pub mod expirations;
pub mod frame;
pub mod server;
pub mod shutdown;
pub mod text;
pub mod trusted;

verus! {

/// The port a server listens on unless told otherwise.
pub const DEFAULT_PORT: u16 = 6379;

/// Why a frame, a command or a connection was given up.
#[derive(Clone, Copy, PartialEq, Eq, Debug, Structural)]
pub enum Error {
    /// The bytes are not a frame of the wire protocol.
    InvalidFrame,
    /// A text line is not valid UTF-8.
    InvalidUtf8,
    /// The peer closed the connection in the middle of a frame.
    ConnectionReset,
    /// A command must arrive as an array frame.
    ExpectedArray,
    /// The array of a command is empty.
    ExpectedCommandName,
    /// An argument must be a simple or a bulk string.
    ExpectedString,
    /// An argument must be an integer.
    ExpectedInt,
    /// The text of an integer argument is no number.
    InvalidNumber,
    /// An expiration must not be negative.
    NegativeExpiry,
    /// The key is missing.
    ExpectedKey,
    /// The value is missing.
    ExpectedValue,
    /// The channel name is missing.
    ExpectedChannel,
    /// The message is missing.
    ExpectedMessage,
    /// The number behind `EX` or `PX` is missing.
    ExpectedExpiry,
    /// `SET` takes no option but `EX` and `PX`.
    UnsupportedOption,
    /// `UNSUBSCRIBE` arrived outside a subscription.
    UnsupportedInContext,
}

impl Error {
    /// The text that describes the error.
    pub open spec fn text(self) -> Seq<char> {
        match self {
            Error::InvalidFrame => "protocol error; invalid frame format"@,
            Error::InvalidUtf8 => "protocol error; invalid utf-8 sequence"@,
            Error::ConnectionReset => "connection reset by peer"@,
            Error::ExpectedArray => "protocol error; expected array"@,
            Error::ExpectedCommandName => "protocol error; expected command name"@,
            Error::ExpectedString => "protocol error; expected simple or bulk string"@,
            Error::ExpectedInt => "protocol error; expected int frame"@,
            Error::InvalidNumber => "protocol error; invalid number"@,
            Error::NegativeExpiry => "protocol error; negative expiration"@,
            Error::ExpectedKey => "protocol error; expected key"@,
            Error::ExpectedValue => "protocol error; expected value"@,
            Error::ExpectedChannel => "protocol error; expected channel name"@,
            Error::ExpectedMessage => "protocol error; expected message"@,
            Error::ExpectedExpiry => "protocol error; expected an amount of time"@,
            Error::UnsupportedOption => "currently `SET` only supports the expiration option"@,
            Error::UnsupportedInContext => "`Unsubscribe` is unsupported in this context"@,
        }
    }

    /// The text that describes the error.
    pub fn message(&self) -> (message: &'static str)
        ensures
            message@ == self.text(),
    {
        match self {
            Error::InvalidFrame => "protocol error; invalid frame format",
            Error::InvalidUtf8 => "protocol error; invalid utf-8 sequence",
            Error::ConnectionReset => "connection reset by peer",
            Error::ExpectedArray => "protocol error; expected array",
            Error::ExpectedCommandName => "protocol error; expected command name",
            Error::ExpectedString => "protocol error; expected simple or bulk string",
            Error::ExpectedInt => "protocol error; expected int frame",
            Error::InvalidNumber => "protocol error; invalid number",
            Error::NegativeExpiry => "protocol error; negative expiration",
            Error::ExpectedKey => "protocol error; expected key",
            Error::ExpectedValue => "protocol error; expected value",
            Error::ExpectedChannel => "protocol error; expected channel name",
            Error::ExpectedMessage => "protocol error; expected message",
            Error::ExpectedExpiry => "protocol error; expected an amount of time",
            Error::UnsupportedOption => "currently `SET` only supports the expiration option",
            Error::UnsupportedInContext => "`Unsubscribe` is unsupported in this context",
        }
    }
}

pub type Result<T> = std::result::Result<T, Error>;

} // verus!
