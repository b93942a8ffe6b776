//! `PING [message]`: an echo.

use crate::cmd::{frame_as_bytes, next_arg, Parse};
use crate::frame::{Frame, FrameView};
use crate::trusted::{bytes_from_slice, bytes_view};
use crate::Error;
use bytes::Bytes;
use vstd::prelude::*;
use vstd::string::StringExecFns;
use vstd::utf8::encode_utf8;

verus! {

/// The command that asks for an echo.
pub struct Ping {
    msg: Option<Bytes>,
}

impl View for Ping {
    type V = Option<Seq<u8>>;

    /// The message to echo, if the client sent one.
    closed spec fn view(&self) -> Option<Seq<u8>> {
        match self.msg {
            Some(msg) => Some(bytes_view(msg)),
            None => None,
        }
    }
}

/// The message that the arguments of `PING` hold: the first argument, as
/// bytes, if there is one.
pub open spec fn ping_args_spec(args: Seq<FrameView>) -> Result<Option<Seq<u8>>, Error> {
    next_arg(args, |f: FrameView| frame_as_bytes(f))
}

impl Ping {
    /// The command that asks to echo `msg`.
    pub fn new(msg: Option<Bytes>) -> (ping: Ping)
        ensures
            ping@ == match msg {
                Some(msg) => Some(bytes_view(msg)),
                None => None,
            },
    {
        Ping { msg }
    }

    /// Reads the arguments of `PING`.
    pub fn from_frame(parse: Parse) -> (r: Result<Ping, Error>)
        ensures
            match ping_args_spec(parse.remaining()) {
                Ok(msg) => r matches Ok(ping) && ping@ == msg,
                Err(e) => r matches Err(x) && x == e,
            },
    {
        let mut parse = parse;
        match parse.next_bytes() {
            Err(e) => Err(e),
            Ok(Some(msg)) => Ok(Ping { msg: Some(msg) }),
            Ok(None) => Ok(Ping { msg: None }),
        }
    }

    /// The answer to the client: the message as a bulk string, or `PONG`
    /// where there is none.
    pub fn apply(self) -> (response: Frame)
        ensures
            response@ == match self@ {
                Some(msg) => FrameView::Bulk(msg),
                None => FrameView::Simple("PONG"@),
            },
    {
        match self.msg {
            Some(msg) => Frame::Bulk(msg),
            None => Frame::Simple(String::from_str("PONG")),
        }
    }

    /// The frame that a client sends for this command.
    pub fn into_frame(self) -> (frame: Frame)
        ensures
            frame@ == FrameView::Array(
                match self@ {
                    Some(msg) => seq![FrameView::Bulk(encode_utf8("ping"@)), FrameView::Bulk(msg)],
                    None => seq![FrameView::Bulk(encode_utf8("ping"@))],
                },
            ),
    {
        let ghost none = Seq::<FrameView>::empty();
        let ghost name = FrameView::Bulk(encode_utf8("ping"@));
        let mut frame = Frame::array();
        frame.push_bulk(bytes_from_slice("ping".as_bytes()));
        assert(none.push(name) =~= seq![name]);
        if let Some(msg) = self.msg {
            frame.push_bulk(msg);
            assert(seq![name].push(FrameView::Bulk(bytes_view(msg))) =~= seq![
                name,
                FrameView::Bulk(bytes_view(msg)),
            ]);
        }
        frame
    }
}

} // verus!
