//! `PUBLISH channel message`: a message for the subscribers of a channel.

use crate::cmd::{frame_as_string, rest_of, Parse};
use crate::db::Db;
use crate::frame::{Frame, FrameView};
use crate::trusted::{bytes_from_slice, bytes_view};
use crate::Error;
use bytes::Bytes;
use vstd::prelude::*;
use vstd::string::StringExecFns;
use vstd::utf8::encode_utf8;

verus! {

/// The command that publishes a message on a channel.
pub struct Publish {
    channel: String,
    message: Bytes,
}

/// The mathematical value of a [`Publish`].
pub struct PublishView {
    pub channel: Seq<char>,
    pub message: Seq<u8>,
}

impl View for Publish {
    type V = PublishView;

    closed spec fn view(&self) -> PublishView {
        PublishView { channel: self.channel@, message: bytes_view(self.message) }
    }
}

/// What the arguments of `PUBLISH` hold: the channel, then the message, both
/// as texts.
pub open spec fn publish_args_spec(args: Seq<FrameView>) -> Result<PublishView, Error> {
    if args.len() == 0 {
        Err(Error::ExpectedChannel)
    } else {
        match frame_as_string(args[0]) {
            Err(e) => Err(e),
            Ok(channel) => if args.len() == 1 {
                Err(Error::ExpectedMessage)
            } else {
                match frame_as_string(args[1]) {
                    Err(e) => Err(e),
                    Ok(message) => Ok(PublishView { channel, message: encode_utf8(message) }),
                }
            },
        }
    }
}

impl Publish {
    /// The command that publishes `message` on `channel`.
    pub fn new(channel: &str, message: Bytes) -> (publish: Publish)
        ensures
            publish@ == (PublishView { channel: channel@, message: bytes_view(message) }),
    {
        Publish { channel: String::from_str(channel), message }
    }

    /// The channel and the message, handed out.
    pub fn into_parts(self) -> (parts: (String, Bytes))
        ensures
            parts.0@ == self@.channel,
            bytes_view(parts.1) == self@.message,
    {
        (self.channel, self.message)
    }

    /// Reads the arguments of `PUBLISH`.
    pub fn from_frame(parse: Parse) -> (r: Result<Publish, Error>)
        ensures
            match publish_args_spec(parse.remaining()) {
                Ok(view) => r matches Ok(publish) && publish@ == view,
                Err(e) => r matches Err(x) && x == e,
            },
    {
        let mut parse = parse;
        let ghost args = parse.remaining();
        let channel = match parse.next_string() {
            Err(e) => {
                return Err(e);
            },
            Ok(None) => {
                return Err(Error::ExpectedChannel);
            },
            Ok(Some(channel)) => channel,
        };
        assert(args.len() > 1 ==> rest_of(args)[0] == args[1]);
        let message = match parse.next_string() {
            Err(e) => {
                return Err(e);
            },
            Ok(None) => {
                return Err(Error::ExpectedMessage);
            },
            Ok(Some(message)) => bytes_from_slice(message.as_str().as_bytes()),
        };
        Ok(Publish { channel, message })
    }

    /// Publishes the message and answers the client with the number of
    /// subscribers that the topic counted: zero where the channel has no
    /// topic.
    pub fn apply(self, db: &Db) -> (response: Frame)
        ensures
            response@ is Integer,
            0 <= response@->Integer_0,
            !db@.topics().contains(self@.channel) ==> response@ == FrameView::Integer(0),
    {
        let count = db.publish(self.channel.as_str(), self.message);
        Publish::response(count)
    }

    /// The answer to the client where the message reached `count`
    /// subscribers: the count as an integer frame. A count beyond the
    /// integers of the wire is cut to their width.
    pub fn response(count: usize) -> (response: Frame)
        ensures
            response@ == FrameView::Integer(count as i64),
            count <= i64::MAX ==> response@->Integer_0 == count,
    {
        Frame::Integer(count as i64)
    }

    /// The frame that a client sends for this command.
    pub fn into_frame(self) -> (frame: Frame)
        ensures
            frame@ == FrameView::Array(
                seq![
                    FrameView::Bulk(encode_utf8("publish"@)),
                    FrameView::Bulk(encode_utf8(self@.channel)),
                    FrameView::Bulk(self@.message),
                ],
            ),
    {
        let ghost none = Seq::<FrameView>::empty();
        let ghost name = FrameView::Bulk(encode_utf8("publish"@));
        let ghost channel = FrameView::Bulk(encode_utf8(self@.channel));
        let ghost message = FrameView::Bulk(self@.message);
        let mut frame = Frame::array();
        frame.push_bulk(bytes_from_slice("publish".as_bytes()));
        frame.push_bulk(bytes_from_slice(self.channel.as_str().as_bytes()));
        frame.push_bulk(self.message);
        assert(none.push(name).push(channel).push(message) =~= seq![name, channel, message]);
        frame
    }
}

} // verus!
