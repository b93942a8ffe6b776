//! The commands of the protocol and how they are read from frames.

use crate::db::{becomes_earliest, deadline_spec, Db, EntryView};
use crate::decimal::{parse_decimal, parse_integer, parse_integer_spec};
use crate::frame::{frames_view, lemma_array_view, Frame, FrameView};
use crate::text::{decode, str_eq};
use crate::trusted::{atoi_i64, bytes_as_slice, bytes_from_slice, bytes_view};
use crate::Error;
use bytes::Bytes;
use vstd::prelude::*;
use vstd::string::StringExecFns;
use vstd::utf8::{decode_utf8, encode_utf8, valid_utf8};

mod get;
mod ping;
mod publish;
mod set;
mod subscribe;
mod unknown;

pub use get::{get_args_spec, get_reply, lemma_get_reply_after_expiry, Get};
pub use ping::{ping_args_spec, Ping};
pub use publish::{publish_args_spec, Publish, PublishView};
pub use set::{set_args_spec, SetCmd, SetCmdView};
pub use subscribe::{
    actions_view, channels_spec, handle_spec, message_frame, names_view, reported_name,
    subscribe_all, subscribe_args_spec, subscribed_frame, unsubscribe_all, unsubscribed_frame,
    lemma_without_channel, on_received, on_received_spec, with_channel, without_channel, Action,
    ActionView, Forward, ForwardView, Received, ReceivedView, Subscribe, Subscriptions,
    Unsubscribe,
};
pub use unknown::{unknown_command_text, Unknown};

verus! {

/// A command that a client sent.
pub enum Command {
    Get(Get),
    Publish(Publish),
    SetCmd(SetCmd),
    Subscribe(Subscribe),
    Unsubscribe(Unsubscribe),
    Ping(Ping),
    Unknown(Unknown),
}

/// The mathematical value of a [`Command`].
pub enum CommandView {
    Get(Seq<char>),
    Publish(PublishView),
    SetCmd(SetCmdView),
    Subscribe(Seq<Seq<char>>),
    Unsubscribe(Seq<Seq<char>>),
    Ping(Option<Seq<u8>>),
    Unknown(Seq<char>),
}

impl View for Command {
    type V = CommandView;

    open spec fn view(&self) -> CommandView {
        match self {
            Command::Get(c) => CommandView::Get(c@),
            Command::Publish(c) => CommandView::Publish(c@),
            Command::SetCmd(c) => CommandView::SetCmd(c@),
            Command::Subscribe(c) => CommandView::Subscribe(c@),
            Command::Unsubscribe(c) => CommandView::Unsubscribe(c@),
            Command::Ping(c) => CommandView::Ping(c@),
            Command::Unknown(c) => CommandView::Unknown(c@),
        }
    }
}

/// The text that a frame stands for as an argument: a simple string as it
/// is, a bulk string decoded as UTF-8.
pub open spec fn frame_as_string(frame: FrameView) -> Result<Seq<char>, Error> {
    match frame {
        FrameView::Simple(text) => Ok(text),
        FrameView::Bulk(data) => if valid_utf8(data) {
            Ok(decode_utf8(data))
        } else {
            Err(Error::InvalidUtf8)
        },
        _ => Err(Error::ExpectedString),
    }
}

/// The bytes that a frame stands for as an argument: a simple string
/// encoded as UTF-8, a bulk string as it is.
pub open spec fn frame_as_bytes(frame: FrameView) -> Result<Seq<u8>, Error> {
    match frame {
        FrameView::Simple(text) => Ok(encode_utf8(text)),
        FrameView::Bulk(data) => Ok(data),
        _ => Err(Error::ExpectedString),
    }
}

/// The number that a frame stands for as an argument: an integer as it is,
/// a simple string read strictly, a bulk string read leniently.
pub open spec fn frame_as_int(frame: FrameView) -> Result<i64, Error> {
    match frame {
        FrameView::Integer(number) => Ok(number),
        FrameView::Simple(text) => match parse_integer_spec(encode_utf8(text)) {
            Some(number) => Ok(number),
            None => Err(Error::InvalidNumber),
        },
        FrameView::Bulk(data) => match parse_decimal(data) {
            Some(number) => Ok(number),
            None => Err(Error::InvalidNumber),
        },
        _ => Err(Error::ExpectedInt),
    }
}

/// The arguments that are left when the first of `args` is taken, if there is
/// one.
pub open spec fn rest_of(args: Seq<FrameView>) -> Seq<FrameView> {
    if args.len() > 0 {
        args.skip(1)
    } else {
        args
    }
}

/// What the next argument of `args` gives under `read`: nothing where no
/// argument is left.
pub open spec fn next_arg<T>(
    args: Seq<FrameView>,
    read: spec_fn(FrameView) -> Result<T, Error>,
) -> Result<Option<T>, Error> {
    if args.len() == 0 {
        Ok(None)
    } else {
        match read(args[0]) {
            Ok(value) => Ok(Some(value)),
            Err(e) => Err(e),
        }
    }
}

/// The command with the name `name` and the arguments `args`. Names are told
/// apart as they are written, in lower case; a name that is none of those
/// below gives the unknown command.
pub open spec fn named_command_spec(name: Seq<char>, args: Seq<FrameView>) -> Result<
    CommandView,
    Error,
> {
    if name == "get"@ {
        match get_args_spec(args) {
            Ok(c) => Ok(CommandView::Get(c)),
            Err(e) => Err(e),
        }
    } else if name == "publish"@ {
        match publish_args_spec(args) {
            Ok(c) => Ok(CommandView::Publish(c)),
            Err(e) => Err(e),
        }
    } else if name == "set"@ {
        match set_args_spec(args) {
            Ok(c) => Ok(CommandView::SetCmd(c)),
            Err(e) => Err(e),
        }
    } else if name == "subscribe"@ {
        match subscribe_args_spec(args) {
            Ok(c) => Ok(CommandView::Subscribe(c)),
            Err(e) => Err(e),
        }
    } else if name == "unsubscribe"@ {
        match channels_spec(args) {
            Ok(c) => Ok(CommandView::Unsubscribe(c)),
            Err(e) => Err(e),
        }
    } else if name == "ping"@ {
        match ping_args_spec(args) {
            Ok(c) => Ok(CommandView::Ping(c)),
            Err(e) => Err(e),
        }
    } else {
        Ok(CommandView::Unknown(name))
    }
}

/// The command that the items of an array frame stand for. The first item
/// names the command; the others are its arguments.
pub open spec fn command_spec(items: Seq<FrameView>) -> Result<CommandView, Error> {
    if items.len() == 0 {
        Err(Error::ExpectedCommandName)
    } else {
        match frame_as_string(items[0]) {
            Err(e) => Err(e),
            Ok(name) => named_command_spec(name, items.skip(1)),
        }
    }
}

/// Whether a frame got far enough to name a command: it is an array whose
/// first item is a text.
pub open spec fn names_command(frame: FrameView) -> bool {
    frame is Array && frame->Array_0.len() > 0 && frame_as_string(frame->Array_0[0]) is Ok
}

/// The text of the error frame that tells a client why its command was
/// rejected.
pub open spec fn rejection_text(error: Error) -> Seq<char> {
    "ERR "@ + error.text()
}

/// Why a frame was not taken for a command, and what the client is told
/// before the connection ends: the reason, where the frame got far enough
/// to name a command, and nothing where it did not.
#[derive(PartialEq, Debug)]
pub struct Rejection {
    pub error: Error,
    pub reply: Option<Frame>,
}

impl Rejection {
    /// Whether this is the rejection of `frame` for the reason `error`.
    pub open spec fn is_for(&self, frame: FrameView, error: Error) -> bool {
        &&& self.error == error
        &&& match self.reply {
            Some(reply) => names_command(frame) && reply@ == FrameView::Error(
                rejection_text(error),
            ),
            None => !names_command(frame),
        }
    }

    /// The rejection of a frame that names no command.
    fn unnamed(error: Error) -> (rejection: Rejection)
        ensures
            rejection.error == error,
            rejection.reply is None,
    {
        Rejection { error, reply: None }
    }

    /// The rejection of a frame that names a command.
    fn named(error: Error) -> (rejection: Rejection)
        ensures
            rejection.error == error,
            rejection.reply matches Some(reply) && reply@ == FrameView::Error(
                rejection_text(error),
            ),
    {
        let text = String::from_str("ERR ").concat(error.message());
        Rejection { error, reply: Some(Frame::Error(text)) }
    }
}

/// The command that a frame stands for: it must be an array.
pub open spec fn command_of(frame: FrameView) -> Result<CommandView, Error> {
    match frame {
        FrameView::Array(items) => command_spec(items),
        _ => Err(Error::ExpectedArray),
    }
}

/// What came of applying a command.
pub enum Applied {
    /// The answer to the client, and whether the sweeper has to be woken.
    Reply(Frame, bool),
    /// The connection goes into subscription mode with this command.
    Subscribe(Subscribe),
}

/// Whether the exec result `r` is the spec result `s`.
pub open spec fn is_command(r: Result<Command, Error>, s: Result<CommandView, Error>) -> bool {
    match r {
        Ok(c) => s == Ok::<CommandView, Error>(c@),
        Err(e) => s == Err::<CommandView, Error>(e),
    }
}

impl Command {
    /// Reads the command that `frame` stands for.
    pub fn from_frame(frame: Frame) -> (r: Result<Command, Error>)
        ensures
            is_command(r, command_of(frame@)),
    {
        match Command::read(frame) {
            Ok(command) => Ok(command),
            Err(rejection) => Err(rejection.error),
        }
    }

    /// Reads the command that `frame` stands for, and where it stands for
    /// none, also makes what the client is told.
    pub fn read(frame: Frame) -> (r: Result<Command, Rejection>)
        ensures
            match command_of(frame@) {
                Ok(command) => r matches Ok(c) && c@ == command,
                Err(e) => r matches Err(rejection) && rejection.is_for(frame@, e),
            },
    {
        let mut parse = match Parse::new(frame) {
            Ok(parse) => parse,
            Err(e) => {
                return Err(Rejection::unnamed(e));
            },
        };
        let name = match parse.next_string() {
            Err(e) => {
                return Err(Rejection::unnamed(e));
            },
            Ok(None) => {
                return Err(Rejection::unnamed(Error::ExpectedCommandName));
            },
            Ok(Some(name)) => name,
        };
        match Command::named(name, parse) {
            Ok(command) => Ok(command),
            Err(e) => Err(Rejection::named(e)),
        }
    }

    /// Reads the arguments of the command with the name `name`.
    fn named(name: String, parse: Parse) -> (r: Result<Command, Error>)
        ensures
            is_command(r, named_command_spec(name@, parse.remaining())),
    {
        if str_eq(name.as_str(), "get") {
            match Get::from_frame(parse) {
                Ok(c) => Ok(Command::Get(c)),
                Err(e) => Err(e),
            }
        } else if str_eq(name.as_str(), "publish") {
            match Publish::from_frame(parse) {
                Ok(c) => Ok(Command::Publish(c)),
                Err(e) => Err(e),
            }
        } else if str_eq(name.as_str(), "set") {
            match SetCmd::from_frame(parse) {
                Ok(c) => Ok(Command::SetCmd(c)),
                Err(e) => Err(e),
            }
        } else if str_eq(name.as_str(), "subscribe") {
            match Subscribe::from_frame(parse) {
                Ok(c) => Ok(Command::Subscribe(c)),
                Err(e) => Err(e),
            }
        } else if str_eq(name.as_str(), "unsubscribe") {
            match Unsubscribe::from_frame(parse) {
                Ok(c) => Ok(Command::Unsubscribe(c)),
                Err(e) => Err(e),
            }
        } else if str_eq(name.as_str(), "ping") {
            match Ping::from_frame(parse) {
                Ok(c) => Ok(Command::Ping(c)),
                Err(e) => Err(e),
            }
        } else {
            Ok(Command::Unknown(Unknown::new(name.as_str())))
        }
    }

    /// Applies the command to the state at the time `now`.
    ///
    /// `GET`, `SET`, `PUBLISH`, `PING` and an unknown command give an answer
    /// for the client; `SET` may also ask to wake the sweeper. `SUBSCRIBE`
    /// touches nothing yet and is handed back for the subscription mode.
    /// `UNSUBSCRIBE` has no meaning outside that mode and fails.
    pub fn apply(self, db: &mut Db, now: u64) -> (r: Result<Applied, Error>)
        requires
            old(db)@.wf(),
        ensures
            final(db)@.wf(),
            final(db)@.topics() == old(db)@.topics(),
            final(db)@.is_shutdown() == old(db)@.is_shutdown(),
            final(db)@.entries() == match self@ {
                CommandView::SetCmd(set) => old(db)@.entries().insert(
                    set.key,
                    EntryView { data: set.value, expires_at: deadline_spec(now, set.expire) },
                ),
                _ => old(db)@.entries(),
            },
            !(self@ is SetCmd) ==> final(db)@.index() == old(db)@.index(),
            match self@ {
                CommandView::Get(key) => r matches Ok(Applied::Reply(frame, wake)) && !wake
                    && frame@ == get_reply(old(db)@.entries(), key),
                CommandView::Publish(publish) => r matches Ok(Applied::Reply(frame, wake))
                    && !wake && frame@ is Integer && 0 <= frame@->Integer_0 && (!old(
                    db,
                )@.topics().contains(publish.channel) ==> frame@->Integer_0 == 0),
                CommandView::SetCmd(set) => r matches Ok(Applied::Reply(frame, wake)) && frame@
                    == FrameView::Simple("OK"@) && wake == becomes_earliest(
                    old(db)@.entries(),
                    set.key,
                    deadline_spec(now, set.expire),
                ),
                CommandView::Subscribe(channels) => r matches Ok(Applied::Subscribe(subscribe))
                    && subscribe@ == channels,
                CommandView::Unsubscribe(_) => r matches Err(e) && e
                    == Error::UnsupportedInContext,
                CommandView::Ping(msg) => r matches Ok(Applied::Reply(frame, wake)) && !wake
                    && frame@ == match msg {
                    Some(msg) => FrameView::Bulk(msg),
                    None => FrameView::Simple("PONG"@),
                },
                CommandView::Unknown(name) => r matches Ok(Applied::Reply(frame, wake)) && !wake
                    && frame@ == FrameView::Error(unknown_command_text(name)),
            },
    {
        match self {
            Command::Get(cmd) => Ok(Applied::Reply(cmd.apply(db), false)),
            Command::Publish(cmd) => Ok(Applied::Reply(cmd.apply(db), false)),
            Command::SetCmd(cmd) => {
                let (frame, wake) = cmd.apply(db, now);
                Ok(Applied::Reply(frame, wake))
            },
            Command::Subscribe(cmd) => Ok(Applied::Subscribe(cmd)),
            Command::Ping(cmd) => Ok(Applied::Reply(cmd.apply(), false)),
            Command::Unknown(cmd) => Ok(Applied::Reply(cmd.apply(), false)),
            Command::Unsubscribe(_) => Err(Error::UnsupportedInContext),
        }
    }

    /// The name of the command, as a client writes it.
    pub fn get_name(&self) -> (name: &str)
        ensures
            name@ == reported_name(self@),
    {
        match self {
            Command::Get(_) => "get",
            Command::Publish(_) => "publish",
            Command::SetCmd(_) => "set",
            Command::Subscribe(_) => "subscribe",
            Command::Unsubscribe(_) => "unsubscribe",
            Command::Ping(_) => "ping",
            Command::Unknown(cmd) => cmd.get_name(),
        }
    }
}

/// A cursor over the items of an array frame.
pub struct Parse {
    /// The items that are left, the next one last.
    frames: Vec<Frame>,
}

impl Parse {
    /// The items that are left, the next one first.
    pub closed spec fn remaining(&self) -> Seq<FrameView> {
        Seq::new(
            self.frames.len() as nat,
            |i: int| self.frames[self.frames.len() - 1 - i]@,
        )
    }

    /// A cursor over the items of `arr`, which must be an array frame.
    pub fn new(arr: Frame) -> (r: Result<Parse, Error>)
        ensures
            match arr@ {
                FrameView::Array(items) => r matches Ok(parse) && parse.remaining() == items,
                _ => r matches Err(e) && e == Error::ExpectedArray,
            },
    {
        match arr {
            Frame::Array(items) => {
                proof {
                    lemma_array_view(items);
                }
                let ghost all = items@;
                let mut items = items;
                let mut frames: Vec<Frame> = Vec::new();
                while items.len() > 0
                    invariant
                        items@.len() + frames@.len() == all.len(),
                        forall|i: int| 0 <= i < items@.len() ==> items@[i] == all[i],
                        forall|i: int|
                            0 <= i < frames@.len() ==> frames@[i] == all[all.len() - 1 - i],
                    decreases items.len(),
                {
                    let frame = items.pop().unwrap();
                    frames.push(frame);
                }
                let parse = Parse { frames };
                assert(parse.remaining() =~= frames_view(all));
                Ok(parse)
            },
            _ => Err(Error::ExpectedArray),
        }
    }

    /// Takes the next item, if one is left.
    pub fn next(&mut self) -> (item: Option<Frame>)
        ensures
            final(self).remaining() == rest_of(old(self).remaining()),
            match item {
                Some(frame) => old(self).remaining().len() > 0 && frame@ == old(
                    self,
                ).remaining()[0],
                None => old(self).remaining().len() == 0,
            },
    {
        let item = self.frames.pop();
        assert(self.remaining() =~= rest_of(old(self).remaining()));
        item
    }

    /// Takes the next item as a text.
    pub fn next_string(&mut self) -> (r: Result<Option<String>, Error>)
        ensures
            final(self).remaining() == rest_of(old(self).remaining()),
            match next_arg(old(self).remaining(), |f: FrameView| frame_as_string(f)) {
                Ok(Some(text)) => r matches Ok(Some(s)) && s@ == text,
                Ok(None) => r matches Ok(None),
                Err(e) => r matches Err(x) && x == e,
            },
    {
        let frame = match self.next() {
            Some(frame) => frame,
            None => {
                return Ok(None);
            },
        };
        match frame {
            Frame::Simple(s) => Ok(Some(s)),
            Frame::Bulk(bytes) => match decode(bytes_as_slice(&bytes)) {
                Some(s) => Ok(Some(s)),
                None => Err(Error::InvalidUtf8),
            },
            _ => Err(Error::ExpectedString),
        }
    }

    /// Takes the next item as raw bytes.
    pub fn next_bytes(&mut self) -> (r: Result<Option<Bytes>, Error>)
        ensures
            final(self).remaining() == rest_of(old(self).remaining()),
            match next_arg(old(self).remaining(), |f: FrameView| frame_as_bytes(f)) {
                Ok(Some(data)) => r matches Ok(Some(b)) && bytes_view(b) == data,
                Ok(None) => r matches Ok(None),
                Err(e) => r matches Err(x) && x == e,
            },
    {
        let frame = match self.next() {
            Some(frame) => frame,
            None => {
                return Ok(None);
            },
        };
        match frame {
            Frame::Simple(s) => Ok(Some(bytes_from_slice(s.as_str().as_bytes()))),
            Frame::Bulk(bytes) => Ok(Some(bytes)),
            _ => Err(Error::ExpectedString),
        }
    }

    /// Takes the next item as a number.
    pub fn next_int(&mut self) -> (r: Result<Option<i64>, Error>)
        ensures
            final(self).remaining() == rest_of(old(self).remaining()),
            r == next_arg(old(self).remaining(), |f: FrameView| frame_as_int(f)),
    {
        let frame = match self.next() {
            Some(frame) => frame,
            None => {
                return Ok(None);
            },
        };
        match frame {
            Frame::Integer(i) => Ok(Some(i)),
            Frame::Simple(s) => match parse_integer(s.as_str().as_bytes()) {
                Some(i) => Ok(Some(i)),
                None => Err(Error::InvalidNumber),
            },
            Frame::Bulk(val) => match atoi_i64(bytes_as_slice(&val)) {
                Some(i) => Ok(Some(i)),
                None => Err(Error::InvalidNumber),
            },
            _ => Err(Error::ExpectedInt),
        }
    }
}

} // verus!
