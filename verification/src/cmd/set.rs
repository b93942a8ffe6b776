//! `SET key value [EX seconds | PX milliseconds]`: a value for a key.

use crate::cmd::{frame_as_bytes, frame_as_int, frame_as_string, rest_of, Parse};
use crate::db::{becomes_earliest, deadline_spec, Db, EntryView};
use crate::frame::{Frame, FrameView};
use crate::text::str_eq;
use crate::trusted::{bytes_from_slice, bytes_view};
use crate::Error;
use bytes::Bytes;
use vstd::prelude::*;
use vstd::string::StringExecFns;
use vstd::utf8::encode_utf8;

verus! {

/// The command that stores a value under a key.
pub struct SetCmd {
    key: String,
    value: Bytes,
    /// After how many milliseconds the value expires.
    expire: Option<u128>,
}

/// The mathematical value of a [`SetCmd`].
pub struct SetCmdView {
    pub key: Seq<char>,
    pub value: Seq<u8>,
    /// After how many milliseconds the value expires.
    pub expire: Option<u128>,
}

impl View for SetCmd {
    type V = SetCmdView;

    closed spec fn view(&self) -> SetCmdView {
        SetCmdView { key: self.key@, value: bytes_view(self.value), expire: self.expire }
    }
}

/// The milliseconds that the number behind `EX` (`unit` 1000) or `PX`
/// (`unit` 1) stands for.
pub open spec fn expiry_spec(args: Seq<FrameView>, unit: u128) -> Result<Option<u128>, Error> {
    if args.len() == 3 {
        Err(Error::ExpectedExpiry)
    } else {
        match frame_as_int(args[3]) {
            Err(e) => Err(e),
            Ok(amount) => if amount < 0 {
                Err(Error::NegativeExpiry)
            } else {
                Ok(Some((amount * unit) as u128))
            },
        }
    }
}

/// What the arguments of `SET` hold: the key as a text, the value as bytes,
/// and after them either nothing or `EX` with seconds or `PX` with
/// milliseconds.
pub open spec fn set_args_spec(args: Seq<FrameView>) -> Result<SetCmdView, Error> {
    if args.len() == 0 {
        Err(Error::ExpectedKey)
    } else {
        match frame_as_string(args[0]) {
            Err(e) => Err(e),
            Ok(key) => if args.len() == 1 {
                Err(Error::ExpectedValue)
            } else {
                match frame_as_bytes(args[1]) {
                    Err(e) => Err(e),
                    Ok(value) => if args.len() == 2 {
                        Ok(SetCmdView { key, value, expire: None })
                    } else {
                        match frame_as_string(args[2]) {
                            Err(e) => Err(e),
                            Ok(option) => {
                                let expire = if option == "EX"@ {
                                    expiry_spec(args, 1000)
                                } else if option == "PX"@ {
                                    expiry_spec(args, 1)
                                } else {
                                    Err(Error::UnsupportedOption)
                                };
                                match expire {
                                    Err(e) => Err(e),
                                    Ok(expire) => Ok(SetCmdView { key, value, expire }),
                                }
                            },
                        }
                    },
                }
            },
        }
    }
}

/// Reads the number behind `EX` or `PX` and turns it into milliseconds.
fn read_expiry(parse: &mut Parse, unit: u128) -> (r: Result<Option<u128>, Error>)
    requires
        unit <= 1000,
    ensures
        final(parse).remaining() == rest_of(old(parse).remaining()),
        old(parse).remaining().len() == 0 ==> r == Err::<Option<u128>, Error>(
            Error::ExpectedExpiry,
        ),
        old(parse).remaining().len() > 0 ==> r == match frame_as_int(old(parse).remaining()[0]) {
            Err(e) => Err::<Option<u128>, Error>(e),
            Ok(amount) => if amount < 0 {
                Err(Error::NegativeExpiry)
            } else {
                Ok(Some((amount * unit) as u128))
            },
        },
{
    match parse.next_int() {
        Err(e) => Err(e),
        Ok(None) => Err(Error::ExpectedExpiry),
        Ok(Some(amount)) => {
            if amount < 0 {
                Err(Error::NegativeExpiry)
            } else {
                assert(amount * unit <= 0x7fff_ffff_ffff_ffff * 1000) by (nonlinear_arith)
                    requires
                        0 <= amount <= 0x7fff_ffff_ffff_ffff,
                        unit <= 1000,
                ;
                Ok(Some(amount as u128 * unit))
            }
        },
    }
}

impl SetCmd {
    /// The command that stores `value` under `key`, to expire after
    /// `expire` milliseconds where that is given.
    pub fn new(key: &str, value: Bytes, expire: Option<u128>) -> (set: SetCmd)
        ensures
            set@ == (SetCmdView { key: key@, value: bytes_view(value), expire }),
    {
        SetCmd { key: String::from_str(key), value, expire }
    }

    /// The key, the value and the time to live in milliseconds, handed out.
    pub fn into_parts(self) -> (parts: (String, Bytes, Option<u128>))
        ensures
            parts.0@ == self@.key,
            bytes_view(parts.1) == self@.value,
            parts.2 == self@.expire,
    {
        (self.key, self.value, self.expire)
    }

    /// Reads the arguments of `SET`.
    pub fn from_frame(parse: Parse) -> (r: Result<SetCmd, Error>)
        ensures
            match set_args_spec(parse.remaining()) {
                Ok(view) => r matches Ok(set) && set@ == view,
                Err(e) => r matches Err(x) && x == e,
            },
    {
        let mut parse = parse;
        let ghost args = parse.remaining();
        let key = match parse.next_string() {
            Err(e) => {
                return Err(e);
            },
            Ok(None) => {
                return Err(Error::ExpectedKey);
            },
            Ok(Some(key)) => key,
        };
        assert(args.len() > 1 ==> rest_of(args)[0] == args[1]);
        let value = match parse.next_bytes() {
            Err(e) => {
                return Err(e);
            },
            Ok(None) => {
                return Err(Error::ExpectedValue);
            },
            Ok(Some(value)) => value,
        };
        assert(args.len() > 2 ==> rest_of(rest_of(args))[0] == args[2]);
        let option = match parse.next_string() {
            Err(e) => {
                return Err(e);
            },
            Ok(None) => {
                return Ok(SetCmd { key, value, expire: None });
            },
            Ok(Some(option)) => option,
        };
        assert(args.len() > 3 ==> rest_of(rest_of(rest_of(args)))[0] == args[3]);
        let expire = if str_eq(option.as_str(), "EX") {
            read_expiry(&mut parse, 1000)
        } else if str_eq(option.as_str(), "PX") {
            read_expiry(&mut parse, 1)
        } else {
            Err(Error::UnsupportedOption)
        };
        match expire {
            Err(e) => Err(e),
            Ok(expire) => Ok(SetCmd { key, value, expire }),
        }
    }

    /// Stores the value at the time `now` and answers the client with `OK`.
    /// Also tells whether the sweeper has to be woken.
    pub fn apply(self, db: &mut Db, now: u64) -> (done: (Frame, bool))
        requires
            old(db)@.wf(),
        ensures
            final(db)@.wf(),
            final(db)@.entries() == old(db)@.entries().insert(
                self@.key,
                EntryView { data: self@.value, expires_at: deadline_spec(now, self@.expire) },
            ),
            final(db)@.topics() == old(db)@.topics(),
            final(db)@.is_shutdown() == old(db)@.is_shutdown(),
            done.0@ == FrameView::Simple("OK"@),
            done.1 == becomes_earliest(
                old(db)@.entries(),
                self@.key,
                deadline_spec(now, self@.expire),
            ),
    {
        let wake = db.set(self.key, self.value, self.expire, now);
        (Frame::Simple(String::from_str("OK")), wake)
    }

    /// The frame that a client sends for this command. An expiration goes
    /// out as `px` with milliseconds.
    pub fn into_frame(self) -> (frame: Frame)
        ensures
            frame@ == FrameView::Array(
                match self@.expire {
                    Some(ms) => seq![
                        FrameView::Bulk(encode_utf8("set"@)),
                        FrameView::Bulk(encode_utf8(self@.key)),
                        FrameView::Bulk(self@.value),
                        FrameView::Bulk(encode_utf8("px"@)),
                        FrameView::Integer(ms as i64),
                    ],
                    None => seq![
                        FrameView::Bulk(encode_utf8("set"@)),
                        FrameView::Bulk(encode_utf8(self@.key)),
                        FrameView::Bulk(self@.value),
                    ],
                },
            ),
    {
        let ghost none = Seq::<FrameView>::empty();
        let ghost name = FrameView::Bulk(encode_utf8("set"@));
        let ghost key = FrameView::Bulk(encode_utf8(self@.key));
        let ghost value = FrameView::Bulk(self@.value);
        let mut frame = Frame::array();
        frame.push_bulk(bytes_from_slice("set".as_bytes()));
        frame.push_bulk(bytes_from_slice(self.key.as_str().as_bytes()));
        frame.push_bulk(self.value);
        assert(none.push(name).push(key).push(value) =~= seq![name, key, value]);
        if let Some(ms) = self.expire {
            let ghost option = FrameView::Bulk(encode_utf8("px"@));
            let ghost amount = FrameView::Integer(ms as i64);
            frame.push_bulk(bytes_from_slice("px".as_bytes()));
            frame.push_int(ms as i64);
            assert(seq![name, key, value].push(option).push(amount) =~= seq![
                name,
                key,
                value,
                option,
                amount,
            ]);
        }
        frame
    }
}

} // verus!
