//! `GET key`: the value of a key.

use crate::cmd::{frame_as_string, Parse};
use crate::db::{after_sweep, deadline_spec, lookup, Db, EntryView};
use crate::frame::{Frame, FrameView};
use crate::trusted::bytes_from_slice;
use crate::Error;
use vstd::prelude::*;
use vstd::string::StringExecFns;
use vstd::utf8::encode_utf8;

verus! {

/// The command that asks for the value of a key.
pub struct Get {
    key: String,
}

impl View for Get {
    type V = Seq<char>;

    /// The key that is asked for.
    closed spec fn view(&self) -> Seq<char> {
        self.key@
    }
}

/// The key that the arguments of `GET` name: the first argument, as a text.
pub open spec fn get_args_spec(args: Seq<FrameView>) -> Result<Seq<char>, Error> {
    if args.len() == 0 {
        Err(Error::ExpectedKey)
    } else {
        frame_as_string(args[0])
    }
}

/// What `GET` answers for `key`: the value under it as a bulk string, or the
/// null frame where there is none.
pub open spec fn get_reply(entries: Map<Seq<char>, EntryView>, key: Seq<char>) -> FrameView {
    match lookup(entries, key) {
        Some(data) => FrameView::Bulk(data),
        None => FrameView::Null,
    }
}

/// A value that is set at `now` to live for `ttl` milliseconds is what `GET`
/// answers after every sweep before `now + ttl`, and `GET` answers the null
/// frame after every sweep from `now + ttl` on, as long as nothing else is
/// set under its key.
pub proof fn lemma_get_reply_after_expiry(
    entries: Map<Seq<char>, EntryView>,
    key: Seq<char>,
    data: Seq<u8>,
    now: u64,
    ttl: u128,
    later: u64,
)
    ensures
        ({
            let entry = EntryView { data, expires_at: deadline_spec(now, Some(ttl)) };
            get_reply(after_sweep(entries.insert(key, entry), later), key) == if later >= now
                + ttl {
                FrameView::Null
            } else {
                FrameView::Bulk(data)
            }
        }),
{
}

impl Get {
    /// The command that asks for `key`.
    pub fn new(key: &str) -> (get: Get)
        ensures
            get@ == key@,
    {
        Get { key: String::from_str(key) }
    }

    /// The key that is asked for.
    pub fn key(&self) -> (key: &str)
        ensures
            key@ == self@,
    {
        self.key.as_str()
    }

    /// Reads the arguments of `GET`.
    pub fn from_frame(parse: Parse) -> (r: Result<Get, Error>)
        ensures
            match get_args_spec(parse.remaining()) {
                Ok(key) => r matches Ok(get) && get@ == key,
                Err(e) => r matches Err(x) && x == e,
            },
    {
        let mut parse = parse;
        match parse.next_string() {
            Err(e) => Err(e),
            Ok(Some(key)) => Ok(Get { key }),
            Ok(None) => Err(Error::ExpectedKey),
        }
    }

    /// The answer to the client: the value under the key as a bulk string,
    /// or the null frame where there is none.
    pub fn apply(self, db: &Db) -> (response: Frame)
        ensures
            response@ == get_reply(db@.entries(), self@),
    {
        match db.get(self.key.as_str()) {
            Some(data) => Frame::Bulk(data),
            None => Frame::Null,
        }
    }

    /// The frame that a client sends for this command.
    pub fn into_frame(self) -> (frame: Frame)
        ensures
            frame@ == FrameView::Array(
                seq![
                    FrameView::Bulk(encode_utf8("get"@)),
                    FrameView::Bulk(encode_utf8(self@)),
                ],
            ),
    {
        let ghost none = Seq::<FrameView>::empty();
        let ghost name = FrameView::Bulk(encode_utf8("get"@));
        let ghost key = FrameView::Bulk(encode_utf8(self@));
        let mut frame = Frame::array();
        frame.push_bulk(bytes_from_slice("get".as_bytes()));
        frame.push_bulk(bytes_from_slice(self.key.as_str().as_bytes()));
        assert(none.push(name).push(key) =~= seq![name, key]);
        frame
    }
}

} // verus!
