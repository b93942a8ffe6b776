//! RESP frames and their wire codec.

use crate::decimal::{
    decimal, lemma_negative_numeral_len, parse_decimal, push_decimal, push_length, MINUS, ZERO,
};
use crate::text::decode;
use crate::trusted::{atoi_i64, bytes_as_slice, bytes_from_slice, bytes_view};
use bytes::Bytes;
use vstd::prelude::*;
use vstd::slice::slice_subrange;
use vstd::utf8::{decode_utf8, encode_utf8, valid_utf8};

verus! {

/// The tag byte of a simple string, `+`.
pub const TAG_SIMPLE: u8 = 43;

/// The tag byte of an error, `-`.
pub const TAG_ERROR: u8 = 45;

/// The tag byte of an integer, `:`.
pub const TAG_INTEGER: u8 = 58;

/// The tag byte of a bulk string and of the null frame, `$`.
pub const TAG_BULK: u8 = 36;

/// The tag byte of an array, `*`.
pub const TAG_ARRAY: u8 = 42;

/// The carriage return, first byte of a line end.
pub const CR: u8 = 13;

/// The line feed, second byte of a line end.
pub const LF: u8 = 10;

/// One unit of the wire protocol.
#[derive(PartialEq, Debug)]
pub enum Frame {
    /// A text on one line.
    Simple(String),
    /// An error text on one line.
    Error(String),
    /// A signed number.
    Integer(i64),
    /// Raw bytes, with their length in front.
    Bulk(Bytes),
    /// The absence of a value.
    Null,
    /// A row of frames, with their count in front.
    Array(Vec<Frame>),
}

/// The mathematical value of a [`Frame`].
pub enum FrameView {
    Simple(Seq<char>),
    Error(Seq<char>),
    Integer(i64),
    Bulk(Seq<u8>),
    Null,
    Array(Seq<FrameView>),
}

/// Why no frame came out of a buffer.
#[derive(Clone, Copy, PartialEq, Eq, Debug, Structural)]
pub enum Error {
    /// The buffer holds the beginning of a frame; more bytes may complete it.
    Incomplete,
    /// The buffer cannot be the beginning of any frame.
    Other(crate::Error),
}

impl Error {
    /// The text that describes the error.
    pub open spec fn text(self) -> Seq<char> {
        match self {
            Error::Incomplete => "stream ended early"@,
            Error::Other(e) => e.text(),
        }
    }

    /// The text that describes the error.
    pub fn message(&self) -> (message: &'static str)
        ensures
            message@ == self.text(),
    {
        match self {
            Error::Incomplete => "stream ended early",
            Error::Other(e) => e.message(),
        }
    }
}

/// The value of a frame: texts as characters, payloads as bytes, arrays as
/// sequences of values.
pub open spec fn frame_view(frame: Frame) -> FrameView
    decreases frame,
{
    match frame {
        Frame::Simple(s) => FrameView::Simple(s@),
        Frame::Error(s) => FrameView::Error(s@),
        Frame::Integer(n) => FrameView::Integer(n),
        Frame::Bulk(b) => FrameView::Bulk(bytes_view(b)),
        Frame::Null => FrameView::Null,
        Frame::Array(v) => FrameView::Array(
            Seq::new(
                v.len() as nat,
                |i: int|
                    if 0 <= i < v.len() {
                        frame_view(v[i])
                    } else {
                        FrameView::Null
                    },
            ),
        ),
    }
}

impl View for Frame {
    type V = FrameView;

    open spec fn view(&self) -> FrameView {
        frame_view(*self)
    }
}

/// The values of a sequence of frames.
pub open spec fn frames_view(frames: Seq<Frame>) -> Seq<FrameView> {
    Seq::new(frames.len(), |i: int| frames[i]@)
}

/// The value of an array frame is the sequence of the values of its items.
pub proof fn lemma_array_view(items: Vec<Frame>)
    ensures
        Frame::Array(items)@ == FrameView::Array(frames_view(items@)),
{
    reveal_with_fuel(frame_view, 2);
    assert(Frame::Array(items)@->Array_0 =~= frames_view(items@));
}

/// Whether a carriage return and a line feed stand at `i` and `i + 1`.
pub open spec fn is_line_end(s: Seq<u8>, i: int) -> bool {
    0 <= i && i + 1 < s.len() && s[i] == CR && s[i + 1] == LF
}

/// Whether `s` holds a line, that is, a CRLF somewhere.
#[verifier::opaque]
pub open spec fn has_line(s: Seq<u8>) -> bool {
    exists|i: int| is_line_end(s, i)
}

/// The length of the first line of `s`, its CRLF not counted: the place of
/// the first CRLF.
#[verifier::opaque]
pub open spec fn line_len(s: Seq<u8>) -> int {
    choose|i: int| is_line_end(s, i) && forall|j: int| 0 <= j < i ==> !is_line_end(s, j)
}

/// The first line of `s`, without its CRLF.
pub open spec fn first_line(s: Seq<u8>) -> Seq<u8> {
    s.take(line_len(s))
}

/// A CRLF with none before it is the end of the first line.
pub proof fn lemma_first_line_end(s: Seq<u8>, i: int)
    requires
        is_line_end(s, i),
        forall|j: int| 0 <= j < i ==> !is_line_end(s, j),
    ensures
        has_line(s),
        line_len(s) == i,
{
    reveal(has_line);
    reveal(line_len);
    let k = line_len(s);
    assert(is_line_end(s, k) && forall|j: int| 0 <= j < k ==> !is_line_end(s, j));
}

/// Where `s` holds a line, its first line ends inside `s` and no CRLF stands
/// before that end.
pub proof fn lemma_line_len_bounds(s: Seq<u8>)
    requires
        has_line(s),
    ensures
        is_line_end(s, line_len(s)),
        0 <= line_len(s) <= s.len() - 2,
        forall|j: int| 0 <= j < line_len(s) ==> !is_line_end(s, j),
{
    reveal(has_line);
    reveal(line_len);
    let w = choose|i: int| is_line_end(s, i);
    lemma_least_line_end(s, w);
}

proof fn lemma_least_line_end(s: Seq<u8>, w: int)
    requires
        is_line_end(s, w),
    ensures
        exists|i: int| is_line_end(s, i) && forall|j: int| 0 <= j < i ==> !is_line_end(s, j),
    decreases w,
{
    if exists|j: int| 0 <= j < w && is_line_end(s, j) {
        let j = choose|j: int| 0 <= j < w && is_line_end(s, j);
        lemma_least_line_end(s, j);
    } else {
        assert(is_line_end(s, w) && forall|j: int| 0 <= j < w ==> !is_line_end(s, j));
    }
}

/// Finds the first line of `buf`.
///
/// Returns how many bytes the line takes with its CRLF, and the line without
/// it; `None` where `buf` holds no CRLF.
pub fn get_line(buf: &[u8]) -> (found: Option<(usize, &[u8])>)
    ensures
        found is Some <==> has_line(buf@),
        found matches Some((n, line)) ==> n == line_len(buf@) + 2 && line@ == first_line(buf@),
{
    let mut i: usize = 0;
    while i < buf.len() && i + 1 < buf.len()
        invariant
            forall|j: int| 0 <= j < i ==> !is_line_end(buf@, j),
        decreases buf.len() - i,
    {
        if buf[i] == CR && buf[i + 1] == LF {
            proof {
                lemma_first_line_end(buf@, i as int);
            }
            let line = slice_subrange(buf, 0, i);
            return Some((i + 2, line));
        }
        i += 1;
    }
    assert(!has_line(buf@)) by {
        reveal(has_line);
        assert forall|j: int| !is_line_end(buf@, j) by {}
    }
    None
}

/// The number on the first line of `s`, read leniently.
pub open spec fn decimal_of_line(s: Seq<u8>) -> Option<i64> {
    if has_line(s) {
        parse_decimal(first_line(s))
    } else {
        None
    }
}

/// Finds the first line of `buf` and reads the number at its start.
///
/// Returns how many bytes the line takes with its CRLF, and the number;
/// `None` where `buf` holds no CRLF or the line starts with no number.
pub fn get_decimal(buf: &[u8]) -> (found: Option<(usize, i64)>)
    ensures
        found is Some <==> decimal_of_line(buf@) is Some,
        found matches Some((n, number)) ==> n == line_len(buf@) + 2 && decimal_of_line(buf@)
            == Some(number),
{
    match get_line(buf) {
        None => None,
        Some((n, line)) => match atoi_i64(line) {
            None => None,
            Some(number) => Some((n, number)),
        },
    }
}

/// What the line behind a `+` or `-` tag decodes to: how many bytes it takes
/// with its CRLF, and its text.
pub open spec fn parse_text_spec(rest: Seq<u8>) -> Result<(int, Seq<char>), Error> {
    if !has_line(rest) {
        Err(Error::Incomplete)
    } else if !valid_utf8(first_line(rest)) {
        Err(Error::Other(crate::Error::InvalidUtf8))
    } else {
        Ok((line_len(rest) + 2, decode_utf8(first_line(rest))))
    }
}

/// What the line behind a `:`, `$` or `*` tag decodes to: how many bytes it
/// takes with its CRLF, and its number. A line that starts with no number is
/// invalid, since no further byte can mend it.
pub open spec fn parse_number_spec(rest: Seq<u8>) -> Result<(int, i64), Error> {
    if !has_line(rest) {
        Err(Error::Incomplete)
    } else {
        match parse_decimal(first_line(rest)) {
            None => Err(Error::Other(crate::Error::InvalidFrame)),
            Some(number) => Ok((line_len(rest) + 2, number)),
        }
    }
}

/// What the bytes behind a `$` tag decode to, and how many of them the frame
/// takes: a length line; for the length `-1` the null frame, which ends with
/// that line; else that many payload bytes and a CRLF.
pub open spec fn parse_bulk_spec(rest: Seq<u8>) -> Result<(int, FrameView), Error> {
    match parse_number_spec(rest) {
        Err(e) => Err(e),
        Ok((advance, len)) => if len == -1 {
            Ok((advance, FrameView::Null))
        } else if len < 0 {
            Err(Error::Other(crate::Error::InvalidFrame))
        } else if rest.len() < advance + len + 2 {
            Err(Error::Incomplete)
        } else if !is_line_end(rest, advance + len) {
            Err(Error::Other(crate::Error::InvalidFrame))
        } else {
            Ok((advance + len + 2, FrameView::Bulk(rest.subrange(advance, advance + len))))
        },
    }
}

/// What `buf` decodes to: the frame that starts at its first byte and the
/// number of bytes that the frame takes.
///
/// `Incomplete` means that `buf` ends before the frame does. Any other error
/// means that no frame starts with these bytes.
pub open spec fn parse_spec(buf: Seq<u8>) -> Result<(int, FrameView), Error>
    decreases buf.len(), 0nat,
{
    if buf.len() == 0 {
        Err(Error::Incomplete)
    } else {
        let rest = buf.skip(1);
        if buf[0] == TAG_SIMPLE {
            match parse_text_spec(rest) {
                Err(e) => Err(e),
                Ok((advance, text)) => Ok((1 + advance, FrameView::Simple(text))),
            }
        } else if buf[0] == TAG_ERROR {
            match parse_text_spec(rest) {
                Err(e) => Err(e),
                Ok((advance, text)) => Ok((1 + advance, FrameView::Error(text))),
            }
        } else if buf[0] == TAG_INTEGER {
            match parse_number_spec(rest) {
                Err(e) => Err(e),
                Ok((advance, number)) => Ok((1 + advance, FrameView::Integer(number))),
            }
        } else if buf[0] == TAG_BULK {
            match parse_bulk_spec(rest) {
                Err(e) => Err(e),
                Ok((advance, frame)) => Ok((1 + advance, frame)),
            }
        } else if buf[0] == TAG_ARRAY {
            match parse_number_spec(rest) {
                Err(e) => Err(e),
                Ok((advance, count)) => if count < 0 {
                    Err(Error::Other(crate::Error::InvalidFrame))
                } else {
                    proof {
                        lemma_line_len_bounds(rest);
                    }
                    match parse_items_spec(rest.skip(advance), count as nat) {
                        Err(e) => Err(e),
                        Ok((used, items)) => Ok((1 + advance + used, FrameView::Array(items))),
                    }
                },
            }
        } else {
            Err(Error::Other(crate::Error::InvalidFrame))
        }
    }
}

/// What `buf` decodes to as `count` frames in a row, and the number of bytes
/// that they take together.
pub open spec fn parse_items_spec(buf: Seq<u8>, count: nat) -> Result<(int, Seq<FrameView>), Error>
    decreases buf.len(), count + 1,
{
    if count == 0 {
        Ok((0, Seq::empty()))
    } else {
        match parse_spec(buf) {
            Err(e) => Err(e),
            Ok((used, first)) => if 0 < used <= buf.len() {
                match parse_items_spec(buf.skip(used), (count - 1) as nat) {
                    Err(e) => Err(e),
                    Ok((more, others)) => Ok((used + more, seq![first] + others)),
                }
            } else {
                Err(Error::Other(crate::Error::InvalidFrame))
            },
        }
    }
}

/// The two bytes that end a line.
pub open spec fn crlf() -> Seq<u8> {
    seq![CR, LF]
}

/// The bytes that stand for `frame` on the wire.
pub open spec fn serialize_spec(frame: FrameView) -> Seq<u8>
    decreases frame,
{
    match frame {
        FrameView::Simple(text) => seq![TAG_SIMPLE] + encode_utf8(text) + crlf(),
        FrameView::Error(text) => seq![TAG_ERROR] + encode_utf8(text) + crlf(),
        FrameView::Integer(number) => seq![TAG_INTEGER] + decimal(number as int) + crlf(),
        FrameView::Bulk(data) => seq![TAG_BULK] + decimal(data.len() as int) + crlf() + data + crlf(),
        FrameView::Null => seq![TAG_BULK] + decimal(-1) + crlf(),
        FrameView::Array(items) => seq![TAG_ARRAY] + decimal(items.len() as int) + crlf()
            + serialize_items_spec(items),
    }
}

/// The bytes of the frames of `items`, one after the other.
pub open spec fn serialize_items_spec(items: Seq<FrameView>) -> Seq<u8>
    decreases items,
{
    if items.len() == 0 {
        Seq::empty()
    } else {
        serialize_spec(items[0]) + serialize_items_spec(items.skip(1))
    }
}

/// The bytes of a row with one more frame at its end.
pub proof fn lemma_serialize_items_push(items: Seq<FrameView>, last: FrameView)
    ensures
        serialize_items_spec(items.push(last)) == serialize_items_spec(items) + serialize_spec(
            last,
        ),
    decreases items.len(),
{
    let all = items.push(last);
    if items.len() == 0 {
        assert(all.skip(1) =~= Seq::<FrameView>::empty());
        assert(serialize_items_spec(all.skip(1)) =~= Seq::<u8>::empty());
        assert(serialize_items_spec(all) =~= serialize_spec(last));
    } else {
        assert(all.skip(1) =~= items.skip(1).push(last));
        lemma_serialize_items_push(items.skip(1), last);
        assert(serialize_items_spec(all) =~= serialize_items_spec(items) + serialize_spec(last));
    }
}

/// Whether the exec result `r` is the spec result `s`.
pub open spec fn parsed_as(r: Result<(usize, Frame), Error>, s: Result<(int, FrameView), Error>) -> bool {
    match r {
        Ok((n, frame)) => s == Ok::<(int, FrameView), Error>((n as int, frame@)),
        Err(e) => s == Err::<(int, FrameView), Error>(e),
    }
}

fn read_text(rest: &[u8]) -> (r: Result<(usize, String), Error>)
    ensures
        match r {
            Ok((n, text)) => parse_text_spec(rest@) == Ok::<(int, Seq<char>), Error>(
                (n as int, text@),
            ) && 2 <= n <= rest.len(),
            Err(e) => parse_text_spec(rest@) == Err::<(int, Seq<char>), Error>(e),
        },
{
    match get_line(rest) {
        None => Err(Error::Incomplete),
        Some((n, line)) => {
            proof {
                lemma_line_len_bounds(rest@);
            }
            match decode(line) {
                None => Err(Error::Other(crate::Error::InvalidUtf8)),
                Some(text) => Ok((n, text)),
            }
        },
    }
}

fn read_number(rest: &[u8]) -> (r: Result<(usize, i64), Error>)
    ensures
        match r {
            Ok((n, number)) => parse_number_spec(rest@) == Ok::<(int, i64), Error>(
                (n as int, number),
            ) && 2 <= n <= rest.len() && (number < 0 ==> 4 <= n),
            Err(e) => parse_number_spec(rest@) == Err::<(int, i64), Error>(e),
        },
{
    match get_line(rest) {
        None => Err(Error::Incomplete),
        Some((n, line)) => {
            proof {
                lemma_line_len_bounds(rest@);
            }
            match atoi_i64(line) {
                None => Err(Error::Other(crate::Error::InvalidFrame)),
                Some(number) => {
                    proof {
                        if number < 0 {
                            lemma_negative_numeral_len(line@);
                        }
                    }
                    Ok((n, number))
                },
            }
        },
    }
}

fn read_bulk(rest: &[u8]) -> (r: Result<(usize, Frame), Error>)
    ensures
        parsed_as(r, parse_bulk_spec(rest@)),
        r matches Ok((n, _)) ==> 0 < n <= rest.len(),
{
    let (advance, len) = match read_number(rest) {
        Err(e) => {
            return Err(e);
        },
        Ok(found) => found,
    };
    if len == -1 {
        return Ok((advance, Frame::Null));
    }
    if len < 0 {
        return Err(Error::Other(crate::Error::InvalidFrame));
    }
    let available: usize = rest.len() - advance;
    if available < 2 || len as u64 > (available - 2) as u64 {
        return Err(Error::Incomplete);
    }
    let len: usize = len as usize;
    if rest[advance + len] != CR || rest[advance + len + 1] != LF {
        return Err(Error::Other(crate::Error::InvalidFrame));
    }
    let data = bytes_from_slice(slice_subrange(rest, advance, advance + len));
    Ok((advance + len + 2, Frame::Bulk(data)))
}

/// Appends `data` to `out`.
fn write_all(out: &mut Vec<u8>, data: &[u8])
    ensures
        final(out)@ == old(out)@ + data@,
{
    let mut i: usize = 0;
    while i < data.len()
        invariant
            i <= data.len(),
            out@ == old(out)@ + data@.take(i as int),
        decreases data.len() - i,
    {
        out.push(data[i]);
        assert(data@.take(i as int).push(data@[i as int]) =~= data@.take(i + 1));
        i = i + 1;
    }
    assert(data@.take(data.len() as int) =~= data@);
}

/// Appends a number and the end of its line to `out`.
fn write_decimal(out: &mut Vec<u8>, number: i64)
    ensures
        final(out)@ == old(out)@ + decimal(number as int) + crlf(),
{
    push_decimal(out, number);
    write_all(out, &[CR, LF]);
}

/// Appends the bytes of a frame that is no array to `out`.
fn write_value(out: &mut Vec<u8>, frame: &Frame)
    requires
        !(frame is Array),
    ensures
        final(out)@ == old(out)@ + serialize_spec(frame@),
{
    match frame {
        Frame::Simple(text) => {
            out.push(TAG_SIMPLE);
            write_all(out, text.as_str().as_bytes());
            write_all(out, &[CR, LF]);
        },
        Frame::Error(text) => {
            out.push(TAG_ERROR);
            write_all(out, text.as_str().as_bytes());
            write_all(out, &[CR, LF]);
        },
        Frame::Integer(number) => {
            out.push(TAG_INTEGER);
            write_decimal(out, *number);
        },
        Frame::Bulk(data) => {
            let bytes = bytes_as_slice(data);
            out.push(TAG_BULK);
            push_length(out, bytes.len());
            write_all(out, &[CR, LF]);
            write_all(out, bytes);
            write_all(out, &[CR, LF]);
        },
        Frame::Null => {
            write_all(out, &[TAG_BULK, MINUS, ZERO + 1, CR, LF]);
        },
        Frame::Array(_) => {},
    }
    assert(out@ =~= old(out)@ + serialize_spec(frame@));
}

impl Frame {
    /// The bytes that stand for the frame on the wire.
    pub fn serialize(&self) -> (bytes: Vec<u8>)
        ensures
            bytes@ == serialize_spec(self@),
    {
        let mut bytes: Vec<u8> = Vec::new();
        self.write_to(&mut bytes);
        assert(Seq::<u8>::empty() + serialize_spec(self@) =~= serialize_spec(self@));
        bytes
    }

    /// Appends the bytes that stand for the frame on the wire to `out`: an
    /// array as its count and then its items, any other frame directly.
    pub fn write_to(&self, out: &mut Vec<u8>)
        ensures
            final(out)@ == old(out)@ + serialize_spec(self@),
        decreases self,
    {
        match self {
            Frame::Array(items) => {
                out.push(TAG_ARRAY);
                push_length(out, items.len());
                write_all(out, &[CR, LF]);
                let ghost start = out@;
                let mut i: usize = 0;
                while i < items.len()
                    invariant
                        i <= items.len(),
                        self == Frame::Array(*items),
                        out@ == start + serialize_items_spec(frames_view(items@).take(i as int)),
                    decreases items.len() - i,
                {
                    proof {
                        let done = frames_view(items@).take(i as int);
                        lemma_serialize_items_push(done, items[i as int]@);
                        assert(done.push(items[i as int]@) =~= frames_view(items@).take(i + 1));
                        assert(self->Array_0 == *items);
                    }
                    items[i].write_to(out);
                    i = i + 1;
                }
                proof {
                    lemma_array_view(*items);
                    assert(frames_view(items@).take(items.len() as int) =~= frames_view(items@));
                    assert(start =~= old(out)@ + seq![TAG_ARRAY] + decimal(items.len() as int)
                        + crlf());
                }
            },
            _ => {
                write_value(out, self);
            },
        }
    }

    /// An array frame without items.
    pub fn array() -> (frame: Frame)
        ensures
            frame@ == FrameView::Array(Seq::empty()),
    {
        let items: Vec<Frame> = Vec::new();
        proof {
            lemma_array_view(items);
            assert(frames_view(items@) =~= Seq::<FrameView>::empty());
        }
        Frame::Array(items)
    }

    /// Adds a bulk string to the end of an array frame.
    pub fn push_bulk(&mut self, bytes: Bytes)
        requires
            *old(self) is Array,
        ensures
            final(self)@ == FrameView::Array(
                old(self)@->Array_0.push(FrameView::Bulk(bytes_view(bytes))),
            ),
    {
        self.push_item(Frame::Bulk(bytes));
    }

    /// Adds an integer to the end of an array frame.
    pub fn push_int(&mut self, value: i64)
        requires
            *old(self) is Array,
        ensures
            final(self)@ == FrameView::Array(old(self)@->Array_0.push(FrameView::Integer(value))),
    {
        self.push_item(Frame::Integer(value));
    }

    /// Adds a frame to the end of an array frame.
    pub fn push_item(&mut self, item: Frame)
        requires
            *old(self) is Array,
        ensures
            final(self)@ == FrameView::Array(old(self)@->Array_0.push(item@)),
    {
        let mut taken = Frame::Null;
        std::mem::swap(self, &mut taken);
        match taken {
            Frame::Array(items) => {
                let mut items = items;
                proof {
                    lemma_array_view(items);
                }
                items.push(item);
                proof {
                    lemma_array_view(items);
                    assert(frames_view(items@) =~= frames_view(items@.drop_last()).push(item@));
                    assert(items@.drop_last() =~= (*old(self))->Array_0@);
                }
                *self = Frame::Array(items);
            },
            _ => {},
        }
    }

    /// The simple string that the bytes of `buf` spell, which must be UTF-8.
    pub fn parse_simple(buf: &[u8]) -> (r: Result<Frame, crate::Error>)
        ensures
            match r {
                Ok(frame) => valid_utf8(buf@) && frame@ == FrameView::Simple(decode_utf8(buf@)),
                Err(e) => !valid_utf8(buf@) && e == crate::Error::InvalidUtf8,
            },
    {
        match decode(buf) {
            Some(text) => Ok(Frame::Simple(text)),
            None => Err(crate::Error::InvalidUtf8),
        }
    }

    /// The error frame that the bytes of `buf` spell, which must be UTF-8.
    pub fn parse_error(buf: &[u8]) -> (r: Result<Frame, crate::Error>)
        ensures
            match r {
                Ok(frame) => valid_utf8(buf@) && frame@ == FrameView::Error(decode_utf8(buf@)),
                Err(e) => !valid_utf8(buf@) && e == crate::Error::InvalidUtf8,
            },
    {
        match decode(buf) {
            Some(text) => Ok(Frame::Error(text)),
            None => Err(crate::Error::InvalidUtf8),
        }
    }

    /// Decodes the frame that starts at the first byte of `buf`.
    ///
    /// Returns the frame and how many bytes of `buf` it takes. Fails with
    /// `Incomplete` where `buf` ends before the frame does, and with another
    /// error where no frame starts with these bytes.
    pub fn parse(buf: &[u8]) -> (r: Result<(usize, Frame), Error>)
        ensures
            parsed_as(r, parse_spec(buf@)),
            r matches Ok((n, _)) ==> 0 < n <= buf.len(),
        decreases buf.len(),
    {
        if buf.len() == 0 {
            return Err(Error::Incomplete);
        }
        let tag: u8 = buf[0];
        let rest = slice_subrange(buf, 1, buf.len());
        if tag == TAG_SIMPLE {
            match read_text(rest) {
                Err(e) => Err(e),
                Ok((advance, text)) => Ok((1 + advance, Frame::Simple(text))),
            }
        } else if tag == TAG_ERROR {
            match read_text(rest) {
                Err(e) => Err(e),
                Ok((advance, text)) => Ok((1 + advance, Frame::Error(text))),
            }
        } else if tag == TAG_INTEGER {
            match read_number(rest) {
                Err(e) => Err(e),
                Ok((advance, number)) => Ok((1 + advance, Frame::Integer(number))),
            }
        } else if tag == TAG_BULK {
            match read_bulk(rest) {
                Err(e) => Err(e),
                Ok((advance, frame)) => Ok((1 + advance, frame)),
            }
        } else if tag == TAG_ARRAY {
            let (advance, count) = match read_number(rest) {
                Err(e) => {
                    return Err(e);
                },
                Ok(found) => found,
            };
            if count < 0 {
                return Err(Error::Other(crate::Error::InvalidFrame));
            }
            let ghost all = rest@.skip(advance as int);
            let mut items: Vec<Frame> = Vec::new();
            let mut pos: usize = advance;
            let mut i: i64 = 0;
            while i < count
                invariant
                    rest@ == buf@.skip(1),
                    buf.len() > 0,
                    buf@[0] == TAG_ARRAY,
                    parse_number_spec(rest@) == Ok::<(int, i64), Error>((advance as int, count)),
                    all == rest@.skip(advance as int),
                    advance <= pos <= rest.len(),
                    0 <= i <= count,
                    parse_items_spec(all, count as nat) == match parse_items_spec(
                        rest@.skip(pos as int),
                        (count - i) as nat,
                    ) {
                        Err(e) => Err::<(int, Seq<FrameView>), Error>(e),
                        Ok((more, others)) => Ok(
                            (pos - advance + more, frames_view(items@) + others),
                        ),
                    },
                decreases count - i,
            {
                let tail = slice_subrange(rest, pos, rest.len());
                match Frame::parse(tail) {
                    Err(e) => {
                        assert(parse_items_spec(all, count as nat) == Err::<
                            (int, Seq<FrameView>),
                            Error,
                        >(e));
                        return Err(e);
                    },
                    Ok((used, frame)) => {
                        proof {
                            let before = rest@.skip(pos as int);
                            let left = (count - i) as nat;
                            assert(before.skip(used as int) =~= rest@.skip(pos + used));
                            let next = parse_items_spec(
                                rest@.skip(pos + used),
                                (left - 1) as nat,
                            );
                            assert(frames_view(items@.push(frame)) =~= frames_view(items@)
                                + seq![frame@]);
                            match next {
                                Err(e) => {},
                                Ok((more, others)) => {
                                    assert(frames_view(items@) + (seq![frame@] + others)
                                        =~= frames_view(items@.push(frame)) + others);
                                },
                            }
                        }
                        items.push(frame);
                        pos = pos + used;
                        i = i + 1;
                    },
                }
            }
            proof {
                lemma_array_view(items);
                assert(frames_view(items@) + Seq::<FrameView>::empty() =~= frames_view(items@));
            }
            Ok((1 + pos, Frame::Array(items)))
        } else {
            Err(Error::Other(crate::Error::InvalidFrame))
        }
    }
}

} // verus!
