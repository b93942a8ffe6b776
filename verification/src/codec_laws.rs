//! What holds between writing a frame and reading it back.

use crate::decimal::{decimal, is_digit, lemma_decimal_bytes, lemma_parse_decimal_of, MINUS};
use crate::frame::{
    crlf, first_line, has_line, is_line_end, lemma_first_line_end, lemma_line_len_bounds,
    line_len, parse_bulk_spec, parse_items_spec, parse_number_spec, parse_spec, parse_text_spec,
    serialize_items_spec, serialize_spec, Error, FrameView, CR, LF, TAG_ARRAY, TAG_BULK,
    TAG_ERROR, TAG_INTEGER, TAG_SIMPLE,
};
use vstd::prelude::*;
use vstd::utf8::{encode_utf8, encode_utf8_decode_utf8, encode_utf8_valid_utf8};

verus! {

/// Whether `bytes` holds no CRLF.
pub open spec fn is_one_line(bytes: Seq<u8>) -> bool {
    forall|i: int| !is_line_end(bytes, i)
}

/// Whether `frame` can go over the wire and come back: no text in it holds a
/// CRLF, which would end its line early, and every length and count in it
/// fits the numbers that the wire carries.
pub open spec fn is_wire_safe(frame: FrameView) -> bool
    decreases frame,
{
    match frame {
        FrameView::Simple(text) => is_one_line(encode_utf8(text)),
        FrameView::Error(text) => is_one_line(encode_utf8(text)),
        FrameView::Integer(_) => true,
        FrameView::Bulk(data) => data.len() <= i64::MAX,
        FrameView::Null => true,
        FrameView::Array(items) => items.len() <= i64::MAX && forall|i: int|
            0 <= i < items.len() ==> is_wire_safe(#[trigger] items[i]),
    }
}

/// A line without a CRLF inside, then a CRLF, then anything: the first line
/// is that line.
proof fn lemma_line_then_rest(line: Seq<u8>, rest: Seq<u8>)
    requires
        is_one_line(line),
    ensures
        has_line(line + crlf() + rest),
        line_len(line + crlf() + rest) == line.len(),
        first_line(line + crlf() + rest) == line,
{
    let s = line + crlf() + rest;
    let n = line.len() as int;
    assert(s[n] == CR && s[n + 1] == LF);
    assert(is_line_end(s, n));
    assert forall|j: int| 0 <= j < n implies !is_line_end(s, j) by {
        if j + 1 < n {
            assert(!is_line_end(line, j));
            assert(s[j] == line[j] && s[j + 1] == line[j + 1]);
        } else {
            assert(s[j + 1] == CR);
        }
    }
    lemma_first_line_end(s, n);
    assert(s.take(n) =~= line);
}

/// Cut anywhere before the end of its CRLF, such a line is no line yet.
proof fn lemma_cut_line(line: Seq<u8>, rest: Seq<u8>, k: int)
    requires
        is_one_line(line),
        0 <= k < line.len() + 2,
    ensures
        !has_line((line + crlf() + rest).take(k)),
{
    let s = line + crlf() + rest;
    let p = s.take(k);
    let n = line.len() as int;
    if has_line(p) {
        lemma_line_len_bounds(p);
        let j = line_len(p);
        assert(p[j] == s[j] && p[j + 1] == s[j + 1]);
        if j + 1 < n {
            assert(!is_line_end(line, j));
            assert(s[j] == line[j] && s[j + 1] == line[j + 1]);
        } else {
            assert(s[j + 1] == CR);
        }
    }
}

proof fn lemma_text_line(text: Seq<char>, rest: Seq<u8>)
    requires
        is_one_line(encode_utf8(text)),
    ensures
        parse_text_spec(encode_utf8(text) + crlf() + rest) == Ok::<(int, Seq<char>), Error>(
            ((encode_utf8(text).len() + 2) as int, text),
        ),
{
    lemma_line_then_rest(encode_utf8(text), rest);
    encode_utf8_valid_utf8(text);
    encode_utf8_decode_utf8(text);
}

proof fn lemma_number_line(number: i64, rest: Seq<u8>)
    ensures
        parse_number_spec(decimal(number as int) + crlf() + rest) == Ok::<(int, i64), Error>(
            ((decimal(number as int).len() + 2) as int, number),
        ),
{
    lemma_decimal_bytes(number as int);
    let line = decimal(number as int);
    assert forall|i: int| !is_line_end(line, i) by {
        if 0 <= i < line.len() {
            assert(is_digit(line[i]) || line[i] == MINUS);
        }
    }
    lemma_line_then_rest(line, rest);
    lemma_parse_decimal_of(number);
}

proof fn lemma_cut_number_line(number: i64, rest: Seq<u8>, k: int)
    requires
        0 <= k < decimal(number as int).len() + 2,
    ensures
        parse_number_spec((decimal(number as int) + crlf() + rest).take(k)) == Err::<
            (int, i64),
            Error,
        >(Error::Incomplete),
{
    lemma_decimal_bytes(number as int);
    let line = decimal(number as int);
    assert forall|i: int| !is_line_end(line, i) by {
        if 0 <= i < line.len() {
            assert(is_digit(line[i]) || line[i] == MINUS);
        }
    }
    lemma_cut_line(decimal(number as int), rest, k);
}

/// A frame on the wire takes at least three bytes.
proof fn lemma_serialized_len(frame: FrameView)
    ensures
        serialize_spec(frame).len() >= 3,
{
}

/// Reading what was written, whatever follows it, gives back the frame and
/// the number of bytes that were written for it.
pub proof fn lemma_parse_serialized(frame: FrameView, rest: Seq<u8>)
    requires
        is_wire_safe(frame),
    ensures
        parse_spec(serialize_spec(frame) + rest) == Ok::<(int, FrameView), Error>(
            (serialize_spec(frame).len() as int, frame),
        ),
    decreases frame,
{
    let buf = serialize_spec(frame) + rest;
    match frame {
        FrameView::Simple(text) => {
            assert(buf.skip(1) =~= encode_utf8(text) + crlf() + rest);
            lemma_text_line(text, rest);
        },
        FrameView::Error(text) => {
            assert(buf.skip(1) =~= encode_utf8(text) + crlf() + rest);
            lemma_text_line(text, rest);
        },
        FrameView::Integer(number) => {
            assert(buf.skip(1) =~= decimal(number as int) + crlf() + rest);
            lemma_number_line(number, rest);
        },
        FrameView::Bulk(data) => {
            let len = data.len() as i64;
            let line = decimal(len as int);
            let after = data + crlf() + rest;
            let body = buf.skip(1);
            assert(body =~= line + crlf() + after);
            lemma_number_line(len, after);
            let advance: int = (line.len() + 2) as int;
            assert(is_line_end(body, advance + len));
            assert(body.subrange(advance, advance + len) =~= data);
            assert(parse_bulk_spec(body) == Ok::<(int, FrameView), Error>(
                (advance + len + 2, frame),
            ));
        },
        FrameView::Null => {
            assert(buf.skip(1) =~= decimal(-1) + crlf() + rest);
            lemma_number_line(-1i64, rest);
        },
        FrameView::Array(items) => {
            let count = items.len() as i64;
            let line = decimal(count as int);
            let after = serialize_items_spec(items) + rest;
            let body = buf.skip(1);
            assert(body =~= line + crlf() + after);
            lemma_number_line(count, after);
            let advance: int = (line.len() + 2) as int;
            assert(body.skip(advance) =~= after);
            lemma_parse_serialized_items(items, rest);
        },
    }
}

/// Reading what was written for a row of frames gives back the row.
pub proof fn lemma_parse_serialized_items(items: Seq<FrameView>, rest: Seq<u8>)
    requires
        forall|i: int| 0 <= i < items.len() ==> is_wire_safe(#[trigger] items[i]),
    ensures
        parse_items_spec(serialize_items_spec(items) + rest, items.len()) == Ok::<
            (int, Seq<FrameView>),
            Error,
        >((serialize_items_spec(items).len() as int, items)),
    decreases items,
{
    if items.len() == 0 {
        assert(items =~= Seq::<FrameView>::empty());
    } else {
        let first = items[0];
        let others = items.skip(1);
        let buf = serialize_items_spec(items) + rest;
        let after = serialize_items_spec(others) + rest;
        assert(buf =~= serialize_spec(first) + after);
        lemma_parse_serialized(first, after);
        lemma_serialized_len(first);
        assert(buf.skip(serialize_spec(first).len() as int) =~= after);
        assert forall|i: int| 0 <= i < others.len() implies is_wire_safe(#[trigger] others[i]) by {
            assert(others[i] == items[i + 1]);
        }
        lemma_parse_serialized_items(others, rest);
        assert(seq![first] + others =~= items);
    }
}

/// A frame that is written and read back is the same frame, and the reader
/// takes exactly the bytes that were written.
pub proof fn lemma_round_trip(frame: FrameView)
    requires
        is_wire_safe(frame),
    ensures
        parse_spec(serialize_spec(frame)) == Ok::<(int, FrameView), Error>(
            (serialize_spec(frame).len() as int, frame),
        ),
{
    lemma_parse_serialized(frame, Seq::empty());
    assert(serialize_spec(frame) + Seq::<u8>::empty() =~= serialize_spec(frame));
}

/// A frame on the wire that is cut short anywhere is incomplete: the reader
/// neither makes a frame of the part nor rejects it.
pub proof fn lemma_prefix_is_incomplete(frame: FrameView, k: int)
    requires
        is_wire_safe(frame),
        0 <= k < serialize_spec(frame).len(),
    ensures
        parse_spec(serialize_spec(frame).take(k)) == Err::<(int, FrameView), Error>(
            Error::Incomplete,
        ),
    decreases frame,
{
    let whole = serialize_spec(frame);
    let buf = whole.take(k);
    let none = Seq::<u8>::empty();
    if k > 0 {
        assert(buf[0] == whole[0]);
        match frame {
            FrameView::Simple(text) => {
                let line = encode_utf8(text);
                assert(buf.skip(1) =~= (line + crlf() + none).take(k - 1));
                lemma_cut_line(line, none, k - 1);
            },
            FrameView::Error(text) => {
                let line = encode_utf8(text);
                assert(buf.skip(1) =~= (line + crlf() + none).take(k - 1));
                lemma_cut_line(line, none, k - 1);
            },
            FrameView::Integer(number) => {
                assert(buf.skip(1) =~= (decimal(number as int) + crlf() + none).take(k - 1));
                lemma_cut_number_line(number, none, k - 1);
            },
            FrameView::Bulk(data) => {
                let len = data.len() as i64;
                let line = decimal(len as int);
                let body = buf.skip(1);
                let advance: int = (line.len() + 2) as int;
                if k - 1 < advance {
                    assert(body =~= (line + crlf() + (data + crlf())).take(k - 1));
                    lemma_cut_number_line(len, data + crlf(), k - 1);
                } else {
                    let after = (data + crlf()).take(k - 1 - advance);
                    assert(body =~= line + crlf() + after);
                    lemma_number_line(len, after);
                }
            },
            FrameView::Null => {
                assert(buf.skip(1) =~= (decimal(-1) + crlf() + none).take(k - 1));
                lemma_cut_number_line(-1i64, none, k - 1);
            },
            FrameView::Array(items) => {
                let count = items.len() as i64;
                let line = decimal(count as int);
                let body = buf.skip(1);
                let advance: int = (line.len() + 2) as int;
                let all = serialize_items_spec(items);
                if k - 1 < advance {
                    assert(body =~= (line + crlf() + all).take(k - 1));
                    lemma_cut_number_line(count, all, k - 1);
                } else {
                    let after = all.take(k - 1 - advance);
                    assert(body =~= line + crlf() + after);
                    lemma_number_line(count, after);
                    assert(body.skip(advance) =~= after);
                    lemma_items_prefix_is_incomplete(items, k - 1 - advance);
                }
            },
        }
    }
}

/// A row of frames on the wire that is cut short anywhere is incomplete.
pub proof fn lemma_items_prefix_is_incomplete(items: Seq<FrameView>, k: int)
    requires
        forall|i: int| 0 <= i < items.len() ==> is_wire_safe(#[trigger] items[i]),
        0 <= k < serialize_items_spec(items).len(),
    ensures
        parse_items_spec(serialize_items_spec(items).take(k), items.len()) == Err::<
            (int, Seq<FrameView>),
            Error,
        >(Error::Incomplete),
    decreases items,
{
    if items.len() > 0 {
        let first = items[0];
        let others = items.skip(1);
        let head = serialize_spec(first);
        let tail = serialize_items_spec(others);
        let buf = serialize_items_spec(items).take(k);
        if k < head.len() {
            assert(buf =~= head.take(k));
            lemma_prefix_is_incomplete(first, k);
        } else {
            let after = tail.take(k - head.len());
            assert(buf =~= head + after);
            lemma_parse_serialized(first, after);
            lemma_serialized_len(first);
            assert(buf.skip(head.len() as int) =~= after);
            assert forall|i: int| 0 <= i < others.len() implies is_wire_safe(
                #[trigger] others[i],
            ) by {
                assert(others[i] == items[i + 1]);
            }
            lemma_items_prefix_is_incomplete(others, k - head.len());
        }
    }
}

/// A frame that arrives in pieces comes out once, when its last byte is in:
/// of the first `k` bytes on the wire the reader makes nothing while a byte
/// is missing, and the frame when all are there; it then takes all of them,
/// and of the nothing that is left it makes nothing again.
pub proof fn lemma_fed_in_pieces(frame: FrameView, k: int)
    requires
        is_wire_safe(frame),
        0 <= k <= serialize_spec(frame).len(),
    ensures
        parse_spec(serialize_spec(frame).take(k)) == if k < serialize_spec(frame).len() {
            Err::<(int, FrameView), Error>(Error::Incomplete)
        } else {
            Ok((k, frame))
        },
        parse_spec(serialize_spec(frame).skip(serialize_spec(frame).len() as int)) == Err::<
            (int, FrameView),
            Error,
        >(Error::Incomplete),
{
    let whole = serialize_spec(frame);
    if k < whole.len() {
        lemma_prefix_is_incomplete(frame, k);
    } else {
        lemma_round_trip(frame);
        assert(whole.take(k) =~= whole);
    }
    assert(whole.skip(whole.len() as int) =~= Seq::<u8>::empty());
}

/// The first line of a buffer stays its first line when more bytes arrive.
proof fn lemma_line_is_stable(s: Seq<u8>, more: Seq<u8>)
    requires
        has_line(s),
    ensures
        has_line(s + more),
        line_len(s + more) == line_len(s),
        first_line(s + more) == first_line(s),
{
    lemma_line_len_bounds(s);
    let n = line_len(s);
    let t = s + more;
    assert(is_line_end(t, n));
    assert forall|j: int| 0 <= j < n implies !is_line_end(t, j) by {
        assert(!is_line_end(s, j));
        assert(t[j] == s[j] && t[j + 1] == s[j + 1]);
    }
    lemma_first_line_end(t, n);
    assert(t.take(n) =~= s.take(n));
}

/// A frame takes at least one byte and no more bytes than the buffer holds.
pub proof fn lemma_parse_bounds(buf: Seq<u8>)
    requires
        parse_spec(buf) is Ok,
    ensures
        0 < parse_spec(buf)->Ok_0.0 <= buf.len(),
    decreases buf.len(), 0nat,
{
    let rest = buf.skip(1);
    if buf[0] == TAG_SIMPLE || buf[0] == TAG_ERROR || buf[0] == TAG_INTEGER {
        lemma_line_len_bounds(rest);
    } else if buf[0] == TAG_BULK {
        lemma_line_len_bounds(rest);
    } else if buf[0] == TAG_ARRAY {
        lemma_line_len_bounds(rest);
        let (advance, count) = parse_number_spec(rest)->Ok_0;
        lemma_parse_items_bounds(rest.skip(advance), count as nat);
    }
}

/// A row of frames takes no more bytes than the buffer holds, and holds as
/// many frames as were asked for.
pub proof fn lemma_parse_items_bounds(buf: Seq<u8>, count: nat)
    requires
        parse_items_spec(buf, count) is Ok,
    ensures
        0 <= parse_items_spec(buf, count)->Ok_0.0 <= buf.len(),
        parse_items_spec(buf, count)->Ok_0.1.len() == count,
    decreases buf.len(), count + 1,
{
    if count > 0 {
        lemma_parse_bounds(buf);
        let used = parse_spec(buf)->Ok_0.0;
        lemma_parse_items_bounds(buf.skip(used), (count - 1) as nat);
    }
}

/// What the reader has decided stays decided when more bytes arrive: a
/// frame that it found stays that frame with that length, and bytes that it
/// rejected stay rejected for the same reason. Only an incomplete buffer can
/// still become something else.
pub proof fn lemma_parse_is_stable(buf: Seq<u8>, more: Seq<u8>)
    requires
        parse_spec(buf) != Err::<(int, FrameView), Error>(Error::Incomplete),
    ensures
        parse_spec(buf + more) == parse_spec(buf),
    decreases buf.len(), 0nat,
{
    let all = buf + more;
    let rest = buf.skip(1);
    assert(all[0] == buf[0]);
    assert(all.skip(1) =~= rest + more);
    if buf[0] == TAG_SIMPLE || buf[0] == TAG_ERROR || buf[0] == TAG_INTEGER {
        lemma_line_is_stable(rest, more);
    } else if buf[0] == TAG_BULK {
        lemma_line_is_stable(rest, more);
        lemma_line_len_bounds(rest);
        if parse_number_spec(rest) is Ok {
            let (advance, len) = parse_number_spec(rest)->Ok_0;
            if len >= 0 {
                let wide = rest + more;
                assert(wide[advance + len] == rest[advance + len]);
                assert(wide[advance + len + 1] == rest[advance + len + 1]);
                assert(wide.subrange(advance, advance + len) =~= rest.subrange(
                    advance,
                    advance + len,
                ));
            }
        }
    } else if buf[0] == TAG_ARRAY {
        lemma_line_is_stable(rest, more);
        lemma_line_len_bounds(rest);
        if parse_number_spec(rest) is Ok {
            let (advance, count) = parse_number_spec(rest)->Ok_0;
            if count >= 0 {
                assert((rest + more).skip(advance) =~= rest.skip(advance) + more);
                lemma_parse_items_is_stable(rest.skip(advance), count as nat, more);
            }
        }
    }
}

/// What the reader has decided about a row of frames stays decided when
/// more bytes arrive.
pub proof fn lemma_parse_items_is_stable(buf: Seq<u8>, count: nat, more: Seq<u8>)
    requires
        parse_items_spec(buf, count) != Err::<(int, Seq<FrameView>), Error>(Error::Incomplete),
    ensures
        parse_items_spec(buf + more, count) == parse_items_spec(buf, count),
    decreases buf.len(), count + 1,
{
    if count > 0 {
        lemma_parse_is_stable(buf, more);
        if parse_spec(buf) is Ok {
            lemma_parse_bounds(buf);
            let used = parse_spec(buf)->Ok_0.0;
            assert((buf + more).skip(used) =~= buf.skip(used) + more);
            lemma_parse_items_is_stable(buf.skip(used), (count - 1) as nat, more);
        }
    }
}

/// The bytes that a frame takes are the frame: read alone, without what
/// follows them in the buffer, they give the same frame.
pub proof fn lemma_parse_takes_the_frame(buf: Seq<u8>)
    requires
        parse_spec(buf) is Ok,
    ensures
        parse_spec(buf.take(parse_spec(buf)->Ok_0.0)) == parse_spec(buf),
    decreases buf.len(), 0nat,
{
    lemma_parse_bounds(buf);
    let n = parse_spec(buf)->Ok_0.0;
    let cut = buf.take(n);
    let rest = buf.skip(1);
    let short = cut.skip(1);
    assert(cut[0] == buf[0]);
    assert(short =~= rest.take(n - 1));
    lemma_line_len_bounds(rest);
    let end = line_len(rest);
    if buf[0] == TAG_ARRAY {
        let (advance, count) = parse_number_spec(rest)->Ok_0;
        lemma_parse_items_bounds(rest.skip(advance), count as nat);
    }
    assert(is_line_end(short, end));
    assert forall|j: int| 0 <= j < end implies !is_line_end(short, j) by {
        assert(!is_line_end(rest, j));
    }
    lemma_first_line_end(short, end);
    assert(short.take(end) =~= rest.take(end));
    if buf[0] == TAG_BULK {
        let (advance, len) = parse_number_spec(rest)->Ok_0;
        if len >= 0 {
            assert(short.subrange(advance, advance + len) =~= rest.subrange(
                advance,
                advance + len,
            ));
        }
    } else if buf[0] == TAG_ARRAY {
        let (advance, count) = parse_number_spec(rest)->Ok_0;
        lemma_parse_items_take_the_frames(rest.skip(advance), count as nat);
        assert(short.skip(advance) =~= rest.skip(advance).take(n - 1 - advance));
    }
}

/// The bytes that a row of frames takes are the row.
pub proof fn lemma_parse_items_take_the_frames(buf: Seq<u8>, count: nat)
    requires
        parse_items_spec(buf, count) is Ok,
    ensures
        parse_items_spec(buf.take(parse_items_spec(buf, count)->Ok_0.0), count)
            == parse_items_spec(buf, count),
    decreases buf.len(), count + 1,
{
    if count > 0 {
        lemma_parse_items_bounds(buf, count);
        lemma_parse_bounds(buf);
        let total = parse_items_spec(buf, count)->Ok_0.0;
        let used = parse_spec(buf)->Ok_0.0;
        let after = buf.skip(used);
        lemma_parse_items_bounds(after, (count - 1) as nat);
        let cut = buf.take(total);
        // The first frame, read from its own bytes, then from the cut buffer.
        lemma_parse_takes_the_frame(buf);
        lemma_parse_is_stable(buf.take(used), cut.skip(used));
        assert(buf.take(used) + cut.skip(used) =~= cut);
        // The others.
        lemma_parse_items_take_the_frames(after, (count - 1) as nat);
        assert(cut.skip(used) =~= after.take(total - used));
    }
}

} // verus!
