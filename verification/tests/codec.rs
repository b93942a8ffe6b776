use bytes::Bytes;
use mini_redis::connection::Connection;
use mini_redis::decimal::{parse_integer, push_decimal, push_length};
use mini_redis::frame::{get_decimal, get_line, Error, Frame};

fn wire(frame: &Frame) -> Vec<u8> {
    let mut conn = Connection::new();
    conn.write_frame(frame);
    conn.take_output()
}

fn round_trip(frame: Frame) {
    let bytes = wire(&frame);
    let (advance, back) = Frame::parse(&bytes).unwrap();
    assert_eq!(advance, bytes.len());
    assert_eq!(back, frame);
}

#[test]
fn simple_goes_out_as_a_plus_line() {
    assert_eq!(wire(&Frame::Simple("OK".to_string())), b"+OK\r\n".to_vec());
}

#[test]
fn error_goes_out_as_a_minus_line() {
    assert_eq!(
        wire(&Frame::Error("ERR unknown command 'frobb'".to_string())),
        b"-ERR unknown command 'frobb'\r\n".to_vec()
    );
}

#[test]
fn integer_goes_out_as_a_decimal_line() {
    assert_eq!(wire(&Frame::Integer(0)), b":0\r\n".to_vec());
    assert_eq!(wire(&Frame::Integer(1024)), b":1024\r\n".to_vec());
    assert_eq!(wire(&Frame::Integer(-42)), b":-42\r\n".to_vec());
    assert_eq!(wire(&Frame::Integer(i64::MAX)), b":9223372036854775807\r\n".to_vec());
    assert_eq!(wire(&Frame::Integer(i64::MIN)), b":-9223372036854775808\r\n".to_vec());
}

#[test]
fn bulk_goes_out_with_its_length() {
    assert_eq!(wire(&Frame::Bulk(Bytes::from_static(b"hello"))), b"$5\r\nhello\r\n".to_vec());
    assert_eq!(wire(&Frame::Bulk(Bytes::new())), b"$0\r\n\r\n".to_vec());
}

#[test]
fn null_goes_out_as_minus_one() {
    assert_eq!(wire(&Frame::Null), b"$-1\r\n".to_vec());
}

#[test]
fn array_goes_out_with_its_count_and_items() {
    let frame = Frame::Array(vec![
        Frame::Bulk(Bytes::from_static(b"message")),
        Frame::Bulk(Bytes::from_static(b"ch1")),
        Frame::Bulk(Bytes::from_static(b"hi")),
    ]);
    assert_eq!(wire(&frame), b"*3\r\n$7\r\nmessage\r\n$3\r\nch1\r\n$2\r\nhi\r\n".to_vec());
    assert_eq!(wire(&Frame::Array(vec![])), b"*0\r\n".to_vec());
}

#[test]
fn nested_array_goes_out_item_by_item() {
    let frame = Frame::Array(vec![
        Frame::Array(vec![Frame::Integer(1), Frame::Null]),
        Frame::Simple("x".to_string()),
    ]);
    assert_eq!(wire(&frame), b"*2\r\n*2\r\n:1\r\n$-1\r\n+x\r\n".to_vec());
}

#[test]
fn every_kind_of_frame_comes_back() {
    round_trip(Frame::Simple("OK".to_string()));
    round_trip(Frame::Simple(String::new()));
    round_trip(Frame::Simple("gr\u{fc}\u{df}e \u{4e16}\u{754c}".to_string()));
    round_trip(Frame::Simple("lone \r and lone \n".to_string()));
    round_trip(Frame::Error("ERR boom".to_string()));
    round_trip(Frame::Integer(0));
    round_trip(Frame::Integer(-1));
    round_trip(Frame::Integer(i64::MAX));
    round_trip(Frame::Integer(i64::MIN));
    round_trip(Frame::Bulk(Bytes::from_static(b"")));
    round_trip(Frame::Bulk(Bytes::from_static(b"with\r\nline break")));
    round_trip(Frame::Bulk(Bytes::from_static(&[0, 255, 13, 10, 128])));
    round_trip(Frame::Null);
    round_trip(Frame::Array(vec![]));
    round_trip(Frame::Array(vec![Frame::Null, Frame::Integer(7), Frame::Null]));
    round_trip(Frame::Array(vec![
        Frame::Array(vec![Frame::Bulk(Bytes::from_static(b"a")), Frame::Array(vec![])]),
        Frame::Error("e".to_string()),
    ]));
}

#[test]
fn text_with_a_line_break_does_not_come_back() {
    let frame = Frame::Simple("a\r\nb".to_string());
    let bytes = wire(&frame);
    assert_eq!(bytes, b"+a\r\nb\r\n".to_vec());
    let (advance, back) = Frame::parse(&bytes).unwrap();
    assert_eq!(advance, 4);
    assert_eq!(back, Frame::Simple("a".to_string()));
}

#[test]
fn parse_takes_only_the_first_frame() {
    let (advance, frame) = Frame::parse(b":1\r\n:2\r\n").unwrap();
    assert_eq!(advance, 4);
    assert_eq!(frame, Frame::Integer(1));
}

#[test]
fn every_cut_of_a_frame_is_incomplete() {
    let frame = Frame::Array(vec![
        Frame::Bulk(Bytes::from_static(b"set")),
        Frame::Simple("k".to_string()),
        Frame::Integer(-12),
        Frame::Null,
        Frame::Array(vec![Frame::Error("e".to_string())]),
    ]);
    let bytes = wire(&frame);
    for k in 0..bytes.len() {
        assert_eq!(Frame::parse(&bytes[..k]).unwrap_err(), Error::Incomplete);
    }
    assert_eq!(Frame::parse(&bytes).unwrap(), (bytes.len(), frame));
}

#[test]
fn errors_of_the_codec_have_their_texts() {
    assert_eq!(Error::Incomplete.message(), "stream ended early");
    assert_eq!(
        Error::Other(mini_redis::Error::InvalidFrame).message(),
        "protocol error; invalid frame format"
    );
}

#[test]
fn empty_buffer_is_incomplete() {
    assert_eq!(Frame::parse(b"").unwrap_err(), Error::Incomplete);
}

#[test]
fn unknown_tag_is_invalid() {
    assert_eq!(
        Frame::parse(b"?what\r\n").unwrap_err(),
        Error::Other(mini_redis::Error::InvalidFrame)
    );
    assert_eq!(Frame::parse(b"\n").unwrap_err(), Error::Other(mini_redis::Error::InvalidFrame));
}

#[test]
fn line_without_a_number_is_invalid() {
    assert_eq!(
        Frame::parse(b":abc\r\n").unwrap_err(),
        Error::Other(mini_redis::Error::InvalidFrame)
    );
    assert_eq!(Frame::parse(b"$\r\n").unwrap_err(), Error::Other(mini_redis::Error::InvalidFrame));
    assert_eq!(
        Frame::parse(b"*99999999999999999999\r\n").unwrap_err(),
        Error::Other(mini_redis::Error::InvalidFrame)
    );
    assert_eq!(Frame::parse(b":abc").unwrap_err(), Error::Incomplete);
}

#[test]
fn negative_length_is_invalid() {
    assert_eq!(
        Frame::parse(b"$-2\r\n").unwrap_err(),
        Error::Other(mini_redis::Error::InvalidFrame)
    );
}

#[test]
fn negative_count_is_invalid() {
    assert_eq!(
        Frame::parse(b"*-1\r\n").unwrap_err(),
        Error::Other(mini_redis::Error::InvalidFrame)
    );
}

#[test]
fn bulk_without_its_line_end_is_invalid() {
    assert_eq!(
        Frame::parse(b"$3\r\nabcXY").unwrap_err(),
        Error::Other(mini_redis::Error::InvalidFrame)
    );
    assert_eq!(Frame::parse(b"$3\r\nabc\r").unwrap_err(), Error::Incomplete);
    assert_eq!(Frame::parse(b"$3\r\nab").unwrap_err(), Error::Incomplete);
}

#[test]
fn bulk_longer_than_the_buffer_is_incomplete() {
    assert_eq!(Frame::parse(b"$9223372036854775807\r\nabc").unwrap_err(), Error::Incomplete);
}

#[test]
fn text_that_is_not_utf8_is_invalid() {
    assert_eq!(
        Frame::parse(b"+\xff\xfe\r\n").unwrap_err(),
        Error::Other(mini_redis::Error::InvalidUtf8)
    );
    assert_eq!(
        Frame::parse(b"-\xc3\x28\r\n").unwrap_err(),
        Error::Other(mini_redis::Error::InvalidUtf8)
    );
}

#[test]
fn bulk_is_never_checked_for_utf8() {
    let (advance, frame) = Frame::parse(b"$2\r\n\xff\xfe\r\n").unwrap();
    assert_eq!(advance, 8);
    assert_eq!(frame, Frame::Bulk(Bytes::from_static(&[0xff, 0xfe])));
}

#[test]
fn error_inside_an_array_is_the_error_of_the_array() {
    assert_eq!(Frame::parse(b"*2\r\n:1\r\n").unwrap_err(), Error::Incomplete);
    assert_eq!(
        Frame::parse(b"*2\r\n:1\r\n!").unwrap_err(),
        Error::Other(mini_redis::Error::InvalidFrame)
    );
}

#[test]
fn null_ends_with_its_line() {
    let (advance, frame) = Frame::parse(b"$-1\r\n+more\r\n").unwrap();
    assert_eq!(advance, 5);
    assert_eq!(frame, Frame::Null);
    let (advance, frame) = Frame::parse(b"$-01\r\n").unwrap();
    assert_eq!(advance, 6);
    assert_eq!(frame, Frame::Null);
}

#[test]
fn the_bytes_that_a_frame_takes_are_the_frame() {
    let buffers: [&[u8]; 7] = [
        b"+OK\r\nrest",
        b":+12abc\r\n:1\r\n",
        b"$-1 \r\n\r\n",
        b"$3\r\na\r\n\r\n\r\n",
        b"*2\r\n*1\r\n$-1\r\n-e\r\n*0\r\n",
        b"*0\r\n*0\r\n",
        b"-\r\n\r\n",
    ];
    for buf in buffers {
        let (advance, frame) = Frame::parse(buf).unwrap();
        assert!(0 < advance && advance <= buf.len());
        assert_eq!(Frame::parse(&buf[..advance]).unwrap(), (advance, frame));
    }
}

#[test]
fn more_bytes_do_not_change_what_was_decided() {
    let buffers: [&[u8]; 8] = [
        b"+OK\r\n",
        b":12\r\n",
        b"$-1\r\n",
        b"$3\r\nabc\r\n",
        b"*2\r\n:1\r\n:2\r\n",
        b"?",
        b":x\r\n",
        b"$1\r\nabc",
    ];
    for buf in buffers {
        let mut longer = buf.to_vec();
        for byte in b"\r\n+x\r\n" {
            longer.push(*byte);
            match (Frame::parse(buf), Frame::parse(&longer)) {
                (Ok(short), Ok(long)) => assert_eq!(short, long),
                (Err(short), Err(long)) => assert_eq!(short, long),
                _ => panic!("decided otherwise"),
            }
        }
    }
}

#[test]
fn serialize_gives_the_bytes_that_write_to_appends() {
    let frame = Frame::Array(vec![Frame::Integer(5), Frame::Bulk(Bytes::from_static(b"x"))]);
    assert_eq!(frame.serialize(), b"*2\r\n:5\r\n$1\r\nx\r\n".to_vec());
    let mut out = b"+first\r\n".to_vec();
    frame.write_to(&mut out);
    assert_eq!(out, b"+first\r\n*2\r\n:5\r\n$1\r\nx\r\n".to_vec());
    assert_eq!(wire(&frame), frame.serialize());
}

#[test]
fn parse_simple_and_parse_error_take_whole_buffers() {
    assert_eq!(Frame::parse_simple(b"PONG").unwrap(), Frame::Simple("PONG".to_string()));
    assert_eq!(Frame::parse_error(b"ERR x").unwrap(), Frame::Error("ERR x".to_string()));
    assert_eq!(Frame::parse_simple(b"\xff").unwrap_err(), mini_redis::Error::InvalidUtf8);
    assert_eq!(Frame::parse_error(b"\xff").unwrap_err(), mini_redis::Error::InvalidUtf8);
}

#[test]
fn push_bulk_and_push_int_grow_an_array() {
    let mut frame = Frame::array();
    assert_eq!(frame, Frame::Array(vec![]));
    frame.push_bulk(Bytes::from_static(b"subscribe"));
    frame.push_int(3);
    frame.push_item(Frame::Null);
    assert_eq!(
        frame,
        Frame::Array(vec![
            Frame::Bulk(Bytes::from_static(b"subscribe")),
            Frame::Integer(3),
            Frame::Null,
        ])
    );
}

#[test]
fn get_line_finds_the_first_line_end() {
    assert_eq!(get_line(b"abc\r\ndef\r\n"), Some((5, &b"abc"[..])));
    assert_eq!(get_line(b"\r\n"), Some((2, &b""[..])));
    assert_eq!(get_line(b"a\rb\nc\r\n"), Some((7, &b"a\rb\nc"[..])));
    assert_eq!(get_line(b"abc\r"), None);
    assert_eq!(get_line(b"abc\n"), None);
    assert_eq!(get_line(b""), None);
    assert_eq!(get_line(b"\r"), None);
}

#[test]
fn get_decimal_reads_leniently() {
    assert_eq!(get_decimal(b"42\r\n"), Some((4, 42)));
    assert_eq!(get_decimal(b"0042\r\n"), Some((6, 42)));
    assert_eq!(get_decimal(b"42 is the answer\r\n"), Some((18, 42)));
    assert_eq!(get_decimal(b"-\r\n"), Some((3, 0)));
    assert_eq!(get_decimal(b"+\r\n"), Some((3, 0)));
    assert_eq!(get_decimal(b"-x\r\n"), Some((4, 0)));
    assert_eq!(get_decimal(b"9223372036854775807\r\n"), Some((21, i64::MAX)));
    assert_eq!(get_decimal(b"-9223372036854775808\r\n"), Some((22, i64::MIN)));
}

#[test]
fn get_decimal_gives_nothing_without_a_number() {
    assert_eq!(get_decimal(b"\r\n"), None);
    assert_eq!(get_decimal(b"x1\r\n"), None);
    assert_eq!(get_decimal(b" 1\r\n"), None);
    assert_eq!(get_decimal(b"9223372036854775808\r\n"), None);
    assert_eq!(get_decimal(b"-9223372036854775809\r\n"), None);
    assert_eq!(get_decimal(b"42"), None);
}

#[test]
fn parse_integer_reads_strictly() {
    assert_eq!(parse_integer(b"42"), Some(42));
    assert_eq!(parse_integer(b"+42"), Some(42));
    assert_eq!(parse_integer(b"-42"), Some(-42));
    assert_eq!(parse_integer(b"007"), Some(7));
    assert_eq!(parse_integer(b"-0"), Some(0));
    assert_eq!(parse_integer(b"-9223372036854775808"), Some(i64::MIN));
    assert_eq!(parse_integer(b""), None);
    assert_eq!(parse_integer(b"+"), None);
    assert_eq!(parse_integer(b"-"), None);
    assert_eq!(parse_integer(b"42x"), None);
    assert_eq!(parse_integer(b"4 2"), None);
    assert_eq!(parse_integer(b"--1"), None);
    assert_eq!(parse_integer(b"9223372036854775808"), None);
}

#[test]
fn push_decimal_writes_canonical_numerals() {
    let mut out = b"n=".to_vec();
    push_decimal(&mut out, -907);
    assert_eq!(out, b"n=-907".to_vec());
    let mut out = Vec::new();
    push_decimal(&mut out, 0);
    push_decimal(&mut out, 10);
    assert_eq!(out, b"010".to_vec());
    let mut out = Vec::new();
    push_length(&mut out, 1024);
    assert_eq!(out, b"1024".to_vec());
    let mut out = Vec::new();
    push_length(&mut out, usize::MAX);
    assert_eq!(out, usize::MAX.to_string().into_bytes());
}
