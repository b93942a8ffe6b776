use bytes::Bytes;
use mini_redis::cmd::{Applied, Command, Get, Parse, Ping, Publish, SetCmd, Subscribe, Unknown, Unsubscribe};
use mini_redis::db::Db;
use mini_redis::frame::Frame;
use mini_redis::Error;

fn bulk(text: &str) -> Frame {
    Frame::Bulk(Bytes::copy_from_slice(text.as_bytes()))
}

fn request(words: &[&str]) -> Frame {
    Frame::Array(words.iter().map(|word| bulk(word)).collect())
}

fn reply(db: &mut Db, words: &[&str], now: u64) -> Frame {
    match Command::from_frame(request(words)).unwrap().apply(db, now).unwrap() {
        Applied::Reply(frame, _) => frame,
        Applied::Subscribe(_) => panic!("no reply"),
    }
}

fn error_of(frame: Frame) -> Error {
    match Command::from_frame(frame) {
        Ok(_) => panic!("a command"),
        Err(e) => e,
    }
}

#[test]
fn ping_without_message_answers_pong() {
    let mut db = Db::new();
    assert_eq!(reply(&mut db, &["ping"], 0), Frame::Simple("PONG".to_string()));
}

#[test]
fn ping_with_message_echoes_it() {
    let mut db = Db::new();
    assert_eq!(reply(&mut db, &["ping", "hello"], 0), bulk("hello"));
}

#[test]
fn set_then_get_gives_the_value() {
    let mut db = Db::new();
    assert_eq!(reply(&mut db, &["set", "foo", "bar"], 0), Frame::Simple("OK".to_string()));
    assert_eq!(reply(&mut db, &["get", "foo"], 0), bulk("bar"));
}

#[test]
fn get_of_a_missing_key_gives_null() {
    let mut db = Db::new();
    assert_eq!(reply(&mut db, &["get", "absent"], 0), Frame::Null);
}

#[test]
fn set_with_px_expires() {
    let mut db = Db::new();
    assert_eq!(
        reply(&mut db, &["set", "k", "v", "PX", "50"], 1000),
        Frame::Simple("OK".to_string())
    );
    assert_eq!(db.shared.clean_expired_tasks(1049), Some(1050));
    assert_eq!(reply(&mut db, &["get", "k"], 1049), bulk("v"));
    assert_eq!(db.shared.clean_expired_tasks(1100), None);
    assert_eq!(reply(&mut db, &["get", "k"], 1100), Frame::Null);
}

#[test]
fn set_with_ex_counts_seconds() {
    let mut db = Db::new();
    reply(&mut db, &["set", "k", "v", "EX", "2"], 500);
    assert_eq!(db.shared.clean_expired_tasks(2499), Some(2500));
    assert_eq!(db.shared.clean_expired_tasks(2500), None);
    assert_eq!(reply(&mut db, &["get", "k"], 2500), Frame::Null);
}

#[test]
fn unknown_command_is_answered_with_an_error() {
    let mut db = Db::new();
    assert_eq!(
        reply(&mut db, &["frobb"], 0),
        Frame::Error("ERR unknown command 'frobb'".to_string())
    );
    assert_eq!(
        reply(&mut db, &["GET", "foo"], 0),
        Frame::Error("ERR unknown command 'GET'".to_string())
    );
}

#[test]
fn publish_without_subscribers_reaches_nobody() {
    let mut db = Db::new();
    assert_eq!(reply(&mut db, &["publish", "ch1", "hi"], 0), Frame::Integer(0));
}

#[test]
fn publish_reaches_each_subscriber() {
    let mut db = Db::new();
    let mut first = db.subscribe("ch1");
    let mut second = db.subscribe("ch1");
    let mut other = db.subscribe("ch2");
    assert_eq!(reply(&mut db, &["publish", "ch1", "hi"], 0), Frame::Integer(2));
    assert_eq!(first.try_recv().unwrap(), Bytes::from_static(b"hi"));
    assert_eq!(second.try_recv().unwrap(), Bytes::from_static(b"hi"));
    assert!(other.try_recv().is_err());
}

#[test]
fn subscribe_is_handed_back_for_the_subscription_mode() {
    let mut db = Db::new();
    let command = Command::from_frame(request(&["subscribe", "a", "b"])).unwrap();
    match command.apply(&mut db, 0).unwrap() {
        Applied::Subscribe(subscribe) => {
            assert_eq!(subscribe.into_channels(), vec!["a".to_string(), "b".to_string()]);
        }
        Applied::Reply(_, _) => panic!("a reply"),
    }
}

#[test]
fn unsubscribe_outside_a_subscription_fails() {
    let mut db = Db::new();
    let command = Command::from_frame(request(&["unsubscribe", "a"])).unwrap();
    match command.apply(&mut db, 0) {
        Err(e) => assert_eq!(e, Error::UnsupportedInContext),
        Ok(_) => panic!("applied"),
    }
}

#[test]
fn set_asks_to_wake_the_sweeper_for_the_earliest_expiration() {
    let mut db = Db::new();
    let apply = |db: &mut Db, words: &[&str]| {
        match Command::from_frame(request(words)).unwrap().apply(db, 0).unwrap() {
            Applied::Reply(_, wake) => wake,
            Applied::Subscribe(_) => panic!("no reply"),
        }
    };
    assert!(!apply(&mut db, &["set", "a", "1"]));
    assert!(apply(&mut db, &["set", "b", "1", "PX", "100"]));
    assert!(!apply(&mut db, &["set", "c", "1", "PX", "100"]));
    assert!(!apply(&mut db, &["set", "d", "1", "PX", "200"]));
    assert!(apply(&mut db, &["set", "e", "1", "PX", "99"]));
    assert!(!apply(&mut db, &["get", "e"]));
}

#[test]
fn command_must_be_an_array() {
    assert_eq!(error_of(bulk("ping")), Error::ExpectedArray);
    assert_eq!(error_of(Frame::Null), Error::ExpectedArray);
    assert_eq!(error_of(Frame::Simple("ping".to_string())), Error::ExpectedArray);
}

#[test]
fn command_needs_a_name() {
    assert_eq!(error_of(Frame::Array(vec![])), Error::ExpectedCommandName);
}

#[test]
fn command_name_must_be_a_text() {
    assert_eq!(error_of(Frame::Array(vec![Frame::Integer(1)])), Error::ExpectedString);
    assert_eq!(error_of(Frame::Array(vec![Frame::Null])), Error::ExpectedString);
    assert_eq!(
        error_of(Frame::Array(vec![Frame::Bulk(Bytes::from_static(&[0xff]))])),
        Error::InvalidUtf8
    );
}

#[test]
fn command_name_may_be_a_simple_string() {
    let command = Command::from_frame(Frame::Array(vec![Frame::Simple("ping".to_string())]));
    assert_eq!(command.unwrap().get_name(), "ping");
}

#[test]
fn get_needs_a_key() {
    assert_eq!(error_of(request(&["get"])), Error::ExpectedKey);
    assert_eq!(
        error_of(Frame::Array(vec![bulk("get"), Frame::Integer(1)])),
        Error::ExpectedString
    );
}

#[test]
fn set_needs_key_and_value() {
    assert_eq!(error_of(request(&["set"])), Error::ExpectedKey);
    assert_eq!(error_of(request(&["set", "k"])), Error::ExpectedValue);
    assert_eq!(
        error_of(Frame::Array(vec![bulk("set"), bulk("k"), Frame::Null])),
        Error::ExpectedString
    );
}

#[test]
fn set_takes_no_option_but_ex_and_px() {
    assert_eq!(error_of(request(&["set", "k", "v", "NX"])), Error::UnsupportedOption);
    assert_eq!(error_of(request(&["set", "k", "v", "px", "5"])), Error::UnsupportedOption);
    assert_eq!(error_of(request(&["set", "k", "v", "ex", "5"])), Error::UnsupportedOption);
}

#[test]
fn set_option_needs_a_number() {
    assert_eq!(error_of(request(&["set", "k", "v", "EX"])), Error::ExpectedExpiry);
    assert_eq!(error_of(request(&["set", "k", "v", "PX"])), Error::ExpectedExpiry);
    assert_eq!(error_of(request(&["set", "k", "v", "PX", "soon"])), Error::InvalidNumber);
    assert_eq!(error_of(request(&["set", "k", "v", "EX", "-1"])), Error::NegativeExpiry);
    assert_eq!(
        error_of(Frame::Array(vec![bulk("set"), bulk("k"), bulk("v"), bulk("PX"), Frame::Null])),
        Error::ExpectedInt
    );
    assert_eq!(
        error_of(Frame::Array(vec![
            bulk("set"),
            bulk("k"),
            bulk("v"),
            bulk("PX"),
            Frame::Simple("5x".to_string()),
        ])),
        Error::InvalidNumber
    );
}

#[test]
fn set_reads_its_parts() {
    let parts = |frame: Frame| match Command::from_frame(frame).unwrap() {
        Command::SetCmd(set) => set.into_parts(),
        _ => panic!("not set"),
    };
    assert_eq!(
        parts(request(&["set", "k", "v"])),
        ("k".to_string(), Bytes::from_static(b"v"), None)
    );
    assert_eq!(
        parts(request(&["set", "k", "v", "EX", "3"])),
        ("k".to_string(), Bytes::from_static(b"v"), Some(3000))
    );
    assert_eq!(
        parts(request(&["set", "k", "v", "PX", "3"])),
        ("k".to_string(), Bytes::from_static(b"v"), Some(3))
    );
    assert_eq!(
        parts(Frame::Array(vec![
            bulk("set"),
            Frame::Simple("k".to_string()),
            Frame::Simple("v".to_string()),
            Frame::Simple("EX".to_string()),
            Frame::Integer(i64::MAX),
        ])),
        ("k".to_string(), Bytes::from_static(b"v"), Some(i64::MAX as u128 * 1000))
    );
    assert_eq!(
        parts(Frame::Array(vec![
            bulk("set"),
            bulk("k"),
            Frame::Bulk(Bytes::from_static(&[0xff, 0x00])),
            bulk("PX"),
            Frame::Simple("+7".to_string()),
        ])),
        ("k".to_string(), Bytes::from_static(&[0xff, 0x00]), Some(7))
    );
}

#[test]
fn publish_needs_channel_and_message() {
    assert_eq!(error_of(request(&["publish"])), Error::ExpectedChannel);
    assert_eq!(error_of(request(&["publish", "ch"])), Error::ExpectedMessage);
    assert_eq!(
        error_of(Frame::Array(vec![bulk("publish"), bulk("ch"), Frame::Integer(1)])),
        Error::ExpectedString
    );
    assert_eq!(
        error_of(Frame::Array(vec![
            bulk("publish"),
            bulk("ch"),
            Frame::Bulk(Bytes::from_static(&[0xff])),
        ])),
        Error::InvalidUtf8
    );
}

#[test]
fn publish_reads_its_parts() {
    match Command::from_frame(request(&["publish", "ch1", "hi"])).unwrap() {
        Command::Publish(publish) => {
            assert_eq!(publish.into_parts(), ("ch1".to_string(), Bytes::from_static(b"hi")));
        }
        _ => panic!("not publish"),
    }
}

#[test]
fn subscribe_needs_a_channel() {
    assert_eq!(error_of(request(&["subscribe"])), Error::ExpectedChannel);
    assert_eq!(
        error_of(Frame::Array(vec![bulk("subscribe"), bulk("a"), Frame::Integer(1)])),
        Error::ExpectedString
    );
}

#[test]
fn unsubscribe_may_name_no_channel() {
    match Command::from_frame(request(&["unsubscribe"])).unwrap() {
        Command::Unsubscribe(unsubscribe) => {
            assert_eq!(unsubscribe.into_channels(), Vec::<String>::new());
        }
        _ => panic!("not unsubscribe"),
    }
    match Command::from_frame(request(&["unsubscribe", "a", "b"])).unwrap() {
        Command::Unsubscribe(unsubscribe) => {
            assert_eq!(unsubscribe.into_channels(), vec!["a".to_string(), "b".to_string()]);
        }
        _ => panic!("not unsubscribe"),
    }
    assert_eq!(
        error_of(Frame::Array(vec![bulk("unsubscribe"), Frame::Null])),
        Error::ExpectedString
    );
}

#[test]
fn ping_message_must_be_a_string() {
    assert_eq!(
        error_of(Frame::Array(vec![bulk("ping"), Frame::Integer(1)])),
        Error::ExpectedString
    );
}

#[test]
fn commands_are_reported_by_their_names() {
    let name = |words: &[&str]| {
        Command::from_frame(request(words)).unwrap().get_name().to_string()
    };
    assert_eq!(name(&["get", "k"]), "get");
    assert_eq!(name(&["set", "k", "v"]), "set");
    assert_eq!(name(&["publish", "c", "m"]), "publish");
    assert_eq!(name(&["subscribe", "c"]), "subscribe");
    assert_eq!(name(&["unsubscribe"]), "unsubscribe");
    assert_eq!(name(&["ping"]), "ping");
    assert_eq!(name(&["frobb", "x"]), "frobb");
}

#[test]
fn parse_walks_the_items_of_an_array() {
    let mut parse = Parse::new(Frame::Array(vec![
        bulk("a"),
        Frame::Simple("b".to_string()),
        Frame::Integer(3),
        bulk("4"),
        Frame::Simple("-5".to_string()),
        Frame::Null,
    ]))
    .unwrap();
    assert_eq!(parse.next_string(), Ok(Some("a".to_string())));
    assert_eq!(parse.next_bytes(), Ok(Some(Bytes::from_static(b"b"))));
    assert_eq!(parse.next_int(), Ok(Some(3)));
    assert_eq!(parse.next_int(), Ok(Some(4)));
    assert_eq!(parse.next_int(), Ok(Some(-5)));
    assert_eq!(parse.next(), Some(Frame::Null));
    assert_eq!(parse.next(), None);
    assert_eq!(parse.next_string(), Ok(None));
    assert_eq!(parse.next_bytes(), Ok(None));
    assert_eq!(parse.next_int(), Ok(None));
}

#[test]
fn parse_takes_an_item_even_where_it_fails() {
    let mut parse =
        Parse::new(Frame::Array(vec![Frame::Integer(1), Frame::Null, bulk("x"), bulk("ok")]))
            .unwrap();
    assert_eq!(parse.next_string(), Err(Error::ExpectedString));
    assert_eq!(parse.next_bytes(), Err(Error::ExpectedString));
    assert_eq!(parse.next_int(), Err(Error::InvalidNumber));
    assert_eq!(parse.next_string(), Ok(Some("ok".to_string())));
}

#[test]
fn parse_needs_an_array() {
    assert!(matches!(Parse::new(Frame::Integer(1)), Err(Error::ExpectedArray)));
}

#[test]
fn bulk_numbers_are_read_leniently_and_simple_numbers_strictly() {
    let mut parse = Parse::new(Frame::Array(vec![
        bulk("12abc"),
        Frame::Simple("12abc".to_string()),
        bulk("-"),
        Frame::Simple("-".to_string()),
    ]))
    .unwrap();
    assert_eq!(parse.next_int(), Ok(Some(12)));
    assert_eq!(parse.next_int(), Err(Error::InvalidNumber));
    assert_eq!(parse.next_int(), Ok(Some(0)));
    assert_eq!(parse.next_int(), Err(Error::InvalidNumber));
}

#[test]
fn commands_turn_into_the_frames_a_client_sends() {
    assert_eq!(Get::new("foo").into_frame(), request(&["get", "foo"]));
    assert_eq!(Get::new("foo").key(), "foo");
    assert_eq!(Ping::new(None).into_frame(), request(&["ping"]));
    assert_eq!(
        Ping::new(Some(Bytes::from_static(b"hello"))).into_frame(),
        request(&["ping", "hello"])
    );
    assert_eq!(
        Publish::new("ch1", Bytes::from_static(b"hi")).into_frame(),
        request(&["publish", "ch1", "hi"])
    );
    assert_eq!(
        SetCmd::new("k", Bytes::from_static(b"v"), None).into_frame(),
        request(&["set", "k", "v"])
    );
    assert_eq!(
        SetCmd::new("k", Bytes::from_static(b"v"), Some(50)).into_frame(),
        Frame::Array(vec![bulk("set"), bulk("k"), bulk("v"), bulk("px"), Frame::Integer(50)])
    );
}

#[test]
fn commands_built_by_hand_apply_like_parsed_ones() {
    let mut db = Db::new();
    let (frame, wake) = SetCmd::new("k", Bytes::from_static(b"v"), Some(10)).apply(&mut db, 5);
    assert_eq!(frame, Frame::Simple("OK".to_string()));
    assert!(wake);
    assert_eq!(Get::new("k").apply(&db), bulk("v"));
    assert_eq!(Get::new("other").apply(&db), Frame::Null);
    assert_eq!(Ping::new(None).apply(), Frame::Simple("PONG".to_string()));
    assert_eq!(Publish::new("nobody", Bytes::from_static(b"m")).apply(&db), Frame::Integer(0));
    assert_eq!(Publish::response(3), Frame::Integer(3));
    assert_eq!(Unknown::new("x").get_name(), "x");
    assert_eq!(Subscribe::new(vec!["a".to_string()]).into_channels(), vec!["a".to_string()]);
    assert_eq!(Unsubscribe::new(vec![]).into_channels(), Vec::<String>::new());
}

#[test]
fn rejected_command_is_answered_only_where_it_was_named() {
    let rejected = |frame: Frame| match Command::read(frame) {
        Err(rejection) => (rejection.error, rejection.reply),
        Ok(_) => panic!("a command"),
    };
    let told = |text: &str| Some(Frame::Error(text.to_string()));
    assert_eq!(rejected(Frame::Integer(1)), (Error::ExpectedArray, None));
    assert_eq!(rejected(Frame::Array(vec![])), (Error::ExpectedCommandName, None));
    assert_eq!(rejected(Frame::Array(vec![Frame::Null])), (Error::ExpectedString, None));
    assert_eq!(
        rejected(Frame::Array(vec![Frame::Bulk(Bytes::from_static(&[0xff]))])),
        (Error::InvalidUtf8, None)
    );
    assert_eq!(
        rejected(request(&["get"])),
        (Error::ExpectedKey, told("ERR protocol error; expected key"))
    );
    assert_eq!(
        rejected(request(&["set", "k", "v", "EX", "soon"])),
        (Error::InvalidNumber, told("ERR protocol error; invalid number"))
    );
    assert_eq!(
        rejected(request(&["set", "k", "v", "KEEPTTL"])),
        (
            Error::UnsupportedOption,
            told("ERR currently `SET` only supports the expiration option")
        )
    );
    assert!(Command::read(Frame::Array(vec![bulk("frobb"), Frame::Null])).is_ok());
    assert!(Command::read(request(&["frobb", "x"])).is_ok());
}

#[test]
fn every_error_has_its_text() {
    assert_eq!(Error::InvalidFrame.message(), "protocol error; invalid frame format");
    assert_eq!(Error::ConnectionReset.message(), "connection reset by peer");
    assert_eq!(Error::ExpectedCommandName.message(), "protocol error; expected command name");
    assert_eq!(Error::InvalidNumber.message(), "protocol error; invalid number");
    assert_eq!(
        Error::UnsupportedOption.message(),
        "currently `SET` only supports the expiration option"
    );
    assert_eq!(
        Error::UnsupportedInContext.message(),
        "`Unsubscribe` is unsupported in this context"
    );
}
