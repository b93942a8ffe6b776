use bytes::Bytes;
use mini_redis::cmd::{on_received, Action, Forward, Received, Subscribe, Subscriptions};
use mini_redis::frame::Frame;
use mini_redis::server::{next_step, Next, MAX_CONNECTIONS};
use mini_redis::shutdown::Shutdown;
use mini_redis::{Error, DEFAULT_PORT};

fn bulk(text: &str) -> Frame {
    Frame::Bulk(Bytes::copy_from_slice(text.as_bytes()))
}

fn request(words: &[&str]) -> Frame {
    Frame::Array(words.iter().map(|word| bulk(word)).collect())
}

fn confirmation(word: &str, channel: &str, count: i64) -> Frame {
    Frame::Array(vec![bulk(word), bulk(channel), Frame::Integer(count)])
}

fn told(actions: Vec<Action>) -> Vec<(String, String, Frame)> {
    actions
        .into_iter()
        .map(|action| match action {
            Action::Subscribe(channel, frame) => ("subscribe".to_string(), channel, frame),
            Action::Unsubscribe(channel, frame) => ("unsubscribe".to_string(), channel, frame),
            Action::Reply(frame) => ("reply".to_string(), String::new(), frame),
        })
        .collect()
}

#[test]
fn subscribe_confirms_with_the_count_of_the_connection() {
    let mut subs = Subscriptions::new();
    assert_eq!(subs.subscribe("ch1"), confirmation("subscribe", "ch1", 1));
    assert_eq!(subs.subscribe("ch2"), confirmation("subscribe", "ch2", 2));
    assert_eq!(subs.subscribe("ch1"), confirmation("subscribe", "ch1", 2));
    assert_eq!(subs.len(), 2);
    assert_eq!(subs.channel_names(), vec!["ch2".to_string(), "ch1".to_string()]);
}

#[test]
fn subscribing_again_moves_a_channel_to_the_end() {
    let mut subs = Subscriptions::new();
    for channel in ["a", "b", "c", "d"] {
        subs.subscribe(channel);
    }
    assert_eq!(subs.subscribe("b"), confirmation("subscribe", "b", 4));
    assert_eq!(
        subs.channel_names(),
        vec!["a".to_string(), "d".to_string(), "c".to_string(), "b".to_string()]
    );
    assert_eq!(subs.subscribe("b"), confirmation("subscribe", "b", 4));
    assert_eq!(
        subs.channel_names(),
        vec!["a".to_string(), "d".to_string(), "c".to_string(), "b".to_string()]
    );
}

#[test]
fn the_last_channel_takes_the_place_of_one_that_goes() {
    let mut subs = Subscriptions::new();
    for channel in ["a", "b", "c", "d"] {
        subs.subscribe(channel);
    }
    assert_eq!(subs.unsubscribe("a"), confirmation("unsubscribe", "a", 3));
    assert_eq!(
        subs.channel_names(),
        vec!["d".to_string(), "b".to_string(), "c".to_string()]
    );
    subs.closed("c");
    assert_eq!(subs.channel_names(), vec!["d".to_string(), "b".to_string()]);
    subs.closed("d");
    assert_eq!(subs.channel_names(), vec!["b".to_string()]);
}

#[test]
fn unsubscribing_from_all_goes_by_the_order_that_is_kept() {
    let mut subs = Subscriptions::new();
    subs.subscribe("a");
    subs.subscribe("b");
    subs.subscribe("c");
    subs.unsubscribe("a");
    let actions = subs.handle_command(request(&["unsubscribe"])).unwrap();
    assert_eq!(
        told(actions),
        vec![
            ("unsubscribe".to_string(), "c".to_string(), confirmation("unsubscribe", "c", 1)),
            ("unsubscribe".to_string(), "b".to_string(), confirmation("unsubscribe", "b", 0)),
        ]
    );
    assert_eq!(subs.len(), 0);
}

#[test]
fn unsubscribe_confirms_with_the_count_that_is_left() {
    let mut subs = Subscriptions::new();
    subs.subscribe("a");
    subs.subscribe("b");
    subs.subscribe("c");
    assert_eq!(subs.unsubscribe("b"), confirmation("unsubscribe", "b", 2));
    assert_eq!(subs.unsubscribe("nowhere"), confirmation("unsubscribe", "nowhere", 2));
    assert_eq!(subs.channel_names(), vec!["a".to_string(), "c".to_string()]);
    assert_eq!(subs.unsubscribe("a"), confirmation("unsubscribe", "a", 1));
    assert_eq!(subs.unsubscribe("c"), confirmation("unsubscribe", "c", 0));
    assert_eq!(subs.len(), 0);
}

#[test]
fn closed_topic_ends_its_subscription() {
    let mut subs = Subscriptions::new();
    subs.subscribe("a");
    subs.subscribe("b");
    subs.closed("a");
    subs.closed("never");
    assert_eq!(subs.channel_names(), vec!["b".to_string()]);
}

#[test]
fn message_is_wrapped_with_its_channel() {
    assert_eq!(
        Subscriptions::message("ch1", Bytes::from_static(b"hi")),
        Frame::Array(vec![bulk("message"), bulk("ch1"), bulk("hi")])
    );
}

#[test]
fn subscribe_command_begins_with_one_action_for_each_channel() {
    let mut subs = Subscriptions::new();
    let actions = Subscribe::new(vec!["ch1".to_string(), "ch2".to_string()]).apply(&mut subs);
    assert_eq!(
        told(actions),
        vec![
            ("subscribe".to_string(), "ch1".to_string(), confirmation("subscribe", "ch1", 1)),
            ("subscribe".to_string(), "ch2".to_string(), confirmation("subscribe", "ch2", 2)),
        ]
    );
    assert_eq!(subs.len(), 2);
}

#[test]
fn subscribing_in_subscription_mode_adds_channels() {
    let mut subs = Subscriptions::new();
    subs.subscribe("ch1");
    let actions = subs.handle_command(request(&["subscribe", "ch2", "ch1", "ch3"])).unwrap();
    assert_eq!(
        told(actions),
        vec![
            ("subscribe".to_string(), "ch2".to_string(), confirmation("subscribe", "ch2", 2)),
            ("subscribe".to_string(), "ch1".to_string(), confirmation("subscribe", "ch1", 2)),
            ("subscribe".to_string(), "ch3".to_string(), confirmation("subscribe", "ch3", 3)),
        ]
    );
    assert_eq!(
        subs.channel_names(),
        vec!["ch2".to_string(), "ch1".to_string(), "ch3".to_string()]
    );
}

#[test]
fn unsubscribing_drops_the_named_channels() {
    let mut subs = Subscriptions::new();
    subs.subscribe("a");
    subs.subscribe("b");
    subs.subscribe("c");
    let actions = subs.handle_command(request(&["unsubscribe", "c", "x", "a"])).unwrap();
    assert_eq!(
        told(actions),
        vec![
            ("unsubscribe".to_string(), "c".to_string(), confirmation("unsubscribe", "c", 2)),
            ("unsubscribe".to_string(), "x".to_string(), confirmation("unsubscribe", "x", 2)),
            ("unsubscribe".to_string(), "a".to_string(), confirmation("unsubscribe", "a", 1)),
        ]
    );
    assert_eq!(subs.channel_names(), vec!["b".to_string()]);
}

#[test]
fn unsubscribing_without_names_drops_every_channel() {
    let mut subs = Subscriptions::new();
    subs.subscribe("a");
    subs.subscribe("b");
    subs.subscribe("c");
    let actions = subs.handle_command(request(&["unsubscribe"])).unwrap();
    assert_eq!(
        told(actions),
        vec![
            ("unsubscribe".to_string(), "a".to_string(), confirmation("unsubscribe", "a", 2)),
            ("unsubscribe".to_string(), "b".to_string(), confirmation("unsubscribe", "b", 1)),
            ("unsubscribe".to_string(), "c".to_string(), confirmation("unsubscribe", "c", 0)),
        ]
    );
    assert_eq!(subs.len(), 0);
    let actions = subs.handle_command(request(&["unsubscribe"])).unwrap();
    assert_eq!(told(actions), vec![]);
}

#[test]
fn other_commands_are_unknown_in_subscription_mode() {
    let mut subs = Subscriptions::new();
    subs.subscribe("a");
    let answer = |subs: &mut Subscriptions, words: &[&str]| {
        told(subs.handle_command(request(words)).unwrap())
    };
    let unknown = |name: &str| {
        vec![(
            "reply".to_string(),
            String::new(),
            Frame::Error(format!("ERR unknown command '{}'", name)),
        )]
    };
    assert_eq!(answer(&mut subs, &["get", "k"]), unknown("get"));
    assert_eq!(answer(&mut subs, &["set", "k", "v"]), unknown("set"));
    assert_eq!(answer(&mut subs, &["publish", "a", "m"]), unknown("publish"));
    assert_eq!(answer(&mut subs, &["ping"]), unknown("ping"));
    assert_eq!(answer(&mut subs, &["frobb"]), unknown("frobb"));
    assert_eq!(subs.channel_names(), vec!["a".to_string()]);
}

#[test]
fn frame_that_is_no_command_fails_in_subscription_mode() {
    let mut subs = Subscriptions::new();
    subs.subscribe("a");
    let rejected = |subs: &mut Subscriptions, frame: Frame| match subs.handle_command(frame) {
        Err(rejection) => (rejection.error, rejection.reply),
        Ok(_) => panic!("a command"),
    };
    assert_eq!(rejected(&mut subs, Frame::Null), (Error::ExpectedArray, None));
    assert_eq!(
        rejected(&mut subs, request(&["subscribe"])),
        (
            Error::ExpectedChannel,
            Some(Frame::Error("ERR protocol error; expected channel name".to_string()))
        )
    );
    assert_eq!(
        rejected(&mut subs, request(&["get"])),
        (Error::ExpectedKey, Some(Frame::Error("ERR protocol error; expected key".to_string())))
    );
    assert_eq!(subs.channel_names(), vec!["a".to_string()]);
}

#[test]
fn received_message_is_forwarded_and_the_rest_is_not() {
    match on_received("ch1", Received::Message(Bytes::from_static(b"hi"))) {
        Forward::Send(frame) => {
            assert_eq!(frame, Frame::Array(vec![bulk("message"), bulk("ch1"), bulk("hi")]));
        }
        _ => panic!("not sent"),
    }
    assert!(matches!(on_received("ch1", Received::Lagged), Forward::Skip));
    assert!(matches!(on_received("ch1", Received::Closed), Forward::End));
}

#[test]
fn shutdown_stays_seen() {
    let mut shutdown = Shutdown::new();
    assert!(!shutdown.is_shutdown());
    shutdown.recv();
    assert!(shutdown.is_shutdown());
    shutdown.recv();
    assert!(shutdown.is_shutdown());
}

#[test]
fn handler_applies_the_command_of_a_frame() {
    let shutdown = Shutdown::new();
    match next_step(&shutdown, Some(request(&["ping"]))) {
        Ok(Next::Apply(command)) => assert_eq!(command.get_name(), "ping"),
        _ => panic!("no command"),
    }
    assert!(matches!(next_step(&shutdown, None), Ok(Next::Stop)));
    match next_step(&shutdown, Some(Frame::Null)) {
        Err(rejection) => {
            assert_eq!(rejection.error, Error::ExpectedArray);
            assert_eq!(rejection.reply, None);
        }
        Ok(_) => panic!("a step"),
    }
    match next_step(&shutdown, Some(request(&["set", "k"]))) {
        Err(rejection) => {
            assert_eq!(rejection.error, Error::ExpectedValue);
            assert_eq!(
                rejection.reply,
                Some(Frame::Error("ERR protocol error; expected value".to_string()))
            );
        }
        Ok(_) => panic!("a step"),
    }
}

#[test]
fn handler_starts_no_command_after_shutdown() {
    let mut shutdown = Shutdown::new();
    shutdown.recv();
    assert!(matches!(next_step(&shutdown, Some(request(&["ping"]))), Ok(Next::Stop)));
    assert!(matches!(next_step(&shutdown, Some(Frame::Null)), Ok(Next::Stop)));
    assert!(matches!(next_step(&shutdown, None), Ok(Next::Stop)));
}

#[test]
fn limits_are_as_documented() {
    assert_eq!(MAX_CONNECTIONS, 250);
    assert_eq!(DEFAULT_PORT, 6379);
    assert_eq!(mini_redis::db::TOPIC_CAPACITY, 1024);
}
