//! `SUBSCRIBE channel...` and `UNSUBSCRIBE [channel...]`.

use crate::cmd::{
    command_of, frame_as_string, rest_of, Command, CommandView, Parse, Rejection, Unknown,
};
use crate::frame::{Frame, FrameView};
use crate::text::str_eq;
use crate::trusted::{bytes_from_slice, bytes_view};
use crate::Error;
use bytes::Bytes;
use vstd::prelude::*;
use vstd::utf8::encode_utf8;

verus! {

/// The command that subscribes the connection to channels.
pub struct Subscribe {
    pub(crate) channels: Vec<String>,
}

/// The command that ends subscriptions of the connection: those to the
/// channels it names, or all where it names none.
pub struct Unsubscribe {
    pub(crate) channels: Vec<String>,
}

/// The texts of a row of strings.
pub open spec fn names_view(names: Seq<String>) -> Seq<Seq<char>> {
    Seq::new(names.len(), |i: int| names[i]@)
}

impl View for Subscribe {
    type V = Seq<Seq<char>>;

    /// The names of the channels.
    closed spec fn view(&self) -> Seq<Seq<char>> {
        names_view(self.channels@)
    }
}

impl View for Unsubscribe {
    type V = Seq<Seq<char>>;

    /// The names of the channels.
    closed spec fn view(&self) -> Seq<Seq<char>> {
        names_view(self.channels@)
    }
}

/// The channel names that `args` hold: every argument, as a text. The first
/// argument that is no text decides the error.
pub open spec fn channels_spec(args: Seq<FrameView>) -> Result<Seq<Seq<char>>, Error>
    decreases args.len(),
{
    if args.len() == 0 {
        Ok(Seq::empty())
    } else {
        match frame_as_string(args[0]) {
            Err(e) => Err(e),
            Ok(name) => match channels_spec(args.skip(1)) {
                Err(e) => Err(e),
                Ok(others) => Ok(seq![name] + others),
            },
        }
    }
}

/// There are as many channel names as arguments.
pub proof fn lemma_channels_len(args: Seq<FrameView>)
    requires
        channels_spec(args) is Ok,
    ensures
        channels_spec(args)->Ok_0.len() == args.len(),
    decreases args.len(),
{
    if args.len() > 0 {
        lemma_channels_len(args.skip(1));
    }
}

/// What the arguments of `SUBSCRIBE` hold: channel names, at least one.
pub open spec fn subscribe_args_spec(args: Seq<FrameView>) -> Result<Seq<Seq<char>>, Error> {
    if args.len() == 0 {
        Err(Error::ExpectedChannel)
    } else {
        channels_spec(args)
    }
}

/// Reads every argument that is left as a channel name.
fn read_channels(parse: Parse) -> (r: Result<Vec<String>, Error>)
    ensures
        match channels_spec(parse.remaining()) {
            Ok(names) => r matches Ok(channels) && names_view(channels@) == names,
            Err(e) => r matches Err(x) && x == e,
        },
{
    let mut cursor = parse;
    let mut channels: Vec<String> = Vec::new();
    assert(Seq::<Seq<char>>::empty() + channels_spec(parse.remaining())->Ok_0 =~= channels_spec(
        parse.remaining(),
    )->Ok_0);
    loop
        invariant
            channels_spec(parse.remaining()) == match channels_spec(cursor.remaining()) {
                Err(e) => Err::<Seq<Seq<char>>, Error>(e),
                Ok(others) => Ok(names_view(channels@) + others),
            },
        decreases cursor.remaining().len(),
    {
        let ghost before = cursor.remaining();
        match cursor.next_string() {
            Err(e) => {
                return Err(e);
            },
            Ok(None) => {
                assert(names_view(channels@) + Seq::<Seq<char>>::empty() =~= names_view(
                    channels@,
                ));
                return Ok(channels);
            },
            Ok(Some(channel)) => {
                proof {
                    assert(names_view(channels@.push(channel)) =~= names_view(channels@)
                        + seq![channel@]);
                    match channels_spec(rest_of(before)) {
                        Err(e) => {},
                        Ok(others) => {
                            assert(names_view(channels@) + (seq![channel@] + others)
                                =~= names_view(channels@.push(channel)) + others);
                        },
                    }
                }
                channels.push(channel);
            },
        }
    }
}

impl Subscribe {
    /// The command that subscribes to `channels`.
    pub fn new(channels: Vec<String>) -> (subscribe: Subscribe)
        ensures
            subscribe@ == names_view(channels@),
    {
        Subscribe { channels }
    }

    /// The names of the channels, handed out.
    pub fn into_channels(self) -> (channels: Vec<String>)
        ensures
            names_view(channels@) == self@,
    {
        self.channels
    }

    /// Reads the arguments of `SUBSCRIBE`.
    pub fn from_frame(parse: Parse) -> (r: Result<Subscribe, Error>)
        ensures
            match subscribe_args_spec(parse.remaining()) {
                Ok(names) => r matches Ok(subscribe) && subscribe@ == names,
                Err(e) => r matches Err(x) && x == e,
            },
    {
        proof {
            if channels_spec(parse.remaining()) is Ok {
                lemma_channels_len(parse.remaining());
            }
        }
        match read_channels(parse) {
            Err(e) => Err(e),
            Ok(channels) => if channels.len() == 0 {
                Err(Error::ExpectedChannel)
            } else {
                Ok(Subscribe { channels })
            },
        }
    }
}

impl Subscribe {
    /// Begins the subscriptions that the command asks for, one after the
    /// other: takes note of each in `subscriptions` and returns what the
    /// handler has to do, in order.
    ///
    /// The handler is in subscription mode from then on: it forwards the
    /// messages of its channels with [`Subscriptions::message`] and hands
    /// every frame of the client to [`Subscriptions::handle_command`], until
    /// the client closes or the server shuts down.
    pub fn apply(self, subscriptions: &mut Subscriptions) -> (actions: Vec<Action>)
        requires
            old(subscriptions).wf(),
        ensures
            final(subscriptions).wf(),
            (final(subscriptions)@, actions_view(actions@)) == subscribe_all(
                old(subscriptions)@,
                self@,
            ),
    {
        let mut actions: Vec<Action> = Vec::new();
        let channels = self.channels;
        let ghost names = names_view(channels@);
        let mut i: usize = 0;
        assert(names.take(0) =~= Seq::<Seq<char>>::empty());
        assert(actions_view(actions@) =~= Seq::<ActionView>::empty());
        while i < channels.len()
            invariant
                i <= channels.len(),
                names == names_view(channels@),
                subscriptions.wf(),
                (subscriptions@, actions_view(actions@)) == subscribe_all(
                    old(subscriptions)@,
                    names.take(i as int),
                ),
            decreases channels.len() - i,
        {
            let channel = channels[i].as_str();
            let frame = subscriptions.subscribe(channel);
            let ghost done = actions_view(actions@);
            actions.push(Action::Subscribe(channel.to_owned(), frame));
            proof {
                let next = names.take(i + 1);
                assert(next.drop_last() =~= names.take(i as int));
                assert(next.last() == channel@);
                assert(actions_view(actions@) =~= done.push(
                    ActionView::Subscribe(channel@, frame@),
                ));
            }
            i = i + 1;
        }
        assert(names.take(channels.len() as int) =~= names);
        actions
    }
}

impl Unsubscribe {
    /// The command that unsubscribes from `channels`.
    pub fn new(channels: Vec<String>) -> (unsubscribe: Unsubscribe)
        ensures
            unsubscribe@ == names_view(channels@),
    {
        Unsubscribe { channels }
    }

    /// The names of the channels, handed out.
    pub fn into_channels(self) -> (channels: Vec<String>)
        ensures
            names_view(channels@) == self@,
    {
        self.channels
    }

    /// Reads the arguments of `UNSUBSCRIBE`.
    pub fn from_frame(parse: Parse) -> (r: Result<Unsubscribe, Error>)
        ensures
            match channels_spec(parse.remaining()) {
                Ok(names) => r matches Ok(unsubscribe) && unsubscribe@ == names,
                Err(e) => r matches Err(x) && x == e,
            },
    {
        match read_channels(parse) {
            Err(e) => Err(e),
            Ok(channels) => Ok(Unsubscribe { channels }),
        }
    }
}

/// The frame that carries a message of `channel` to a subscriber.
pub open spec fn message_frame(channel: Seq<char>, payload: Seq<u8>) -> FrameView {
    FrameView::Array(
        seq![
            FrameView::Bulk(encode_utf8("message"@)),
            FrameView::Bulk(encode_utf8(channel)),
            FrameView::Bulk(payload),
        ],
    )
}

/// The frame that confirms a subscription to `channel` where the connection
/// then has `count` subscriptions.
pub open spec fn subscribed_frame(channel: Seq<char>, count: usize) -> FrameView {
    FrameView::Array(
        seq![
            FrameView::Bulk(encode_utf8("subscribe"@)),
            FrameView::Bulk(encode_utf8(channel)),
            FrameView::Integer(count as i64),
        ],
    )
}

/// The frame that confirms the end of a subscription to `channel` where the
/// connection then has `count` subscriptions left.
pub open spec fn unsubscribed_frame(channel: Seq<char>, count: usize) -> FrameView {
    FrameView::Array(
        seq![
            FrameView::Bulk(encode_utf8("unsubscribe"@)),
            FrameView::Bulk(encode_utf8(channel)),
            FrameView::Integer(count as i64),
        ],
    )
}

/// The subscriptions `subs` with one to `channel`, which stands at the
/// end: an earlier subscription to it is taken out first.
pub open spec fn with_channel(subs: Seq<Seq<char>>, channel: Seq<char>) -> Seq<Seq<char>> {
    without_channel(subs, channel).push(channel)
}

/// The subscriptions `subs` without the one to `channel`: the last
/// subscription takes its place.
pub open spec fn without_channel(subs: Seq<Seq<char>>, channel: Seq<char>) -> Seq<Seq<char>> {
    if subs.contains(channel) {
        subs.update(subs.index_of(channel), subs.last()).drop_last()
    } else {
        subs
    }
}

/// Taking a channel out leaves no channel twice and leaves that channel
/// out.
pub proof fn lemma_without_channel(subs: Seq<Seq<char>>, channel: Seq<char>)
    requires
        subs.no_duplicates(),
    ensures
        without_channel(subs, channel).no_duplicates(),
        !without_channel(subs, channel).contains(channel),
        forall|other: Seq<char>|
            other != channel ==> (without_channel(subs, channel).contains(other)
                <==> subs.contains(other)),
{
    let after = without_channel(subs, channel);
    if subs.contains(channel) {
        let at = subs.index_of(channel);
        let last = subs.len() - 1;
        assert(subs[at] == channel);
        assert forall|i: int| 0 <= i < after.len() implies after[i] == subs[if i == at {
            last
        } else {
            i
        }] by {}
        assert forall|a: int, b: int|
            0 <= a < after.len() && 0 <= b < after.len() && a != b implies after[a]
            != after[b] by {
            let oa = if a == at { last } else { a };
            let ob = if b == at { last } else { b };
            assert(after[a] == subs[oa] && after[b] == subs[ob]);
        }
        assert forall|i: int| 0 <= i < after.len() implies after[i] != channel by {
            let o = if i == at { last } else { i };
            assert(after[i] == subs[o]);
            assert(o != at);
        }
        assert forall|other: Seq<char>| other != channel implies (after.contains(other)
            <==> subs.contains(other)) by {
            if after.contains(other) {
                let i = choose|i: int| 0 <= i < after.len() && after[i] == other;
                let o = if i == at { last } else { i };
                assert(subs[o] == other);
            }
            if subs.contains(other) {
                let o = choose|o: int| 0 <= o < subs.len() && subs[o] == other;
                let i = if o == last { at } else { o };
                assert(after[i] == other);
            }
        }
    }
}

/// What came of waiting for the next message of a topic.
pub enum Received {
    /// A message.
    Message(Bytes),
    /// The subscriber fell behind and lost messages.
    Lagged,
    /// The topic is gone.
    Closed,
}

/// The mathematical value of a [`Received`].
pub enum ReceivedView {
    Message(Seq<u8>),
    Lagged,
    Closed,
}

impl View for Received {
    type V = ReceivedView;

    open spec fn view(&self) -> ReceivedView {
        match self {
            Received::Message(payload) => ReceivedView::Message(bytes_view(*payload)),
            Received::Lagged => ReceivedView::Lagged,
            Received::Closed => ReceivedView::Closed,
        }
    }
}

/// How a subscription goes on after waiting for a message.
pub enum Forward {
    /// Send the frame to the subscriber and wait for the next message.
    Send(Frame),
    /// Wait for the next message.
    Skip,
    /// The subscription is over.
    End,
}

/// The mathematical value of a [`Forward`].
pub enum ForwardView {
    Send(FrameView),
    Skip,
    End,
}

impl View for Forward {
    type V = ForwardView;

    open spec fn view(&self) -> ForwardView {
        match self {
            Forward::Send(frame) => ForwardView::Send(frame@),
            Forward::Skip => ForwardView::Skip,
            Forward::End => ForwardView::End,
        }
    }
}

/// How a subscription to `channel` goes on: a message is forwarded in its
/// frame, lost messages are passed over in silence, and a topic that is gone
/// ends the subscription.
pub open spec fn on_received_spec(channel: Seq<char>, received: ReceivedView) -> ForwardView {
    match received {
        ReceivedView::Message(payload) => ForwardView::Send(message_frame(channel, payload)),
        ReceivedView::Lagged => ForwardView::Skip,
        ReceivedView::Closed => ForwardView::End,
    }
}

/// Decides how a subscription to `channel` goes on after waiting for its
/// next message.
pub fn on_received(channel: &str, received: Received) -> (next: Forward)
    ensures
        next@ == on_received_spec(channel@, received@),
{
    match received {
        Received::Message(payload) => Forward::Send(Subscriptions::message(channel, payload)),
        Received::Lagged => Forward::Skip,
        Received::Closed => Forward::End,
    }
}

/// What a handler in subscription mode has to do next.
pub enum Action {
    /// Subscribe to the channel at the topic, then send the frame.
    Subscribe(String, Frame),
    /// Drop the subscription to the channel, then send the frame.
    Unsubscribe(String, Frame),
    /// Send the frame.
    Reply(Frame),
}

/// The mathematical value of an [`Action`].
pub enum ActionView {
    Subscribe(Seq<char>, FrameView),
    Unsubscribe(Seq<char>, FrameView),
    Reply(FrameView),
}

impl View for Action {
    type V = ActionView;

    open spec fn view(&self) -> ActionView {
        match self {
            Action::Subscribe(channel, frame) => ActionView::Subscribe(channel@, frame@),
            Action::Unsubscribe(channel, frame) => ActionView::Unsubscribe(channel@, frame@),
            Action::Reply(frame) => ActionView::Reply(frame@),
        }
    }
}

/// The values of a row of actions.
pub open spec fn actions_view(actions: Seq<Action>) -> Seq<ActionView> {
    Seq::new(actions.len(), |i: int| actions[i]@)
}

/// Subscribing to `channels` one after the other, from the subscriptions
/// `subs`: the subscriptions at the end, and one action for each channel,
/// whose frame counts the subscriptions at that moment.
pub open spec fn subscribe_all(subs: Seq<Seq<char>>, channels: Seq<Seq<char>>) -> (
    Seq<Seq<char>>,
    Seq<ActionView>,
)
    decreases channels.len(),
{
    if channels.len() == 0 {
        (subs, Seq::empty())
    } else {
        let last = channels.last();
        let (before, actions) = subscribe_all(subs, channels.drop_last());
        let after = with_channel(before, last);
        (
            after,
            actions.push(
                ActionView::Subscribe(last, subscribed_frame(last, after.len() as usize)),
            ),
        )
    }
}

/// Unsubscribing from `channels` one after the other, from the
/// subscriptions `subs`: the subscriptions at the end, and one action for
/// each channel, whose frame counts the subscriptions left at that moment.
pub open spec fn unsubscribe_all(subs: Seq<Seq<char>>, channels: Seq<Seq<char>>) -> (
    Seq<Seq<char>>,
    Seq<ActionView>,
)
    decreases channels.len(),
{
    if channels.len() == 0 {
        (subs, Seq::empty())
    } else {
        let last = channels.last();
        let (before, actions) = unsubscribe_all(subs, channels.drop_last());
        let after = without_channel(before, last);
        (
            after,
            actions.push(
                ActionView::Unsubscribe(last, unsubscribed_frame(last, after.len() as usize)),
            ),
        )
    }
}

/// What a command means in subscription mode, from the subscriptions
/// `subs`: `SUBSCRIBE` adds channels, `UNSUBSCRIBE` drops the channels it
/// names, or all where it names none, and any other command is answered as
/// unknown, under the name it is reported by.
pub open spec fn handle_spec(subs: Seq<Seq<char>>, command: CommandView) -> (
    Seq<Seq<char>>,
    Seq<ActionView>,
) {
    match command {
        CommandView::Subscribe(channels) => subscribe_all(subs, channels),
        CommandView::Unsubscribe(channels) => if channels.len() == 0 {
            unsubscribe_all(subs, subs)
        } else {
            unsubscribe_all(subs, channels)
        },
        other => (
            subs,
            seq![
                ActionView::Reply(
                    FrameView::Error(crate::cmd::unknown_command_text(reported_name(other))),
                ),
            ],
        ),
    }
}

/// The name of a command, as a client writes it.
pub open spec fn reported_name(command: CommandView) -> Seq<char> {
    match command {
        CommandView::Get(_) => "get"@,
        CommandView::Publish(_) => "publish"@,
        CommandView::SetCmd(_) => "set"@,
        CommandView::Subscribe(_) => "subscribe"@,
        CommandView::Unsubscribe(_) => "unsubscribe"@,
        CommandView::Ping(_) => "ping"@,
        CommandView::Unknown(name) => name,
    }
}

/// The channels that one connection is subscribed to, in the order in which
/// a handler's map of streams keeps them: a new subscription stands at the
/// end, and where one ends, the last takes its place.
///
/// The count in a confirmation is the number of channels that this
/// connection is subscribed to. A connection whose last subscription ends
/// stays in subscription mode.
pub struct Subscriptions {
    channels: Vec<String>,
}

impl View for Subscriptions {
    type V = Seq<Seq<char>>;

    /// The names of the channels.
    closed spec fn view(&self) -> Seq<Seq<char>> {
        names_view(self.channels@)
    }
}

/// A frame of three items: two bulk strings and what `last` is.
fn triple(word: &str, channel: &str, last: Frame) -> (frame: Frame)
    ensures
        frame@ == FrameView::Array(
            seq![
                FrameView::Bulk(encode_utf8(word@)),
                FrameView::Bulk(encode_utf8(channel@)),
                last@,
            ],
        ),
{
    let ghost none = Seq::<FrameView>::empty();
    let ghost first = FrameView::Bulk(encode_utf8(word@));
    let ghost second = FrameView::Bulk(encode_utf8(channel@));
    let mut frame = Frame::array();
    frame.push_bulk(bytes_from_slice(word.as_bytes()));
    frame.push_bulk(bytes_from_slice(channel.as_bytes()));
    frame.push_item(last);
    assert(none.push(first).push(second).push(last@) =~= seq![first, second, last@]);
    frame
}

impl Subscriptions {
    /// Whether no channel stands twice.
    pub open spec fn wf(&self) -> bool {
        self@.no_duplicates()
    }

    /// No subscriptions.
    pub fn new() -> (subs: Subscriptions)
        ensures
            subs.wf(),
            subs@ == Seq::<Seq<char>>::empty(),
    {
        let subs = Subscriptions { channels: Vec::new() };
        assert(subs@ =~= Seq::<Seq<char>>::empty());
        subs
    }

    /// The number of subscriptions.
    pub fn len(&self) -> (n: usize)
        ensures
            n == self@.len(),
    {
        self.channels.len()
    }

    /// Where `channel` stands among the subscriptions, if it does.
    fn position(&self, channel: &str) -> (at: Option<usize>)
        ensures
            match at {
                Some(i) => i < self@.len() && self@[i as int] == channel@,
                None => !self@.contains(channel@),
            },
    {
        let mut i: usize = 0;
        while i < self.channels.len()
            invariant
                i <= self.channels.len(),
                forall|j: int| 0 <= j < i ==> self@[j] != channel@,
            decreases self.channels.len() - i,
        {
            if str_eq(self.channels[i].as_str(), channel) {
                return Some(i);
            }
            i = i + 1;
        }
        None
    }

    /// The frame that carries a message of `channel` to the subscriber.
    pub fn message(channel: &str, payload: Bytes) -> (frame: Frame)
        ensures
            frame@ == message_frame(channel@, bytes_view(payload)),
    {
        triple("message", channel, Frame::Bulk(payload))
    }

    /// Takes note of a subscription to `channel` and makes the frame that
    /// confirms it.
    pub fn subscribe(&mut self, channel: &str) -> (frame: Frame)
        requires
            old(self).wf(),
        ensures
            final(self).wf(),
            final(self)@ == with_channel(old(self)@, channel@),
            frame@ == subscribed_frame(channel@, final(self)@.len() as usize),
    {
        self.closed(channel);
        let ghost without = self@;
        self.channels.push(channel.to_owned());
        assert(self@ =~= without.push(channel@));
        assert(!without.contains(channel@)) by {
            lemma_without_channel(old(self)@, channel@);
        }
        triple("subscribe", channel, Frame::Integer(self.channels.len() as i64))
    }

    /// Takes note of the end of the subscription to `channel`, if there was
    /// one, and makes the frame that confirms it.
    pub fn unsubscribe(&mut self, channel: &str) -> (frame: Frame)
        requires
            old(self).wf(),
        ensures
            final(self).wf(),
            final(self)@ == without_channel(old(self)@, channel@),
            frame@ == unsubscribed_frame(channel@, final(self)@.len() as usize),
    {
        self.closed(channel);
        triple("unsubscribe", channel, Frame::Integer(self.channels.len() as i64))
    }

    /// Takes note that the topic of `channel` is gone: the subscription to
    /// it, if there was one, is over.
    pub fn closed(&mut self, channel: &str)
        requires
            old(self).wf(),
        ensures
            final(self).wf(),
            final(self)@ == without_channel(old(self)@, channel@),
    {
        proof {
            lemma_without_channel(old(self)@, channel@);
        }
        match self.position(channel) {
            Some(i) => {
                proof {
                    let at = old(self)@.index_of(channel@);
                    assert(old(self)@[i as int] == channel@);
                    assert(at == i);
                }
                let _ = self.channels.swap_remove(i);
                assert(self@ =~= old(self)@.update(i as int, old(self)@.last()).drop_last());
            },
            None => {},
        }
    }

    /// Decides what a frame from the client means in subscription mode.
    ///
    /// Takes note of the subscriptions that begin and end with it, and
    /// returns what the handler has to do, in order. Fails where the frame
    /// is no command: the connection then ends, after the client was told
    /// what the rejection holds, and the subscriptions are as they were.
    pub fn handle_command(&mut self, frame: Frame) -> (r: Result<Vec<Action>, Rejection>)
        requires
            old(self).wf(),
        ensures
            final(self).wf(),
            match command_of(frame@) {
                Err(e) => r matches Err(rejection) && rejection.is_for(frame@, e)
                    && final(self)@ == old(self)@,
                Ok(command) => r matches Ok(actions) && final(self)@ == handle_spec(
                    old(self)@,
                    command,
                ).0 && actions_view(actions@) == handle_spec(old(self)@, command).1,
            },
    {
        let command = match Command::read(frame) {
            Err(rejection) => {
                return Err(rejection);
            },
            Ok(command) => command,
        };
        let mut actions: Vec<Action> = Vec::new();
        match command {
            Command::Subscribe(subscribe) => {
                actions = subscribe.apply(self);
            },
            Command::Unsubscribe(unsubscribe) => {
                let mut channels = unsubscribe.channels;
                if channels.len() == 0 {
                    channels = self.channel_names();
                }
                let ghost names = names_view(channels@);
                let mut i: usize = 0;
                assert(names.take(0) =~= Seq::<Seq<char>>::empty());
                assert(actions_view(actions@) =~= Seq::<ActionView>::empty());
                while i < channels.len()
                    invariant
                        i <= channels.len(),
                        names == names_view(channels@),
                        self.wf(),
                        (self@, actions_view(actions@)) == unsubscribe_all(
                            old(self)@,
                            names.take(i as int),
                        ),
                    decreases channels.len() - i,
                {
                    let channel = channels[i].as_str();
                    let frame = self.unsubscribe(channel);
                    let ghost done = actions_view(actions@);
                    actions.push(Action::Unsubscribe(channel.to_owned(), frame));
                    proof {
                        let next = names.take(i + 1);
                        assert(next.drop_last() =~= names.take(i as int));
                        assert(next.last() == channel@);
                        assert(actions_view(actions@) =~= done.push(
                            ActionView::Unsubscribe(channel@, frame@),
                        ));
                    }
                    i = i + 1;
                }
                assert(names.take(channels.len() as int) =~= names);
            },
            other => {
                let unknown = Unknown::new(other.get_name());
                actions.push(Action::Reply(unknown.apply()));
                assert(actions_view(actions@) =~= seq![actions@[0]@]);
            },
        }
        Ok(actions)
    }

    /// The names of the channels, copied.
    pub fn channel_names(&self) -> (names: Vec<String>)
        ensures
            names_view(names@) == self@,
    {
        let mut names: Vec<String> = Vec::new();
        let mut i: usize = 0;
        assert(names_view(names@) =~= self@.take(0));
        while i < self.channels.len()
            invariant
                i <= self.channels.len(),
                names_view(names@) == self@.take(i as int),
            decreases self.channels.len() - i,
        {
            let ghost done = names_view(names@);
            let name = self.channels[i].clone();
            assert(name@ == self@[i as int]);
            names.push(name);
            assert(names_view(names@) =~= done.push(name@));
            assert(self@.take(i + 1) =~= self@.take(i as int).push(self@[i as int]));
            i = i + 1;
        }
        assert(self@.take(self.channels.len() as int) =~= self@);
        names
    }
}

} // verus!
