//! The shared state of a server: the keyspace with its expirations and the
//! topics of the publish/subscribe channels.
//!
//! Times are milliseconds on the server's clock. The embedder reads the
//! clock, holds the state behind its lock, and wakes the sweeper where a
//! function says so.

use crate::expirations::{
    is_sorted, lemma_sorted_is_distinct, lemma_sorted_same_pairs, lemma_sorted_times,
    Expirations,
};
use crate::trusted::{
    broadcast_capacity, broadcast_channel, broadcast_send, broadcast_subscribe, bytes_clone,
    bytes_view,
};
use bytes::Bytes;
use tokio::sync::broadcast::{Receiver, Sender};
use vstd::hash_map::StringHashMap;
use vstd::prelude::*;

verus! {

/// A value of the keyspace.
struct Entry {
    data: Bytes,
    expires_at: Option<u128>,
}

/// The mathematical value of an [`Entry`].
pub struct EntryView {
    /// The bytes stored under the key.
    pub data: Seq<u8>,
    /// The time from which the entry is expired, if it expires at all.
    pub expires_at: Option<u128>,
}

impl View for Entry {
    type V = EntryView;

    closed spec fn view(&self) -> EntryView {
        EntryView { data: bytes_view(self.data), expires_at: self.expires_at }
    }
}

/// The time at which a value set at `now` expires when it is to live for
/// `expire` milliseconds: their sum, which stops at the largest time.
pub open spec fn deadline_spec(now: u64, expire: Option<u128>) -> Option<u128> {
    match expire {
        Some(ttl) => Some(
            if now + ttl <= u128::MAX {
                (now + ttl) as u128
            } else {
                u128::MAX
            },
        ),
        None => None,
    }
}

/// What `GET` finds under `key`.
pub open spec fn lookup(entries: Map<Seq<char>, EntryView>, key: Seq<char>) -> Option<Seq<u8>> {
    if entries.contains_key(key) {
        Some(entries[key].data)
    } else {
        None
    }
}

/// Whether `entries` holds `key` with an expiration that `now` has reached.
pub open spec fn is_expired(entries: Map<Seq<char>, EntryView>, key: Seq<char>, now: u64) -> bool {
    entries.contains_key(key) && entries[key].expires_at is Some && entries[key].expires_at->0
        <= now
}

/// The keyspace after a sweep at `now`: every expired entry is gone, every
/// other entry is as it was.
pub open spec fn after_sweep(entries: Map<Seq<char>, EntryView>, now: u64) -> Map<
    Seq<char>,
    EntryView,
> {
    entries.remove_keys(Set::new(|key: Seq<char>| is_expired(entries, key, now)))
}

/// Whether `time` is the earliest expiration in `entries`.
pub open spec fn is_earliest(entries: Map<Seq<char>, EntryView>, time: u128) -> bool {
    &&& exists|key: Seq<char>| #[trigger]
        entries.contains_key(key) && entries[key].expires_at == Some(time)
    &&& forall|key: Seq<char>| #[trigger]
        entries.contains_key(key) && entries[key].expires_at is Some ==> time
            <= entries[key].expires_at->0
}

/// Whether no entry of `entries` expires.
pub open spec fn nothing_expires(entries: Map<Seq<char>, EntryView>) -> bool {
    forall|key: Seq<char>| #[trigger] entries.contains_key(key) ==> entries[key].expires_at is None
}

/// Whether an entry for `key` that expires at `expires_at` expires before
/// every entry under another key.
pub open spec fn becomes_earliest(
    entries: Map<Seq<char>, EntryView>,
    key: Seq<char>,
    expires_at: Option<u128>,
) -> bool {
    expires_at is Some && forall|other: Seq<char>|
        other != key && #[trigger] entries.contains_key(other) && entries[other].expires_at is Some
            ==> expires_at->0 < entries[other].expires_at->0
}

/// Whether `index` holds exactly the pairs of an expiration time and a key
/// that `entries` gives rise to.
pub open spec fn index_matches(
    entries: Map<Seq<char>, EntryView>,
    index: Seq<(u128, Seq<char>)>,
) -> bool {
    &&& forall|i: int|
        0 <= i < index.len() ==> entries.contains_key((#[trigger] index[i]).1)
            && entries[index[i].1].expires_at == Some(index[i].0)
    &&& forall|key: Seq<char>| #[trigger]
        entries.contains_key(key) && entries[key].expires_at is Some ==> index.contains(
            (entries[key].expires_at->0, key),
        )
}

/// After a value is set under a key, the key holds that value, and every
/// other key holds what it held.
pub proof fn lemma_get_after_set(
    entries: Map<Seq<char>, EntryView>,
    key: Seq<char>,
    entry: EntryView,
    other: Seq<char>,
)
    ensures
        lookup(entries.insert(key, entry), key) == Some(entry.data),
        other != key ==> lookup(entries.insert(key, entry), other) == lookup(entries, other),
{
}

/// A sweep takes away what is expired and nothing else: a key that was
/// expired holds nothing afterwards, any other key holds what it held.
pub proof fn lemma_get_after_sweep(entries: Map<Seq<char>, EntryView>, key: Seq<char>, now: u64)
    ensures
        lookup(after_sweep(entries, now), key) == if is_expired(entries, key, now) {
            None
        } else {
            lookup(entries, key)
        },
{
}

/// A value that is set at `now` to live for `ttl` milliseconds is there
/// after every sweep before `now + ttl` and gone after every sweep from
/// `now + ttl` on, as long as nothing else is set under its key.
pub proof fn lemma_expiry(
    entries: Map<Seq<char>, EntryView>,
    key: Seq<char>,
    data: Seq<u8>,
    now: u64,
    ttl: u128,
    later: u64,
)
    ensures
        ({
            let entry = EntryView { data, expires_at: deadline_spec(now, Some(ttl)) };
            lookup(after_sweep(entries.insert(key, entry), later), key) == if later >= now + ttl {
                None
            } else {
                Some(data)
            }
        }),
{
}

/// A value that is set without a time to live is there after every sweep,
/// as long as nothing else is set under its key.
pub proof fn lemma_no_expiry(
    entries: Map<Seq<char>, EntryView>,
    key: Seq<char>,
    data: Seq<u8>,
    now: u64,
    later: u64,
)
    ensures
        ({
            let entry = EntryView { data, expires_at: deadline_spec(now, None) };
            lookup(after_sweep(entries.insert(key, entry), later), key) == Some(data)
        }),
{
}

/// The keys of the expiration index are the keys that expire: a key stands
/// in the index exactly where its entry has an expiration, and it stands
/// there with that time and only once.
pub proof fn lemma_index_keys(
    entries: Map<Seq<char>, EntryView>,
    index: Seq<(u128, Seq<char>)>,
    key: Seq<char>,
)
    requires
        is_sorted(index),
        index_matches(entries, index),
    ensures
        (entries.contains_key(key) && entries[key].expires_at is Some) <==> (exists|i: int|
            0 <= i < index.len() && (#[trigger] index[i]).1 == key),
        forall|i: int, j: int|
            0 <= i < index.len() && 0 <= j < index.len() && (#[trigger] index[i]).1 == key
                && (#[trigger] index[j]).1 == key ==> i == j && entries[key].expires_at == Some(
                index[i].0,
            ),
{
    if entries.contains_key(key) && entries[key].expires_at is Some {
        let pair = (entries[key].expires_at->0, key);
        assert(index.contains(pair));
        let i = choose|i: int| 0 <= i < index.len() && index[i] == pair;
        assert(index[i].1 == key);
    }
    assert forall|i: int, j: int|
        0 <= i < index.len() && 0 <= j < index.len() && (#[trigger] index[i]).1 == key
            && (#[trigger] index[j]).1 == key implies i == j && entries[key].expires_at == Some(
        index[i].0,
    ) by {
        assert(index[i] == index[j]);
        lemma_sorted_is_distinct(index, i, j);
    }
}

/// The keyspace decides the expiration index: two indexes in order that both
/// match the same entries are the same.
pub proof fn lemma_index_is_determined(
    entries: Map<Seq<char>, EntryView>,
    a: Seq<(u128, Seq<char>)>,
    b: Seq<(u128, Seq<char>)>,
)
    requires
        is_sorted(a),
        is_sorted(b),
        index_matches(entries, a),
        index_matches(entries, b),
    ensures
        a == b,
{
    assert forall|pair: (u128, Seq<char>)| a.contains(pair) <==> b.contains(pair) by {
        if a.contains(pair) {
            let i = choose|i: int| 0 <= i < a.len() && a[i] == pair;
            assert(entries.contains_key(a[i].1));
        }
        if b.contains(pair) {
            let i = choose|i: int| 0 <= i < b.len() && b[i] == pair;
            assert(entries.contains_key(b[i].1));
        }
    }
    lemma_sorted_same_pairs(a, b);
}

/// Taking the pair of `key` out of the index leaves the index of the
/// keyspace without `key`.
proof fn lemma_index_without(
    entries: Map<Seq<char>, EntryView>,
    index: Seq<(u128, Seq<char>)>,
    key: Seq<char>,
    at: int,
)
    requires
        is_sorted(index),
        index_matches(entries, index),
        0 <= at < index.len(),
        index[at].1 == key,
    ensures
        index_matches(entries.remove(key), index.remove(at)),
{
    let rest = entries.remove(key);
    let after = index.remove(at);
    assert forall|i: int| 0 <= i < after.len() implies rest.contains_key((#[trigger] after[i]).1)
        && rest[after[i].1].expires_at == Some(after[i].0) by {
        let o = if i < at { i } else { i + 1 };
        assert(after[i] == index[o]);
        if index[o].1 == key {
            assert(index[o] == index[at]);
            lemma_sorted_is_distinct(index, o, at);
        }
    }
    assert forall|k: Seq<char>| #[trigger]
        rest.contains_key(k) && rest[k].expires_at is Some implies after.contains(
        (rest[k].expires_at->0, k),
    ) by {
        let pair = (entries[k].expires_at->0, k);
        assert(entries.contains_key(k));
        assert(index.contains(pair));
        let o = choose|o: int| 0 <= o < index.len() && index[o] == pair;
        let i = if o < at { o } else { o - 1 };
        assert(after[i] == pair);
    }
}

/// The index of a keyspace without `key` holds no pair of `key`.
proof fn lemma_index_lacks(
    entries: Map<Seq<char>, EntryView>,
    index: Seq<(u128, Seq<char>)>,
    key: Seq<char>,
    time: u128,
)
    requires
        index_matches(entries, index),
        !entries.contains_key(key) || entries[key].expires_at is None,
    ensures
        !index.contains((time, key)),
        index_matches(entries.remove(key), index),
{
    if index.contains((time, key)) {
        let o = choose|o: int| 0 <= o < index.len() && index[o] == (time, key);
        assert(entries.contains_key(index[o].1));
    }
    let rest = entries.remove(key);
    assert forall|i: int| 0 <= i < index.len() implies rest.contains_key((#[trigger] index[i]).1)
        && rest[index[i].1].expires_at == Some(index[i].0) by {
        assert(entries.contains_key(index[i].1));
    }
    assert forall|k: Seq<char>| #[trigger]
        rest.contains_key(k) && rest[k].expires_at is Some implies index.contains(
        (rest[k].expires_at->0, k),
    ) by {
        assert(entries.contains_key(k));
    }
}

/// Putting the pair of `key` into the index of the keyspace without `key`
/// gives the index of the keyspace with `key` under that expiration.
proof fn lemma_index_with(
    entries: Map<Seq<char>, EntryView>,
    index: Seq<(u128, Seq<char>)>,
    key: Seq<char>,
    entry: EntryView,
    at: int,
)
    requires
        index_matches(entries.remove(key), index),
        entry.expires_at is Some,
        0 <= at <= index.len(),
    ensures
        index_matches(entries.insert(key, entry), index.insert(at, (entry.expires_at->0, key))),
{
    let rest = entries.remove(key);
    let all = entries.insert(key, entry);
    let pair = (entry.expires_at->0, key);
    let after = index.insert(at, pair);
    assert forall|i: int| 0 <= i < after.len() implies all.contains_key((#[trigger] after[i]).1)
        && all[after[i].1].expires_at == Some(after[i].0) by {
        if i != at {
            let o = if i < at { i } else { i - 1 };
            assert(after[i] == index[o]);
            assert(rest.contains_key(index[o].1));
        }
    }
    assert forall|k: Seq<char>| #[trigger]
        all.contains_key(k) && all[k].expires_at is Some implies after.contains(
        (all[k].expires_at->0, k),
    ) by {
        if k == key {
            assert(after[at] == pair);
        } else {
            let p = (rest[k].expires_at->0, k);
            assert(rest.contains_key(k));
            assert(index.contains(p));
            let o = choose|o: int| 0 <= o < index.len() && index[o] == p;
            let i = if o < at { o } else { o + 1 };
            assert(after[i] == p);
        }
    }
}

/// The index of a keyspace without `key` is the index of the keyspace with
/// `key` under an entry that does not expire.
proof fn lemma_index_with_lasting(
    entries: Map<Seq<char>, EntryView>,
    index: Seq<(u128, Seq<char>)>,
    key: Seq<char>,
    entry: EntryView,
)
    requires
        index_matches(entries.remove(key), index),
        entry.expires_at is None,
    ensures
        index_matches(entries.insert(key, entry), index),
{
    let rest = entries.remove(key);
    let all = entries.insert(key, entry);
    assert forall|i: int| 0 <= i < index.len() implies all.contains_key((#[trigger] index[i]).1)
        && all[index[i].1].expires_at == Some(index[i].0) by {
        assert(rest.contains_key(index[i].1));
    }
    assert forall|k: Seq<char>| #[trigger]
        all.contains_key(k) && all[k].expires_at is Some implies index.contains(
        (all[k].expires_at->0, k),
    ) by {
        assert(rest.contains_key(k));
    }
}

/// The keyspace, the expiration index, the topics, and the flag that tells
/// the sweeper to stop.
pub struct State {
    entries: StringHashMap<Entry>,
    expirations: Expirations,
    /// The sender of each topic, by the name of its channel.
    pub_sub: StringHashMap<Sender<Bytes>>,
    shutdown: bool,
}

impl State {
    /// The keyspace: what is stored under each key.
    pub closed spec fn entries(&self) -> Map<Seq<char>, EntryView> {
        self.entries@.map_values(|entry: Entry| entry@)
    }

    /// The expiration index: pairs of a time and a key, in their order.
    pub closed spec fn index(&self) -> Seq<(u128, Seq<char>)> {
        self.expirations@
    }

    /// The names of the channels that have a topic.
    pub closed spec fn topics(&self) -> Set<Seq<char>> {
        self.pub_sub@.dom()
    }

    /// Whether the sweeper was told to stop.
    pub closed spec fn is_shutdown(&self) -> bool {
        self.shutdown
    }

    /// How many messages the topic of `channel` was made to keep for
    /// subscribers that lag behind.
    pub closed spec fn topic_capacity(&self, channel: Seq<char>) -> usize {
        broadcast_capacity(self.pub_sub@[channel])
    }

    /// Whether the expiration index is in order and holds exactly the keys
    /// that expire, each with its time, and every topic was made with the
    /// capacity of a topic.
    pub open spec fn wf(&self) -> bool {
        &&& is_sorted(self.index())
        &&& index_matches(self.entries(), self.index())
        &&& forall|channel: Seq<char>| #[trigger]
            self.topics().contains(channel) ==> self.topic_capacity(channel) == TOPIC_CAPACITY
    }

    /// The state of a server that has just started: nothing stored.
    pub fn new() -> (state: State)
        ensures
            state.wf(),
            state.entries() == Map::<Seq<char>, EntryView>::empty(),
            state.index() == Seq::<(u128, Seq<char>)>::empty(),
            state.topics() == Set::<Seq<char>>::empty(),
            !state.is_shutdown(),
    {
        let state = State {
            entries: StringHashMap::new(),
            expirations: Expirations::new(),
            pub_sub: StringHashMap::new(),
            shutdown: false,
        };
        assert(state.entries() =~= Map::<Seq<char>, EntryView>::empty());
        assert(state.topics() =~= Set::<Seq<char>>::empty());
        state
    }
}

/// How many messages a topic keeps for subscribers that lag behind.
pub const TOPIC_CAPACITY: usize = 1024;

/// The state as the sweeper uses it.
pub struct Shared {
    state: State,
}

impl View for Shared {
    type V = State;

    closed spec fn view(&self) -> State {
        self.state
    }
}

impl Shared {
    /// The state of a server that has just started.
    pub fn new() -> (shared: Shared)
        ensures
            shared@.wf(),
            shared@.entries() == Map::<Seq<char>, EntryView>::empty(),
            shared@.index() == Seq::<(u128, Seq<char>)>::empty(),
            shared@.topics() == Set::<Seq<char>>::empty(),
            !shared@.is_shutdown(),
    {
        Shared { state: State::new() }
    }

    /// Whether the sweeper was told to stop.
    pub fn is_shutdown(&self) -> (stop: bool)
        ensures
            stop == self@.is_shutdown(),
    {
        self.state.shutdown
    }

    /// One sweep at the time `now`: drops every entry whose expiration `now`
    /// has reached, and tells when the next entry expires, if any does.
    ///
    /// After the sweeper was told to stop it drops nothing and tells
    /// nothing.
    pub fn clean_expired_tasks(&mut self, now: u64) -> (next: Option<u128>)
        requires
            old(self)@.wf(),
        ensures
            final(self)@.wf(),
            final(self)@.topics() == old(self)@.topics(),
            final(self)@.is_shutdown() == old(self)@.is_shutdown(),
            old(self)@.is_shutdown() ==> next is None && final(self)@.entries() == old(
                self,
            )@.entries() && final(self)@.index() == old(self)@.index(),
            !old(self)@.is_shutdown() ==> final(self)@.entries() == after_sweep(
                old(self)@.entries(),
                now,
            ),
            !old(self)@.is_shutdown() ==> match next {
                Some(time) => time > now && is_earliest(final(self)@.entries(), time),
                None => nothing_expires(final(self)@.entries()),
            },
    {
        if self.state.shutdown {
            return None;
        }
        let ghost before = self.state.entries();
        let ghost index = self.state.index();
        let count = self.state.expirations.len();
        let mut i: usize = 0;
        while i < count && self.state.expirations.time_at(i) <= now as u128
            invariant
                i <= count,
                count == index.len(),
                self.state.index() == index,
                is_sorted(index),
                index_matches(before, index),
                self.state.pub_sub == old(self).state.pub_sub,
                self.state.shutdown == old(self).state.shutdown,
                forall|j: int| 0 <= j < i ==> (#[trigger] index[j]).0 <= now,
                forall|key: Seq<char>| #[trigger]
                    self.state.entries().contains_key(key) ==> before.contains_key(key)
                        && self.state.entries()[key] == before[key],
                forall|key: Seq<char>| #[trigger]
                    before.contains_key(key) && !self.state.entries().contains_key(key)
                        ==> exists|j: int| 0 <= j < i && index[j].1 == key,
                forall|j: int|
                    0 <= j < i ==> !self.state.entries().contains_key((#[trigger] index[j]).1),
            decreases count - i,
        {
            let ghost entries = self.state.entries();
            let ghost key = index[i as int].1;
            self.state.entries.remove(self.state.expirations.key_at(i));
            proof {
                assert(self.state.entries() =~= entries.remove(key));
                assert forall|k: Seq<char>| #[trigger]
                    before.contains_key(k) && !self.state.entries().contains_key(k) implies exists|
                    j: int,
                | 0 <= j < i + 1 && index[j].1 == k by {
                    if k == key {
                        assert(index[i as int].1 == k);
                    } else {
                        assert(!entries.contains_key(k));
                        let j = choose|j: int| 0 <= j < i && index[j].1 == k;
                        assert(0 <= j < i + 1 && index[j].1 == k);
                    }
                }
            }
            i = i + 1;
        }
        self.state.expirations.drop_front(i);
        let next = self.state.expirations.first();
        proof {
            let entries = self.state.entries();
            let rest = index.skip(i as int);
            assert(self.state.index() == rest);
            // Every pair that is left lies beyond `now`.
            assert forall|j: int| 0 <= j < rest.len() implies (#[trigger] rest[j]).0 > now by {
                assert(rest[j] == index[i + j]);
                lemma_sorted_times(index, i as int, i + j);
            }
            // What is gone was expired, and what was expired is gone.
            assert forall|key: Seq<char>| #[trigger]
                before.contains_key(key) implies (entries.contains_key(key) <==> !is_expired(
                before,
                key,
                now,
            )) by {
                if entries.contains_key(key) {
                    if is_expired(before, key, now) {
                        let pair = (before[key].expires_at->0, key);
                        assert(index.contains(pair));
                        let o = choose|o: int| 0 <= o < index.len() && index[o] == pair;
                        if o < i {
                            assert(!entries.contains_key(index[o].1));
                        } else {
                            assert(rest[o - i] == index[o]);
                        }
                    }
                } else {
                    let j = choose|j: int| 0 <= j < i && index[j].1 == key;
                    assert(before.contains_key(index[j].1));
                }
            }
            let swept = after_sweep(before, now);
            assert forall|key: Seq<char>| swept.contains_key(key) <==> entries.contains_key(
                key,
            ) by {
                if entries.contains_key(key) {
                    assert(before.contains_key(key));
                }
            }
            assert(entries =~= swept);
            // The index that is left is the index of what is left.
            assert forall|j: int| 0 <= j < rest.len() implies entries.contains_key(
                (#[trigger] rest[j]).1,
            ) && entries[rest[j].1].expires_at == Some(rest[j].0) by {
                assert(rest[j] == index[i + j]);
                assert(before.contains_key(index[i + j].1));
            }
            assert forall|key: Seq<char>| #[trigger]
                entries.contains_key(key) && entries[key].expires_at is Some implies rest.contains(
                (entries[key].expires_at->0, key),
            ) by {
                let pair = (before[key].expires_at->0, key);
                assert(before.contains_key(key));
                assert(index.contains(pair));
                let o = choose|o: int| 0 <= o < index.len() && index[o] == pair;
                if o < i {
                    assert(!entries.contains_key(index[o].1));
                }
                assert(rest[o - i] == pair);
            }
            match next {
                Some(time) => {
                    assert(entries.contains_key(rest[0].1));
                    assert forall|key: Seq<char>| #[trigger]
                        entries.contains_key(key) && entries[key].expires_at is Some implies time
                        <= entries[key].expires_at->0 by {
                        let pair = (entries[key].expires_at->0, key);
                        assert(rest.contains(pair));
                        let o = choose|o: int| 0 <= o < rest.len() && rest[o] == pair;
                        lemma_sorted_times(rest, 0, o);
                    }
                },
                None => {
                    assert forall|key: Seq<char>| #[trigger]
                        entries.contains_key(key) implies entries[key].expires_at is None by {
                        if entries[key].expires_at is Some {
                            assert(rest.contains((entries[key].expires_at->0, key)));
                        }
                    }
                },
            }
        }
        assert forall|channel: Seq<char>| #[trigger]
            self@.topics().contains(channel) implies self@.topic_capacity(channel)
            == TOPIC_CAPACITY by {
            assert(old(self)@.topics().contains(channel));
        }
        next
    }
}

/// The state as the handlers of the connections use it.
pub struct Db {
    /// The state, as the sweeper uses it.
    pub shared: Shared,
}

impl View for Db {
    type V = State;

    open spec fn view(&self) -> State {
        self.shared@
    }
}

/// The time at which a value set at `now` expires when it is to live for
/// `expire` milliseconds.
fn deadline(now: u64, expire: Option<u128>) -> (expires_at: Option<u128>)
    ensures
        expires_at == deadline_spec(now, expire),
{
    match expire {
        Some(ttl) => {
            if ttl <= u128::MAX - now as u128 {
                Some(now as u128 + ttl)
            } else {
                Some(u128::MAX)
            }
        },
        None => None,
    }
}

/// How many subscribers a message reached, from what the topic's sender
/// told: none where the sender failed for want of a receiver.
pub fn subscribers_reached<E>(sent: Result<usize, E>) -> (count: usize)
    ensures
        count == match sent {
            Ok(receivers) => receivers,
            Err(_) => 0,
        },
{
    match sent {
        Ok(receivers) => receivers,
        Err(_) => 0,
    }
}

impl Db {
    /// The state of a server that has just started.
    pub fn new() -> (db: Db)
        ensures
            db@.wf(),
            db@.entries() == Map::<Seq<char>, EntryView>::empty(),
            db@.index() == Seq::<(u128, Seq<char>)>::empty(),
            db@.topics() == Set::<Seq<char>>::empty(),
            !db@.is_shutdown(),
    {
        Db { shared: Shared::new() }
    }

    /// The value stored under `key`, if there is one.
    pub fn get(&self, key: &str) -> (value: Option<Bytes>)
        ensures
            match value {
                Some(data) => lookup(self@.entries(), key@) == Some(bytes_view(data)),
                None => lookup(self@.entries(), key@) is None,
            },
    {
        match self.shared.state.entries.get(key) {
            Some(entry) => Some(bytes_clone(&entry.data)),
            None => None,
        }
    }

    /// Stores `value` under `key` at the time `now`, to expire after `expire`
    /// milliseconds where that is given. What was stored under `key` before
    /// is gone, with its expiration.
    ///
    /// Returns whether the sweeper has to be woken: the new entry expires,
    /// and it does so before every other entry.
    pub fn set(&mut self, key: String, value: Bytes, expire: Option<u128>, now: u64) -> (wake: bool)
        requires
            old(self)@.wf(),
        ensures
            final(self)@.wf(),
            final(self)@.entries() == old(self)@.entries().insert(
                key@,
                EntryView { data: bytes_view(value), expires_at: deadline_spec(now, expire) },
            ),
            final(self)@.topics() == old(self)@.topics(),
            final(self)@.is_shutdown() == old(self)@.is_shutdown(),
            wake == becomes_earliest(old(self)@.entries(), key@, deadline_spec(now, expire)),
    {
        let expires_at = deadline(now, expire);
        let ghost before = self@.entries();
        let ghost index = self@.index();
        let ghost entry = EntryView { data: bytes_view(value), expires_at };
        let previous: Option<u128> = match self.shared.state.entries.get(key.as_str()) {
            Some(old_entry) => old_entry.expires_at,
            None => None,
        };
        self.shared.state.entries.insert(key.clone(), Entry { data: value, expires_at });
        assert(self@.entries() =~= before.insert(key@, entry));
        match previous {
            Some(time) => {
                proof {
                    assert(before.contains_key(key@));
                    assert(index.contains((time, key@)));
                }
                let found = self.shared.state.expirations.remove(time, key.as_str());
                proof {
                    let at = choose|at: int|
                        0 <= at < index.len() && index[at] == (time, key@) && self@.index()
                            == #[trigger] index.remove(at);
                    lemma_index_without(before, index, key@, at);
                }
            },
            None => {
                proof {
                    lemma_index_lacks(before, index, key@, 0);
                }
            },
        }
        let ghost rest = self@.index();
        assert(index_matches(before.remove(key@), rest));
        let mut wake = false;
        match expires_at {
            Some(time) => {
                wake = match self.shared.state.expirations.first() {
                    Some(earliest) => time < earliest,
                    None => true,
                };
                proof {
                    lemma_index_lacks(before.remove(key@), rest, key@, time);
                    let others = before.remove(key@);
                    if wake {
                        assert forall|other: Seq<char>|
                            other != key@ && #[trigger] before.contains_key(other)
                                && before[other].expires_at is Some implies time
                            < before[other].expires_at->0 by {
                            let pair = (before[other].expires_at->0, other);
                            assert(others.contains_key(other));
                            assert(rest.contains(pair));
                            let o = choose|o: int| 0 <= o < rest.len() && rest[o] == pair;
                            lemma_sorted_times(rest, 0, o);
                        }
                    } else {
                        let other = rest[0].1;
                        assert(others.contains_key(other));
                        assert(other != key@ && before.contains_key(other));
                    }
                }
                self.shared.state.expirations.insert(time, key);
                proof {
                    let at = choose|at: int|
                        0 <= at <= rest.len() && self@.index() == #[trigger] rest.insert(
                            at,
                            (time, key@),
                        );
                    lemma_index_with(before, rest, key@, entry, at);
                }
            },
            None => {
                proof {
                    lemma_index_with_lasting(before, rest, key@, entry);
                }
            },
        }
        assert forall|channel: Seq<char>| #[trigger]
            self@.topics().contains(channel) implies self@.topic_capacity(channel)
            == TOPIC_CAPACITY by {
            assert(old(self)@.topics().contains(channel));
        }
        wake
    }

    /// Tells the sweeper to stop. The sweeper has to be woken to see it.
    pub fn shutdown_clean_task(&mut self)
        ensures
            old(self)@.wf() ==> final(self)@.wf(),
            forall|channel: Seq<char>|
                final(self)@.topic_capacity(channel) == old(self)@.topic_capacity(channel),
            final(self)@.is_shutdown(),
            final(self)@.entries() == old(self)@.entries(),
            final(self)@.index() == old(self)@.index(),
            final(self)@.topics() == old(self)@.topics(),
    {
        self.shared.state.shutdown = true;
        assert(old(self)@.wf() ==> self@.wf()) by {
            if old(self)@.wf() {
                assert forall|channel: Seq<char>| #[trigger]
                    self@.topics().contains(channel) implies self@.topic_capacity(channel)
                    == TOPIC_CAPACITY by {
                    assert(old(self)@.topics().contains(channel));
                }
            }
        }
    }

    /// A new subscription to `channel`: a receiver for what is published on
    /// it from now on. The topic is made where the channel has none yet.
    pub fn subscribe(&mut self, channel: &str) -> (receiver: Receiver<Bytes>)
        ensures
            old(self)@.wf() ==> final(self)@.wf(),
            final(self)@.topics() == old(self)@.topics().insert(channel@),
            final(self)@.topic_capacity(channel@) == if old(self)@.topics().contains(channel@) {
                old(self)@.topic_capacity(channel@)
            } else {
                TOPIC_CAPACITY
            },
            forall|other: Seq<char>|
                other != channel@ ==> final(self)@.topic_capacity(other) == old(
                    self,
                )@.topic_capacity(other),
            final(self)@.entries() == old(self)@.entries(),
            final(self)@.index() == old(self)@.index(),
            final(self)@.is_shutdown() == old(self)@.is_shutdown(),
    {
        let ghost topics = self@.topics();
        match self.shared.state.pub_sub.get(channel) {
            Some(sender) => {
                assert(topics.insert(channel@) =~= topics);
                broadcast_subscribe(sender)
            },
            None => {
                let (sender, receiver) = broadcast_channel(TOPIC_CAPACITY);
                self.shared.state.pub_sub.insert(channel.to_owned(), sender);
                assert(self@.topics() =~= topics.insert(channel@));
                receiver
            },
        }
    }

    /// Publishes `message` on `channel`. Returns how many subscribers the
    /// topic's sender counted: none where the channel has no topic.
    pub fn publish(&self, channel: &str, message: Bytes) -> (count: usize)
        ensures
            !self@.topics().contains(channel@) ==> count == 0,
            count <= usize::MAX / 4,
    {
        match self.shared.state.pub_sub.get(channel) {
            Some(sender) => subscribers_reached(broadcast_send(sender, message)),
            None => 0,
        }
    }
}

} // verus!
