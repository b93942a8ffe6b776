//! The expiration index: the pairs of an expiration time and a key, kept in
//! the order of the time and, among equal times, of the key.

use crate::text::lemma_encoding_is_injective;
use vstd::prelude::*;
use vstd::string::StringSliceAdditionalSpecFns;
use vstd::utf8::encode_utf8;

verus! {

/// Whether `a` comes before `b` in the order of byte strings: at the first
/// place where they differ `a` has the smaller byte, or `a` ends there and
/// `b` goes on.
pub open spec fn bytes_lt(a: Seq<u8>, b: Seq<u8>) -> bool
    decreases a.len(),
{
    if b.len() == 0 {
        false
    } else if a.len() == 0 {
        true
    } else if a[0] != b[0] {
        a[0] < b[0]
    } else {
        bytes_lt(a.skip(1), b.skip(1))
    }
}

/// Whether the key `a` comes before the key `b`: the order of their UTF-8
/// encodings.
pub open spec fn key_lt(a: Seq<char>, b: Seq<char>) -> bool {
    bytes_lt(encode_utf8(a), encode_utf8(b))
}

/// Whether the pair `a` comes before the pair `b`: by the time, and among
/// equal times by the key.
pub open spec fn pair_lt(a: (u128, Seq<char>), b: (u128, Seq<char>)) -> bool {
    a.0 < b.0 || (a.0 == b.0 && key_lt(a.1, b.1))
}

/// Whether each pair of `index` comes before all that follow it.
pub open spec fn is_sorted(index: Seq<(u128, Seq<char>)>) -> bool {
    forall|i: int, j: int| 0 <= i < j < index.len() ==> pair_lt(index[i], index[j])
}

/// No byte string comes before itself.
pub proof fn lemma_bytes_lt_irreflexive(a: Seq<u8>)
    ensures
        !bytes_lt(a, a),
    decreases a.len(),
{
    if a.len() > 0 {
        lemma_bytes_lt_irreflexive(a.skip(1));
    }
}

/// The order of byte strings is transitive.
pub proof fn lemma_bytes_lt_transitive(a: Seq<u8>, b: Seq<u8>, c: Seq<u8>)
    requires
        bytes_lt(a, b),
        bytes_lt(b, c),
    ensures
        bytes_lt(a, c),
    decreases a.len(),
{
    if a.len() > 0 && b.len() > 0 && c.len() > 0 && a[0] == b[0] && b[0] == c[0] {
        lemma_bytes_lt_transitive(a.skip(1), b.skip(1), c.skip(1));
    }
}

/// Of two different byte strings one comes before the other.
pub proof fn lemma_bytes_lt_total(a: Seq<u8>, b: Seq<u8>)
    requires
        a != b,
    ensures
        bytes_lt(a, b) || bytes_lt(b, a),
    decreases a.len(),
{
    if a.len() > 0 && b.len() > 0 && a[0] == b[0] {
        if a.skip(1) == b.skip(1) {
            assert(a.len() == a.skip(1).len() + 1);
            assert(b.len() == b.skip(1).len() + 1);
            assert forall|i: int| 0 <= i < a.len() implies a[i] == b[i] by {
                if i > 0 {
                    assert(a[i] == a.skip(1)[i - 1]);
                    assert(b[i] == b.skip(1)[i - 1]);
                }
            }
            assert(a =~= b);
        }
        lemma_bytes_lt_total(a.skip(1), b.skip(1));
    } else if a.len() == 0 && b.len() == 0 {
        assert(a =~= b);
    }
}

/// No pair comes before itself.
pub proof fn lemma_pair_lt_irreflexive(a: (u128, Seq<char>))
    ensures
        !pair_lt(a, a),
{
    lemma_bytes_lt_irreflexive(encode_utf8(a.1));
}

/// The order of pairs is transitive.
pub proof fn lemma_pair_lt_transitive(
    a: (u128, Seq<char>),
    b: (u128, Seq<char>),
    c: (u128, Seq<char>),
)
    requires
        pair_lt(a, b),
        pair_lt(b, c),
    ensures
        pair_lt(a, c),
{
    if a.0 == b.0 && b.0 == c.0 {
        lemma_bytes_lt_transitive(encode_utf8(a.1), encode_utf8(b.1), encode_utf8(c.1));
    }
}

/// Of two different pairs one comes before the other.
pub proof fn lemma_pair_lt_total(a: (u128, Seq<char>), b: (u128, Seq<char>))
    requires
        a != b,
    ensures
        pair_lt(a, b) || pair_lt(b, a),
{
    if a.0 == b.0 {
        if encode_utf8(a.1) == encode_utf8(b.1) {
            lemma_encoding_is_injective(a.1, b.1);
        }
        lemma_bytes_lt_total(encode_utf8(a.1), encode_utf8(b.1));
    }
}

/// Whether the key `a` comes before the key `b`.
pub fn str_lt(a: &str, b: &str) -> (before: bool)
    ensures
        before == key_lt(a@, b@),
{
    let x = a.as_bytes();
    let y = b.as_bytes();
    let mut i: usize = 0;
    assert(x@.skip(0) =~= x@ && y@.skip(0) =~= y@);
    while i < x.len() && i < y.len()
        invariant
            i <= x.len(),
            i <= y.len(),
            x@ == encode_utf8(a@),
            y@ == encode_utf8(b@),
            bytes_lt(x@, y@) == bytes_lt(x@.skip(i as int), y@.skip(i as int)),
        decreases x.len() - i,
    {
        assert(x@.skip(i as int)[0] == x@[i as int]);
        assert(y@.skip(i as int)[0] == y@[i as int]);
        if x[i] != y[i] {
            return x[i] < y[i];
        }
        assert(x@.skip(i as int).skip(1) =~= x@.skip(i + 1));
        assert(y@.skip(i as int).skip(1) =~= y@.skip(i + 1));
        i = i + 1;
    }
    i < y.len()
}

/// Leaving out one pair keeps the order.
pub proof fn lemma_remove_keeps_sorted(index: Seq<(u128, Seq<char>)>, at: int)
    requires
        is_sorted(index),
        0 <= at < index.len(),
    ensures
        is_sorted(index.remove(at)),
{
    let after = index.remove(at);
    assert forall|i: int, j: int| 0 <= i < j < after.len() implies pair_lt(after[i], after[j]) by {
        let oi = if i < at { i } else { i + 1 };
        let oj = if j < at { j } else { j + 1 };
        assert(after[i] == index[oi]);
        assert(after[j] == index[oj]);
    }
}

/// Putting a pair between those that come before it and those that come
/// after it keeps the order.
pub proof fn lemma_insert_keeps_sorted(
    index: Seq<(u128, Seq<char>)>,
    at: int,
    pair: (u128, Seq<char>),
)
    requires
        is_sorted(index),
        0 <= at <= index.len(),
        forall|j: int| 0 <= j < at ==> pair_lt(#[trigger] index[j], pair),
        forall|j: int| at <= j < index.len() ==> pair_lt(pair, #[trigger] index[j]),
    ensures
        is_sorted(index.insert(at, pair)),
{
    let after = index.insert(at, pair);
    assert forall|i: int, j: int| 0 <= i < j < after.len() implies pair_lt(after[i], after[j]) by {
        if i != at {
            let oi = if i < at { i } else { i - 1 };
            assert(after[i] == index[oi]);
        }
        if j != at {
            let oj = if j < at { j } else { j - 1 };
            assert(after[j] == index[oj]);
        }
    }
}

/// A sorted index holds no pair twice.
pub proof fn lemma_sorted_is_distinct(index: Seq<(u128, Seq<char>)>, i: int, j: int)
    requires
        is_sorted(index),
        0 <= i < index.len(),
        0 <= j < index.len(),
        index[i] == index[j],
    ensures
        i == j,
{
    lemma_pair_lt_irreflexive(index[i]);
}

/// In a sorted index the times do not go down.
pub proof fn lemma_sorted_times(index: Seq<(u128, Seq<char>)>, i: int, j: int)
    requires
        is_sorted(index),
        0 <= i <= j < index.len(),
    ensures
        index[i].0 <= index[j].0,
{
    if i < j {
        assert(pair_lt(index[i], index[j]));
    }
}

/// Two sorted indexes that hold the same pairs are the same index.
pub proof fn lemma_sorted_same_pairs(a: Seq<(u128, Seq<char>)>, b: Seq<(u128, Seq<char>)>)
    requires
        is_sorted(a),
        is_sorted(b),
        forall|pair: (u128, Seq<char>)| a.contains(pair) <==> b.contains(pair),
    ensures
        a == b,
    decreases a.len(),
{
    if a.len() == 0 {
        if b.len() > 0 {
            assert(b.contains(b[0]));
        }
        assert(a =~= b);
    } else {
        assert(a.contains(a[0]));
        assert(b.contains(a[0]));
        let j = choose|j: int| 0 <= j < b.len() && b[j] == a[0];
        assert(b.contains(b[0]));
        assert(a.contains(b[0]));
        let i = choose|i: int| 0 <= i < a.len() && a[i] == b[0];
        if i > 0 {
            assert(pair_lt(a[0], a[i]));
            if j > 0 {
                assert(pair_lt(b[0], b[j]));
                lemma_pair_lt_transitive(a[0], b[0], a[0]);
            }
            lemma_pair_lt_irreflexive(a[0]);
        }
        assert(a[0] == b[0]);
        let x = a.skip(1);
        let y = b.skip(1);
        assert forall|pair: (u128, Seq<char>)| x.contains(pair) <==> y.contains(pair) by {
            if x.contains(pair) {
                let k = choose|k: int| 0 <= k < x.len() && x[k] == pair;
                assert(a[k + 1] == pair);
                assert(pair_lt(a[0], a[k + 1]));
                lemma_pair_lt_irreflexive(a[0]);
                assert(a.contains(pair));
                assert(b.contains(pair));
                let m = choose|m: int| 0 <= m < b.len() && b[m] == pair;
                assert(m > 0);
                assert(y[m - 1] == pair);
            }
            if y.contains(pair) {
                let k = choose|k: int| 0 <= k < y.len() && y[k] == pair;
                assert(b[k + 1] == pair);
                assert(pair_lt(b[0], b[k + 1]));
                lemma_pair_lt_irreflexive(b[0]);
                assert(b.contains(pair));
                assert(a.contains(pair));
                let m = choose|m: int| 0 <= m < a.len() && a[m] == pair;
                assert(m > 0);
                assert(x[m - 1] == pair);
            }
        }
        assert forall|p: int, q: int| 0 <= p < q < x.len() implies pair_lt(x[p], x[q]) by {
            assert(pair_lt(a[p + 1], a[q + 1]));
        }
        assert forall|p: int, q: int| 0 <= p < q < y.len() implies pair_lt(y[p], y[q]) by {
            assert(pair_lt(b[p + 1], b[q + 1]));
        }
        lemma_sorted_same_pairs(x, y);
        assert(a =~= seq![a[0]] + x);
        assert(b =~= seq![b[0]] + y);
    }
}

/// The expiration index.
pub struct Expirations {
    pairs: Vec<(u128, String)>,
}

impl View for Expirations {
    type V = Seq<(u128, Seq<char>)>;

    /// The pairs of the index in their order, each key as a text.
    closed spec fn view(&self) -> Seq<(u128, Seq<char>)> {
        Seq::new(self.pairs.len() as nat, |i: int| (self.pairs[i].0, self.pairs[i].1@))
    }
}

impl Expirations {
    /// Whether the pairs stand in their order, which also means that none
    /// stands twice.
    pub open spec fn wf(&self) -> bool {
        is_sorted(self@)
    }

    /// An index without pairs.
    pub fn new() -> (index: Expirations)
        ensures
            index@ == Seq::<(u128, Seq<char>)>::empty(),
            index.wf(),
    {
        let index = Expirations { pairs: Vec::new() };
        assert(index@ =~= Seq::<(u128, Seq<char>)>::empty());
        index
    }

    /// The number of pairs.
    pub fn len(&self) -> (n: usize)
        ensures
            n == self@.len(),
    {
        self.pairs.len()
    }

    /// The time of the pair at `i`.
    pub fn time_at(&self, i: usize) -> (time: u128)
        requires
            i < self@.len(),
        ensures
            time == self@[i as int].0,
    {
        self.pairs[i].0
    }

    /// The key of the pair at `i`.
    pub fn key_at(&self, i: usize) -> (key: &str)
        requires
            i < self@.len(),
        ensures
            key@ == self@[i as int].1,
    {
        self.pairs[i].1.as_str()
    }

    /// The earliest time in the index, if it holds a pair.
    pub fn first(&self) -> (earliest: Option<u128>)
        ensures
            match earliest {
                Some(time) => self@.len() > 0 && time == self@[0].0,
                None => self@.len() == 0,
            },
    {
        if self.pairs.len() > 0 {
            Some(self.pairs[0].0)
        } else {
            None
        }
    }

    /// Puts the pair of `time` and `key` at its place in the order, unless
    /// the index holds it already. Returns whether the pair is new.
    pub fn insert(&mut self, time: u128, key: String) -> (added: bool)
        requires
            old(self).wf(),
        ensures
            final(self).wf(),
            added == !old(self)@.contains((time, key@)),
            !added ==> final(self)@ == old(self)@,
            added ==> exists|at: int|
                0 <= at <= old(self)@.len() && final(self)@ == #[trigger] old(self)@.insert(
                    at,
                    (time, key@),
                ),
    {
        let ghost pair = (time, key@);
        let ghost before = self@;
        let mut i: usize = 0;
        while i < self.pairs.len() && (self.pairs[i].0 < time || (self.pairs[i].0 == time
            && str_lt(self.pairs[i].1.as_str(), key.as_str())))
            invariant
                i <= self.pairs.len(),
                self@ == before,
                pair == (time, key@),
                forall|j: int| 0 <= j < i ==> pair_lt(#[trigger] before[j], pair),
            decreases self.pairs.len() - i,
        {
            i = i + 1;
        }
        if i < self.pairs.len() && self.pairs[i].0 == time && crate::text::str_eq(
            self.pairs[i].1.as_str(),
            key.as_str(),
        ) {
            assert(before[i as int] == pair);
            return false;
        }
        proof {
            lemma_pair_lt_irreflexive(pair);
            assert forall|j: int| 0 <= j < before.len() implies before[j] != pair by {
                if j < i {
                    assert(pair_lt(before[j], pair));
                } else if j > i {
                    assert(pair_lt(before[i as int], before[j]));
                    if before[j] == pair {
                        lemma_pair_lt_total(pair, before[i as int]);
                    }
                }
            }
            assert forall|j: int| i <= j < before.len() implies pair_lt(
                pair,
                #[trigger] before[j],
            ) by {
                lemma_pair_lt_total(pair, before[i as int]);
                if j > i {
                    lemma_pair_lt_transitive(pair, before[i as int], before[j]);
                }
            }
            lemma_insert_keeps_sorted(before, i as int, pair);
        }
        self.pairs.insert(i, (time, key));
        assert(self@ =~= before.insert(i as int, pair));
        true
    }

    /// Takes the pair of `time` and `key` out, if the index holds it.
    pub fn remove(&mut self, time: u128, key: &str) -> (found: bool)
        requires
            old(self).wf(),
        ensures
            final(self).wf(),
            found == old(self)@.contains((time, key@)),
            !found ==> final(self)@ == old(self)@,
            found ==> exists|at: int|
                0 <= at < old(self)@.len() && old(self)@[at] == (time, key@) && final(self)@
                    == #[trigger] old(self)@.remove(at),
    {
        let ghost pair = (time, key@);
        let ghost before = self@;
        let mut i: usize = 0;
        while i < self.pairs.len()
            invariant
                i <= self.pairs.len(),
                self@ == before,
                before == old(self)@,
                is_sorted(before),
                pair == (time, key@),
                forall|j: int| 0 <= j < i ==> #[trigger] before[j] != pair,
            decreases self.pairs.len() - i,
        {
            if self.pairs[i].0 == time && crate::text::str_eq(self.pairs[i].1.as_str(), key) {
                proof {
                    assert(before[i as int] == pair);
                    lemma_remove_keeps_sorted(before, i as int);
                }
                let _ = self.pairs.remove(i);
                assert(self@ =~= before.remove(i as int));
                assert(before.contains(pair));
                return true;
            }
            i = i + 1;
        }
        false
    }

    /// Drops the first `n` pairs.
    pub fn drop_front(&mut self, n: usize)
        requires
            old(self).wf(),
            n <= old(self)@.len(),
        ensures
            final(self).wf(),
            final(self)@ == old(self)@.skip(n as int),
    {
        let rest = self.pairs.split_off(n);
        self.pairs = rest;
        assert(self@ =~= old(self)@.skip(n as int));
    }
}

} // verus!
