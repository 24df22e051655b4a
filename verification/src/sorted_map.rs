//! A map kept as a vector sorted by key.
//!
//! Iterating it yields the keys in order, so a report built from one does not
//! depend on the order in which its entries arrived.

use crate::order::{Ordered, Rank};
use vstd::prelude::*;

verus! {

/// Whether the keys of `s` ascend strictly.
pub open spec fn ascending<K: Ordered, V>(s: Seq<(K::Key, V)>) -> bool {
    forall|i: int, j: int| 0 <= i < j < s.len() ==> K::precedes(s[i].0, s[j].0)
}

/// Whether `s` has an entry under `k`.
pub open spec fn has_key<Q, V>(s: Seq<(Q, V)>, k: Q) -> bool {
    exists|i: int| 0 <= i < s.len() && (#[trigger] s[i]).0 == k
}

/// The map that a sequence of entries with distinct keys stands for.
pub open spec fn map_of<Q, V>(s: Seq<(Q, V)>) -> Map<Q, V> {
    Map::new(
        |k: Q| has_key(s, k),
        |k: Q| s[choose|i: int| 0 <= i < s.len() && (#[trigger] s[i]).0 == k].1,
    )
}

/// The value a map holds under `k`, or `absent` if it holds none.
pub open spec fn value_or<Q, V>(m: Map<Q, V>, k: Q, absent: V) -> V {
    if m.dom().contains(k) {
        m[k]
    } else {
        absent
    }
}

/// The sum of every value of a finite map.
pub open spec fn map_sum<Q>(m: Map<Q, int>) -> int
    decreases m.dom().len(),
    when m.dom().finite()
{
    if m.dom().is_empty() {
        0
    } else {
        let k = m.dom().choose();
        m[k] + map_sum(m.remove(k))
    }
}

/// Any one key can be counted first.
pub proof fn map_sum_splits<Q>(m: Map<Q, int>, k: Q)
    requires
        m.dom().finite(),
        m.dom().contains(k),
    ensures
        map_sum(m) == m[k] + map_sum(m.remove(k)),
    decreases m.dom().len(),
{
    let c = m.dom().choose();
    if c != k {
        map_sum_splits(m.remove(c), k);
        map_sum_splits(m.remove(k), c);
        assert(m.remove(c).remove(k) =~= m.remove(k).remove(c));
    }
}

/// Replacing one value changes the sum by the difference.
pub proof fn map_sum_after_insert<Q>(m: Map<Q, int>, k: Q, v: int)
    requires
        m.dom().finite(),
    ensures
        map_sum(m.insert(k, v)) == map_sum(m) - value_or(m, k, 0) + v,
{
    map_sum_splits(m.insert(k, v), k);
    if m.dom().contains(k) {
        map_sum_splits(m, k);
        assert(m.insert(k, v).remove(k) =~= m.remove(k));
    } else {
        assert(m.insert(k, v).remove(k) =~= m);
    }
}

/// A plain value that another can be added to.
pub trait Amount: Copy {
    /// Whether the two can be added within range.
    spec fn addable(self, other: Self) -> bool;

    spec fn sum(self, other: Self) -> Self;

    fn plus(self, other: Self) -> (r: Self)
        requires
            self.addable(other),
        ensures
            r == self.sum(other),
    ;
}

/// The two maps together, with the values added under a key that both hold.
pub open spec fn both<Q, V: Amount>(a: Map<Q, V>, b: Map<Q, V>) -> Map<Q, V> {
    Map::new(
        |k: Q| a.dom().contains(k) || b.dom().contains(k),
        |k: Q|
            if a.dom().contains(k) && b.dom().contains(k) {
                a[k].sum(b[k])
            } else if a.dom().contains(k) {
                a[k]
            } else {
                b[k]
            },
    )
}

/// Whether `whole` holds what `m` holds and the entries of `rest`.
spec fn covers<Q, V>(whole: Map<Q, V>, m: Map<Q, V>, rest: Seq<(Q, V)>) -> bool {
    &&& forall|k: Q| #[trigger]
        whole.dom().contains(k) <==> m.dom().contains(k) || has_key(rest, k)
    &&& forall|k: Q| #[trigger] m.dom().contains(k) ==> whole[k] == m[k]
    &&& forall|i: int| 0 <= i < rest.len() ==> whole[(#[trigger] rest[i]).0] == rest[i].1
}

/// An entry may stand in the map or behind the others.
proof fn lemma_covers<Q, V>(whole: Map<Q, V>, m: Map<Q, V>, rest: Seq<(Q, V)>, k: Q, v: V)
    requires
        !m.dom().contains(k),
        !has_key(rest, k),
    ensures
        covers(whole, m.insert(k, v), rest) <==> covers(whole, m, rest.push((k, v))),
{
    let more = m.insert(k, v);
    let longer = rest.push((k, v));
    assert(longer[rest.len() as int].0 == k);
    assert forall|q: Q| has_key(longer, q) <==> q == k || #[trigger] has_key(rest, q) by {
        if has_key(rest, q) {
            let i = choose|i: int| 0 <= i < rest.len() && (#[trigger] rest[i]).0 == q;
            assert(longer[i].0 == q);
        }
        if has_key(longer, q) {
            let i = choose|i: int| 0 <= i < longer.len() && (#[trigger] longer[i]).0 == q;
            if i < rest.len() {
                assert(rest[i].0 == q);
            }
        }
    }
    if covers(whole, more, rest) {
        assert(more.dom().contains(k));
        assert forall|q: Q| #[trigger] m.dom().contains(q) implies whole[q] == m[q] by {
            assert(more.dom().contains(q));
        }
        assert forall|i: int| 0 <= i < longer.len() implies whole[(#[trigger] longer[i]).0]
            == longer[i].1 by {
            if i < rest.len() {
                assert(rest[i] == longer[i]);
            }
        }
        assert forall|q: Q| #[trigger] whole.dom().contains(q) <==> m.dom().contains(q) || has_key(
            longer,
            q,
        ) by {
            assert(has_key(longer, q) <==> q == k || has_key(rest, q));
        }
    }
    if covers(whole, m, longer) {
        assert(whole[longer[rest.len() as int].0] == v);
        assert forall|i: int| 0 <= i < rest.len() implies whole[(#[trigger] rest[i]).0]
            == rest[i].1 by {
            assert(rest[i] == longer[i]);
        }
        assert forall|q: Q| #[trigger] more.dom().contains(q) implies whole[q] == more[q] by {
            if q != k {
                assert(m.dom().contains(q));
            }
        }
        assert forall|q: Q| #[trigger] whole.dom().contains(q) <==> more.dom().contains(q)
            || has_key(rest, q) by {
            assert(has_key(longer, q) <==> q == k || has_key(rest, q));
        }
    }
}

/// The keys and values of a sequence of entries.
spec fn pairs_of<K: Ordered, V>(s: Seq<(K, V)>) -> Seq<(K::Key, V)> {
    Seq::new(s.len(), |i: int| (s[i].0.key(), s[i].1))
}

/// Whether every key of `s` comes ahead of `k`.
spec fn all_precede<K: Ordered, V>(s: Seq<(K::Key, V)>, k: K::Key) -> bool {
    forall|i: int| 0 <= i < s.len() ==> K::precedes((#[trigger] s[i]).0, k)
}

/// A sequence whose last key comes ahead of `k` has every key ahead of it, and
/// so does not hold `k`.
proof fn lemma_all_precede<K: Ordered, V>(s: Seq<(K::Key, V)>, k: K::Key)
    requires
        ascending::<K, V>(s),
        s.len() > 0 ==> K::precedes(s.last().0, k),
    ensures
        all_precede::<K, V>(s, k),
        !has_key(s, k),
        !map_of(s).dom().contains(k),
{
    assert forall|i: int| 0 <= i < s.len() implies K::precedes((#[trigger] s[i]).0, k) by {
        if i < s.len() - 1 {
            K::order_laws(s[i].0, s.last().0, k);
        }
    }
    K::order_laws(k, k, k);
}

/// Whether the key of every entry is as `p` says.
spec fn all_like<K, V>(s: Seq<(K, V)>, p: spec_fn(K) -> bool) -> bool {
    forall|i: int| 0 <= i < s.len() ==> p((#[trigger] s[i]).0)
}

/// A map from ordered keys to plain values.
#[derive(Debug, Clone, PartialEq, Eq)]
pub struct SortedMap<K: Ordered, V> {
    entries: Vec<(K, V)>,
}

impl<K: Ordered, V: Copy> SortedMap<K, V> {
    /// The entries, in the order they are stored.
    pub closed spec fn pairs(&self) -> Seq<(K::Key, V)> {
        Seq::new(self.entries@.len(), |i: int| (self.entries@[i].0.key(), self.entries@[i].1))
    }

    /// The keys are stored in strictly ascending order, so each occurs once.
    pub open spec fn well_formed(&self) -> bool {
        ascending::<K, V>(self.pairs())
    }

    /// What the map holds.
    pub open spec fn map(&self) -> Map<K::Key, V> {
        map_of(self.pairs())
    }

    /// Whether every key is as `p` says.
    pub closed spec fn all_keys(&self, p: spec_fn(K) -> bool) -> bool {
        forall|i: int| 0 <= i < self.entries@.len() ==> p((#[trigger] self.entries@[i]).0)
    }

    pub fn new() -> (r: Self)
        ensures
            r.well_formed(),
            r.map() == Map::<K::Key, V>::empty(),
            forall|p: spec_fn(K) -> bool| #[trigger] r.all_keys(p),
    {
        let r = SortedMap { entries: Vec::new() };
        assert(r.map() =~= Map::<K::Key, V>::empty());
        r
    }

    pub fn len(&self) -> (r: usize)
        ensures
            r == self.pairs().len(),
    {
        self.entries.len()
    }

    /// The key at position `i`, counting from the least.
    pub fn key_at(&self, i: usize) -> (r: &K)
        requires
            i < self.pairs().len(),
        ensures
            r.key() == self.pairs()[i as int].0,
            forall|p: spec_fn(K) -> bool| #[trigger] self.all_keys(p) ==> p(*r),
    {
        &self.entries[i].0
    }

    /// The value at position `i`, counting from the least key.
    pub fn value_at(&self, i: usize) -> (r: V)
        requires
            i < self.pairs().len(),
        ensures
            r == self.pairs()[i as int].1,
    {
        self.entries[i].1
    }

    /// Every entry, in order of its key.
    pub fn rows(&self) -> (r: Vec<(K, V)>)
        where K: Copy
        requires
            self.well_formed(),
        ensures
            r@.len() == self.pairs().len(),
            forall|i: int|
                0 <= i < r@.len() ==> ((#[trigger] r@[i]).0.key(), r@[i].1) == self.pairs()[i],
    {
        let mut r: Vec<(K, V)> = Vec::new();
        let mut i: usize = 0;
        while i < self.entries.len()
            invariant
                i <= self.entries@.len(),
                r@.len() == i,
                forall|k: int|
                    0 <= k < i ==> ((#[trigger] r@[k]).0.key(), r@[k].1) == self.pairs()[k],
            decreases self.entries.len() - i,
        {
            r.push((self.entries[i].0, self.entries[i].1));
            i = i + 1;
        }
        r
    }

    /// Take out the entry with the greatest key.
    pub fn pop_last(&mut self) -> (r: Option<(K, V)>)
        requires
            old(self).well_formed(),
        ensures
            final(self).well_formed(),
            old(self).pairs().len() == 0 ==> r is None && final(self).pairs() == old(self).pairs(),
            old(self).pairs().len() > 0 ==> {
                &&& r matches Some(entry)
                &&& (entry.0.key(), entry.1) == old(self).pairs().last()
                &&& final(self).pairs() == old(self).pairs().drop_last()
                &&& !final(self).map().dom().contains(entry.0.key())
                &&& old(self).map() == final(self).map().insert(entry.0.key(), entry.1)
            },
            forall|p: spec_fn(K) -> bool| #[trigger]
                old(self).all_keys(p) ==> final(self).all_keys(p) && match r {
                    Some(entry) => p(entry.0),
                    None => true,
                },
    {
        let ghost before = self.pairs();
        proof {
            if before.len() > 0 {
                lemma_map_of_last::<K, V>(before);
            }
        }
        let r: Option<(K, V)> = self.entries.pop();
        proof {
            if before.len() > 0 {
                assert(self.pairs() =~= before.drop_last());
            } else {
                assert(self.pairs() =~= before);
            }
        }
        r
    }

    /// How many keys come ahead of `key`.
    fn position(&self, key: &K) -> (r: usize)
        requires
            self.well_formed(),
        ensures
            r <= self.pairs().len(),
            forall|i: int| 0 <= i < r ==> K::precedes(#[trigger] self.pairs()[i].0, key.key()),
            forall|i: int|
                r <= i < self.pairs().len() ==> !K::precedes(
                    #[trigger] self.pairs()[i].0,
                    key.key(),
                ),
    {
        let mut low: usize = 0;
        let mut high: usize = self.entries.len();
        while low < high
            invariant
                self.well_formed(),
                low <= high <= self.entries@.len(),
                forall|i: int|
                    0 <= i < low ==> K::precedes(#[trigger] self.pairs()[i].0, key.key()),
                forall|i: int|
                    high <= i < self.pairs().len() ==> !K::precedes(
                        #[trigger] self.pairs()[i].0,
                        key.key(),
                    ),
            decreases high - low,
        {
            let middle: usize = low + (high - low) / 2;
            let ghost at = self.pairs()[middle as int].0;
            match self.entries[middle].0.rank(key) {
                Rank::First => {
                    proof {
                        assert forall|i: int| 0 <= i < middle + 1 implies K::precedes(
                            #[trigger] self.pairs()[i].0,
                            key.key(),
                        ) by {
                            K::order_laws(self.pairs()[i].0, at, key.key());
                        }
                    }
                    low = middle + 1;
                },
                _ => {
                    proof {
                        assert forall|i: int| middle <= i < self.pairs().len() implies !K::precedes(
                            #[trigger] self.pairs()[i].0,
                            key.key(),
                        ) by {
                            K::order_laws(at, self.pairs()[i].0, key.key());
                        }
                    }
                    high = middle;
                },
            }
        }
        low
    }

    /// The value under `key`, if there is one.
    pub fn get(&self, key: &K) -> (r: Option<V>)
        requires
            self.well_formed(),
        ensures
            r is Some <==> self.map().dom().contains(key.key()),
            r matches Some(v) ==> v == self.map()[key.key()],
    {
        let at: usize = self.position(key);
        let ghost pairs = self.pairs();
        if at < self.entries.len() {
            match self.entries[at].0.rank(key) {
                Rank::Same => {
                    proof {
                        lemma_map_of::<K, V>(pairs, at as int);
                    }
                    return Some(self.entries[at].1);
                },
                _ => {},
            }
        }
        proof {
            if has_key(pairs, key.key()) {
                let i = choose|i: int| 0 <= i < pairs.len() && (#[trigger] pairs[i]).0 == key.key();
                K::order_laws(pairs[i].0, pairs[at as int].0, key.key());
                K::order_laws(key.key(), key.key(), key.key());
                if i > at {
                    assert(K::precedes(pairs[at as int].0, pairs[i].0));
                }
            }
        }
        None
    }

    /// Put in an entry behind all the others.
    fn push_last(&mut self, key: K, value: V)
        requires
            old(self).well_formed(),
            all_precede::<K, V>(old(self).pairs(), key.key()),
        ensures
            final(self).well_formed(),
            final(self).pairs() == old(self).pairs().push((key.key(), value)),
            final(self).map() == old(self).map().insert(key.key(), value),
            forall|p: spec_fn(K) -> bool|
                old(self).all_keys(p) && p(key) ==> #[trigger] final(self).all_keys(p),
    {
        let ghost before = self.pairs();
        let ghost k = key.key();
        let ghost n = before.len() as int;
        self.entries.push((key, value));
        proof {
            assert(self.pairs() =~= before.push((k, value)));
            assert(before.push((k, value)) =~= before.insert(n, (k, value)));
            lemma_insert::<K, V>(before, n, k, value);
        }
    }

    /// Add everything that `other` holds. What this takes grows with `other`
    /// and with what has to make room for it, not with the map itself. A key
    /// that both maps hold stays as it is.
    pub fn merge(&mut self, other: Self)
        where V: Amount
        requires
            old(self).well_formed(),
            other.well_formed(),
            forall|k: K::Key| #[trigger]
                old(self).map().dom().contains(k) && other.map().dom().contains(k) ==> old(
                    self,
                ).map()[k].addable(other.map()[k]),
        ensures
            final(self).well_formed(),
            final(self).map() == both(old(self).map(), other.map()),
            forall|p: spec_fn(K) -> bool|
                old(self).all_keys(p) && other.all_keys(p) ==> #[trigger] final(self).all_keys(p),
    {
        let ghost start = *self;
        let ghost whole = both(self.map(), other.map());
        let mut rest: Self = other;
        // What is already known to stand behind everything else, last one first.
        let mut behind: Vec<(K, V)> = Vec::new();
        while rest.len() > 0
            invariant
                self.well_formed(),
                rest.well_formed(),
                covers(whole, both(self.map(), rest.map()), pairs_of::<K, V>(behind@)),
                forall|k: K::Key| #[trigger]
                    self.map().dom().contains(k) && rest.map().dom().contains(k)
                        ==> self.map()[k].addable(rest.map()[k]),
                forall|i: int|
                    0 <= i < behind@.len() ==> all_precede::<K, V>(
                        self.pairs(),
                        (#[trigger] behind@[i]).0.key(),
                    ) && all_precede::<K, V>(rest.pairs(), behind@[i].0.key()),
                forall|i: int, j: int|
                    0 <= i < j < behind@.len() ==> K::precedes(
                        behind@[j].0.key(),
                        behind@[i].0.key(),
                    ),
                forall|p: spec_fn(K) -> bool|
                    start.all_keys(p) && other.all_keys(p) ==> #[trigger] self.all_keys(p)
                        && rest.all_keys(p) && all_like(behind@, p),
            decreases rest.pairs().len(), self.pairs().len(),
        {
            let ghost a = self.map();
            let ghost b = rest.map();
            let ghost mine = self.pairs();
            let ghost others = rest.pairs();
            let ghost done = pairs_of::<K, V>(behind@);
            let ghost earlier = *self;
            let ghost earlier_rest = rest;
            let ghost earlier_behind = behind@;
            let n: usize = self.len();
            let last: Rank = if n == 0 {
                Rank::First
            } else {
                self.key_at(n - 1).rank(rest.key_at(rest.len() - 1))
            };
            proof {
                if n > 0 {
                    K::order_laws(mine.last().0, others.last().0, mine.last().0);
                }
            }
            let entry: Option<(K, V)> = match last {
                Rank::First => rest.pop_last(),
                Rank::Second => self.pop_last(),
                Rank::Same => match (self.pop_last(), rest.pop_last()) {
                    (Some((key, value)), Some((_, more))) => {
                        assert(a.dom().contains(key.key()) && b.dom().contains(key.key()));
                        Some((key, value.plus(more)))
                    },
                    _ => None,
                },
            };
            match entry {
                Some((key, value)) => {
                    let ghost k = key.key();
                    proof {
                        if others.len() > 1 {
                            assert(K::precedes(
                                others[others.len() - 2].0,
                                others[others.len() - 1].0,
                            ));
                        }
                        if mine.len() > 1 {
                            assert(K::precedes(mine[mine.len() - 2].0, mine[mine.len() - 1].0));
                        }
                        lemma_all_precede::<K, V>(self.pairs(), k);
                        lemma_all_precede::<K, V>(rest.pairs(), k);
                        assert forall|q: K::Key| #[trigger]
                            self.map().dom().contains(q) && rest.map().dom().contains(
                                q,
                            ) implies self.map()[q].addable(rest.map()[q]) by {
                            assert(a.dom().contains(q) && b.dom().contains(q));
                        }
                        assert(both(a, b) =~= both(self.map(), rest.map()).insert(k, value));
                        if has_key(done, k) {
                            K::order_laws(k, k, k);
                        }
                        lemma_covers(whole, both(self.map(), rest.map()), done, k, value);
                    }
                    behind.push((key, value));
                    assert(pairs_of::<K, V>(behind@) =~= done.push((k, value)));
                    assert forall|p: spec_fn(K) -> bool|
                        start.all_keys(p) && other.all_keys(p) implies #[trigger] self.all_keys(p)
                        && rest.all_keys(p) && all_like(behind@, p) by {
                        assert(earlier.all_keys(p));
                        assert(earlier_rest.all_keys(p));
                        assert(all_like(earlier_behind, p));
                    }
                },
                None => {},
            }
        }
        assert(both(self.map(), rest.map()) =~= self.map());
        while behind.len() > 0
            invariant
                self.well_formed(),
                covers(whole, self.map(), pairs_of::<K, V>(behind@)),
                forall|i: int|
                    0 <= i < behind@.len() ==> all_precede::<K, V>(
                        self.pairs(),
                        (#[trigger] behind@[i]).0.key(),
                    ),
                forall|i: int, j: int|
                    0 <= i < j < behind@.len() ==> K::precedes(
                        behind@[j].0.key(),
                        behind@[i].0.key(),
                    ),
                forall|p: spec_fn(K) -> bool|
                    start.all_keys(p) && other.all_keys(p) ==> #[trigger] self.all_keys(p)
                        && all_like(behind@, p),
            decreases behind.len(),
        {
            let ghost before = behind@;
            match behind.pop() {
                Some((key, value)) => {
                    proof {
                        let k = key.key();
                        let done = pairs_of::<K, V>(behind@);
                        assert(before.last() == (key, value));
                        assert(pairs_of::<K, V>(before) =~= done.push((k, value)));
                        lemma_all_precede::<K, V>(self.pairs(), k);
                        K::order_laws(k, k, k);
                        assert(!has_key(done, k)) by {
                            assert forall|i: int| 0 <= i < done.len() implies (#[trigger]
                            done[i]).0 != k by {
                                assert(K::precedes(
                                    before[before.len() - 1].0.key(),
                                    before[i].0.key(),
                                ));
                            }
                        }
                        lemma_covers(whole, self.map(), done, k, value);
                        assert forall|p: spec_fn(K) -> bool| #[trigger]
                            all_like(before, p) implies p(key) && all_like(behind@, p) by {
                            assert(p(before[before.len() - 1].0));
                            assert forall|i: int| 0 <= i < behind@.len() implies p(
                                (#[trigger] behind@[i]).0,
                            ) by {
                                assert(p(before[i].0));
                            }
                        }
                    }
                    let ghost earlier = *self;
                    self.push_last(key, value);
                    assert forall|p: spec_fn(K) -> bool|
                        start.all_keys(p) && other.all_keys(p) implies #[trigger] self.all_keys(p)
                        && all_like(behind@, p) by {
                        assert(earlier.all_keys(p));
                        assert(all_like(before, p));
                    }
                },
                None => {},
            }
        }
        assert(self.map() =~= whole);
    }

    /// Put `value` under `key`, in place of any value already there. A key that
    /// the map already holds stays as it is.
    pub fn set(&mut self, key: K, value: V)
        requires
            old(self).well_formed(),
        ensures
            final(self).well_formed(),
            final(self).map() == old(self).map().insert(key.key(), value),
            forall|p: spec_fn(K) -> bool|
                old(self).all_keys(p) && p(key) ==> #[trigger] final(self).all_keys(p),
    {
        let at: usize = self.position(&key);
        let ghost before = self.pairs();
        let ghost k = key.key();
        if at < self.entries.len() {
            match self.entries[at].0.rank(&key) {
                Rank::Same => {
                    let entry: &mut (K, V) = &mut self.entries[at];
                    entry.1 = value;
                    proof {
                        assert(self.pairs() =~= before.update(at as int, (k, value)));
                        lemma_update::<K, V>(before, at as int, value);
                    }
                    return;
                },
                _ => {},
            }
        }
        proof {
            if at < before.len() {
                K::order_laws(before[at as int].0, k, k);
            }
        }
        self.entries.insert(at, (key, value));
        proof {
            assert(self.pairs() =~= before.insert(at as int, (k, value)));
            lemma_insert::<K, V>(before, at as int, k, value);
        }
    }
}

/// In an ascending sequence, the entry at `i` is the one its key maps to.
pub proof fn lemma_map_of<K: Ordered, V>(s: Seq<(K::Key, V)>, i: int)
    requires
        ascending::<K, V>(s),
        0 <= i < s.len(),
    ensures
        map_of(s).dom().contains(s[i].0),
        map_of(s)[s[i].0] == s[i].1,
{
    let k = s[i].0;
    assert(has_key(s, k));
    let j = choose|j: int| 0 <= j < s.len() && (#[trigger] s[j]).0 == k;
    if i < j {
        assert(K::precedes(s[i].0, s[j].0));
    }
    if j < i {
        assert(K::precedes(s[j].0, s[i].0));
    }
    K::order_laws(k, k, k);
}

/// Adding one more entry, with a key of its own, adds it to the map.
pub proof fn lemma_map_of_last<K: Ordered, V>(s: Seq<(K::Key, V)>)
    requires
        ascending::<K, V>(s),
        s.len() > 0,
    ensures
        ascending::<K, V>(s.drop_last()),
        !map_of(s.drop_last()).dom().contains(s.last().0),
        map_of(s) == map_of(s.drop_last()).insert(s.last().0, s.last().1),
{
    let t = s.drop_last();
    let k = s.last().0;
    assert forall|i: int, j: int| 0 <= i < j < t.len() implies K::precedes(t[i].0, t[j].0) by {
        assert(K::precedes(s[i].0, s[j].0));
    }
    assert forall|i: int| 0 <= i < t.len() implies K::precedes(#[trigger] t[i].0, k) by {
        assert(K::precedes(s[i].0, s[s.len() - 1].0));
    }
    if has_key(t, k) {
        let i = choose|i: int| 0 <= i < t.len() && (#[trigger] t[i]).0 == k;
        K::order_laws(t[i].0, k, k);
    }
    lemma_insert::<K, V>(t, t.len() as int, k, s.last().1);
    assert(t.insert(t.len() as int, (k, s.last().1)) =~= s);
}

/// The map of finitely many entries is finite.
pub proof fn lemma_map_of_finite<K: Ordered, V>(s: Seq<(K::Key, V)>)
    requires
        ascending::<K, V>(s),
    ensures
        map_of(s).dom().finite(),
    decreases s.len(),
{
    if s.len() == 0 {
        assert(map_of(s).dom() =~= Set::empty());
    } else {
        lemma_map_of_last::<K, V>(s);
        lemma_map_of_finite::<K, V>(s.drop_last());
    }
}

proof fn lemma_update<K: Ordered, V>(s: Seq<(K::Key, V)>, at: int, v: V)
    requires
        ascending::<K, V>(s),
        0 <= at < s.len(),
    ensures
        ascending::<K, V>(s.update(at, (s[at].0, v))),
        map_of(s.update(at, (s[at].0, v))) == map_of(s).insert(s[at].0, v),
{
    let k = s[at].0;
    let t = s.update(at, (k, v));
    assert forall|i: int, j: int| 0 <= i < j < t.len() implies K::precedes(t[i].0, t[j].0) by {
        assert(K::precedes(s[i].0, s[j].0));
    }
    lemma_map_of::<K, V>(t, at);
    lemma_map_of::<K, V>(s, at);
    assert forall|q: K::Key| has_key(t, q) <==> #[trigger] has_key(s, q) by {
        if has_key(t, q) {
            let i = choose|i: int| 0 <= i < t.len() && (#[trigger] t[i]).0 == q;
            assert(s[i].0 == q);
        }
        if has_key(s, q) {
            let i = choose|i: int| 0 <= i < s.len() && (#[trigger] s[i]).0 == q;
            assert(t[i].0 == q);
        }
    }
    assert forall|q: K::Key| has_key(s, q) && q != k implies map_of(t)[q]
        == #[trigger] map_of(s)[q] by {
        let i = choose|i: int| 0 <= i < s.len() && (#[trigger] s[i]).0 == q;
        lemma_map_of::<K, V>(s, i);
        lemma_map_of::<K, V>(t, i);
    }
    assert(map_of(t) =~= map_of(s).insert(k, v));
}

proof fn lemma_insert<K: Ordered, V>(s: Seq<(K::Key, V)>, at: int, k: K::Key, v: V)
    requires
        ascending::<K, V>(s),
        0 <= at <= s.len(),
        forall|i: int| 0 <= i < at ==> K::precedes(#[trigger] s[i].0, k),
        forall|i: int| at <= i < s.len() ==> !K::precedes(#[trigger] s[i].0, k),
        at < s.len() ==> s[at].0 != k,
    ensures
        ascending::<K, V>(s.insert(at, (k, v))),
        map_of(s.insert(at, (k, v))) == map_of(s).insert(k, v),
{
    let t = s.insert(at, (k, v));
    assert forall|i: int| at <= i < s.len() implies K::precedes(k, #[trigger] s[i].0) by {
        K::order_laws(s[at].0, k, k);
        K::order_laws(k, s[at].0, s[i].0);
        if at < i {
            assert(K::precedes(s[at].0, s[i].0));
        }
    }
    assert forall|i: int, j: int| 0 <= i < j < t.len() implies K::precedes(t[i].0, t[j].0) by {
        let x = if i < at { i } else { i - 1 };
        let y = if j < at { j } else { j - 1 };
        if i != at && j != at {
            assert(K::precedes(s[x].0, s[y].0));
        }
    }
    lemma_map_of::<K, V>(t, at);
    assert forall|q: K::Key| q != k implies (has_key(t, q) <==> #[trigger] has_key(s, q)) by {
        if has_key(t, q) {
            let i = choose|i: int| 0 <= i < t.len() && (#[trigger] t[i]).0 == q;
            assert(s[if i < at { i } else { i - 1 }].0 == q);
        }
        if has_key(s, q) {
            let i = choose|i: int| 0 <= i < s.len() && (#[trigger] s[i]).0 == q;
            assert(t[if i < at { i } else { i + 1 }].0 == q);
        }
    }
    assert forall|q: K::Key| has_key(s, q) && q != k implies map_of(t)[q]
        == #[trigger] map_of(s)[q] by {
        let i = choose|i: int| 0 <= i < s.len() && (#[trigger] s[i]).0 == q;
        lemma_map_of::<K, V>(s, i);
        lemma_map_of::<K, V>(t, if i < at { i } else { i + 1 });
    }
    assert(map_of(t) =~= map_of(s).insert(k, v));
}

/// The sum of `f` over every value of a map.
pub open spec fn total_of<Q, V>(m: Map<Q, V>, f: spec_fn(V) -> int) -> int {
    map_sum(m.map_values(f))
}

/// The sum of `f` over the values of a sequence of entries.
pub open spec fn sum_by<Q, V>(s: Seq<(Q, V)>, f: spec_fn(V) -> int) -> int
    decreases s.len(),
{
    if s.len() == 0 {
        0
    } else {
        sum_by(s.drop_last(), f) + f(s.last().1)
    }
}

/// Adding up the entries one by one gives the sum over the map.
pub proof fn lemma_sum_by<K: Ordered, V>(s: Seq<(K::Key, V)>, f: spec_fn(V) -> int)
    requires
        ascending::<K, V>(s),
    ensures
        total_of(map_of(s), f) == sum_by(s, f),
    decreases s.len(),
{
    lemma_map_of_finite::<K, V>(s);
    if s.len() == 0 {
        assert(map_of(s).map_values(f).dom() =~= Set::empty());
    } else {
        let t = s.drop_last();
        lemma_map_of_last::<K, V>(s);
        lemma_map_of_finite::<K, V>(t);
        lemma_sum_by::<K, V>(t, f);
        let m = map_of(t).map_values(f);
        assert(map_of(s).map_values(f) =~= m.insert(s.last().0, f(s.last().1)));
        assert(m.dom() =~= map_of(t).dom());
        map_sum_after_insert(m, s.last().0, f(s.last().1));
    }
}

/// A sum of natural numbers is never less than part of it.
pub proof fn lemma_sum_of_prefix<Q, V>(s: Seq<(Q, V)>, f: spec_fn(V) -> int, n: int)
    requires
        forall|v: V| #[trigger] f(v) >= 0,
        0 <= n <= s.len(),
    ensures
        0 <= sum_by(s.take(n), f) <= sum_by(s, f),
    decreases s.len(),
{
    if n == s.len() {
        assert(s.take(n) =~= s);
        if n > 0 {
            lemma_sum_of_prefix(s.drop_last(), f, n - 1);
        }
    } else {
        lemma_sum_of_prefix(s.drop_last(), f, n);
        assert(s.drop_last().take(n) =~= s.take(n));
    }
}

/// A key that maps to zero adds nothing: maps that agree but for such keys have
/// the same sum.
pub proof fn map_sums_agree<Q>(a: Map<Q, int>, b: Map<Q, int>)
    requires
        a.dom().finite(),
        b.dom().finite(),
        forall|k: Q| #[trigger] value_or(a, k, 0) == value_or(b, k, 0),
    ensures
        map_sum(a) == map_sum(b),
    decreases a.dom().len() + b.dom().len(),
{
    if !a.dom().is_empty() {
        let k = a.dom().choose();
        map_sum_splits(a, k);
        let less = a.remove(k);
        if b.dom().contains(k) {
            map_sum_splits(b, k);
            assert(value_or(a, k, 0) == value_or(b, k, 0));
            assert forall|q: Q| #[trigger] value_or(less, q, 0) == value_or(b.remove(k), q, 0) by {
                assert(value_or(a, q, 0) == value_or(b, q, 0));
            }
            map_sums_agree(less, b.remove(k));
        } else {
            assert(value_or(a, k, 0) == value_or(b, k, 0));
            assert forall|q: Q| #[trigger] value_or(less, q, 0) == value_or(b, q, 0) by {
                assert(value_or(a, q, 0) == value_or(b, q, 0));
            }
            map_sums_agree(less, b);
        }
    } else if !b.dom().is_empty() {
        let k = b.dom().choose();
        map_sum_splits(b, k);
        assert(value_or(a, k, 0) == value_or(b, k, 0));
        let less = b.remove(k);
        assert forall|q: Q| #[trigger] value_or(a, q, 0) == value_or(less, q, 0) by {
            assert(value_or(a, q, 0) == value_or(b, q, 0));
        }
        map_sums_agree(a, less);
    }
}

} // verus!
