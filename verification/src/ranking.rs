//! Rankings: sequences put in order, and the leading part of one.

use crate::order::{Ordered, Rank};
use vstd::prelude::*;

verus! {

/// Whether no entry of `s` is preceded by a later one.
pub open spec fn in_order<T: Ordered>(s: Seq<T::Key>) -> bool {
    forall|i: int, j: int| 0 <= i < j < s.len() ==> !T::precedes(s[j], s[i])
}

/// `s` with `x` put behind everything it does not precede.
pub open spec fn placed<T: Ordered>(s: Seq<T::Key>, x: T::Key) -> Seq<T::Key>
    decreases s.len(),
{
    if s.len() == 0 {
        seq![x]
    } else if T::precedes(x, s.last()) {
        placed::<T>(s.drop_last(), x).push(s.last())
    } else {
        s.push(x)
    }
}

/// Everything in `s`, in order.
pub open spec fn ranked<T: Ordered>(s: Seq<T::Key>) -> Seq<T::Key>
    decreases s.len(),
{
    if s.len() == 0 {
        s
    } else {
        placed::<T>(ranked::<T>(s.drop_last()), s.last())
    }
}

/// The first `limit` entries of `s` once it is in order, or all of them if
/// there are fewer.
pub open spec fn leading<T: Ordered>(s: Seq<T::Key>, limit: nat) -> Seq<T::Key> {
    let all = ranked::<T>(s);
    if all.len() <= limit {
        all
    } else {
        all.take(limit as int)
    }
}

pub proof fn placed_keeps_order<T: Ordered>(s: Seq<T::Key>, x: T::Key)
    requires
        in_order::<T>(s),
    ensures
        in_order::<T>(placed::<T>(s, x)),
        placed::<T>(s, x).len() == s.len() + 1,
        placed::<T>(s, x).to_multiset() == s.to_multiset().insert(x),
    decreases s.len(),
{
    broadcast use vstd::seq_lib::group_to_multiset_ensures;
    if s.len() == 0 {
        assert(seq![x] =~= s.push(x));
    } else if T::precedes(x, s.last()) {
        let t = s.drop_last();
        let l = s.last();
        placed_keeps_order::<T>(t, x);
        let p = placed::<T>(t, x);
        assert(s =~= t.push(l));
        assert forall|i: int, j: int| 0 <= i < j < p.push(l).len() implies !T::precedes(
            p.push(l)[j],
            p.push(l)[i],
        ) by {
            if j == p.len() {
                assert(p.to_multiset().count(p[i]) > 0);
                if p[i] == x {
                    T::order_laws(x, l, x);
                } else {
                    assert(t.to_multiset().count(p[i]) > 0);
                    assert(t.contains(p[i]));
                    let k = choose|k: int| 0 <= k < t.len() && t[k] == p[i];
                    assert(!T::precedes(s[s.len() - 1], s[k]));
                }
            }
        }
    } else {
        assert forall|i: int, j: int| 0 <= i < j < s.push(x).len() implies !T::precedes(
            s.push(x)[j],
            s.push(x)[i],
        ) by {
            if j == s.len() && i < s.len() - 1 {
                assert(!T::precedes(s[s.len() - 1], s[i]));
                T::order_laws(x, s[i], s.last());
                T::order_laws(s[i], s.last(), x);
            }
        }
    }
}

/// A ranking is in order and holds exactly what was ranked.
pub proof fn ranked_is_in_order<T: Ordered>(s: Seq<T::Key>)
    ensures
        in_order::<T>(ranked::<T>(s)),
        ranked::<T>(s).len() == s.len(),
        ranked::<T>(s).to_multiset() == s.to_multiset(),
    decreases s.len(),
{
    broadcast use vstd::seq_lib::group_to_multiset_ensures;
    if s.len() > 0 {
        ranked_is_in_order::<T>(s.drop_last());
        placed_keeps_order::<T>(ranked::<T>(s.drop_last()), s.last());
        assert(s =~= s.drop_last().push(s.last()));
    }
}

/// Ranking what is already in order changes nothing.
pub proof fn ranked_of_ordered<T: Ordered>(s: Seq<T::Key>)
    requires
        in_order::<T>(s),
    ensures
        ranked::<T>(s) == s,
    decreases s.len(),
{
    if s.len() > 0 {
        let t = s.drop_last();
        assert forall|i: int, j: int| 0 <= i < j < t.len() implies !T::precedes(t[j], t[i]) by {
            assert(!T::precedes(s[j], s[i]));
        }
        ranked_of_ordered::<T>(t);
        if t.len() > 0 {
            assert(!T::precedes(s[s.len() - 1], s[t.len() - 1]));
        }
        assert(t.push(s.last()) =~= s);
        assert(seq![s.last()] =~= t.push(s.last()) || t.len() > 0);
    }
}

proof fn placed_commutes<T: Ordered>(s: Seq<T::Key>, x: T::Key, y: T::Key)
    ensures
        placed::<T>(placed::<T>(s, x), y) == placed::<T>(placed::<T>(s, y), x),
    decreases s.len(),
{
    T::order_laws(x, y, x);
    if s.len() == 0 {
        assert(seq![x].drop_last() =~= Seq::<T::Key>::empty());
        assert(seq![y].drop_last() =~= Seq::<T::Key>::empty());
        assert(seq![x].push(y) =~= seq![x, y]);
        assert(seq![y].push(x) =~= seq![y, x]);
        assert(placed::<T>(Seq::<T::Key>::empty(), x) =~= seq![x]);
        assert(placed::<T>(Seq::<T::Key>::empty(), y) =~= seq![y]);
    } else {
        let t = s.drop_last();
        let l = s.last();
        T::order_laws(x, y, l);
        T::order_laws(y, x, l);
        T::order_laws(x, l, y);
        T::order_laws(y, l, x);
        placed_commutes::<T>(t, x, y);
        assert(placed::<T>(t, x).push(l).drop_last() =~= placed::<T>(t, x));
        assert(placed::<T>(t, y).push(l).drop_last() =~= placed::<T>(t, y));
        assert(s.push(x).drop_last() =~= s);
        assert(s.push(y).drop_last() =~= s);
    }
}

/// Where in the sequence an entry stood makes no difference to the ranking.
proof fn ranked_of_inserted<T: Ordered>(s: Seq<T::Key>, at: int, x: T::Key)
    requires
        0 <= at <= s.len(),
    ensures
        ranked::<T>(s.insert(at, x)) == placed::<T>(ranked::<T>(s), x),
    decreases s.len(),
{
    let t = s.insert(at, x);
    if at == s.len() {
        assert(t.drop_last() =~= s);
    } else {
        ranked_of_inserted::<T>(s.drop_last(), at, x);
        assert(t.drop_last() =~= s.drop_last().insert(at, x));
        assert(t.last() == s.last());
        placed_commutes::<T>(ranked::<T>(s.drop_last()), x, s.last());
    }
}

/// The ranking depends only on what is ranked, not on the order it arrived in.
pub proof fn ranked_ignores_arrival<T: Ordered>(a: Seq<T::Key>, b: Seq<T::Key>)
    requires
        a.to_multiset() == b.to_multiset(),
    ensures
        ranked::<T>(a) == ranked::<T>(b),
    decreases a.len(),
{
    broadcast use vstd::seq_lib::group_to_multiset_ensures;
    assert(a.len() == a.to_multiset().len());
    assert(b.len() == b.to_multiset().len());
    if a.len() == 0 {
        assert(a =~= b);
    } else {
        let x = a.last();
        let c = a.drop_last();
        assert(a =~= c.push(x));
        assert(a.to_multiset().count(x) > 0);
        assert(b.contains(x));
        let at = choose|i: int| 0 <= i < b.len() && b[i] == x;
        let d = b.remove(at);
        assert(b =~= d.insert(at, x));
        assert(d.to_multiset() =~= b.to_multiset().remove(x));
        assert(c.to_multiset() =~= a.to_multiset().remove(x));
        ranked_ignores_arrival::<T>(c, d);
        ranked_of_inserted::<T>(d, at, x);
    }
}

/// An entry placed in a ranking changes its leading part only through the
/// leading part itself.
proof fn placed_leading<T: Ordered>(s: Seq<T::Key>, x: T::Key, limit: int)
    requires
        in_order::<T>(s),
        0 <= limit < s.len(),
    ensures
        placed::<T>(s, x).take(limit) == placed::<T>(s.take(limit), x).take(limit),
    decreases s.len(),
{
    let t = s.drop_last();
    placed_keeps_order::<T>(s, x);
    assert forall|i: int, j: int| 0 <= i < j < t.len() implies !T::precedes(t[j], t[i]) by {
        assert(!T::precedes(s[j], s[i]));
    }
    placed_keeps_order::<T>(t, x);
    if T::precedes(x, s.last()) {
        assert(placed::<T>(s, x).take(limit) =~= placed::<T>(t, x).take(limit));
        if limit < t.len() {
            placed_leading::<T>(t, x, limit);
            assert(t.take(limit) =~= s.take(limit));
        } else {
            assert(s.take(limit) =~= t);
        }
    } else {
        let p = s.take(limit);
        assert(s.push(x).take(limit) =~= p);
        if limit > 0 {
            assert(!T::precedes(s[s.len() - 1], s[limit - 1]));
            T::order_laws(x, s[limit - 1], s.last());
            T::order_laws(s[limit - 1], s.last(), x);
            assert(p.last() == s[limit - 1]);
            assert(p.push(x).take(limit) =~= p);
        } else {
            assert(placed::<T>(p, x).take(0) =~= p);
        }
    }
}

/// Entries that have dropped out of the leading part never come back.
pub proof fn leading_of_leading<T: Ordered>(a: Seq<T::Key>, b: Seq<T::Key>, limit: nat)
    ensures
        leading::<T>(leading::<T>(a, limit) + b, limit) == leading::<T>(a + b, limit),
    decreases b.len(),
{
    ranked_is_in_order::<T>(a);
    let l = leading::<T>(a, limit);
    if b.len() == 0 {
        assert(l + b =~= l);
        assert(a + b =~= a);
        assert forall|i: int, j: int| 0 <= i < j < l.len() implies !T::precedes(l[j], l[i]) by {
            assert(!T::precedes(ranked::<T>(a)[j], ranked::<T>(a)[i]));
        }
        ranked_of_ordered::<T>(l);
    } else {
        let c = b.drop_last();
        let x = b.last();
        leading_of_leading::<T>(a, c, limit);
        assert((l + b).drop_last() =~= l + c);
        assert((a + b).drop_last() =~= a + c);
        ranked_is_in_order::<T>(l + c);
        ranked_is_in_order::<T>(a + c);
        let u = ranked::<T>(l + c);
        let v = ranked::<T>(a + c);
        placed_keeps_order::<T>(u, x);
        placed_keeps_order::<T>(v, x);
        assert(ranked::<T>(l + b) == placed::<T>(u, x));
        assert(ranked::<T>(a + b) == placed::<T>(v, x));
        if u.len() > limit {
            placed_leading::<T>(u, x, limit as int);
        }
        if v.len() > limit {
            placed_leading::<T>(v, x, limit as int);
        }
        assert(l.len() <= a.len());
        assert(u.take(u.len() as int) =~= u);
        assert(v.take(v.len() as int) =~= v);
    }
}

/// The keys of a sequence of values.
pub open spec fn keys<T: Ordered>(s: Seq<T>) -> Seq<T::Key> {
    Seq::new(s.len(), |i: int| s[i].key())
}

/// Sequences holding the same values hold the same keys.
proof fn keys_of_same_values<T: Ordered>(a: Seq<T>, b: Seq<T>)
    requires
        a.to_multiset() == b.to_multiset(),
    ensures
        keys(a).to_multiset() == keys(b).to_multiset(),
    decreases a.len(),
{
    broadcast use vstd::seq_lib::group_to_multiset_ensures;
    assert(a.len() == a.to_multiset().len());
    assert(b.len() == b.to_multiset().len());
    if a.len() == 0 {
        assert(a =~= b);
    } else {
        let x = a.last();
        let c = a.drop_last();
        assert(a =~= c.push(x));
        assert(a.to_multiset().count(x) > 0);
        assert(b.contains(x));
        let at = choose|i: int| 0 <= i < b.len() && b[i] == x;
        let d = b.remove(at);
        assert(d.to_multiset() =~= b.to_multiset().remove(x));
        assert(c.to_multiset() =~= a.to_multiset().remove(x));
        keys_of_same_values(c, d);
        assert(keys(a) =~= keys(c).push(x.key()));
        assert(keys(d) =~= keys(b).remove(at));
        assert(keys(d).to_multiset() =~= keys(b).to_multiset().remove(x.key()));
        assert(keys(b).to_multiset().count(x.key()) > 0) by {
            assert(keys(b)[at] == x.key());
            assert(keys(b).contains(x.key()));
        }
        assert(keys(a).to_multiset() =~= keys(b).to_multiset());
    }
}

/// Put `item` where it belongs in a list that is in order.
pub fn insert_in_order<T: Ordered>(list: &mut Vec<T>, item: T)
    requires
        in_order::<T>(keys(old(list)@)),
    ensures
        keys(final(list)@) == placed::<T>(keys(old(list)@), item.key()),
        in_order::<T>(keys(final(list)@)),
        exists|at: int|
            0 <= at <= old(list)@.len() && final(list)@ == #[trigger] old(list)@.insert(at, item),
{
    let ghost before = keys(list@);
    let ghost x = item.key();
    let mut at: usize = list.len();
    let mut looking: bool = true;
    assert(before.take(at as int) =~= before);
    assert(before.skip(at as int) =~= Seq::empty());
    assert(placed::<T>(before, x) + before.skip(at as int) =~= placed::<T>(before, x));
    while looking
        invariant
            before == keys(list@),
            x == item.key(),
            at <= list@.len(),
            placed::<T>(before, x) == placed::<T>(before.take(at as int), x) + before.skip(at as int),
            !looking ==> placed::<T>(before.take(at as int), x) == before.take(at as int).push(x),
        decreases at, looking as int,
    {
        if at == 0 {
            looking = false;
            assert(before.take(0).push(x) =~= seq![x]);
        } else {
            let ghost p = before.take(at as int);
            assert(p.last() == before[at - 1]);
            match item.rank(&list[at - 1]) {
                Rank::First => {
                    assert(p.drop_last() =~= before.take(at - 1));
                    assert(before.skip(at - 1) =~= seq![p.last()] + before.skip(at as int));
                    at = at - 1;
                    assert(placed::<T>(before, x) =~= placed::<T>(before.take(at as int), x)
                        + before.skip(at as int));
                },
                _ => {
                    looking = false;
                    proof {
                        T::order_laws(x, p.last(), x);
                    }
                },
            }
        }
    }
    proof {
        placed_keeps_order::<T>(before, x);
    }
    let ghost whole = list@;
    list.insert(at, item);
    assert(keys(list@) =~= before.take(at as int).push(x) + before.skip(at as int));
    assert(list@ == whole.insert(at as int, item));
}

/// Merge two lists that are in order into one.
fn merge<T: Ordered + Copy>(a: &Vec<T>, b: &Vec<T>) -> (r: Vec<T>)
    requires
        in_order::<T>(keys(a@)),
        in_order::<T>(keys(b@)),
    ensures
        in_order::<T>(keys(r@)),
        r@.to_multiset() == a@.to_multiset().add(b@.to_multiset()),
{
    broadcast use vstd::seq_lib::group_to_multiset_ensures;
    let mut out: Vec<T> = Vec::new();
    let mut i: usize = 0;
    let mut j: usize = 0;
    assert(a@.take(0) =~= Seq::<T>::empty());
    assert(b@.take(0) =~= Seq::<T>::empty());
    assert(Seq::<T>::empty().to_multiset() =~= Seq::<T>::empty().to_multiset().add(
        Seq::<T>::empty().to_multiset(),
    ));
    while i < a.len() || j < b.len()
        invariant
            in_order::<T>(keys(a@)),
            in_order::<T>(keys(b@)),
            0 <= i <= a@.len(),
            0 <= j <= b@.len(),
            out@.len() == i + j,
            in_order::<T>(keys(out@)),
            out@.to_multiset() == a@.take(i as int).to_multiset().add(
                b@.take(j as int).to_multiset(),
            ),
            forall|p: int, q: int|
                0 <= p < out@.len() && i <= q < a@.len() ==> !T::precedes(
                    #[trigger] a@[q].key(),
                    #[trigger] out@[p].key(),
                ),
            forall|p: int, q: int|
                0 <= p < out@.len() && j <= q < b@.len() ==> !T::precedes(
                    #[trigger] b@[q].key(),
                    #[trigger] out@[p].key(),
                ),
        decreases a.len() - i + b.len() - j,
    {
        broadcast use vstd::seq_lib::group_to_multiset_ensures;
        let from_a: bool = if j >= b.len() {
            true
        } else if i >= a.len() {
            false
        } else {
            match b[j].rank(&a[i]) {
                Rank::First => false,
                _ => true,
            }
        };
        let ghost before = out@;
        if from_a {
            let x: T = a[i];
            proof {
                assert(a@.take(i + 1) =~= a@.take(i as int).push(x));
                assert(before.push(x).to_multiset() =~= a@.take(i + 1).to_multiset().add(
                    b@.take(j as int).to_multiset(),
                ));
                assert forall|q: int| i < q < a@.len() implies !T::precedes(
                    #[trigger] a@[q].key(),
                    x.key(),
                ) by {
                    assert(!T::precedes(keys(a@)[q], keys(a@)[i as int]));
                }
                assert forall|q: int| j <= q < b@.len() implies !T::precedes(
                    #[trigger] b@[q].key(),
                    x.key(),
                ) by {
                    if j < q {
                        assert(!T::precedes(keys(b@)[q], keys(b@)[j as int]));
                    }
                    T::order_laws(b@[q].key(), x.key(), b@[j as int].key());
                    T::order_laws(x.key(), b@[j as int].key(), b@[q].key());
                }
            }
            out.push(x);
            i = i + 1;
        } else {
            let x: T = b[j];
            proof {
                assert(b@.take(j + 1) =~= b@.take(j as int).push(x));
                assert(before.push(x).to_multiset() =~= a@.take(i as int).to_multiset().add(
                    b@.take(j + 1).to_multiset(),
                ));
                assert forall|q: int| j < q < b@.len() implies !T::precedes(
                    #[trigger] b@[q].key(),
                    x.key(),
                ) by {
                    assert(!T::precedes(keys(b@)[q], keys(b@)[j as int]));
                }
                assert forall|q: int| i <= q < a@.len() implies !T::precedes(
                    #[trigger] a@[q].key(),
                    x.key(),
                ) by {
                    if i < q {
                        assert(!T::precedes(keys(a@)[q], keys(a@)[i as int]));
                    }
                    T::order_laws(a@[q].key(), x.key(), a@[i as int].key());
                    T::order_laws(x.key(), a@[i as int].key(), a@[q].key());
                }
            }
            out.push(x);
            j = j + 1;
        }
        proof {
            assert forall|p: int, q: int| 0 <= p < q < out@.len() implies !T::precedes(
                keys(out@)[q],
                keys(out@)[p],
            ) by {
                assert(keys(out@)[p] == before[p].key());
                if q < before.len() {
                    assert(!T::precedes(keys(before)[q], keys(before)[p]));
                }
            }
        }
    }
    assert(a@.take(i as int) =~= a@);
    assert(b@.take(j as int) =~= b@);
    out
}

fn sort_range<T: Ordered + Copy>(items: &Vec<T>, from: usize, to: usize) -> (r: Vec<T>)
    requires
        from <= to <= items@.len(),
    ensures
        in_order::<T>(keys(r@)),
        r@.to_multiset() == items@.subrange(from as int, to as int).to_multiset(),
    decreases to - from,
{
    if to - from <= 1 {
        let mut r: Vec<T> = Vec::new();
        if from < to {
            r.push(items[from]);
        }
        assert(r@ =~= items@.subrange(from as int, to as int));
        r
    } else {
        let middle: usize = from + (to - from) / 2;
        let a: Vec<T> = sort_range(items, from, middle);
        let b: Vec<T> = sort_range(items, middle, to);
        proof {
            let x = items@.subrange(from as int, middle as int);
            let y = items@.subrange(middle as int, to as int);
            assert(x + y =~= items@.subrange(from as int, to as int));
            vstd::seq_lib::lemma_multiset_commutative(x, y);
        }
        merge(&a, &b)
    }
}

/// Everything in `items`, in order.
pub fn sort<T: Ordered + Copy>(items: &Vec<T>) -> (r: Vec<T>)
    ensures
        keys(r@) == ranked::<T>(keys(items@)),
        r@.to_multiset() == items@.to_multiset(),
{
    let r: Vec<T> = sort_range(items, 0, items.len());
    proof {
        assert(items@.subrange(0, items@.len() as int) =~= items@);
        keys_of_same_values(r@, items@);
        ranked_of_ordered::<T>(keys(r@));
        ranked_ignores_arrival::<T>(keys(r@), keys(items@));
    }
    r
}

/// Where no two keys are equal, sorting leaves no choice: every item comes
/// strictly ahead of those behind it, and the same items are there as before.
pub proof fn sorted_without_ties<T: Ordered>(items: Seq<T>, sorted: Seq<T>)
    requires
        keys(sorted) == ranked::<T>(keys(items)),
        sorted.to_multiset() == items.to_multiset(),
        keys(items).no_duplicates(),
    ensures
        sorted.len() == items.len(),
        forall|i: int, j: int|
            0 <= i < j < sorted.len() ==> T::precedes(
                (#[trigger] sorted[i]).key(),
                (#[trigger] sorted[j]).key(),
            ),
        forall|i: int| 0 <= i < sorted.len() ==> items.contains(#[trigger] sorted[i]),
        forall|i: int| 0 <= i < items.len() ==> sorted.contains(#[trigger] items[i]),
{
    broadcast use vstd::seq_lib::group_to_multiset_ensures;
    let before = keys(items);
    let after = keys(sorted);
    ranked_is_in_order::<T>(before);
    before.lemma_multiset_has_no_duplicates();
    after.lemma_multiset_has_no_duplicates_conv();
    assert(sorted.len() == after.len());
    assert forall|i: int, j: int| 0 <= i < j < sorted.len() implies T::precedes(
        (#[trigger] sorted[i]).key(),
        (#[trigger] sorted[j]).key(),
    ) by {
        assert(!T::precedes(after[j], after[i]));
        assert(after[i] != after[j]);
        T::order_laws(after[i], after[j], after[i]);
    }
    assert forall|i: int| 0 <= i < sorted.len() implies items.contains(#[trigger] sorted[i]) by {
        assert(sorted.to_multiset().count(sorted[i]) > 0);
    }
    assert forall|i: int| 0 <= i < items.len() implies sorted.contains(#[trigger] items[i]) by {
        assert(items.to_multiset().count(items[i]) > 0);
    }
}

/// Whether each key comes strictly ahead of those behind it.
pub open spec fn strictly_ordered<T: Ordered>(s: Seq<T::Key>) -> bool {
    forall|i: int, j: int| 0 <= i < j < s.len() ==> T::precedes(#[trigger] s[i], #[trigger] s[j])
}

/// There is only one way to list the same keys in strict order.
pub proof fn one_way_to_list<T: Ordered>(s: Seq<T::Key>, t: Seq<T::Key>)
    requires
        strictly_ordered::<T>(s),
        strictly_ordered::<T>(t),
        forall|i: int| 0 <= i < s.len() ==> t.contains(#[trigger] s[i]),
        forall|i: int| 0 <= i < t.len() ==> s.contains(#[trigger] t[i]),
    ensures
        s == t,
    decreases s.len(),
{
    if s.len() == 0 {
        if t.len() > 0 {
            assert(s.contains(t[0]));
        }
        assert(s =~= t);
    } else {
        let m = s.len() - 1;
        assert(t.contains(s[m]));
        let j = choose|j: int| 0 <= j < t.len() && t[j] == s[m];
        let n = t.len() - 1;
        assert(s.contains(t[n]));
        let i = choose|i: int| 0 <= i < s.len() && s[i] == t[n];
        if j < n {
            assert(T::precedes(t[j], t[n]));
            T::order_laws(s[m], t[n], s[m]);
            if i < m {
                assert(T::precedes(s[i], s[m]));
                T::order_laws(s[i], s[m], s[i]);
            }
            T::order_laws(s[m], s[m], s[m]);
        }
        assert(s[m] == t[n]);
        let front = s.drop_last();
        let rest = t.drop_last();
        assert forall|k: int| 0 <= k < front.len() implies rest.contains(#[trigger] front[k]) by {
            assert(t.contains(s[k]));
            let q = choose|q: int| 0 <= q < t.len() && t[q] == s[k];
            if q == n {
                assert(T::precedes(s[k], s[m]));
                T::order_laws(s[m], s[m], s[m]);
            }
            assert(rest[q] == front[k]);
        }
        assert forall|k: int| 0 <= k < rest.len() implies front.contains(#[trigger] rest[k]) by {
            assert(s.contains(t[k]));
            let q = choose|q: int| 0 <= q < s.len() && s[q] == t[k];
            if q == m {
                assert(T::precedes(t[k], t[n]));
                T::order_laws(t[n], t[n], t[n]);
            }
            assert(front[q] == rest[k]);
        }
        assert(strictly_ordered::<T>(front)) by {
            assert forall|a: int, b: int| 0 <= a < b < front.len() implies T::precedes(
                #[trigger] front[a],
                #[trigger] front[b],
            ) by {
                assert(T::precedes(s[a], s[b]));
            }
        }
        assert(strictly_ordered::<T>(rest)) by {
            assert forall|a: int, b: int| 0 <= a < b < rest.len() implies T::precedes(
                #[trigger] rest[a],
                #[trigger] rest[b],
            ) by {
                assert(T::precedes(t[a], t[b]));
            }
        }
        one_way_to_list::<T>(front, rest);
        assert(s =~= front.push(s[m]));
        assert(t =~= rest.push(t[n]));
    }
}

} // verus!
