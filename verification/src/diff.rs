//! Comparing two scans.
//!
//! Takes the totals that earlier runs wrote rather than rescanning, so two
//! snapshots taken days apart can be compared long after the fact.

use crate::order::{rank_text, text_order_laws, text_precedes, Ordered, Rank};
use crate::partial::tallies;
use crate::ranking::{keys, one_way_to_list, sort, sorted_without_ties};
use crate::sorted_map::{
    lemma_map_of, map_sum_after_insert, map_sums_agree, value_or, SortedMap,
};
use crate::tally::{Bucket, Tally};
use crate::totals::{byte_counts, counts, grand_total, sum_bytes, sum_counts};
use vstd::prelude::*;
use vstd::string::*;

verus! {

/// `n` brought into the range of a signed 64-bit number by going round.
pub open spec fn signed_wrap(n: int) -> int {
    let m = n % 0x1_0000_0000_0000_0000;
    if m < 0x8000_0000_0000_0000 {
        m
    } else {
        m - 0x1_0000_0000_0000_0000
    }
}

/// A change that fits a signed number is reported as it is.
pub proof fn changes_in_range_are_exact(before: u64, after: u64)
    ensures
        i64::MIN <= signed_wrap(after - before) <= i64::MAX,
        i64::MIN <= after - before <= i64::MAX ==> signed_wrap(after - before) == after - before,
{
}

fn delta(before: u64, after: u64) -> (r: i64)
    ensures
        r == signed_wrap(after - before),
{
    let d: u64 = after.wrapping_sub(before);
    if d < 0x8000_0000_0000_0000 {
        d as i64
    } else {
        -((u64::MAX - d) as i64) - 1
    }
}

/// How one extension changed between two scans.
#[derive(Debug, Clone, PartialEq, Eq)]
pub struct DiffRow {
    pub extension: String,
    pub before: Bucket,
    pub after: Bucket,
}

impl DiffRow {
    pub fn count_delta(&self) -> (r: i64)
        ensures
            r == signed_wrap(self.after.count - self.before.count),
    {
        delta(self.before.count, self.after.count)
    }

    pub fn bytes_delta(&self) -> (r: i64)
        ensures
            r == signed_wrap(self.after.bytes - self.before.bytes),
    {
        delta(self.before.bytes, self.after.bytes)
    }

    /// True when the extension is absent from the earlier scan.
    pub fn is_new(&self) -> (r: bool)
        ensures
            r == (self.before.count == 0 && self.after.count > 0),
    {
        self.before.count == 0 && self.after.count > 0
    }

    /// True when the extension is absent from the later scan.
    pub fn is_gone(&self) -> (r: bool)
        ensures
            r == (self.after.count == 0 && self.before.count > 0),
    {
        self.after.count == 0 && self.before.count > 0
    }

    /// The extension, marked if only one of the two scans has it.
    pub open spec fn label_text(&self) -> Seq<char> {
        if self.before.count == 0 && self.after.count > 0 {
            self.extension@ + " (new)"@
        } else if self.after.count == 0 && self.before.count > 0 {
            self.extension@ + " (gone)"@
        } else {
            self.extension@
        }
    }

    /// The extension, marked if only one of the two scans has it.
    pub fn label(&self) -> (r: String)
        ensures
            r@ == self.label_text(),
    {
        if self.is_new() {
            self.extension.clone().concat(" (new)")
        } else if self.is_gone() {
            self.extension.clone().concat(" (gone)")
        } else {
            self.extension.clone()
        }
    }
}

/// The result of comparing two scans.
#[derive(Debug, Clone, PartialEq, Eq)]
pub struct Diff {
    /// Only extensions that changed, ordered by the size of the capacity
    /// change so the biggest movers come first.
    pub rows: Vec<DiffRow>,
    pub before_total: Bucket,
    pub after_total: Bucket,
}

impl Default for Diff {
    fn default() -> (r: Diff)
        ensures
            r.rows@.len() == 0,
            r.before_total@ == Tally::zero(),
            r.after_total@ == Tally::zero(),
    {
        Diff { rows: Vec::new(), before_total: Bucket::default(), after_total: Bucket::default() }
    }
}

impl Diff {
    pub fn count_delta(&self) -> (r: i64)
        ensures
            r == signed_wrap(self.after_total.count - self.before_total.count),
    {
        delta(self.before_total.count, self.after_total.count)
    }

    pub fn bytes_delta(&self) -> (r: i64)
        ensures
            r == signed_wrap(self.after_total.bytes - self.before_total.bytes),
    {
        delta(self.before_total.bytes, self.after_total.bytes)
    }
}

/// How far capacity moved, in either direction.
pub open spec fn movement(before: Bucket, after: Bucket) -> int {
    if after.bytes >= before.bytes {
        after.bytes - before.bytes
    } else {
        before.bytes - after.bytes
    }
}

/// Biggest capacity movement first, in either direction; ties by name so that
/// repeated comparisons produce identical output.
pub open spec fn change_precedes(a: (Seq<char>, int), b: (Seq<char>, int)) -> bool {
    a.1 > b.1 || (a.1 == b.1 && text_precedes(a.0, b.0))
}

/// A bucket with nothing in it, which stands for an extension that is absent.
pub open spec fn empty_bucket() -> Bucket {
    Bucket { count: 0, bytes: 0 }
}

/// What a scan holds for an extension.
pub open spec fn bucket_for(m: Map<Seq<char>, Bucket>, extension: Seq<char>) -> Bucket {
    value_or(m, extension, empty_bucket())
}

impl DiffRow {
    pub open spec fn change_key(&self) -> (Seq<char>, int) {
        (self.extension@, movement(self.before, self.after))
    }
}

/// Whether `rows` lists each extension that changed once, in the order of a
/// report, and no other.
pub open spec fn lists_changes(
    before: Map<Seq<char>, Bucket>,
    after: Map<Seq<char>, Bucket>,
    rows: Seq<DiffRow>,
) -> bool {
    &&& forall|i: int, j: int|
        0 <= i < j < rows.len() ==> change_precedes(
            (#[trigger] rows[i]).change_key(),
            (#[trigger] rows[j]).change_key(),
        )
    &&& forall|i: int|
        0 <= i < rows.len() ==> {
            let row = #[trigger] rows[i];
            &&& row.before == bucket_for(before, row.extension@)
            &&& row.after == bucket_for(after, row.extension@)
            &&& row.before != row.after
        }
    &&& forall|k: Seq<char>|
        #![trigger bucket_for(before, k)]
        #![trigger bucket_for(after, k)]
        bucket_for(before, k) != bucket_for(after, k) ==> exists|i: int|
            0 <= i < rows.len() && (#[trigger] rows[i]).extension@ == k
}

#[derive(Clone, Copy)]
struct ChangeRef<'a> {
    extension: &'a String,
    before: Bucket,
    after: Bucket,
}

impl<'a> ChangeRef<'a> {
    fn movement(&self) -> (r: u64)
        ensures
            r == movement(self.before, self.after),
    {
        if self.after.bytes >= self.before.bytes {
            self.after.bytes - self.before.bytes
        } else {
            self.before.bytes - self.after.bytes
        }
    }
}

impl<'a> Ordered for ChangeRef<'a> {
    type Key = (Seq<char>, int);

    closed spec fn key(&self) -> (Seq<char>, int) {
        (self.extension@, movement(self.before, self.after))
    }

    closed spec fn precedes(a: (Seq<char>, int), b: (Seq<char>, int)) -> bool {
        change_precedes(a, b)
    }

    proof fn order_laws(a: (Seq<char>, int), b: (Seq<char>, int), c: (Seq<char>, int)) {
        text_order_laws(a.0, b.0, c.0);
    }

    fn rank(&self, other: &Self) -> (r: Rank) {
        proof {
            text_order_laws(self.extension@, other.extension@, self.extension@);
        }
        let mine: u64 = self.movement();
        let theirs: u64 = other.movement();
        if mine > theirs {
            Rank::First
        } else if mine < theirs {
            Rank::Second
        } else {
            rank_text(self.extension.as_str(), other.extension.as_str())
        }
    }
}

/// Whether `k` is among the changes found.
spec fn listed(found: Seq<ChangeRef>, k: Seq<char>) -> bool {
    exists|j: int| 0 <= j < found.len() && (#[trigger] found[j]).extension@ == k
}

proof fn listed_after_push(found: Seq<ChangeRef>, more: ChangeRef, k: Seq<char>)
    ensures
        listed(found.push(more), k) <==> listed(found, k) || more.extension@ == k,
{
    let longer = found.push(more);
    if listed(found, k) {
        let j = choose|j: int| 0 <= j < found.len() && (#[trigger] found[j]).extension@ == k;
        assert(longer[j].extension@ == k);
    }
    if more.extension@ == k {
        assert(longer[found.len() as int].extension@ == k);
    }
    if listed(longer, k) {
        let j = choose|j: int| 0 <= j < longer.len() && (#[trigger] longer[j]).extension@ == k;
        if j < found.len() {
            assert(found[j].extension@ == k);
        }
    }
}

/// Whether every change found is one, and none was found twice.
spec fn are_changes(
    before: Map<Seq<char>, Bucket>,
    after: Map<Seq<char>, Bucket>,
    found: Seq<ChangeRef>,
) -> bool {
    &&& forall|j: int|
        0 <= j < found.len() ==> {
            let change = #[trigger] found[j];
            &&& change.before == bucket_for(before, change.extension@)
            &&& change.after == bucket_for(after, change.extension@)
            &&& change.before != change.after
        }
    &&& forall|a: int, b: int|
        0 <= a < b < found.len() ==> (#[trigger] found[a]).extension@ != (
        #[trigger] found[b]).extension@
}

proof fn are_changes_after_push(
    before: Map<Seq<char>, Bucket>,
    after: Map<Seq<char>, Bucket>,
    found: Seq<ChangeRef>,
    more: ChangeRef,
)
    requires
        are_changes(before, after, found),
        !listed(found, more.extension@),
        more.before == bucket_for(before, more.extension@),
        more.after == bucket_for(after, more.extension@),
        more.before != more.after,
    ensures
        are_changes(before, after, found.push(more)),
{
    let longer = found.push(more);
    assert forall|a: int, b: int| 0 <= a < b < longer.len() implies (
    #[trigger] longer[a]).extension@ != (#[trigger] longer[b]).extension@ by {
        assert(longer[a] == found[a]);
        if b < found.len() {
            assert(longer[b] == found[b]);
        }
    }
}

/// What changed, in no particular order.
fn changes_between<'a>(
    before: &'a SortedMap<String, Bucket>,
    after: &'a SortedMap<String, Bucket>,
) -> (r: Vec<ChangeRef<'a>>)
    requires
        before.well_formed(),
        after.well_formed(),
    ensures
        are_changes(before.map(), after.map(), r@),
        forall|k: Seq<char>|
            bucket_for(before.map(), k) != bucket_for(after.map(), k) ==> #[trigger] listed(r@, k),
{
    let ghost b = before.map();
    let ghost a = after.map();
    let ghost old_pairs = before.pairs();
    let ghost new_pairs = after.pairs();
    let mut found: Vec<ChangeRef<'a>> = Vec::new();
    let mut i: usize = 0;
    while i < before.len()
        invariant
            before.well_formed(),
            after.well_formed(),
            b == before.map(),
            a == after.map(),
            old_pairs == before.pairs(),
            i <= old_pairs.len(),
            are_changes(b, a, found@),
            forall|k: Seq<char>| #[trigger]
                listed(found@, k) ==> exists|q: int| 0 <= q < i && (#[trigger] old_pairs[q]).0 == k,
            forall|q: int|
                0 <= q < i && bucket_for(b, (#[trigger] old_pairs[q]).0) != bucket_for(
                    a,
                    old_pairs[q].0,
                ) ==> listed(found@, old_pairs[q].0),
        decreases old_pairs.len() - i,
    {
        let extension: &String = before.key_at(i);
        let was: Bucket = before.value_at(i);
        let is: Bucket = match after.get(extension) {
            Some(bucket) => bucket,
            None => Bucket::default(),
        };
        let ghost k = old_pairs[i as int].0;
        proof {
            assert(extension.key() == extension@);
            lemma_map_of::<String, Bucket>(old_pairs, i as int);
            if listed(found@, k) {
                let q = choose|q: int| 0 <= q < i && (#[trigger] old_pairs[q]).0 == k;
                assert(String::precedes(old_pairs[q].0, old_pairs[i as int].0));
                text_order_laws(k, k, k);
            }
        }
        if was != is {
            let change: ChangeRef<'a> = ChangeRef { extension, before: was, after: is };
            let ghost so_far = found@;
            found.push(change);
            proof {
                are_changes_after_push(b, a, so_far, change);
                assert forall|k: Seq<char>| #[trigger] listed(found@, k) implies exists|q: int|
                    0 <= q < i + 1 && (#[trigger] old_pairs[q]).0 == k by {
                    listed_after_push(so_far, change, k);
                    if listed(so_far, k) {
                        let q = choose|q: int| 0 <= q < i && (#[trigger] old_pairs[q]).0 == k;
                        assert(old_pairs[q].0 == k);
                    } else {
                        assert(old_pairs[i as int].0 == k);
                    }
                }
                assert forall|q: int|
                    0 <= q < i + 1 && bucket_for(b, (#[trigger] old_pairs[q]).0) != bucket_for(
                        a,
                        old_pairs[q].0,
                    ) implies listed(found@, old_pairs[q].0) by {
                    listed_after_push(so_far, change, old_pairs[q].0);
                }
            }
        } else {
            proof {
                assert forall|k: Seq<char>| #[trigger] listed(found@, k) implies exists|q: int|
                    0 <= q < i + 1 && (#[trigger] old_pairs[q]).0 == k by {
                    let q = choose|q: int| 0 <= q < i && (#[trigger] old_pairs[q]).0 == k;
                    assert(old_pairs[q].0 == k);
                }
            }
        }
        i = i + 1;
    }
    assert forall|k: Seq<char>| #[trigger] listed(found@, k) implies b.dom().contains(k) by {}
    assert forall|k: Seq<char>|
        b.dom().contains(k) && bucket_for(b, k) != bucket_for(a, k) implies #[trigger] listed(
        found@,
        k,
    ) by {
        let q = choose|q: int| 0 <= q < old_pairs.len() && (#[trigger] old_pairs[q]).0 == k;
        assert(listed(found@, old_pairs[q].0));
    }
    let mut i: usize = 0;
    while i < after.len()
        invariant
            before.well_formed(),
            after.well_formed(),
            b == before.map(),
            a == after.map(),
            new_pairs == after.pairs(),
            i <= new_pairs.len(),
            are_changes(b, a, found@),
            forall|k: Seq<char>| #[trigger]
                listed(found@, k) ==> b.dom().contains(k) || exists|q: int|
                    0 <= q < i && (#[trigger] new_pairs[q]).0 == k,
            forall|k: Seq<char>|
                b.dom().contains(k) && bucket_for(b, k) != bucket_for(a, k) ==> #[trigger] listed(
                    found@,
                    k,
                ),
            forall|q: int|
                0 <= q < i && bucket_for(b, (#[trigger] new_pairs[q]).0) != bucket_for(
                    a,
                    new_pairs[q].0,
                ) ==> listed(found@, new_pairs[q].0),
        decreases new_pairs.len() - i,
    {
        let extension: &String = after.key_at(i);
        let is: Bucket = after.value_at(i);
        let ghost k = new_pairs[i as int].0;
        let ghost so_far = found@;
        proof {
            assert(extension.key() == extension@);
            lemma_map_of::<String, Bucket>(new_pairs, i as int);
            if listed(found@, k) && !b.dom().contains(k) {
                let q = choose|q: int| 0 <= q < i && (#[trigger] new_pairs[q]).0 == k;
                assert(String::precedes(new_pairs[q].0, new_pairs[i as int].0));
                text_order_laws(k, k, k);
            }
        }
        let absent: bool = match before.get(extension) {
            Some(_) => false,
            None => true,
        };
        let was: Bucket = Bucket::default();
        let change: ChangeRef<'a> = ChangeRef { extension, before: was, after: is };
        let changed: bool = absent && was != is;
        if changed {
            found.push(change);
        }
        proof {
            if changed {
                are_changes_after_push(b, a, so_far, change);
            }
            assert forall|k: Seq<char>| #[trigger] listed(found@, k) implies b.dom().contains(k)
                || exists|q: int| 0 <= q < i + 1 && (#[trigger] new_pairs[q]).0 == k by {
                listed_after_push(so_far, change, k);
                if listed(so_far, k) {
                    if !b.dom().contains(k) {
                        let q = choose|q: int| 0 <= q < i && (#[trigger] new_pairs[q]).0 == k;
                        assert(new_pairs[q].0 == k);
                    }
                } else {
                    assert(new_pairs[i as int].0 == k);
                }
            }
            assert forall|k: Seq<char>|
                b.dom().contains(k) && bucket_for(b, k) != bucket_for(a, k) implies #[trigger] listed(
                found@,
                k,
            ) by {
                listed_after_push(so_far, change, k);
                assert(listed(so_far, k));
            }
            assert forall|q: int|
                0 <= q < i + 1 && bucket_for(b, (#[trigger] new_pairs[q]).0) != bucket_for(
                    a,
                    new_pairs[q].0,
                ) implies listed(found@, new_pairs[q].0) by {
                listed_after_push(so_far, change, new_pairs[q].0);
                if b.dom().contains(new_pairs[q].0) {
                    assert(listed(so_far, new_pairs[q].0));
                }
            }
        }
        i = i + 1;
    }
    assert forall|k: Seq<char>| bucket_for(b, k) != bucket_for(a, k) implies #[trigger] listed(
        found@,
        k,
    ) by {
        if !b.dom().contains(k) {
            let q = choose|q: int| 0 <= q < new_pairs.len() && (#[trigger] new_pairs[q]).0 == k;
            assert(listed(found@, new_pairs[q].0));
        }
    }
    found
}

/// Compare two sets of per-extension totals.
///
/// Unchanged extensions are left out: the point of a diff is what moved.
pub fn compare(before: &SortedMap<String, Bucket>, after: &SortedMap<String, Bucket>) -> (r: Diff)
    requires
        before.well_formed(),
        after.well_formed(),
        grand_total(tallies(before.map())).fits(),
        grand_total(tallies(after.map())).fits(),
    ensures
        lists_changes(before.map(), after.map(), r.rows@),
        r.before_total@ == grand_total(tallies(before.map())),
        r.after_total@ == grand_total(tallies(after.map())),
{
    let ghost b = before.map();
    let ghost a = after.map();
    let found: Vec<ChangeRef> = changes_between(before, after);
    let all: Vec<ChangeRef> = sort(&found);
    proof {
        let found_keys = keys(found@);
        assert forall|x: int, y: int| 0 <= x < y < found_keys.len() implies found_keys[x]
            != found_keys[y] by {
            assert(found@[x].extension@ != found@[y].extension@);
        }
        sorted_without_ties(found@, all@);
    }
    let mut rows: Vec<DiffRow> = Vec::new();
    let mut i: usize = 0;
    while i < all.len()
        invariant
            i <= all@.len(),
            rows@.len() == i,
            forall|k: int|
                0 <= k < i ==> {
                    let row = #[trigger] rows@[k];
                    &&& row.extension@ == all@[k].extension@
                    &&& row.before == all@[k].before
                    &&& row.after == all@[k].after
                },
        decreases all.len() - i,
    {
        rows.push(
            DiffRow {
                extension: all[i].extension.clone(),
                before: all[i].before,
                after: all[i].after,
            },
        );
        i = i + 1;
    }
    proof {
        assert forall|k: int| 0 <= k < rows@.len() implies (#[trigger] rows@[k]).change_key()
            == all@[k].key() by {}
        assert forall|k: int| 0 <= k < rows@.len() implies {
            let row = #[trigger] rows@[k];
            &&& row.before == bucket_for(b, row.extension@)
            &&& row.after == bucket_for(a, row.extension@)
            &&& row.before != row.after
        } by {
            assert(found@.contains(all@[k]));
            let j = choose|j: int| 0 <= j < found@.len() && found@[j] == all@[k];
            assert(found@[j].before != found@[j].after);
        }
        assert forall|q: Seq<char>| bucket_for(b, q) != bucket_for(a, q) implies exists|i: int|
            0 <= i < rows@.len() && (#[trigger] rows@[i]).extension@ == q by {
            assert(listed(found@, q));
            let j = choose|j: int| 0 <= j < found@.len() && (#[trigger] found@[j]).extension@ == q;
            assert(all@.contains(found@[j]));
            let at = choose|at: int| 0 <= at < all@.len() && all@[at] == found@[j];
            assert(rows@[at].extension@ == q);
        }
    }
    Diff { rows, before_total: total(before), after_total: total(after) }
}

fn total(totals: &SortedMap<String, Bucket>) -> (r: Bucket)
    requires
        totals.well_formed(),
        grand_total(tallies(totals.map())).fits(),
    ensures
        r@ == grand_total(tallies(totals.map())),
{
    Bucket { count: sum_counts(totals).unwrap(), bytes: sum_bytes(totals).unwrap() }
}

/// Comparing a scan with itself reports nothing.
pub proof fn a_scan_does_not_differ_from_itself(m: Map<Seq<char>, Bucket>, rows: Seq<DiffRow>)
    requires
        lists_changes(m, m, rows),
    ensures
        rows.len() == 0,
        signed_wrap(0) == 0,
{
    if rows.len() > 0 {
        assert(rows[0].before == rows[0].after);
    }
}

/// Two comparisons in which the same extensions moved as far list them in the
/// same order.
proof fn same_changes_same_order(
    before: Map<Seq<char>, Bucket>,
    after: Map<Seq<char>, Bucket>,
    one: Seq<DiffRow>,
    later: Map<Seq<char>, Bucket>,
    earlier: Map<Seq<char>, Bucket>,
    other: Seq<DiffRow>,
)
    requires
        lists_changes(before, after, one),
        lists_changes(later, earlier, other),
        (before == later && after == earlier) || (before == earlier && after == later),
    ensures
        one.len() == other.len(),
        forall|i: int| 0 <= i < one.len() ==> (#[trigger] one[i]).extension@ == other[i].extension@,
{
    let s = Seq::new(one.len(), |i: int| one[i].change_key());
    let t = Seq::new(other.len(), |i: int| other[i].change_key());
    assert forall|i: int| 0 <= i < s.len() implies t.contains(#[trigger] s[i]) by {
        let k = one[i].extension@;
        assert(bucket_for(later, k) != bucket_for(earlier, k));
        let j = choose|j: int| 0 <= j < other.len() && (#[trigger] other[j]).extension@ == k;
        assert(t[j] == s[i]);
    }
    assert forall|i: int| 0 <= i < t.len() implies s.contains(#[trigger] t[i]) by {
        let k = other[i].extension@;
        assert(bucket_for(before, k) != bucket_for(after, k));
        let j = choose|j: int| 0 <= j < one.len() && (#[trigger] one[j]).extension@ == k;
        assert(s[j] == t[i]);
    }
    assert forall|i: int, j: int| 0 <= i < j < s.len() implies ChangeRef::precedes(
        #[trigger] s[i],
        #[trigger] s[j],
    ) by {
        assert(change_precedes(one[i].change_key(), one[j].change_key()));
    }
    assert forall|i: int, j: int| 0 <= i < j < t.len() implies ChangeRef::precedes(
        #[trigger] t[i],
        #[trigger] t[j],
    ) by {
        assert(change_precedes(other[i].change_key(), other[j].change_key()));
    }
    one_way_to_list::<ChangeRef>(s, t);
    assert forall|i: int| 0 <= i < one.len() implies (#[trigger] one[i]).extension@
        == other[i].extension@ by {
        assert(s[i] == t[i]);
    }
}

/// The extension whose capacity moved furthest comes first, whether it grew or
/// shrank, and equal movements are in order of name. How much there is in all
/// makes no difference.
pub proof fn the_biggest_movement_comes_first(
    before: Map<Seq<char>, Bucket>,
    after: Map<Seq<char>, Bucket>,
    rows: Seq<DiffRow>,
    i: int,
    j: int,
)
    requires
        lists_changes(before, after, rows),
        0 <= i < j < rows.len(),
    ensures
        ({
            let mine = rows[i].after.bytes - rows[i].before.bytes;
            let theirs = rows[j].after.bytes - rows[j].before.bytes;
            &&& theirs >= 0 ==> mine >= theirs || mine <= -theirs
            &&& theirs < 0 ==> mine <= theirs || mine >= -theirs
            &&& mine == theirs || mine == -theirs ==> text_precedes(
                rows[i].extension@,
                rows[j].extension@,
            )
        }),
{
    assert(change_precedes(rows[i].change_key(), rows[j].change_key()));
}

/// Each row says what the two scans hold for its extension, nothing standing
/// for one that does not have it. An extension has a row if the two differ in
/// it, be it in files or in bytes, and then just one.
pub proof fn each_change_has_one_row(
    before: Map<Seq<char>, Bucket>,
    after: Map<Seq<char>, Bucket>,
    rows: Seq<DiffRow>,
    extension: Seq<char>,
)
    requires
        lists_changes(before, after, rows),
    ensures
        forall|i: int|
            0 <= i < rows.len() ==> {
                let row = #[trigger] rows[i];
                let name = row.extension@;
                &&& before.dom().contains(name) ==> row.before == before[name]
                &&& !before.dom().contains(name) ==> row.before.count == 0 && row.before.bytes == 0
                &&& after.dom().contains(name) ==> row.after == after[name]
                &&& !after.dom().contains(name) ==> row.after.count == 0 && row.after.bytes == 0
                &&& row.before.count != row.after.count || row.before.bytes != row.after.bytes
            },
        before.dom().contains(extension) && after.dom().contains(extension) && before[extension]
            != after[extension] ==> exists|i: int|
            0 <= i < rows.len() && (#[trigger] rows[i]).extension@ == extension,
        before.dom().contains(extension) && !after.dom().contains(extension) && (
        before[extension].count > 0 || before[extension].bytes > 0) ==> exists|i: int|
            0 <= i < rows.len() && (#[trigger] rows[i]).extension@ == extension,
        !before.dom().contains(extension) && after.dom().contains(extension) && (
        after[extension].count > 0 || after[extension].bytes > 0) ==> exists|i: int|
            0 <= i < rows.len() && (#[trigger] rows[i]).extension@ == extension,
        forall|i: int, j: int|
            0 <= i < j < rows.len() ==> (#[trigger] rows[i]).extension@ != (
            #[trigger] rows[j]).extension@,
{
    assert forall|i: int, j: int| 0 <= i < j < rows.len() implies (#[trigger] rows[i]).extension@
        != (#[trigger] rows[j]).extension@ by {
        assert(change_precedes(rows[i].change_key(), rows[j].change_key()));
        let name = rows[i].extension@;
        if name == rows[j].extension@ {
            text_order_laws(name, name, name);
        }
    }
    let a = bucket_for(before, extension);
    let b = bucket_for(after, extension);
    if a != b {
        assert(exists|i: int| 0 <= i < rows.len() && (#[trigger] rows[i]).extension@ == extension);
    }
}

/// An extension that only one of the two scans has is marked as new or gone
/// behind its name, and any other goes by its name alone.
pub proof fn only_one_sided_extensions_are_marked(row: DiffRow)
    ensures
        row.before.count == 0 && row.after.count > 0 ==> row.label_text() == row.extension@
            + " (new)"@,
        row.before.count > 0 && row.after.count == 0 ==> row.label_text() == row.extension@
            + " (gone)"@,
        row.before.count > 0 && row.after.count > 0 ==> row.label_text() == row.extension@,
        row.before.count == 0 && row.after.count == 0 ==> row.label_text() == row.extension@,
{
}

/// A change past the range of a signed number is off by the whole range of a
/// counter.
pub proof fn changes_past_the_range_go_round(n: int)
    ensures
        -0x8000_0000_0000_0000 <= signed_wrap(n) < 0x8000_0000_0000_0000,
        (n - signed_wrap(n)) % 0x1_0000_0000_0000_0000 == 0,
{
}

/// Repeated comparisons produce identical output.
pub proof fn totals_determine_the_comparison(
    before: Map<Seq<char>, Bucket>,
    after: Map<Seq<char>, Bucket>,
    one: Seq<DiffRow>,
    other: Seq<DiffRow>,
)
    requires
        lists_changes(before, after, one),
        lists_changes(before, after, other),
    ensures
        one.len() == other.len(),
        forall|i: int|
            0 <= i < one.len() ==> (#[trigger] one[i]).extension@ == other[i].extension@
                && one[i].before == other[i].before && one[i].after == other[i].after,
{
    same_changes_same_order(before, after, one, before, after, other);
}

/// Comparing the other way round reports the same extensions in the same
/// order, with the two sides exchanged.
pub proof fn comparing_backwards_exchanges_the_sides(
    before: Map<Seq<char>, Bucket>,
    after: Map<Seq<char>, Bucket>,
    rows: Seq<DiffRow>,
    backwards: Seq<DiffRow>,
)
    requires
        lists_changes(before, after, rows),
        lists_changes(after, before, backwards),
    ensures
        rows.len() == backwards.len(),
        forall|i: int|
            0 <= i < rows.len() ==> (#[trigger] rows[i]).extension@ == backwards[i].extension@
                && rows[i].before == backwards[i].after && rows[i].after == backwards[i].before,
{
    same_changes_same_order(before, after, rows, after, before, backwards);
}

/// How many files more the rows report, and how many bytes.
pub open spec fn change_of(rows: Seq<DiffRow>) -> Tally
    decreases rows.len(),
{
    if rows.len() == 0 {
        Tally::zero()
    } else {
        let last = rows.last();
        change_of(rows.drop_last()).plus(
            Tally {
                count: last.after.count - last.before.count,
                bytes: last.after.bytes - last.before.bytes,
            },
        )
    }
}

/// `before` with the changes of the rows made to it.
spec fn with_changes(before: Map<Seq<char>, Bucket>, rows: Seq<DiffRow>) -> Map<Seq<char>, Bucket>
    decreases rows.len(),
{
    if rows.len() == 0 {
        before
    } else {
        with_changes(before, rows.drop_last()).insert(rows.last().extension@, rows.last().after)
    }
}

proof fn changes_add_up(
    before: Map<Seq<char>, Bucket>,
    after: Map<Seq<char>, Bucket>,
    rows: Seq<DiffRow>,
    n: int,
)
    requires
        before.dom().finite(),
        lists_changes(before, after, rows),
        0 <= n <= rows.len(),
    ensures
        ({
            let m = with_changes(before, rows.take(n));
            &&& m.dom().finite()
            &&& grand_total(tallies(m)) == grand_total(tallies(before)).plus(
                change_of(rows.take(n)),
            )
            &&& forall|i: int|
                0 <= i < n ==> bucket_for(m, (#[trigger] rows[i]).extension@) == rows[i].after
            &&& forall|k: Seq<char>|
                (forall|i: int| 0 <= i < n ==> (#[trigger] rows[i]).extension@ != k)
                    ==> #[trigger] bucket_for(m, k) == bucket_for(before, k)
        }),
    decreases n,
{
    let some = rows.take(n);
    if n > 0 {
        changes_add_up(before, after, rows, n - 1);
        assert(some.drop_last() =~= rows.take(n - 1));
        let row = rows[n - 1];
        assert(some.last() == row);
        let k = row.extension@;
        let earlier = with_changes(before, rows.take(n - 1));
        let m = with_changes(before, some);
        assert forall|i: int| 0 <= i < n - 1 implies (#[trigger] rows[i]).extension@ != k by {
            assert(change_precedes(rows[i].change_key(), rows[n - 1].change_key()));
            if rows[i].extension@ == k {
                text_order_laws(k, k, k);
            }
        }
        assert(bucket_for(earlier, k) == row.before);
        let c = tallies(earlier).map_values(counts());
        let b = tallies(earlier).map_values(byte_counts());
        assert(tallies(m).map_values(counts()) =~= c.insert(k, row.after.count as int));
        assert(tallies(m).map_values(byte_counts()) =~= b.insert(k, row.after.bytes as int));
        assert(c.dom() =~= earlier.dom());
        assert(b.dom() =~= earlier.dom());
        map_sum_after_insert(c, k, row.after.count as int);
        map_sum_after_insert(b, k, row.after.bytes as int);
        assert(value_or(c, k, 0) == row.before.count);
        assert(value_or(b, k, 0) == row.before.bytes);
        assert forall|i: int| 0 <= i < n implies bucket_for(m, (#[trigger] rows[i]).extension@)
            == rows[i].after by {
            if i < n - 1 {
                assert(bucket_for(earlier, rows[i].extension@) == rows[i].after);
            }
        }
        assert forall|q: Seq<char>|
            (forall|i: int| 0 <= i < n ==> (#[trigger] rows[i]).extension@ != q) implies #[trigger]
        bucket_for(m, q) == bucket_for(before, q) by {
            assert(rows[n - 1].extension@ != q);
            assert(bucket_for(earlier, q) == bucket_for(before, q));
        }
    } else {
        assert(some =~= Seq::empty());
        let t = grand_total(tallies(before));
        assert(t.plus(Tally::zero()) == t);
    }
}

/// The rows account for the whole change: what they report adds up to the
/// difference between the two totals.
pub proof fn the_rows_account_for_the_whole_change(
    before: Map<Seq<char>, Bucket>,
    after: Map<Seq<char>, Bucket>,
    rows: Seq<DiffRow>,
)
    requires
        before.dom().finite(),
        after.dom().finite(),
        lists_changes(before, after, rows),
    ensures
        grand_total(tallies(after)) == grand_total(tallies(before)).plus(change_of(rows)),
{
    changes_add_up(before, after, rows, rows.len() as int);
    assert(rows.take(rows.len() as int) =~= rows);
    let m = with_changes(before, rows);
    assert forall|k: Seq<char>| #[trigger] bucket_for(m, k) == bucket_for(after, k) by {
        if exists|i: int| 0 <= i < rows.len() && (#[trigger] rows[i]).extension@ == k {
            let i = choose|i: int| 0 <= i < rows.len() && (#[trigger] rows[i]).extension@ == k;
            assert(bucket_for(m, rows[i].extension@) == rows[i].after);
        } else {
            assert(bucket_for(before, k) == bucket_for(after, k));
        }
    }
    let c = tallies(m).map_values(counts());
    let d = tallies(after).map_values(counts());
    let b = tallies(m).map_values(byte_counts());
    let e = tallies(after).map_values(byte_counts());
    assert forall|k: Seq<char>| #[trigger] value_or(c, k, 0) == value_or(d, k, 0) by {
        assert(bucket_for(m, k) == bucket_for(after, k));
    }
    assert forall|k: Seq<char>| #[trigger] value_or(b, k, 0) == value_or(e, k, 0) by {
        assert(bucket_for(m, k) == bucket_for(after, k));
    }
    assert(c.dom() =~= m.dom() && b.dom() =~= m.dom());
    assert(d.dom() =~= after.dom() && e.dom() =~= after.dom());
    map_sums_agree(c, d);
    map_sums_agree(b, e);
}

} // verus!
