//! What holds of the shape of a tree, however its directories are listed.

use crate::bands::{fan_out_of, file_count_of, FanOut, FileCount};
use crate::order::Ordered;
use crate::sorted_map::{map_sum_after_insert, total_of};
use crate::structure::{
    banded_map, directories_in, files_in, greater, group_directories, group_files, grown,
    long_directories_in, long_files_in, longest_in, nothing, without_trailing_empties, wrapped,
    Child, Shape, Structure,
};
use crate::tally::DirectoryGroup;
use vstd::arithmetic::div_mod::{lemma_fundamental_div_mod, lemma_mod_multiples_vanish};
use vstd::multiset::Multiset;
use vstd::prelude::*;

verus! {

/// The directories of a sequence of groups.
pub open spec fn directory_sum(groups: Seq<DirectoryGroup>) -> int
    decreases groups.len(),
{
    if groups.len() == 0 {
        0
    } else {
        directory_sum(groups.drop_last()) + groups.last().directories
    }
}

/// The files of a sequence of groups.
pub open spec fn file_sum(groups: Seq<DirectoryGroup>) -> int
    decreases groups.len(),
{
    if groups.len() == 0 {
        0
    } else {
        file_sum(groups.drop_last()) + groups.last().files
    }
}

/// Whether the counters agree with each other, up to the range they wrap
/// around in: the levels account for every directory and file seen, and both
/// band reports for every directory listed and every file it holds.
pub open spec fn balanced(shape: Shape) -> bool {
    &&& shape.directories == wrapped(
        directory_sum(shape.levels) + shape.beyond_tracked.directories,
    )
    &&& shape.listed == wrapped(directory_sum(shape.fan_out))
    &&& shape.listed == wrapped(directory_sum(shape.file_counts))
    &&& wrapped(file_sum(shape.levels) + shape.beyond_tracked.files) == wrapped(
        file_sum(shape.fan_out),
    )
    &&& wrapped(file_sum(shape.fan_out)) == wrapped(file_sum(shape.file_counts))
}

/// Replacing one group changes the sums by the difference.
pub proof fn sums_after_update(groups: Seq<DirectoryGroup>, at: int, group: DirectoryGroup)
    requires
        0 <= at < groups.len(),
    ensures
        directory_sum(groups.update(at, group)) == directory_sum(groups) - groups[at].directories
            + group.directories,
        file_sum(groups.update(at, group)) == file_sum(groups) - groups[at].files + group.files,
    decreases groups.len(),
{
    let updated = groups.update(at, group);
    if at == groups.len() - 1 {
        assert(updated.drop_last() =~= groups.drop_last());
    } else {
        sums_after_update(groups.drop_last(), at, group);
        assert(updated.drop_last() =~= groups.drop_last().update(at, group));
    }
}

/// Groups that hold nothing add up to nothing.
pub proof fn sums_of_nothing(groups: Seq<DirectoryGroup>)
    requires
        forall|i: int| 0 <= i < groups.len() ==> groups[i] == nothing(),
    ensures
        directory_sum(groups) == 0,
        file_sum(groups) == 0,
    decreases groups.len(),
{
    if groups.len() > 0 {
        sums_of_nothing(groups.drop_last());
    }
}

/// Wrapping part of a sum first changes nothing once all of it is wrapped.
pub proof fn wrapping_early(rest: int, n: int)
    ensures
        wrapped(rest + wrapped(n)) == wrapped(rest + n),
{
    let m: int = 0x1_0000_0000_0000_0000;
    lemma_fundamental_div_mod(n, m);
    lemma_mod_multiples_vanish(-(n / m), rest + n, m);
    assert(m * (-(n / m)) == -(m * (n / m))) by (nonlinear_arith);
}

/// Before anything is listed the counters agree.
pub proof fn a_blank_shape_is_balanced()
    ensures
        balanced(Shape::blank()),
        Shape::blank().well_formed(),
{
    let blank = Shape::blank();
    sums_of_nothing(blank.levels);
    sums_of_nothing(blank.fan_out);
    sums_of_nothing(blank.file_counts);
}

/// Listing one more directory keeps the counters in agreement, so every report
/// on the shape of a tree accounts for the same directories and files.
pub proof fn listing_keeps_the_balance(
    shape: Shape,
    depth: int,
    relative_length: int,
    children: Seq<Child>,
)
    requires
        shape.well_formed(),
        balanced(shape),
        depth >= 0,
    ensures
        shape.record(depth, relative_length, children).well_formed(),
        balanced(shape.record(depth, relative_length, children)),
{
    let after = shape.record(depth, relative_length, children);
    let d = directories_in(children) as int;
    let f = files_in(children) as int;
    let level = depth + 1;
    let fan = fan_out_of(d as u64).position() as int;
    let count = file_count_of(f as u64).position() as int;
    let seen = directory_sum(shape.levels) + shape.beyond_tracked.directories;
    let held = file_sum(shape.levels) + shape.beyond_tracked.files;
    if d > 0 || f > 0 {
        if level < shape.levels.len() {
            let g = shape.levels[level];
            sums_after_update(shape.levels, level, grown(g, d, f));
            wrapping_early(seen - g.directories, g.directories + d);
            wrapping_early(held - g.files, g.files + f);
        } else {
            let g = shape.beyond_tracked;
            wrapping_early(seen - g.directories, g.directories + d);
            wrapping_early(held - g.files, g.files + f);
        }
    }
    wrapping_early(d, seen);
    assert(after.directories == wrapped(seen + d));
    sums_after_update(shape.fan_out, fan, grown(shape.fan_out[fan], 1, f));
    sums_after_update(shape.file_counts, count, grown(shape.file_counts[count], 1, f));
    let by_fan = directory_sum(shape.fan_out);
    let by_count = directory_sum(shape.file_counts);
    wrapping_early(by_fan - shape.fan_out[fan].directories, shape.fan_out[fan].directories + 1);
    wrapping_early(
        by_count - shape.file_counts[count].directories,
        shape.file_counts[count].directories + 1,
    );
    wrapping_early(1, by_fan);
    wrapping_early(1, by_count);
    let fan_files = file_sum(shape.fan_out);
    let count_files = file_sum(shape.file_counts);
    wrapping_early(fan_files - shape.fan_out[fan].files, shape.fan_out[fan].files + f);
    wrapping_early(
        count_files - shape.file_counts[count].files,
        shape.file_counts[count].files + f,
    );
    wrapping_early(f, fan_files);
    wrapping_early(f, count_files);
    wrapping_early(f, held);
}

proof fn grown_twice(g: DirectoryGroup, d: int, f: int, e: int, h: int)
    ensures
        grown(grown(g, d, f), e, h) == grown(grown(g, e, h), d, f),
{
    wrapping_early(e, g.directories + d);
    wrapping_early(d, g.directories + e);
    wrapping_early(h, g.files + f);
    wrapping_early(f, g.files + h);
}

proof fn updates_commute(s: Seq<DirectoryGroup>, i: int, d: int, f: int, j: int, e: int, h: int)
    requires
        0 <= i < s.len(),
        0 <= j < s.len(),
    ensures
        ({
            let a = s.update(i, grown(s[i], d, f));
            let b = s.update(j, grown(s[j], e, h));
            a.update(j, grown(a[j], e, h)) == b.update(i, grown(b[i], d, f))
        }),
{
    let a = s.update(i, grown(s[i], d, f));
    let b = s.update(j, grown(s[j], e, h));
    if i == j {
        grown_twice(s[i], d, f, e, h);
    }
    assert(a.update(j, grown(a[j], e, h)) =~= b.update(i, grown(b[i], d, f)));
}

/// Which of two directories is listed first makes no difference, so the walk
/// may list them from as many threads as it likes.
pub proof fn the_order_of_listings_makes_no_difference(
    shape: Shape,
    depth: int,
    relative_length: int,
    children: Seq<Child>,
    other_depth: int,
    other_length: int,
    other_children: Seq<Child>,
)
    requires
        shape.well_formed(),
        depth >= 0,
        other_depth >= 0,
    ensures
        shape.record(depth, relative_length, children).record(
            other_depth,
            other_length,
            other_children,
        ) == shape.record(other_depth, other_length, other_children).record(
            depth,
            relative_length,
            children,
        ),
{
    let d = directories_in(children) as int;
    let f = files_in(children) as int;
    let e = directories_in(other_children) as int;
    let h = files_in(other_children) as int;
    let one = shape.record(depth, relative_length, children).record(
        other_depth,
        other_length,
        other_children,
    );
    let two = shape.record(other_depth, other_length, other_children).record(
        depth,
        relative_length,
        children,
    );
    let i = depth + 1;
    let j = other_depth + 1;
    let n = shape.levels.len() as int;
    if i < n && j < n {
        updates_commute(shape.levels, i, d, f, j, e, h);
    }
    grown_twice(shape.beyond_tracked, d, f, e, h);
    assert(one.levels =~= two.levels);
    updates_commute(
        shape.fan_out,
        fan_out_of(d as u64).position() as int,
        1,
        f,
        fan_out_of(e as u64).position() as int,
        1,
        h,
    );
    updates_commute(
        shape.file_counts,
        file_count_of(f as u64).position() as int,
        1,
        f,
        file_count_of(h as u64).position() as int,
        1,
        h,
    );
    wrapping_early(e, shape.directories + d);
    wrapping_early(d, shape.directories + e);
    wrapping_early(1, shape.listed + 1);
    grown_twice(
        shape.long_paths,
        long_directories_in(children, relative_length) as int,
        long_files_in(children, relative_length) as int,
        long_directories_in(other_children, other_length) as int,
        long_files_in(other_children, other_length) as int,
    );
}

/// Whether a child counts for anything.
pub open spec fn counted() -> spec_fn(Child) -> bool {
    |c: Child| c.directory() || c.file()
}

proof fn filter_within(children: Seq<Child>, narrow: spec_fn(Child) -> bool)
    requires
        forall|c: Child| #[trigger] narrow(c) ==> c.directory() || c.file(),
    ensures
        children.filter(counted()).filter(narrow) == children.filter(narrow),
    decreases children.len(),
{
    reveal(Seq::filter);
    if children.len() > 0 {
        filter_within(children.drop_last(), narrow);
        let kept = children.drop_last().filter(counted());
        let c = children.last();
        if counted()(c) {
            assert(kept.push(c).drop_last() =~= kept);
        }
    }
}

proof fn longest_within(children: Seq<Child>, relative_length: int)
    ensures
        longest_in(children.filter(counted()), relative_length) == longest_in(
            children,
            relative_length,
        ),
    decreases children.len(),
{
    reveal(Seq::filter);
    if children.len() > 0 {
        longest_within(children.drop_last(), relative_length);
        let kept = children.drop_last().filter(counted());
        let c = children.last();
        if counted()(c) {
            assert(kept.push(c).drop_last() =~= kept);
        }
    }
}

/// An entry that is neither a file nor a directory, such as a symbolic link,
/// counts as neither: leaving them all out gives the same shape.
pub proof fn entries_of_other_kinds_count_for_nothing(
    shape: Shape,
    depth: int,
    relative_length: int,
    children: Seq<Child>,
)
    ensures
        shape.record(depth, relative_length, children.filter(counted())) == shape.record(
            depth,
            relative_length,
            children,
        ),
{
    filter_within(children, |c: Child| c.directory());
    filter_within(children, |c: Child| c.file());
    filter_within(children, |c: Child| c.directory() && c.is_long(relative_length));
    filter_within(children, |c: Child| c.file() && c.is_long(relative_length));
    longest_within(children, relative_length);
}

proof fn longest_of_both(a: Seq<Child>, b: Seq<Child>, relative_length: int)
    ensures
        longest_in(a + b, relative_length) == greater(
            longest_in(a, relative_length),
            longest_in(b, relative_length),
        ),
        longest_in(a, relative_length) >= 0,
    decreases a.len() + b.len(),
{
    if b.len() == 0 {
        assert(a + b =~= a);
        if a.len() > 0 {
            longest_of_both(a.drop_last(), b, relative_length);
        }
    } else {
        longest_of_both(a, b.drop_last(), relative_length);
        assert((a + b).drop_last() =~= a + b.drop_last());
    }
}

/// The number of children of some kind, and the longest path among them, do
/// not depend on the order that they are listed in.
proof fn listed_in_any_order(
    a: Seq<Child>,
    b: Seq<Child>,
    kind: spec_fn(Child) -> bool,
    relative_length: int,
)
    requires
        a.to_multiset() == b.to_multiset(),
    ensures
        a.filter(kind).len() == b.filter(kind).len(),
        longest_in(a, relative_length) == longest_in(b, relative_length),
    decreases a.len(),
{
    broadcast use vstd::seq_lib::group_to_multiset_ensures;
    assert(a.len() == a.to_multiset().len());
    assert(b.len() == b.to_multiset().len());
    if a.len() == 0 {
        assert(a =~= b);
    } else {
        let x = a.last();
        let c = a.drop_last();
        assert(a =~= c.push(x));
        assert(a.to_multiset().count(x) > 0);
        assert(b.contains(x));
        let at = choose|i: int| 0 <= i < b.len() && b[i] == x;
        let d = b.remove(at);
        assert(d.to_multiset() =~= b.to_multiset().remove(x));
        assert(c.to_multiset() =~= a.to_multiset().remove(x));
        listed_in_any_order(c, d, kind, relative_length);
        let p = b.take(at);
        let q = b.skip(at + 1);
        let one = seq![x];
        assert(a =~= c + one);
        assert(b =~= p + one + q);
        assert(d =~= p + q);
        Seq::filter_distributes_over_add(c, one, kind);
        Seq::filter_distributes_over_add(p + one, q, kind);
        Seq::filter_distributes_over_add(p, one, kind);
        Seq::filter_distributes_over_add(p, q, kind);
        longest_of_both(c, one, relative_length);
        longest_of_both(p + one, q, relative_length);
        longest_of_both(p, one, relative_length);
        longest_of_both(p, q, relative_length);
    }
}

/// One directory of a walk, and what was listed in it.
pub struct Listing {
    pub depth: int,
    /// Length of the directory's path below the root.
    pub relative_length: int,
    pub children: Seq<Child>,
}

/// What there is to a listing: where it stands, and which children it holds
/// that count for anything.
pub type Outline = (int, int, Multiset<Child>);

impl Listing {
    pub open spec fn outline(self) -> Outline {
        (self.depth, self.relative_length, self.children.filter(counted()).to_multiset())
    }
}

pub open spec fn outlines(listings: Seq<Listing>) -> Seq<Outline> {
    Seq::new(listings.len(), |i: int| listings[i].outline())
}

impl Shape {
    /// After the directory of a listing has been listed.
    pub open spec fn with_listing(self, listing: Listing) -> Shape {
        self.record(listing.depth, listing.relative_length, listing.children)
    }
}

/// What the counters have seen of a walk that listed these directories.
pub open spec fn shape_of(listings: Seq<Listing>) -> Shape
    decreases listings.len(),
{
    if listings.len() == 0 {
        Shape::blank()
    } else {
        shape_of(listings.drop_last()).with_listing(listings.last())
    }
}

/// Whether each directory stands at some level.
pub open spec fn at_some_level(listings: Seq<Listing>) -> bool {
    forall|i: int| 0 <= i < listings.len() ==> (#[trigger] listings[i]).depth >= 0
}

/// Every walk leaves the counters in agreement.
pub proof fn every_shape_is_balanced(listings: Seq<Listing>)
    requires
        at_some_level(listings),
    ensures
        shape_of(listings).well_formed(),
        balanced(shape_of(listings)),
    decreases listings.len(),
{
    if listings.len() == 0 {
        a_blank_shape_is_balanced();
    } else {
        let last = listings.last();
        assert(listings[listings.len() - 1].depth >= 0);
        assert forall|i: int| 0 <= i < listings.drop_last().len() implies (#[trigger]
        listings.drop_last()[i]).depth >= 0 by {
            assert(listings[i].depth >= 0);
        }
        every_shape_is_balanced(listings.drop_last());
        listing_keeps_the_balance(
            shape_of(listings.drop_last()),
            last.depth,
            last.relative_length,
            last.children,
        );
    }
}

proof fn outline_decides(shape: Shape, a: Listing, b: Listing)
    requires
        a.outline() == b.outline(),
    ensures
        shape.with_listing(a) == shape.with_listing(b),
{
    let length = a.relative_length;
    let x = a.children.filter(counted());
    let y = b.children.filter(counted());
    entries_of_other_kinds_count_for_nothing(shape, a.depth, length, a.children);
    entries_of_other_kinds_count_for_nothing(shape, b.depth, length, b.children);
    listed_in_any_order(x, y, |c: Child| c.directory(), length);
    listed_in_any_order(x, y, |c: Child| c.file(), length);
    listed_in_any_order(x, y, |c: Child| c.directory() && c.is_long(length), length);
    listed_in_any_order(x, y, |c: Child| c.file() && c.is_long(length), length);
    assert(directories_in(x) == directories_in(y));
    assert(files_in(x) == files_in(y));
    assert(long_directories_in(x, length) == long_directories_in(y, length));
    assert(long_files_in(x, length) == long_files_in(y, length));
}

/// A directory may as well have been listed after all the others.
proof fn listed_last(front: Seq<Listing>, x: Listing, behind: Seq<Listing>)
    requires
        at_some_level(front + behind),
        x.depth >= 0,
    ensures
        shape_of(front + seq![x] + behind) == shape_of(front + behind).with_listing(x),
    decreases behind.len(),
{
    let all = front + seq![x] + behind;
    if behind.len() == 0 {
        assert(all.drop_last() =~= front + behind);
    } else {
        let fewer = behind.drop_last();
        let last = behind.last();
        let others = front + fewer;
        assert(all.drop_last() =~= front + seq![x] + fewer);
        assert((front + behind).drop_last() =~= others);
        assert(last == (front + behind)[(front + behind).len() - 1]);
        assert forall|i: int| 0 <= i < others.len() implies (#[trigger] others[i]).depth >= 0 by {
            assert(others[i] == (front + behind)[i]);
        }
        listed_last(front, x, fewer);
        every_shape_is_balanced(others);
        the_order_of_listings_makes_no_difference(
            shape_of(others),
            x.depth,
            x.relative_length,
            x.children,
            last.depth,
            last.relative_length,
            last.children,
        );
    }
}

/// The shape of a tree depends only on which directories were listed and what
/// each of them holds. It does not depend on the order in which threads list
/// the directories, nor on the order in which a directory lists its children.
pub proof fn the_shape_depends_on_the_tree_alone(a: Seq<Listing>, b: Seq<Listing>)
    requires
        at_some_level(a),
        at_some_level(b),
        outlines(a).to_multiset() == outlines(b).to_multiset(),
    ensures
        shape_of(a) == shape_of(b),
    decreases a.len(),
{
    broadcast use vstd::seq_lib::group_to_multiset_ensures;
    let s = outlines(a);
    let t = outlines(b);
    assert(s.len() == s.to_multiset().len());
    assert(t.len() == t.to_multiset().len());
    if a.len() == 0 {
        assert(a =~= b);
    } else {
        let last = a.last();
        let x = s.last();
        assert(s =~= s.drop_last().push(x));
        assert(s.to_multiset().count(x) > 0);
        assert(t.contains(x));
        let at = choose|i: int| 0 <= i < t.len() && t[i] == x;
        let c = a.drop_last();
        let d = b.remove(at);
        assert(outlines(c) =~= s.drop_last());
        assert(outlines(d) =~= t.remove(at));
        assert(t.remove(at).to_multiset() =~= t.to_multiset().remove(x));
        assert(s.drop_last().to_multiset() =~= s.to_multiset().remove(x));
        assert forall|i: int| 0 <= i < c.len() implies (#[trigger] c[i]).depth >= 0 by {
            assert(a[i].depth >= 0);
        }
        assert forall|i: int| 0 <= i < d.len() implies (#[trigger] d[i]).depth >= 0 by {
            assert(d[i] == b[if i < at { i } else { i + 1 }]);
        }
        the_shape_depends_on_the_tree_alone(c, d);
        let front = b.take(at);
        let behind = b.skip(at + 1);
        assert(b =~= front + seq![b[at]] + behind);
        assert(d =~= front + behind);
        assert(b[at].depth >= 0);
        listed_last(front, b[at], behind);
        outline_decides(shape_of(c), last, b[at]);
    }
}

proof fn sums_without_trailing_empties(levels: Seq<DirectoryGroup>)
    ensures
        directory_sum(without_trailing_empties(levels)) == directory_sum(levels),
        file_sum(without_trailing_empties(levels)) == file_sum(levels),
    decreases levels.len(),
{
    if levels.len() > 0 && levels.last().holds_nothing() {
        sums_without_trailing_empties(levels.drop_last());
    }
}

/// The bands of a report add up to its counters.
pub proof fn banded_sums<B: Ordered>(counters: Seq<DirectoryGroup>, bands: Seq<B>)
    requires
        counters.len() == bands.len(),
        forall|i: int, j: int|
            0 <= i < j < bands.len() ==> (#[trigger] bands[i]).key() != (#[trigger] bands[j]).key(),
    ensures
        banded_map(counters, bands).dom().finite(),
        total_of(banded_map(counters, bands), group_files()) == file_sum(counters),
        total_of(banded_map(counters, bands), group_directories()) == directory_sum(counters),
        forall|k: B::Key| #[trigger]
            banded_map(counters, bands).dom().contains(k) ==> exists|i: int|
                0 <= i < bands.len() && (#[trigger] bands[i]).key() == k,
    decreases counters.len(),
{
    let m = banded_map(counters, bands);
    if counters.len() == 0 {
        assert(m.map_values(group_files()).dom() =~= Set::empty());
        assert(m.map_values(group_directories()).dom() =~= Set::empty());
    } else {
        let front = bands.drop_last();
        assert forall|i: int, j: int| 0 <= i < j < front.len() implies (#[trigger]
        front[i]).key() != (#[trigger] front[j]).key() by {
            assert(bands[i].key() != bands[j].key());
        }
        banded_sums(counters.drop_last(), front);
        let rest = banded_map(counters.drop_last(), front);
        let k = bands.last().key();
        if rest.dom().contains(k) {
            let i = choose|i: int| 0 <= i < front.len() && (#[trigger] front[i]).key() == k;
            assert(bands[i].key() != bands[bands.len() - 1].key());
        }
        if !counters.last().holds_nothing() {
            let files = rest.map_values(group_files());
            assert(m.map_values(group_files()) =~= files.insert(k, counters.last().files as int));
            assert(files.dom() =~= rest.dom());
            map_sum_after_insert(files, k, counters.last().files as int);
            let directories = rest.map_values(group_directories());
            assert(m.map_values(group_directories()) =~= directories.insert(
                k,
                counters.last().directories as int,
            ));
            assert(directories.dom() =~= rest.dom());
            map_sum_after_insert(directories, k, counters.last().directories as int);
        }
        assert forall|q: B::Key| #[trigger] m.dom().contains(q) implies exists|i: int|
            0 <= i < bands.len() && (#[trigger] bands[i]).key() == q by {
            if rest.dom().contains(q) {
                let i = choose|i: int| 0 <= i < front.len() && (#[trigger] front[i]).key() == q;
                assert(bands[i].key() == q);
            } else {
                assert(bands[bands.len() - 1].key() == q);
            }
        }
    }
}

/// The finished report still accounts for everything. Its levels add up to its
/// directories, the root among them, and to the files that it reports. Both
/// band reports add up to the directories that were listed, and to those same
/// files.
pub proof fn a_structure_accounts_for_everything_seen(
    structure: Structure,
    shape: Shape,
    root_is_directory: bool,
)
    requires
        shape.well_formed(),
        balanced(shape),
        structure.describes(shape, root_is_directory),
    ensures
        structure.directories == wrapped(
            directory_sum(structure.levels@) + structure.beyond_tracked.directories,
        ),
        structure.listed_directories == wrapped(
            total_of(structure.fan_out.map(), group_directories()),
        ),
        structure.listed_directories == wrapped(
            total_of(structure.file_counts.map(), group_directories()),
        ),
        wrapped(total_of(structure.file_counts.map(), group_files())) == wrapped(
            file_sum(structure.levels@) + structure.beyond_tracked.files,
        ),
        wrapped(total_of(structure.file_counts.map(), group_files())) == wrapped(
            total_of(structure.fan_out.map(), group_files()),
        ),
{
    let all = shape.levels_with_root(root_is_directory);
    sums_without_trailing_empties(all);
    if root_is_directory {
        sums_after_update(shape.levels, 0, all[0]);
    }
    let seen = directory_sum(shape.levels) + shape.beyond_tracked.directories;
    wrapping_early(1, seen);
    banded_sums(shape.fan_out, FanOut::ALL@);
    banded_sums(shape.file_counts, FileCount::ALL@);
}

} // verus!
