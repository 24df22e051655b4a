//! What holds of a scan as a whole.

use crate::bands::{age_of, size_band_of, AgeBucket, SizeBand};
use crate::path::{extension_text, PartKey};
use crate::sorted_map::{map_sum_after_insert, total_of, value_or};
use crate::summary::{
    at_most_top_files_are_kept, bumped, combined, leading_ignores_sides, merged,
    merged_directories, merging_shares_is_measuring_them_all, summarise, FileFacts, Settings,
};
use crate::tally::{DirectoryTally, Tally};
use crate::totals::{byte_counts, counts, grand_total};
use vstd::prelude::*;

verus! {

/// Which of two shares is measured first makes no difference.
pub proof fn shares_may_be_measured_in_either_order(
    a: Seq<Option<FileFacts>>,
    b: Seq<Option<FileFacts>>,
    settings: Settings,
)
    ensures
        summarise(a + b, settings) == summarise(b + a, settings),
{
    let s = summarise(a, settings);
    let t = summarise(b, settings);
    merging_shares_is_measuring_them_all(a, b, settings);
    merging_shares_is_measuring_them_all(b, a, settings);
    at_most_top_files_are_kept(a, settings);
    at_most_top_files_are_kept(b, settings);
    leading_ignores_sides(s.largest, t.largest, settings.top);
    assert(merged(s.extensions, t.extensions) =~= merged(t.extensions, s.extensions));
    assert(merged(s.ages, t.ages) =~= merged(t.ages, s.ages));
    assert(merged(s.sizes, t.sizes) =~= merged(t.sizes, s.sizes));
    assert(merged_directories(s.directories, t.directories) =~= merged_directories(
        t.directories,
        s.directories,
    ));
    assert(s.merge(t, settings.top) =~= t.merge(s, settings.top));
}

/// The outcome depends only on which files there are, not on the order in
/// which threads happen to visit them.
pub proof fn the_order_of_visits_makes_no_difference(
    a: Seq<Option<FileFacts>>,
    b: Seq<Option<FileFacts>>,
    settings: Settings,
)
    requires
        a.to_multiset() == b.to_multiset(),
    ensures
        summarise(a, settings) == summarise(b, settings),
    decreases a.len(),
{
    broadcast use vstd::seq_lib::group_to_multiset_ensures;
    assert(a.len() == a.to_multiset().len());
    assert(b.len() == b.to_multiset().len());
    if a.len() == 0 {
        assert(a =~= b);
    } else {
        let x = a.last();
        let c = a.drop_last();
        assert(a =~= c.push(x));
        assert(a.to_multiset().count(x) > 0);
        assert(b.contains(x));
        let at = choose|i: int| 0 <= i < b.len() && b[i] == x;
        let d = b.remove(at);
        assert(d.to_multiset() =~= b.to_multiset().remove(x));
        assert(c.to_multiset() =~= a.to_multiset().remove(x));
        the_order_of_visits_makes_no_difference(c, d, settings);
        let p = b.take(at);
        let q = b.skip(at + 1);
        assert(b =~= p + (seq![x] + q));
        assert(d.push(x) =~= p + (q + seq![x]));
        shares_may_be_measured_in_either_order(seq![x], q, settings);
        merging_shares_is_measuring_them_all(p, seq![x] + q, settings);
        merging_shares_is_measuring_them_all(p, q + seq![x], settings);
        assert(d.push(x).drop_last() =~= d);
        assert(summarise(d.push(x), settings) == summarise(d, settings).with(x, settings));
    }
}

/// The number and size of the measured files that satisfy `p`.
pub open spec fn tally_where(files: Seq<Option<FileFacts>>, p: spec_fn(FileFacts) -> bool) -> Tally
    decreases files.len(),
{
    if files.len() == 0 {
        Tally::zero()
    } else {
        let rest = tally_where(files.drop_last(), p);
        match files.last() {
            Some(f) => if p(f) {
                rest.plus(Tally::one(f.size as int))
            } else {
                rest
            },
            None => rest,
        }
    }
}

/// Each total is the number and size of exactly the files that belong to it.
pub proof fn each_total_counts_its_own_files(
    files: Seq<Option<FileFacts>>,
    settings: Settings,
    extension: Seq<char>,
    age: AgeBucket,
    size: SizeBand,
    directory: Seq<PartKey>,
)
    ensures
        value_or(summarise(files, settings).extensions, extension, Tally::zero()) == tally_where(
            files,
            |f: FileFacts| extension_text(f.name) == extension,
        ),
        value_or(summarise(files, settings).ages, age, Tally::zero()) == tally_where(
            files,
            |f: FileFacts| age_of(f.modified, settings.now) == age,
        ),
        value_or(summarise(files, settings).sizes, size, Tally::zero()) == tally_where(
            files,
            |f: FileFacts| size_band_of(f.size) == size,
        ),
        summarise(files, settings).small == tally_where(
            files,
            |f: FileFacts| f.size <= settings.small_at_or_below,
        ),
        settings.track_directories ==> value_or(
            summarise(files, settings).directories,
            directory,
            DirectoryTally::zero(),
        ) == (DirectoryTally {
            all: tally_where(files, |f: FileFacts| f.directory == directory),
            small: tally_where(
                files,
                |f: FileFacts|
                    f.directory == directory && f.size <= settings.small_at_or_below,
            ),
        }),
        !settings.track_directories ==> summarise(files, settings).directories == Map::<
            Seq<PartKey>,
            DirectoryTally,
        >::empty(),
    decreases files.len(),
{
    if files.len() > 0 {
        each_total_counts_its_own_files(
            files.drop_last(),
            settings,
            extension,
            age,
            size,
            directory,
        );
    }
}

proof fn total_after_bump<Q>(m: Map<Q, Tally>, k: Q, more: Tally)
    requires
        m.dom().finite(),
    ensures
        bumped(m, k, more).dom().finite(),
        total_of(bumped(m, k, more), counts()) == total_of(m, counts()) + more.count,
        total_of(bumped(m, k, more), byte_counts()) == total_of(m, byte_counts()) + more.bytes,
{
    let sum = value_or(m, k, Tally::zero()).plus(more);
    let c = m.map_values(counts());
    let b = m.map_values(byte_counts());
    assert forall|q: Q| #[trigger] bumped(m, k, more).dom().contains(q) implies {
        &&& bumped(m, k, more).map_values(counts())[q] == c.insert(k, sum.count)[q]
        &&& bumped(m, k, more).map_values(byte_counts())[q] == b.insert(k, sum.bytes)[q]
    } by {
        if q != k {
            assert(m.dom().contains(q));
        }
    }
    assert(bumped(m, k, more).map_values(counts()) =~= c.insert(k, sum.count));
    assert(bumped(m, k, more).map_values(byte_counts()) =~= b.insert(k, sum.bytes));
    assert(c.dom() =~= m.dom());
    assert(b.dom() =~= m.dom());
    map_sum_after_insert(c, k, sum.count);
    map_sum_after_insert(b, k, sum.bytes);
}

/// Every report accounts for every measured file exactly once: the totals by
/// extension, by age and by size all add up to the same files and bytes.
pub proof fn every_report_accounts_for_every_file(
    files: Seq<Option<FileFacts>>,
    settings: Settings,
)
    ensures
        ({
            let s = summarise(files, settings);
            let all = tally_where(files, |f: FileFacts| true);
            &&& s.extensions.dom().finite() && s.ages.dom().finite() && s.sizes.dom().finite()
            &&& grand_total(s.extensions) == all
            &&& grand_total(s.ages) == all
            &&& grand_total(s.sizes) == all
            &&& all.count + s.unmeasurable == files.len()
        }),
    decreases files.len(),
{
    if files.len() == 0 {
        let s = summarise(files, settings);
        assert(s.extensions.map_values(counts()).dom() =~= Set::empty());
        assert(s.extensions.map_values(byte_counts()).dom() =~= Set::empty());
        assert(s.ages.map_values(counts()).dom() =~= Set::empty());
        assert(s.ages.map_values(byte_counts()).dom() =~= Set::empty());
        assert(s.sizes.map_values(counts()).dom() =~= Set::empty());
        assert(s.sizes.map_values(byte_counts()).dom() =~= Set::empty());
    } else {
        every_report_accounts_for_every_file(files.drop_last(), settings);
        let s = summarise(files.drop_last(), settings);
        match files.last() {
            Some(f) => {
                let one = Tally::one(f.size as int);
                total_after_bump(s.extensions, extension_text(f.name), one);
                total_after_bump(s.ages, age_of(f.modified, settings.now), one);
                total_after_bump(s.sizes, size_band_of(f.size), one);
            },
            None => {},
        }
    }
}

/// However the files are divided into shares, the shares put together are what
/// measuring every file in one go would have given.
pub proof fn dividing_the_files_makes_no_difference(
    shares: Seq<Seq<Option<FileFacts>>>,
    settings: Settings,
)
    ensures
        combined(
            Seq::new(shares.len(), |i: int| summarise(shares[i], settings)),
            settings.top,
        ) == summarise(shares.flatten(), settings),
    decreases shares.len(),
{
    let each = Seq::new(shares.len(), |i: int| summarise(shares[i], settings));
    if shares.len() > 0 {
        let rest = shares.drop_last();
        dividing_the_files_makes_no_difference(rest, settings);
        assert(each.drop_last() =~= Seq::new(rest.len(), |i: int| summarise(rest[i], settings)));
        merging_shares_is_measuring_them_all(rest.flatten(), shares.last(), settings);
        rest.lemma_flatten_push(shares.last());
        assert(rest.push(shares.last()) =~= shares);
    }
}

/// Small files are some of the files: the share of them lies between nothing
/// and everything, over the whole scan and in each directory.
pub proof fn shares_lie_between_nothing_and_everything(
    files: Seq<Option<FileFacts>>,
    settings: Settings,
    directory: Seq<PartKey>,
)
    ensures
        ({
            let s = summarise(files, settings);
            let held = value_or(s.directories, directory, DirectoryTally::zero());
            &&& 0 <= s.small.count <= grand_total(s.extensions).count
            &&& 0 <= s.small.bytes <= grand_total(s.extensions).bytes
            &&& 0 <= held.small.count <= held.all.count
            &&& 0 <= held.small.bytes <= held.all.bytes
        }),
    decreases files.len(),
{
    every_report_accounts_for_every_file(files, settings);
    if files.len() > 0 {
        shares_lie_between_nothing_and_everything(files.drop_last(), settings, directory);
        every_report_accounts_for_every_file(files.drop_last(), settings);
    }
}

/// Asking for more or fewer of the largest files, or for no hotspots, changes
/// none of the other figures: the small-file total in particular covers the
/// whole scan whether or not the hotspot report is on.
pub proof fn turning_a_report_off_changes_no_other(
    files: Seq<Option<FileFacts>>,
    settings: Settings,
    other: Settings,
)
    requires
        settings.small_at_or_below == other.small_at_or_below,
        settings.now == other.now,
    ensures
        ({
            let s = summarise(files, settings);
            let t = summarise(files, other);
            &&& s.extensions == t.extensions
            &&& s.ages == t.ages
            &&& s.sizes == t.sizes
            &&& s.small == t.small
            &&& s.unmeasurable == t.unmeasurable
            &&& settings.track_directories == other.track_directories ==> s.directories
                == t.directories
            &&& settings.top == other.top ==> s.largest == t.largest
        }),
    decreases files.len(),
{
    if files.len() > 0 {
        turning_a_report_off_changes_no_other(files.drop_last(), settings, other);
    }
}

} // verus!
