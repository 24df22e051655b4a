//! What measuring a set of files adds up to.
//!
//! Everything here is exact and unbounded: the accumulators of a scan are
//! stated in terms of it, and the promises that the scan makes about how work
//! may be divided are proved of it.

use crate::bands::{age_of, size_band_of, AgeBucket, SizeBand, Timestamp};
use crate::order::{Ordered, Rank};
use crate::path::{extension_text, joined, parts_precede, FilePath, PartKey};
use crate::ranking::{
    leading, leading_of_leading, ranked, ranked_ignores_arrival, ranked_is_in_order,
};
use crate::sorted_map::value_or;
use crate::tally::{fits, DirectoryTally, Tally};
use std::cmp::Ordering;
use vstd::prelude::*;
use vstd::std_specs::cmp::PartialOrdSpecImpl;

verus! {

/// One of the largest files seen during a scan.
#[derive(Debug, Clone, PartialEq, Eq)]
pub struct LargestFile {
    pub path: FilePath,
    pub bytes: u64,
}

/// What the order of the largest files looks at: path and size.
pub type FileKey = (Seq<PartKey>, u64);

impl Ordered for LargestFile {
    type Key = FileKey;

    open spec fn key(&self) -> FileKey {
        (self.path.components(), self.bytes)
    }

    /// Bigger first, and for equal sizes the earlier path, so output does not
    /// depend on the order threads happened to visit files in.
    open spec fn precedes(a: FileKey, b: FileKey) -> bool {
        a.1 > b.1 || (a.1 == b.1 && parts_precede(a.0, b.0))
    }

    proof fn order_laws(a: FileKey, b: FileKey, c: FileKey) {
        FilePath::order_laws(a.0, b.0, c.0);
    }

    fn rank(&self, other: &Self) -> (r: Rank) {
        proof {
            let mine = self.path.components();
            FilePath::order_laws(mine, other.path.components(), mine);
        }
        if self.bytes > other.bytes {
            Rank::First
        } else if self.bytes < other.bytes {
            Rank::Second
        } else {
            self.path.rank(&other.path)
        }
    }
}

impl PartialOrd for LargestFile {
    /// Greater means "belongs nearer the top of the report".
    fn partial_cmp(&self, other: &Self) -> (r: Option<Ordering>) {
        match self.rank(other) {
            Rank::First => Some(Ordering::Greater),
            Rank::Same => Some(Ordering::Equal),
            Rank::Second => Some(Ordering::Less),
        }
    }
}

impl PartialOrdSpecImpl for LargestFile {
    open spec fn obeys_partial_cmp_spec() -> bool {
        true
    }

    open spec fn partial_cmp_spec(&self, other: &Self) -> Option<Ordering> {
        if LargestFile::precedes(self.key(), other.key()) {
            Some(Ordering::Greater)
        } else if LargestFile::precedes(other.key(), self.key()) {
            Some(Ordering::Less)
        } else {
            Some(Ordering::Equal)
        }
    }
}

/// What the scan looks at in a file it could measure.
pub struct FileFacts {
    pub name: Seq<u8>,
    pub directory: Seq<PartKey>,
    pub size: u64,
    pub modified: Option<Timestamp>,
}

impl FileFacts {
    pub open spec fn largest_key(self) -> FileKey {
        (joined(self.directory, self.name), self.size)
    }
}

/// What the outcome of measuring depends on besides the files.
pub struct Settings {
    /// How many of the largest files to keep.
    pub top: nat,
    /// Whether to keep totals per directory.
    pub track_directories: bool,
    /// A file this size or smaller counts as small.
    pub small_at_or_below: u64,
    /// The instant that ages are measured against.
    pub now: Timestamp,
}

/// `m` with `more` added to what it holds under `k`.
pub open spec fn bumped<Q>(m: Map<Q, Tally>, k: Q, more: Tally) -> Map<Q, Tally> {
    m.insert(k, value_or(m, k, Tally::zero()).plus(more))
}

/// `m` with `more` added to what it holds under `k`.
pub open spec fn bumped_directory<Q>(
    m: Map<Q, DirectoryTally>,
    k: Q,
    more: DirectoryTally,
) -> Map<Q, DirectoryTally> {
    m.insert(k, value_or(m, k, DirectoryTally::zero()).plus(more))
}

/// The two maps added together, key by key.
pub open spec fn merged<Q>(a: Map<Q, Tally>, b: Map<Q, Tally>) -> Map<Q, Tally> {
    Map::new(
        |k: Q| a.dom().contains(k) || b.dom().contains(k),
        |k: Q| value_or(a, k, Tally::zero()).plus(value_or(b, k, Tally::zero())),
    )
}

/// The two maps added together, key by key.
pub open spec fn merged_directories<Q>(
    a: Map<Q, DirectoryTally>,
    b: Map<Q, DirectoryTally>,
) -> Map<Q, DirectoryTally> {
    Map::new(
        |k: Q| a.dom().contains(k) || b.dom().contains(k),
        |k: Q|
            value_or(a, k, DirectoryTally::zero()).plus(value_or(b, k, DirectoryTally::zero())),
    )
}

pub open spec fn all_fit<Q>(m: Map<Q, Tally>) -> bool {
    forall|k: Q| #[trigger] m.dom().contains(k) ==> m[k].fits()
}

pub open spec fn all_directories_fit<Q>(m: Map<Q, DirectoryTally>) -> bool {
    forall|k: Q| #[trigger] m.dom().contains(k) ==> m[k].fits()
}

/// The largest files kept once `more` have been offered. A list that has
/// already grown past `top` does not shrink.
pub open spec fn kept(largest: Seq<FileKey>, more: Seq<FileKey>, top: nat) -> Seq<FileKey> {
    leading::<LargestFile>(
        largest + more,
        if largest.len() > top {
            largest.len()
        } else {
            top
        },
    )
}

/// What a set of files adds up to.
#[verifier::ext_equal]
pub struct Summary {
    pub extensions: Map<Seq<char>, Tally>,
    pub ages: Map<AgeBucket, Tally>,
    pub sizes: Map<SizeBand, Tally>,
    pub directories: Map<Seq<PartKey>, DirectoryTally>,
    /// Every file at or below the small-file threshold.
    pub small: Tally,
    pub largest: Seq<FileKey>,
    /// Files listed by the walk that could not be measured.
    pub unmeasurable: int,
}

impl Summary {
    pub open spec fn empty() -> Summary {
        Summary {
            extensions: Map::empty(),
            ages: Map::empty(),
            sizes: Map::empty(),
            directories: Map::empty(),
            small: Tally::zero(),
            largest: Seq::empty(),
            unmeasurable: 0,
        }
    }

    /// With one more file measured.
    pub open spec fn with_file(self, file: FileFacts, settings: Settings) -> Summary {
        let one = Tally::one(file.size as int);
        Summary {
            extensions: bumped(self.extensions, extension_text(file.name), one),
            ages: bumped(self.ages, age_of(file.modified, settings.now), one),
            sizes: bumped(self.sizes, size_band_of(file.size), one),
            directories: if settings.track_directories {
                bumped_directory(
                    self.directories,
                    file.directory,
                    DirectoryTally::one(file.size as int, settings.small_at_or_below as int),
                )
            } else {
                self.directories
            },
            small: if file.size <= settings.small_at_or_below {
                self.small.plus(one)
            } else {
                self.small
            },
            largest: if settings.top == 0 {
                self.largest
            } else {
                kept(self.largest, seq![file.largest_key()], settings.top)
            },
            unmeasurable: self.unmeasurable,
        }
    }

    /// With one more file accounted for, which is `None` if it could not be
    /// measured.
    pub open spec fn with(self, file: Option<FileFacts>, settings: Settings) -> Summary {
        match file {
            Some(facts) => self.with_file(facts, settings),
            None => Summary { unmeasurable: self.unmeasurable + 1, ..self },
        }
    }

    /// With everything that went into `other` as well.
    pub open spec fn merge(self, other: Summary, top: nat) -> Summary {
        Summary {
            extensions: merged(self.extensions, other.extensions),
            ages: merged(self.ages, other.ages),
            sizes: merged(self.sizes, other.sizes),
            directories: merged_directories(self.directories, other.directories),
            small: self.small.plus(other.small),
            largest: kept(self.largest, other.largest, top),
            unmeasurable: self.unmeasurable + other.unmeasurable,
        }
    }

    /// Every total fits the counter it is kept in.
    pub open spec fn fits(self) -> bool {
        &&& all_fit(self.extensions)
        &&& all_fit(self.ages)
        &&& all_fit(self.sizes)
        &&& all_directories_fit(self.directories)
        &&& self.small.fits()
        &&& fits(self.unmeasurable)
    }
}

/// What a sequence of files adds up to.
pub open spec fn summarise(files: Seq<Option<FileFacts>>, settings: Settings) -> Summary
    decreases files.len(),
{
    if files.len() == 0 {
        Summary::empty()
    } else {
        summarise(files.drop_last(), settings).with(files.last(), settings)
    }
}

/// Offering files to a list of the largest keeps the leading ones of both, as
/// many as were asked for, or as many as the list already had if that is more.
pub proof fn offered_files_compete_with_the_listed(
    largest: Seq<FileKey>,
    more: Seq<FileKey>,
    top: nat,
)
    ensures
        ({
            let r = kept(largest, more, top);
            let all = largest.len() + more.len();
            &&& largest.len() <= top && all <= top ==> r.len() == all
            &&& largest.len() <= top && all > top ==> r.len() == top
            &&& largest.len() > top ==> r.len() == largest.len()
            &&& forall|i: int, j: int|
                0 <= i < j < r.len() ==> (#[trigger] r[i]).1 > (#[trigger] r[j]).1 || (r[i].1
                    == r[j].1 && !parts_precede(r[j].0, r[i].0))
            &&& r.len() == all ==> r.to_multiset() == (largest + more).to_multiset()
        }),
{
    ranked_is_in_order::<LargestFile>(largest + more);
    let order = ranked::<LargestFile>(largest + more);
    let r = kept(largest, more, top);
    assert forall|i: int, j: int| 0 <= i < j < r.len() implies (#[trigger] r[i]).1 > (#[trigger]
    r[j]).1 || (r[i].1 == r[j].1 && !parts_precede(r[j].0, r[i].0)) by {
        assert(!LargestFile::precedes(order[j], order[i]));
    }
    if r.len() == largest.len() + more.len() {
        assert(r =~= order);
    }
}

/// No list of largest files is longer than was asked for.
pub proof fn at_most_top_files_are_kept(files: Seq<Option<FileFacts>>, settings: Settings)
    ensures
        summarise(files, settings).largest.len() <= settings.top,
    decreases files.len(),
{
    if files.len() > 0 {
        let before = summarise(files.drop_last(), settings);
        at_most_top_files_are_kept(files.drop_last(), settings);
        match files.last() {
            Some(f) => {
                ranked_is_in_order::<LargestFile>(before.largest + seq![f.largest_key()]);
            },
            None => {},
        }
    }
}

/// Totals only ever grow, so if they fit in the end they fitted all along.
pub proof fn fitting_is_inherited(summary: Summary, file: Option<FileFacts>, settings: Settings)
    requires
        summary.with(file, settings).fits(),
        summary.non_negative(),
    ensures
        summary.fits(),
{
    match file {
        Some(f) => {
            let one = Tally::one(f.size as int);
            bumped_fits(summary.extensions, extension_text(f.name), one);
            bumped_fits(summary.ages, age_of(f.modified, settings.now), one);
            bumped_fits(summary.sizes, size_band_of(f.size), one);
            bumped_directory_fits(
                summary.directories,
                f.directory,
                DirectoryTally::one(f.size as int, settings.small_at_or_below as int),
            );
        },
        None => {},
    }
}

impl Tally {
    pub open spec fn non_negative(self) -> bool {
        self.count >= 0 && self.bytes >= 0
    }
}

impl DirectoryTally {
    pub open spec fn non_negative(self) -> bool {
        self.all.non_negative() && self.small.non_negative()
    }
}

impl Summary {
    /// No total is negative.
    pub open spec fn non_negative(self) -> bool {
        &&& forall|k: Seq<char>| #[trigger] self.extensions.dom().contains(k)
            ==> self.extensions[k].non_negative()
        &&& forall|k: AgeBucket| #[trigger] self.ages.dom().contains(k)
            ==> self.ages[k].non_negative()
        &&& forall|k: SizeBand| #[trigger] self.sizes.dom().contains(k)
            ==> self.sizes[k].non_negative()
        &&& forall|k: Seq<PartKey>| #[trigger] self.directories.dom().contains(k)
            ==> self.directories[k].non_negative()
        &&& self.small.non_negative()
        &&& self.unmeasurable >= 0
    }
}

/// Whether everything fits after a bump depends on the one entry bumped.
pub proof fn bumped_fits<Q>(m: Map<Q, Tally>, k: Q, more: Tally)
    requires
        more.non_negative(),
    ensures
        all_fit(m) ==> (all_fit(bumped(m, k, more)) <==> value_or(m, k, Tally::zero()).plus(
            more,
        ).fits()),
        all_fit(bumped(m, k, more)) && (forall|q: Q| #[trigger] m.dom().contains(q)
            ==> m[q].non_negative()) ==> all_fit(m),
{
    let b = bumped(m, k, more);
    assert(b.dom().contains(k));
    if all_fit(b) && (forall|q: Q| #[trigger] m.dom().contains(q) ==> m[q].non_negative()) {
        assert forall|q: Q| #[trigger] m.dom().contains(q) implies m[q].fits() by {
            assert(b.dom().contains(q));
            assert(b[q].fits());
        }
    }
    if all_fit(m) && value_or(m, k, Tally::zero()).plus(more).fits() {
        assert forall|q: Q| #[trigger] b.dom().contains(q) implies b[q].fits() by {
            if q != k {
                assert(m.dom().contains(q));
            }
        }
    }
}

/// Whether everything fits after a bump depends on the one entry bumped.
pub proof fn bumped_directory_fits<Q>(m: Map<Q, DirectoryTally>, k: Q, more: DirectoryTally)
    requires
        more.non_negative(),
    ensures
        all_directories_fit(m) ==> (all_directories_fit(bumped_directory(m, k, more)) <==> value_or(
            m,
            k,
            DirectoryTally::zero(),
        ).plus(more).fits()),
        all_directories_fit(bumped_directory(m, k, more)) && (forall|q: Q| #[trigger]
            m.dom().contains(q) ==> m[q].non_negative()) ==> all_directories_fit(m),
{
    let b = bumped_directory(m, k, more);
    assert(b.dom().contains(k));
    if all_directories_fit(b) && (forall|q: Q| #[trigger] m.dom().contains(q)
        ==> m[q].non_negative()) {
        assert forall|q: Q| #[trigger] m.dom().contains(q) implies m[q].fits() by {
            assert(b.dom().contains(q));
            assert(b[q].fits());
        }
    }
    if all_directories_fit(m) && value_or(m, k, DirectoryTally::zero()).plus(more).fits() {
        assert forall|q: Q| #[trigger] b.dom().contains(q) implies b[q].fits() by {
            if q != k {
                assert(m.dom().contains(q));
            }
        }
    }
}

proof fn merged_bump<Q>(a: Map<Q, Tally>, b: Map<Q, Tally>, k: Q, more: Tally)
    ensures
        merged(a, bumped(b, k, more)) == bumped(merged(a, b), k, more),
        merged(a, Map::empty()) == a,
        merged(a, b) == merged(b, a),
{
    assert(merged(a, bumped(b, k, more)) =~= bumped(merged(a, b), k, more));
    assert(merged(a, Map::empty()) =~= a);
    assert(merged(a, b) =~= merged(b, a));
}

proof fn merged_directory_bump<Q>(
    a: Map<Q, DirectoryTally>,
    b: Map<Q, DirectoryTally>,
    k: Q,
    more: DirectoryTally,
)
    ensures
        merged_directories(a, bumped_directory(b, k, more)) == bumped_directory(
            merged_directories(a, b),
            k,
            more,
        ),
        merged_directories(a, Map::empty()) == a,
        merged_directories(a, b) == merged_directories(b, a),
{
    let zero = DirectoryTally::zero();
    let left = merged_directories(a, bumped_directory(b, k, more));
    let right = bumped_directory(merged_directories(a, b), k, more);
    assert forall|q: Q| #[trigger] left.dom().contains(q) implies left[q] == right[q] by {
        let x = value_or(a, q, zero);
        let y = value_or(b, q, zero);
        if q == k {
            assert(left[k] == x.plus(y.plus(more)));
            assert(value_or(merged_directories(a, b), k, zero) == x.plus(y));
            assert(right[k] == x.plus(y).plus(more));
        } else {
            assert(left[q] == x.plus(y));
            assert(merged_directories(a, b)[q] == x.plus(y));
        }
    }
    assert(left =~= right);
    assert(merged_directories(a, Map::empty()) =~= a);
    assert(merged_directories(a, b) =~= merged_directories(b, a));
}

/// Splitting the work makes no difference: measuring two shares of the files
/// separately and merging the outcomes gives what measuring them all gives.
pub proof fn merging_shares_is_measuring_them_all(
    a: Seq<Option<FileFacts>>,
    b: Seq<Option<FileFacts>>,
    settings: Settings,
)
    ensures
        summarise(a, settings).merge(summarise(b, settings), settings.top) == summarise(
            a + b,
            settings,
        ),
    decreases b.len(),
{
    let s = summarise(a, settings);
    at_most_top_files_are_kept(a, settings);
    at_most_top_files_are_kept(a + b, settings);
    at_most_top_files_are_kept(b, settings);
    largest_are_the_leading_files(a, settings);
    if b.len() == 0 {
        assert(a + b =~= a);
        merged_bump(s.extensions, s.extensions, Seq::empty(), Tally::zero());
        merged_bump(s.ages, s.ages, AgeBucket::Unknown, Tally::zero());
        merged_bump(s.sizes, s.sizes, SizeBand::Empty, Tally::zero());
        merged_directory_bump(s.directories, s.directories, Seq::empty(), DirectoryTally::zero());
        assert(s.largest + Seq::<FileKey>::empty() =~= s.largest);
        assert(kept(s.largest, Seq::empty(), settings.top) == s.largest) by {
            let all = measured_keys(a);
            leading_of_leading::<LargestFile>(all, Seq::empty(), settings.top);
            assert(all + Seq::<FileKey>::empty() =~= all);
        }
        assert(s.merge(Summary::empty(), settings.top) =~= s);
    } else {
        let c = b.drop_last();
        let t = summarise(c, settings);
        merging_shares_is_measuring_them_all(a, c, settings);
        at_most_top_files_are_kept(c, settings);
        largest_are_the_leading_files(a + c, settings);
        largest_are_the_leading_files(b, settings);
        largest_are_the_leading_files(a + b, settings);
        assert((a + b).drop_last() =~= a + c);
        assert((a + b).last() == b.last());
        match b.last() {
            Some(f) => {
                let one = Tally::one(f.size as int);
                merged_bump(s.extensions, t.extensions, extension_text(f.name), one);
                merged_bump(s.ages, t.ages, age_of(f.modified, settings.now), one);
                merged_bump(s.sizes, t.sizes, size_band_of(f.size), one);
                merged_directory_bump(
                    s.directories,
                    t.directories,
                    f.directory,
                    DirectoryTally::one(f.size as int, settings.small_at_or_below as int),
                );
            },
            None => {},
        }
        kept_of_shares(measured_keys(a), measured_keys(b), settings.top);
        measured_keys_of_shares(a, b);
        assert(s.merge(summarise(b, settings), settings.top) =~= summarise(a + b, settings));
    }
}

/// The files that could be measured, as the order of the largest sees them.
pub open spec fn measured_keys(files: Seq<Option<FileFacts>>) -> Seq<FileKey>
    decreases files.len(),
{
    if files.len() == 0 {
        Seq::empty()
    } else {
        let rest = measured_keys(files.drop_last());
        match files.last() {
            Some(f) => rest.push(f.largest_key()),
            None => rest,
        }
    }
}

proof fn measured_keys_of_shares(a: Seq<Option<FileFacts>>, b: Seq<Option<FileFacts>>)
    ensures
        measured_keys(a + b) == measured_keys(a) + measured_keys(b),
    decreases b.len(),
{
    if b.len() == 0 {
        assert(a + b =~= a);
        assert(measured_keys(a) + Seq::<FileKey>::empty() =~= measured_keys(a));
    } else {
        measured_keys_of_shares(a, b.drop_last());
        assert((a + b).drop_last() =~= a + b.drop_last());
        assert(measured_keys(a + b) =~= measured_keys(a) + measured_keys(b));
    }
}

proof fn kept_of_shares(a: Seq<FileKey>, b: Seq<FileKey>, top: nat)
    ensures
        kept(leading::<LargestFile>(a, top), leading::<LargestFile>(b, top), top)
            == leading::<LargestFile>(a + b, top),
{
    let x = leading::<LargestFile>(a, top);
    let y = leading::<LargestFile>(b, top);
    ranked_is_in_order::<LargestFile>(a);
    leading_ignores_sides(x, y, top);
    leading_of_leading::<LargestFile>(b, x, top);
    leading_ignores_sides(b, x, top);
    leading_of_leading::<LargestFile>(a, b, top);
}

pub proof fn leading_ignores_sides(a: Seq<FileKey>, b: Seq<FileKey>, top: nat)
    ensures
        leading::<LargestFile>(a + b, top) == leading::<LargestFile>(b + a, top),
{
    vstd::seq_lib::lemma_multiset_commutative(a, b);
    vstd::seq_lib::lemma_multiset_commutative(b, a);
    assert((a + b).to_multiset() =~= (b + a).to_multiset());
    ranked_ignores_arrival::<LargestFile>(a + b, b + a);
}

/// The files kept are the `top` largest of all that were measured, biggest
/// first, with the earlier path ahead where sizes are equal.
pub proof fn largest_are_the_leading_files(files: Seq<Option<FileFacts>>, settings: Settings)
    ensures
        summarise(files, settings).largest == leading::<LargestFile>(
            measured_keys(files),
            settings.top,
        ),
    decreases files.len(),
{
    ranked_is_in_order::<LargestFile>(measured_keys(files));
    if files.len() == 0 {
        assert(leading::<LargestFile>(Seq::empty(), settings.top) =~= Seq::<FileKey>::empty());
    } else {
        let c = files.drop_last();
        let before = summarise(c, settings);
        largest_are_the_leading_files(c, settings);
        at_most_top_files_are_kept(c, settings);
        match files.last() {
            Some(f) => {
                let x = seq![f.largest_key()];
                if settings.top == 0 {
                    assert(leading::<LargestFile>(measured_keys(files), 0) =~= Seq::<
                        FileKey,
                    >::empty());
                    ranked_is_in_order::<LargestFile>(measured_keys(c));
                    assert(leading::<LargestFile>(measured_keys(c), 0) =~= Seq::<FileKey>::empty());
                } else {
                    leading_of_leading::<LargestFile>(measured_keys(c), x, settings.top);
                    assert(measured_keys(files) =~= measured_keys(c) + x);
                }
            },
            None => {},
        }
    }
}

/// Sums of sizes are never negative.
pub proof fn summaries_are_non_negative(files: Seq<Option<FileFacts>>, settings: Settings)
    ensures
        summarise(files, settings).non_negative(),
    decreases files.len(),
{
    if files.len() > 0 {
        summaries_are_non_negative(files.drop_last(), settings);
    }
}

/// If the totals of all the files fit, so do those of the files up to any
/// point.
pub proof fn fitting_is_inherited_by_prefixes(
    files: Seq<Option<FileFacts>>,
    n: int,
    settings: Settings,
)
    requires
        0 <= n <= files.len(),
        summarise(files, settings).fits(),
    ensures
        summarise(files.take(n), settings).fits(),
    decreases files.len(),
{
    if n < files.len() {
        summaries_are_non_negative(files.drop_last(), settings);
        fitting_is_inherited(
            summarise(files.drop_last(), settings),
            files.last(),
            settings,
        );
        fitting_is_inherited_by_prefixes(files.drop_last(), n, settings);
        assert(files.drop_last().take(n) =~= files.take(n));
    } else {
        assert(files.take(n) =~= files);
    }
}

/// What several shares come to together.
pub open spec fn combined(shares: Seq<Summary>, top: nat) -> Summary
    decreases shares.len(),
{
    if shares.len() == 0 {
        Summary::empty()
    } else {
        combined(shares.drop_last(), top).merge(shares.last(), top)
    }
}

/// If two shares fit together, the first fits on its own.
pub proof fn fitting_is_inherited_by_shares(a: Summary, b: Summary, top: nat)
    requires
        a.non_negative(),
        b.non_negative(),
        a.merge(b, top).fits(),
    ensures
        a.fits(),
{
    let all = a.merge(b, top);
    assert forall|k: Seq<char>| #[trigger]
        a.extensions.dom().contains(k) implies a.extensions[k].fits() by {
        assert(all.extensions.dom().contains(k));
    }
    assert forall|k: AgeBucket| #[trigger] a.ages.dom().contains(k) implies a.ages[k].fits() by {
        assert(all.ages.dom().contains(k));
    }
    assert forall|k: SizeBand| #[trigger] a.sizes.dom().contains(k) implies a.sizes[k].fits() by {
        assert(all.sizes.dom().contains(k));
    }
    assert forall|k: Seq<PartKey>| #[trigger]
        a.directories.dom().contains(k) implies a.directories[k].fits() by {
        assert(all.directories.dom().contains(k));
    }
}

/// Shares that are never negative never add up to less than nothing.
pub proof fn combined_is_non_negative(shares: Seq<Summary>, top: nat)
    requires
        forall|i: int| 0 <= i < shares.len() ==> (#[trigger] shares[i]).non_negative(),
    ensures
        combined(shares, top).non_negative(),
    decreases shares.len(),
{
    if shares.len() > 0 {
        let rest = shares.drop_last();
        assert forall|i: int| 0 <= i < rest.len() implies (#[trigger] rest[i]).non_negative() by {
            assert(shares[i].non_negative());
        }
        combined_is_non_negative(rest, top);
        assert(shares.last() == shares[shares.len() - 1]);
    }
}

/// If all the shares fit together, so do the first of them.
pub proof fn fitting_is_inherited_by_earlier_shares(shares: Seq<Summary>, n: int, top: nat)
    requires
        0 <= n <= shares.len(),
        forall|i: int| 0 <= i < shares.len() ==> (#[trigger] shares[i]).non_negative(),
        combined(shares, top).fits(),
    ensures
        combined(shares.take(n), top).fits(),
    decreases shares.len(),
{
    if n == shares.len() {
        assert(shares.take(n) =~= shares);
    } else {
        let rest = shares.drop_last();
        assert forall|i: int| 0 <= i < rest.len() implies (#[trigger] rest[i]).non_negative() by {
            assert(shares[i].non_negative());
        }
        combined_is_non_negative(rest, top);
        assert(shares[shares.len() - 1].non_negative());
        fitting_is_inherited_by_shares(combined(rest, top), shares.last(), top);
        fitting_is_inherited_by_earlier_shares(rest, n, top);
        assert(rest.take(n) =~= shares.take(n));
    }
}

} // verus!
