//! Measuring files: one accumulator per share of the work, merged at the end.

use crate::bands::{
    age_of, classify_age, classify_size, size_band_of, AgeBucket, SizeBand, Timestamp,
};
use crate::options::ScanOptions;
use crate::order::{Ordered, Rank};
use crate::path::{extension_of, extension_text, joined, spelled, FilePath, PartKey, Spelling};
use crate::ranking::{
    in_order, insert_in_order, keys, leading_of_leading, placed_keeps_order,
    ranked_ignores_arrival, ranked_is_in_order, ranked_of_ordered,
};
use crate::sorted_map::{both, lemma_map_of, value_or, SortedMap};
use crate::summary::{
    all_directories_fit, all_fit, bumped, bumped_directory, bumped_directory_fits, bumped_fits,
    combined, fitting_is_inherited_by_earlier_shares, fitting_is_inherited_by_prefixes, kept,
    leading_ignores_sides, merged, merged_directories, summarise, FileFacts, FileKey, LargestFile,
    Summary,
};
use crate::tally::{fits, Bucket, DirectoryStats, DirectoryTally, Tally};
use vstd::prelude::*;

verus! {

/// What the scan needs to know of a file it could measure.
#[derive(Debug)]
pub struct FileRecord {
    pub name: Vec<u8>,
    /// The directory holding the file.
    pub directory: FilePath,
    pub size: u64,
    pub modified: Option<Timestamp>,
}

impl View for FileRecord {
    type V = FileFacts;

    open spec fn view(&self) -> FileFacts {
        FileFacts {
            name: self.name@,
            directory: self.directory.components(),
            size: self.size,
            modified: self.modified,
        }
    }
}

impl FileRecord {
    /// Whether the directory is spelled as `spelling` says, and the file in it
    /// too.
    pub open spec fn spelled_by(&self, spelling: Spelling) -> bool {
        &&& self.directory.spelled_by(spelling)
        &&& self.directory.joined_spelling(self.name@) == spelling(self@.largest_key().0)
    }
}

/// What came of measuring one listed file.
#[derive(Debug)]
pub enum Measurement {
    Measured(FileRecord),
    /// The file vanished or became unreadable after it was listed.
    Failed,
}

impl View for Measurement {
    type V = Option<FileFacts>;

    open spec fn view(&self) -> Option<FileFacts> {
        match self {
            Measurement::Measured(file) => Some(file@),
            Measurement::Failed => None,
        }
    }
}

impl Measurement {
    /// Whether the file is spelled as `spelling` says.
    pub open spec fn spelled_by(&self, spelling: Spelling) -> bool {
        match self {
            Measurement::Measured(file) => file.spelled_by(spelling),
            Measurement::Failed => true,
        }
    }
}

/// Progress reporting hook, so the scan itself stays free of terminal output.
pub trait Progress: Sync {
    /// Called once, after the walk finishes and before any file is measured.
    fn files_listed(&self, _total: u64) {
    }

    /// Called once per file, from whichever worker thread handles it.
    fn file_measured(&self) {
    }
}

/// A [`Progress`] implementation that reports nothing.
pub struct NoProgress;

impl Progress for NoProgress {

}

/// The exact totals that a map of buckets holds.
pub open spec fn tallies<Q>(m: Map<Q, Bucket>) -> Map<Q, Tally> {
    m.map_values(|b: Bucket| b@)
}

/// The exact totals that a map of directories holds.
pub open spec fn directory_tallies<Q>(m: Map<Q, DirectoryStats>) -> Map<Q, DirectoryTally> {
    m.map_values(|s: DirectoryStats| s@)
}

/// The total under `key`, or an empty one.
fn bucket_in<K: Ordered>(map: &SortedMap<K, Bucket>, key: &K) -> (r: Bucket)
    requires
        map.well_formed(),
    ensures
        r@ == value_or(tallies(map.map()), key.key(), Tally::zero()),
{
    match map.get(key) {
        Some(bucket) => bucket,
        None => Bucket { count: 0, bytes: 0 },
    }
}

fn stats_in(map: &SortedMap<FilePath, DirectoryStats>, key: &FilePath) -> (r: DirectoryStats)
    requires
        map.well_formed(),
    ensures
        r@ == value_or(directory_tallies(map.map()), key.key(), DirectoryTally::zero()),
{
    match map.get(key) {
        Some(stats) => stats,
        None => DirectoryStats { files: 0, bytes: 0, small_files: 0, small_bytes: 0 },
    }
}

/// Add `more` to the total under `key`.
pub(crate) fn bump<K: Ordered>(map: &mut SortedMap<K, Bucket>, key: K, more: Bucket)
    requires
        old(map).well_formed(),
        value_or(tallies(old(map).map()), key.key(), Tally::zero()).plus(more@).fits(),
    ensures
        final(map).well_formed(),
        tallies(final(map).map()) == bumped(tallies(old(map).map()), key.key(), more@),
{
    let ghost before = map.map();
    let ghost k = key.key();
    let mut sum: Bucket = bucket_in(map, &key);
    sum.merge(more);
    map.set(key, sum);
    assert(tallies(map.map()) =~= bumped(tallies(before), k, more@));
}

fn bump_directory(
    map: &mut SortedMap<FilePath, DirectoryStats>,
    key: FilePath,
    more: DirectoryStats,
)
    requires
        old(map).well_formed(),
        value_or(directory_tallies(old(map).map()), key.key(), DirectoryTally::zero()).plus(
            more@,
        ).fits(),
    ensures
        final(map).well_formed(),
        directory_tallies(final(map).map()) == bumped_directory(
            directory_tallies(old(map).map()),
            key.key(),
            more@,
        ),
        forall|p: spec_fn(FilePath) -> bool|
            old(map).all_keys(p) && p(key) ==> #[trigger] final(map).all_keys(p),
{
    let ghost before = map.map();
    let ghost k = key.key();
    let mut sum: DirectoryStats = stats_in(map, &key);
    sum.merge(more);
    map.set(key, sum);
    assert(directory_tallies(map.map()) =~= bumped_directory(directory_tallies(before), k, more@));
}

/// Add every total of `source` to `map`.
fn merge_totals<K: Ordered>(map: &mut SortedMap<K, Bucket>, source: SortedMap<K, Bucket>)
    requires
        old(map).well_formed(),
        source.well_formed(),
        all_fit(merged(tallies(old(map).map()), tallies(source.map()))),
    ensures
        final(map).well_formed(),
        tallies(final(map).map()) == merged(tallies(old(map).map()), tallies(source.map())),
{
    let ghost a = map.map();
    let ghost b = source.map();
    let ghost whole = merged(tallies(a), tallies(b));
    proof {
        assert forall|k: K::Key| #[trigger]
            a.dom().contains(k) && b.dom().contains(k) implies a[k]@.plus(b[k]@).fits() by {
            assert(whole.dom().contains(k));
        }
    }
    map.merge(source);
    assert(tallies(both(a, b)) =~= whole);
}

fn merge_directories(
    map: &mut SortedMap<FilePath, DirectoryStats>,
    source: SortedMap<FilePath, DirectoryStats>,
)
    requires
        old(map).well_formed(),
        source.well_formed(),
        all_directories_fit(
            merged_directories(
                directory_tallies(old(map).map()),
                directory_tallies(source.map()),
            ),
        ),
    ensures
        final(map).well_formed(),
        directory_tallies(final(map).map()) == merged_directories(
            directory_tallies(old(map).map()),
            directory_tallies(source.map()),
        ),
        forall|p: spec_fn(FilePath) -> bool|
            old(map).all_keys(p) && source.all_keys(p) ==> #[trigger] final(map).all_keys(p),
{
    let ghost a = map.map();
    let ghost b = source.map();
    let ghost whole = merged_directories(directory_tallies(a), directory_tallies(b));
    proof {
        assert forall|k: Seq<PartKey>| #[trigger]
            a.dom().contains(k) && b.dom().contains(k) implies a[k]@.plus(b[k]@).fits() by {
            assert(whole.dom().contains(k));
        }
    }
    map.merge(source);
    assert(directory_tallies(both(a, b)) =~= whole);
}

/// Whether every total of the two maps added together still fits.
fn totals_can_merge<K: Ordered>(map: &SortedMap<K, Bucket>, other: &SortedMap<K, Bucket>) -> (r:
    bool)
    requires
        map.well_formed(),
        other.well_formed(),
    ensures
        r == all_fit(merged(tallies(map.map()), tallies(other.map()))),
{
    let ghost a = tallies(map.map());
    let ghost b = tallies(other.map());
    let ghost pairs = other.pairs();
    let mut i: usize = 0;
    while i < other.len()
        invariant
            map.well_formed(),
            other.well_formed(),
            a == tallies(map.map()),
            b == tallies(other.map()),
            pairs == other.pairs(),
            i <= pairs.len(),
            forall|j: int|
                0 <= j < i ==> value_or(a, (#[trigger] pairs[j]).0, Tally::zero()).plus(
                    pairs[j].1@,
                ).fits(),
        decreases pairs.len() - i,
    {
        proof {
            lemma_map_of::<K, Bucket>(pairs, i as int);
        }
        if bucket_in(map, other.key_at(i)).checked_merge(other.value_at(i)).is_none() {
            assert(merged(a, b).dom().contains(pairs[i as int].0));
            return false;
        }
        i = i + 1;
    }
    proof {
        assert forall|k: K::Key| #[trigger] merged(a, b).dom().contains(k) implies merged(
            a,
            b,
        )[k].fits() by {
            if b.dom().contains(k) {
                let j = choose|j: int| 0 <= j < pairs.len() && (#[trigger] pairs[j]).0 == k;
                lemma_map_of::<K, Bucket>(pairs, j);
            }
        }
    }
    true
}

fn directories_can_merge(
    map: &SortedMap<FilePath, DirectoryStats>,
    other: &SortedMap<FilePath, DirectoryStats>,
) -> (r: bool)
    requires
        map.well_formed(),
        other.well_formed(),
    ensures
        r == all_directories_fit(
            merged_directories(directory_tallies(map.map()), directory_tallies(other.map())),
        ),
{
    let ghost a = directory_tallies(map.map());
    let ghost b = directory_tallies(other.map());
    let ghost pairs = other.pairs();
    let mut i: usize = 0;
    while i < other.len()
        invariant
            map.well_formed(),
            other.well_formed(),
            a == directory_tallies(map.map()),
            b == directory_tallies(other.map()),
            pairs == other.pairs(),
            i <= pairs.len(),
            forall|j: int|
                0 <= j < i ==> value_or(a, (#[trigger] pairs[j]).0, DirectoryTally::zero()).plus(
                    pairs[j].1@,
                ).fits(),
        decreases pairs.len() - i,
    {
        proof {
            lemma_map_of::<FilePath, DirectoryStats>(pairs, i as int);
        }
        if stats_in(map, other.key_at(i)).checked_merge(other.value_at(i)).is_none() {
            assert(merged_directories(a, b).dom().contains(pairs[i as int].0));
            return false;
        }
        i = i + 1;
    }
    proof {
        assert forall|k: Seq<PartKey>| #[trigger]
            merged_directories(a, b).dom().contains(k) implies merged_directories(a, b)[k].fits() by {
            if b.dom().contains(k) {
                let j = choose|j: int| 0 <= j < pairs.len() && (#[trigger] pairs[j]).0 == k;
                lemma_map_of::<FilePath, DirectoryStats>(pairs, j);
            }
        }
    }
    true
}

/// Offering files one at a time comes to offering them together.
proof fn kept_one_by_one(largest: Seq<FileKey>, x: FileKey, more: Seq<FileKey>, top: nat)
    requires
        in_order::<LargestFile>(largest),
    ensures
        kept(kept(largest, seq![x], top), more, top) == kept(largest, more.push(x), top),
        kept(largest, Seq::empty(), top) == largest,
{
    let limit = if largest.len() > top {
        largest.len()
    } else {
        top
    };
    ranked_is_in_order::<LargestFile>(largest + seq![x]);
    ranked_is_in_order::<LargestFile>(largest);
    leading_of_leading::<LargestFile>(largest + seq![x], more, limit);
    assert(largest + seq![x] + more =~= largest + (seq![x] + more));
    leading_ignores_sides(seq![x], more, limit);
    assert((largest + seq![x] + more).to_multiset() =~= (largest + more.push(x)).to_multiset()) by {
        vstd::seq_lib::lemma_multiset_commutative(largest, seq![x] + more);
        vstd::seq_lib::lemma_multiset_commutative(largest, more.push(x));
        vstd::seq_lib::lemma_multiset_commutative(seq![x], more);
        vstd::seq_lib::lemma_multiset_commutative(more, seq![x]);
        assert(more.push(x) =~= more + seq![x]);
    }
    ranked_ignores_arrival::<LargestFile>(largest + seq![x] + more, largest + more.push(x));
    assert(largest + Seq::<FileKey>::empty() =~= largest);
    ranked_of_ordered::<LargestFile>(largest);
}

/// Whether every path is spelled as `spelling` says.
pub open spec fn largest_spelled_by(files: Seq<LargestFile>, spelling: Spelling) -> bool {
    forall|i: int| 0 <= i < files.len() ==> (#[trigger] files[i]).path.spelled_by(spelling)
}

/// Accumulator for one share of the files.
#[derive(Debug)]
pub struct Partial {
    pub extensions: SortedMap<String, Bucket>,
    pub ages: SortedMap<AgeBucket, Bucket>,
    pub sizes: SortedMap<SizeBand, Bucket>,
    /// Keyed by the directory holding the files, so its size is bounded by the
    /// number of directories rather than the number of files.
    pub directories: SortedMap<FilePath, DirectoryStats>,
    /// The directory currently being filled. The walk yields files grouped by
    /// directory, so holding the last one saves a look-up per file.
    pub pending: Option<(FilePath, DirectoryStats)>,
    /// Counted for every file regardless of the hotspot setting, so the
    /// headline small-file figure is a whole-scan total rather than a sum over
    /// whichever directories made the report.
    pub small_files: u64,
    pub small_bytes: u64,
    /// The largest files so far, biggest first, so the last one is the next to
    /// be evicted.
    pub largest: Vec<LargestFile>,
    /// Files that could not be measured.
    pub unmeasurable_files: u64,
}

impl View for Partial {
    type V = Summary;

    open spec fn view(&self) -> Summary {
        Summary {
            extensions: tallies(self.extensions.map()),
            ages: tallies(self.ages.map()),
            sizes: tallies(self.sizes.map()),
            directories: match self.pending {
                Some(pending) => bumped_directory(
                    directory_tallies(self.directories.map()),
                    pending.0.components(),
                    pending.1@,
                ),
                None => directory_tallies(self.directories.map()),
            },
            small: Tally { count: self.small_files as int, bytes: self.small_bytes as int },
            largest: keys(self.largest@),
            unmeasurable: self.unmeasurable_files as int,
        }
    }
}

impl Default for Partial {
    fn default() -> (r: Partial)
        ensures
            r.well_formed(),
            r.pending is None,
            r@ == Summary::empty(),
            forall|spelling: Spelling| #[trigger] r.spelled_by(spelling),
    {
        let r = Partial {
            extensions: SortedMap::new(),
            ages: SortedMap::new(),
            sizes: SortedMap::new(),
            directories: SortedMap::new(),
            pending: None,
            small_files: 0,
            small_bytes: 0,
            largest: Vec::new(),
            unmeasurable_files: 0,
        };
        assert(r@.extensions =~= Map::<Seq<char>, Tally>::empty());
        assert(r@.ages =~= Map::<AgeBucket, Tally>::empty());
        assert(r@.sizes =~= Map::<SizeBand, Tally>::empty());
        assert(r@.directories =~= Map::<Seq<PartKey>, DirectoryTally>::empty());
        assert(r@.largest =~= Seq::<FileKey>::empty());
        r
    }
}

impl Partial {
    /// The maps are sorted, the largest files are in order, and the directory
    /// being filled can be banked at any time.
    pub open spec fn well_formed(&self) -> bool {
        &&& self.extensions.well_formed()
        &&& self.ages.well_formed()
        &&& self.sizes.well_formed()
        &&& self.directories.well_formed()
        &&& in_order::<LargestFile>(keys(self.largest@))
        &&& all_directories_fit(self@.directories)
    }

    /// Whether every path is spelled as `spelling` says.
    pub open spec fn spelled_by(&self, spelling: Spelling) -> bool {
        &&& self.directories.all_keys(spelled(spelling))
        &&& match self.pending {
            Some(pending) => pending.0.spelled_by(spelling),
            None => true,
        }
        &&& largest_spelled_by(self.largest@, spelling)
    }

    /// Whether `directory` is the one currently being filled.
    pub open spec fn is_filling(&self, directory: Seq<PartKey>) -> bool {
        match self.pending {
            Some(pending) => pending.0.components() == directory,
            None => false,
        }
    }

    /// What is buffered for `directory`: nothing, unless it is being filled.
    pub open spec fn filled(&self, directory: Seq<PartKey>) -> DirectoryTally {
        match self.pending {
            Some(pending) => if pending.0.components() == directory {
                pending.1@
            } else {
                DirectoryTally::zero()
            },
            None => DirectoryTally::zero(),
        }
    }

    /// Record a file against the directory holding it.
    pub fn record_directory(&mut self, parent: &FilePath, size: u64, small_at_or_below: u64)
        requires
            old(self).well_formed(),
            all_directories_fit(
                bumped_directory(
                    old(self)@.directories,
                    parent.components(),
                    DirectoryTally::one(size as int, small_at_or_below as int),
                ),
            ),
        ensures
            final(self).well_formed(),
            final(self)@ == (Summary {
                directories: bumped_directory(
                    old(self)@.directories,
                    parent.components(),
                    DirectoryTally::one(size as int, small_at_or_below as int),
                ),
                ..old(self)@
            }),
            *final(self) == (Partial {
                pending: final(self).pending,
                directories: final(self).directories,
                ..*old(self)
            }),
            final(self).is_filling(parent.components()),
            final(self).filled(parent.components()) == old(self).filled(parent.components()).plus(
                DirectoryTally::one(size as int, small_at_or_below as int),
            ),
            old(self).is_filling(parent.components()) ==> final(self).directories == old(
                self,
            ).directories,
            !old(self).is_filling(parent.components()) ==> directory_tallies(
                final(self).directories.map(),
            ) == old(self)@.directories,
            forall|spelling: Spelling|
                old(self).spelled_by(spelling) && parent.spelled_by(spelling) ==> #[trigger]
                    final(self).spelled_by(spelling),
    {
        let ghost before = self@.directories;
        let ghost one = DirectoryTally::one(size as int, small_at_or_below as int);
        let ghost k = parent.components();
        let ghost stored = directory_tallies(self.directories.map());
        assert(bumped_directory(before, k, one).dom().contains(k));
        let same: bool = match &self.pending {
            Some(pending) => match pending.0.rank(parent) {
                Rank::Same => true,
                _ => false,
            },
            None => false,
        };
        if same {
            if let Some((path, mut stats)) = self.pending.take() {
                assert(before[k] == value_or(stored, k, DirectoryTally::zero()).plus(stats@));
                stats.add_file(size, small_at_or_below);
                self.pending = Some((path, stats));
                assert(self@.directories =~= bumped_directory(before, k, one));
            }
            return;
        }
        // A different directory, so bank the previous one and start again.
        self.flush_pending();
        let ghost banked = *self;

        let mut stats: DirectoryStats = DirectoryStats::default();
        proof {
            assert(bumped_directory(before, k, one)[k].fits());
            assert(value_or(before, k, DirectoryTally::zero()).non_negative());
        }
        stats.add_file(size, small_at_or_below);
        self.pending = Some((parent.clone(), stats));
        assert(self@.directories =~= bumped_directory(before, k, one));
        assert forall|spelling: Spelling|
            old(self).spelled_by(spelling) && parent.spelled_by(spelling) implies #[trigger]
            self.spelled_by(spelling) by {
            assert(banked.spelled_by(spelling));
        }
    }

    /// Move the directory being filled into the map. Must be called before
    /// anything reads `directories`.
    pub fn flush_pending(&mut self)
        requires
            old(self).well_formed(),
        ensures
            final(self).well_formed(),
            final(self)@ == old(self)@,
            *final(self) == (Partial {
                pending: None,
                directories: final(self).directories,
                ..*old(self)
            }),
            old(self).pending is None ==> final(self).directories == old(self).directories,
            forall|spelling: Spelling|
                old(self).spelled_by(spelling) ==> #[trigger] final(self).spelled_by(spelling),
    {
        let ghost before = self@.directories;
        if let Some((path, stats)) = self.pending.take() {
            assert(before.dom().contains(path.components()));
            bump_directory(&mut self.directories, path, stats);
            assert forall|spelling: Spelling| old(self).spelled_by(spelling) implies #[trigger]
                self.spelled_by(spelling) by {
                assert(spelled(spelling)(path));
            }
        }
        assert(self@.directories =~= before);
    }

    /// Offer the file called `name` in `directory` to the largest files.
    ///
    /// The path is only put together when it is needed: building it allocates,
    /// and the vast majority of files in a large scan are never candidates.
    pub fn consider(&mut self, bytes: u64, top: usize, directory: &FilePath, name: &[u8])
        requires
            old(self).well_formed(),
        ensures
            final(self).well_formed(),
            final(self)@ == (Summary {
                largest: if top == 0 {
                    old(self)@.largest
                } else {
                    kept(
                        old(self)@.largest,
                        seq![(joined(directory.components(), name@), bytes)],
                        top as nat,
                    )
                },
                ..old(self)@
            }),
            *final(self) == (Partial { largest: final(self).largest, ..*old(self) }),
            top == 0 || (old(self).largest@.len() >= top && bytes < old(
                self,
            ).largest@.last().bytes) ==> *final(self) == *old(self),
            forall|spelling: Spelling|
                old(self).spelled_by(spelling) && directory.joined_spelling(name@) == spelling(
                    joined(directory.components(), name@),
                ) ==> #[trigger] final(self).spelled_by(spelling),
    {
        if top == 0 {
            return;
        }
        let n: usize = self.largest.len();
        if n >= top {
            // Reject without allocating whenever the file cannot possibly
            // place. Equal sizes still go through, so the tie-break decides
            // rather than arrival order.
            if bytes < self.largest[n - 1].bytes {
                proof {
                    let l = self@.largest;
                    let x = (joined(directory.components(), name@), bytes);
                    ranked_of_ordered::<LargestFile>(l);
                    assert((l + seq![x]).drop_last() =~= l);
                    assert(l.push(x).take(l.len() as int) =~= l);
                }
                return;
            }
        }
        self.absorb(LargestFile { path: directory.join(name), bytes }, top);
    }

    /// Put a file among the largest, and let the last one go if there are now
    /// too many.
    pub fn absorb(&mut self, file: LargestFile, top: usize)
        requires
            old(self).well_formed(),
        ensures
            final(self).well_formed(),
            final(self)@ == (Summary {
                largest: kept(old(self)@.largest, seq![file.key()], top as nat),
                ..old(self)@
            }),
            *final(self) == (Partial { largest: final(self).largest, ..*old(self) }),
            forall|spelling: Spelling|
                old(self).spelled_by(spelling) && file.path.spelled_by(spelling) ==> #[trigger]
                    final(self).spelled_by(spelling),
    {
        let ghost listed = self.largest@;
        let ghost l = keys(self.largest@);
        let ghost x = file.key();
        proof {
            ranked_of_ordered::<LargestFile>(l);
            assert((l + seq![x]).drop_last() =~= l);
            placed_keeps_order::<LargestFile>(l, x);
        }
        insert_in_order(&mut self.largest, file);
        let ghost p = keys(self.largest@);
        proof {
            let at = choose|at: int|
                0 <= at <= listed.len() && self.largest@ == #[trigger] listed.insert(at, file);
            assert forall|i: int| 0 <= i < self.largest@.len() implies (#[trigger]
            self.largest@[i]) == file || listed.contains(self.largest@[i]) by {
                if i < at {
                    assert(self.largest@[i] == listed[i]);
                } else if i > at {
                    assert(self.largest@[i] == listed[i - 1]);
                }
            }
        }
        if self.largest.len() > top {
            self.largest.pop();
            assert(keys(self.largest@) =~= p.take(p.len() - 1));
            assert forall|i: int, j: int| 0 <= i < j < p.len() - 1 implies !LargestFile::precedes(
                keys(self.largest@)[j],
                keys(self.largest@)[i],
            ) by {
                assert(!LargestFile::precedes(p[j], p[i]));
            }
        }
    }

    /// Whether everything `other` holds can be added without exceeding the
    /// range of a counter.
    pub fn can_merge(&self, other: &Partial) -> (r: bool)
        requires
            self.well_formed(),
            self.pending is None,
            other.well_formed(),
            other.pending is None,
        ensures
            forall|top: nat| r == #[trigger] self@.merge(other@, top).fits(),
    {
        let small: Bucket = Bucket { count: self.small_files, bytes: self.small_bytes };
        let other_small: Bucket = Bucket { count: other.small_files, bytes: other.small_bytes };
        totals_can_merge(&self.extensions, &other.extensions) && totals_can_merge(
            &self.ages,
            &other.ages,
        ) && totals_can_merge(&self.sizes, &other.sizes) && directories_can_merge(
            &self.directories,
            &other.directories,
        ) && small.checked_merge(other_small).is_some() && self.unmeasurable_files.checked_add(
            other.unmeasurable_files,
        ).is_some()
    }

    /// Add everything that `other` holds.
    pub fn merge(&mut self, other: Partial, top: usize)
        requires
            old(self).well_formed(),
            other.well_formed(),
            old(self)@.merge(other@, top as nat).fits(),
        ensures
            final(self).well_formed(),
            final(self).pending is None,
            final(self)@ == old(self)@.merge(other@, top as nat),
            forall|spelling: Spelling|
                old(self).spelled_by(spelling) && other.spelled_by(spelling) ==> #[trigger]
                    final(self).spelled_by(spelling),
    {
        let ghost start = *self;
        let ghost given = other;
        let ghost before = self@;
        let ghost share = other@;
        let mut other: Partial = other;
        self.flush_pending();
        other.flush_pending();
        let ghost flushed = *self;
        let ghost added = other;

        merge_totals(&mut self.extensions, other.extensions);
        merge_totals(&mut self.ages, other.ages);
        merge_totals(&mut self.sizes, other.sizes);
        merge_directories(&mut self.directories, other.directories);
        self.small_files = self.small_files + other.small_files;
        self.small_bytes = self.small_bytes + other.small_bytes;
        self.unmeasurable_files = self.unmeasurable_files + other.unmeasurable_files;

        let mut rest: Vec<LargestFile> = other.largest;
        let ghost so_far = self@;
        assert(self@.largest == before.largest);
        assert forall|spelling: Spelling|
            start.spelled_by(spelling) && given.spelled_by(spelling) implies #[trigger]
            self.spelled_by(spelling) && largest_spelled_by(rest@, spelling) by {
            assert(flushed.spelled_by(spelling));
            assert(added.spelled_by(spelling));
        }
        while rest.len() > 0
            invariant
                forall|spelling: Spelling|
                    start.spelled_by(spelling) && given.spelled_by(spelling) ==> #[trigger]
                    self.spelled_by(spelling) && largest_spelled_by(rest@, spelling),
                self.well_formed(),
                self.pending is None,
                self@ == (Summary { largest: self@.largest, ..so_far }),
                kept(self@.largest, keys(rest@), top as nat) == kept(
                    before.largest,
                    share.largest,
                    top as nat,
                ),
            decreases rest.len(),
        {
            let ghost r = rest@;
            let ghost l = self@.largest;
            let ghost earlier = *self;
            match rest.pop() {
                Some(file) => {
                    proof {
                        assert(keys(r) =~= keys(rest@).push(file.key()));
                        kept_one_by_one(l, file.key(), keys(rest@), top as nat);
                    }
                    self.absorb(file, top);
                    assert forall|spelling: Spelling|
                        start.spelled_by(spelling) && given.spelled_by(spelling) implies #[trigger]
                        self.spelled_by(spelling) && largest_spelled_by(rest@, spelling) by {
                        assert(earlier.spelled_by(spelling));
                        assert(r.last().path.spelled_by(spelling));
                    }
                },
                None => {},
            }
        }
        proof {
            assert(keys(rest@) =~= Seq::<FileKey>::empty());
            kept_one_by_one(self@.largest, (Seq::empty(), 0), Seq::empty(), top as nat);
        }
    }

    /// Whether one more file can be counted without exceeding the range of a
    /// counter.
    pub fn can_measure(&self, file: &FileRecord, options: &ScanOptions, now: Timestamp) -> (r: bool)
        requires
            self.well_formed(),
        ensures
            r == self@.with_file(file@, options.settings(now)).fits(),
    {
        let one: Bucket = Bucket { count: 1, bytes: file.size };
        let is_small: bool = file.size <= options.small_at_or_below;
        let none: Bucket = Bucket { count: 0, bytes: 0 };
        let small: Bucket = Bucket { count: self.small_files, bytes: self.small_bytes };
        let more_small: Bucket = if is_small { one } else { none };
        proof {
            bumped_fits(self@.extensions, extension_text(file.name@), one@);
            bumped_fits(self@.ages, age_of(file.modified, now), one@);
            bumped_fits(self@.sizes, size_band_of(file.size), one@);
            bumped_directory_fits(
                self@.directories,
                file.directory.components(),
                DirectoryTally::one(file.size as int, options.small_at_or_below as int),
            );
        }
        let in_directory: bool = if options.hotspots > 0 {
            let more: DirectoryStats = DirectoryStats {
                files: 1,
                bytes: file.size,
                small_files: more_small.count,
                small_bytes: more_small.bytes,
            };
            let stored: DirectoryStats = stats_in(&self.directories, &file.directory);
            let current: DirectoryStats = match &self.pending {
                Some(pending) => match pending.0.rank(&file.directory) {
                    Rank::Same => {
                        assert(self@.directories.dom().contains(file.directory.components()));
                        let mut sum: DirectoryStats = stored;
                        sum.merge(pending.1);
                        sum
                    },
                    _ => stored,
                },
                None => stored,
            };
            current.checked_merge(more).is_some()
        } else {
            true
        };
        bucket_in(&self.extensions, &extension_of(file.name.as_slice())).checked_merge(
            one,
        ).is_some() && bucket_in(&self.ages, &classify_age(file.modified, now)).checked_merge(
            one,
        ).is_some() && bucket_in(&self.sizes, &classify_size(file.size)).checked_merge(
            one,
        ).is_some() && in_directory && small.checked_merge(more_small).is_some()
    }

    /// Count one measured file.
    pub fn measure(&mut self, file: &FileRecord, options: &ScanOptions, now: Timestamp)
        requires
            old(self).well_formed(),
            old(self)@.with_file(file@, options.settings(now)).fits(),
        ensures
            final(self).well_formed(),
            final(self)@ == old(self)@.with_file(file@, options.settings(now)),
            forall|spelling: Spelling|
                old(self).spelled_by(spelling) && file.spelled_by(spelling) ==> #[trigger]
                    final(self).spelled_by(spelling),
    {
        let ghost before = self@;
        let ghost after = self@.with_file(file@, options.settings(now));
        let one: Bucket = Bucket { count: 1, bytes: file.size };

        assert(after.extensions.dom().contains(extension_text(file.name@)));
        bump(&mut self.extensions, extension_of(file.name.as_slice()), one);

        // The modification time comes from the stat already performed, so
        // the age report costs no extra syscalls.
        assert(after.ages.dom().contains(age_of(file.modified, now)));
        bump(&mut self.ages, classify_age(file.modified, now), one);

        assert(after.sizes.dom().contains(size_band_of(file.size)));
        bump(&mut self.sizes, classify_size(file.size), one);

        if file.size <= options.small_at_or_below {
            self.small_files = self.small_files + 1;
            self.small_bytes = self.small_bytes + file.size;
        }
        if options.hotspots > 0 {
            self.record_directory(&file.directory, file.size, options.small_at_or_below);
        }
        self.consider(file.size, options.top, &file.directory, file.name.as_slice());
        assert(self@ =~= after);
    }
}

/// What was found out about each listed file, in order.
pub open spec fn facts(files: Seq<Measurement>) -> Seq<Option<FileFacts>> {
    Seq::new(files.len(), |i: int| files[i]@)
}

/// Whether every file is spelled as `spelling` says.
pub open spec fn all_spelled_by(files: Seq<Measurement>, spelling: Spelling) -> bool {
    forall|i: int| 0 <= i < files.len() ==> (#[trigger] files[i]).spelled_by(spelling)
}

/// Measure one share of the files, reporting each as it is done. Nothing comes
/// back if a total does not fit the counter it is kept in.
pub fn aggregate<P: Progress>(
    files: &[Measurement],
    options: &ScanOptions,
    now: Timestamp,
    progress: &P,
) -> (r: Option<Partial>)
    ensures
        r is Some <==> summarise(facts(files@), options.settings(now)).fits(),
        r matches Some(partial) ==> partial.well_formed() && partial@ == summarise(
            facts(files@),
            options.settings(now),
        ),
        r matches Some(partial) ==> forall|spelling: Spelling|
            all_spelled_by(files@, spelling) ==> #[trigger] partial.spelled_by(spelling),
{
    let ghost all = facts(files@);
    let ghost settings = options.settings(now);
    let mut partial: Partial = Partial::default();
    let mut i: usize = 0;
    while i < files.len()
        invariant
            all == facts(files@),
            settings == options.settings(now),
            i <= files@.len(),
            partial.well_formed(),
            partial@ == summarise(all.take(i as int), settings),
            forall|spelling: Spelling|
                all_spelled_by(files@, spelling) ==> #[trigger] partial.spelled_by(spelling),
        decreases files.len() - i,
    {
        proof {
            assert(all.take(i + 1).drop_last() =~= all.take(i as int));
            assert(all.take(i + 1).last() == files@[i as int]@);
            if summarise(all, settings).fits() {
                fitting_is_inherited_by_prefixes(all, i + 1, settings);
            }
        }
        progress.file_measured();
        let ghost earlier = partial;
        match &files[i] {
            Measurement::Measured(file) => {
                if !partial.can_measure(file, options, now) {
                    return None;
                }
                partial.measure(file, options, now);
            },
            Measurement::Failed => {
                if partial.unmeasurable_files == u64::MAX {
                    return None;
                }
                partial.unmeasurable_files = partial.unmeasurable_files + 1;
            },
        }
        assert forall|spelling: Spelling| all_spelled_by(files@, spelling) implies #[trigger]
            partial.spelled_by(spelling) by {
            assert(earlier.spelled_by(spelling));
            assert(files@[i as int].spelled_by(spelling));
        }
        i = i + 1;
    }
    assert(all.take(i as int) =~= all);
    assert(partial@.fits()) by {
        assert(all_fit(partial@.extensions));
        assert(all_fit(partial@.ages));
        assert(all_fit(partial@.sizes));
    }
    Some(partial)
}

/// What each share holds, in order.
pub open spec fn summaries(shares: Seq<Partial>) -> Seq<Summary> {
    Seq::new(shares.len(), |i: int| shares[i]@)
}

/// Whether every path of every share is spelled as `spelling` says.
pub open spec fn shares_spelled_by(shares: Seq<Partial>, spelling: Spelling) -> bool {
    forall|i: int| 0 <= i < shares.len() ==> (#[trigger] shares[i]).spelled_by(spelling)
}

/// Put the shares together, first to last. Nothing comes back if a total does not fit the
/// counter it is kept in.
pub fn combine(shares: Vec<Partial>, top: usize) -> (r: Option<Partial>)
    requires
        forall|i: int| 0 <= i < shares@.len() ==> (#[trigger] shares@[i]).well_formed(),
    ensures
        r is Some <==> combined(summaries(shares@), top as nat).fits(),
        r matches Some(partial) ==> partial.well_formed() && partial.pending is None && partial@
            == combined(summaries(shares@), top as nat),
        r matches Some(partial) ==> forall|spelling: Spelling|
            shares_spelled_by(shares@, spelling) ==> #[trigger] partial.spelled_by(spelling),
{
    let ghost all = summaries(shares@);
    let mut rest: Vec<Partial> = shares;
    let mut sum: Partial = Partial::default();
    let mut i: usize = 0;
    proof {
        assert(all.take(0) =~= Seq::<Summary>::empty());
        assert forall|i: int| 0 <= i < all.len() implies (#[trigger] all[i]).non_negative() by {
            assert(shares@[i]@.non_negative());
        }
    }
    while i < rest.len()
        invariant
            all == summaries(shares@),
            forall|i: int| 0 <= i < all.len() ==> (#[trigger] all[i]).non_negative(),
            forall|i: int| 0 <= i < shares@.len() ==> (#[trigger] shares@[i]).well_formed(),
            i <= rest@.len(),
            rest@.len() == shares@.len(),
            forall|j: int| i <= j < rest@.len() ==> rest@[j] == shares@[j],
            sum.well_formed(),
            sum.pending is None,
            sum@ == combined(all.take(i as int), top as nat),
            forall|spelling: Spelling|
                shares_spelled_by(shares@, spelling) ==> #[trigger] sum.spelled_by(spelling),
        decreases rest.len() - i,
    {
        let ghost n = i as int;
        let mut share: Partial = Partial::default();
        std::mem::swap(&mut rest[i], &mut share);
        assert(share == shares@[n]);
        share.flush_pending();
        proof {
            assert(share@ == all[n]);
            assert(all.take(n + 1).drop_last() =~= all.take(n));
            assert(all.take(n + 1).last() == share@);
            if combined(all, top as nat).fits() {
                fitting_is_inherited_by_earlier_shares(all, n + 1, top as nat);
            }
        }
        if !sum.can_merge(&share) {
            return None;
        }
        let ghost earlier = sum;
        sum.merge(share, top);
        assert forall|spelling: Spelling| shares_spelled_by(shares@, spelling) implies #[trigger]
            sum.spelled_by(spelling) by {
            assert(earlier.spelled_by(spelling));
            assert(shares@[n].spelled_by(spelling));
            assert(share.spelled_by(spelling));
        }
        i = i + 1;
    }
    assert(all.take(i as int) =~= all);
    assert(sum@.fits()) by {
        assert(all_fit(sum@.extensions));
        assert(all_fit(sum@.ages));
        assert(all_fit(sum@.sizes));
    }
    Some(sum)
}

} // verus!
