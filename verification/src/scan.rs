//! Putting a scan together from a walk and what was measured.

use crate::bands::{AgeBucket, SizeBand};
use crate::options::ScanOptions;
use crate::order::{rank_text, text_order_laws, text_precedes, Ordered, Rank};
use crate::partial::{directory_tallies, largest_spelled_by, tallies, Partial};
use crate::path::{spelled, FilePath, PartKey, Spelling};
use crate::ranking::{keys, one_way_to_list, sort, sorted_without_ties};
use crate::sorted_map::{ascending, lemma_map_of, map_of, SortedMap};
use crate::structure::{Structure, StructureCounters};
use crate::summary::{LargestFile, Summary};
use crate::tally::{fits, ratio, ratio_of, Bucket, DirectoryStats, DirectoryTally, Ratio, Tally};
use crate::totals::{grand_total, sum_bytes, sum_counts};
use vstd::prelude::*;

verus! {

/// Number of individual walk errors kept for reporting before the rest are
/// only counted.
pub const MAX_REPORTED_ERRORS: usize = 10;

/// Why a directory could not be listed.
#[derive(Debug)]
pub struct ReadFailure {
    /// What the operating system said, if it was asked.
    pub io: Option<String>,
    /// The walk's own message, which names the path.
    pub message: String,
}

/// One step of the walk.
#[derive(Debug)]
pub enum WalkEvent {
    /// An entry was reached. A directory that could not be read is reached
    /// too, with the failure recorded on it.
    Entry { depth: usize, is_file: bool, failure: Option<ReadFailure> },
    /// The walk failed without reaching an entry.
    Failed { message: String },
}

impl WalkEvent {
    /// What to report about the event, if anything went wrong.
    pub open spec fn complaint(&self) -> Option<Seq<char>> {
        match self {
            WalkEvent::Entry { depth, is_file, failure } => match failure {
                Some(failure) => Some(failure.message@),
                None => None,
            },
            WalkEvent::Failed { message } => Some(message@),
        }
    }

    /// Why the scanned directory itself could not be listed, if that is what
    /// the event says. The operating system's words are preferred: the walk's
    /// own repeat the path, which whoever reports the failure prints anyway.
    pub open spec fn root_failure(&self) -> Option<Seq<char>> {
        match self {
            WalkEvent::Entry { depth, is_file, failure } => match failure {
                Some(failure) => if *depth == 0 {
                    match failure.io {
                        Some(io) => Some(io@),
                        None => Some(failure.message@),
                    }
                } else {
                    None
                },
                None => None,
            },
            WalkEvent::Failed { message } => None,
        }
    }

    /// Whether the event yields a file to measure.
    pub open spec fn yields_file(&self) -> bool {
        match self {
            WalkEvent::Entry { depth, is_file, failure } => *is_file,
            WalkEvent::Failed { message } => false,
        }
    }
}

/// The text of each of a sequence of strings.
pub open spec fn texts(s: Seq<String>) -> Seq<Seq<char>> {
    Seq::new(s.len(), |i: int| s[i]@)
}

/// What went wrong during a walk.
#[verifier::ext_equal]
pub struct WalkReport {
    pub errors: Seq<Seq<char>>,
    pub error_count: int,
    pub root_unreadable: Option<Seq<char>>,
}

impl WalkReport {
    pub open spec fn blank() -> WalkReport {
        WalkReport { errors: Seq::empty(), error_count: 0, root_unreadable: None }
    }

    /// After one more event.
    pub open spec fn visit(self, event: WalkEvent) -> WalkReport {
        WalkReport {
            errors: match event.complaint() {
                Some(message) => if self.errors.len() < MAX_REPORTED_ERRORS {
                    self.errors.push(message)
                } else {
                    self.errors
                },
                None => self.errors,
            },
            error_count: if event.complaint() is Some {
                self.error_count + 1
            } else {
                self.error_count
            },
            root_unreadable: match event.root_failure() {
                Some(reason) => Some(reason),
                None => self.root_unreadable,
            },
        }
    }
}

/// What a sequence of events comes to.
pub open spec fn walked(events: Seq<WalkEvent>) -> WalkReport
    decreases events.len(),
{
    if events.len() == 0 {
        WalkReport::blank()
    } else {
        walked(events.drop_last()).visit(events.last())
    }
}

/// Every complaint of a sequence of events, in order.
pub open spec fn complaints(events: Seq<WalkEvent>) -> Seq<Seq<char>>
    decreases events.len(),
{
    if events.len() == 0 {
        Seq::empty()
    } else {
        let rest = complaints(events.drop_last());
        match events.last().complaint() {
            Some(message) => rest.push(message),
            None => rest,
        }
    }
}

/// No failure goes unnoticed: every one is counted, and the first few are kept
/// word for word.
pub proof fn every_failure_is_counted_and_the_first_are_kept(events: Seq<WalkEvent>)
    ensures
        walked(events).error_count == complaints(events).len(),
        walked(events).errors == complaints(events).take(
            if complaints(events).len() < 10 {
                complaints(events).len() as int
            } else {
                10
            },
        ),
    decreases events.len(),
{
    if events.len() == 0 {
        assert(complaints(events).take(0) =~= Seq::<Seq<char>>::empty());
    } else {
        let rest = events.drop_last();
        every_failure_is_counted_and_the_first_are_kept(rest);
        let all = complaints(rest);
        match events.last().complaint() {
            Some(message) => {
                if all.len() < MAX_REPORTED_ERRORS {
                    assert(all.take(all.len() as int) =~= all);
                    assert(all.push(message).take(all.len() as int + 1) =~= all.push(message));
                } else {
                    assert(all.push(message).take(MAX_REPORTED_ERRORS as int) =~= all.take(
                        MAX_REPORTED_ERRORS as int,
                    ));
                }
            },
            None => {},
        }
    }
}

/// An entry is complained of if it could not be read, in the words of the walk,
/// and so is a step that reached no entry. Only a failure of the scanned
/// directory itself stops the scan, in the words of the operating system if it
/// was asked. A file is measured even if something was wrong with it.
pub proof fn failures_are_reported_in_their_own_words(
    depth: usize,
    is_file: bool,
    failure: ReadFailure,
    message: String,
)
    ensures
        ({
            let fine = WalkEvent::Entry { depth, is_file, failure: None };
            let faulty = WalkEvent::Entry { depth, is_file, failure: Some(failure) };
            let failed = WalkEvent::Failed { message };
            &&& fine.complaint() is None && fine.root_failure() is None
            &&& faulty.complaint() == Some(failure.message@)
            &&& failed.complaint() == Some(message@) && failed.root_failure() is None
            &&& depth > 0 ==> faulty.root_failure() is None
            &&& depth == 0 && failure.io is None ==> faulty.root_failure() == Some(
                failure.message@,
            )
            &&& depth == 0 && failure.io is Some ==> faulty.root_failure() == Some(
                failure.io->Some_0@,
            )
            &&& fine.yields_file() == is_file && faulty.yields_file() == is_file
            &&& !failed.yields_file()
        }),
{
}

/// The scanned directory counts as unreadable once the walk has said so, and
/// only then; the last reason given stands.
pub proof fn the_root_is_unreadable_only_if_the_walk_says_so(events: Seq<WalkEvent>)
    ensures
        match walked(events).root_unreadable {
            None => forall|i: int|
                0 <= i < events.len() ==> (#[trigger] events[i]).root_failure() is None,
            Some(reason) => exists|i: int|
                0 <= i < events.len() && (#[trigger] events[i]).root_failure() == Some(reason)
                    && forall|j: int|
                    i < j < events.len() ==> (#[trigger] events[j]).root_failure() is None,
        },
    decreases events.len(),
{
    if events.len() > 0 {
        let rest = events.drop_last();
        let n = events.len() - 1;
        the_root_is_unreadable_only_if_the_walk_says_so(rest);
        assert(events[n] == events.last());
        assert forall|i: int| 0 <= i < n implies #[trigger] rest[i] == events[i] by {}
        match events.last().root_failure() {
            Some(reason) => {
                assert(events[n].root_failure() == Some(reason));
            },
            None => match walked(rest).root_unreadable {
                Some(reason) => {
                    let i = choose|i: int|
                        0 <= i < rest.len() && (#[trigger] rest[i]).root_failure() == Some(reason)
                            && forall|j: int|
                            i < j < rest.len() ==> (#[trigger] rest[j]).root_failure() is None;
                    assert(events[i].root_failure() == Some(reason));
                    assert forall|j: int| i < j < events.len() implies (#[trigger]
                    events[j]).root_failure() is None by {
                        if j < n {
                            assert(rest[j] == events[j]);
                        }
                    }
                },
                None => {
                    assert forall|i: int| 0 <= i < events.len() implies (#[trigger]
                    events[i]).root_failure() is None by {
                        if i < n {
                            assert(rest[i] == events[i]);
                        }
                    }
                },
            },
        }
    }
}

/// What has gone wrong so far during a walk.
#[derive(Debug)]
pub struct Walk {
    pub errors: Vec<String>,
    pub error_count: u64,
    /// Set if the scanned directory itself could not be listed, as opposed to
    /// one below it. That is not a partial result, it is no result.
    pub root_unreadable: Option<String>,
}

impl View for Walk {
    type V = WalkReport;

    open spec fn view(&self) -> WalkReport {
        WalkReport {
            errors: texts(self.errors@),
            error_count: self.error_count as int,
            root_unreadable: match self.root_unreadable {
                Some(reason) => Some(reason@),
                None => None,
            },
        }
    }
}

impl Walk {
    pub fn new() -> (r: Walk)
        ensures
            r@ == WalkReport::blank(),
    {
        let r = Walk { errors: Vec::new(), error_count: 0, root_unreadable: None };
        assert(r@ =~= WalkReport::blank());
        r
    }

    fn complain(&mut self, message: &String)
        requires
            old(self).error_count < u64::MAX,
        ensures
            final(self)@ == (WalkReport {
                errors: if old(self)@.errors.len() < MAX_REPORTED_ERRORS {
                    old(self)@.errors.push(message@)
                } else {
                    old(self)@.errors
                },
                error_count: old(self)@.error_count + 1,
                ..old(self)@
            }),
    {
        let ghost before = self@.errors;
        if self.errors.len() < MAX_REPORTED_ERRORS {
            self.errors.push(message.clone());
            assert(self@.errors =~= before.push(message@));
        }
        self.error_count = self.error_count + 1;
    }

    /// Take note of one event. Returns whether it yields a file to measure.
    pub fn visit(&mut self, event: &WalkEvent) -> (r: bool)
        requires
            event.complaint() is Some ==> old(self).error_count < u64::MAX,
        ensures
            final(self)@ == old(self)@.visit(*event),
            r == event.yields_file(),
    {
        match event {
            WalkEvent::Entry { depth, is_file, failure } => {
                match failure {
                    Some(failure) => {
                        if *depth == 0 {
                            self.root_unreadable =
                            match &failure.io {
                                Some(io) => Some(io.clone()),
                                None => Some(failure.message.clone()),
                            };
                        }
                        self.complain(&failure.message);
                    },
                    None => {},
                }
                *is_file
            },
            WalkEvent::Failed { message } => {
                self.complain(message);
                false
            },
        }
    }
}

/// What is known of the path that was given, before walking it.
#[derive(Debug, Clone, Copy, PartialEq, Eq, Structural)]
pub enum RootStatus {
    /// It does not exist or cannot be read.
    Unreadable,
    Directory,
    /// Anything else, such as a single file.
    Other,
}

/// Why there is no result at all.
#[derive(Debug)]
pub enum ScanError {
    /// The path does not exist or cannot be read.
    CannotRead,
    /// The path is there, but its contents could not be listed.
    CannotList { reason: String },
}

impl ScanError {
    pub open spec fn text(&self, path: Seq<char>) -> Seq<char> {
        match self {
            ScanError::CannotRead => "cannot read path: "@ + path,
            ScanError::CannotList { reason } => "cannot list "@ + path + ": "@ + reason@,
        }
    }

    /// Whether this is what stopped a scan: a path that could not be read at
    /// all comes ahead of one that could not be listed.
    pub open spec fn explains(&self, root: RootStatus, walk: WalkReport) -> bool {
        match self {
            ScanError::CannotRead => root == RootStatus::Unreadable,
            ScanError::CannotList { reason } => root != RootStatus::Unreadable
                && walk.root_unreadable == Some(reason@),
        }
    }

    /// The failure in words, for the scan of `path`.
    pub fn message(&self, path: &str) -> (r: String)
        ensures
            r@ == self.text(path@),
    {
        match self {
            ScanError::CannotRead => "cannot read path: ".to_owned().concat(path),
            ScanError::CannotList { reason } => "cannot list ".to_owned().concat(path).concat(
                ": ",
            ).concat(reason.as_str()),
        }
    }
}

/// A scan that comes to nothing names the path and says why: it cannot be read
/// at all, or it cannot be listed, with the reason that the walk gave.
pub proof fn a_scan_that_failed_names_the_path(
    path: Seq<char>,
    reason: String,
    root: RootStatus,
    walk: WalkReport,
)
    ensures
        ({
            let unread = ScanError::CannotRead;
            let unlisted = ScanError::CannotList { reason };
            &&& unread.text(path) == "cannot read path: "@ + path
            &&& unlisted.text(path) == "cannot list "@ + path + ": "@ + reason@
            &&& unread.explains(root, walk) <==> root == RootStatus::Unreadable
            &&& unlisted.explains(root, walk) <==> root != RootStatus::Unreadable
                && walk.root_unreadable == Some(reason@)
        }),
{
}

/// A directory holding enough small files to be worth targeting separately.
#[derive(Debug, Clone, PartialEq, Eq)]
pub struct Hotspot {
    pub directory: FilePath,
    pub stats: DirectoryStats,
}

/// What the order of hotspots looks at: the directory and how many small files
/// it holds.
pub type HotspotKey = (Seq<PartKey>, int);

/// Most small files first; for equal numbers the earlier directory.
pub open spec fn hotspot_precedes(a: HotspotKey, b: HotspotKey) -> bool {
    a.1 > b.1 || (a.1 == b.1 && FilePath::precedes(a.0, b.0))
}

impl Hotspot {
    pub open spec fn hotspot_key(&self) -> HotspotKey {
        (self.directory.components(), self.stats.small_files as int)
    }
}

#[derive(Clone, Copy)]
struct HotspotRef<'a> {
    directory: &'a FilePath,
    stats: DirectoryStats,
}

impl<'a> Ordered for HotspotRef<'a> {
    type Key = HotspotKey;

    closed spec fn key(&self) -> HotspotKey {
        (self.directory.components(), self.stats.small_files as int)
    }

    closed spec fn precedes(a: HotspotKey, b: HotspotKey) -> bool {
        hotspot_precedes(a, b)
    }

    proof fn order_laws(a: HotspotKey, b: HotspotKey, c: HotspotKey) {
        FilePath::order_laws(a.0, b.0, c.0);
    }

    fn rank(&self, other: &Self) -> (r: Rank) {
        proof {
            let mine = self.directory.components();
            FilePath::order_laws(mine, other.directory.components(), mine);
        }
        if self.stats.small_files > other.stats.small_files {
            Rank::First
        } else if self.stats.small_files < other.stats.small_files {
            Rank::Second
        } else {
            self.directory.rank(other.directory)
        }
    }
}

/// Whether `r` lists the directories of `m` holding the most small files,
/// worst first and at most `limit` of them. Directories with no small files
/// are excluded.
pub open spec fn lists_hotspots(
    m: Map<Seq<PartKey>, DirectoryTally>,
    limit: int,
    r: Seq<Hotspot>,
) -> bool {
    &&& r.len() <= limit
    &&& forall|i: int, j: int|
        0 <= i < j < r.len() ==> hotspot_precedes(
            (#[trigger] r[i]).hotspot_key(),
            (#[trigger] r[j]).hotspot_key(),
        )
    &&& forall|i: int|
        0 <= i < r.len() ==> {
            let d = (#[trigger] r[i]).directory.components();
            m.dom().contains(d) && m[d] == r[i].stats@ && m[d].small.count > 0
        }
    &&& forall|d: Seq<PartKey>| #[trigger]
        m.dom().contains(d) && m[d].small.count > 0 ==> {
            ||| exists|i: int| 0 <= i < r.len() && (#[trigger] r[i]).directory.components() == d
            ||| r.len() == limit && forall|i: int|
                0 <= i < r.len() ==> hotspot_precedes(
                    (#[trigger] r[i]).hotspot_key(),
                    (d, m[d].small.count),
                )
        }
}

/// Whether every directory is spelled as `spelling` says.
pub open spec fn hotspots_spelled_by(hotspots: Seq<Hotspot>, spelling: Spelling) -> bool {
    forall|i: int|
        0 <= i < hotspots.len() ==> (#[trigger] hotspots[i]).directory.spelled_by(spelling)
}

spec fn refs_spelled_by(hotspots: Seq<HotspotRef>, spelling: Spelling) -> bool {
    forall|i: int|
        0 <= i < hotspots.len() ==> (#[trigger] hotspots[i]).directory.spelled_by(spelling)
}

/// The directories holding the most small files, worst first.
pub fn hotspots_of(directories: &SortedMap<FilePath, DirectoryStats>, limit: usize) -> (r: Vec<
    Hotspot,
>)
    requires
        directories.well_formed(),
    ensures
        lists_hotspots(directory_tallies(directories.map()), limit as int, r@),
        forall|spelling: Spelling|
            directories.all_keys(spelled(spelling)) ==> #[trigger] hotspots_spelled_by(r@, spelling),
{
    let ghost m = directory_tallies(directories.map());
    let ghost pairs = directories.pairs();
    let mut found: Vec<HotspotRef> = Vec::new();
    // Which entry each candidate was taken from.
    let ghost mut source: Seq<int> = Seq::empty();
    let mut i: usize = 0;
    while i < directories.len()
        invariant
            directories.well_formed(),
            pairs == directories.pairs(),
            i <= pairs.len(),
            source.len() == found@.len(),
            forall|j: int|
                0 <= j < found@.len() ==> {
                    &&& 0 <= #[trigger] source[j] < i
                    &&& found@[j].directory.components() == pairs[source[j]].0
                    &&& found@[j].stats == pairs[source[j]].1
                    &&& found@[j].stats.small_files > 0
                },
            forall|a: int, b: int| 0 <= a < b < source.len() ==> source[a] < source[b],
            forall|k: int|
                0 <= k < i && (#[trigger] pairs[k]).1.small_files > 0 ==> source.contains(k),
            forall|spelling: Spelling| #[trigger]
                directories.all_keys(spelled(spelling)) ==> refs_spelled_by(found@, spelling),
        decreases pairs.len() - i,
    {
        let stats: DirectoryStats = directories.value_at(i);
        if stats.small_files > 0 {
            let ghost before = source;
            let ghost earlier = found@;
            let directory: &FilePath = directories.key_at(i);
            found.push(HotspotRef { directory, stats });
            proof {
                source = source.push(i as int);
                assert(directory.key() == directory.components());
                assert forall|spelling: Spelling| #[trigger]
                    directories.all_keys(spelled(spelling)) implies refs_spelled_by(
                    found@,
                    spelling,
                ) by {
                    assert(refs_spelled_by(earlier, spelling));
                    assert(spelled(spelling)(*directory));
                    assert forall|j: int| 0 <= j < found@.len() implies (#[trigger]
                    found@[j]).directory.spelled_by(spelling) by {
                        if j < earlier.len() {
                            assert(found@[j] == earlier[j]);
                        }
                    }
                }
                assert(source[before.len() as int] == i);
                assert forall|j: int| 0 <= j < found@.len() implies {
                    &&& 0 <= #[trigger] source[j] < i + 1
                    &&& found@[j].directory.components() == pairs[source[j]].0
                    &&& found@[j].stats == pairs[source[j]].1
                    &&& found@[j].stats.small_files > 0
                } by {
                    if j < before.len() {
                        assert(source[j] == before[j]);
                        assert(found@[j] == earlier[j]);
                    }
                }
                assert forall|k: int|
                    0 <= k < i + 1 && (#[trigger] pairs[k]).1.small_files > 0 implies source.contains(
                    k,
                ) by {
                    if k < i {
                        let j = choose|j: int| 0 <= j < before.len() && before[j] == k;
                        assert(source[j] == k);
                    }
                }
            }
        }
        i = i + 1;
    }
    let all: Vec<HotspotRef> = sort(&found);
    proof {
        let found_keys = keys(found@);
        assert forall|a: int, b: int| 0 <= a < b < found_keys.len() implies found_keys[a]
            != found_keys[b] by {
            assert(FilePath::precedes(pairs[source[a]].0, pairs[source[b]].0));
            FilePath::order_laws(found_keys[a].0, found_keys[a].0, found_keys[a].0);
        }
        sorted_without_ties(found@, all@);
    }
    let mut r: Vec<Hotspot> = Vec::new();
    let mut i: usize = 0;
    while i < all.len() && i < limit
        invariant
            i <= all@.len(),
            i <= limit,
            r@.len() == i,
            forall|k: int|
                0 <= k < i ==> {
                    &&& (#[trigger] r@[k]).directory.components() == all@[k].directory.components()
                    &&& r@[k].directory.spelling@ == all@[k].directory.spelling@
                    &&& r@[k].stats == all@[k].stats
                },
        decreases all.len() - i,
    {
        r.push(Hotspot { directory: all[i].directory.clone(), stats: all[i].stats });
        i = i + 1;
    }
    proof {
        assert forall|k: int| 0 <= k < r@.len() implies (#[trigger] r@[k]).hotspot_key()
            == all@[k].key() by {}
        assert forall|spelling: Spelling|
            directories.all_keys(spelled(spelling)) implies #[trigger] hotspots_spelled_by(
            r@,
            spelling,
        ) by {
            assert(refs_spelled_by(found@, spelling));
            assert forall|k: int| 0 <= k < r@.len() implies (#[trigger]
            r@[k]).directory.spelled_by(spelling) by {
                assert(found@.contains(all@[k]));
                let j = choose|j: int| 0 <= j < found@.len() && found@[j] == all@[k];
                assert(found@[j].directory.spelled_by(spelling));
            }
        }
        assert forall|k: int| 0 <= k < r@.len() implies {
            let d = (#[trigger] r@[k]).directory.components();
            m.dom().contains(d) && m[d] == r@[k].stats@ && m[d].small.count > 0
        } by {
            assert(found@.contains(all@[k]));
            let j = choose|j: int| 0 <= j < found@.len() && found@[j] == all@[k];
            lemma_map_of::<FilePath, DirectoryStats>(pairs, source[j]);
        }
        assert forall|d: Seq<PartKey>| #[trigger]
            m.dom().contains(d) && m[d].small.count > 0 implies {
            ||| exists|i: int| 0 <= i < r@.len() && (#[trigger] r@[i]).directory.components() == d
            ||| r@.len() == limit && forall|i: int|
                0 <= i < r@.len() ==> hotspot_precedes(
                    (#[trigger] r@[i]).hotspot_key(),
                    (d, m[d].small.count),
                )
        } by {
            let q = choose|q: int| 0 <= q < pairs.len() && (#[trigger] pairs[q]).0 == d;
            lemma_map_of::<FilePath, DirectoryStats>(pairs, q);
            assert(source.contains(q));
            let j = choose|j: int| 0 <= j < source.len() && source[j] == q;
            assert(all@.contains(found@[j]));
            let at = choose|at: int| 0 <= at < all@.len() && all@[at] == found@[j];
            assert(all@[at].key() == (d, m[d].small.count));
            if at < r@.len() {
                assert(r@[at].directory.components() == d);
            }
        }
    }
    r
}

/// Most files first; for equal numbers by name.
pub open spec fn row_precedes(a: (Seq<char>, u64), b: (Seq<char>, u64)) -> bool {
    a.1 > b.1 || (a.1 == b.1 && text_precedes(a.0, b.0))
}

/// What each row says: a name, and what was found under it.
pub open spec fn entries_of(rows: Seq<(&str, Bucket)>) -> Seq<(Seq<char>, Bucket)> {
    Seq::new(rows.len(), |i: int| (rows[i].0@, rows[i].1))
}

/// Whether `r` lists every extension of `m` once, in the order of a report.
pub open spec fn lists_extensions(
    m: Map<Seq<char>, Bucket>,
    r: Seq<(Seq<char>, Bucket)>,
) -> bool {
    &&& forall|i: int, j: int|
        0 <= i < j < r.len() ==> row_precedes(
            ((#[trigger] r[i]).0, r[i].1.count),
            ((#[trigger] r[j]).0, r[j].1.count),
        )
    &&& forall|i: int|
        0 <= i < r.len() ==> m.dom().contains((#[trigger] r[i]).0) && m[r[i].0] == r[i].1
    &&& forall|k: Seq<char>| #[trigger]
        m.dom().contains(k) ==> exists|i: int| 0 <= i < r.len() && (#[trigger] r[i]).0 == k
}

#[derive(Clone, Copy)]
struct RowRef<'a> {
    extension: &'a str,
    bucket: Bucket,
}

impl<'a> Ordered for RowRef<'a> {
    type Key = (Seq<char>, u64);

    closed spec fn key(&self) -> (Seq<char>, u64) {
        (self.extension@, self.bucket.count)
    }

    closed spec fn precedes(a: (Seq<char>, u64), b: (Seq<char>, u64)) -> bool {
        row_precedes(a, b)
    }

    proof fn order_laws(a: (Seq<char>, u64), b: (Seq<char>, u64), c: (Seq<char>, u64)) {
        text_order_laws(a.0, b.0, c.0);
    }

    fn rank(&self, other: &Self) -> (r: Rank) {
        proof {
            text_order_laws(self.extension@, other.extension@, self.extension@);
        }
        if self.bucket.count > other.bucket.count {
            Rank::First
        } else if self.bucket.count < other.bucket.count {
            Rank::Second
        } else {
            rank_text(self.extension, other.extension)
        }
    }
}

/// The result of a scan, including what could not be measured.
#[derive(Debug)]
pub struct Scan {
    pub totals: SortedMap<String, Bucket>,
    /// Totals by file age. Buckets with no files are absent.
    pub ages: SortedMap<AgeBucket, Bucket>,
    /// Totals by file size. Bands with no files are absent.
    pub sizes: SortedMap<SizeBand, Bucket>,
    /// Directories holding the most small files, worst first, at most
    /// `ScanOptions::hotspots`. Directories with no small files are excluded.
    pub hotspots: Vec<Hotspot>,
    /// The threshold the small-file figures were computed against.
    pub small_at_or_below: u64,
    /// Every file at or below the threshold, counted across the whole scan
    /// rather than only the reported hotspots, and independently of whether
    /// the hotspot report was enabled.
    pub small_files: u64,
    pub small_bytes: u64,
    /// The largest files found, biggest first, at most `ScanOptions::top`.
    pub largest: Vec<LargestFile>,
    /// How the tree is laid out, in counts and lengths only.
    pub structure: Structure,
    /// First [`MAX_REPORTED_ERRORS`] walk failures, for display.
    pub walk_errors: Vec<String>,
    /// Total number of walk failures, including any beyond those retained.
    pub walk_error_count: u64,
    /// Files listed by the walk that could not subsequently be measured.
    pub unmeasurable_files: u64,
}

impl Default for Scan {
    /// The scan of nothing at all.
    fn default() -> (r: Scan)
        ensures
            r.well_formed(),
            r.totals.map() == Map::<Seq<char>, Bucket>::empty(),
            r.ages.map() == Map::<AgeBucket, Bucket>::empty(),
            r.sizes.map() == Map::<SizeBand, Bucket>::empty(),
            r.hotspots@.len() == 0,
            r.small_at_or_below == 0,
            r.small_files == 0,
            r.small_bytes == 0,
            r.largest@.len() == 0,
            r.structure.is_blank(),
            r.walk_errors@.len() == 0,
            r.walk_error_count == 0,
            r.unmeasurable_files == 0,
    {
        Scan {
            totals: SortedMap::new(),
            ages: SortedMap::new(),
            sizes: SortedMap::new(),
            hotspots: Vec::new(),
            small_at_or_below: 0,
            small_files: 0,
            small_bytes: 0,
            largest: Vec::new(),
            structure: Structure::default(),
            walk_errors: Vec::new(),
            walk_error_count: 0,
            unmeasurable_files: 0,
        }
    }
}

impl Scan {
    pub open spec fn well_formed(&self) -> bool {
        &&& self.totals.well_formed()
        &&& self.ages.well_formed()
        &&& self.sizes.well_formed()
        &&& self.structure.well_formed()
    }

    /// Every measured file, by the totals per extension.
    pub open spec fn total(&self) -> Tally {
        grand_total(tallies(self.totals.map()))
    }

    /// Whether this is the report of a scan that measured `summary`.
    pub open spec fn reports(&self, summary: Summary, options: ScanOptions) -> bool {
        &&& tallies(self.totals.map()) == summary.extensions
        &&& tallies(self.ages.map()) == summary.ages
        &&& tallies(self.sizes.map()) == summary.sizes
        &&& lists_hotspots(summary.directories, options.hotspots as int, self.hotspots@)
        &&& self.small_at_or_below == options.small_at_or_below
        &&& self.small_files == summary.small.count
        &&& self.small_bytes == summary.small.bytes
        &&& keys(self.largest@) == summary.largest
        &&& self.unmeasurable_files == summary.unmeasurable
    }

    /// Whether every path is spelled as `spelling` says.
    pub open spec fn spelled_by(&self, spelling: Spelling) -> bool {
        hotspots_spelled_by(self.hotspots@, spelling) && largest_spelled_by(self.largest@, spelling)
    }

    /// Extensions ordered by descending file count, ties broken by name so
    /// that repeated scans of the same tree produce identical output.
    pub fn rows(&self) -> (r: Vec<(&str, Bucket)>)
        requires
            self.well_formed(),
        ensures
            lists_extensions(self.totals.map(), entries_of(r@)),
    {
        let ghost m = self.totals.map();
        let ghost pairs = self.totals.pairs();
        let mut found: Vec<RowRef> = Vec::new();
        let mut i: usize = 0;
        while i < self.totals.len()
            invariant
                pairs == self.totals.pairs(),
                i <= pairs.len(),
                found@.len() == i,
                forall|k: int|
                    0 <= k < i ==> (#[trigger] found@[k]).extension@ == pairs[k].0
                        && found@[k].bucket == pairs[k].1,
            decreases pairs.len() - i,
        {
            let name: &String = self.totals.key_at(i);
            assert(name.key() == name@);
            found.push(RowRef { extension: name.as_str(), bucket: self.totals.value_at(i) });
            i = i + 1;
        }
        let all: Vec<RowRef> = sort(&found);
        proof {
            let found_keys = keys(found@);
            assert forall|a: int, b: int| 0 <= a < b < found_keys.len() implies found_keys[a]
                != found_keys[b] by {
                assert(String::precedes(pairs[a].0, pairs[b].0));
                text_order_laws(pairs[a].0, pairs[a].0, pairs[a].0);
            }
            sorted_without_ties(found@, all@);
        }
        let mut r: Vec<(&str, Bucket)> = Vec::new();
        let mut i: usize = 0;
        while i < all.len()
            invariant
                i <= all@.len(),
                r@.len() == i,
                forall|k: int|
                    0 <= k < i ==> (#[trigger] r@[k]).0@ == all@[k].extension@ && r@[k].1
                        == all@[k].bucket,
            decreases all.len() - i,
        {
            r.push((all[i].extension, all[i].bucket));
            i = i + 1;
        }
        proof {
            let rows = entries_of(r@);
            assert forall|k: int| 0 <= k < rows.len() implies (
                (#[trigger] rows[k]).0,
                rows[k].1.count,
            ) == all@[k].key() by {}
            assert forall|k: int| 0 <= k < rows.len() implies m.dom().contains(
                (#[trigger] rows[k]).0,
            ) && m[rows[k].0] == rows[k].1 by {
                assert(found@.contains(all@[k]));
                let j = choose|j: int| 0 <= j < found@.len() && found@[j] == all@[k];
                lemma_map_of::<String, Bucket>(pairs, j);
            }
            assert forall|q: Seq<char>| #[trigger] m.dom().contains(q) implies exists|i: int|
                0 <= i < rows.len() && (#[trigger] rows[i]).0 == q by {
                let j = choose|j: int| 0 <= j < pairs.len() && (#[trigger] pairs[j]).0 == q;
                assert(all@.contains(found@[j]));
                let at = choose|at: int| 0 <= at < all@.len() && all@[at] == found@[j];
                assert(rows[at].0 == q);
            }
        }
        r
    }

    pub fn total_files(&self) -> (r: u64)
        requires
            self.well_formed(),
            fits(self.total().count),
        ensures
            r == self.total().count,
    {
        sum_counts(&self.totals).unwrap()
    }

    pub fn total_bytes(&self) -> (r: u64)
        requires
            self.well_formed(),
            fits(self.total().bytes),
        ensures
            r == self.total().bytes,
    {
        sum_bytes(&self.totals).unwrap()
    }

    /// Mean size across every file measured, or zero if nothing was measured.
    pub fn average_bytes(&self) -> (r: Ratio)
        requires
            self.well_formed(),
            fits(self.total().count),
            self.total().count > 0 ==> fits(self.total().bytes),
        ensures
            r == ratio_of(self.total().bytes as u64, self.total().count as u64),
    {
        let count: u64 = self.total_files();
        if count == 0 {
            ratio(0, 0)
        } else {
            ratio(self.total_bytes(), count)
        }
    }

    /// Age buckets in display order, skipping any that hold no files.
    pub fn age_rows(&self) -> (r: Vec<(AgeBucket, Bucket)>)
        requires
            self.well_formed(),
        ensures
            ascending::<AgeBucket, Bucket>(r@),
            map_of(r@) == self.ages.map(),
    {
        let r = self.ages.rows();
        assert(r@ =~= self.ages.pairs());
        r
    }

    /// Size bands smallest first, skipping any that hold no files.
    pub fn size_rows(&self) -> (r: Vec<(SizeBand, Bucket)>)
        requires
            self.well_formed(),
        ensures
            ascending::<SizeBand, Bucket>(r@),
            map_of(r@) == self.sizes.map(),
    {
        let r = self.sizes.rows();
        assert(r@ =~= self.sizes.pairs());
        r
    }

    /// Share of all files that are small, from 0 to 1.
    pub fn small_share(&self) -> (r: Ratio)
        requires
            self.well_formed(),
            fits(self.total().count),
        ensures
            r == ratio_of(self.small_files, self.total().count as u64),
    {
        ratio(self.small_files, self.total_files())
    }
}

/// Whether the walk of `root` left anything to report. A directory below the
/// root failing leaves a partial result worth reporting. The root itself
/// failing leaves nothing, and returning zero files with a warning would be
/// indistinguishable from an empty directory.
pub fn check_root(root: RootStatus, walk: &Walk) -> (r: Result<(), ScanError>)
    ensures
        r is Ok <==> root != RootStatus::Unreadable && walk@.root_unreadable is None,
        r matches Err(e) ==> e.explains(root, walk@),
{
    match root {
        RootStatus::Unreadable => Err(ScanError::CannotRead),
        _ => match &walk.root_unreadable {
            Some(reason) => Err(ScanError::CannotList { reason: reason.clone() }),
            None => Ok(()),
        },
    }
}

/// Put a scan together: what went wrong during the walk, what was counted in
/// the directories it listed, and what measuring the files came to.
///
/// Returns an error only if the root itself could not be read. Failures below
/// the root are counted on the returned [`Scan`] so that partial results are
/// usable but visibly incomplete.
pub fn scan(
    root: RootStatus,
    walk: Walk,
    structure: &StructureCounters,
    aggregated: Partial,
    options: &ScanOptions,
) -> (r: Result<Scan, ScanError>)
    requires
        structure@.well_formed(),
        aggregated.well_formed(),
    ensures
        r is Ok <==> root != RootStatus::Unreadable && walk@.root_unreadable is None,
        r matches Ok(scan) ==> {
            &&& scan.well_formed()
            &&& scan.reports(aggregated@, *options)
            &&& scan.structure.describes(structure@, root == RootStatus::Directory)
            &&& texts(scan.walk_errors@) == walk@.errors
            &&& scan.walk_error_count == walk@.error_count
            &&& scan.largest@ == aggregated.largest@
            &&& forall|spelling: Spelling|
                aggregated.spelled_by(spelling) ==> #[trigger] scan.spelled_by(spelling)
        },
        r matches Err(e) ==> e.explains(root, walk@),
{
    match check_root(root, &walk) {
        Err(e) => Err(e),
        Ok(_) => {
            let ghost summary = aggregated@;
            let ghost given = aggregated;
            // The last directory of the final share is still buffered.
            let mut aggregated: Partial = aggregated;
            aggregated.flush_pending();
            let hotspots: Vec<Hotspot> = hotspots_of(&aggregated.directories, options.hotspots);
            let root_is_directory: bool = match root {
                RootStatus::Directory => true,
                _ => false,
            };
            assert(aggregated@ == summary);
            assert forall|spelling: Spelling| #[trigger] given.spelled_by(spelling) implies {
                &&& hotspots_spelled_by(hotspots@, spelling)
                &&& largest_spelled_by(aggregated.largest@, spelling)
            } by {
                assert(aggregated.spelled_by(spelling));
            }
            Ok(
                Scan {
                    totals: aggregated.extensions,
                    ages: aggregated.ages,
                    sizes: aggregated.sizes,
                    hotspots,
                    small_at_or_below: options.small_at_or_below,
                    small_files: aggregated.small_files,
                    small_bytes: aggregated.small_bytes,
                    largest: aggregated.largest,
                    structure: structure.finish(root_is_directory),
                    walk_errors: walk.errors,
                    walk_error_count: walk.error_count,
                    unmeasurable_files: aggregated.unmeasurable_files,
                },
            )
        },
    }
}

/// The totals determine the report on extensions to the last row, so repeated
/// scans of the same tree produce identical output.
pub proof fn totals_determine_the_report(
    m: Map<Seq<char>, Bucket>,
    one: Seq<(Seq<char>, Bucket)>,
    other: Seq<(Seq<char>, Bucket)>,
)
    requires
        lists_extensions(m, one),
        lists_extensions(m, other),
    ensures
        one == other,
{
    let s = Seq::new(one.len(), |i: int| (one[i].0, one[i].1.count));
    let t = Seq::new(other.len(), |i: int| (other[i].0, other[i].1.count));
    assert forall|i: int| 0 <= i < s.len() implies t.contains(#[trigger] s[i]) by {
        assert(m.dom().contains(one[i].0));
        let j = choose|j: int| 0 <= j < other.len() && (#[trigger] other[j]).0 == one[i].0;
        assert(t[j] == s[i]);
    }
    assert forall|i: int| 0 <= i < t.len() implies s.contains(#[trigger] t[i]) by {
        assert(m.dom().contains(other[i].0));
        let j = choose|j: int| 0 <= j < one.len() && (#[trigger] one[j]).0 == other[i].0;
        assert(s[j] == t[i]);
    }
    assert forall|i: int, j: int| 0 <= i < j < s.len() implies RowRef::precedes(
        #[trigger] s[i],
        #[trigger] s[j],
    ) by {
        assert(row_precedes((one[i].0, one[i].1.count), (one[j].0, one[j].1.count)));
    }
    assert forall|i: int, j: int| 0 <= i < j < t.len() implies RowRef::precedes(
        #[trigger] t[i],
        #[trigger] t[j],
    ) by {
        assert(row_precedes((other[i].0, other[i].1.count), (other[j].0, other[j].1.count)));
    }
    one_way_to_list::<RowRef>(s, t);
    assert forall|i: int| 0 <= i < one.len() implies #[trigger] one[i] == other[i] by {
        assert(s[i] == t[i]);
        assert(m[one[i].0] == one[i].1);
        assert(m[other[i].0] == other[i].1);
    }
    assert(one =~= other);
}

/// The report on extensions has one row for each, with what was found under
/// it, most files first and by name where the numbers are equal.
pub proof fn extensions_with_the_most_files_come_first(
    m: Map<Seq<char>, Bucket>,
    rows: Seq<(Seq<char>, Bucket)>,
    i: int,
    j: int,
)
    requires
        lists_extensions(m, rows),
        0 <= i < rows.len(),
        0 <= j < rows.len(),
    ensures
        m.dom().contains(rows[i].0),
        m[rows[i].0] == rows[i].1,
        i < j ==> rows[i].1.count >= rows[j].1.count,
        i < j && rows[i].1.count == rows[j].1.count ==> text_precedes(rows[i].0, rows[j].0),
        forall|k: Seq<char>| #[trigger]
            m.dom().contains(k) ==> exists|q: int| 0 <= q < rows.len() && (#[trigger] rows[q]).0
                == k,
{
    if i < j {
        assert(row_precedes((rows[i].0, rows[i].1.count), (rows[j].0, rows[j].1.count)));
    }
}

/// A report has as many rows as were found, each under its own name.
pub proof fn every_row_is_reported(rows: Seq<(&str, Bucket)>, names: Seq<String>, i: int)
    ensures
        entries_of(rows).len() == rows.len(),
        0 <= i < rows.len() ==> entries_of(rows)[i] == (rows[i].0@, rows[i].1),
        texts(names).len() == names.len(),
        0 <= i < names.len() ==> texts(names)[i] == names[i]@,
{
}

/// What is left to list once the worst directory has been.
proof fn hotspots_behind_the_first(
    m: Map<Seq<PartKey>, DirectoryTally>,
    limit: int,
    r: Seq<Hotspot>,
)
    requires
        lists_hotspots(m, limit, r),
        r.len() > 0,
    ensures
        lists_hotspots(m.remove(r[0].directory.components()), limit - 1, r.drop_first()),
{
    let first = r[0].directory.components();
    let rest = r.drop_first();
    let less = m.remove(first);
    assert forall|i: int| 0 <= i < rest.len() implies (#[trigger] rest[i]) == r[i + 1] by {}
    assert forall|i: int| 0 <= i < rest.len() implies {
        let d = (#[trigger] rest[i]).directory.components();
        less.dom().contains(d) && less[d] == rest[i].stats@ && less[d].small.count > 0
    } by {
        assert(hotspot_precedes(r[0].hotspot_key(), r[i + 1].hotspot_key()));
        FilePath::order_laws(first, first, first);
        assert(r[i + 1].stats@.small.count == r[i + 1].stats.small_files);
        assert(r[0].stats@.small.count == r[0].stats.small_files);
    }
    assert forall|i: int, j: int| 0 <= i < j < rest.len() implies hotspot_precedes(
        (#[trigger] rest[i]).hotspot_key(),
        (#[trigger] rest[j]).hotspot_key(),
    ) by {
        assert(hotspot_precedes(r[i + 1].hotspot_key(), r[j + 1].hotspot_key()));
    }
    assert forall|d: Seq<PartKey>| #[trigger]
        less.dom().contains(d) && less[d].small.count > 0 implies {
        ||| exists|i: int| 0 <= i < rest.len() && (#[trigger] rest[i]).directory.components() == d
        ||| rest.len() == limit - 1 && forall|i: int|
            0 <= i < rest.len() ==> hotspot_precedes(
                (#[trigger] rest[i]).hotspot_key(),
                (d, less[d].small.count),
            )
    } by {
        assert(m.dom().contains(d));
        if exists|i: int| 0 <= i < r.len() && (#[trigger] r[i]).directory.components() == d {
            let i = choose|i: int| 0 <= i < r.len() && (#[trigger] r[i]).directory.components() == d;
            assert(rest[i - 1].directory.components() == d);
        } else {
            assert forall|i: int| 0 <= i < rest.len() implies hotspot_precedes(
                (#[trigger] rest[i]).hotspot_key(),
                (d, less[d].small.count),
            ) by {
                assert(hotspot_precedes(r[i + 1].hotspot_key(), (d, m[d].small.count)));
            }
        }
    }
}

/// One listing starts no later than another does.
proof fn first_hotspot_is_no_later(
    m: Map<Seq<PartKey>, DirectoryTally>,
    limit: int,
    one: Seq<Hotspot>,
    other: Seq<Hotspot>,
)
    requires
        lists_hotspots(m, limit, one),
        lists_hotspots(m, limit, other),
        one.len() > 0,
    ensures
        other.len() > 0,
        other[0].hotspot_key() == one[0].hotspot_key() || hotspot_precedes(
            other[0].hotspot_key(),
            one[0].hotspot_key(),
        ),
{
    let d = one[0].directory.components();
    assert(m.dom().contains(d));
    assert((d, m[d].small.count) == one[0].hotspot_key());
    if exists|i: int| 0 <= i < other.len() && (#[trigger] other[i]).directory.components() == d {
        let i = choose|i: int|
            0 <= i < other.len() && (#[trigger] other[i]).directory.components() == d;
        assert(m[d] == other[i].stats@);
        assert(other[i].hotspot_key() == one[0].hotspot_key());
        if i > 0 {
            assert(hotspot_precedes(other[0].hotspot_key(), other[i].hotspot_key()));
        }
    } else {
        assert(hotspot_precedes(other[0].hotspot_key(), (d, m[d].small.count)));
    }
}

/// The totals per directory determine the hotspot report, however they were
/// gathered.
pub proof fn directories_determine_the_hotspots(
    m: Map<Seq<PartKey>, DirectoryTally>,
    limit: int,
    one: Seq<Hotspot>,
    other: Seq<Hotspot>,
)
    requires
        lists_hotspots(m, limit, one),
        lists_hotspots(m, limit, other),
    ensures
        one.len() == other.len(),
        forall|i: int|
            0 <= i < one.len() ==> (#[trigger] one[i]).directory.components()
                == other[i].directory.components() && one[i].stats@ == other[i].stats@,
    decreases one.len(),
{
    if one.len() == 0 {
        if other.len() > 0 {
            first_hotspot_is_no_later(m, limit, other, one);
        }
    } else {
        first_hotspot_is_no_later(m, limit, one, other);
        first_hotspot_is_no_later(m, limit, other, one);
        let a = one[0].hotspot_key();
        let b = other[0].hotspot_key();
        HotspotRef::order_laws(a, b, a);
        HotspotRef::order_laws(a, a, a);
        assert(a == b);
        assert(m[a.0] == one[0].stats@ && m[a.0] == other[0].stats@);
        hotspots_behind_the_first(m, limit, one);
        hotspots_behind_the_first(m, limit, other);
        directories_determine_the_hotspots(
            m.remove(a.0),
            limit - 1,
            one.drop_first(),
            other.drop_first(),
        );
        assert forall|i: int| 0 <= i < one.len() implies (
        #[trigger] one[i]).directory.components() == other[i].directory.components()
            && one[i].stats@ == other[i].stats@ by {
            if i > 0 {
                assert(one.drop_first()[i - 1] == one[i]);
                assert(other.drop_first()[i - 1] == other[i]);
            }
        }
    }
}

} // verus!
