//! The coarse bands that reports group files and directories into.

use crate::order::{Ordered, Rank};
use vstd::prelude::*;

verus! {

/// Nanoseconds in one day.
pub const NANOS_PER_DAY: i128 = 86_400_000_000_000;

pub const KB: u64 = 1024;

pub const MB: u64 = 1_048_576;

/// An instant, in nanoseconds after the start of 1970 (UTC).
#[derive(Debug, Clone, Copy, PartialEq, Eq, Structural)]
pub struct Timestamp {
    pub nanos: i128,
}

fn rank_index(a: usize, b: usize) -> (r: Rank)
    ensures
        r == Rank::First <==> a < b,
        r == Rank::Same <==> a == b,
        r == Rank::Second <==> b < a,
{
    if a < b {
        Rank::First
    } else if a == b {
        Rank::Same
    } else {
        Rank::Second
    }
}

/// How old a file is, in the coarse bands used for the age report.
///
/// Declaration order is display order.
#[derive(Debug, Clone, Copy, PartialEq, Eq, Structural, PartialOrd, Ord, Hash)]
pub enum AgeBucket {
    /// Modified after the scan began. Usually clock skew between the scanning
    /// host and the file server rather than a genuine age.
    Future,
    UpTo30Days,
    From30To90Days,
    From90DaysTo1Year,
    From1To2Years,
    Over2Years,
    /// The filesystem did not report a modification time.
    Unknown,
}

impl AgeBucket {
    /// Every bucket, in display order.
    pub const ALL: [AgeBucket; 7] = [
        AgeBucket::Future,
        AgeBucket::UpTo30Days,
        AgeBucket::From30To90Days,
        AgeBucket::From90DaysTo1Year,
        AgeBucket::From1To2Years,
        AgeBucket::Over2Years,
        AgeBucket::Unknown,
    ];

    /// The name the reports give the band.
    pub open spec fn label_text(self) -> Seq<char> {
        match self {
            AgeBucket::Future => "modified in future"@,
            AgeBucket::UpTo30Days => "under 30 days"@,
            AgeBucket::From30To90Days => "30 to 90 days"@,
            AgeBucket::From90DaysTo1Year => "90 days to 1 year"@,
            AgeBucket::From1To2Years => "1 to 2 years"@,
            AgeBucket::Over2Years => "over 2 years"@,
            AgeBucket::Unknown => "unknown"@,
        }
    }

    pub fn label(self) -> (r: &'static str)
        ensures
            r@ == self.label_text(),
    {
        match self {
            AgeBucket::Future => "modified in future",
            AgeBucket::UpTo30Days => "under 30 days",
            AgeBucket::From30To90Days => "30 to 90 days",
            AgeBucket::From90DaysTo1Year => "90 days to 1 year",
            AgeBucket::From1To2Years => "1 to 2 years",
            AgeBucket::Over2Years => "over 2 years",
            AgeBucket::Unknown => "unknown",
        }
    }

    /// Position in display order.
    pub open spec fn position(self) -> usize {
        match self {
            AgeBucket::Future => 0,
            AgeBucket::UpTo30Days => 1,
            AgeBucket::From30To90Days => 2,
            AgeBucket::From90DaysTo1Year => 3,
            AgeBucket::From1To2Years => 4,
            AgeBucket::Over2Years => 5,
            AgeBucket::Unknown => 6,
        }
    }

    /// Position in [`AgeBucket::ALL`].
    pub fn index(self) -> (r: usize)
        ensures
            r == self.position(),
            r < Self::ALL@.len(),
            Self::ALL@[r as int] == self,
    {
        match self {
            AgeBucket::Future => 0,
            AgeBucket::UpTo30Days => 1,
            AgeBucket::From30To90Days => 2,
            AgeBucket::From90DaysTo1Year => 3,
            AgeBucket::From1To2Years => 4,
            AgeBucket::Over2Years => 5,
            AgeBucket::Unknown => 6,
        }
    }

    /// Whether a file last modified at `modified` belongs in the bucket, as
    /// seen from `now`. Ages count in whole days, and a year is 365 of them.
    pub open spec fn covers(self, modified: Option<Timestamp>, now: Timestamp) -> bool {
        match modified {
            None => self == AgeBucket::Unknown,
            Some(at) => {
                let days = (now.nanos - at.nanos) / (NANOS_PER_DAY as int);
                match self {
                    AgeBucket::Future => at.nanos > now.nanos,
                    AgeBucket::UpTo30Days => 0 <= days < 30,
                    AgeBucket::From30To90Days => 30 <= days < 90,
                    AgeBucket::From90DaysTo1Year => 90 <= days < 365,
                    AgeBucket::From1To2Years => 365 <= days < 730,
                    AgeBucket::Over2Years => 730 <= days,
                    AgeBucket::Unknown => false,
                }
            },
        }
    }
}

impl Ordered for AgeBucket {
    type Key = AgeBucket;

    open spec fn key(&self) -> AgeBucket {
        *self
    }

    open spec fn precedes(a: AgeBucket, b: AgeBucket) -> bool {
        a.position() < b.position()
    }

    proof fn order_laws(a: AgeBucket, b: AgeBucket, c: AgeBucket) {
    }

    fn rank(&self, other: &Self) -> (r: Rank) {
        rank_index(self.index(), other.index())
    }
}

/// The bucket that covers a modification time.
pub open spec fn age_of(modified: Option<Timestamp>, now: Timestamp) -> AgeBucket {
    choose|b: AgeBucket| b.covers(modified, now)
}

/// Every modification time belongs in one bucket and no other.
pub proof fn age_buckets_neither_overlap_nor_leave_gaps(
    modified: Option<Timestamp>,
    now: Timestamp,
    b: AgeBucket,
)
    ensures
        b.covers(modified, now) <==> b == age_of(modified, now),
{
    match modified {
        None => {
            assert(AgeBucket::Unknown.covers(modified, now));
        },
        Some(at) => {
            let days = (now.nanos - at.nanos) / (NANOS_PER_DAY as int);
            if at.nanos > now.nanos {
                assert(AgeBucket::Future.covers(modified, now));
            } else if days < 30 {
                assert(AgeBucket::UpTo30Days.covers(modified, now));
            } else if days < 90 {
                assert(AgeBucket::From30To90Days.covers(modified, now));
            } else if days < 365 {
                assert(AgeBucket::From90DaysTo1Year.covers(modified, now));
            } else if days < 730 {
                assert(AgeBucket::From1To2Years.covers(modified, now));
            } else {
                assert(AgeBucket::Over2Years.covers(modified, now));
            }
        },
    }
}

/// A file never moves to a later bucket by having been modified more recently.
pub proof fn age_buckets_follow_age(older: Timestamp, newer: Timestamp, now: Timestamp)
    requires
        older.nanos <= newer.nanos,
    ensures
        age_of(Some(newer), now).position() <= age_of(Some(older), now).position(),
{
    age_buckets_neither_overlap_nor_leave_gaps(Some(older), now, age_of(Some(older), now));
    age_buckets_neither_overlap_nor_leave_gaps(Some(newer), now, age_of(Some(newer), now));
    let a = now.nanos - newer.nanos;
    let b = now.nanos - older.nanos;
    vstd::arithmetic::div_mod::lemma_div_is_ordered(a, b, NANOS_PER_DAY as int);
}

/// Place a modification time into an [`AgeBucket`] relative to `now`.
///
/// A year is treated as 365 days; the bands are coarse enough that leap days
/// make no difference. A time later than `now` is reported as
/// [`AgeBucket::Future`] rather than being clamped, since it means the clocks
/// disagree and the age is not trustworthy.
pub fn classify_age(modified: Option<Timestamp>, now: Timestamp) -> (r: AgeBucket)
    ensures
        r == age_of(modified, now),
        r.covers(modified, now),
{
    proof {
        age_buckets_neither_overlap_nor_leave_gaps(modified, now, age_of(modified, now));
    }
    let at: Timestamp = match modified {
        Some(at) => at,
        None => {
            return AgeBucket::Unknown;
        },
    };
    if at.nanos > now.nanos {
        return AgeBucket::Future;
    }
    let age: i128 = match now.nanos.checked_sub(at.nanos) {
        Some(age) => age,
        None => {
            return AgeBucket::Over2Years;
        },
    };
    let days: i128 = age / NANOS_PER_DAY;
    if days < 30 {
        AgeBucket::UpTo30Days
    } else if days < 90 {
        AgeBucket::From30To90Days
    } else if days < 365 {
        AgeBucket::From90DaysTo1Year
    } else if days < 730 {
        AgeBucket::From1To2Years
    } else {
        AgeBucket::Over2Years
    }
}

/// Size bands, chosen around backup behaviour rather than round numbers.
///
/// Per-file overhead dominates backup throughput for small files no matter how
/// fast the link is, so the interesting detail is all at the bottom of the
/// range.
#[derive(Debug, Clone, Copy, PartialEq, Eq, Structural, PartialOrd, Ord, Hash)]
pub enum SizeBand {
    /// Zero bytes: pure per-file overhead, no payload at all.
    Empty,
    Under4K,
    From4KTo64K,
    From64KTo1M,
    From1MTo16M,
    From16MTo128M,
    Over128M,
}

impl SizeBand {
    /// Every band, smallest first. Declaration order is display order.
    pub const ALL: [SizeBand; 7] = [
        SizeBand::Empty,
        SizeBand::Under4K,
        SizeBand::From4KTo64K,
        SizeBand::From64KTo1M,
        SizeBand::From1MTo16M,
        SizeBand::From16MTo128M,
        SizeBand::Over128M,
    ];

    /// The name the reports give the band.
    pub open spec fn label_text(self) -> Seq<char> {
        match self {
            SizeBand::Empty => "empty"@,
            SizeBand::Under4K => "under 4 KB"@,
            SizeBand::From4KTo64K => "4 KB to 64 KB"@,
            SizeBand::From64KTo1M => "64 KB to 1 MB"@,
            SizeBand::From1MTo16M => "1 MB to 16 MB"@,
            SizeBand::From16MTo128M => "16 MB to 128 MB"@,
            SizeBand::Over128M => "over 128 MB"@,
        }
    }

    pub fn label(self) -> (r: &'static str)
        ensures
            r@ == self.label_text(),
    {
        match self {
            SizeBand::Empty => "empty",
            SizeBand::Under4K => "under 4 KB",
            SizeBand::From4KTo64K => "4 KB to 64 KB",
            SizeBand::From64KTo1M => "64 KB to 1 MB",
            SizeBand::From1MTo16M => "1 MB to 16 MB",
            SizeBand::From16MTo128M => "16 MB to 128 MB",
            SizeBand::Over128M => "over 128 MB",
        }
    }

    /// Position in display order.
    pub open spec fn position(self) -> usize {
        match self {
            SizeBand::Empty => 0,
            SizeBand::Under4K => 1,
            SizeBand::From4KTo64K => 2,
            SizeBand::From64KTo1M => 3,
            SizeBand::From1MTo16M => 4,
            SizeBand::From16MTo128M => 5,
            SizeBand::Over128M => 6,
        }
    }

    /// Position in [`SizeBand::ALL`].
    pub fn index(self) -> (r: usize)
        ensures
            r == self.position(),
            r < Self::ALL@.len(),
            Self::ALL@[r as int] == self,
    {
        match self {
            SizeBand::Empty => 0,
            SizeBand::Under4K => 1,
            SizeBand::From4KTo64K => 2,
            SizeBand::From64KTo1M => 3,
            SizeBand::From1MTo16M => 4,
            SizeBand::From16MTo128M => 5,
            SizeBand::Over128M => 6,
        }
    }

    /// Whether a file of `bytes` bytes belongs in the band.
    pub open spec fn covers(self, bytes: u64) -> bool {
        match self {
            SizeBand::Empty => bytes == 0,
            SizeBand::Under4K => 0 < bytes < 4 * KB,
            SizeBand::From4KTo64K => 4 * KB <= bytes < 64 * KB,
            SizeBand::From64KTo1M => 64 * KB <= bytes < MB,
            SizeBand::From1MTo16M => MB <= bytes < 16 * MB,
            SizeBand::From16MTo128M => 16 * MB <= bytes < 128 * MB,
            SizeBand::Over128M => 128 * MB <= bytes,
        }
    }
}

impl Ordered for SizeBand {
    type Key = SizeBand;

    open spec fn key(&self) -> SizeBand {
        *self
    }

    open spec fn precedes(a: SizeBand, b: SizeBand) -> bool {
        a.position() < b.position()
    }

    proof fn order_laws(a: SizeBand, b: SizeBand, c: SizeBand) {
    }

    fn rank(&self, other: &Self) -> (r: Rank) {
        rank_index(self.index(), other.index())
    }
}

/// The band that covers a file of `bytes` bytes.
pub open spec fn size_band_of(bytes: u64) -> SizeBand {
    choose|b: SizeBand| b.covers(bytes)
}

/// Every file size belongs in one band and no other.
pub proof fn size_bands_neither_overlap_nor_leave_gaps(bytes: u64, b: SizeBand)
    ensures
        b.covers(bytes) <==> b == size_band_of(bytes),
{
    if SizeBand::Empty.covers(bytes) {
        assert(size_band_of(bytes).covers(bytes));
    }
    if SizeBand::Under4K.covers(bytes) {
        assert(size_band_of(bytes).covers(bytes));
    }
    if SizeBand::From4KTo64K.covers(bytes) {
        assert(size_band_of(bytes).covers(bytes));
    }
    if SizeBand::From64KTo1M.covers(bytes) {
        assert(size_band_of(bytes).covers(bytes));
    }
    if SizeBand::From1MTo16M.covers(bytes) {
        assert(size_band_of(bytes).covers(bytes));
    }
    if SizeBand::From16MTo128M.covers(bytes) {
        assert(size_band_of(bytes).covers(bytes));
    }
    if SizeBand::Over128M.covers(bytes) {
        assert(size_band_of(bytes).covers(bytes));
    }
}

/// A larger file size never lands in an earlier band.
pub proof fn size_bands_follow_size(a: u64, b: u64)
    requires
        a <= b,
    ensures
        size_band_of(a).position() <= size_band_of(b).position(),
{
    size_bands_neither_overlap_nor_leave_gaps(a, size_band_of(a));
    size_bands_neither_overlap_nor_leave_gaps(b, size_band_of(b));
}

/// Place a file size into a [`SizeBand`]. Each boundary belongs to the band
/// above it.
pub fn classify_size(bytes: u64) -> (r: SizeBand)
    ensures
        r == size_band_of(bytes),
        r.covers(bytes),
{
    proof {
        size_bands_neither_overlap_nor_leave_gaps(bytes, size_band_of(bytes));
    }
    if bytes == 0 {
        SizeBand::Empty
    } else if bytes < 4 * KB {
        SizeBand::Under4K
    } else if bytes < 64 * KB {
        SizeBand::From4KTo64K
    } else if bytes < MB {
        SizeBand::From64KTo1M
    } else if bytes < 16 * MB {
        SizeBand::From1MTo16M
    } else if bytes < 128 * MB {
        SizeBand::From16MTo128M
    } else {
        SizeBand::Over128M
    }
}

/// How many subdirectories one directory holds.
///
/// Bands rather than exact counts: the report is meant to describe the shape
/// of a tree to someone who should not see what is in it. Declaration order is
/// display order.
#[derive(Debug, Clone, Copy, PartialEq, Eq, Structural, PartialOrd, Ord, Hash)]
pub enum FanOut {
    /// No subdirectories at all, so a leaf of the tree.
    Leaf,
    One,
    From2To9,
    From10To99,
    From100To999,
    Over1000,
}

impl FanOut {
    /// Every band, fewest subdirectories first. Declaration order is display
    /// order.
    pub const ALL: [FanOut; 6] = [
        FanOut::Leaf,
        FanOut::One,
        FanOut::From2To9,
        FanOut::From10To99,
        FanOut::From100To999,
        FanOut::Over1000,
    ];

    /// The name the reports give the band.
    pub open spec fn label_text(self) -> Seq<char> {
        match self {
            FanOut::Leaf => "none (leaf)"@,
            FanOut::One => "1"@,
            FanOut::From2To9 => "2 to 9"@,
            FanOut::From10To99 => "10 to 99"@,
            FanOut::From100To999 => "100 to 999"@,
            FanOut::Over1000 => "1000 or more"@,
        }
    }

    pub fn label(self) -> (r: &'static str)
        ensures
            r@ == self.label_text(),
    {
        match self {
            FanOut::Leaf => "none (leaf)",
            FanOut::One => "1",
            FanOut::From2To9 => "2 to 9",
            FanOut::From10To99 => "10 to 99",
            FanOut::From100To999 => "100 to 999",
            FanOut::Over1000 => "1000 or more",
        }
    }

    /// Position in display order.
    pub open spec fn position(self) -> usize {
        match self {
            FanOut::Leaf => 0,
            FanOut::One => 1,
            FanOut::From2To9 => 2,
            FanOut::From10To99 => 3,
            FanOut::From100To999 => 4,
            FanOut::Over1000 => 5,
        }
    }

    /// Position in [`FanOut::ALL`].
    pub fn index(self) -> (r: usize)
        ensures
            r == self.position(),
            r < Self::ALL@.len(),
            Self::ALL@[r as int] == self,
    {
        match self {
            FanOut::Leaf => 0,
            FanOut::One => 1,
            FanOut::From2To9 => 2,
            FanOut::From10To99 => 3,
            FanOut::From100To999 => 4,
            FanOut::Over1000 => 5,
        }
    }

    /// Whether a directory holding `subdirectories` subdirectories belongs in the band.
    pub open spec fn covers(self, subdirectories: u64) -> bool {
        match self {
            FanOut::Leaf => subdirectories == 0,
            FanOut::One => subdirectories == 1,
            FanOut::From2To9 => 2 <= subdirectories <= 9,
            FanOut::From10To99 => 10 <= subdirectories <= 99,
            FanOut::From100To999 => 100 <= subdirectories <= 999,
            FanOut::Over1000 => 1000 <= subdirectories,
        }
    }
}

impl Ordered for FanOut {
    type Key = FanOut;

    open spec fn key(&self) -> FanOut {
        *self
    }

    open spec fn precedes(a: FanOut, b: FanOut) -> bool {
        a.position() < b.position()
    }

    proof fn order_laws(a: FanOut, b: FanOut, c: FanOut) {
    }

    fn rank(&self, other: &Self) -> (r: Rank) {
        rank_index(self.index(), other.index())
    }
}

/// The band that covers a directory holding `subdirectories` subdirectories.
pub open spec fn fan_out_of(subdirectories: u64) -> FanOut {
    choose|b: FanOut| b.covers(subdirectories)
}

/// Every subdirectory count belongs in one band and no other.
pub proof fn fan_out_bands_neither_overlap_nor_leave_gaps(subdirectories: u64, b: FanOut)
    ensures
        b.covers(subdirectories) <==> b == fan_out_of(subdirectories),
{
    if FanOut::Leaf.covers(subdirectories) {
        assert(fan_out_of(subdirectories).covers(subdirectories));
    }
    if FanOut::One.covers(subdirectories) {
        assert(fan_out_of(subdirectories).covers(subdirectories));
    }
    if FanOut::From2To9.covers(subdirectories) {
        assert(fan_out_of(subdirectories).covers(subdirectories));
    }
    if FanOut::From10To99.covers(subdirectories) {
        assert(fan_out_of(subdirectories).covers(subdirectories));
    }
    if FanOut::From100To999.covers(subdirectories) {
        assert(fan_out_of(subdirectories).covers(subdirectories));
    }
    if FanOut::Over1000.covers(subdirectories) {
        assert(fan_out_of(subdirectories).covers(subdirectories));
    }
}

/// A larger subdirectory count never lands in an earlier band.
pub proof fn fan_out_bands_follow_count(a: u64, b: u64)
    requires
        a <= b,
    ensures
        fan_out_of(a).position() <= fan_out_of(b).position(),
{
    fan_out_bands_neither_overlap_nor_leave_gaps(a, fan_out_of(a));
    fan_out_bands_neither_overlap_nor_leave_gaps(b, fan_out_of(b));
}

/// Place a subdirectory count into a [`FanOut`] band.
pub fn classify_fan_out(subdirectories: u64) -> (r: FanOut)
    ensures
        r == fan_out_of(subdirectories),
        r.covers(subdirectories),
{
    proof {
        fan_out_bands_neither_overlap_nor_leave_gaps(subdirectories, fan_out_of(subdirectories));
    }
    if subdirectories == 0 {
        FanOut::Leaf
    } else if subdirectories == 1 {
        FanOut::One
    } else if subdirectories <= 9 {
        FanOut::From2To9
    } else if subdirectories <= 99 {
        FanOut::From10To99
    } else if subdirectories <= 999 {
        FanOut::From100To999
    } else {
        FanOut::Over1000
    }
}

/// How many files one directory holds directly, not counting its
/// subdirectories.
///
/// Declaration order is display order.
#[derive(Debug, Clone, Copy, PartialEq, Eq, Structural, PartialOrd, Ord, Hash)]
pub enum FileCount {
    /// Holds no files, only subdirectories or nothing at all.
    NoFiles,
    From1To9,
    From10To99,
    From100To999,
    From1000To9999,
    Over10000,
}

impl FileCount {
    /// Every band, fewest files first. Declaration order is display order.
    pub const ALL: [FileCount; 6] = [
        FileCount::NoFiles,
        FileCount::From1To9,
        FileCount::From10To99,
        FileCount::From100To999,
        FileCount::From1000To9999,
        FileCount::Over10000,
    ];

    /// The name the reports give the band.
    pub open spec fn label_text(self) -> Seq<char> {
        match self {
            FileCount::NoFiles => "none"@,
            FileCount::From1To9 => "1 to 9"@,
            FileCount::From10To99 => "10 to 99"@,
            FileCount::From100To999 => "100 to 999"@,
            FileCount::From1000To9999 => "1000 to 9999"@,
            FileCount::Over10000 => "10000 or more"@,
        }
    }

    pub fn label(self) -> (r: &'static str)
        ensures
            r@ == self.label_text(),
    {
        match self {
            FileCount::NoFiles => "none",
            FileCount::From1To9 => "1 to 9",
            FileCount::From10To99 => "10 to 99",
            FileCount::From100To999 => "100 to 999",
            FileCount::From1000To9999 => "1000 to 9999",
            FileCount::Over10000 => "10000 or more",
        }
    }

    /// Position in display order.
    pub open spec fn position(self) -> usize {
        match self {
            FileCount::NoFiles => 0,
            FileCount::From1To9 => 1,
            FileCount::From10To99 => 2,
            FileCount::From100To999 => 3,
            FileCount::From1000To9999 => 4,
            FileCount::Over10000 => 5,
        }
    }

    /// Position in [`FileCount::ALL`].
    pub fn index(self) -> (r: usize)
        ensures
            r == self.position(),
            r < Self::ALL@.len(),
            Self::ALL@[r as int] == self,
    {
        match self {
            FileCount::NoFiles => 0,
            FileCount::From1To9 => 1,
            FileCount::From10To99 => 2,
            FileCount::From100To999 => 3,
            FileCount::From1000To9999 => 4,
            FileCount::Over10000 => 5,
        }
    }

    /// Whether a directory holding `files` files belongs in the band.
    pub open spec fn covers(self, files: u64) -> bool {
        match self {
            FileCount::NoFiles => files == 0,
            FileCount::From1To9 => 1 <= files <= 9,
            FileCount::From10To99 => 10 <= files <= 99,
            FileCount::From100To999 => 100 <= files <= 999,
            FileCount::From1000To9999 => 1000 <= files <= 9999,
            FileCount::Over10000 => 10000 <= files,
        }
    }
}

impl Ordered for FileCount {
    type Key = FileCount;

    open spec fn key(&self) -> FileCount {
        *self
    }

    open spec fn precedes(a: FileCount, b: FileCount) -> bool {
        a.position() < b.position()
    }

    proof fn order_laws(a: FileCount, b: FileCount, c: FileCount) {
    }

    fn rank(&self, other: &Self) -> (r: Rank) {
        rank_index(self.index(), other.index())
    }
}

/// The band that covers a directory holding `files` files.
pub open spec fn file_count_of(files: u64) -> FileCount {
    choose|b: FileCount| b.covers(files)
}

/// Every file count belongs in one band and no other.
pub proof fn file_count_bands_neither_overlap_nor_leave_gaps(files: u64, b: FileCount)
    ensures
        b.covers(files) <==> b == file_count_of(files),
{
    if FileCount::NoFiles.covers(files) {
        assert(file_count_of(files).covers(files));
    }
    if FileCount::From1To9.covers(files) {
        assert(file_count_of(files).covers(files));
    }
    if FileCount::From10To99.covers(files) {
        assert(file_count_of(files).covers(files));
    }
    if FileCount::From100To999.covers(files) {
        assert(file_count_of(files).covers(files));
    }
    if FileCount::From1000To9999.covers(files) {
        assert(file_count_of(files).covers(files));
    }
    if FileCount::Over10000.covers(files) {
        assert(file_count_of(files).covers(files));
    }
}

/// A larger file count never lands in an earlier band.
pub proof fn file_count_bands_follow_count(a: u64, b: u64)
    requires
        a <= b,
    ensures
        file_count_of(a).position() <= file_count_of(b).position(),
{
    file_count_bands_neither_overlap_nor_leave_gaps(a, file_count_of(a));
    file_count_bands_neither_overlap_nor_leave_gaps(b, file_count_of(b));
}

/// Place a directory's own file count into a [`FileCount`] band.
pub fn classify_file_count(files: u64) -> (r: FileCount)
    ensures
        r == file_count_of(files),
        r.covers(files),
{
    proof {
        file_count_bands_neither_overlap_nor_leave_gaps(files, file_count_of(files));
    }
    if files == 0 {
        FileCount::NoFiles
    } else if files <= 9 {
        FileCount::From1To9
    } else if files <= 99 {
        FileCount::From10To99
    } else if files <= 999 {
        FileCount::From100To999
    } else if files <= 9999 {
        FileCount::From1000To9999
    } else {
        FileCount::Over10000
    }
}

} // verus!
