//! Running totals of files and bytes.

use crate::sorted_map::Amount;
use vstd::prelude::*;

verus! {

/// Whether a count fits the counters it is kept in.
pub open spec fn fits(n: int) -> bool {
    0 <= n <= u64::MAX
}

/// An exact quotient of two counts.
#[derive(Debug, Clone, Copy, PartialEq, Eq, Structural)]
pub struct Ratio {
    pub numerator: u64,
    pub denominator: u64,
}

/// `whole` divided by `parts`, or zero if there are no parts.
pub open spec fn ratio_of(whole: u64, parts: u64) -> Ratio {
    if parts == 0 {
        Ratio { numerator: 0, denominator: 1 }
    } else {
        Ratio { numerator: whole, denominator: parts }
    }
}

/// A quotient can always be taken: nothing is ever divided by zero.
pub proof fn ratio_is_finite(whole: u64, parts: u64)
    ensures
        ratio_of(whole, parts).denominator > 0,
        parts == 0 ==> ratio_of(whole, parts).numerator == 0,
{
}

/// The whole number nearest to a quotient; halfway between two, the even one.
pub open spec fn nearest(numerator: int, denominator: int) -> int {
    let below = numerator / denominator;
    let over = numerator % denominator;
    if 2 * over < denominator || (2 * over == denominator && below % 2 == 0) {
        below
    } else {
        below + 1
    }
}

/// Rounding goes to the nearest whole number: twice the distance is at most one
/// denominator, and where it is just that the result is even.
pub proof fn rounding_goes_to_the_nearest(numerator: int, denominator: int)
    requires
        numerator >= 0,
        denominator > 0,
    ensures
        ({
            let off = 2 * (numerator - nearest(numerator, denominator) * denominator);
            &&& -denominator <= off <= denominator
            &&& off == denominator || off == -denominator ==> nearest(numerator, denominator) % 2
                == 0
            &&& nearest(numerator, denominator) >= 0
        }),
{
    let below = numerator / denominator;
    let over = numerator % denominator;
    vstd::arithmetic::div_mod::lemma_fundamental_div_mod(numerator, denominator);
    assert(denominator * below == below * denominator) by (nonlinear_arith);
    assert((below + 1) * denominator == below * denominator + denominator) by (nonlinear_arith);
    assert(below >= 0) by (nonlinear_arith)
        requires
            numerator >= 0,
            denominator > 0,
            below == numerator / denominator,
    ;
    assert(0 <= over < denominator);
}

/// A quotient is what there is divided by how many there are, and nothing if
/// there are none.
pub proof fn a_quotient_is_whole_by_parts(whole: u64, parts: u64)
    ensures
        parts > 0 ==> ratio_of(whole, parts).numerator * parts == whole * ratio_of(
            whole,
            parts,
        ).denominator,
        parts == 0 ==> ratio_of(whole, parts).numerator == 0,
        ratio_of(whole, parts).denominator > 0,
{
}

impl Ratio {
    /// The nearest whole number; halfway between two, the even one.
    pub fn rounded(&self) -> (r: u64)
        requires
            self.denominator > 0,
        ensures
            r == nearest(self.numerator as int, self.denominator as int),
    {
        let below: u64 = self.numerator / self.denominator;
        let over: u64 = self.numerator % self.denominator;
        let short: u64 = self.denominator - over;
        if over < short || (over == short && below % 2 == 0) {
            below
        } else {
            proof {
                let n = self.numerator as int;
                let d = self.denominator as int;
                assert(d >= 2);
                assert(n / d <= n / 2) by (nonlinear_arith)
                    requires
                        n >= 0,
                        d >= 2,
                ;
            }
            below + 1
        }
    }
}

/// `whole` divided by `parts`, or zero if there are no parts.
pub fn ratio(whole: u64, parts: u64) -> (r: Ratio)
    ensures
        r == ratio_of(whole, parts),
{
    if parts == 0 {
        Ratio { numerator: 0, denominator: 1 }
    } else {
        Ratio { numerator: whole, denominator: parts }
    }
}

/// A number of files and the bytes they hold.
pub struct Tally {
    pub count: int,
    pub bytes: int,
}

impl Tally {
    pub open spec fn zero() -> Tally {
        Tally { count: 0, bytes: 0 }
    }

    /// One file of `size` bytes.
    pub open spec fn one(size: int) -> Tally {
        Tally { count: 1, bytes: size }
    }

    pub open spec fn plus(self, other: Tally) -> Tally {
        Tally { count: self.count + other.count, bytes: self.bytes + other.bytes }
    }

    pub open spec fn fits(self) -> bool {
        fits(self.count) && fits(self.bytes)
    }
}

/// Running totals for a single extension.
#[derive(Debug, Clone, Copy, PartialEq, Eq, Structural)]
pub struct Bucket {
    pub count: u64,
    pub bytes: u64,
}

impl View for Bucket {
    type V = Tally;

    open spec fn view(&self) -> Tally {
        Tally { count: self.count as int, bytes: self.bytes as int }
    }
}

impl Default for Bucket {
    fn default() -> (r: Bucket)
        ensures
            r@ == Tally::zero(),
    {
        Bucket { count: 0, bytes: 0 }
    }
}

impl Bucket {
    /// Count one more file of `size` bytes.
    pub fn add_file(&mut self, size: u64)
        requires
            old(self)@.plus(Tally::one(size as int)).fits(),
        ensures
            final(self)@ == old(self)@.plus(Tally::one(size as int)),
    {
        self.count = self.count + 1;
        self.bytes = self.bytes + size;
    }

    /// Count everything that `other` counted.
    pub fn merge(&mut self, other: Bucket)
        requires
            old(self)@.plus(other@).fits(),
        ensures
            final(self)@ == old(self)@.plus(other@),
    {
        self.count = self.count + other.count;
        self.bytes = self.bytes + other.bytes;
    }

    /// The two totals together, unless one of them does not fit.
    pub fn checked_merge(&self, other: Bucket) -> (r: Option<Bucket>)
        ensures
            r is Some <==> self@.plus(other@).fits(),
            r matches Some(sum) ==> sum@ == self@.plus(other@),
    {
        match (self.count.checked_add(other.count), self.bytes.checked_add(other.bytes)) {
            (Some(count), Some(bytes)) => Some(Bucket { count, bytes }),
            _ => None,
        }
    }

    /// Mean file size in bytes, or zero for an empty bucket.
    pub fn average_bytes(&self) -> (r: Ratio)
        ensures
            r == ratio_of(self.bytes, self.count),
    {
        ratio(self.bytes, self.count)
    }
}

impl Amount for Bucket {
    open spec fn addable(self, other: Bucket) -> bool {
        self@.plus(other@).fits()
    }

    open spec fn sum(self, other: Bucket) -> Bucket {
        Bucket {
            count: (self.count + other.count) as u64,
            bytes: (self.bytes + other.bytes) as u64,
        }
    }

    fn plus(self, other: Bucket) -> (r: Bucket) {
        let mut r: Bucket = self;
        r.merge(other);
        r
    }
}

/// What one directory holds, in exact numbers.
pub struct DirectoryTally {
    pub all: Tally,
    pub small: Tally,
}

impl DirectoryTally {
    pub open spec fn zero() -> DirectoryTally {
        DirectoryTally { all: Tally::zero(), small: Tally::zero() }
    }

    /// One file of `size` bytes, which is small if it is no larger than the
    /// threshold.
    pub open spec fn one(size: int, small_at_or_below: int) -> DirectoryTally {
        DirectoryTally {
            all: Tally::one(size),
            small: if size <= small_at_or_below {
                Tally::one(size)
            } else {
                Tally::zero()
            },
        }
    }

    pub open spec fn plus(self, other: DirectoryTally) -> DirectoryTally {
        DirectoryTally { all: self.all.plus(other.all), small: self.small.plus(other.small) }
    }

    pub open spec fn fits(self) -> bool {
        self.all.fits() && self.small.fits()
    }
}

/// What one directory holds, used to find small-file concentrations.
#[derive(Debug, Clone, Copy, PartialEq, Eq, Structural)]
pub struct DirectoryStats {
    pub files: u64,
    pub bytes: u64,
    /// Files at or below the configured small-file threshold.
    pub small_files: u64,
    pub small_bytes: u64,
}

impl View for DirectoryStats {
    type V = DirectoryTally;

    open spec fn view(&self) -> DirectoryTally {
        DirectoryTally {
            all: Tally { count: self.files as int, bytes: self.bytes as int },
            small: Tally { count: self.small_files as int, bytes: self.small_bytes as int },
        }
    }
}

impl Default for DirectoryStats {
    fn default() -> (r: DirectoryStats)
        ensures
            r@ == DirectoryTally::zero(),
    {
        DirectoryStats { files: 0, bytes: 0, small_files: 0, small_bytes: 0 }
    }
}

impl DirectoryStats {
    /// Count one more file of `size` bytes.
    pub fn add_file(&mut self, size: u64, small_at_or_below: u64)
        requires
            old(self)@.plus(DirectoryTally::one(size as int, small_at_or_below as int)).fits(),
        ensures
            final(self)@ == old(self)@.plus(
                DirectoryTally::one(size as int, small_at_or_below as int),
            ),
    {
        self.files = self.files + 1;
        self.bytes = self.bytes + size;
        if size <= small_at_or_below {
            self.small_files = self.small_files + 1;
            self.small_bytes = self.small_bytes + size;
        }
    }

    /// Count everything that `other` counted.
    pub fn merge(&mut self, other: DirectoryStats)
        requires
            old(self)@.plus(other@).fits(),
        ensures
            final(self)@ == old(self)@.plus(other@),
    {
        self.files = self.files + other.files;
        self.bytes = self.bytes + other.bytes;
        self.small_files = self.small_files + other.small_files;
        self.small_bytes = self.small_bytes + other.small_bytes;
    }

    /// The two sets of totals together, unless one of them does not fit.
    pub fn checked_merge(&self, other: DirectoryStats) -> (r: Option<DirectoryStats>)
        ensures
            r is Some <==> self@.plus(other@).fits(),
            r matches Some(sum) ==> sum@ == self@.plus(other@),
    {
        let all: Bucket = Bucket { count: self.files, bytes: self.bytes };
        let small: Bucket = Bucket { count: self.small_files, bytes: self.small_bytes };
        let more: Bucket = Bucket { count: other.files, bytes: other.bytes };
        let more_small: Bucket = Bucket { count: other.small_files, bytes: other.small_bytes };
        match (all.checked_merge(more), small.checked_merge(more_small)) {
            (Some(a), Some(s)) => Some(
                DirectoryStats {
                    files: a.count,
                    bytes: a.bytes,
                    small_files: s.count,
                    small_bytes: s.bytes,
                },
            ),
            _ => None,
        }
    }

    /// Mean file size in bytes, or zero for an empty directory.
    pub fn average_bytes(&self) -> (r: Ratio)
        ensures
            r == ratio_of(self.bytes, self.files),
    {
        ratio(self.bytes, self.files)
    }

    /// Proportion of this directory's files that count as small, from 0 to 1.
    pub fn small_share(&self) -> (r: Ratio)
        ensures
            r == ratio_of(self.small_files, self.files),
    {
        ratio(self.small_files, self.files)
    }
}

impl Amount for DirectoryStats {
    open spec fn addable(self, other: DirectoryStats) -> bool {
        self@.plus(other@).fits()
    }

    open spec fn sum(self, other: DirectoryStats) -> DirectoryStats {
        DirectoryStats {
            files: (self.files + other.files) as u64,
            bytes: (self.bytes + other.bytes) as u64,
            small_files: (self.small_files + other.small_files) as u64,
            small_bytes: (self.small_bytes + other.small_bytes) as u64,
        }
    }

    fn plus(self, other: DirectoryStats) -> (r: DirectoryStats) {
        let mut r: DirectoryStats = self;
        r.merge(other);
        r
    }
}

/// A set of directories counted together, and the files that go with them.
///
/// What "the files that go with them" means depends on the report: for a
/// level it is the files sitting at that level, and for a band it is the files
/// held by the directories in the band. Each accessor says which.
#[derive(Debug, Clone, Copy, PartialEq, Eq, Structural)]
pub struct DirectoryGroup {
    pub directories: u64,
    pub files: u64,
}

impl Default for DirectoryGroup {
    fn default() -> (r: DirectoryGroup)
        ensures
            r == (DirectoryGroup { directories: 0, files: 0 }),
    {
        DirectoryGroup { directories: 0, files: 0 }
    }
}

impl DirectoryGroup {
    /// Whether the group holds neither a directory nor a file.
    pub open spec fn holds_nothing(&self) -> bool {
        self.directories == 0 && self.files == 0
    }

    pub fn is_empty(&self) -> (r: bool)
        ensures
            r == self.holds_nothing(),
    {
        self.directories == 0 && self.files == 0
    }
}

} // verus!
