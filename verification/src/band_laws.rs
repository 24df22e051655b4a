//! What the bands promise: the bounds and the names that the reports give
//! them, and the order they are listed in.

use crate::bands::{
    age_buckets_neither_overlap_nor_leave_gaps, age_of, fan_out_bands_neither_overlap_nor_leave_gaps,
    fan_out_of, file_count_bands_neither_overlap_nor_leave_gaps, file_count_of, size_band_of,
    size_bands_neither_overlap_nor_leave_gaps, AgeBucket, FanOut, FileCount, SizeBand, Timestamp,
};
use crate::order::Ordered;
use vstd::prelude::*;

verus! {

/// A file is reported under the name of its age. Ages go by whole days of
/// twenty-four hours, and the first day past a bound is in the older band.
pub proof fn an_age_is_reported_by_name(at: Timestamp, now: Timestamp)
    ensures
        ({
            let age = now.nanos - at.nanos;
            let day: int = 24int * 60 * 60 * 1_000_000_000;
            let band = age_of(Some(at), now);
            &&& age < 0 ==> band == AgeBucket::Future && band.label_text()
                == "modified in future"@
            &&& 0 <= age < 30 * day ==> band == AgeBucket::UpTo30Days && band.label_text()
                == "under 30 days"@
            &&& 30 * day <= age < 90 * day ==> band == AgeBucket::From30To90Days
                && band.label_text() == "30 to 90 days"@
            &&& 90 * day <= age < 365 * day ==> band == AgeBucket::From90DaysTo1Year
                && band.label_text() == "90 days to 1 year"@
            &&& 365 * day <= age < 2 * 365 * day ==> band == AgeBucket::From1To2Years
                && band.label_text() == "1 to 2 years"@
            &&& 2 * 365 * day <= age ==> band == AgeBucket::Over2Years && band.label_text()
                == "over 2 years"@
        }),
        age_of(None, now) == AgeBucket::Unknown,
        age_of(None, now).label_text() == "unknown"@,
{
    age_buckets_neither_overlap_nor_leave_gaps(Some(at), now, age_of(Some(at), now));
    age_buckets_neither_overlap_nor_leave_gaps(None, now, age_of(None, now));
    let age = now.nanos - at.nanos;
    let days = age / 86_400_000_000_000;
    assert(86_400_000_000_000 * days <= age < 86_400_000_000_000 * days + 86_400_000_000_000);
    assert(24int * 60 * 60 * 1_000_000_000 == 86_400_000_000_000);
}

/// The report on ages goes from the youngest files to the oldest, and those of
/// no known age come last.
pub proof fn ages_are_listed_youngest_first(older: Timestamp, newer: Timestamp, now: Timestamp)
    requires
        older.nanos <= newer.nanos,
    ensures
        age_of(Some(newer), now) == age_of(Some(older), now) || AgeBucket::precedes(
            age_of(Some(newer), now),
            age_of(Some(older), now),
        ),
        AgeBucket::precedes(age_of(Some(older), now), age_of(None, now)),
{
    an_age_is_reported_by_name(older, now);
    an_age_is_reported_by_name(newer, now);
}

/// A file is reported under the name of its size. A kilobyte is 1024 bytes and
/// a megabyte is 1024 of those, and each bound is in the larger band.
pub proof fn a_size_is_reported_by_name(bytes: u64)
    ensures
        ({
            let kb: int = 1024;
            let mb: int = 1024int * 1024;
            let band = size_band_of(bytes);
            &&& bytes == 0 ==> band == SizeBand::Empty && band.label_text() == "empty"@
            &&& 0 < bytes < 4 * kb ==> band == SizeBand::Under4K && band.label_text()
                == "under 4 KB"@
            &&& 4 * kb <= bytes < 64 * kb ==> band == SizeBand::From4KTo64K && band.label_text()
                == "4 KB to 64 KB"@
            &&& 64 * kb <= bytes < mb ==> band == SizeBand::From64KTo1M && band.label_text()
                == "64 KB to 1 MB"@
            &&& mb <= bytes < 16 * mb ==> band == SizeBand::From1MTo16M && band.label_text()
                == "1 MB to 16 MB"@
            &&& 16 * mb <= bytes < 128 * mb ==> band == SizeBand::From16MTo128M
                && band.label_text() == "16 MB to 128 MB"@
            &&& 128 * mb <= bytes ==> band == SizeBand::Over128M && band.label_text()
                == "over 128 MB"@
        }),
{
    size_bands_neither_overlap_nor_leave_gaps(bytes, size_band_of(bytes));
}

/// The report on sizes goes from the smallest files to the largest.
pub proof fn sizes_are_listed_smallest_first(smaller: u64, larger: u64)
    requires
        smaller <= larger,
    ensures
        size_band_of(smaller) == size_band_of(larger) || SizeBand::precedes(
            size_band_of(smaller),
            size_band_of(larger),
        ),
{
    a_size_is_reported_by_name(smaller);
    a_size_is_reported_by_name(larger);
}

/// A directory is reported under the number of its subdirectories.
pub proof fn a_fan_out_is_reported_by_name(subdirectories: u64)
    ensures
        ({
            let band = fan_out_of(subdirectories);
            &&& subdirectories == 0 ==> band == FanOut::Leaf && band.label_text()
                == "none (leaf)"@
            &&& subdirectories == 1 ==> band == FanOut::One && band.label_text() == "1"@
            &&& 2 <= subdirectories <= 9 ==> band == FanOut::From2To9 && band.label_text()
                == "2 to 9"@
            &&& 10 <= subdirectories <= 99 ==> band == FanOut::From10To99 && band.label_text()
                == "10 to 99"@
            &&& 100 <= subdirectories <= 999 ==> band == FanOut::From100To999
                && band.label_text() == "100 to 999"@
            &&& 1000 <= subdirectories ==> band == FanOut::Over1000 && band.label_text()
                == "1000 or more"@
        }),
{
    fan_out_bands_neither_overlap_nor_leave_gaps(subdirectories, fan_out_of(subdirectories));
}

/// The report on fan-out goes from the leaves of the tree to the directories
/// with the most subdirectories.
pub proof fn fan_outs_are_listed_fewest_first(fewer: u64, more: u64)
    requires
        fewer <= more,
    ensures
        fan_out_of(fewer) == fan_out_of(more) || FanOut::precedes(
            fan_out_of(fewer),
            fan_out_of(more),
        ),
{
    a_fan_out_is_reported_by_name(fewer);
    a_fan_out_is_reported_by_name(more);
}

/// A directory is reported under the number of files that it holds itself.
pub proof fn a_file_count_is_reported_by_name(files: u64)
    ensures
        ({
            let band = file_count_of(files);
            &&& files == 0 ==> band == FileCount::NoFiles && band.label_text() == "none"@
            &&& 1 <= files <= 9 ==> band == FileCount::From1To9 && band.label_text()
                == "1 to 9"@
            &&& 10 <= files <= 99 ==> band == FileCount::From10To99 && band.label_text()
                == "10 to 99"@
            &&& 100 <= files <= 999 ==> band == FileCount::From100To999 && band.label_text()
                == "100 to 999"@
            &&& 1000 <= files <= 9999 ==> band == FileCount::From1000To9999
                && band.label_text() == "1000 to 9999"@
            &&& 10000 <= files ==> band == FileCount::Over10000 && band.label_text()
                == "10000 or more"@
        }),
{
    file_count_bands_neither_overlap_nor_leave_gaps(files, file_count_of(files));
}

/// The report on file counts goes from the directories without files to those
/// with the most.
pub proof fn file_counts_are_listed_fewest_first(fewer: u64, more: u64)
    requires
        fewer <= more,
    ensures
        file_count_of(fewer) == file_count_of(more) || FileCount::precedes(
            file_count_of(fewer),
            file_count_of(more),
        ),
{
    a_file_count_is_reported_by_name(fewer);
    a_file_count_is_reported_by_name(more);
}

} // verus!
