//! Which band an age, a size or a count lands in.

use fast_walk::{
    classify_age, classify_fan_out, classify_file_count, classify_size, AgeBucket, FanOut,
    FileCount, SizeBand, Timestamp,
};

const SECONDS_PER_DAY: i128 = 24 * 60 * 60;
const NANOS: i128 = 1_000_000_000;

/// A fixed instant to measure ages against, so the tests do not depend on the
/// wall clock.
fn now() -> Timestamp {
    Timestamp {
        nanos: 30 * 365 * SECONDS_PER_DAY * NANOS,
    }
}

fn days_ago(days: i128) -> Option<Timestamp> {
    Some(Timestamp {
        nanos: now().nanos - days * SECONDS_PER_DAY * NANOS,
    })
}

#[test]
fn ages_land_in_the_expected_band() {
    assert_eq!(classify_age(days_ago(0), now()), AgeBucket::UpTo30Days);
    assert_eq!(classify_age(days_ago(15), now()), AgeBucket::UpTo30Days);
    assert_eq!(classify_age(days_ago(45), now()), AgeBucket::From30To90Days);
    assert_eq!(
        classify_age(days_ago(200), now()),
        AgeBucket::From90DaysTo1Year
    );
    assert_eq!(classify_age(days_ago(500), now()), AgeBucket::From1To2Years);
    assert_eq!(classify_age(days_ago(3000), now()), AgeBucket::Over2Years);
}

#[test]
fn age_band_boundaries_do_not_overlap_or_leave_gaps() {
    assert_eq!(classify_age(days_ago(29), now()), AgeBucket::UpTo30Days);
    assert_eq!(classify_age(days_ago(30), now()), AgeBucket::From30To90Days);

    assert_eq!(classify_age(days_ago(89), now()), AgeBucket::From30To90Days);
    assert_eq!(
        classify_age(days_ago(90), now()),
        AgeBucket::From90DaysTo1Year
    );

    assert_eq!(
        classify_age(days_ago(364), now()),
        AgeBucket::From90DaysTo1Year
    );
    assert_eq!(classify_age(days_ago(365), now()), AgeBucket::From1To2Years);

    assert_eq!(classify_age(days_ago(729), now()), AgeBucket::From1To2Years);
    assert_eq!(classify_age(days_ago(730), now()), AgeBucket::Over2Years);
}

#[test]
fn a_modification_time_in_the_future_is_flagged_not_treated_as_new() {
    let ahead = Timestamp {
        nanos: now().nanos + SECONDS_PER_DAY * NANOS,
    };

    assert_eq!(classify_age(Some(ahead), now()), AgeBucket::Future);
}

#[test]
fn the_very_next_instant_is_already_the_future() {
    let ahead = Timestamp {
        nanos: now().nanos + 1,
    };

    assert_eq!(classify_age(Some(ahead), now()), AgeBucket::Future);
    assert_eq!(classify_age(Some(now()), now()), AgeBucket::UpTo30Days);
}

#[test]
fn ages_at_the_ends_of_time_are_survivable() {
    let first = Timestamp { nanos: i128::MIN };
    let last = Timestamp { nanos: i128::MAX };

    assert_eq!(classify_age(Some(first), last), AgeBucket::Over2Years);
    assert_eq!(classify_age(Some(last), first), AgeBucket::Future);
}

#[test]
fn a_missing_modification_time_is_unknown_rather_than_a_guess() {
    assert_eq!(classify_age(None, now()), AgeBucket::Unknown);
}

#[test]
fn every_age_bucket_has_a_label() {
    for age in AgeBucket::ALL {
        assert!(!age.label().is_empty());
    }
}

#[test]
fn sizes_land_in_the_expected_band() {
    assert_eq!(classify_size(0), SizeBand::Empty);
    assert_eq!(classify_size(1), SizeBand::Under4K);
    assert_eq!(classify_size(10_000), SizeBand::From4KTo64K);
    assert_eq!(classify_size(500_000), SizeBand::From64KTo1M);
    assert_eq!(classify_size(5 * 1024 * 1024), SizeBand::From1MTo16M);
    assert_eq!(classify_size(64 * 1024 * 1024), SizeBand::From16MTo128M);
    assert_eq!(classify_size(500 * 1024 * 1024), SizeBand::Over128M);
}

#[test]
fn size_band_boundaries_do_not_overlap_or_leave_gaps() {
    const KB: u64 = 1024;
    const MB: u64 = 1024 * KB;

    // Each boundary belongs to the band above it.
    assert_eq!(classify_size(4 * KB - 1), SizeBand::Under4K);
    assert_eq!(classify_size(4 * KB), SizeBand::From4KTo64K);

    assert_eq!(classify_size(64 * KB - 1), SizeBand::From4KTo64K);
    assert_eq!(classify_size(64 * KB), SizeBand::From64KTo1M);

    assert_eq!(classify_size(MB - 1), SizeBand::From64KTo1M);
    assert_eq!(classify_size(MB), SizeBand::From1MTo16M);

    assert_eq!(classify_size(16 * MB - 1), SizeBand::From1MTo16M);
    assert_eq!(classify_size(16 * MB), SizeBand::From16MTo128M);

    assert_eq!(classify_size(128 * MB - 1), SizeBand::From16MTo128M);
    assert_eq!(classify_size(128 * MB), SizeBand::Over128M);
}

#[test]
fn an_empty_file_is_its_own_band_rather_than_merely_small() {
    assert_eq!(classify_size(0), SizeBand::Empty);
    assert_ne!(classify_size(1), SizeBand::Empty);
}

#[test]
fn every_size_band_has_a_label() {
    for band in SizeBand::ALL {
        assert!(!band.label().is_empty());
    }
}

#[test]
fn subdirectory_counts_land_in_the_expected_fan_out_band() {
    assert_eq!(classify_fan_out(0), FanOut::Leaf);
    assert_eq!(classify_fan_out(1), FanOut::One);
    assert_eq!(classify_fan_out(5), FanOut::From2To9);
    assert_eq!(classify_fan_out(50), FanOut::From10To99);
    assert_eq!(classify_fan_out(500), FanOut::From100To999);
    assert_eq!(classify_fan_out(5000), FanOut::Over1000);
}

#[test]
fn fan_out_band_boundaries_do_not_overlap_or_leave_gaps() {
    assert_eq!(classify_fan_out(1), FanOut::One);
    assert_eq!(classify_fan_out(2), FanOut::From2To9);
    assert_eq!(classify_fan_out(9), FanOut::From2To9);
    assert_eq!(classify_fan_out(10), FanOut::From10To99);
    assert_eq!(classify_fan_out(99), FanOut::From10To99);
    assert_eq!(classify_fan_out(100), FanOut::From100To999);
    assert_eq!(classify_fan_out(999), FanOut::From100To999);
    assert_eq!(classify_fan_out(1000), FanOut::Over1000);
}

#[test]
fn file_counts_land_in_the_expected_band() {
    assert_eq!(classify_file_count(0), FileCount::NoFiles);
    assert_eq!(classify_file_count(5), FileCount::From1To9);
    assert_eq!(classify_file_count(50), FileCount::From10To99);
    assert_eq!(classify_file_count(500), FileCount::From100To999);
    assert_eq!(classify_file_count(5000), FileCount::From1000To9999);
    assert_eq!(classify_file_count(50_000), FileCount::Over10000);
}

#[test]
fn file_count_band_boundaries_do_not_overlap_or_leave_gaps() {
    assert_eq!(classify_file_count(9), FileCount::From1To9);
    assert_eq!(classify_file_count(10), FileCount::From10To99);
    assert_eq!(classify_file_count(99), FileCount::From10To99);
    assert_eq!(classify_file_count(100), FileCount::From100To999);
    assert_eq!(classify_file_count(999), FileCount::From100To999);
    assert_eq!(classify_file_count(1000), FileCount::From1000To9999);
    assert_eq!(classify_file_count(9999), FileCount::From1000To9999);
    assert_eq!(classify_file_count(10_000), FileCount::Over10000);
}

#[test]
fn a_directory_holding_no_subdirectories_is_a_leaf_not_an_empty_band() {
    assert_eq!(classify_fan_out(0), FanOut::Leaf);
    assert_eq!(FanOut::Leaf.label(), "none (leaf)");
}

#[test]
fn every_structure_band_has_a_label_and_a_distinct_slot() {
    for band in FanOut::ALL {
        assert!(!band.label().is_empty());
        assert_eq!(FanOut::ALL[band.index()], band);
    }
    for band in FileCount::ALL {
        assert!(!band.label().is_empty());
        assert_eq!(FileCount::ALL[band.index()], band);
    }
}

#[test]
fn bigger_files_never_land_in_a_lower_band() {
    let sizes = [0, 1, 4095, 4096, 65_535, 65_536, 1 << 20, 1 << 24, 1 << 27, u64::MAX];
    for pair in sizes.windows(2) {
        let low = SizeBand::ALL
            .iter()
            .position(|band| *band == classify_size(pair[0]));
        let high = SizeBand::ALL
            .iter()
            .position(|band| *band == classify_size(pair[1]));
        assert!(low <= high);
    }
}
