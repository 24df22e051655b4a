//! Measuring files and putting a scan together.

use fast_walk::reports::{age_csv, hotspot_csv, largest_csv, size_csv};
use fast_walk::{
    aggregate, capped_threads, check_root, combine, extension_of, scan, AgeBucket, Bucket, Child,
    DirectoryStats, FilePath, FileRecord, Hotspot, LargestFile, Measurement, NoProgress, Partial,
    PathPart, Ratio, ReadFailure, RootStatus, Scan, ScanError, ScanOptions, SizeBand, SortedMap,
    StructureCounters, Timestamp, Walk, WalkEvent, MAX_REPORTED_ERRORS, NO_EXTENSION,
};

const DAY: i128 = 24 * 60 * 60 * 1_000_000_000;

fn now() -> Timestamp {
    Timestamp {
        nanos: 30 * 365 * DAY,
    }
}

fn value(ratio: Ratio) -> f64 {
    ratio.numerator as f64 / ratio.denominator as f64
}

/// A path below the root of the scan.
fn path(text: &str) -> FilePath {
    FilePath::from_bytes(text.as_bytes())
}

fn record(relative: &str, size: u64) -> FileRecord {
    let (directory, name) = match relative.rfind('/') {
        Some(at) => (&relative[..at], &relative[at + 1..]),
        None => ("", relative),
    };
    FileRecord {
        name: name.as_bytes().to_vec(),
        directory: path(directory),
        size,
        modified: None,
    }
}

fn measured(relative: &str, size: u64) -> Measurement {
    Measurement::Measured(record(relative, size))
}

/// Scan a directory holding the given files.
fn scan_files_with(files: &[(&str, u64)], options: &ScanOptions) -> Scan {
    let measurements: Vec<Measurement> = files
        .iter()
        .map(|(relative, size)| measured(relative, *size))
        .collect();
    let aggregated = aggregate(&measurements, options, now(), &NoProgress).unwrap();
    scan(
        RootStatus::Directory,
        Walk::new(),
        &StructureCounters::new(),
        aggregated,
        options,
    )
    .unwrap()
}

fn scan_files(files: &[(&str, u64)]) -> Scan {
    scan_files_with(files, &ScanOptions::default())
}

fn total(scan: &Scan, extension: &str) -> Bucket {
    scan.totals.get(&extension.to_string()).unwrap()
}

fn scan_with(totals: &[(&str, u64, u64)]) -> Scan {
    let mut scan = Scan::default();
    for (ext, count, bytes) in totals {
        scan.totals.set(
            (*ext).to_string(),
            Bucket {
                count: *count,
                bytes: *bytes,
            },
        );
    }
    scan
}

fn file(text: &str, bytes: u64) -> LargestFile {
    LargestFile {
        path: path(text),
        bytes,
    }
}

#[test]
fn extension_is_the_part_after_the_final_dot() {
    assert_eq!(extension_of(b"notes.txt"), "txt");
    assert_eq!(extension_of(b"archive.tar.gz"), "gz");
}

#[test]
fn files_without_an_extension_are_grouped_together() {
    assert_eq!(extension_of(b"Makefile"), NO_EXTENSION);
    assert_eq!(extension_of(b"LICENSE"), NO_EXTENSION);
}

#[test]
fn dotfiles_are_extensionless_not_their_own_extension() {
    assert_eq!(extension_of(b".gitignore"), NO_EXTENSION);
    assert_eq!(extension_of(b".bashrc"), NO_EXTENSION);
    // A dotfile that really does carry an extension still resolves.
    assert_eq!(extension_of(b".config.json"), "json");
}

#[test]
fn odd_names_do_not_panic() {
    assert_eq!(extension_of(b""), NO_EXTENSION);
    assert_eq!(extension_of(b"."), NO_EXTENSION);
    assert_eq!(extension_of(b".."), NO_EXTENSION);
    assert_eq!(extension_of(b"trailing."), NO_EXTENSION);
}

#[test]
fn non_utf8_names_are_converted_lossily_rather_than_panicking() {
    assert_eq!(extension_of(b"bad\xff\xfename.txt"), "txt");

    // The extension itself being invalid UTF-8 must also be survivable.
    assert_eq!(extension_of(b"name.\xff\xfe"), "\u{fffd}\u{fffd}");
}

#[test]
fn an_extension_beyond_ascii_is_kept_as_it_is() {
    assert_eq!(extension_of("naïve.été".as_bytes()), "été");
}

#[test]
fn merging_buckets_sums_counts_and_bytes() {
    let mut a = Bucket::default();
    a.add_file(10);
    a.add_file(5);

    let mut b = Bucket::default();
    b.add_file(1);

    a.merge(b);

    assert_eq!(
        a,
        Bucket {
            count: 3,
            bytes: 16
        }
    );
}

#[test]
fn rows_are_ordered_by_descending_count() {
    let scan = scan_with(&[("txt", 1, 100), ("rs", 9, 20), ("md", 4, 7)]);

    let order: Vec<&str> = scan.rows().iter().map(|(ext, _)| *ext).collect();
    assert_eq!(order, ["rs", "md", "txt"]);
}

#[test]
fn equal_counts_are_ordered_by_name_so_output_is_stable() {
    let scan = scan_with(&[("zzz", 2, 1), ("aaa", 2, 1), ("mmm", 2, 1)]);

    let order: Vec<&str> = scan.rows().iter().map(|(ext, _)| *ext).collect();
    assert_eq!(order, ["aaa", "mmm", "zzz"]);
}

#[test]
fn totals_sum_across_every_extension() {
    let scan = scan_with(&[("txt", 1, 100), ("rs", 9, 20)]);

    assert_eq!(scan.total_files(), 10);
    assert_eq!(scan.total_bytes(), 120);
}

#[test]
fn average_size_divides_bytes_by_file_count() {
    let bucket = Bucket {
        count: 4,
        bytes: 10,
    };

    assert_eq!(value(bucket.average_bytes()), 2.5);
}

#[test]
fn average_size_of_an_empty_bucket_is_zero_not_a_division_by_zero() {
    assert_eq!(value(Bucket::default().average_bytes()), 0.0);
    assert!(value(Bucket::default().average_bytes()).is_finite());
}

#[test]
fn averages_are_rounded_to_the_nearest_whole_byte() {
    let rounded = |bytes: u64, count: u64| Bucket { count, bytes }.average_bytes().rounded();

    assert_eq!(rounded(10, 4), 2);
    assert_eq!(rounded(14, 4), 4);
    assert_eq!(rounded(8, 3), 3);
    assert_eq!(rounded(7, 3), 2);
    assert_eq!(rounded(u64::MAX, 1), u64::MAX);
    assert_eq!(rounded(5, 0), 0);
}

#[test]
fn overall_average_is_taken_across_all_extensions_not_per_extension() {
    // Averaging the two per-extension averages would give 55; the mean file is
    // much smaller than that because most files are the small ones.
    let scan = scan_with(&[("txt", 1, 100), ("rs", 9, 90)]);

    assert_eq!(value(scan.average_bytes()), 19.0);
}

#[test]
fn overall_average_of_an_empty_scan_is_zero() {
    let scan = Scan::default();

    assert_eq!(value(scan.average_bytes()), 0.0);
    assert!(value(scan.average_bytes()).is_finite());
}

#[test]
fn age_rows_come_back_in_display_order_and_skip_empty_bands() {
    let mut scan = Scan::default();
    scan.ages
        .set(AgeBucket::Over2Years, Bucket { count: 1, bytes: 1 });
    scan.ages
        .set(AgeBucket::UpTo30Days, Bucket { count: 2, bytes: 2 });

    let order: Vec<AgeBucket> = scan.age_rows().iter().map(|(age, _)| *age).collect();

    assert_eq!(order, [AgeBucket::UpTo30Days, AgeBucket::Over2Years]);
}

#[test]
fn size_rows_come_back_smallest_first_and_skip_empty_bands() {
    let mut scan = Scan::default();
    scan.sizes
        .set(SizeBand::Over128M, Bucket { count: 1, bytes: 1 });
    scan.sizes
        .set(SizeBand::Under4K, Bucket { count: 2, bytes: 2 });

    let order: Vec<SizeBand> = scan.size_rows().iter().map(|(band, _)| *band).collect();

    assert_eq!(order, [SizeBand::Under4K, SizeBand::Over128M]);
}

#[test]
fn a_directory_counts_files_at_the_threshold_as_small() {
    let mut stats = DirectoryStats::default();

    stats.add_file(64, 64);
    stats.add_file(65, 64);
    stats.add_file(1, 64);

    assert_eq!(stats.files, 3);
    assert_eq!(stats.bytes, 130);
    assert_eq!(stats.small_files, 2);
    assert_eq!(stats.small_bytes, 65);
}

#[test]
fn directory_shares_and_averages_guard_the_empty_case() {
    let empty = DirectoryStats::default();

    assert_eq!(value(empty.small_share()), 0.0);
    assert_eq!(value(empty.average_bytes()), 0.0);
    assert!(value(empty.small_share()).is_finite());
    assert!(value(empty.average_bytes()).is_finite());
}

#[test]
fn directory_small_share_is_a_proportion_of_its_own_files() {
    let mut stats = DirectoryStats::default();
    for _ in 0..3 {
        stats.add_file(10, 64);
    }
    stats.add_file(1000, 64);

    assert_eq!(value(stats.small_share()), 0.75);
}

#[test]
fn scan_small_share_guards_the_empty_case() {
    let scan = Scan::default();

    assert_eq!(value(scan.small_share()), 0.0);
    assert!(value(scan.small_share()).is_finite());
}

#[test]
fn larger_files_sort_ahead_of_smaller_ones() {
    assert!(file("a", 100) > file("b", 10));
}

#[test]
fn equally_sized_files_are_ordered_by_path_so_results_are_reproducible() {
    // "Greater" is what appears first, so the earlier path must win.
    assert!(file("aaa", 100) > file("zzz", 100));
}

#[test]
fn the_heap_keeps_the_largest_and_evicts_the_rest() {
    let mut partial = Partial::default();

    for (name, bytes) in [("a", 10), ("b", 500), ("c", 1), ("d", 90)] {
        partial.consider(bytes, 2, &path(""), name.as_bytes());
    }

    assert_eq!(partial.largest, vec![file("b", 500), file("d", 90)]);
}

#[test]
fn a_top_of_zero_keeps_nothing() {
    let mut partial = Partial::default();

    partial.consider(500, 0, &path(""), b"a");

    assert!(partial.largest.is_empty());
}

#[test]
fn equally_sized_files_beyond_the_limit_are_resolved_by_path_not_arrival() {
    let insert = |order: [&str; 3]| {
        let mut partial = Partial::default();
        for name in order {
            partial.consider(100, 2, &path(""), name.as_bytes());
        }
        partial.largest
    };

    assert_eq!(insert(["a", "b", "c"]), insert(["c", "b", "a"]));
    assert_eq!(
        insert(["a", "b", "c"]),
        vec![file("a", 100), file("b", 100)]
    );
}

#[test]
fn paths_are_ordered_by_component_not_by_byte() {
    // "a" comes ahead of "a b" although a separator sorts behind a space.
    assert!(file("a/z", 1) > file("a b/a", 1));
}

#[test]
fn counts_files_and_sums_sizes_per_extension() {
    let scan = scan_files(&[("a.txt", 10), ("b.txt", 5), ("c.rs", 3)]);

    assert_eq!(total(&scan, "txt"), Bucket { count: 2, bytes: 15 });
    assert_eq!(total(&scan, "rs"), Bucket { count: 1, bytes: 3 });
    assert_eq!(scan.total_files(), 3);
    assert_eq!(scan.total_bytes(), 18);
}

#[test]
fn aggregates_across_nested_directories() {
    let scan = scan_files(&[
        ("top.txt", 1),
        ("one/mid.txt", 2),
        ("one/two/deep.txt", 4),
        ("one/two/three/deeper.txt", 8),
    ]);

    assert_eq!(total(&scan, "txt"), Bucket { count: 4, bytes: 15 });
}

#[test]
fn extensionless_files_and_dotfiles_share_one_bucket() {
    let scan = scan_files(&[("Makefile", 1), ("LICENSE", 2), (".gitignore", 4)]);

    assert_eq!(total(&scan, NO_EXTENSION), Bucket { count: 3, bytes: 7 });
    assert_eq!(scan.totals.len(), 1, "expected a single bucket");
}

#[test]
fn an_unreadable_path_is_an_error_not_an_empty_scan() {
    let err = scan(
        RootStatus::Unreadable,
        Walk::new(),
        &StructureCounters::new(),
        Partial::default(),
        &ScanOptions::default(),
    )
    .expect_err("scanning a missing path should fail");

    let err = err.message("does-not-exist");
    assert!(
        err.to_string().contains("cannot read path"),
        "unexpected error: {err}"
    );
    assert_eq!(err, "cannot read path: does-not-exist");
}

#[test]
fn an_empty_directory_scans_successfully_with_no_totals() {
    let scan = scan_files(&[]);

    assert_eq!(scan.total_files(), 0);
    assert_eq!(scan.total_bytes(), 0);
    assert_eq!(scan.walk_error_count, 0);
    assert!(scan.rows().is_empty());
}

#[test]
fn rows_are_sorted_by_descending_count() {
    let scan = scan_files(&[
        ("a.rs", 1),
        ("b.rs", 1),
        ("c.rs", 1),
        ("d.md", 1),
        ("e.md", 1),
        ("f.txt", 1),
    ]);
    let order: Vec<&str> = scan.rows().iter().map(|(extension, _)| *extension).collect();

    assert_eq!(order, ["rs", "md", "txt"]);
}

#[test]
fn file_names_that_are_not_utf8_do_not_panic() {
    let mut odd = record("", 6);
    odd.name = b"bad\xff\xfename.txt".to_vec();
    let options = ScanOptions::default();
    let partial = aggregate(&[Measurement::Measured(odd)], &options, now(), &NoProgress).unwrap();

    assert_eq!(
        partial.extensions.get(&"txt".to_string()),
        Some(Bucket { count: 1, bytes: 6 })
    );
}

/// Walk over entries, and measure those that the walk says are files.
fn walk_and_scan(entries: &[(WalkEvent, &str, u64)]) -> Scan {
    let options = ScanOptions::default();
    let mut walk = Walk::new();
    let mut files = Vec::new();
    for (event, relative, size) in entries {
        if walk.visit(event) {
            files.push(measured(relative, *size));
        }
    }
    let aggregated = aggregate(&files, &options, now(), &NoProgress).unwrap();
    scan(
        RootStatus::Directory,
        walk,
        &StructureCounters::new(),
        aggregated,
        &options,
    )
    .unwrap()
}

fn entry(depth: usize, is_file: bool) -> WalkEvent {
    WalkEvent::Entry {
        depth,
        is_file,
        failure: None,
    }
}

fn unreadable(depth: usize, io: Option<&str>, message: &str) -> WalkEvent {
    WalkEvent::Entry {
        depth,
        is_file: false,
        failure: Some(ReadFailure {
            io: io.map(str::to_owned),
            message: message.to_owned(),
        }),
    }
}

#[test]
fn symlinks_are_not_counted_as_files() {
    let scan = walk_and_scan(&[
        (entry(0, false), "", 0),
        (entry(1, true), "real.txt", 10),
        (entry(1, false), "link.txt", 10),
    ]);

    assert_eq!(total(&scan, "txt"), Bucket { count: 1, bytes: 10 });
}

#[test]
fn a_broken_symlink_does_not_abort_the_scan() {
    let scan = walk_and_scan(&[
        (entry(0, false), "", 0),
        (entry(1, false), "dangling.txt", 0),
        (entry(1, true), "real.txt", 10),
    ]);

    assert_eq!(scan.total_files(), 1);
    assert_eq!(scan.total_bytes(), 10);
}

#[test]
fn an_unreadable_directory_is_reported_rather_than_ignored() {
    let scan = walk_and_scan(&[
        (entry(0, false), "", 0),
        (
            unreadable(1, Some("denied"), "IO error for locked: denied"),
            "locked",
            0,
        ),
        (entry(1, true), "readable.txt", 10),
    ]);

    assert_eq!(scan.walk_error_count, 1);
    assert_eq!(scan.walk_errors.len(), 1);
    assert!(
        scan.walk_errors[0].contains("locked"),
        "error should name the directory: {:?}",
        scan.walk_errors
    );
    // The readable part of the tree is still reported.
    assert_eq!(scan.total_files(), 1);
    assert_eq!(scan.total_bytes(), 10);
}

#[test]
fn an_unlistable_root_is_no_result_at_all() {
    let mut walk = Walk::new();
    walk.visit(&unreadable(0, Some("denied"), "IO error for root: denied"));

    let err = check_root(RootStatus::Directory, &walk).unwrap_err();
    assert_eq!(err.message("/data"), "cannot list /data: denied");

    let err = scan(
        RootStatus::Directory,
        walk,
        &StructureCounters::new(),
        Partial::default(),
        &ScanOptions::default(),
    )
    .unwrap_err();
    assert!(matches!(err, ScanError::CannotList { .. }));
}

#[test]
fn the_walks_own_words_stand_in_for_missing_ones() {
    let mut walk = Walk::new();
    walk.visit(&unreadable(0, None, "loop found"));

    assert_eq!(
        check_root(RootStatus::Other, &walk).unwrap_err().message("x"),
        "cannot list x: loop found"
    );
    assert!(check_root(RootStatus::Directory, &Walk::new()).is_ok());
}

#[test]
fn every_failure_is_counted_but_only_the_first_are_kept() {
    let mut walk = Walk::new();
    for at in 0..MAX_REPORTED_ERRORS + 3 {
        let yields = walk.visit(&WalkEvent::Failed {
            message: format!("failure {at}"),
        });
        assert!(!yields);
    }

    assert_eq!(walk.error_count, 13);
    assert_eq!(walk.errors.len(), 10);
    assert_eq!(walk.errors[0], "failure 0");
    assert_eq!(walk.errors[9], "failure 9");
    assert!(walk.root_unreadable.is_none());
}

#[test]
fn files_that_vanish_are_counted_and_left_out_of_the_totals() {
    let options = ScanOptions::default();
    let files = [measured("a.txt", 1), Measurement::Failed, Measurement::Failed];
    let aggregated = aggregate(&files, &options, now(), &NoProgress).unwrap();
    let scan = scan(
        RootStatus::Directory,
        Walk::new(),
        &StructureCounters::new(),
        aggregated,
        &options,
    )
    .unwrap();

    assert_eq!(scan.total_files(), 1);
    assert_eq!(scan.unmeasurable_files, 2);
}

#[test]
fn hotspots_are_the_directories_with_the_most_small_files() {
    let options = ScanOptions {
        hotspots: 2,
        small_at_or_below: 10,
        ..ScanOptions::default()
    };
    let scan = scan_files_with(
        &[
            ("b/1", 1),
            ("a/1", 1),
            ("a/2", 99),
            ("c/1", 10),
            ("c/2", 10),
            ("d/1", 11),
        ],
        &options,
    );

    assert_eq!(
        scan.hotspots,
        vec![
            Hotspot {
                directory: path("c"),
                stats: DirectoryStats {
                    files: 2,
                    bytes: 20,
                    small_files: 2,
                    small_bytes: 20,
                },
            },
            Hotspot {
                directory: path("a"),
                stats: DirectoryStats {
                    files: 2,
                    bytes: 100,
                    small_files: 1,
                    small_bytes: 1,
                },
            },
        ]
    );
    assert_eq!(scan.small_files, 4);
    assert_eq!(scan.small_bytes, 22);
    assert_eq!(scan.small_at_or_below, 10);
    assert_eq!(value(scan.small_share()), 4.0 / 6.0);
}

#[test]
fn turning_hotspots_off_keeps_the_headline_figure() {
    let off = ScanOptions {
        hotspots: 0,
        ..ScanOptions::default()
    };
    let files = [("a/1", 1), ("a/2", 1 << 20)];

    let without = scan_files_with(&files, &off);
    let with = scan_files(&files);

    assert!(without.hotspots.is_empty());
    assert_eq!(with.hotspots.len(), 1);
    assert_eq!(without.small_files, with.small_files);
    assert_eq!(without.small_bytes, with.small_bytes);
}

#[test]
fn dividing_the_files_into_shares_changes_nothing() {
    let options = ScanOptions {
        top: 2,
        ..ScanOptions::default()
    };
    let all = [
        ("a/1.txt", 5),
        ("a/2.rs", 900),
        ("b/3.txt", 900),
        ("b/4", 0),
        ("a/5.txt", 70_000),
    ];
    let files: Vec<Measurement> = all.iter().map(|(name, size)| measured(name, *size)).collect();
    let share = |part: &[Measurement]| aggregate(part, &options, now(), &NoProgress).unwrap();
    let finish = |aggregated: Partial| {
        scan(
            RootStatus::Directory,
            Walk::new(),
            &StructureCounters::new(),
            aggregated,
            &options,
        )
        .unwrap()
    };

    let whole = finish(share(&files));
    let shares = vec![
        share(&files[3..]),
        share(&files[..1]),
        share(&files[1..3]),
    ];
    let parts = finish(combine(shares, 2).unwrap());

    assert_eq!(whole.rows(), parts.rows());
    assert_eq!(whole.age_rows(), parts.age_rows());
    assert_eq!(whole.size_rows(), parts.size_rows());
    assert_eq!(whole.hotspots, parts.hotspots);
    assert_eq!(whole.largest, parts.largest);
    assert_eq!(
        whole.largest,
        vec![file("a/5.txt", 70_000), file("a/2.rs", 900)]
    );
}

#[test]
fn totals_that_do_not_fit_are_not_reported_at_all() {
    let options = ScanOptions::default();
    let files = [measured("a.txt", u64::MAX), measured("b.txt", 1)];

    assert!(aggregate(&files, &options, now(), &NoProgress).is_none());
    assert!(aggregate(&files[..1], &options, now(), &NoProgress).is_some());

    let one = aggregate(&files[..1], &options, now(), &NoProgress).unwrap();
    let other = aggregate(&files[1..], &options, now(), &NoProgress).unwrap();
    assert!(combine(vec![one, other], 10).is_none());
}

#[test]
fn every_report_accounts_for_every_measured_file() {
    let scan = scan_files(&[("a.txt", 0), ("b.rs", 5000), ("c", 1 << 21)]);

    let ages: u64 = scan.age_rows().iter().map(|(_, bucket)| bucket.count).sum();
    let sizes: u64 = scan.size_rows().iter().map(|(_, bucket)| bucket.bytes).sum();
    assert_eq!(ages, scan.total_files());
    assert_eq!(sizes, scan.total_bytes());
}

#[test]
fn files_are_aged_against_the_instant_given() {
    let mut old = record("old.txt", 1);
    old.modified = Some(Timestamp {
        nanos: now().nanos - 100 * DAY,
    });
    let options = ScanOptions::default();
    let partial = aggregate(&[Measurement::Measured(old)], &options, now(), &NoProgress).unwrap();

    assert_eq!(
        partial.ages.get(&AgeBucket::From90DaysTo1Year),
        Some(Bucket { count: 1, bytes: 1 })
    );
}

#[test]
fn the_structure_is_part_of_the_scan() {
    let mut counters = StructureCounters::new();
    counters.record(
        0,
        0,
        &[Child {
            is_dir: true,
            is_file: false,
            name_length: 3,
        }],
    );
    let describe = |root| {
        scan(
            root,
            Walk::new(),
            &counters,
            Partial::default(),
            &ScanOptions::default(),
        )
        .unwrap()
        .structure
        .directories
    };

    assert_eq!(describe(RootStatus::Directory), 2);
    assert_eq!(describe(RootStatus::Other), 1);
}

#[test]
fn the_defaults_use_every_processor() {
    let options = ScanOptions::default();

    assert!(options.threads >= 1);
    assert_eq!(options.threads, capped_threads(usize::MAX, options.threads));
    assert_eq!(options.max_depth, usize::MAX);
    assert!(!options.skip_hidden);
    assert_eq!(options.top, 10);
    assert_eq!(options.hotspots, 10);
    assert_eq!(options.small_at_or_below, 64 * 1024);
}

#[test]
fn threads_are_capped_at_what_there_is() {
    assert_eq!(capped_threads(64, 8), 8);
    assert_eq!(capped_threads(4, 8), 4);
}

#[test]
fn bands_are_written_under_their_labels() {
    let scan = scan_files(&[("a.txt", 0), ("b.rs", 10)]);

    assert_eq!(
        String::from_utf8(age_csv(&scan)).unwrap(),
        format!(
            "Age,Qty,Cap Bytes,Avg Bytes\n{},2,10,5\n",
            AgeBucket::Unknown.label()
        )
    );
    assert_eq!(
        String::from_utf8(size_csv(&scan)).unwrap(),
        format!(
            "Size,Qty,Cap Bytes,Avg Bytes\n{},1,0,0\n{},1,10,10\n",
            SizeBand::Empty.label(),
            SizeBand::Under4K.label()
        )
    );
}

#[test]
fn paths_are_written_in_full() {
    let files = vec![
        LargestFile {
            path: path("/srv/../a,b.txt"),
            bytes: 7,
        },
        LargestFile {
            path: FilePath::from_bytes(b"./\xff"),
            bytes: 1,
        },
    ];

    assert_eq!(
        String::from_utf8(largest_csv(&files)).unwrap(),
        "Path,Bytes\n\"/srv/../a,b.txt\",7\n./\u{fffd},1\n"
    );
}

#[test]
fn hotspots_are_written_with_both_totals() {
    let scan = scan_files(&[("x/1", 5), ("x/2", 1 << 20)]);

    assert_eq!(
        String::from_utf8(hotspot_csv(&scan.hotspots)).unwrap(),
        "Directory,Small Qty,Small Bytes,Qty,Cap Bytes\nx,1,5,2,1048581\n"
    );
}

#[test]
fn a_map_keeps_one_value_per_key_in_order() {
    let mut map: SortedMap<String, u64> = SortedMap::new();
    map.set("b".to_string(), 1);
    map.set("a".to_string(), 2);
    map.set("b".to_string(), 3);

    assert_eq!(map.len(), 2);
    assert_eq!(map.key_at(0), "a");
    assert_eq!(map.value_at(1), 3);
    assert_eq!(map.get(&"c".to_string()), None);
    assert_eq!(map.pop_last(), Some(("b".to_string(), 3)));
    assert_eq!(map.len(), 1);
}

#[test]
fn lengths_are_taken_below_the_root() {
    assert_eq!(path("srv/share/a/bc").length_below(&path("srv/share")), 4);
    assert_eq!(path("srv/share").length_below(&path("srv/share")), 0);
    assert_eq!(path("other/x").length_below(&path("srv")), 7);
    assert_eq!(path("srv").length_below(&path("srv/share")), 3);
    assert_eq!(path("srvx/a").length_below(&path("srv")), 6);
}

#[test]
fn the_same_totals_are_written_the_same_way() {
    let one = scan_files(&[("a.txt", 1), ("b.rs", 2), ("c.rs", 3)]);
    let other = scan_files(&[("c.rs", 3), ("b.rs", 2), ("a.txt", 1)]);

    assert_eq!(
        fast_walk::results::results_csv(&one),
        fast_walk::results::results_csv(&other)
    );
}

#[test]
fn offering_a_file_leaves_everything_else_as_it_was() {
    let mut partial = Partial::default();
    partial.record_directory(&path("a"), 5, 10);
    partial.consider(5, 1, &path("a"), b"x");

    let pending = partial.pending.as_ref().unwrap();
    assert_eq!(pending.0, path("a"));
    assert_eq!(pending.1.files, 1);
    assert_eq!(partial.directories.len(), 0);
    assert_eq!(partial.largest, vec![file("a/x", 5)]);
}

#[test]
fn a_change_of_directory_banks_the_one_before() {
    let mut partial = Partial::default();
    partial.record_directory(&path("a"), 5, 10);
    partial.record_directory(&path("a"), 50, 10);
    partial.record_directory(&path("b"), 1, 10);

    assert_eq!(partial.pending.as_ref().unwrap().0, path("b"));
    assert_eq!(
        partial.directories.get(&path("a")),
        Some(DirectoryStats {
            files: 2,
            bytes: 55,
            small_files: 1,
            small_bytes: 5,
        })
    );
}

fn name(text: &str) -> PathPart {
    PathPart::Normal(text.as_bytes().to_vec())
}

#[test]
fn a_path_is_read_into_its_components() {
    assert_eq!(path("").parts, vec![]);
    assert_eq!(path("/").parts, vec![PathPart::Root]);
    assert_eq!(path("///").parts, vec![PathPart::Root]);
    assert_eq!(path(".").parts, vec![PathPart::Current]);
    assert_eq!(path("./a/./b/").parts, vec![PathPart::Current, name("a"), name("b")]);
    assert_eq!(path("/./a//..").parts, vec![PathPart::Root, name("a"), PathPart::Parent]);
    assert_eq!(path("../.../.a").parts, vec![PathPart::Parent, name("..."), name(".a")]);
}

#[test]
fn one_path_can_be_spelled_in_several_ways() {
    assert_eq!(path("srv//a/"), path("srv/./a"));
    assert_ne!(path("srv/a"), path("/srv/a"));
    assert_ne!(path("./a"), path("a"));
    assert_eq!(path("srv//a/").to_text(), "srv//a/");
    assert_eq!(path("srv/./a").to_text(), "srv/./a");
}

#[test]
fn joining_puts_in_a_separator_where_one_is_missing() {
    let joined = |directory: &str| path(directory).join(b"x").to_text();

    assert_eq!(joined("a"), "a/x");
    assert_eq!(joined("a/"), "a/x");
    assert_eq!(joined("a//"), "a//x");
    assert_eq!(joined("/"), "/x");
    assert_eq!(joined(""), "x");
    assert_eq!(path("a//").join(b"x"), path("a/x"));
    assert_eq!(path("a//").join(b"x"), path(&joined("a//")));
}

#[test]
fn a_drive_is_spelled_in_front_of_the_root() {
    let drive = |spelling: &str, parts: Vec<PathPart>| {
        let mut all = vec![PathPart::Prefix(b"C:".to_vec())];
        all.extend(parts);
        FilePath {
            parts: all,
            spelling: spelling.as_bytes().to_vec(),
            separator: b'\\',
        }
    };

    let joined = |path: FilePath| path.join(b"x").join(b"y").to_text();
    assert_eq!(joined(drive("C:", vec![])), "C:x\\y");
    assert_eq!(joined(drive("C:\\", vec![PathPart::Root])), "C:\\x\\y");
    assert_eq!(joined(drive("C:/", vec![PathPart::Root])), "C:/x\\y");
    assert_eq!(
        joined(drive("C:\\a", vec![PathPart::Root, name("a")])),
        "C:\\a\\x\\y"
    );
}

#[test]
fn reports_spell_paths_as_they_were_given() {
    let spelled = |directory: &str, file: &str| {
        let record = FileRecord {
            name: file.as_bytes().to_vec(),
            directory: path(directory),
            size: 5,
            modified: None,
        };
        let options = ScanOptions::default();
        let shares = vec![
            aggregate(&[Measurement::Measured(record)], &options, now(), &NoProgress).unwrap(),
        ];
        let aggregated = combine(shares, options.top).unwrap();
        scan(
            RootStatus::Directory,
            Walk::new(),
            &StructureCounters::new(),
            aggregated,
            &options,
        )
        .unwrap()
    };

    let trailing = spelled("tree/", "a.txt");
    assert_eq!(
        String::from_utf8(hotspot_csv(&trailing.hotspots)).unwrap(),
        "Directory,Small Qty,Small Bytes,Qty,Cap Bytes\ntree/,1,5,1,5\n"
    );
    assert_eq!(
        String::from_utf8(largest_csv(&trailing.largest)).unwrap(),
        "Path,Bytes\ntree/a.txt,5\n"
    );

    let repeated = spelled("./tree//sub", "a.txt");
    assert_eq!(
        String::from_utf8(hotspot_csv(&repeated.hotspots)).unwrap(),
        "Directory,Small Qty,Small Bytes,Qty,Cap Bytes\n./tree//sub,1,5,1,5\n"
    );
    assert_eq!(
        String::from_utf8(largest_csv(&repeated.largest)).unwrap(),
        "Path,Bytes\n./tree//sub/a.txt,5\n"
    );
}

#[test]
fn merging_maps_adds_up_what_both_hold() {
    let map = |entries: &[(&str, u64)]| {
        let mut map: SortedMap<String, Bucket> = SortedMap::new();
        for (key, bytes) in entries {
            map.set(
                (*key).to_string(),
                Bucket {
                    count: 1,
                    bytes: *bytes,
                },
            );
        }
        map
    };
    let listed = |map: &SortedMap<String, Bucket>| -> Vec<(String, u64, u64)> {
        (0..map.len())
            .map(|i| (map.key_at(i).clone(), map.value_at(i).count, map.value_at(i).bytes))
            .collect()
    };
    let entry = |key: &str, count: u64, bytes: u64| (key.to_string(), count, bytes);

    let mut sum = map(&[("b", 1), ("d", 2), ("f", 3)]);
    sum.merge(map(&[("a", 10), ("d", 20), ("g", 30)]));
    assert_eq!(
        listed(&sum),
        vec![
            entry("a", 1, 10),
            entry("b", 1, 1),
            entry("d", 2, 22),
            entry("f", 1, 3),
            entry("g", 1, 30),
        ]
    );

    sum.merge(map(&[]));
    assert_eq!(sum.len(), 5);
    let mut empty = map(&[]);
    empty.merge(map(&[("x", 1), ("y", 2)]));
    assert_eq!(listed(&empty), vec![entry("x", 1, 1), entry("y", 1, 2)]);
}

#[test]
fn a_directory_met_again_keeps_the_spelling_it_had() {
    let mut map: SortedMap<FilePath, DirectoryStats> = SortedMap::new();
    map.set(path("a//b"), DirectoryStats::default());
    map.set(path("a/b"), DirectoryStats::default());
    let mut other: SortedMap<FilePath, DirectoryStats> = SortedMap::new();
    other.set(path("a/b/"), DirectoryStats::default());
    map.merge(other);

    assert_eq!(map.len(), 1);
    assert_eq!(map.key_at(0).to_text(), "a//b");
}
