//! The shape of a tree, from the directories that were listed.

use fast_walk::{
    Child, DirectoryGroup, FanOut, FileCount, Ratio, Structure, StructureCounters,
    LONG_PATH_LIMIT, MAX_TRACKED_DEPTH,
};

fn child_dir(name: &str) -> Child {
    Child {
        is_dir: true,
        is_file: false,
        name_length: name.len(),
    }
}

fn child_file(name: &str) -> Child {
    Child {
        is_dir: false,
        is_file: true,
        name_length: name.len(),
    }
}

fn value(ratio: Ratio) -> f64 {
    ratio.numerator as f64 / ratio.denominator as f64
}

#[test]
fn a_directorys_children_are_counted_one_level_below_it() {
    let mut counters = StructureCounters::new();
    counters.record(
        0,
        0,
        &[child_dir("sub"), child_file("a.txt"), child_file("b.txt")],
    );

    let structure = counters.finish(true);

    // Level 0 is the root itself; its children sit at level 1.
    assert_eq!(
        structure.level_rows(),
        vec![
            (
                0,
                DirectoryGroup {
                    directories: 1,
                    files: 0
                }
            ),
            (
                1,
                DirectoryGroup {
                    directories: 1,
                    files: 2
                }
            ),
        ]
    );
    assert_eq!(structure.deepest, 1);
}

#[test]
fn the_root_is_counted_as_a_directory_because_no_parent_lists_it() {
    let mut counters = StructureCounters::new();
    counters.record(0, 0, &[child_dir("one"), child_dir("two")]);

    let structure = counters.finish(true);

    assert_eq!(structure.directories, 3);
    assert_eq!(structure.listed_directories, 1);
}

#[test]
fn scanning_a_single_file_describes_no_structure_at_all() {
    let counters = StructureCounters::new();

    let structure = counters.finish(false);

    assert_eq!(structure.directories, 0);
    assert!(structure.level_rows().is_empty());
}

#[test]
fn directories_that_were_never_listed_are_reported_as_missing() {
    let mut counters = StructureCounters::new();
    counters.record(0, 0, &[child_dir("listed"), child_dir("blocked")]);
    counters.record(1, 6, &[child_file("a.txt")]);

    let structure = counters.finish(true);

    assert_eq!(structure.directories, 3);
    assert_eq!(structure.listed_directories, 2);
    assert_eq!(structure.unlisted_directories(), 1);
}

#[test]
fn entries_that_are_neither_a_file_nor_a_directory_are_counted_as_neither() {
    let mut counters = StructureCounters::new();
    counters.record(
        0,
        0,
        &[
            child_file("real.txt"),
            Child {
                is_dir: false,
                is_file: false,
                name_length: 8,
            },
        ],
    );

    let structure = counters.finish(true);

    assert_eq!(structure.files(), 1);
    assert_eq!(structure.directories, 1);
    // And they do not set the longest path either.
    assert_eq!(structure.longest_path, "real.txt".len());
}

#[test]
fn path_lengths_are_measured_below_the_root_not_from_it() {
    let mut counters = StructureCounters::new();
    // "sub" is three characters below the root, so "sub/name.txt" is 12.
    counters.record(1, 3, &[child_file("name.txt")]);

    assert_eq!(counters.finish(true).longest_path, 12);
}

#[test]
fn a_child_of_the_root_carries_no_leading_separator() {
    let mut counters = StructureCounters::new();
    counters.record(0, 0, &[child_file("name.txt")]);

    assert_eq!(counters.finish(true).longest_path, 8);
}

#[test]
fn paths_past_the_limit_are_counted_by_kind() {
    let mut counters = StructureCounters::new();
    let deep = LONG_PATH_LIMIT - 4;
    counters.record(
        1,
        deep,
        &[
            child_file("just-fits"),
            child_dir("also-over"),
            child_file("x"),
        ],
    );

    let structure = counters.finish(true);

    // deep + 1 separator + name: only the one-character name stays inside.
    assert_eq!(structure.long_paths.files, 1);
    assert_eq!(structure.long_paths.directories, 1);
}

#[test]
fn a_path_exactly_at_the_limit_is_not_over_it() {
    let mut counters = StructureCounters::new();
    counters.record(1, LONG_PATH_LIMIT - 2, &[child_file("x")]);

    let structure = counters.finish(true);

    assert_eq!(structure.longest_path, LONG_PATH_LIMIT);
    assert_eq!(structure.long_paths.files, 0);
}

#[test]
fn a_tree_deeper_than_the_tracked_levels_still_reports_its_depth() {
    let mut counters = StructureCounters::new();
    counters.record(MAX_TRACKED_DEPTH + 5, 0, &[child_file("buried.txt")]);

    let structure = counters.finish(true);

    assert_eq!(structure.deepest, MAX_TRACKED_DEPTH + 6);
    assert_eq!(structure.beyond_tracked.files, 1);
    assert!(structure
        .level_rows()
        .iter()
        .all(|(depth, _)| *depth <= MAX_TRACKED_DEPTH));
}

#[test]
fn structure_rows_come_back_in_display_order_and_skip_empty_bands() {
    let mut counters = StructureCounters::new();
    counters.record(0, 0, &[]);
    counters.record(1, 1, &[child_file("a"), child_file("b")]);

    let structure = counters.finish(true);

    let fan_out: Vec<FanOut> = structure
        .fan_out_rows()
        .iter()
        .map(|(band, _)| *band)
        .collect();
    let files: Vec<FileCount> = structure
        .file_count_rows()
        .iter()
        .map(|(band, _)| *band)
        .collect();

    assert_eq!(fan_out, [FanOut::Leaf]);
    assert_eq!(files, [FileCount::NoFiles, FileCount::From1To9]);
}

#[test]
fn the_mean_files_per_directory_guards_the_empty_case() {
    let structure = Structure::default();

    assert_eq!(value(structure.mean_files_per_directory()), 0.0);
    assert!(value(structure.mean_files_per_directory()).is_finite());
}

#[test]
fn the_mean_is_taken_over_listed_directories() {
    let mut counters = StructureCounters::new();
    counters.record(0, 0, &[child_dir("a"), child_file("x"), child_file("y")]);
    counters.record(1, 1, &[child_file("z")]);

    let structure = counters.finish(true);

    assert_eq!(value(structure.mean_files_per_directory()), 1.5);
}

#[test]
fn a_gap_between_levels_is_not_given_a_row() {
    let mut counters = StructureCounters::new();
    counters.record(2, 0, &[child_file("x")]);

    let rows = counters.finish(true).level_rows();

    let levels: Vec<usize> = rows.iter().map(|(level, _)| *level).collect();
    assert_eq!(levels, [0, 3]);
}

#[test]
fn listing_in_another_order_gives_the_same_structure() {
    let first = [child_dir("a"), child_file("b"), child_file("c")];
    let second = [child_file("d")];

    let mut forwards = StructureCounters::new();
    forwards.record(0, 0, &first);
    forwards.record(1, 1, &second);
    let mut backwards = StructureCounters::new();
    backwards.record(1, 1, &second);
    backwards.record(0, 0, &first);

    let one = forwards.finish(true);
    let other = backwards.finish(true);
    assert_eq!(one.level_rows(), other.level_rows());
    assert_eq!(one.fan_out_rows(), other.fan_out_rows());
    assert_eq!(one.file_count_rows(), other.file_count_rows());
    assert_eq!(one.longest_path, other.longest_path);
}

#[test]
fn every_report_on_the_shape_accounts_for_the_same_directories_and_files() {
    let mut counters = StructureCounters::new();
    counters.record(0, 0, &[child_dir("a"), child_dir("b"), child_file("c")]);
    counters.record(1, 1, &[child_file("d"), child_file("e")]);
    counters.record(1, 1, &[]);

    let structure = counters.finish(true);

    let by_level: u64 = structure.level_rows().iter().map(|(_, g)| g.directories).sum();
    let files_by_level: u64 = structure.level_rows().iter().map(|(_, g)| g.files).sum();
    let by_fan_out: u64 = structure.fan_out_rows().iter().map(|(_, g)| g.directories).sum();
    let by_file_count: u64 = structure
        .file_count_rows()
        .iter()
        .map(|(_, g)| g.directories)
        .sum();
    assert_eq!(by_level, structure.directories);
    assert_eq!(by_fan_out, structure.listed_directories);
    assert_eq!(by_file_count, structure.listed_directories);
    assert_eq!(files_by_level, structure.files());
}

#[test]
fn the_walk_may_list_in_any_order() {
    let link = Child {
        is_dir: false,
        is_file: false,
        name_length: 400,
    };
    let mut one = StructureCounters::new();
    one.record(0, 0, &[child_dir("a"), child_dir("b"), child_file("c"), link]);
    one.record(1, 1, &[child_file("x"), child_file("yy")]);
    one.record(1, 1, &[]);
    let mut other = StructureCounters::new();
    other.record(1, 1, &[]);
    other.record(1, 1, &[child_file("yy"), child_file("x")]);
    other.record(0, 0, &[child_file("c"), child_dir("b"), child_dir("a")]);

    let structure = one.finish(true);
    assert_eq!(structure, other.finish(true));
    assert_eq!(structure.longest_path, 4);

    // Both band reports cover every listed directory and every file in one.
    let by_fan_out = structure.fan_out_rows();
    let by_files = structure.file_count_rows();
    assert_eq!(by_fan_out.iter().map(|row| row.1.directories).sum::<u64>(), 3);
    assert_eq!(by_files.iter().map(|row| row.1.directories).sum::<u64>(), 3);
    assert_eq!(structure.listed_directories, 3);
    assert_eq!(by_fan_out.iter().map(|row| row.1.files).sum::<u64>(), 3);
    assert_eq!(structure.files(), 3);
}
