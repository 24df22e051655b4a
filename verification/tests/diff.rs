//! Reading results files back and comparing them.

use fast_walk::csv_file::csv_text;
use fast_walk::diff::{compare, Diff};
use fast_walk::reports::diff_csv;
use fast_walk::results::{read_scan_csv, read_totals, report_csv, results_csv, ReadError};
use fast_walk::{
    aggregate, scan, Bucket, FilePath, FileRecord, Measurement, NoProgress, RootStatus, Scan,
    ScanOptions, SortedMap, StructureCounters, Timestamp, Walk,
};

fn totals(entries: &[(&str, u64, u64)]) -> SortedMap<String, Bucket> {
    let mut totals = SortedMap::new();
    for (extension, count, bytes) in entries {
        totals.set(
            (*extension).to_string(),
            Bucket {
                count: *count,
                bytes: *bytes,
            },
        );
    }
    totals
}

fn read(contents: &str) -> Result<SortedMap<String, Bucket>, ReadError> {
    read_scan_csv(Some(contents.as_bytes()))
}

fn bucket(totals: &SortedMap<String, Bucket>, extension: &str) -> Bucket {
    totals.get(&extension.to_string()).unwrap()
}

fn listed(diff: &Diff) -> Vec<&str> {
    diff.rows.iter().map(|row| row.extension.as_str()).collect()
}

#[test]
fn reports_growth_and_shrinkage() {
    let diff = compare(&totals(&[("txt", 10, 1000)]), &totals(&[("txt", 12, 1500)]));

    assert_eq!(diff.rows.len(), 1);
    assert_eq!(diff.rows[0].count_delta(), 2);
    assert_eq!(diff.rows[0].bytes_delta(), 500);

    let diff = compare(&totals(&[("txt", 10, 1000)]), &totals(&[("txt", 4, 250)]));

    assert_eq!(diff.rows[0].count_delta(), -6);
    assert_eq!(diff.rows[0].bytes_delta(), -750);
}

#[test]
fn unchanged_extensions_are_left_out() {
    let diff = compare(
        &totals(&[("txt", 10, 1000), ("rs", 5, 500)]),
        &totals(&[("txt", 10, 1000), ("rs", 6, 700)]),
    );

    assert_eq!(listed(&diff), ["rs"]);
}

#[test]
fn an_extension_only_in_the_later_scan_is_new() {
    let diff = compare(&totals(&[]), &totals(&[("mp4", 3, 900)]));

    assert!(diff.rows[0].is_new());
    assert!(!diff.rows[0].is_gone());
    assert_eq!(diff.rows[0].bytes_delta(), 900);
}

#[test]
fn an_extension_only_in_the_earlier_scan_is_gone() {
    let diff = compare(&totals(&[("mp4", 3, 900)]), &totals(&[]));

    assert!(diff.rows[0].is_gone());
    assert!(!diff.rows[0].is_new());
    assert_eq!(diff.rows[0].bytes_delta(), -900);
}

#[test]
fn rows_are_ordered_by_size_of_change_regardless_of_direction() {
    let diff = compare(
        &totals(&[("small", 1, 10), ("shrank", 1, 5000), ("grew", 1, 100)]),
        &totals(&[("small", 1, 30), ("shrank", 1, 1000), ("grew", 1, 900)]),
    );

    // -4000, then +800, then +20.
    assert_eq!(listed(&diff), ["shrank", "grew", "small"]);
}

#[test]
fn totals_cover_unchanged_extensions_too() {
    let diff = compare(
        &totals(&[("txt", 10, 1000), ("rs", 5, 500)]),
        &totals(&[("txt", 10, 1000), ("rs", 6, 700)]),
    );

    assert_eq!(
        diff.before_total,
        Bucket {
            count: 15,
            bytes: 1500
        }
    );
    assert_eq!(
        diff.after_total,
        Bucket {
            count: 16,
            bytes: 1700
        }
    );
    assert_eq!(diff.count_delta(), 1);
    assert_eq!(diff.bytes_delta(), 200);
}

#[test]
fn comparing_a_scan_with_itself_reports_nothing() {
    let scan = totals(&[("txt", 10, 1000), ("rs", 5, 500)]);

    let diff = compare(&scan, &scan);

    assert!(diff.rows.is_empty());
    assert_eq!(diff.bytes_delta(), 0);
    assert_eq!(diff.count_delta(), 0);
}

#[test]
fn equal_movements_are_ordered_by_name() {
    let diff = compare(
        &totals(&[("b", 1, 10), ("a", 1, 30)]),
        &totals(&[("b", 1, 20), ("a", 1, 20)]),
    );

    assert_eq!(listed(&diff), ["a", "b"]);
}

#[test]
fn comparing_backwards_swaps_the_sides_and_keeps_the_order() {
    let old = totals(&[("a", 1, 10), ("b", 2, 500), ("c", 1, 1)]);
    let new = totals(&[("a", 4, 90), ("b", 1, 100)]);

    let forwards = compare(&old, &new);
    let backwards = compare(&new, &old);

    assert_eq!(listed(&forwards), listed(&backwards));
    for (one, other) in forwards.rows.iter().zip(&backwards.rows) {
        assert_eq!(one.before, other.after);
        assert_eq!(one.after, other.before);
        assert_eq!(one.bytes_delta(), -other.bytes_delta());
    }
}

#[test]
fn the_rows_add_up_to_the_difference_of_the_totals() {
    let diff = compare(
        &totals(&[("a", 1, 10), ("b", 2, 500), ("same", 7, 7)]),
        &totals(&[("a", 4, 90), ("new", 1, 100), ("same", 7, 7)]),
    );

    let files: i64 = diff.rows.iter().map(|row| row.count_delta()).sum();
    let bytes: i64 = diff.rows.iter().map(|row| row.bytes_delta()).sum();
    assert_eq!(files, diff.count_delta());
    assert_eq!(bytes, diff.bytes_delta());
    assert_eq!(bytes, -320);
}

#[test]
fn a_comparison_of_nothing_is_the_default() {
    assert_eq!(compare(&totals(&[]), &totals(&[])), Diff::default());
}

#[test]
fn reads_the_columns_a_scan_writes() {
    let totals = read("Extension,Qty,Cap Bytes,Avg Bytes\ntxt,3,300,100\nrs,1,50,50\n").unwrap();

    assert_eq!(bucket(&totals, "txt").count, 3);
    assert_eq!(bucket(&totals, "txt").bytes, 300);
    assert_eq!(bucket(&totals, "rs").count, 1);
    assert_eq!(bucket(&totals, "rs").bytes, 50);
}

#[test]
fn columns_are_found_by_name_not_position() {
    let totals = read("Something Else,Cap Bytes,Extension,Qty\nignored,300,txt,3\n").unwrap();

    assert_eq!(bucket(&totals, "txt").count, 3);
    assert_eq!(bucket(&totals, "txt").bytes, 300);
}

#[test]
fn a_file_missing_a_required_column_is_rejected_by_name() {
    let err = read("Extension,Qty\ntxt,3\n")
        .unwrap_err()
        .message("results.csv");

    assert!(err.contains("Cap Bytes"), "unhelpful error: {err}");
}

#[test]
fn a_non_numeric_count_is_rejected_with_the_line_number() {
    let err = read("Extension,Qty,Cap Bytes\ntxt,3,300\nrs,lots,50\n")
        .unwrap_err()
        .message("results.csv");

    assert!(err.contains("line 3"), "should name the row: {err}");
    assert!(err.contains("lots"), "should quote the value: {err}");
}

#[test]
fn a_missing_file_is_rejected_rather_than_read_as_empty() {
    let err = read_scan_csv(None).unwrap_err().message("nope.csv");

    assert!(err.contains("cannot read scan file"), "unhelpful: {err}");
}

#[test]
fn an_empty_results_file_compares_as_having_nothing() {
    let diff = compare(
        &read("Extension,Qty,Cap Bytes\n").unwrap(),
        &read("Extension,Qty,Cap Bytes\ntxt,3,300\n").unwrap(),
    );

    assert_eq!(diff.rows.len(), 1);
    assert!(diff.rows[0].is_new());
    assert_eq!(diff.bytes_delta(), 300);
}

/// Scan a directory holding the given files, and give back what its results
/// file holds.
fn scan_to_csv(files: &[(&str, u64)]) -> Vec<u8> {
    let options = ScanOptions::default();
    let measured: Vec<Measurement> = files
        .iter()
        .map(|(name, size)| {
            Measurement::Measured(FileRecord {
                name: name.as_bytes().to_vec(),
                directory: FilePath::from_bytes(b""),
                size: *size,
                modified: None,
            })
        })
        .collect();
    let now = Timestamp { nanos: 0 };
    let aggregated = aggregate(&measured, &options, now, &NoProgress).unwrap();
    let scan = scan(
        RootStatus::Directory,
        Walk::new(),
        &StructureCounters::new(),
        aggregated,
        &options,
    )
    .unwrap();
    results_csv(&scan)
}

#[test]
fn a_scan_writes_csvs_that_the_differ_can_read_back() {
    let before = scan_to_csv(&[("a.txt", 100)]);
    let after = scan_to_csv(&[("a.txt", 100), ("b.txt", 400), ("c.mp4", 1000)]);

    let diff = compare(
        &read_scan_csv(Some(&before)).unwrap(),
        &read_scan_csv(Some(&after)).unwrap(),
    );

    assert_eq!(diff.count_delta(), 2);
    assert_eq!(diff.bytes_delta(), 1400);

    // mp4 moved the most capacity, so it leads.
    assert_eq!(diff.rows[0].extension, "mp4");
    assert!(diff.rows[0].is_new());
    assert_eq!(diff.rows[0].bytes_delta(), 1000);

    assert_eq!(diff.rows[1].extension, "txt");
    assert_eq!(diff.rows[1].count_delta(), 1);
    assert_eq!(diff.rows[1].bytes_delta(), 400);
}

#[test]
fn a_results_file_is_written_as_expected() {
    let csv = scan_to_csv(&[("a.txt", 100), ("b.txt", 401), ("c.mp4", 1000)]);

    // 250.5 bytes per file is halfway, so the even number is taken.
    assert_eq!(
        String::from_utf8(csv).unwrap(),
        "Extension,Qty,Cap Bytes,Avg Bytes\ntxt,2,501,250\nmp4,1,1000,1000\n"
    );
}

#[test]
fn awkward_extensions_survive_the_round_trip() {
    let names = [
        "a,b",
        "say \"hi\"",
        "two\nlines",
        "carriage\rreturn",
        " spaced ",
        "\u{feff}x",
        "",
    ];
    let mut scan = Scan::default();
    for (at, name) in names.iter().enumerate() {
        scan.totals.set(
            (*name).to_string(),
            Bucket {
                count: at as u64 + 1,
                bytes: u64::MAX - at as u64,
            },
        );
    }

    let read = read_scan_csv(Some(&results_csv(&scan))).unwrap();

    assert_eq!(read.len(), names.len());
    for (at, name) in names.iter().enumerate() {
        assert_eq!(
            bucket(&read, name),
            Bucket {
                count: at as u64 + 1,
                bytes: u64::MAX - at as u64,
            }
        );
    }
}

#[test]
fn an_extension_listed_twice_is_added_up() {
    let totals = read("Extension,Qty,Cap Bytes\ntxt,3,300\ntxt,1,50\n").unwrap();

    assert_eq!(
        bucket(&totals, "txt"),
        Bucket {
            count: 4,
            bytes: 350
        }
    );
}

#[test]
fn white_space_around_headers_and_numbers_is_ignored() {
    let totals = read(" Extension ,Qty\u{a0},\tCap Bytes\n txt , 3,300 \n").unwrap();

    assert_eq!(
        bucket(&totals, " txt "),
        Bucket {
            count: 3,
            bytes: 300
        }
    );
}

#[test]
fn a_plus_sign_is_allowed_and_a_minus_sign_is_not() {
    assert!(read("Extension,Qty,Cap Bytes\ntxt,+3,300\n").is_ok());
    assert_eq!(
        read("Extension,Qty,Cap Bytes\ntxt,-3,300\n")
            .unwrap_err()
            .message("r.csv"),
        "r.csv line 2: Qty is \"-3\", which is not a whole number"
    );
}

#[test]
fn each_refusal_is_put_into_words() {
    assert_eq!(
        read_scan_csv(None).unwrap_err().message("r.csv"),
        "cannot read scan file: r.csv"
    );
    assert_eq!(
        read_scan_csv(Some(b"\xff\n")).unwrap_err().message("r.csv"),
        "r.csv has no header row"
    );
    assert_eq!(
        read("Extension,Qty\ntxt,3\n").unwrap_err().message("r.csv"),
        "r.csv is not a fast-walk results file: no \"Cap Bytes\" column (found: Extension, Qty)"
    );
    assert_eq!(
        read("Qty\n").unwrap_err().message("r.csv"),
        "r.csv is not a fast-walk results file: no \"Extension\" column (found: Qty)"
    );
    assert_eq!(
        read("").unwrap_err().message("r.csv"),
        "r.csv is not a fast-walk results file: no \"Extension\" column (found: )"
    );
    assert_eq!(
        read("Extension,Qty,Cap Bytes\ntxt,3\n").unwrap_err().message("r.csv"),
        "r.csv line 2: malformed row"
    );
    assert_eq!(
        read("Extension,Qty,Cap Bytes\ntxt,3,lots\n").unwrap_err().message("r.csv"),
        "r.csv line 2: Cap Bytes is \"lots\", which is not a whole number"
    );
    assert_eq!(
        read("Extension,Qty,Cap Bytes\ntxt,18446744073709551615,1\ntxt,1,1\n")
            .unwrap_err()
            .message("r.csv"),
        "r.csv line 3: the totals are too large to hold"
    );
}

#[test]
fn a_number_past_the_end_of_a_counter_is_no_number() {
    assert!(read("Extension,Qty,Cap Bytes\ntxt,18446744073709551615,0\n").is_ok());
    assert!(matches!(
        read("Extension,Qty,Cap Bytes\ntxt,18446744073709551616,0\n"),
        Err(ReadError::NotANumber {
            line: 2,
            column: "Qty",
            ..
        })
    ));
}

#[test]
fn a_row_without_an_extension_is_refused() {
    let headers = Ok(vec![
        "Qty".to_string(),
        "Cap Bytes".to_string(),
        "Extension".to_string(),
    ]);
    let records = vec![Ok(vec!["1".to_string(), "2".to_string()])];

    let err = read_totals(headers, records).unwrap_err();

    assert!(matches!(err, ReadError::NoExtension { line: 2 }));
    assert_eq!(
        err.message("r.csv"),
        "r.csv line 2: missing the Extension column"
    );
}

#[test]
fn the_first_faulty_row_is_the_one_reported() {
    let err = read("Extension,Qty,Cap Bytes\na,1,1\nb,x,1\nc\nd,y,1\n").unwrap_err();

    assert!(matches!(err, ReadError::NotANumber { line: 3, .. }));
}

#[test]
fn the_first_of_two_columns_with_a_name_counts() {
    let totals = read("Extension,Qty,Cap Bytes,Qty\ntxt,3,300,9\n").unwrap();

    assert_eq!(bucket(&totals, "txt").count, 3);
}

#[test]
fn a_report_names_its_first_column() {
    let rows = vec![(
        "new",
        Bucket {
            count: 4,
            bytes: 10,
        },
    )];

    assert_eq!(
        String::from_utf8(report_csv("Age", &rows)).unwrap(),
        "Age,Qty,Cap Bytes,Avg Bytes\nnew,4,10,2\n"
    );
}

#[test]
fn a_comparison_is_written_with_signed_changes() {
    let diff = compare(
        &totals(&[("txt", 10, 1000), ("gone", 1, 50)]),
        &totals(&[("txt", 12, 1500)]),
    );

    assert_eq!(
        String::from_utf8(diff_csv(&diff)).unwrap(),
        "Extension,Qty Before,Qty After,Qty Change,Cap Bytes Before,Cap Bytes After,Cap Bytes Change\n\
         txt,10,12,2,1000,1500,500\n\
         gone,1,0,-1,50,0,-50\n"
    );
}

#[test]
fn changes_past_the_end_of_the_range_go_round() {
    let diff = compare(&totals(&[]), &totals(&[("huge", 1, u64::MAX)]));

    assert_eq!(diff.rows[0].bytes_delta(), -1);
    assert_eq!(diff.rows[0].count_delta(), 1);
}

#[test]
fn extensions_in_only_one_scan_are_marked() {
    let diff = compare(
        &totals(&[("txt", 1, 50), ("docx", 2, 100)]),
        &totals(&[("pdf", 1, 300), ("docx", 2, 400)]),
    );

    let labels: Vec<String> = diff.rows.iter().map(|row| row.label()).collect();
    assert_eq!(labels, ["docx", "pdf (new)", "txt (gone)"]);
}

#[test]
fn the_biggest_movement_leads_even_past_the_range_of_a_signed_change() {
    let diff = compare(
        &totals(&[("shrank", 1, 5000)]),
        &totals(&[("huge", 1, u64::MAX)]),
    );

    assert_eq!(listed(&diff), ["huge", "shrank"]);
}

#[test]
fn fields_are_quoted_only_where_they_have_to_be() {
    let row = |fields: &[&str]| fields.iter().map(|field| field.to_string()).collect();
    let rows: Vec<Vec<String>> = vec![
        row(&["plain", " spaced ", "#x"]),
        row(&["a,b", "say \"hi\"", "x\ry\nz"]),
        row(&["", "", ""]),
        row(&[""]),
        row(&[]),
        row(&["\""]),
    ];

    assert_eq!(
        String::from_utf8(csv_text(&rows)).unwrap(),
        "plain, spaced ,#x\n\"a,b\",\"say \"\"hi\"\"\",\"x\ry\nz\"\n,,\n\"\"\n\"\"\n\"\"\"\"\n"
    );
}

#[test]
fn the_cause_of_a_refusal_is_handed_on() {
    let cause = || csv::Error::from(std::io::Error::other("cut off"));

    match read_totals(Err(cause()), vec![]) {
        Err(ReadError::NoHeader { cause }) => assert_eq!(cause.to_string(), "cut off"),
        other => panic!("unexpected: {other:?}"),
    }

    let headers = || {
        Ok(vec![
            "Extension".to_string(),
            "Qty".to_string(),
            "Cap Bytes".to_string(),
        ])
    };
    let good = Ok(vec!["txt".to_string(), "1".to_string(), "2".to_string()]);
    match read_totals(headers(), vec![good, Err(cause())]) {
        Err(ReadError::Malformed { line, cause }) => {
            assert_eq!(line, 3);
            assert_eq!(cause.to_string(), "cut off");
        }
        other => panic!("unexpected: {other:?}"),
    }
}

#[test]
fn what_a_refusal_quotes_is_escaped_only_where_it_has_to_be() {
    let plain = read("Extension,Qty,Cap Bytes\ntxt,lots of,1\n").unwrap_err();
    assert_eq!(
        plain.message("r.csv"),
        "r.csv line 2: Qty is \"lots of\", which is not a whole number"
    );
    assert_eq!(
        plain.message_quoting("r.csv", "<lots of>"),
        "r.csv line 2: Qty is <lots of>, which is not a whole number"
    );

    let escaped = read("Extension,Qty,Cap Bytes\ntxt,\"a\tb\",1\n").unwrap_err();
    assert_eq!(
        escaped.message("r.csv"),
        "r.csv line 2: Qty is \"a\\tb\", which is not a whole number"
    );
}
