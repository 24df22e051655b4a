//! Where a run writes its results files, and how sizes are spelled.

use fast_walk::output::{
    civil_time, default_stem, output_stem, parse_size, report_path, CivilTime, Report,
};
use fast_walk::table::table_text;
use fast_walk::text::{change_text, decimal_text, parse_whole, signed_text, trim};

/// Every report a scan produces, as suffixes on the chosen stem.
const REPORTS: [&str; 5] = ["", "-age", "-size", "-hotspots", "-largest"];

fn files(output: &str) -> Vec<String> {
    let stem = output_stem(output.as_bytes());
    Report::ALL
        .iter()
        .map(|report| String::from_utf8(report_path(stem, *report)).unwrap())
        .collect()
}

#[test]
fn every_report_is_named_from_the_output_stem() {
    let names = files("/out/monday");

    for suffix in REPORTS {
        let expected = format!("/out/monday{suffix}.csv");
        assert!(names.contains(&expected), "{} was not written", expected);
    }
    assert_eq!(names.len(), REPORTS.len());
}

#[test]
fn a_csv_extension_on_the_output_is_not_doubled_up() {
    let names = files("/out/monday.csv");

    assert!(names.contains(&"/out/monday.csv".to_string()));
    assert!(names.contains(&"/out/monday-age.csv".to_string()));
    assert!(
        !names.contains(&"/out/monday.csv-age.csv".to_string()),
        "the extension should have been stripped before adding suffixes"
    );
}

#[test]
fn the_output_may_name_a_different_directory() {
    let names = files("/elsewhere/scan");

    assert!(names.contains(&"/elsewhere/scan.csv".to_string()));
    assert!(
        names.iter().all(|name| name.starts_with("/elsewhere/")),
        "nothing should have been written to the working directory"
    );
}

#[test]
fn without_an_output_the_files_are_timestamped() {
    let time = civil_time(1_785_657_845).unwrap();
    let names = files(&default_stem("results", &time));

    assert_eq!(
        names.len(),
        REPORTS.len(),
        "expected one file per report: {names:?}"
    );

    let stamp = names
        .iter()
        .filter_map(|name| {
            name.strip_prefix("results-")
                .and_then(|rest| rest.strip_suffix(".csv"))
        })
        .min_by_key(|stem| stem.len())
        .unwrap_or_else(|| panic!("no results file written: {names:?}"));

    // results-YYYYMMDD-HHMMSS.csv
    let (date, time) = stamp
        .split_once('-')
        .unwrap_or_else(|| panic!("unexpected stamp: {stamp:?}"));
    assert_eq!(date.len(), 8, "expected YYYYMMDD, got {date:?}");
    assert_eq!(time.len(), 6, "expected HHMMSS, got {time:?}");
    assert!(date.chars().all(|c| c.is_ascii_digit()), "{date:?}");
    assert!(time.chars().all(|c| c.is_ascii_digit()), "{time:?}");

    // Every report shares the one stamp, so a run's files stay together.
    for suffix in REPORTS {
        let expected = format!("results-{stamp}{suffix}.csv");
        assert!(
            names.contains(&expected),
            "{expected} missing from {names:?}"
        );
    }
}

#[test]
fn the_diff_output_can_be_named_too() {
    let path = report_path(output_stem(b"/out/weekly-diff"), Report::Extensions);

    assert_eq!(path, b"/out/weekly-diff.csv");
}

#[test]
fn a_file_called_just_csv_is_a_stem() {
    assert_eq!(output_stem(b".csv"), b".csv");
    assert_eq!(output_stem(b"/out/.csv"), b"/out/.csv");
    assert_eq!(output_stem(b"/out/a.csv"), b"/out/a");
    assert_eq!(output_stem(b"a.CSV"), b"a.CSV");
    assert_eq!(output_stem(b""), b"");
}

#[test]
fn known_moments_have_known_stamps() {
    assert_eq!(civil_time(0).unwrap().stamp(), "19700101-000000");
    assert_eq!(civil_time(951_782_399).unwrap().stamp(), "20000228-235959");
    assert_eq!(civil_time(951_782_400).unwrap().stamp(), "20000229-000000");
    assert_eq!(civil_time(1_000_000_000).unwrap().stamp(), "20010909-014640");
    assert_eq!(civil_time(4_107_542_400).unwrap().stamp(), "21000301-000000");
    assert_eq!(
        civil_time(253_402_300_799).unwrap().stamp(),
        "99991231-235959"
    );
    assert!(civil_time(253_402_300_800).is_none());
    assert!(civil_time(u64::MAX).is_none());
}

#[test]
fn a_moment_is_split_into_its_parts() {
    assert_eq!(
        civil_time(1_000_000_000),
        Some(CivilTime {
            year: 2001,
            month: 9,
            day: 9,
            hour: 1,
            minute: 46,
            second: 40,
        })
    );
}

#[test]
fn neighbouring_seconds_have_stamps_of_their_own() {
    let start = 1_709_251_100;
    for second in start..start + 200 {
        assert_ne!(
            civil_time(second).unwrap().stamp(),
            civil_time(second + 1).unwrap().stamp()
        );
    }
}

#[test]
fn sizes_may_carry_a_unit() {
    assert_eq!(parse_size("4096"), Some(4096));
    assert_eq!(parse_size("128K"), Some(128 * 1024));
    assert_eq!(parse_size("2m"), Some(2 * 1024 * 1024));
    assert_eq!(parse_size("1G"), Some(1 << 30));
    assert_eq!(parse_size("1T"), Some(1 << 40));
    assert_eq!(parse_size("0K"), Some(0));
}

#[test]
fn what_is_not_a_size_is_refused() {
    assert_eq!(parse_size(""), None);
    assert_eq!(parse_size("K"), None);
    assert_eq!(parse_size("12Q"), None);
    assert_eq!(parse_size("1.5M"), None);
    assert_eq!(parse_size("-1"), None);
    assert_eq!(parse_size("18446744073709551615"), Some(u64::MAX));
    assert_eq!(parse_size("18446744073709551616"), None);
    assert_eq!(parse_size("18014398509481984K"), None);
}

#[test]
fn numbers_read_back_as_written() {
    for n in [0, 7, 10, 99, 100, 12_345, u64::MAX] {
        assert_eq!(decimal_text(n), n.to_string());
        assert_eq!(parse_whole(&decimal_text(n)), Some(n));
    }
    for n in [0, -1, 5, i64::MIN, i64::MAX] {
        assert_eq!(signed_text(n), n.to_string());
    }
}

#[test]
fn text_is_trimmed_of_every_kind_of_white_space() {
    let texts = [
        "",
        " ",
        "a",
        " a b ",
        "\u{3000}x\u{85}",
        "\u{200b}x",
        "\t\n\u{b}\u{c}\r",
        "\u{2003}\u{feff}",
    ];
    for text in texts {
        assert_eq!(trim(text), text.trim());
    }
}

fn cells(texts: &[&str]) -> Vec<String> {
    texts.iter().map(|text| text.to_string()).collect()
}

#[test]
fn a_table_is_drawn_around_its_cells() {
    let header = cells(&["Extension", "Qty"]);
    let rows = vec![cells(&["txt", "3"]), cells(&["rs", "1"])];

    assert_eq!(
        table_text(&header, rows.clone(), 1),
        "╭───────────┬─────╮\n\
         │ Extension │ Qty │\n\
         ╞═══════════╪═════╡\n\
         │ txt       │ 3   │\n\
         ╰───────────┴─────╯"
    );
    assert_eq!(
        table_text(&header, rows, 10),
        "╭───────────┬─────╮\n\
         │ Extension │ Qty │\n\
         ╞═══════════╪═════╡\n\
         │ txt       │ 3   │\n\
         ├───────────┼─────┤\n\
         │ rs        │ 1   │\n\
         ╰───────────┴─────╯"
    );
}

#[test]
fn changes_carry_their_sign() {
    assert_eq!(change_text(1), "+1");
    assert_eq!(change_text(0), "0");
    assert_eq!(change_text(-1), "-1");
}
