//! The other reports of a run, as CSV.

use crate::bands::{AgeBucket, SizeBand};
use crate::csv_file::{csv_text, csv_text_of, fields_of};
use crate::diff::{signed_wrap, Diff, DiffRow};
use crate::path::lossy_utf8;
use crate::results::{report_csv, report_table};
use crate::scan::{entries_of, texts, Hotspot, Scan};
use crate::sorted_map::{ascending, map_of};
use crate::summary::LargestFile;
use crate::tally::Bucket;
use crate::text::{decimal, decimal_text, signed_decimal, signed_text};
use vstd::prelude::*;
use vstd::string::*;

verus! {

/// The labels of a sequence of age rows.
pub open spec fn age_entries(rows: Seq<(AgeBucket, Bucket)>) -> Seq<(Seq<char>, Bucket)> {
    Seq::new(rows.len(), |i: int| (rows[i].0.label_text(), rows[i].1))
}

/// The labels of a sequence of size rows.
pub open spec fn size_entries(rows: Seq<(SizeBand, Bucket)>) -> Seq<(Seq<char>, Bucket)> {
    Seq::new(rows.len(), |i: int| (rows[i].0.label_text(), rows[i].1))
}

/// Totals by file age, in display order.
pub fn age_csv(scan: &Scan) -> (r: Vec<u8>)
    requires
        scan.well_formed(),
    ensures
        exists|rows: Seq<(AgeBucket, Bucket)>| #[trigger]
            ascending::<AgeBucket, Bucket>(rows) && map_of(rows) == scan.ages.map() && r@
                == csv_text_of(report_table("Age"@, age_entries(rows))),
{
    let rows: Vec<(AgeBucket, Bucket)> = scan.age_rows();
    let mut named: Vec<(&str, Bucket)> = Vec::new();
    let mut i: usize = 0;
    while i < rows.len()
        invariant
            i <= rows@.len(),
            named@.len() == i,
            forall|k: int|
                0 <= k < i ==> (#[trigger] named@[k]).0@ == rows@[k].0.label_text() && named@[k].1
                    == rows@[k].1,
        decreases rows.len() - i,
    {
        named.push((rows[i].0.label(), rows[i].1));
        i = i + 1;
    }
    assert(entries_of(named@) =~= age_entries(rows@));
    assert(ascending::<AgeBucket, Bucket>(rows@));
    report_csv("Age", &named)
}

/// Totals by file size, smallest first.
pub fn size_csv(scan: &Scan) -> (r: Vec<u8>)
    requires
        scan.well_formed(),
    ensures
        exists|rows: Seq<(SizeBand, Bucket)>| #[trigger]
            ascending::<SizeBand, Bucket>(rows) && map_of(rows) == scan.sizes.map() && r@
                == csv_text_of(report_table("Size"@, size_entries(rows))),
{
    let rows: Vec<(SizeBand, Bucket)> = scan.size_rows();
    let mut named: Vec<(&str, Bucket)> = Vec::new();
    let mut i: usize = 0;
    while i < rows.len()
        invariant
            i <= rows@.len(),
            named@.len() == i,
            forall|k: int|
                0 <= k < i ==> (#[trigger] named@[k]).0@ == rows@[k].0.label_text() && named@[k].1
                    == rows@[k].1,
        decreases rows.len() - i,
    {
        named.push((rows[i].0.label(), rows[i].1));
        i = i + 1;
    }
    assert(entries_of(named@) =~= size_entries(rows@));
    assert(ascending::<SizeBand, Bucket>(rows@));
    report_csv("Size", &named)
}

/// What the hotspot report says of one directory.
pub open spec fn hotspot_fields(hotspot: Hotspot) -> Seq<Seq<char>> {
    seq![
        lossy_utf8(hotspot.directory.spelling@),
        decimal(hotspot.stats.small_files as nat),
        decimal(hotspot.stats.small_bytes as nat),
        decimal(hotspot.stats.files as nat),
        decimal(hotspot.stats.bytes as nat),
    ]
}

/// The hotspot report as a table.
pub open spec fn hotspot_table(hotspots: Seq<Hotspot>) -> Seq<Seq<Seq<char>>> {
    seq![seq!["Directory"@, "Small Qty"@, "Small Bytes"@, "Qty"@, "Cap Bytes"@]] + Seq::new(
        hotspots.len(),
        |i: int| hotspot_fields(hotspots[i]),
    )
}

/// Directories holding the most small files, worst first.
pub fn hotspot_csv(hotspots: &Vec<Hotspot>) -> (r: Vec<u8>)
    ensures
        r@ == csv_text_of(hotspot_table(hotspots@)),
{
    let ghost table = hotspot_table(hotspots@);
    let mut header: Vec<String> = Vec::new();
    header.push("Directory".to_owned());
    header.push("Small Qty".to_owned());
    header.push("Small Bytes".to_owned());
    header.push("Qty".to_owned());
    header.push("Cap Bytes".to_owned());
    assert(texts(header@) =~= table[0]);
    let mut lines: Vec<Vec<String>> = Vec::new();
    lines.push(header);
    let mut i: usize = 0;
    while i < hotspots.len()
        invariant
            i <= hotspots@.len(),
            table == hotspot_table(hotspots@),
            lines@.len() == i + 1,
            forall|k: int| 0 <= k <= i ==> texts((#[trigger] lines@[k])@) == table[k],
        decreases hotspots.len() - i,
    {
        let hotspot: &Hotspot = &hotspots[i];
        let mut line: Vec<String> = Vec::new();
        line.push(hotspot.directory.to_text());
        line.push(decimal_text(hotspot.stats.small_files));
        line.push(decimal_text(hotspot.stats.small_bytes));
        line.push(decimal_text(hotspot.stats.files));
        line.push(decimal_text(hotspot.stats.bytes));
        assert(texts(line@) =~= table[i + 1]);
        lines.push(line);
        i = i + 1;
    }
    assert(fields_of(lines@) =~= table);
    csv_text(&lines)
}

/// What the report of the largest files says of one.
pub open spec fn largest_fields(file: LargestFile) -> Seq<Seq<char>> {
    seq![lossy_utf8(file.path.spelling@), decimal(file.bytes as nat)]
}

/// The report of the largest files as a table.
pub open spec fn largest_table(files: Seq<LargestFile>) -> Seq<Seq<Seq<char>>> {
    seq![seq!["Path"@, "Bytes"@]] + Seq::new(files.len(), |i: int| largest_fields(files[i]))
}

/// The largest files found, biggest first.
pub fn largest_csv(files: &Vec<LargestFile>) -> (r: Vec<u8>)
    ensures
        r@ == csv_text_of(largest_table(files@)),
{
    let ghost table = largest_table(files@);
    let mut header: Vec<String> = Vec::new();
    header.push("Path".to_owned());
    header.push("Bytes".to_owned());
    assert(texts(header@) =~= table[0]);
    let mut lines: Vec<Vec<String>> = Vec::new();
    lines.push(header);
    let mut i: usize = 0;
    while i < files.len()
        invariant
            i <= files@.len(),
            table == largest_table(files@),
            lines@.len() == i + 1,
            forall|k: int| 0 <= k <= i ==> texts((#[trigger] lines@[k])@) == table[k],
        decreases files.len() - i,
    {
        let mut line: Vec<String> = Vec::new();
        line.push(files[i].path.to_text());
        line.push(decimal_text(files[i].bytes));
        assert(texts(line@) =~= table[i + 1]);
        lines.push(line);
        i = i + 1;
    }
    assert(fields_of(lines@) =~= table);
    csv_text(&lines)
}

/// What a comparison says of one extension.
pub open spec fn change_fields(row: DiffRow) -> Seq<Seq<char>> {
    seq![
        row.extension@,
        decimal(row.before.count as nat),
        decimal(row.after.count as nat),
        signed_decimal(signed_wrap(row.after.count - row.before.count)),
        decimal(row.before.bytes as nat),
        decimal(row.after.bytes as nat),
        signed_decimal(signed_wrap(row.after.bytes - row.before.bytes)),
    ]
}

/// The columns of a comparison.
pub open spec fn change_header() -> Seq<Seq<char>> {
    seq![
        "Extension"@,
        "Qty Before"@,
        "Qty After"@,
        "Qty Change"@,
        "Cap Bytes Before"@,
        "Cap Bytes After"@,
        "Cap Bytes Change"@,
    ]
}

/// A comparison as a table.
pub open spec fn change_table(rows: Seq<DiffRow>) -> Seq<Seq<Seq<char>>> {
    seq![change_header()] + Seq::new(rows.len(), |i: int| change_fields(rows[i]))
}

/// What changed between two scans, biggest movement first.
pub fn diff_csv(diff: &Diff) -> (r: Vec<u8>)
    ensures
        r@ == csv_text_of(change_table(diff.rows@)),
{
    let ghost table = change_table(diff.rows@);
    let mut header: Vec<String> = Vec::new();
    header.push("Extension".to_owned());
    header.push("Qty Before".to_owned());
    header.push("Qty After".to_owned());
    header.push("Qty Change".to_owned());
    header.push("Cap Bytes Before".to_owned());
    header.push("Cap Bytes After".to_owned());
    header.push("Cap Bytes Change".to_owned());
    assert(texts(header@) =~= table[0]);
    let mut lines: Vec<Vec<String>> = Vec::new();
    lines.push(header);
    let mut i: usize = 0;
    while i < diff.rows.len()
        invariant
            i <= diff.rows@.len(),
            table == change_table(diff.rows@),
            lines@.len() == i + 1,
            forall|k: int| 0 <= k <= i ==> texts((#[trigger] lines@[k])@) == table[k],
        decreases diff.rows.len() - i,
    {
        let row: &DiffRow = &diff.rows[i];
        let mut line: Vec<String> = Vec::new();
        line.push(row.extension.clone());
        line.push(decimal_text(row.before.count));
        line.push(decimal_text(row.after.count));
        line.push(signed_text(row.count_delta()));
        line.push(decimal_text(row.before.bytes));
        line.push(decimal_text(row.after.bytes));
        line.push(signed_text(row.bytes_delta()));
        assert(texts(line@) =~= table[i + 1]);
        lines.push(line);
        i = i + 1;
    }
    assert(fields_of(lines@) =~= table);
    csv_text(&lines)
}

} // verus!
