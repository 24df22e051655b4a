//! What the reports say, column by column.

use crate::bands::{AgeBucket, SizeBand};
use crate::diff::{signed_wrap, DiffRow};
use crate::path::lossy_utf8;
use crate::reports::{age_entries, change_table, hotspot_table, largest_table, size_entries};
use crate::results::{average_of, report_table};
use crate::scan::Hotspot;
use crate::summary::LargestFile;
use crate::tally::{rounding_goes_to_the_nearest, Bucket};
use crate::text::{
    decimal, numbers_are_written_in_decimal, only_digits_read_as_a_number, signed_decimal,
    signs_stand_in_front, whole_number,
};
use vstd::prelude::*;

verus! {

/// Whether `text` is the number `n`, with a minus sign if it is negative.
pub open spec fn is_number(text: Seq<char>, n: int) -> bool {
    if n < 0 {
        text.len() > 0 && text[0] == '-' && whole_number(text.drop_first()) == Some((-n) as u64)
    } else {
        text.len() > 0 && text[0] != '+' && whole_number(text) == Some(n as u64)
    }
}

proof fn written_as_number(n: int)
    requires
        -u64::MAX <= n <= u64::MAX,
    ensures
        is_number(signed_decimal(n), n),
        n >= 0 ==> is_number(decimal(n as nat), n),
{
    let m = if n < 0 {
        (-n) as nat
    } else {
        n as nat
    };
    only_digits_read_as_a_number(m, Seq::empty(), 0);
    numbers_are_written_in_decimal(m);
    signs_stand_in_front(n);
    assert('0' <= decimal(m)[0] <= '9');
}

/// A mean is the bytes by the files, to the nearest byte, and of two that are
/// as near the even one. It is nothing where there are no files.
pub proof fn a_mean_is_bytes_by_files(bucket: Bucket)
    ensures
        bucket.count == 0 ==> average_of(bucket) == 0,
        bucket.count > 0 ==> {
            let off = 2 * (bucket.bytes - average_of(bucket) * bucket.count);
            &&& -bucket.count <= off <= bucket.count
            &&& off == bucket.count || off == -bucket.count ==> average_of(bucket) % 2 == 0
        },
        0 <= average_of(bucket) <= bucket.bytes,
{
    if bucket.count == 0 {
        assert(0int / 1 == 0 && 0int % 1 == 0);
    } else {
        let n = bucket.bytes as int;
        let d = bucket.count as int;
        rounding_goes_to_the_nearest(n, d);
        let r = average_of(bucket);
        if r > n {
            if d == 1 {
                assert(n / 1 == n && n % 1 == 0);
            }
            assert(r * d >= r + (d - 1) * r) by (nonlinear_arith);
            assert((d - 1) * r >= (d - 1) * (n + 1)) by (nonlinear_arith)
                requires
                    d >= 1,
                    r >= n + 1,
            ;
            assert((d - 1) * (n + 1) >= d - 1) by (nonlinear_arith)
                requires
                    d >= 1,
                    n >= 0,
            ;
            assert(r == n + 1 && d == 1 || n == 0);
            if n == 0 {
                assert(0int / d == 0 && 0int % d == 0) by (nonlinear_arith)
                    requires
                        d >= 1,
                ;
            }
        }
    }
}

/// A report on totals has four columns: the name, how many files there are, how
/// many bytes, and the mean size. There is a row for each entry, in the same
/// order.
pub proof fn totals_are_written_in_four_columns(
    first: Seq<char>,
    entries: Seq<(Seq<char>, Bucket)>,
    i: int,
)
    requires
        0 <= i < entries.len(),
    ensures
        ({
            let table = report_table(first, entries);
            let (name, bucket) = entries[i];
            let row = table[i + 1];
            &&& table.len() == entries.len() + 1
            &&& table[0] == seq![first, "Qty"@, "Cap Bytes"@, "Avg Bytes"@]
            &&& row.len() == 4
            &&& row[0] == name
            &&& is_number(row[1], bucket.count as int)
            &&& is_number(row[2], bucket.bytes as int)
            &&& is_number(row[3], average_of(bucket))
        }),
{
    let bucket = entries[i].1;
    a_mean_is_bytes_by_files(bucket);
    written_as_number(bucket.count as int);
    written_as_number(bucket.bytes as int);
    written_as_number(average_of(bucket));
}

/// A band is written under its name, with what it holds.
pub proof fn bands_are_written_under_their_names(
    ages: Seq<(AgeBucket, Bucket)>,
    sizes: Seq<(SizeBand, Bucket)>,
    i: int,
)
    ensures
        age_entries(ages).len() == ages.len(),
        size_entries(sizes).len() == sizes.len(),
        0 <= i < ages.len() ==> age_entries(ages)[i].0 == ages[i].0.label_text() && age_entries(
            ages,
        )[i].1 == ages[i].1,
        0 <= i < sizes.len() ==> size_entries(sizes)[i].0 == sizes[i].0.label_text()
            && size_entries(sizes)[i].1 == sizes[i].1,
{
}

/// The report on hotspots names each directory as it was spelled, and says how
/// many small files and bytes it holds, and then how many files and bytes in
/// all.
pub proof fn hotspots_are_written_in_five_columns(hotspots: Seq<Hotspot>, i: int)
    requires
        0 <= i < hotspots.len(),
    ensures
        ({
            let table = hotspot_table(hotspots);
            let stats = hotspots[i].stats;
            let row = table[i + 1];
            &&& table.len() == hotspots.len() + 1
            &&& table[0] == seq![
                "Directory"@,
                "Small Qty"@,
                "Small Bytes"@,
                "Qty"@,
                "Cap Bytes"@,
            ]
            &&& row.len() == 5
            &&& row[0] == lossy_utf8(hotspots[i].directory.spelling@)
            &&& is_number(row[1], stats.small_files as int)
            &&& is_number(row[2], stats.small_bytes as int)
            &&& is_number(row[3], stats.files as int)
            &&& is_number(row[4], stats.bytes as int)
        }),
{
    let stats = hotspots[i].stats;
    written_as_number(stats.small_files as int);
    written_as_number(stats.small_bytes as int);
    written_as_number(stats.files as int);
    written_as_number(stats.bytes as int);
}

/// The report on the largest files names each as it was spelled, and says how
/// large it is.
pub proof fn largest_files_are_written_in_two_columns(files: Seq<LargestFile>, i: int)
    requires
        0 <= i < files.len(),
    ensures
        ({
            let table = largest_table(files);
            let row = table[i + 1];
            &&& table.len() == files.len() + 1
            &&& table[0] == seq!["Path"@, "Bytes"@]
            &&& row.len() == 2
            &&& row[0] == lossy_utf8(files[i].path.spelling@)
            &&& is_number(row[1], files[i].bytes as int)
        }),
{
    written_as_number(files[i].bytes as int);
}

/// A comparison says of each extension how many files there were and are and
/// by how many they grew, and the same of bytes. A change that does not fit a
/// signed number is off by the range of a counter.
pub proof fn changes_are_written_in_seven_columns(rows: Seq<DiffRow>, i: int)
    requires
        0 <= i < rows.len(),
    ensures
        ({
            let table = change_table(rows);
            let before = rows[i].before;
            let after = rows[i].after;
            let row = table[i + 1];
            let files = after.count - before.count;
            let bytes = after.bytes - before.bytes;
            &&& table.len() == rows.len() + 1
            &&& table[0] == seq![
                "Extension"@,
                "Qty Before"@,
                "Qty After"@,
                "Qty Change"@,
                "Cap Bytes Before"@,
                "Cap Bytes After"@,
                "Cap Bytes Change"@,
            ]
            &&& row.len() == 7
            &&& row[0] == rows[i].extension@
            &&& is_number(row[1], before.count as int)
            &&& is_number(row[2], after.count as int)
            &&& i64::MIN <= files <= i64::MAX ==> is_number(row[3], files)
            &&& is_number(row[4], before.bytes as int)
            &&& is_number(row[5], after.bytes as int)
            &&& i64::MIN <= bytes <= i64::MAX ==> is_number(row[6], bytes)
        }),
{
    let before = rows[i].before;
    let after = rows[i].after;
    written_as_number(before.count as int);
    written_as_number(after.count as int);
    written_as_number(before.bytes as int);
    written_as_number(after.bytes as int);
    written_as_number(signed_wrap(after.count - before.count));
    written_as_number(signed_wrap(after.bytes - before.bytes));
}

} // verus!
