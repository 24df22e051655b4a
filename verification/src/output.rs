//! Where the reports of a run are written, and how a size is spelled on the
//! command line.

use crate::path::SLASH;
use crate::text::{
    all_digits, digits_value, padded, padded_text, padding_loses_nothing, parse_whole,
    power_of_ten, whole_number,
};
use vstd::prelude::*;
use vstd::slice::*;
use vstd::string::*;
use vstd::utf8::*;

verus! {

pub open spec fn is_leap_year(year: int) -> bool {
    year % 4 == 0 && (year % 100 != 0 || year % 400 == 0)
}

pub open spec fn year_length(year: int) -> int {
    if is_leap_year(year) {
        366
    } else {
        365
    }
}

pub open spec fn month_length(year: int, month: int) -> int {
    if month == 2 {
        if is_leap_year(year) {
            29
        } else {
            28
        }
    } else if month == 4 || month == 6 || month == 9 || month == 11 {
        30
    } else {
        31
    }
}

/// Days from the start of 1970 to the start of `year`.
pub open spec fn days_before_year(year: int) -> int
    decreases year - 1970,
{
    if year <= 1970 {
        0
    } else {
        days_before_year(year - 1) + year_length(year - 1)
    }
}

/// Days from the start of `year` to the start of `month`.
pub open spec fn days_before_month(year: int, month: int) -> int
    decreases month,
{
    if month <= 1 {
        0
    } else {
        days_before_month(year, month - 1) + month_length(year, month - 1)
    }
}

/// A moment by the calendar, in UTC.
#[derive(Debug, Clone, Copy, PartialEq, Eq, Structural)]
pub struct CivilTime {
    pub year: u64,
    pub month: u64,
    pub day: u64,
    pub hour: u64,
    pub minute: u64,
    pub second: u64,
}

impl CivilTime {
    /// There is such a moment, and its year has four digits.
    pub open spec fn is_valid(&self) -> bool {
        &&& 1970 <= self.year <= 9999
        &&& 1 <= self.month <= 12
        &&& 1 <= self.day <= month_length(self.year as int, self.month as int)
        &&& self.hour < 24
        &&& self.minute < 60
        &&& self.second < 60
    }

    /// Seconds since the start of 1970.
    pub open spec fn seconds(&self) -> int {
        (days_before_year(self.year as int) + days_before_month(
            self.year as int,
            self.month as int,
        ) + self.day - 1) * 86400 + self.hour * 3600 + self.minute * 60 + self.second
    }

    /// As `YYYYMMDD-HHMMSS`.
    pub open spec fn stamp_text(&self) -> Seq<char> {
        padded(self.year as nat, 4) + padded(self.month as nat, 2) + padded(self.day as nat, 2)
            + seq!['-'] + padded(self.hour as nat, 2) + padded(self.minute as nat, 2) + padded(
            self.second as nat,
            2,
        )
    }

    /// As `YYYYMMDD-HHMMSS`.
    pub fn stamp(&self) -> (r: String)
        ensures
            r@ == self.stamp_text(),
    {
        proof {
            reveal_strlit("-");
        }
        assert("-"@ =~= seq!['-']);
        padded_text(self.year, 4).concat(padded_text(self.month, 2).as_str()).concat(
            padded_text(self.day, 2).as_str(),
        ).concat("-").concat(padded_text(self.hour, 2).as_str()).concat(
            padded_text(self.minute, 2).as_str(),
        ).concat(padded_text(self.second, 2).as_str())
    }
}

/// Seconds from the start of 1970 to the end of the year 9999.
pub open spec fn last_second() -> int {
    days_before_year(10000) * 86400
}

proof fn later_years_start_later(a: int, b: int)
    requires
        1970 <= a <= b,
    ensures
        days_before_year(a) <= days_before_year(b),
    decreases b - a,
{
    if a < b {
        later_years_start_later(a, b - 1);
    }
}

proof fn months_fill_the_year(year: int)
    ensures
        days_before_month(year, 13) == year_length(year),
{
    reveal_with_fuel(days_before_month, 14);
}

fn leap_year(year: u64) -> (r: bool)
    ensures
        r == is_leap_year(year as int),
{
    year % 4 == 0 && (year % 100 != 0 || year % 400 == 0)
}

fn length_of_month(year: u64, month: u64) -> (r: u64)
    ensures
        r == month_length(year as int, month as int),
{
    if month == 2 {
        if leap_year(year) {
            29
        } else {
            28
        }
    } else if month == 4 || month == 6 || month == 9 || month == 11 {
        30
    } else {
        31
    }
}

/// The moment that is so many seconds after the start of 1970, if its year has
/// four digits.
pub fn civil_time(seconds: u64) -> (r: Option<CivilTime>)
    ensures
        r is Some <==> seconds < last_second(),
        r matches Some(t) ==> t.is_valid() && t.seconds() == seconds,
{
    let days: u64 = seconds / 86400;
    let clock: u64 = seconds % 86400;
    let mut year: u64 = 1970;
    let mut rest: u64 = days;
    let mut length: u64 = 365;
    while rest >= length && year < 9999
        invariant
            1970 <= year <= 9999,
            length == year_length(year as int),
            days == days_before_year(year as int) + rest,
        decreases 9999 - year,
    {
        rest = rest - length;
        year = year + 1;
        length =
        if leap_year(year) {
            366
        } else {
            365
        };
    }
    proof {
        later_years_start_later(year + 1, 10000);
        months_fill_the_year(year as int);
    }
    if rest >= length {
        return None;
    }
    let mut month: u64 = 1;
    let mut length: u64 = 31;
    while rest >= length
        invariant
            1970 <= year <= 9999,
            1 <= month <= 12,
            length == month_length(year as int, month as int),
            days_before_month(year as int, month as int) + rest < days_before_month(
                year as int,
                13,
            ),
            days == days_before_year(year as int) + days_before_month(year as int, month as int)
                + rest,
        decreases 12 - month,
    {
        proof {
            if month == 12 {
                assert(days_before_month(year as int, 13) == days_before_month(year as int, 12)
                    + month_length(year as int, 12));
            }
        }
        rest = rest - length;
        month = month + 1;
        length = length_of_month(year, month);
    }
    Some(
        CivilTime {
            year,
            month,
            day: rest + 1,
            hour: clock / 3600,
            minute: clock % 3600 / 60,
            second: clock % 60,
        },
    )
}

/// A stamp has eight digits for the date and six for the time, and no two
/// moments share one: runs at different times never overwrite each other.
pub proof fn stamps_tell_moments_apart(a: CivilTime, b: CivilTime)
    requires
        a.is_valid(),
        b.is_valid(),
    ensures
        a.stamp_text().len() == 15,
        all_digits(a.stamp_text().take(8)),
        a.stamp_text()[8] == '-',
        all_digits(a.stamp_text().skip(9)),
        a.stamp_text() == b.stamp_text() ==> a.seconds() == b.seconds(),
{
    stamp_parts(a);
    stamp_parts(b);
}

/// A stamp is the year, the month and the day, a hyphen, and the hour, the
/// minute and the second, each with all its digits.
pub proof fn stamp_parts(t: CivilTime)
    requires
        t.is_valid(),
    ensures
        t.stamp_text().len() == 15,
        all_digits(t.stamp_text().take(8)),
        t.stamp_text()[8] == '-',
        all_digits(t.stamp_text().skip(9)),
        t.year == digits_value(t.stamp_text().subrange(0, 4)),
        t.month == digits_value(t.stamp_text().subrange(4, 6)),
        t.day == digits_value(t.stamp_text().subrange(6, 8)),
        t.hour == digits_value(t.stamp_text().subrange(9, 11)),
        t.minute == digits_value(t.stamp_text().subrange(11, 13)),
        t.second == digits_value(t.stamp_text().subrange(13, 15)),
{
    reveal_with_fuel(power_of_ten, 5);
    let s = t.stamp_text();
    padding_loses_nothing(t.year as nat, 4);
    padding_loses_nothing(t.month as nat, 2);
    padding_loses_nothing(t.day as nat, 2);
    padding_loses_nothing(t.hour as nat, 2);
    padding_loses_nothing(t.minute as nat, 2);
    padding_loses_nothing(t.second as nat, 2);
    assert(s.subrange(0, 4) =~= padded(t.year as nat, 4));
    assert(s.subrange(4, 6) =~= padded(t.month as nat, 2));
    assert(s.subrange(6, 8) =~= padded(t.day as nat, 2));
    assert(s.subrange(9, 11) =~= padded(t.hour as nat, 2));
    assert(s.subrange(11, 13) =~= padded(t.minute as nat, 2));
    assert(s.subrange(13, 15) =~= padded(t.second as nat, 2));
    assert(s.take(8) =~= padded(t.year as nat, 4) + padded(t.month as nat, 2) + padded(
        t.day as nat,
        2,
    ));
    assert(s.skip(9) =~= padded(t.hour as nat, 2) + padded(t.minute as nat, 2) + padded(
        t.second as nat,
        2,
    ));
}

/// How the name of a CSV file ends: `.csv`.
pub const CSV_ENDING: [u8; 4] = [0x2e, 0x63, 0x73, 0x76];

/// `-age`
pub const AGE_SUFFIX: [u8; 4] = [0x2d, 0x61, 0x67, 0x65];

/// `-size`
pub const SIZE_SUFFIX: [u8; 5] = [0x2d, 0x73, 0x69, 0x7a, 0x65];

/// `-hotspots`
pub const HOTSPOTS_SUFFIX: [u8; 9] = [0x2d, 0x68, 0x6f, 0x74, 0x73, 0x70, 0x6f, 0x74, 0x73];

/// `-largest`
pub const LARGEST_SUFFIX: [u8; 8] = [0x2d, 0x6c, 0x61, 0x72, 0x67, 0x65, 0x73, 0x74];

/// The reports a scan writes, each to a file of its own.
#[derive(Debug, Clone, Copy, PartialEq, Eq, Structural)]
pub enum Report {
    Extensions,
    Ages,
    Sizes,
    Hotspots,
    Largest,
}

impl Report {
    pub const ALL: [Report; 5] = [
        Report::Extensions,
        Report::Ages,
        Report::Sizes,
        Report::Hotspots,
        Report::Largest,
    ];

    /// What tells the report's file from the others of the run. The extension
    /// report carries nothing.
    pub open spec fn suffix_bytes(self) -> Seq<u8> {
        match self {
            Report::Extensions => Seq::empty(),
            Report::Ages => AGE_SUFFIX@,
            Report::Sizes => SIZE_SUFFIX@,
            Report::Hotspots => HOTSPOTS_SUFFIX@,
            Report::Largest => LARGEST_SUFFIX@,
        }
    }

    /// What tells the report's file from the others of the run.
    pub fn suffix(self) -> (r: Vec<u8>)
        ensures
            r@ == self.suffix_bytes(),
    {
        match self {
            Report::Extensions => Vec::new(),
            Report::Ages => slice_to_vec(AGE_SUFFIX.as_slice()),
            Report::Sizes => slice_to_vec(SIZE_SUFFIX.as_slice()),
            Report::Hotspots => slice_to_vec(HOTSPOTS_SUFFIX.as_slice()),
            Report::Largest => slice_to_vec(LARGEST_SUFFIX.as_slice()),
        }
    }
}

/// Whether a path names a file whose name ends in `.csv` behind at least one
/// other character.
pub open spec fn names_csv(path: Seq<u8>) -> bool {
    &&& path.len() > 4
    &&& path.skip(path.len() - 4) == CSV_ENDING@
    &&& path[path.len() - 5] != SLASH
}

/// What the files of a run are named from: the path asked for, without the
/// `.csv` if it was spelled out.
pub open spec fn stem_of(path: Seq<u8>) -> Seq<u8> {
    if names_csv(path) {
        path.take(path.len() - 4)
    } else {
        path
    }
}

/// The file a report is written to.
pub open spec fn report_path_of(stem: Seq<u8>, report: Report) -> Seq<u8> {
    stem + report.suffix_bytes() + CSV_ENDING@
}

/// What the files of a run are named from: the path asked for, without the
/// `.csv` if it was spelled out.
pub fn output_stem(path: &[u8]) -> (r: &[u8])
    ensures
        r@ == stem_of(path@),
{
    let len: usize = path.len();
    if len > 4 && path[len - 5] != SLASH && path[len - 4] == CSV_ENDING[0] && path[len - 3]
        == CSV_ENDING[1] && path[len - 2] == CSV_ENDING[2] && path[len - 1] == CSV_ENDING[3] {
        assert(path@.skip(len - 4) =~= CSV_ENDING@);
        slice_subrange(path, 0, len - 4)
    } else {
        proof {
            if len > 4 && path@.skip(len - 4) == CSV_ENDING@ {
                let tail = path@.skip(len - 4);
                assert(tail[0] == path@[len - 4]);
                assert(tail[1] == path@[len - 3]);
                assert(tail[2] == path@[len - 2]);
                assert(tail[3] == path@[len - 1]);
            }
        }
        path
    }
}

/// The file a report is written to.
pub fn report_path(stem: &[u8], report: Report) -> (r: Vec<u8>)
    ensures
        r@ == report_path_of(stem@, report),
{
    let mut r: Vec<u8> = slice_to_vec(stem);
    let mut suffix: Vec<u8> = report.suffix();
    let mut ending: Vec<u8> = slice_to_vec(CSV_ENDING.as_slice());
    r.append(&mut suffix);
    r.append(&mut ending);
    r
}

/// Spelling out the `.csv` changes nothing: the extension report is written to
/// the very file asked for, and the others do not carry the ending twice.
pub proof fn a_csv_ending_is_not_doubled(path: Seq<u8>, report: Report)
    requires
        path.len() > 0,
        path.last() != SLASH,
    ensures
        stem_of(path + CSV_ENDING@) == path,
        report_path_of(stem_of(path + CSV_ENDING@), Report::Extensions) == path + CSV_ENDING@,
        report_path_of(stem_of(path + CSV_ENDING@), report) == path + report.suffix_bytes()
            + CSV_ENDING@,
{
    let spelled = path + CSV_ENDING@;
    assert(spelled.skip(spelled.len() - 4) =~= CSV_ENDING@);
    assert(spelled.take(spelled.len() - 4) =~= path);
    assert(path + Seq::<u8>::empty() =~= path);
}

/// No two reports of a run share a file.
pub proof fn reports_have_files_of_their_own(stem: Seq<u8>, a: Report, b: Report)
    ensures
        report_path_of(stem, a) == report_path_of(stem, b) ==> a == b,
{
    assert(report_path_of(stem, a).len() == stem.len() + a.suffix_bytes().len() + 4);
    assert(report_path_of(stem, b).len() == stem.len() + b.suffix_bytes().len() + 4);
}

/// What the files of a run are named from when no path was asked for: what
/// they hold, and when the run was.
pub fn default_stem(kind: &str, time: &CivilTime) -> (r: String)
    ensures
        r@ == kind@ + "-"@ + time.stamp_text(),
{
    kind.to_owned().concat("-").concat(time.stamp().as_str())
}

/// How many bytes a unit stands for.
pub open spec fn unit_of(c: char) -> Option<u64> {
    if c == 'K' || c == 'k' {
        Some(0x400)
    } else if c == 'M' || c == 'm' {
        Some(0x10_0000)
    } else if c == 'G' || c == 'g' {
        Some(0x4000_0000)
    } else if c == 'T' || c == 't' {
        Some(0x100_0000_0000)
    } else {
        None
    }
}

fn unit(c: char) -> (r: Option<u64>)
    ensures
        r == unit_of(c),
{
    if c == 'K' || c == 'k' {
        Some(0x400)
    } else if c == 'M' || c == 'm' {
        Some(0x10_0000)
    } else if c == 'G' || c == 'g' {
        Some(0x4000_0000)
    } else if c == 'T' || c == 't' {
        Some(0x100_0000_0000)
    } else {
        None
    }
}

/// The number of bytes that `text` spells: a whole number, with a unit behind
/// it or none.
pub open spec fn size_of_text(text: Seq<char>) -> Option<u64> {
    if text.len() > 0 && unit_of(text.last()) is Some {
        match whole_number(text.drop_last()) {
            Some(n) => if n * unit_of(text.last())->0 <= u64::MAX {
                Some((n * unit_of(text.last())->0) as u64)
            } else {
                None
            },
            None => None,
        }
    } else {
        whole_number(text)
    }
}

/// Read a size such as `4096`, `128K` or `2M`.
pub fn parse_size(text: &str) -> (r: Option<u64>)
    ensures
        r == size_of_text(text@),
{
    let len: usize = text.unicode_len();
    if len == 0 {
        return parse_whole(text);
    }
    match unit(text.get_char(len - 1)) {
        Some(scale) => {
            let digits: &str = text.substring_char(0, len - 1);
            assert(digits@ =~= text@.drop_last());
            match parse_whole(digits) {
                Some(n) => n.checked_mul(scale),
                None => None,
            }
        },
        None => parse_whole(text),
    }
}

} // verus!
