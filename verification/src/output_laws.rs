//! What the files of a run are called, when a run was, and how sizes are read.

use crate::output::{
    days_before_month, days_before_year, is_leap_year, last_second, month_length, report_path_of,
    size_of_text, stem_of, year_length, CivilTime, Report, CSV_ENDING,
};
use crate::text::{
    decimal, numbers_are_written_in_decimal, only_digits_read_as_a_number, whole_number,
};
use vstd::prelude::*;

verus! {

/// Days from the start of 1970 to the start of `year`, by the calendar: one
/// more for every fourth year, but for the centuries that four hundred does not
/// divide.
pub open spec fn calendar_days(year: int) -> int {
    365 * (year - 1970) + ((year - 1) / 4 - 492) - ((year - 1) / 100 - 19) + ((year - 1) / 400 - 4)
}

/// Whether the second month of `year` has a twenty-ninth day.
pub open spec fn has_leap_day(year: int) -> bool {
    calendar_days(year + 1) - calendar_days(year) == 366
}

/// The years run as long as those of the calendar.
pub proof fn years_follow_the_calendar(year: int)
    requires
        year >= 1970,
    ensures
        days_before_year(year) == calendar_days(year),
        year_length(year) == calendar_days(year + 1) - calendar_days(year),
        year_length(year) == 365 || year_length(year) == 366,
    decreases year,
{
    if year > 1970 {
        years_follow_the_calendar(year - 1);
    }
    assert(is_leap_year(year) <==> has_leap_day(year));
}

/// The months start as many days into the year as those of the calendar.
pub proof fn months_follow_the_calendar(year: int)
    requires
        year >= 1970,
    ensures
        ({
            let leap: int = if has_leap_day(year) {
                1
            } else {
                0
            };
            &&& days_before_month(year, 1) == 0
            &&& days_before_month(year, 2) == 31
            &&& days_before_month(year, 3) == 59 + leap
            &&& days_before_month(year, 4) == 90 + leap
            &&& days_before_month(year, 5) == 120 + leap
            &&& days_before_month(year, 6) == 151 + leap
            &&& days_before_month(year, 7) == 181 + leap
            &&& days_before_month(year, 8) == 212 + leap
            &&& days_before_month(year, 9) == 243 + leap
            &&& days_before_month(year, 10) == 273 + leap
            &&& days_before_month(year, 11) == 304 + leap
            &&& days_before_month(year, 12) == 334 + leap
            &&& days_before_month(year, 13) == 365 + leap
        }),
{
    years_follow_the_calendar(year);
    reveal_with_fuel(days_before_month, 14);
}

/// The last moment that has a stamp is the last of the year 9999.
pub proof fn stamps_reach_to_the_year_9999()
    ensures
        last_second() == 253_402_300_800,
{
    years_follow_the_calendar(10000);
}

proof fn later_months_start_later(year: int, a: int, b: int)
    requires
        1 <= a < b <= 13,
    ensures
        days_before_month(year, a) + month_length(year, a) <= days_before_month(year, b),
    decreases b - a,
{
    if a + 1 < b {
        later_months_start_later(year, a, b - 1);
    }
}

proof fn later_years_start_after(a: int, b: int)
    requires
        1970 <= a < b,
    ensures
        days_before_year(a) + year_length(a) <= days_before_year(b),
    decreases b - a,
{
    if a + 1 < b {
        later_years_start_after(a, b - 1);
    }
}

/// The day of the year of a moment, counted from zero.
spec fn day_of_year(t: CivilTime) -> int {
    days_before_month(t.year as int, t.month as int) + t.day - 1
}

proof fn moments_lie_in_their_year(t: CivilTime)
    requires
        t.is_valid(),
    ensures
        0 <= day_of_year(t) < year_length(t.year as int),
{
    let year = t.year as int;
    months_follow_the_calendar(year);
    years_follow_the_calendar(year);
    later_months_start_later(year, t.month as int, 13);
    assert(days_before_month(year, t.month as int) >= 0);
}

/// The day of a moment, counted from the start of 1970.
spec fn day_number(t: CivilTime) -> int {
    days_before_year(t.year as int) + day_of_year(t)
}

proof fn same_day_and_clock(a: CivilTime, b: CivilTime)
    requires
        a.is_valid(),
        b.is_valid(),
        a.seconds() == b.seconds(),
    ensures
        day_number(a) == day_number(b),
        a.hour == b.hour,
        a.minute == b.minute,
        a.second == b.second,
{
    let x = day_number(a);
    let y = day_number(b);
    let c = a.hour * 3600 + a.minute * 60 + a.second;
    let d = b.hour * 3600 + b.minute * 60 + b.second;
    assert(0 <= c < 86400 && 0 <= d < 86400);
    assert(a.seconds() == x * 86400 + c);
    assert(b.seconds() == y * 86400 + d);
    assert(x == y && c == d);
}

proof fn same_date(a: CivilTime, b: CivilTime)
    requires
        a.is_valid(),
        b.is_valid(),
        day_number(a) == day_number(b),
    ensures
        a.year == b.year,
        a.month == b.month,
        a.day == b.day,
{
    moments_lie_in_their_year(a);
    moments_lie_in_their_year(b);
    if a.year < b.year {
        later_years_start_after(a.year as int, b.year as int);
    }
    if b.year < a.year {
        later_years_start_after(b.year as int, a.year as int);
    }
    let year = a.year as int;
    if a.month < b.month {
        later_months_start_later(year, a.month as int, b.month as int);
    }
    if b.month < a.month {
        later_months_start_later(year, b.month as int, a.month as int);
    }
}

/// A moment has twenty-four hours of sixty minutes of sixty seconds to the day,
/// and its seconds are counted from the start of 1970. No two moments have the
/// same count.
pub proof fn moments_are_told_apart_by_their_seconds(a: CivilTime, b: CivilTime)
    requires
        a.is_valid(),
        b.is_valid(),
    ensures
        a.seconds() == (calendar_days(a.year as int) + days_before_month(
            a.year as int,
            a.month as int,
        ) + (a.day - 1)) * 86400 + a.hour * 3600 + a.minute * 60 + a.second,
        a.hour < 24 && a.minute < 60 && a.second < 60,
        1 <= a.month <= 12 && 1 <= a.day <= 31 && 1970 <= a.year <= 9999,
        a.seconds() == b.seconds() ==> a == b,
{
    years_follow_the_calendar(a.year as int);
    if a.seconds() == b.seconds() {
        same_day_and_clock(a, b);
        same_date(a, b);
    }
}

/// The bytes of a text that is plain ASCII.
pub open spec fn ascii(text: Seq<char>) -> Seq<u8> {
    Seq::new(text.len(), |i: int| text[i] as u8)
}

/// The extension report goes to the stem with `.csv` behind it, and each other
/// report says in front of that what it is about.
pub proof fn reports_are_named_after_what_they_hold(stem: Seq<u8>)
    ensures
        report_path_of(stem, Report::Extensions) == stem + ascii(".csv"@),
        report_path_of(stem, Report::Ages) == stem + ascii("-age.csv"@),
        report_path_of(stem, Report::Sizes) == stem + ascii("-size.csv"@),
        report_path_of(stem, Report::Hotspots) == stem + ascii("-hotspots.csv"@),
        report_path_of(stem, Report::Largest) == stem + ascii("-largest.csv"@),
{
    reveal_strlit(".csv");
    reveal_strlit("-age.csv");
    reveal_strlit("-size.csv");
    reveal_strlit("-hotspots.csv");
    reveal_strlit("-largest.csv");
    assert(report_path_of(stem, Report::Extensions) =~= stem + ascii(".csv"@));
    assert(report_path_of(stem, Report::Ages) =~= stem + ascii("-age.csv"@));
    assert(report_path_of(stem, Report::Sizes) =~= stem + ascii("-size.csv"@));
    assert(report_path_of(stem, Report::Hotspots) =~= stem + ascii("-hotspots.csv"@));
    assert(report_path_of(stem, Report::Largest) =~= stem + ascii("-largest.csv"@));
}

/// A run writes every report there is, and each of them once.
pub proof fn every_report_is_written(report: Report, i: int, j: int)
    ensures
        Report::ALL@.contains(report),
        0 <= i < j < Report::ALL@.len() ==> Report::ALL@[i] != Report::ALL@[j],
{
    let all = Report::ALL@;
    assert(all[0] == Report::Extensions);
    assert(all[1] == Report::Ages);
    assert(all[2] == Report::Sizes);
    assert(all[3] == Report::Hotspots);
    assert(all[4] == Report::Largest);
}

/// A path keeps its name unless that ends in `.csv` behind something else: only
/// then is the ending taken off.
pub proof fn only_a_csv_ending_is_taken_off(path: Seq<u8>)
    ensures
        path.len() > 0 && path.last() != 0x2f ==> stem_of(path + ascii(".csv"@)) == path,
        path.len() == 0 || path.last() == 0x2f ==> stem_of(path + ascii(".csv"@)) == path + ascii(
            ".csv"@,
        ),
        path.len() < 4 || path.skip(path.len() - 4) != ascii(".csv"@) ==> stem_of(path) == path,
{
    reveal_strlit(".csv");
    let ending = ascii(".csv"@);
    assert(ending =~= CSV_ENDING@);
    let whole = path + ending;
    assert(whole.skip(whole.len() - 4) =~= ending);
    assert(whole.take(whole.len() - 4) =~= path);
    if path.len() > 0 {
        assert(whole[whole.len() - 5] == path.last());
    }
}

/// How much a number of units comes to, if a counter can hold it.
pub open spec fn scaled(n: nat, unit: nat) -> Option<u64> {
    if n * unit <= u64::MAX {
        Some((n * unit) as u64)
    } else {
        None
    }
}

/// A size is a whole number of bytes, or of kilobytes, megabytes, gigabytes or
/// terabytes if a letter behind it says so, each 1024 times the one before.
pub proof fn units_are_powers_of_1024(n: nat)
    ensures
        n <= u64::MAX ==> size_of_text(decimal(n)) == Some(n as u64),
        n > u64::MAX ==> size_of_text(decimal(n)) is None,
        n <= u64::MAX ==> {
            &&& size_of_text(decimal(n).push('K')) == scaled(n, 1024)
            &&& size_of_text(decimal(n).push('k')) == scaled(n, 1024)
            &&& size_of_text(decimal(n).push('M')) == scaled(n, 1024 * 1024)
            &&& size_of_text(decimal(n).push('m')) == scaled(n, 1024 * 1024)
            &&& size_of_text(decimal(n).push('G')) == scaled(n, 1024 * 1024 * 1024)
            &&& size_of_text(decimal(n).push('g')) == scaled(n, 1024 * 1024 * 1024)
            &&& size_of_text(decimal(n).push('T')) == scaled(n, 1024 * 1024 * 1024 * 1024)
            &&& size_of_text(decimal(n).push('t')) == scaled(n, 1024 * 1024 * 1024 * 1024)
        },
{
    let s = decimal(n);
    numbers_are_written_in_decimal(n);
    only_digits_read_as_a_number(n, s, 0);
    assert('0' <= s[s.len() - 1] <= '9');
    assert(s.push('K').drop_last() =~= s);
    assert(s.push('k').drop_last() =~= s);
    assert(s.push('M').drop_last() =~= s);
    assert(s.push('m').drop_last() =~= s);
    assert(s.push('G').drop_last() =~= s);
    assert(s.push('g').drop_last() =~= s);
    assert(s.push('T').drop_last() =~= s);
    assert(s.push('t').drop_last() =~= s);
}

/// Anything that is not a whole number, but for one letter of a unit behind it,
/// is no size.
pub proof fn only_numbers_and_units_are_sizes(s: Seq<char>, c: char)
    ensures
        size_of_text(Seq::empty()) is None,
        whole_number(s) is None && !('0' <= c <= '9') ==> size_of_text(s.push(c)) is None,
        !('0' <= c <= '9') && c != 'K' && c != 'k' && c != 'M' && c != 'm' && c != 'G' && c != 'g'
            && c != 'T' && c != 't' ==> size_of_text(s.push(c)) is None,
{
    let t = s.push(c);
    assert(t.drop_last() =~= s);
    only_digits_read_as_a_number(0, t, s.len() as int);
    only_digits_read_as_a_number(0, seq![c], 0);
    if c == '+' && s.len() == 0 {
        assert(t =~= seq!['+']);
    }
}

} // verus!
