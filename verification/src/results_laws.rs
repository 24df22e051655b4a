//! What is read out of a results file, row by row.

use crate::results::{column_of, file_total, rows_total, Columns, Fault, ReadError, Refusal};
use crate::scan::texts;
use crate::sorted_map::value_or;
use crate::tally::Tally;
use crate::text::{decimal, joined_texts, trimmed, whole_number};
use vstd::prelude::*;

verus! {

/// A column is found by its name, with white space around it or not. Where two
/// have the name the first one counts.
pub proof fn the_first_column_of_a_name_counts(headers: Seq<Seq<char>>, name: Seq<char>)
    ensures
        match column_of(headers, name) {
            Some(at) => {
                &&& 0 <= at < headers.len()
                &&& trimmed(headers[at]) == name
                &&& forall|i: int| 0 <= i < at ==> trimmed(#[trigger] headers[i]) != name
            },
            None => forall|i: int|
                0 <= i < headers.len() ==> trimmed(#[trigger] headers[i]) != name,
        },
    decreases headers.len(),
{
    if headers.len() > 0 {
        let front = headers.drop_last();
        the_first_column_of_a_name_counts(front, name);
        assert forall|i: int| 0 <= i < front.len() implies #[trigger] front[i] == headers[i] by {}
        match column_of(front, name) {
            Some(at) => {
                assert forall|i: int| 0 <= i < at implies trimmed(#[trigger] headers[i]) != name by {
                    assert(front[i] == headers[i]);
                }
            },
            None => {
                assert forall|i: int| 0 <= i < front.len() implies trimmed(#[trigger] headers[i])
                    != name by {
                    assert(front[i] == headers[i]);
                }
            },
        }
    }
}

/// The text in a column of a row, without the white space around it.
pub open spec fn cell(fields: Seq<Seq<char>>, column: int) -> Seq<char> {
    if 0 <= column < fields.len() {
        trimmed(fields[column])
    } else {
        trimmed(Seq::empty())
    }
}

/// Whether a row can be read: it is text, it has an extension, and there are
/// whole numbers where the numbers belong.
pub open spec fn is_readable(record: Option<Seq<Seq<char>>>, columns: Columns) -> bool {
    match record {
        Some(fields) => {
            &&& 0 <= columns.extension < fields.len()
            &&& whole_number(cell(fields, columns.count)) is Some
            &&& whole_number(cell(fields, columns.bytes)) is Some
        },
        None => false,
    }
}

/// What the rows for one extension add up to.
pub open spec fn sum_of_rows(
    records: Seq<Option<Seq<Seq<char>>>>,
    columns: Columns,
    extension: Seq<char>,
) -> Tally
    decreases records.len(),
{
    if records.len() == 0 {
        Tally { count: 0, bytes: 0 }
    } else {
        let rest = sum_of_rows(records.drop_last(), columns, extension);
        match records.last() {
            Some(fields) => if fields[columns.extension] == extension {
                Tally {
                    count: rest.count + whole_number(cell(fields, columns.count))->Some_0,
                    bytes: rest.bytes + whole_number(cell(fields, columns.bytes))->Some_0,
                }
            } else {
                rest
            },
            None => rest,
        }
    }
}

/// If a file is accepted, every row of it could be read, and each extension
/// holds the sum of its rows, be they one or several.
pub proof fn rows_of_an_extension_are_added_up(
    records: Seq<Option<Seq<Seq<char>>>>,
    columns: Columns,
    extension: Seq<char>,
)
    ensures
        match rows_total(records, columns) {
            Ok(m) => {
                &&& forall|i: int|
                    0 <= i < records.len() ==> is_readable(#[trigger] records[i], columns)
                &&& value_or(m, extension, Tally { count: 0, bytes: 0 }) == sum_of_rows(
                    records,
                    columns,
                    extension,
                )
                &&& m.dom().contains(extension) <==> exists|i: int|
                    0 <= i < records.len() && match #[trigger] records[i] {
                        Some(fields) => fields[columns.extension] == extension,
                        None => false,
                    }
                &&& m.dom().contains(extension) ==> 0 <= m[extension].count <= u64::MAX && 0
                    <= m[extension].bytes <= u64::MAX
            },
            Err(_) => true,
        },
    decreases records.len(),
{
    match rows_total(records, columns) {
        Ok(m) => {
            if records.len() > 0 {
                let front = records.drop_last();
                let n = records.len() - 1;
                rows_of_an_extension_are_added_up(front, columns, extension);
                assert forall|i: int| 0 <= i < front.len() implies #[trigger] front[i]
                    == records[i] by {}
                assert(records[n] == records.last());
                assert(is_readable(records[n], columns));
                assert forall|i: int| 0 <= i < records.len() implies is_readable(
                    #[trigger] records[i],
                    columns,
                ) by {
                    if i < n {
                        assert(is_readable(front[i], columns));
                    }
                }
                let before = rows_total(front, columns)->Ok_0;
                if before.dom().contains(extension) {
                    let i = choose|i: int|
                        0 <= i < front.len() && match #[trigger] front[i] {
                            Some(fields) => fields[columns.extension] == extension,
                            None => false,
                        };
                    assert(records[i] == front[i]);
                }
                if exists|i: int|
                    0 <= i < records.len() && match #[trigger] records[i] {
                        Some(fields) => fields[columns.extension] == extension,
                        None => false,
                    } {
                    let i = choose|i: int|
                        0 <= i < records.len() && match #[trigger] records[i] {
                            Some(fields) => fields[columns.extension] == extension,
                            None => false,
                        };
                    if i < n {
                        assert(front[i] == records[i]);
                    }
                }
            }
        },
        Err(_) => {},
    }
}

/// If a file is refused for a row, that row is the first that is wrong, and it
/// is named by its line, the header being line 1. What is wrong with it is said
/// by the column that it is wrong in.
pub proof fn the_first_wrong_row_is_named(
    records: Seq<Option<Seq<Seq<char>>>>,
    columns: Columns,
) -> (at: int)
    requires
        rows_total(records, columns) is Err,
        records.len() < usize::MAX - 2,
    ensures
        0 <= at < records.len(),
        rows_total(records.take(at), columns) is Ok,
        match rows_total(records, columns) {
            Err(Refusal::Row { line, fault }) => {
                &&& line == at + 2
                &&& match records[at] {
                    None => fault == Fault::Malformed,
                    Some(fields) => if !(0 <= columns.extension < fields.len()) {
                        fault == Fault::NoExtension
                    } else if whole_number(cell(fields, columns.count)) is None {
                        fault == (Fault::NotANumber {
                            column: "Qty"@,
                            value: cell(fields, columns.count),
                        })
                    } else if whole_number(cell(fields, columns.bytes)) is None {
                        fault == (Fault::NotANumber {
                            column: "Cap Bytes"@,
                            value: cell(fields, columns.bytes),
                        })
                    } else {
                        let sum = sum_of_rows(
                            records.take(at + 1),
                            columns,
                            fields[columns.extension],
                        );
                        fault == Fault::TooLarge && (sum.count > u64::MAX || sum.bytes > u64::MAX)
                    },
                }
            },
            _ => false,
        },
    decreases records.len(),
{
    let front = records.drop_last();
    let n = records.len() - 1;
    match rows_total(front, columns) {
        Err(_) => {
            let at = the_first_wrong_row_is_named(front, columns);
            assert(front.take(at) =~= records.take(at));
            assert(front.take(at + 1) =~= records.take(at + 1));
            assert(front[at] == records[at]);
            at
        },
        Ok(m) => {
            assert(records.take(n) =~= front);
            assert(records.take(n + 1) =~= records);
            assert(records[n] == records.last());
            match records.last() {
                Some(fields) => {
                    rows_of_an_extension_are_added_up(front, columns, fields[columns.extension]);
                },
                None => {},
            }
            n
        },
    }
}

/// A file is read if its first row is text and has the three columns that are
/// needed, wherever they stand and whatever else there is. The first of them
/// that is missing is named.
pub proof fn a_results_file_needs_three_columns(
    found: Seq<Seq<char>>,
    records: Seq<Option<Seq<Seq<char>>>>,
)
    ensures
        file_total(None, records) == Err::<Map<Seq<char>, Tally>, Refusal>(Refusal::NoHeader),
        ({
            let extension = column_of(found, "Extension"@);
            let count = column_of(found, "Qty"@);
            let bytes = column_of(found, "Cap Bytes"@);
            &&& extension is None ==> file_total(Some(found), records) == Err::<
                Map<Seq<char>, Tally>,
                Refusal,
            >(Refusal::NoColumn { name: "Extension"@, found })
            &&& extension is Some && count is None ==> file_total(Some(found), records) == Err::<
                Map<Seq<char>, Tally>,
                Refusal,
            >(Refusal::NoColumn { name: "Qty"@, found })
            &&& extension is Some && count is Some && bytes is None ==> file_total(
                Some(found),
                records,
            ) == Err::<Map<Seq<char>, Tally>, Refusal>(
                Refusal::NoColumn { name: "Cap Bytes"@, found },
            )
            &&& extension is Some && count is Some && bytes is Some ==> file_total(
                Some(found),
                records,
            ) == rows_total(
                records,
                Columns {
                    extension: extension->Some_0,
                    count: count->Some_0,
                    bytes: bytes->Some_0,
                },
            )
        }),
{
}

/// Each refusal names the file, and the line and column where there is one.
pub proof fn refusals_say_where_and_why(
    path: Seq<char>,
    in_quotes: Seq<char>,
    name: Seq<char>,
    found: Seq<Seq<char>>,
    line: int,
    value: Seq<char>,
)
    ensures
        Refusal::Unreadable.text(path, in_quotes) == "cannot read scan file: "@ + path,
        Refusal::NoHeader.text(path, in_quotes) == path + " has no header row"@,
        (Refusal::NoColumn { name, found }).text(path, in_quotes) == path
            + " is not a fast-walk results file: no "@ + in_quotes + " column (found: "@
            + joined_texts(found, ", "@) + ")"@,
        (Refusal::NoColumn { name, found }).subject() == name,
        ({
            let start = path + " line "@ + decimal(line as nat);
            let bad = Fault::NotANumber { column: name, value };
            &&& (Refusal::Row { line, fault: Fault::Malformed }).text(path, in_quotes) == start
                + ": malformed row"@
            &&& (Refusal::Row { line, fault: Fault::NoExtension }).text(path, in_quotes) == start
                + ": missing the Extension column"@
            &&& (Refusal::Row { line, fault: bad }).text(path, in_quotes) == start + (": "@ + name
                + " is "@ + in_quotes + ", which is not a whole number"@)
            &&& (Refusal::Row { line, fault: bad }).subject() == value
            &&& (Refusal::Row { line, fault: Fault::TooLarge }).text(path, in_quotes) == start
                + ": the totals are too large to hold"@
        }),
{
}

/// Each error stands for the refusal of its name.
pub proof fn errors_stand_for_refusals(error: ReadError)
    ensures
        match error {
            ReadError::Unreadable => error@ == Refusal::Unreadable,
            ReadError::NoHeader { cause } => error@ == Refusal::NoHeader,
            ReadError::NoColumn { name, found } => error@ == (Refusal::NoColumn {
                name: name@,
                found: texts(found@),
            }),
            ReadError::Malformed { line, cause } => error@ == (Refusal::Row {
                line: line as int,
                fault: Fault::Malformed,
            }),
            ReadError::NoExtension { line } => error@ == (Refusal::Row {
                line: line as int,
                fault: Fault::NoExtension,
            }),
            ReadError::NotANumber { line, column, value } => error@ == (Refusal::Row {
                line: line as int,
                fault: Fault::NotANumber { column: column@, value: value@ },
            }),
            ReadError::TooLarge { line } => error@ == (Refusal::Row {
                line: line as int,
                fault: Fault::TooLarge,
            }),
        },
{
}

} // verus!
