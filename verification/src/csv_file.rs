//! Rows of fields as CSV, in memory.

use crate::scan::texts;
use crate::text::joined_texts;
use vstd::prelude::*;
use vstd::utf8::encode_utf8;

verus! {

/// Why the CSV reader refused a row.
#[verifier::external_type_specification]
#[verifier::external_body]
pub struct ExCsvError(csv::Error);

/// The first row of a CSV file, or nothing if it cannot be read as text.
pub uninterp spec fn csv_headers_of(data: Seq<u8>) -> Option<Seq<Seq<char>>>;

/// Every row of a CSV file behind the first, with nothing in place of one that
/// cannot be read.
pub uninterp spec fn csv_records_of(data: Seq<u8>) -> Seq<Option<Seq<Seq<char>>>>;

/// Whether a character of a field would be taken for the end of the field.
pub open spec fn is_special(c: char) -> bool {
    c == ',' || c == '"' || c == '\r' || c == '\n'
}

/// `field` with every quote doubled.
pub open spec fn with_doubled_quotes(field: Seq<char>) -> Seq<char>
    decreases field.len(),
{
    if field.len() == 0 {
        field
    } else if field.last() == '"' {
        with_doubled_quotes(field.drop_last()) + seq!['"', '"']
    } else {
        with_doubled_quotes(field.drop_last()).push(field.last())
    }
}

/// A field as it stands in a line: in quotes where it has to be.
pub open spec fn csv_field(field: Seq<char>) -> Seq<char> {
    if exists|i: int| 0 <= i < field.len() && is_special(#[trigger] field[i]) {
        seq!['"'] + with_doubled_quotes(field) + seq!['"']
    } else {
        field
    }
}

/// One row of fields as a line of CSV. A row that would leave the line blank
/// is a pair of quotes.
pub open spec fn csv_line_of(fields: Seq<Seq<char>>) -> Seq<u8> {
    let line = joined_texts(Seq::new(fields.len(), |i: int| csv_field(fields[i])), seq![',']);
    encode_utf8(
        (if line.len() == 0 {
            seq!['"', '"']
        } else {
            line
        }).push('\n'),
    )
}

/// The text of each field of each row.
pub open spec fn fields_of(rows: Seq<Vec<String>>) -> Seq<Seq<Seq<char>>> {
    Seq::new(rows.len(), |i: int| texts(rows[i]@))
}

/// Rows of fields as a CSV file: one line after another.
pub open spec fn csv_text_of(rows: Seq<Seq<Seq<char>>>) -> Seq<u8>
    decreases rows.len(),
{
    if rows.len() == 0 {
        Seq::empty()
    } else {
        csv_text_of(rows.drop_last()) + csv_line_of(rows.last())
    }
}

/// Rows that make up a table: a first row to name the columns, every row as
/// long as it, and no byte order mark to be mistaken for the start of a file.
pub open spec fn is_table(rows: Seq<Seq<Seq<char>>>) -> bool {
    &&& rows.len() > 0
    &&& rows[0].len() > 0
    &&& !(rows[0][0].len() > 0 && rows[0][0][0] == '\u{feff}')
    &&& forall|i: int| 0 <= i < rows.len() ==> (#[trigger] rows[i]).len() == rows[0].len()
}

/// What reading the first row came to.
pub open spec fn header_outcome(r: Result<Vec<String>, csv::Error>) -> Option<Seq<Seq<char>>> {
    match r {
        Ok(fields) => Some(texts(fields@)),
        Err(_) => None,
    }
}

/// What reading each row came to.
pub open spec fn outcomes(r: Seq<Result<Vec<String>, csv::Error>>) -> Seq<
    Option<Seq<Seq<char>>>,
> {
    Seq::new(r.len(), |i: int| header_outcome(r[i]))
}

/// The rows of a table behind its first, each of them readable.
pub open spec fn body_of(rows: Seq<Seq<Seq<char>>>) -> Seq<Option<Seq<Seq<char>>>> {
    Seq::new((rows.len() - 1) as nat, |i: int| Some(rows[i + 1]))
}

/// The first row of `data`, by `csv::Reader::headers` on a reader with the
/// default settings.
///
/// What comes back depends on `data` alone. If `data` was put together line by
/// line from the rows of a table, as [`csv_line`] renders them, it is the first
/// of those rows.
#[verifier::external_body]
pub(crate) fn read_headers(data: &[u8]) -> (r: Result<Vec<String>, csv::Error>)
    ensures
        header_outcome(r) == csv_headers_of(data@),
        forall|rows: Seq<Seq<Seq<char>>>|
            is_table(rows) && data@ == #[trigger] csv_text_of(rows) ==> header_outcome(r) == Some(
                rows[0],
            ),
{
    csv::Reader::from_reader(data).headers().map(
        |fields| fields.iter().map(|field| field.to_owned()).collect(),
    )
}

/// Every row of `data` behind the first, by `csv::Reader::into_records` on a
/// reader with the default settings. A row that is not text, or has another
/// number of fields than the first, is an error in its place.
///
/// What comes back depends on `data` alone. If `data` was put together line by
/// line from the rows of a table, as [`csv_line`] renders them, it is those
/// rows but for the first.
#[verifier::external_body]
pub(crate) fn read_records(data: &[u8]) -> (r: Vec<Result<Vec<String>, csv::Error>>)
    ensures
        outcomes(r@) == csv_records_of(data@),
        forall|rows: Seq<Seq<Seq<char>>>|
            is_table(rows) && data@ == #[trigger] csv_text_of(rows) ==> outcomes(r@) == body_of(
                rows,
            ),
{
    csv::Reader::from_reader(data).into_records().map(
        |record| record.map(|fields| fields.iter().map(|field| field.to_owned()).collect()),
    ).collect()
}

/// One row of fields as a line of CSV, by `csv::Writer::write_record` on a
/// writer with the default settings that was just made. It writes to memory,
/// and a first row has no length to disagree with, so it cannot fail.
///
/// Commas go between the fields and a line feed behind the last. A field that
/// holds a comma, a quote, a carriage return or a line feed is quoted, with the
/// quotes in it doubled.
#[verifier::external_body]
pub(crate) fn csv_line(fields: &Vec<String>) -> (r: Vec<u8>)
    ensures
        r@ == csv_line_of(texts(fields@)),
{
    let mut writer = csv::Writer::from_writer(Vec::new());
    writer.write_record(fields).expect("a first row has any length");
    writer.into_inner().expect("memory can always be written")
}

/// Rows of fields as a CSV file.
pub fn csv_text(rows: &Vec<Vec<String>>) -> (r: Vec<u8>)
    ensures
        r@ == csv_text_of(fields_of(rows@)),
{
    let ghost all = fields_of(rows@);
    let mut r: Vec<u8> = Vec::new();
    let mut i: usize = 0;
    assert(all.take(0) =~= Seq::empty());
    while i < rows.len()
        invariant
            i <= rows@.len(),
            all == fields_of(rows@),
            r@ == csv_text_of(all.take(i as int)),
        decreases rows.len() - i,
    {
        let mut line: Vec<u8> = csv_line(&rows[i]);
        r.append(&mut line);
        assert(all.take(i + 1).drop_last() =~= all.take(i as int));
        i = i + 1;
    }
    assert(all.take(i as int) =~= all);
    r
}

/// A field without commas, quotes and line ends stands for itself. Any other is
/// in quotes, and as it is in between if it holds no quotes.
pub proof fn fields_are_quoted_where_they_have_to_be(field: Seq<char>, at: int)
    ensures
        (forall|i: int|
            0 <= i < field.len() ==> field[i] != ',' && #[trigger] field[i] != '"' && field[i]
                != '\r' && field[i] != '\n') ==> csv_field(field) == field,
        0 <= at < field.len() && (field[at] == ',' || field[at] == '\r' || field[at] == '\n') && (
        forall|i: int| 0 <= i < field.len() ==> #[trigger] field[i] != '"') ==> csv_field(field)
            == seq!['"'] + field + seq!['"'],
        with_doubled_quotes(field.push('"')) == with_doubled_quotes(field).push('"').push('"'),
{
    if forall|i: int| 0 <= i < field.len() ==> #[trigger] field[i] != '"' {
        nothing_to_double(field);
        if 0 <= at < field.len() && (field[at] == ',' || field[at] == '\r' || field[at] == '\n') {
            assert(is_special(field[at]));
        }
    }
    assert(field.push('"').drop_last() =~= field);
    assert(with_doubled_quotes(field) + seq!['"', '"'] =~= with_doubled_quotes(field).push(
        '"',
    ).push('"'));
}

proof fn nothing_to_double(field: Seq<char>)
    requires
        forall|i: int| 0 <= i < field.len() ==> #[trigger] field[i] != '"',
    ensures
        with_doubled_quotes(field) == field,
    decreases field.len(),
{
    if field.len() > 0 {
        let front = field.drop_last();
        assert forall|i: int| 0 <= i < front.len() implies #[trigger] front[i] != '"' by {
            assert(field[i] != '"');
        }
        nothing_to_double(front);
        assert(field.last() == field[field.len() - 1]);
        assert(front.push(field.last()) =~= field);
    }
}

/// A file is its lines one after another, and a line is its fields with commas
/// between them and a line feed at the end.
pub proof fn lines_follow_one_another(rows: Seq<Seq<Seq<char>>>, row: Seq<Seq<char>>)
    ensures
        csv_text_of(Seq::empty()) == Seq::<u8>::empty(),
        csv_text_of(rows.push(row)) == csv_text_of(rows) + csv_line_of(row),
        row.len() == 1 && row[0].len() > 0 ==> csv_line_of(row) == encode_utf8(
            csv_field(row[0]).push('\n'),
        ),
        row.len() == 2 ==> csv_line_of(row) == encode_utf8(
            (csv_field(row[0]) + seq![','] + csv_field(row[1])).push('\n'),
        ),
{
    assert(rows.push(row).drop_last() =~= rows);
    let fields = Seq::new(row.len(), |i: int| csv_field(row[i]));
    if row.len() == 1 && row[0].len() > 0 {
        assert(joined_texts(fields, seq![',']) == csv_field(row[0]));
        assert(csv_field(row[0]).len() > 0);
    }
    if row.len() == 2 {
        assert(fields.drop_last() =~= seq![csv_field(row[0])]);
        assert(joined_texts(fields.drop_last(), seq![',']) == csv_field(row[0]));
        assert(joined_texts(fields, seq![',']) == csv_field(row[0]) + seq![','] + csv_field(
            row[1],
        ));
    }
}

/// Every row is written, and every field of it, in order; and every row that is
/// read counts.
pub proof fn no_row_is_left_out(
    rows: Seq<Vec<String>>,
    read: Seq<Result<Vec<String>, csv::Error>>,
    i: int,
    j: int,
)
    ensures
        fields_of(rows).len() == rows.len(),
        0 <= i < rows.len() ==> fields_of(rows)[i].len() == rows[i]@.len(),
        0 <= i < rows.len() && 0 <= j < rows[i]@.len() ==> fields_of(rows)[i][j] == rows[i]@[j]@,
        outcomes(read).len() == read.len(),
        0 <= i < read.len() ==> match read[i] {
            Ok(fields) => outcomes(read)[i] == Some(texts(fields@)),
            Err(_) => outcomes(read)[i] is None,
        },
{
}

} // verus!
