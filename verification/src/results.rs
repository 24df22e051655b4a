//! The results file of a scan: writing one, and reading one back.

use crate::csv_file::{
    body_of, csv_headers_of, csv_records_of, csv_text, csv_text_of, fields_of, header_outcome,
    is_table, outcomes, read_headers, read_records,
};
use crate::order::{rank_text, text_order_laws, Ordered, Rank};
use crate::partial::tallies;
use crate::scan::{
    entries_of, lists_extensions, row_precedes, texts, totals_determine_the_report, Scan,
};
use crate::sorted_map::{has_key, map_of, value_or, SortedMap};
use crate::summary::bumped;
use crate::tally::{nearest, ratio_of, Bucket, Tally};
use crate::text::{
    between_quotes, decimal, decimal_text, is_plain, joined_texts, parse_whole, quoted, quoted_of,
    trim, trimmed,
    trimming_keeps_bare_text, whole_number, written_numbers_read_back,
};
use vstd::prelude::*;
use vstd::string::*;

verus! {

/// Columns a results file must carry to be read. The average column is derived
/// from these, so it is not required.
pub const EXTENSION_COLUMN: &'static str = "Extension";

pub const COUNT_COLUMN: &'static str = "Qty";

pub const BYTES_COLUMN: &'static str = "Cap Bytes";

pub const AVERAGE_COLUMN: &'static str = "Avg Bytes";

/// Where the column called `name` is: the first whose header is that name, but
/// for white space around it.
pub open spec fn column_of(headers: Seq<Seq<char>>, name: Seq<char>) -> Option<int>
    decreases headers.len(),
{
    if headers.len() == 0 {
        None
    } else {
        match column_of(headers.drop_last(), name) {
            Some(at) => Some(at),
            None => if trimmed(headers.last()) == name {
                Some(headers.len() - 1)
            } else {
                None
            },
        }
    }
}

fn column_index(headers: &Vec<String>, name: &str) -> (r: Option<usize>)
    ensures
        match r {
            Some(at) => column_of(texts(headers@), name@) == Some(at as int),
            None => column_of(texts(headers@), name@) is None,
        },
{
    let ghost all = texts(headers@);
    let mut i: usize = 0;
    let mut r: Option<usize> = None;
    assert(all.take(0) =~= Seq::empty());
    while i < headers.len()
        invariant
            all == texts(headers@),
            i <= headers@.len(),
            match r {
                Some(at) => column_of(all.take(i as int), name@) == Some(at as int),
                None => column_of(all.take(i as int), name@) is None,
            },
        decreases headers.len() - i,
    {
        assert(all.take(i + 1).drop_last() =~= all.take(i as int));
        match r {
            Some(_) => {},
            None => match rank_text(trim(headers[i].as_str()), name) {
                Rank::Same => {
                    r = Some(i);
                },
                _ => {},
            },
        }
        i = i + 1;
    }
    assert(all.take(i as int) =~= all);
    r
}

/// Where the columns of a results file are.
pub struct Columns {
    pub extension: int,
    pub count: int,
    pub bytes: int,
}

/// What can be wrong with a row.
pub enum Fault {
    /// It is not text, or not as long as the first row.
    Malformed,
    /// It has no field where the extension belongs.
    NoExtension,
    /// What stands where a number belongs is not one.
    NotANumber { column: Seq<char>, value: Seq<char> },
    /// With it a total no longer fits the counter it is kept in.
    TooLarge,
}

/// Why a results file was refused.
pub enum Refusal {
    /// The file could not be read at all.
    Unreadable,
    /// There is no first row that is text.
    NoHeader,
    /// There is no column of that name among those found.
    NoColumn { name: Seq<char>, found: Seq<Seq<char>> },
    /// A row is wrong.
    Row { line: int, fault: Fault },
}

/// The field at a position, or nothing if the row is too short.
pub open spec fn field_at(fields: Seq<Seq<char>>, at: int) -> Seq<char> {
    if 0 <= at < fields.len() {
        fields[at]
    } else {
        Seq::empty()
    }
}

/// The number at a position.
pub open spec fn number_at(fields: Seq<Seq<char>>, at: int) -> Option<u64> {
    whole_number(trimmed(field_at(fields, at)))
}

/// What a row says: an extension, and how many files and bytes it has.
pub open spec fn row_of(record: Option<Seq<Seq<char>>>, columns: Columns) -> Result<
    (Seq<char>, Tally),
    Fault,
> {
    match record {
        None => Err(Fault::Malformed),
        Some(fields) => if !(0 <= columns.extension < fields.len()) {
            Err(Fault::NoExtension)
        } else {
            match number_at(fields, columns.count) {
                None => Err(
                    Fault::NotANumber {
                        column: COUNT_COLUMN@,
                        value: trimmed(field_at(fields, columns.count)),
                    },
                ),
                Some(count) => match number_at(fields, columns.bytes) {
                    None => Err(
                        Fault::NotANumber {
                            column: BYTES_COLUMN@,
                            value: trimmed(field_at(fields, columns.bytes)),
                        },
                    ),
                    Some(bytes) => Ok(
                        (
                            fields[columns.extension],
                            Tally { count: count as int, bytes: bytes as int },
                        ),
                    ),
                },
            }
        },
    }
}

/// The line a row is on, by its position behind the header. The header occupies
/// line 1, so the first row is line 2.
pub open spec fn line_of(index: int) -> int {
    if index + 2 <= usize::MAX {
        index + 2
    } else {
        usize::MAX as int
    }
}

/// What the rows of a results file add up to, or the first row that is wrong.
///
/// A well-formed scan lists each extension once; summing rather than
/// overwriting keeps a hand-edited file from silently losing data.
pub open spec fn rows_total(records: Seq<Option<Seq<Seq<char>>>>, columns: Columns) -> Result<
    Map<Seq<char>, Tally>,
    Refusal,
>
    decreases records.len(),
{
    if records.len() == 0 {
        Ok(Map::empty())
    } else {
        match rows_total(records.drop_last(), columns) {
            Err(refusal) => Err(refusal),
            Ok(m) => {
                let line = line_of(records.len() - 1);
                match row_of(records.last(), columns) {
                    Err(fault) => Err(Refusal::Row { line, fault }),
                    Ok((extension, more)) => if bumped(m, extension, more)[extension].fits() {
                        Ok(bumped(m, extension, more))
                    } else {
                        Err(Refusal::Row { line, fault: Fault::TooLarge })
                    },
                }
            },
        }
    }
}

/// What a results file holds, by its first row and the rows behind it.
pub open spec fn file_total(
    headers: Option<Seq<Seq<char>>>,
    records: Seq<Option<Seq<Seq<char>>>>,
) -> Result<Map<Seq<char>, Tally>, Refusal> {
    match headers {
        None => Err(Refusal::NoHeader),
        Some(found) => match column_of(found, EXTENSION_COLUMN@) {
            None => Err(Refusal::NoColumn { name: EXTENSION_COLUMN@, found }),
            Some(extension) => match column_of(found, COUNT_COLUMN@) {
                None => Err(Refusal::NoColumn { name: COUNT_COLUMN@, found }),
                Some(count) => match column_of(found, BYTES_COLUMN@) {
                    None => Err(Refusal::NoColumn { name: BYTES_COLUMN@, found }),
                    Some(bytes) => rows_total(records, Columns { extension, count, bytes }),
                },
            },
        },
    }
}

/// Why a results file could not be read.
#[derive(Debug)]
pub enum ReadError {
    /// The file could not be read at all.
    Unreadable,
    /// There is no first row that is text.
    NoHeader { cause: csv::Error },
    /// A required column is missing.
    NoColumn { name: &'static str, found: Vec<String> },
    /// A row is not text, or not as long as the first.
    Malformed { line: usize, cause: csv::Error },
    /// A row has no field where the extension belongs.
    NoExtension { line: usize },
    /// What stands where a number belongs is not one.
    NotANumber { line: usize, column: &'static str, value: String },
    /// With this row a total no longer fits the counter it is kept in.
    TooLarge { line: usize },
}

impl View for ReadError {
    type V = Refusal;

    open spec fn view(&self) -> Refusal {
        match self {
            ReadError::Unreadable => Refusal::Unreadable,
            ReadError::NoHeader { cause } => Refusal::NoHeader,
            ReadError::NoColumn { name, found } => Refusal::NoColumn {
                name: name@,
                found: texts(found@),
            },
            ReadError::Malformed { line, cause } => Refusal::Row {
                line: *line as int,
                fault: Fault::Malformed,
            },
            ReadError::NoExtension { line } => Refusal::Row {
                line: *line as int,
                fault: Fault::NoExtension,
            },
            ReadError::NotANumber { line, column, value } => Refusal::Row {
                line: *line as int,
                fault: Fault::NotANumber { column: column@, value: value@ },
            },
            ReadError::TooLarge { line } => Refusal::Row {
                line: *line as int,
                fault: Fault::TooLarge,
            },
        }
    }
}

fn join_texts(parts: &Vec<String>, between: &str) -> (r: String)
    ensures
        r@ == joined_texts(texts(parts@), between@),
{
    let ghost all = texts(parts@);
    let mut r: String = String::new();
    let mut i: usize = 0;
    assert(all.take(0) =~= Seq::empty());
    assert(r@ =~= Seq::empty());
    while i < parts.len()
        invariant
            all == texts(parts@),
            i <= parts@.len(),
            r@ == joined_texts(all.take(i as int), between@),
        decreases parts.len() - i,
    {
        proof {
            assert(all.take(i + 1).drop_last() =~= all.take(i as int));
            assert(all.take(i + 1).last() == parts@[i as int]@);
        }
        if i > 0 {
            r.append(between);
        }
        let ghost before = r@;
        r.append(parts[i].as_str());
        assert(i == 0 ==> r@ =~= parts@[0]@);
        i = i + 1;
    }
    assert(all.take(i as int) =~= all);
    r
}

impl Refusal {
    /// What the refusal quotes, if anything.
    pub open spec fn subject(self) -> Seq<char> {
        match self {
            Refusal::NoColumn { name, .. } => name,
            Refusal::Row { fault: Fault::NotANumber { value, .. }, .. } => value,
            _ => Seq::empty(),
        }
    }

    /// The refusal in words, for the results file at `path`, with what it
    /// quotes already in quotes.
    pub open spec fn text(self, path: Seq<char>, in_quotes: Seq<char>) -> Seq<char> {
        match self {
            Refusal::Unreadable => "cannot read scan file: "@ + path,
            Refusal::NoHeader => path + " has no header row"@,
            Refusal::NoColumn { name, found } => path
                + " is not a fast-walk results file: no "@ + in_quotes
                + " column (found: "@ + joined_texts(found, ", "@) + ")"@,
            Refusal::Row { line, fault } => path + " line "@ + decimal(line as nat) + (match fault {
                Fault::Malformed => ": malformed row"@,
                Fault::NoExtension => ": missing the Extension column"@,
                Fault::NotANumber { column, value } => ": "@ + column + " is "@ + in_quotes
                    + ", which is not a whole number"@,
                Fault::TooLarge => ": the totals are too large to hold"@,
            }),
        }
    }
}

fn at_line(path: &str, line: usize) -> (r: String)
    ensures
        r@ == path@ + " line "@ + decimal(line as nat),
{
    path.to_owned().concat(" line ").concat(decimal_text(line as u64).as_str())
}

impl ReadError {
    /// The error in words, for the results file at `path`.
    pub fn message(&self, path: &str) -> (r: String)
        ensures
            r@ == self@.text(path@, quoted_of(self@.subject())),
            is_plain(self@.subject()) ==> r@ == self@.text(
                path@,
                between_quotes(self@.subject()),
            ),
    {
        match self {
            ReadError::NoColumn { name, found } => self.message_quoting(
                path,
                quoted(name).as_str(),
            ),
            ReadError::NotANumber { line, column, value } => self.message_quoting(
                path,
                quoted(value.as_str()).as_str(),
            ),
            _ => self.message_quoting(path, ""),
        }
    }

    /// The error in words, with what it quotes already in quotes.
    pub fn message_quoting(&self, path: &str, in_quotes: &str) -> (r: String)
        ensures
            r@ == self@.text(path@, in_quotes@),
    {
        match self {
            ReadError::Unreadable => "cannot read scan file: ".to_owned().concat(path),
            ReadError::NoHeader { cause } => path.to_owned().concat(" has no header row"),
            ReadError::NoColumn { name, found } => path.to_owned().concat(
                " is not a fast-walk results file: no ",
            ).concat(in_quotes).concat(" column (found: ").concat(
                join_texts(found, ", ").as_str(),
            ).concat(")"),
            ReadError::Malformed { line, cause } => at_line(path, *line).concat(": malformed row"),
            ReadError::NoExtension { line } => at_line(path, *line).concat(
                ": missing the Extension column",
            ),
            ReadError::NotANumber { line, column, value } => {
                let r = at_line(path, *line).concat(": ").concat(column).concat(" is ").concat(
                    in_quotes,
                ).concat(", which is not a whole number");
                assert(r@ =~= self@.text(path@, in_quotes@));
                r
            },
            ReadError::TooLarge { line } => at_line(path, *line).concat(
                ": the totals are too large to hold",
            ),
        }
    }
}

/// What a reading came to.
pub open spec fn reading(r: Result<SortedMap<String, Bucket>, ReadError>) -> Result<
    Map<Seq<char>, Tally>,
    Refusal,
> {
    match r {
        Ok(totals) => Ok(tallies(totals.map())),
        Err(error) => Err(error@),
    }
}

/// Read the number at a position, or give back what stands there instead.
fn parse_number(fields: &Vec<String>, at: usize) -> (r: Result<u64, String>)
    ensures
        match r {
            Ok(n) => number_at(texts(fields@), at as int) == Some(n),
            Err(value) => number_at(texts(fields@), at as int) is None && value@ == trimmed(
                field_at(texts(fields@), at as int),
            ),
        },
{
    let raw: &str = if at < fields.len() {
        trim(fields[at].as_str())
    } else {
        proof {
            reveal_strlit("");
        }
        assert(""@ =~= Seq::<char>::empty());
        trim("")
    };
    match parse_whole(raw) {
        Some(n) => Ok(n),
        None => Err(raw.to_owned()),
    }
}

/// Add up the rows of a results file.
fn read_rows(
    records: Vec<Result<Vec<String>, csv::Error>>,
    extension_at: usize,
    count_at: usize,
    bytes_at: usize,
) -> (r: Result<SortedMap<String, Bucket>, ReadError>)
    ensures
        r matches Ok(totals) ==> totals.well_formed(),
        reading(r) == rows_total(
            outcomes(records@),
            (Columns {
                extension: extension_at as int,
                count: count_at as int,
                bytes: bytes_at as int,
            }),
        ),
        r matches Err(ReadError::Malformed { line, cause }) ==> exists|i: int|
            0 <= i < records@.len() && line == line_of(i) && (#[trigger] records@[i]) == Err::<
                Vec<String>,
                csv::Error,
            >(cause) && forall|j: int| 0 <= j < i ==> (#[trigger] records@[j]) is Ok,
{
    let ghost all = outcomes(records@);
    let ghost columns = Columns {
        extension: extension_at as int,
        count: count_at as int,
        bytes: bytes_at as int,
    };
    let mut rest: Vec<Result<Vec<String>, csv::Error>> = records;
    let mut totals: SortedMap<String, Bucket> = SortedMap::new();
    let mut i: usize = 0;
    proof {
        assert(all.take(0) =~= Seq::empty());
        assert(tallies(totals.map()) =~= Map::<Seq<char>, Tally>::empty());
    }
    while i < rest.len()
        invariant
            all == outcomes(records@),
            columns == (Columns {
                extension: extension_at as int,
                count: count_at as int,
                bytes: bytes_at as int,
            }),
            i <= rest@.len(),
            rest@.len() == records@.len(),
            forall|k: int| i <= k < rest@.len() ==> rest@[k] == records@[k],
            forall|j: int| 0 <= j < i ==> (#[trigger] records@[j]) is Ok,
            totals.well_formed(),
            rows_total(all.take(i as int), columns) == Ok::<Map<Seq<char>, Tally>, Refusal>(
                tallies(totals.map()),
            ),
        decreases rest.len() - i,
    {
        let line: usize = i.saturating_add(2);
        proof {
            assert(all.take(i + 1).drop_last() =~= all.take(i as int));
            assert(all.take(i + 1).last() == header_outcome(records@[i as int]));
            if rows_total(all.take(i + 1), columns) is Err {
                first_fault_stands(all, i + 1, columns);
            }
        }
        let mut record: Result<Vec<String>, csv::Error> = Ok(Vec::new());
        std::mem::swap(&mut record, &mut rest[i]);
        match record {
            Err(cause) => {
                assert(records@[i as int] == Err::<Vec<String>, csv::Error>(cause));
                return Err(ReadError::Malformed { line, cause });
            },
            Ok(fields) => {
                if extension_at >= fields.len() {
                    return Err(ReadError::NoExtension { line });
                }
                let count: u64 = match parse_number(&fields, count_at) {
                    Ok(count) => count,
                    Err(value) => {
                        return Err(ReadError::NotANumber { line, column: COUNT_COLUMN, value });
                    },
                };
                let bytes: u64 = match parse_number(&fields, bytes_at) {
                    Ok(bytes) => bytes,
                    Err(value) => {
                        return Err(ReadError::NotANumber { line, column: BYTES_COLUMN, value });
                    },
                };
                let extension: String = fields[extension_at].clone();
                let so_far: Bucket = match totals.get(&extension) {
                    Some(bucket) => bucket,
                    None => Bucket::default(),
                };
                let ghost before = tallies(totals.map());
                let ghost more = Tally { count: count as int, bytes: bytes as int };
                assert(extension.key() == extension@);
                assert(so_far@ == value_or(before, extension@, Tally::zero()));
                match so_far.checked_merge(Bucket { count, bytes }) {
                    Some(sum) => {
                        totals.set(extension, sum);
                        assert(tallies(totals.map()) =~= bumped(before, extension@, more));
                    },
                    None => {
                        return Err(ReadError::TooLarge { line });
                    },
                }
            },
        }
        i = i + 1;
    }
    assert(all.take(i as int) =~= all);
    Ok(totals)
}

/// Once a row is wrong, nothing behind it matters.
pub proof fn first_fault_stands(
    records: Seq<Option<Seq<Seq<char>>>>,
    n: int,
    columns: Columns,
)
    requires
        0 <= n <= records.len(),
        rows_total(records.take(n), columns) is Err,
    ensures
        rows_total(records, columns) == rows_total(records.take(n), columns),
    decreases records.len(),
{
    if n < records.len() {
        assert(records.drop_last().take(n) =~= records.take(n));
        first_fault_stands(records.drop_last(), n, columns);
    } else {
        assert(records.take(n) =~= records);
    }
}

/// What a results file holds, by what its rows were read as.
pub fn read_totals(
    headers: Result<Vec<String>, csv::Error>,
    records: Vec<Result<Vec<String>, csv::Error>>,
) -> (r: Result<SortedMap<String, Bucket>, ReadError>)
    ensures
        r matches Ok(totals) ==> totals.well_formed(),
        reading(r) == file_total(header_outcome(headers), outcomes(records@)),
        headers matches Err(e) ==> r == Err::<SortedMap<String, Bucket>, ReadError>(
            ReadError::NoHeader { cause: e },
        ),
        r matches Err(ReadError::Malformed { line, cause }) ==> exists|i: int|
            0 <= i < records@.len() && line == line_of(i) && (#[trigger] records@[i]) == Err::<
                Vec<String>,
                csv::Error,
            >(cause) && forall|j: int| 0 <= j < i ==> (#[trigger] records@[j]) is Ok,
{
    let found: Vec<String> = match headers {
        Ok(found) => found,
        Err(cause) => {
            return Err(ReadError::NoHeader { cause });
        },
    };
    let extension_at: usize = match column_index(&found, EXTENSION_COLUMN) {
        Some(at) => at,
        None => {
            return Err(ReadError::NoColumn { name: EXTENSION_COLUMN, found });
        },
    };
    let count_at: usize = match column_index(&found, COUNT_COLUMN) {
        Some(at) => at,
        None => {
            return Err(ReadError::NoColumn { name: COUNT_COLUMN, found });
        },
    };
    let bytes_at: usize = match column_index(&found, BYTES_COLUMN) {
        Some(at) => at,
        None => {
            return Err(ReadError::NoColumn { name: BYTES_COLUMN, found });
        },
    };
    read_rows(records, extension_at, count_at, bytes_at)
}

/// Bytes per file, to the nearest byte.
pub open spec fn average_of(bucket: Bucket) -> int {
    let r = ratio_of(bucket.bytes, bucket.count);
    nearest(r.numerator as int, r.denominator as int)
}

/// What a report says of one bucket.
pub open spec fn bucket_fields(name: Seq<char>, bucket: Bucket) -> Seq<Seq<char>> {
    seq![
        name,
        decimal(bucket.count as nat),
        decimal(bucket.bytes as nat),
        decimal(average_of(bucket) as nat),
    ]
}

/// The columns of a report whose first column is called `first`.
pub open spec fn report_header(first: Seq<char>) -> Seq<Seq<char>> {
    seq![first, COUNT_COLUMN@, BYTES_COLUMN@, AVERAGE_COLUMN@]
}

/// A report as a table: its columns, and a row for each entry.
pub open spec fn report_table(first: Seq<char>, entries: Seq<(Seq<char>, Bucket)>) -> Seq<
    Seq<Seq<char>>,
> {
    seq![report_header(first)] + Seq::new(
        entries.len(),
        |i: int| bucket_fields(entries[i].0, entries[i].1),
    )
}

fn bucket_row(name: &str, bucket: Bucket) -> (r: Vec<String>)
    ensures
        texts(r@) == bucket_fields(name@, bucket),
{
    let average: u64 = bucket.average_bytes().rounded();
    let mut r: Vec<String> = Vec::new();
    r.push(name.to_owned());
    r.push(decimal_text(bucket.count));
    r.push(decimal_text(bucket.bytes));
    r.push(decimal_text(average));
    assert(texts(r@) =~= bucket_fields(name@, bucket));
    r
}

fn header_row(first: &str) -> (r: Vec<String>)
    ensures
        texts(r@) == report_header(first@),
{
    let mut r: Vec<String> = Vec::new();
    r.push(first.to_owned());
    r.push(COUNT_COLUMN.to_owned());
    r.push(BYTES_COLUMN.to_owned());
    r.push(AVERAGE_COLUMN.to_owned());
    assert(texts(r@) =~= report_header(first@));
    r
}

/// A report as CSV.
pub fn report_csv(first: &str, rows: &Vec<(&str, Bucket)>) -> (r: Vec<u8>)
    ensures
        r@ == csv_text_of(report_table(first@, entries_of(rows@))),
{
    let ghost table = report_table(first@, entries_of(rows@));
    let mut lines: Vec<Vec<String>> = Vec::new();
    lines.push(header_row(first));
    let mut i: usize = 0;
    while i < rows.len()
        invariant
            i <= rows@.len(),
            table == report_table(first@, entries_of(rows@)),
            lines@.len() == i + 1,
            forall|k: int| 0 <= k <= i ==> texts((#[trigger] lines@[k])@) == table[k],
        decreases rows.len() - i,
    {
        lines.push(bucket_row(rows[i].0, rows[i].1));
        i = i + 1;
    }
    assert(fields_of(lines@) =~= table);
    csv_text(&lines)
}

/// Whether `data` is the results file of a scan with the totals `m`.
pub open spec fn is_results_of(data: Seq<u8>, m: Map<Seq<char>, Bucket>) -> bool {
    exists|entries: Seq<(Seq<char>, Bucket)>| #[trigger]
        lists_extensions(m, entries) && data == csv_text_of(
            report_table(EXTENSION_COLUMN@, entries),
        )
}

/// The results file of a scan: totals per extension, most files first.
pub fn results_csv(scan: &Scan) -> (r: Vec<u8>)
    requires
        scan.well_formed(),
    ensures
        is_results_of(r@, scan.totals.map()),
{
    let rows: Vec<(&str, Bucket)> = scan.rows();
    let r: Vec<u8> = report_csv(EXTENSION_COLUMN, &rows);
    assert(lists_extensions(scan.totals.map(), entries_of(rows@)));
    r
}

proof fn own_columns_are_found(first: Seq<char>)
    requires
        first == EXTENSION_COLUMN@,
    ensures
        column_of(report_header(first), EXTENSION_COLUMN@) == Some(0int),
        column_of(report_header(first), COUNT_COLUMN@) == Some(1int),
        column_of(report_header(first), BYTES_COLUMN@) == Some(2int),
        !(first.len() > 0 && first[0] == '\u{feff}'),
{
    reveal_strlit("Extension");
    reveal_strlit("Qty");
    reveal_strlit("Cap Bytes");
    reveal_strlit("Avg Bytes");
    reveal_with_fuel(column_of, 5);
    let h = report_header(first);
    trimming_keeps_bare_text(h[0]);
    trimming_keeps_bare_text(h[1]);
    trimming_keeps_bare_text(h[2]);
    trimming_keeps_bare_text(h[3]);
    assert(h[0].len() != h[1].len());
    assert(h[0][0] != h[2][0]);
    assert(h[1].len() != h[2].len());
    let one = h.drop_last().drop_last().drop_last();
    let two = h.drop_last().drop_last();
    let three = h.drop_last();
    assert(one.last() == h[0]);
    assert(two.last() == h[1]);
    assert(three.last() == h[2]);
    assert(h.last() == h[3]);
}

proof fn own_rows_read_back(
    m: Map<Seq<char>, Bucket>,
    entries: Seq<(Seq<char>, Bucket)>,
    n: int,
)
    requires
        lists_extensions(m, entries),
        0 <= n <= entries.len(),
    ensures
        rows_total(
            body_of(report_table(EXTENSION_COLUMN@, entries)).take(n),
            (Columns { extension: 0, count: 1, bytes: 2 }),
        ) == Ok::<Map<Seq<char>, Tally>, Refusal>(tallies(map_of(entries.take(n)))),
    decreases n,
{
    let columns = Columns { extension: 0, count: 1, bytes: 2 };
    let body = body_of(report_table(EXTENSION_COLUMN@, entries));
    if n == 0 {
        assert(body.take(0) =~= Seq::empty());
        assert(tallies(map_of(entries.take(0))) =~= Map::<Seq<char>, Tally>::empty());
    } else {
        own_rows_read_back(m, entries, n - 1);
        assert(body.take(n).drop_last() =~= body.take(n - 1));
        let (name, bucket) = entries[n - 1];
        let fields = bucket_fields(name, bucket);
        assert(body.take(n).last() == Some(fields));
        written_numbers_read_back(bucket.count);
        written_numbers_read_back(bucket.bytes);
        assert(fields[1] == decimal(bucket.count as nat));
        assert(fields[2] == decimal(bucket.bytes as nat));
        let front = entries.take(n - 1);
        let all = entries.take(n);
        assert(all =~= front.push((name, bucket)));
        extensions_are_listed_once(m, entries);
        assert forall|i: int, j: int| 0 <= i < j < all.len() implies (#[trigger] all[i]).0 != (
        #[trigger] all[j]).0 by {
            assert(entries[i].0 != entries[j].0);
        }
        map_of_distinct_entries(front, name, bucket);
        let before = tallies(map_of(front));
        assert(value_or(before, name, Tally::zero()) == Tally::zero());
        assert(Tally::zero().plus(bucket@) == bucket@);
        assert(tallies(map_of(all)) =~= bumped(before, name, bucket@));
    }
}

/// One more entry with a name of its own adds it to the map.
proof fn map_of_distinct_entries(front: Seq<(Seq<char>, Bucket)>, name: Seq<char>, bucket: Bucket)
    requires
        forall|i: int, j: int|
            0 <= i < j <= front.len() ==> (#[trigger] front.push((name, bucket))[i]).0 != (
            #[trigger] front.push((name, bucket))[j]).0,
    ensures
        !map_of(front).dom().contains(name),
        map_of(front.push((name, bucket))) == map_of(front).insert(name, bucket),
{
    let all = front.push((name, bucket));
    let a = map_of(all);
    let b = map_of(front).insert(name, bucket);
    assert(all[front.len() as int].0 == name);
    assert forall|i: int| 0 <= i < front.len() implies (#[trigger] front[i]).0 == all[i].0 by {}
    assert forall|q: Seq<char>| #[trigger] a.dom().contains(q) <==> b.dom().contains(q) by {
        if has_key(front, q) {
            let i = choose|i: int| 0 <= i < front.len() && (#[trigger] front[i]).0 == q;
            assert(all[i].0 == q);
        }
        if has_key(all, q) {
            let i = choose|i: int| 0 <= i < all.len() && (#[trigger] all[i]).0 == q;
            if i < front.len() {
                assert(front[i].0 == q);
            }
        }
    }
    assert forall|q: Seq<char>| #[trigger] a.dom().contains(q) implies a[q] == b[q] by {
        let i = choose|i: int| 0 <= i < all.len() && (#[trigger] all[i]).0 == q;
        assert(a[q] == all[i].1);
        if q == name {
            if i < front.len() {
                assert(all[i].0 != all[front.len() as int].0);
            }
        } else {
            assert(front[i].0 == q);
            let j = choose|j: int| 0 <= j < front.len() && (#[trigger] front[j]).0 == q;
            assert(all[j].0 == all[i].0);
            if i < j {
                assert(all[i].0 != all[j].0);
            }
            if j < i {
                assert(all[j].0 != all[i].0);
            }
        }
    }
    assert(a =~= b);
    if map_of(front).dom().contains(name) {
        let i = choose|i: int| 0 <= i < front.len() && (#[trigger] front[i]).0 == name;
        assert(all[i].0 != all[front.len() as int].0);
    }
}

/// No extension has two rows.
pub proof fn extensions_are_listed_once(
    m: Map<Seq<char>, Bucket>,
    entries: Seq<(Seq<char>, Bucket)>,
)
    requires
        lists_extensions(m, entries),
    ensures
        forall|i: int, j: int|
            0 <= i < j < entries.len() ==> (#[trigger] entries[i]).0 != (#[trigger] entries[j]).0,
{
    assert forall|i: int, j: int| 0 <= i < j < entries.len() implies (#[trigger] entries[i]).0 != (
    #[trigger] entries[j]).0 by {
        let name = entries[i].0;
        if name == entries[j].0 {
            assert(m[name] == entries[i].1 && m[name] == entries[j].1);
            assert(row_precedes((name, entries[i].1.count), (name, entries[j].1.count)));
            text_order_laws(name, name, name);
        }
    }
}

/// The results file of a scan holds what the scan found.
pub proof fn a_results_file_holds_the_totals(
    m: Map<Seq<char>, Bucket>,
    entries: Seq<(Seq<char>, Bucket)>,
)
    requires
        lists_extensions(m, entries),
    ensures
        is_table(report_table(EXTENSION_COLUMN@, entries)),
        file_total(
            Some(report_table(EXTENSION_COLUMN@, entries)[0]),
            body_of(report_table(EXTENSION_COLUMN@, entries)),
        ) == Ok::<Map<Seq<char>, Tally>, Refusal>(tallies(m)),
{
    let table = report_table(EXTENSION_COLUMN@, entries);
    let body = body_of(table);
    own_columns_are_found(EXTENSION_COLUMN@);
    assert(table[0] == report_header(EXTENSION_COLUMN@));
    assert forall|i: int| 0 <= i < table.len() implies (#[trigger] table[i]).len()
        == table[0].len() by {
        if i > 0 {
            assert(table[i] == bucket_fields(entries[i - 1].0, entries[i - 1].1));
        }
    }
    own_rows_read_back(m, entries, entries.len() as int);
    assert(body.take(entries.len() as int) =~= body);
    assert(entries.take(entries.len() as int) =~= entries);
    extensions_are_listed_once(m, entries);
    let listed = map_of(entries);
    assert forall|q: Seq<char>| #[trigger] m.dom().contains(q) <==> listed.dom().contains(q) by {
        if m.dom().contains(q) {
            let i = choose|i: int| 0 <= i < entries.len() && (#[trigger] entries[i]).0 == q;
            assert(has_key(entries, q));
        }
        if has_key(entries, q) {
            let i = choose|i: int| 0 <= i < entries.len() && (#[trigger] entries[i]).0 == q;
            assert(m.dom().contains(entries[i].0));
        }
    }
    assert forall|q: Seq<char>| #[trigger] m.dom().contains(q) implies m[q] == listed[q] by {
        assert(listed.dom().contains(q));
        let i = choose|i: int| 0 <= i < entries.len() && (#[trigger] entries[i]).0 == q;
        assert(m[entries[i].0] == entries[i].1);
    }
    assert(listed =~= m);
}

/// The same totals are always written as the same file.
pub proof fn totals_determine_the_results_file(
    m: Map<Seq<char>, Bucket>,
    one: Seq<u8>,
    other: Seq<u8>,
)
    requires
        is_results_of(one, m),
        is_results_of(other, m),
    ensures
        one == other,
{
    let a = choose|entries: Seq<(Seq<char>, Bucket)>| #[trigger]
        lists_extensions(m, entries) && one == csv_text_of(
            report_table(EXTENSION_COLUMN@, entries),
        );
    let b = choose|entries: Seq<(Seq<char>, Bucket)>| #[trigger]
        lists_extensions(m, entries) && other == csv_text_of(
            report_table(EXTENSION_COLUMN@, entries),
        );
    totals_determine_the_report(m, a, b);
}

/// Read the per-extension totals out of a results file written by a previous
/// scan. `contents` is what the file holds, or nothing if it cannot be read.
///
/// Columns are located by header name rather than position, so a file that
/// gained columns in a later version still reads. A file that a scan wrote
/// gives back the totals of that scan.
pub fn read_scan_csv(contents: Option<&[u8]>) -> (r: Result<SortedMap<String, Bucket>, ReadError>)
    ensures
        r matches Ok(totals) ==> totals.well_formed(),
        contents is None ==> reading(r) == Err::<Map<Seq<char>, Tally>, Refusal>(
            Refusal::Unreadable,
        ),
        contents matches Some(data) ==> reading(r) == file_total(
            csv_headers_of(data@),
            csv_records_of(data@),
        ),
        contents matches Some(data) ==> forall|rows: Seq<Seq<Seq<char>>>|
            is_table(rows) && data@ == #[trigger] csv_text_of(rows) ==> reading(r) == file_total(
                Some(rows[0]),
                body_of(rows),
            ),
        contents matches Some(data) ==> forall|m: Map<Seq<char>, Bucket>| #[trigger]
            is_results_of(data@, m) ==> reading(r) == Ok::<Map<Seq<char>, Tally>, Refusal>(
                tallies(m),
            ),
{
    let data: &[u8] = match contents {
        Some(data) => data,
        None => {
            return Err(ReadError::Unreadable);
        },
    };
    let headers: Result<Vec<String>, csv::Error> = read_headers(data);
    let records: Vec<Result<Vec<String>, csv::Error>> = read_records(data);
    let r = read_totals(headers, records);
    proof {
        assert forall|m: Map<Seq<char>, Bucket>| #[trigger] is_results_of(
            data@,
            m,
        ) implies reading(r) == Ok::<Map<Seq<char>, Tally>, Refusal>(tallies(m)) by {
            let entries = choose|entries: Seq<(Seq<char>, Bucket)>| #[trigger]
                lists_extensions(m, entries) && data@ == csv_text_of(
                    report_table(EXTENSION_COLUMN@, entries),
                );
            a_results_file_holds_the_totals(m, entries);
            let rows = report_table(EXTENSION_COLUMN@, entries);
            assert(is_table(rows) && data@ == csv_text_of(rows));
        }
    }
    r
}

} // verus!
