//! Tables for the terminal.

use crate::csv_file::fields_of;
use crate::scan::texts;
use vstd::prelude::*;

verus! {

/// How many extensions are shown in the terminal.
pub const TABLE_ROWS: usize = 10;

/// A table as text.
pub uninterp spec fn table_text_of(header: Seq<Seq<char>>, rows: Seq<Seq<Seq<char>>>) -> Seq<char>;

/// A table as text, by `comfy_table::Table` with its full preset, rounded
/// corners and solid inner borders, and no arrangement of its contents.
///
/// Nothing in it is styled and its columns are as wide as what they hold, so
/// what comes back depends on the text of the cells alone.
#[verifier::external_body]
fn rendered(header: &Vec<String>, rows: &Vec<Vec<String>>) -> (r: String)
    ensures
        r@ == table_text_of(texts(header@), fields_of(rows@)),
{
    comfy_table::Table::new()
        .load_preset(comfy_table::presets::UTF8_FULL)
        .apply_modifier(comfy_table::modifiers::UTF8_ROUND_CORNERS)
        .apply_modifier(comfy_table::modifiers::UTF8_SOLID_INNER_BORDERS)
        .set_header(header)
        .add_rows(rows)
        .to_string()
}

/// The first rows of a report, at most `limit` of them.
pub open spec fn shown(rows: Seq<Seq<Seq<char>>>, limit: int) -> Seq<Seq<Seq<char>>> {
    if rows.len() <= limit {
        rows
    } else {
        rows.take(limit)
    }
}

/// A report is cut off behind `limit` rows and no sooner, and its rows stay as
/// they are.
pub proof fn a_report_is_cut_off_at_the_limit(rows: Seq<Seq<Seq<char>>>, limit: int)
    requires
        limit >= 0,
    ensures
        rows.len() <= limit ==> shown(rows, limit).len() == rows.len(),
        rows.len() > limit ==> shown(rows, limit).len() == limit,
        forall|i: int| 0 <= i < shown(rows, limit).len() ==> shown(rows, limit)[i] == rows[i],
{
}

/// The terminal shows ten extensions.
pub proof fn ten_extensions_are_shown()
    ensures
        TABLE_ROWS == 10,
{
}

/// The first rows of a report as a table, at most `limit` of them.
pub fn table_text(header: &Vec<String>, rows: Vec<Vec<String>>, limit: usize) -> (r: String)
    ensures
        r@ == table_text_of(texts(header@), shown(fields_of(rows@), limit as int)),
{
    let ghost all = fields_of(rows@);
    let mut rows: Vec<Vec<String>> = rows;
    if rows.len() > limit {
        rows.truncate(limit);
    }
    assert(fields_of(rows@) =~= shown(all, limit as int));
    rendered(header, &rows)
}

} // verus!
