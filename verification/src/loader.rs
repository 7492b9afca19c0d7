//! The parsing half of the transform step: CSV text to typed rows.
//!
//! The record separation itself — commas, quoting, line ends — is done
//! by the csv crate on in-memory text, behind [`split_records`]; what it
//! yields on a given text is named [`csv_table`].  Everything after the
//! split is verified: each record must have exactly six fields, the id
//! and total columns must parse as 32-bit integers, and the three
//! real-valued columns must belong to the real-literal grammar.  The
//! first offence is reported with the record's position and field, as
//! [`LoadError`] names them.
//!
//! A [`ParsedRow`] still carries the real-valued columns as their
//! accepted texts: the crate never computes with them, and the
//! surrounding binary converts an accepted text to the machine's
//! floating-point type, which cannot fail on this grammar.

use vstd::prelude::*;

use crate::numerals::{check_real, int_literal_val, is_i32_literal, is_real_literal, parse_i32};
use crate::store::LoadError;

verus! {

/// What the record splitter yields on the given text: the records in
/// order, each a sequence of field texts.
pub uninterp spec fn csv_table(text: Seq<char>) -> Seq<Seq<Seq<char>>>;

/// Whether the record splitter accepts the given text at all: like its
/// yield, a function of the text alone.
pub uninterp spec fn csv_splits(text: Seq<char>) -> bool;

/// Relies on csv's Reader, with headers off, reading the in-memory text
/// itself: it splits the text into records of fields, and both whether
/// it succeeds and what it yields depend on the text alone.
#[verifier::external_body]
fn split_records(text: &str) -> (r: Result<Vec<Vec<String>>, String>)
    ensures
        r is Ok <==> csv_splits(text@),
        r matches Ok(v) ==> v.deep_view() == csv_table(text@),
{
    let mut rdr = csv::ReaderBuilder::new().has_headers(false).from_reader(text.as_bytes());
    let mut out: Vec<Vec<String>> = Vec::new();
    for record in rdr.records() {
        match record {
            Ok(rec) => out.push(rec.iter().map(|f| f.to_string()).collect()),
            Err(e) => {
                return Err(e.to_string());
            },
        }
    }
    Ok(out)
}

/// One CSV record after parsing: typed integer columns, the name, and
/// the three real-valued columns as their accepted texts.
#[derive(Debug, Clone, PartialEq)]
pub struct ParsedRow {
    pub id: i32,
    pub name: String,
    pub total: i32,
    pub male_share: String,
    pub female_share: String,
    pub gap: String,
}

/// The mathematical value of a parsed record.
pub ghost struct ParsedRowModel {
    pub id: int,
    pub name: Seq<char>,
    pub total: int,
    pub male_share: Seq<char>,
    pub female_share: Seq<char>,
    pub gap: Seq<char>,
}

impl View for ParsedRow {
    type V = ParsedRowModel;

    open spec fn view(&self) -> ParsedRowModel {
        ParsedRowModel {
            id: self.id as int,
            name: self.name@,
            total: self.total as int,
            male_share: self.male_share@,
            female_share: self.female_share@,
            gap: self.gap@,
        }
    }
}

/// The first field of a six-field record that its column's grammar
/// rejects, or six when every one is accepted; the columns are tried in
/// the order id, total, then the three real-valued ones (the name is
/// text and cannot fail).
pub open spec fn first_bad_field(fields: Seq<Seq<char>>) -> int {
    if !is_i32_literal(fields[0]) {
        0
    } else if !is_i32_literal(fields[2]) {
        2
    } else if !is_real_literal(fields[3]) {
        3
    } else if !is_real_literal(fields[4]) {
        4
    } else if !is_real_literal(fields[5]) {
        5
    } else {
        6
    }
}

/// A record the loader accepts: six fields, each of its column's
/// grammar.
pub open spec fn record_ok(fields: Seq<Seq<char>>) -> bool {
    fields.len() == 6 && first_bad_field(fields) == 6
}

/// The parsed value of an accepted record.
pub open spec fn record_model(fields: Seq<Seq<char>>) -> ParsedRowModel {
    ParsedRowModel {
        id: int_literal_val(fields[0]),
        name: fields[1],
        total: int_literal_val(fields[2]),
        male_share: fields[3],
        female_share: fields[4],
        gap: fields[5],
    }
}

/// The error a rejected record at position `row` yields.
pub open spec fn record_error(fields: Seq<Seq<char>>, row: int) -> LoadError {
    if fields.len() != 6 {
        LoadError::Structure { row: row as usize, fields: fields.len() as usize }
    } else {
        LoadError::Field { row: row as usize, field: first_bad_field(fields) as usize }
    }
}

/// Parse one record's fields, reporting the record's position on
/// failure.
pub fn parse_record(fields: &Vec<String>, row: usize) -> (r: Result<ParsedRow, LoadError>)
    ensures
        (match r {
            Ok(p) => record_ok(fields.deep_view()) && p@ == record_model(fields.deep_view()),
            Err(e) => !record_ok(fields.deep_view()) && e == record_error(
                fields.deep_view(),
                row as int,
            ),
        }),
{
    let ghost fs = fields.deep_view();
    proof {
        assert(fs.len() == fields@.len());
        assert(forall|i: int| 0 <= i < fields@.len() ==> fs[i] == (#[trigger] fields@[i])@);
    }
    let n: usize = fields.len();
    if n != 6 {
        return Err(LoadError::Structure { row, fields: n });
    }
    let id: i32 = match parse_i32(fields[0].as_str()) {
        Some(v) => v,
        None => {
            return Err(LoadError::Field { row, field: 0 });
        },
    };
    let total: i32 = match parse_i32(fields[2].as_str()) {
        Some(v) => v,
        None => {
            return Err(LoadError::Field { row, field: 2 });
        },
    };
    if !check_real(fields[3].as_str()) {
        return Err(LoadError::Field { row, field: 3 });
    }
    if !check_real(fields[4].as_str()) {
        return Err(LoadError::Field { row, field: 4 });
    }
    if !check_real(fields[5].as_str()) {
        return Err(LoadError::Field { row, field: 5 });
    }
    Ok(
        ParsedRow {
            id,
            name: fields[1].clone(),
            total,
            male_share: fields[3].clone(),
            female_share: fields[4].clone(),
            gap: fields[5].clone(),
        },
    )
}

/// Split the CSV text and parse every record, in order.  This succeeds
/// exactly when the splitter accepts the text and every record parses:
/// then the rows come back parsed, one per record.  A text the splitter
/// refuses reports the splitter's own message; otherwise the first
/// offending record aborts the parse with its position and field.
pub fn parse_text(text: &str) -> (r: Result<Vec<ParsedRow>, LoadError>)
    ensures
        (match r {
            Ok(v) => {
                let rows = csv_table(text@);
                &&& v@.len() == rows.len()
                &&& forall|i: int|
                    0 <= i < rows.len() ==> record_ok(#[trigger] rows[i]) && v@[i]@ == record_model(
                        rows[i],
                    )
            },
            Err(e) => ((e matches LoadError::Csv { .. }) && !csv_splits(text@)) || {
                let rows = csv_table(text@);
                exists|i: int|
                    #![auto]
                    0 <= i < rows.len() && !record_ok(rows[i]) && (forall|j: int|
                        0 <= j < i ==> record_ok(#[trigger] rows[j])) && e == record_error(
                        rows[i],
                        i,
                    )
            },
        }),
{
    let records = match split_records(text) {
        Ok(v) => v,
        Err(message) => {
            return Err(LoadError::Csv { message });
        },
    };
    let ghost rows = csv_table(text@);
    proof {
        assert(rows.len() == records@.len());
        assert(forall|i: int|
            0 <= i < records@.len() ==> rows[i] == (#[trigger] records@[i]).deep_view());
    }
    let n: usize = records.len();
    let mut out: Vec<ParsedRow> = Vec::new();
    let mut i: usize = 0;
    while i < n
        invariant
            rows == csv_table(text@),
            n == records@.len(),
            rows.len() == n,
            i <= n,
            forall|k: int|
                0 <= k < records@.len() ==> rows[k] == (#[trigger] records@[k]).deep_view(),
            out@.len() == i,
            forall|k: int|
                0 <= k < i ==> record_ok(#[trigger] rows[k]) && out@[k]@ == record_model(rows[k]),
        decreases n - i,
    {
        match parse_record(&records[i], i) {
            Ok(p) => {
                out.push(p);
            },
            Err(e) => {
                return Err(e);
            },
        }
        i = i + 1;
    }
    Ok(out)
}

} // verus!

