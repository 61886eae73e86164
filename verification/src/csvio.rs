use vstd::prelude::*;

use crate::amount::csv_safe;

verus! {

/// What the CSV reader makes of a text: its records, each a sequence of
/// trimmed fields. Named, because writing out the CSV format here would
/// restate the reader it stands for.
pub uninterp spec fn csv_rows_of(s: Seq<char>) -> Seq<Seq<Seq<char>>>;

/// Relies on csv::ReaderBuilder with all fields trimmed, flexible record
/// lengths and no header handling: it splits a text into records of
/// fields, a function of the text alone. Records the reader cannot read
/// are skipped, as the surrounding processing skips malformed records.
#[verifier::external_body]
pub(crate) fn csv_rows(input: &str) -> (r: Vec<Vec<String>>)
    ensures
        r.deep_view() == csv_rows_of(input@),
{
    let mut out: Vec<Vec<String>> = Vec::new();
    let mut builder = csv::ReaderBuilder::new();
    builder.trim(csv::Trim::All).flexible(true).has_headers(false);
    let mut rdr = builder.from_reader(input.as_bytes());
    for rec in rdr.records() {
        if let Ok(fields) = rec {
            let mut row: Vec<String> = Vec::new();
            for f in fields.iter() {
                row.push(f.to_string());
            }
            out.push(row);
        }
    }
    out
}

/// One CSV record as written: the fields joined by commas, with a final
/// newline.
pub open spec fn join_fields(fields: Seq<Seq<char>>) -> Seq<char>
    decreases fields.len(),
{
    if fields.len() == 0 {
        seq!['\n']
    } else if fields.len() == 1 {
        fields[0] + seq!['\n']
    } else {
        fields[0] + seq![','] + join_fields(fields.drop_first())
    }
}

/// Relies on csv::Writer: nonempty fields free of commas, quotes and line
/// breaks need no quoting and are written verbatim, joined by commas and
/// terminated by a newline.
#[verifier::external_body]
pub(crate) fn csv_line(fields: &Vec<String>) -> (r: String)
    requires
        fields@.len() > 0,
        forall|i: int|
            0 <= i < fields@.len() ==> csv_safe((#[trigger] fields@[i])@) && fields@[i]@.len() > 0,
    ensures
        r@ == join_fields(fields.deep_view()),
{
    let mut w = csv::Writer::from_writer(Vec::new());
    let _ = w.write_record(fields.iter());
    let bytes = w.into_inner().unwrap_or_default();
    String::from_utf8(bytes).unwrap_or_default()
}

} // verus!
