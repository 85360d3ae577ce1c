//! Tab-separated records, read with the `csv` crate.

use vstd::prelude::*;
use crate::error::PlanError;

verus! {

/// Declares `csv::Error`, the error of the `csv` reader, as an opaque
/// type: nothing is known of a value of it.
#[verifier::external_type_specification]
#[verifier::external_body]
pub struct ExCsvError(csv::Error);

/// The records that the `csv` reader finds in `data` when fields are
/// separated by tabs and the first record is no header: `None` where the
/// reader reports an error.
pub uninterp spec fn tsv_records(data: Seq<u8>) -> Option<Seq<Seq<Seq<char>>>>;

/// Calls `csv::ReaderBuilder::from_reader` with `has_headers(false)` and
/// `delimiter(b'\t')`, and collects what `Reader::records` yields up to the
/// first error. Nothing is proved of the reader: its result is only given
/// the name `tsv_records`, as a function of the bytes read.
#[verifier::external_body]
fn read_records(data: &[u8]) -> (read: Result<Vec<Vec<String>>, csv::Error>)
    ensures
        match read {
            Ok(rows) => tsv_records(data@) == Some(rows.deep_view()),
            Err(_) => tsv_records(data@) is None,
        },
{
    let mut reader = csv::ReaderBuilder::new().has_headers(false).delimiter(b'\t').from_reader(data);
    let mut rows = Vec::new();
    for record in reader.records() {
        rows.push(record?.iter().map(String::from).collect());
    }
    Ok(rows)
}

/// Splits tab-separated text into its records. Fails with
/// `MalformedFact` exactly when the reader reports an error.
pub fn parse_tsv(data: &[u8]) -> (parsed: Result<Vec<Vec<String>>, PlanError>)
    ensures
        match parsed {
            Ok(rows) => tsv_records(data@) == Some(rows.deep_view()),
            Err(e) => e == PlanError::MalformedFact && tsv_records(data@) is None,
        },
{
    match read_records(data) {
        Ok(rows) => Ok(rows),
        Err(_) => Err(PlanError::MalformedFact),
    }
}

} // verus!
