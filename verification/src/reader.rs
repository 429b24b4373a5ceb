//! Reading a table from comma-separated text, which the `csv` crate does.
//!
//! What the crate makes of a text is known here by two names, one for the
//! first record and one for the records after it. The functions that call
//! the crate are taken on trust.

use vstd::prelude::*;

verus! {

/// The error of the `csv` crate.
#[verifier::external_type_specification]
#[verifier::external_body]
pub struct ExCsvError(csv::Error);

/// The fields of the first record that a `csv::Reader` with the default
/// settings finds in the text, or `None` where it fails on that record.
pub uninterp spec fn csv_header(data: Seq<char>) -> Option<Seq<Seq<char>>>;

/// The records after the first that a `csv::Reader` with the default
/// settings finds in the text, each with its fields, or `None` where it fails
/// on one of them.
pub uninterp spec fn csv_records(data: Seq<char>) -> Option<Seq<Seq<Seq<char>>>>;

/// Calls `csv::Reader::headers` on a reader of the text and hands out the
/// fields of the record that it returns.
#[verifier::external_body]
pub(crate) fn read_header(data: &str) -> (header: Result<Vec<String>, csv::Error>)
    ensures
        header matches Ok(fields) ==> csv_header(data@) == Some(fields.deep_view()),
        header is Err ==> csv_header(data@) is None,
{
    let mut reader = csv::Reader::from_reader(data.as_bytes());
    match reader.headers() {
        Ok(record) => Ok(record.iter().map(|field| field.to_string()).collect()),
        Err(e) => Err(e),
    }
}

/// Calls `csv::Reader::into_records` on a reader of the text and hands out
/// the fields of each record, up to the first record that fails.
#[verifier::external_body]
pub(crate) fn read_records(data: &str) -> (records: Result<Vec<Vec<String>>, csv::Error>)
    ensures
        records matches Ok(rows) ==> csv_records(data@) == Some(rows.deep_view()),
        records is Err ==> csv_records(data@) is None,
{
    let reader = csv::Reader::from_reader(data.as_bytes());
    let mut rows: Vec<Vec<String>> = Vec::new();
    for record in reader.into_records() {
        match record {
            Ok(fields) => rows.push(fields.iter().map(|field| field.to_string()).collect()),
            Err(e) => return Err(e),
        }
    }
    Ok(rows)
}

/// The message of the error, as `csv::Error` displays it.
#[verifier::external_body]
pub(crate) fn error_text(error: &csv::Error) -> (text: String) {
    error.to_string()
}

} // verus!
