//! Rows from the raw text of a delimited file, and the conversion of a file
//! that is held in memory as text.

use vstd::prelude::*;
use crate::error::ConvertError;
use crate::pipeline::{Table, TableModel, convert_table, converted};
use crate::record::rows_view;

verus! {

/// The error of the `csv` crate's reader. Nothing is known of what it holds.
#[verifier::external_type_specification]
#[verifier::external_body]
pub struct ExCsvError(csv::Error);

/// The rows that the `csv` crate's reader finds in `data` when fields are
/// parted by `delimiter`, or `None` where it reports an error. The first row
/// is a row like the others. The reader is set up as `ReaderBuilder::new()`
/// leaves it but for the delimiter and the header: fields may be quoted with
/// `"`, and a row with another number of fields than the first is an error.
pub uninterp spec fn csv_records(data: Seq<u8>, delimiter: u8) -> Option<Seq<Seq<Seq<u8>>>>;

/// Runs `csv::Reader::byte_records` over `data`, from a reader built by
/// `csv::ReaderBuilder` with the given delimiter and without a header row,
/// and copies the fields of each record. The contract claims only that what
/// comes back is what `csv_records` names: the rows where every record was
/// read, the reader's first error else.
#[verifier::external_body]
fn read_records(data: &[u8], delimiter: u8) -> (r: Result<Vec<Vec<Vec<u8>>>, csv::Error>)
    ensures
        match r {
            Ok(rows) => csv_records(data@, delimiter) == Some(rows_view(&rows)),
            Err(_) => csv_records(data@, delimiter) is None,
        },
{
    let mut reader = csv::ReaderBuilder::new().delimiter(delimiter).has_headers(false).from_reader(
        data,
    );
    let mut rows: Vec<Vec<Vec<u8>>> = Vec::new();
    for record in reader.byte_records() {
        rows.push(record?.iter().map(|field| field.to_vec()).collect());
    }
    Ok(rows)
}

/// The text of a `csv::Error`, as its `Display` gives it. Nothing is claimed
/// of the text.
#[verifier::external_body]
fn describe(error: &csv::Error) -> (r: String) {
    error.to_string()
}

/// Splits the text of a delimited file into its rows.
///
/// Succeeds with the rows that `csv_records` names; fails with `Io`, and the
/// reader's own words, where the text is malformed.
pub fn parse_records(data: &[u8], delimiter: u8) -> (r: Result<Vec<Vec<Vec<u8>>>, ConvertError>)
    ensures
        match r {
            Ok(rows) => csv_records(data@, delimiter) == Some(rows_view(&rows)),
            Err(e) => csv_records(data@, delimiter) is None && e is Io,
        },
{
    match read_records(data, delimiter) {
        Ok(rows) => Ok(rows),
        Err(error) => Err(ConvertError::Io(describe(&error))),
    }
}

/// Converts a file that is held in memory as text.
///
/// Fails with `Io` where the text is malformed. Else the result is that of
/// `convert_table` on the rows of the text.
pub fn convert_text(data: &[u8], delimiter: u8, has_header: bool, sample_size: usize) -> (r: Result<
    Table,
    ConvertError,
>)
    ensures
        match csv_records(data@, delimiter) {
            None => r matches Err(e) && e is Io,
            Some(records) => match r {
                Ok(table) => converted(records, has_header, sample_size as nat) == Ok::<
                    TableModel,
                    ConvertError,
                >(table@) && table.schema.wf(),
                Err(e) => converted(records, has_header, sample_size as nat) == Err::<
                    TableModel,
                    ConvertError,
                >(e),
            },
        },
{
    match parse_records(data, delimiter) {
        Ok(records) => convert_table(&records, has_header, sample_size),
        Err(e) => Err(e),
    }
}

} // verus!
