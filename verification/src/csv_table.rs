//! Reading delimited text with the `csv` crate.
use vstd::prelude::*;
use crate::game_types::strings_view;

verus! {

#[verifier::external_type_specification]
#[verifier::external_body]
pub struct ExCsvError(csv::Error);

/// What a `csv` reader with the field delimiter `delimiter`, and the crate's
/// defaults otherwise (the first row is a header and is not a record; all
/// records have as many fields as the first row), reads from `text`: the
/// fields of the records before the first error, and whether an error
/// stopped the reading.
pub uninterp spec fn csv_read(text: Seq<u8>, delimiter: u8) -> (Seq<Seq<Seq<char>>>, bool);

/// The texts of the fields of rows of strings.
pub open spec fn rows_view(rows: Seq<Vec<String>>) -> Seq<Seq<Seq<char>>> {
    rows.map_values(|r: Vec<String>| strings_view(r@))
}

/// Errors of reading the map's tables.
#[derive(Debug)]
pub enum ReadError {
    Csv(csv::Error),
}

/// Reads the records of `text` with `csv::ReaderBuilder` (with the field
/// delimiter `delimiter`) and `records()`, up to the first error. The
/// contract claims that the records read, and whether an error stopped the
/// reading, are a function of the text and the delimiter alone (named
/// `csv_read`); what the error holds is left unsaid.
#[verifier::external_body]
pub(crate) fn read_csv(text: &[u8], delimiter: u8) -> (res: (Vec<Vec<String>>, Option<csv::Error>))
    ensures
        rows_view(res.0@) == csv_read(text@, delimiter).0,
        (res.1 is Some) == csv_read(text@, delimiter).1,
{
    let mut rdr = csv::ReaderBuilder::new().delimiter(delimiter).from_reader(text);
    let mut rows: Vec<Vec<String>> = Vec::new();
    for result in rdr.records() {
        match result {
            Ok(record) => rows.push(record.iter().map(|f| f.to_string()).collect()),
            Err(e) => return (rows, Some(e)),
        }
    }
    (rows, None)
}

/// The texts of the fields of `rows`, row by row, are as many as the rows.
pub proof fn lemma_rows_view(rows: Seq<Vec<String>>)
    ensures
        rows_view(rows).len() == rows.len(),
        forall|k: int| 0 <= k < rows.len() ==> #[trigger] rows_view(rows)[k] == strings_view(rows[k]@),
{
}

} // verus!
