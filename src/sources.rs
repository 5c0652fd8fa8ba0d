//! Row sources: delimited text read by the `csv` crate, and random draws from
//! the `rand` crate.
use crate::names::views;
use rand::Rng;
use vstd::prelude::*;

verus! {

/// The header row that the `csv` reader finds in a text, if it can read one.
pub uninterp spec fn csv_header_of(content: Seq<char>) -> Option<Seq<Seq<char>>>;

/// The records that the `csv` reader finds after the header row of a text,
/// each absent where the reader reports an error for it.
pub uninterp spec fn csv_records_of(content: Seq<char>) -> Seq<Option<Seq<Seq<char>>>>;

/// The cell views of a record that was read, if it was.
pub open spec fn record_view(o: Option<Vec<String>>) -> Option<Seq<Seq<char>>> {
    match o {
        Some(v) => Some(views(v@)),
        None => None,
    }
}

/// Relies on `csv::Reader::headers` (with `has_headers(true)`): the header
/// row, or `None` where the reader reports an error.
#[verifier::external_body]
pub fn read_csv_header(content: &str) -> (r: Option<Vec<String>>)
    ensures
        record_view(r) == csv_header_of(content@),
{
    let mut rdr = csv::ReaderBuilder::new().has_headers(true).from_reader(content.as_bytes());
    match rdr.headers() {
        Ok(h) => Some(h.iter().map(|s| s.to_string()).collect()),
        Err(_) => None,
    }
}

/// Relies on `csv::Reader::records` (with `has_headers(true)`): the records
/// after the header row, in order, each `None` where the reader reports an
/// error for it.
#[verifier::external_body]
pub fn read_csv_records(content: &str) -> (r: Vec<Option<Vec<String>>>)
    ensures
        r@.map_values(|o: Option<Vec<String>>| record_view(o)) == csv_records_of(content@),
{
    let mut rdr = csv::ReaderBuilder::new().has_headers(true).from_reader(content.as_bytes());
    rdr.records().map(|res| res.ok().map(|rec| rec.iter().map(|s| s.to_string()).collect())).collect()
}

/// Relies on `rand::Rng::gen_range` over `thread_rng`: a number below `n`
/// (the range is not empty, so the call does not panic).
#[verifier::external_body]
pub fn random_below(n: usize) -> (r: usize)
    requires
        n > 0,
    ensures
        r < n,
{
    rand::thread_rng().gen_range(0..n)
}

} // verus!
