//! Bounded tabular preview of delimited-text input: the header row and the
//! first few data rows, parsed by the csv crate.

use vstd::prelude::*;

verus! {

/// What the csv crate makes of a delimited text: `Some` of its header record
/// followed by every data record, each a list of fields, where the whole text
/// is well-formed; `None` where reading any record fails.  Both the outcome
/// and the records are a function of the text alone.
pub uninterp spec fn csv_parse_of(s: Seq<char>) -> Option<Seq<Seq<Seq<char>>>>;

/// Relies on `csv::ReaderBuilder` and `csv::Reader` of the csv crate:
/// reading the header and the records of an in-memory text.  The reader draws
/// from a byte slice, so no input error can occur, and whether it accepts the
/// text, like what it reads, depends on the text alone.  A malformed text
/// gives the reader's message.
#[verifier::external_body]
fn read_csv_records(text: &str) -> (r: Result<Vec<Vec<String>>, String>)
    ensures
        r is Ok <==> csv_parse_of(text@) is Some,
        r matches Ok(rows) ==> Some(rows.deep_view()) == csv_parse_of(text@),
{
    let mut rdr = csv::ReaderBuilder::new().has_headers(true).from_reader(text.as_bytes());
    let mut rows: Vec<Vec<String>> = Vec::new();
    match rdr.headers() {
        Ok(h) => rows.push(h.iter().map(|f| f.to_string()).collect()),
        Err(e) => return Err(format!("{}", e)),
    }
    for rec in rdr.records() {
        match rec {
            Ok(r) => rows.push(r.iter().map(|f| f.to_string()).collect()),
            Err(e) => return Err(format!("{}", e)),
        }
    }
    Ok(rows)
}

/// A row with the same fields.
fn clone_row(row: &Vec<String>) -> (r: Vec<String>)
    ensures
        r.deep_view() == row.deep_view(),
{
    let mut r: Vec<String> = Vec::new();
    let mut i: usize = 0;
    while i < row.len()
        invariant
            i <= row@.len(),
            r.deep_view() =~= row.deep_view().take(i as int),
        decreases row@.len() - i,
    {
        let ghost pre = r.deep_view();
        let s = row[i].clone();
        r.push(s);
        proof {
            assert(r.deep_view() =~= pre.push(s.deep_view()));
            assert(row.deep_view().take(i as int + 1) =~= row.deep_view().take(i as int).push(
                row.deep_view()[i as int],
            ));
        }
        i = i + 1;
    }
    proof {
        assert(row.deep_view().take(row@.len() as int) =~= row.deep_view());
    }
    r
}

/// The first rows of a parsed table: the header row and at most `limit`
/// data rows, in order.
pub fn preview_rows(rows: &Vec<Vec<String>>, limit: usize) -> (r: Vec<Vec<String>>)
    ensures
        r@.len() <= limit + 1,
        r.deep_view() == rows.deep_view().take(r@.len() as int),
        r@.len() == if rows@.len() <= limit {
            rows@.len() as int
        } else {
            limit as int + 1
        },
{
    let n = rows.len();
    let m = if n <= limit {
        n
    } else {
        limit + 1
    };
    let mut r: Vec<Vec<String>> = Vec::new();
    let mut i: usize = 0;
    while i < m
        invariant
            m <= rows@.len(),
            i <= m,
            r.deep_view() =~= rows.deep_view().take(i as int),
            r@.len() == i,
        decreases m - i,
    {
        let ghost pre = r.deep_view();
        let row = clone_row(&rows[i]);
        proof {
            assert(row.deep_view() == rows.deep_view()[i as int]);
        }
        r.push(row);
        proof {
            assert(r.deep_view() =~= pre.push(row.deep_view()));
            assert(rows.deep_view().take(i as int + 1) =~= rows.deep_view().take(i as int).push(
                rows.deep_view()[i as int],
            ));
        }
        i = i + 1;
    }
    r
}

/// The bounded tabular preview of a delimited text: its header row and its
/// first `limit` data rows, as the csv crate reads them.  The preview
/// succeeds exactly when the whole text is well-formed; a malformed text
/// gives the reader's message instead.
pub fn csv_preview(text: &str, limit: usize) -> (r: Result<Vec<Vec<String>>, String>)
    ensures
        r is Ok <==> csv_parse_of(text@) is Some,
        r matches Ok(rows) ==> csv_parse_of(text@) matches Some(all) && rows.deep_view()
            == all.take(
            if all.len() <= limit {
                all.len() as int
            } else {
                limit as int + 1
            },
        ),
{
    match read_csv_records(text) {
        Ok(rows) => {
            let r = preview_rows(&rows, limit);
            proof {
                assert(rows.deep_view().len() == rows@.len());
            }
            Ok(r)
        },
        Err(e) => Err(e),
    }
}

} // verus!
