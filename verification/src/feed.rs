//! Decoding the downloaded vulnerability feed.
//!
//! The feed is a tabular document with a `Package` column and a `Version`
//! column, the latter holding `||`-joined version specifiers.  The
//! surrounding program fetches the document; turning its text into feed
//! records — locating the two columns and decoding each row — happens
//! here, with only the table syntax itself read by an outside parser.

use vstd::prelude::*;

use crate::package::{PackageVulnerableRecord, VulnerableRecordView};
use crate::versions::{split_versions, split_versions_spec};

verus! {

/// The table encoded by a CSV document: its header row and its records,
/// or `None` when the text is not a well-formed table.  The table is a
/// fixed function of the text alone; it is given no definition here and
/// everything proved about feed decoding holds for whatever table the
/// outside parser yields.
pub uninterp spec fn csv_table_of(s: Seq<char>) -> Option<(Seq<Seq<char>>, Seq<Seq<Seq<char>>>)>;

/// Relies on csv 1.x: `Reader::headers` and `Reader::records` parse a CSV
/// document deterministically into a header row and records, erring on
/// malformed rows (inconsistent field counts included, since the reader is
/// not flexible).
#[verifier::external_body]
fn csv_table(text: &String) -> (r: Option<(Vec<String>, Vec<Vec<String>>)>)
    ensures
        match r {
            Some(t) => csv_table_of(text@) == Some((t.0.deep_view(), t.1.deep_view())),
            None => csv_table_of(text@) is None,
        },
{
    let mut reader = csv::ReaderBuilder::new().from_reader(text.as_bytes());
    let headers: Vec<String> = match reader.headers() {
        Ok(h) => h.iter().map(|f| f.to_string()).collect(),
        Err(_) => return None,
    };
    let mut rows: Vec<Vec<String>> = Vec::new();
    for record in reader.records() {
        match record {
            Ok(rec) => rows.push(rec.iter().map(|f| f.to_string()).collect()),
            Err(_) => return None,
        }
    }
    Some((headers, rows))
}

/// The first position of `name` among the headers, or `-1`.
pub open spec fn first_index_of(headers: Seq<Seq<char>>, name: Seq<char>) -> int
    decreases headers.len(),
{
    if headers.len() == 0 {
        -1
    } else if headers.first() == name {
        0
    } else {
        let r = first_index_of(headers.drop_first(), name);
        if r < 0 {
            -1
        } else {
            r + 1
        }
    }
}

proof fn lemma_first_index_of_at(headers: Seq<Seq<char>>, name: Seq<char>, i: int)
    requires
        0 <= i <= headers.len(),
        forall|t: int| 0 <= t < i ==> headers[t] != name,
        i == headers.len() || headers[i] == name,
    ensures
        first_index_of(headers, name) == if i == headers.len() {
            -1int
        } else {
            i
        },
    decreases i,
{
    if headers.len() == 0 {
    } else if i == 0 {
    } else {
        let d = headers.drop_first();
        assert forall|t: int| 0 <= t < i - 1 implies d[t] != name by {
            assert(d[t] == headers[t + 1]);
        }
        if i < headers.len() {
            assert(d[i - 1] == headers[i]);
        }
        lemma_first_index_of_at(d, name, i - 1);
    }
}

/// The feed records encoded by a table: `None` without both columns, or
/// when a row is too short for them; otherwise one record per row, with
/// the version list decoded.
pub open spec fn feed_from_table_spec(
    headers: Seq<Seq<char>>,
    rows: Seq<Seq<Seq<char>>>,
) -> Option<Seq<VulnerableRecordView>> {
    let pi = first_index_of(headers, "Package"@);
    let vi = first_index_of(headers, "Version"@);
    if pi < 0 || vi < 0 {
        None
    } else if exists|i: int| 0 <= i < rows.len()
        && ((#[trigger] rows[i]).len() <= pi || rows[i].len() <= vi) {
        None
    } else {
        Some(rows.map_values(|row: Seq<Seq<char>>| VulnerableRecordView {
            package: row[pi],
            version: split_versions_spec(row[vi]),
        }))
    }
}

/// Finds the first header equal to `name`.
fn find_header(headers: &Vec<String>, name: &String) -> (r: Option<usize>)
    ensures
        match r {
            Some(i) => first_index_of(headers.deep_view(), name@) == i
                && i < headers@.len(),
            None => first_index_of(headers.deep_view(), name@) == -1,
        },
{
    let n = headers.len();
    let mut i: usize = 0;
    while i < n
        invariant
            n == headers@.len(),
            0 <= i <= n,
            forall|t: int| 0 <= t < i ==> headers.deep_view()[t] != name@,
        decreases n - i,
    {
        if headers[i] == *name {
            proof {
                assert(headers.deep_view()[i as int] == name@);
                lemma_first_index_of_at(headers.deep_view(), name@, i as int);
            }
            return Some(i);
        }
        i += 1;
    }
    proof {
        lemma_first_index_of_at(headers.deep_view(), name@, n as int);
    }
    None
}

/// Builds the feed records from a decoded table.
fn feed_from_rows(headers: &Vec<String>, rows: &Vec<Vec<String>>) -> (r: Option<
    Vec<PackageVulnerableRecord>>)
    ensures
        match r {
            Some(records) => feed_from_table_spec(headers.deep_view(), rows.deep_view())
                == Some(records.deep_view()),
            None => feed_from_table_spec(headers.deep_view(), rows.deep_view()) is None,
        },
{
    let pkg_name = "Package".to_owned();
    let ver_name = "Version".to_owned();
    let pi = match find_header(headers, &pkg_name) {
        Some(i) => i,
        None => {
            return None;
        },
    };
    let vi = match find_header(headers, &ver_name) {
        Some(i) => i,
        None => {
            return None;
        },
    };
    let ghost f = |row: Seq<Seq<char>>| VulnerableRecordView {
        package: row[pi as int],
        version: split_versions_spec(row[vi as int]),
    };
    let n = rows.len();
    let mut records: Vec<PackageVulnerableRecord> = Vec::new();
    let mut i: usize = 0;
    proof {
        assert(records.deep_view() =~= rows.deep_view().take(0).map_values(f));
    }
    while i < n
        invariant
            n == rows@.len(),
            0 <= i <= n,
            pi < headers@.len(),
            vi < headers@.len(),
            first_index_of(headers.deep_view(), "Package"@) == pi,
            first_index_of(headers.deep_view(), "Version"@) == vi,
            f == (|row: Seq<Seq<char>>| VulnerableRecordView {
                package: row[pi as int],
                version: split_versions_spec(row[vi as int]),
            }),
            records.deep_view() == rows.deep_view().take(i as int).map_values(f),
            forall|t: int| 0 <= t < i ==> (#[trigger] rows.deep_view()[t]).len() > pi
                && rows.deep_view()[t].len() > vi,
        decreases n - i,
    {
        let row = &rows[i];
        proof {
            assert(rows.deep_view()[i as int] == row.deep_view());
        }
        if row.len() <= pi || row.len() <= vi {
            proof {
                assert(rows.deep_view()[i as int].len() <= pi
                    || rows.deep_view()[i as int].len() <= vi);
            }
            return None;
        }
        let record = PackageVulnerableRecord {
            package: row[pi].clone(),
            version: split_versions(row[vi].as_str()),
        };
        let ghost prev_out = records.deep_view();
        let ghost prev_raw = records@;
        proof {
            assert(record@ == f(rows.deep_view()[i as int]));
        }
        records.push(record);
        proof {
            assert(prev_out.len() == prev_raw.len());
            assert(prev_out.len() == i as int);
            assert forall|j: int| 0 <= j < i + 1 implies
                records.deep_view()[j] == rows.deep_view().take(i + 1).map_values(f)[j] by {
                if j < i {
                    assert(records@[j] == prev_raw[j]);
                    assert(records.deep_view()[j] == prev_out[j]);
                    assert(prev_out[j] == rows.deep_view().take(i as int).map_values(f)[j]);
                }
            }
            assert(records.deep_view() =~= rows.deep_view().take(i + 1).map_values(f));
        }
        i += 1;
    }
    proof {
        assert(rows.deep_view().take(n as int) =~= rows.deep_view());
        assert(records.deep_view() =~= rows.deep_view().map_values(f));
        if exists|t: int| 0 <= t < rows.deep_view().len()
            && ((#[trigger] rows.deep_view()[t]).len() <= pi
                || rows.deep_view()[t].len() <= vi) {
            let t = choose|t: int| 0 <= t < rows.deep_view().len()
                && ((#[trigger] rows.deep_view()[t]).len() <= pi
                    || rows.deep_view()[t].len() <= vi);
        }
        assert(feed_from_table_spec(headers.deep_view(), rows.deep_view())
            =~= Some(records.deep_view()));
    }
    Some(records)
}

/// Decodes the downloaded feed document into vulnerability records, or
/// `None` when the document is not a well-formed table with `Package` and
/// `Version` columns.
pub fn parse_affected_packages(text: &String) -> (r: Option<Vec<PackageVulnerableRecord>>)
    ensures
        match r {
            Some(records) => {
                &&& csv_table_of(text@) matches Some(t)
                &&& feed_from_table_spec(t.0, t.1) == Some(records.deep_view())
            },
            None => csv_table_of(text@) is None || (csv_table_of(text@) matches Some(t)
                && feed_from_table_spec(t.0, t.1) is None),
        },
{
    match csv_table(text) {
        None => None,
        Some((headers, rows)) => feed_from_rows(&headers, &rows),
    }
}

} // verus!
