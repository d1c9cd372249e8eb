//! Full records as output: the lines of the records that a query or filter found.
use crate::compact::{in_order, sort_strings};
use crate::dotsv::{sorted_place, DotsvFile, FileView};
use crate::error::{ErrorView, Result, TsdbError};
use crate::index::{index_text, push_string, write_index};
use crate::paths::{companion, companion_path};
use crate::relate::{footer_matches, is_current};
use crate::text::{cat2, copy_of, views};
use vstd::prelude::*;

verus! {

/// Where records go.
#[derive(Debug)]
pub enum ShowTarget {
    Stdout,
    File(String),
}

/// The path of the record output of a database file.
pub fn dtv_path(dov_path: &str) -> (r: String)
    ensures
        r@ == companion(dov_path@, ".dtv"@),
{
    companion_path(dov_path, ".dtv")
}

/// Whether a record output need not be written again: it exists and ends with the last line of
/// the database file, and the file with the criteria is older. Moments are numbers that grow with
/// time; one is missing where the criteria cannot be found.
pub fn dtv_is_current(
    dov_ts: &str,
    dtv_ts: &Option<String>,
    criterion_time: Option<u128>,
    dtv_time: u128,
) -> (r: bool)
    ensures
        r == (is_current(*dtv_ts, dov_ts@) && criterion_time is Some && criterion_time->0 < dtv_time),
{
    footer_matches(dtv_ts, dov_ts) && match criterion_time {
        Some(t) => t < dtv_time,
        None => false,
    }
}

/// The lines of the identifiers from `i` on.
pub open spec fn lines_of_uuids(f: FileView, us: Seq<Seq<char>>, i: int) -> core::result::Result<
    Seq<Seq<char>>,
    ErrorView,
>
    decreases us.len() - i,
{
    if i >= us.len() {
        Ok(Seq::empty())
    } else {
        match sorted_place(f, us[i]) {
            Err(_) => Err(
                ErrorView::Other(us[i] + " resolved by index but missing from compacted .dov"@),
            ),
            Ok(k) => match lines_of_uuids(f, us, i + 1) {
                Err(e) => Err(e),
                Ok(rest) => Ok(seq![f.sorted[k]] + rest),
            },
        }
    }
}

/// The lines of the records of identifiers, in increasing order of the identifiers.
pub open spec fn shown_lines(f: FileView, us: Seq<Seq<char>>) -> core::result::Result<
    Seq<Seq<char>>,
    ErrorView,
> {
    if f.pending.len() > 0 {
        Err(
            ErrorView::Other(
                "show requires a fully compacted DotsvFile (pending must be empty)"@,
            ),
        )
    } else {
        lines_of_uuids(f, in_order(us), 0)
    }
}

/// Owned copies of the strings of a slice.
pub(crate) fn copy_slice(v: &[String]) -> (r: Vec<String>)
    ensures
        views(r@) == views(v@),
{
    let mut r: Vec<String> = Vec::new();
    let mut i: usize = 0;
    while i < v.len()
        invariant
            i <= v@.len(),
            views(r@) == views(v@).take(i as int),
        decreases v@.len() - i,
    {
        push_string(&mut r, copy_of(v[i].as_str()));
        assert(views(v@).take(i + 1) == views(v@).take(i as int).push(v@[i as int]@));
        i += 1;
    }
    assert(views(v@).take(v@.len() as int) == views(v@));
    r
}

/// The lines of the records of identifiers, in increasing order of the identifiers. The file must
/// have no pending operations and a record for each identifier.
pub fn collect_record_lines(uuids: &[String], db: &DotsvFile) -> (r: Result<Vec<String>>)
    ensures
        match r {
            Ok(v) => shown_lines(db@, views(uuids@)) == Ok::<Seq<Seq<char>>, ErrorView>(views(v@)),
            Err(e) => shown_lines(db@, views(uuids@)) == Err::<Seq<Seq<char>>, ErrorView>(e@),
        },
{
    if db.pending.len() > 0 {
        return Err(
            TsdbError::Other(
                copy_of("show requires a fully compacted DotsvFile (pending must be empty)"),
            ),
        );
    }
    let us = sort_strings(&copy_slice(uuids));
    let ghost all = in_order(views(uuids@));
    let mut out: Vec<String> = Vec::new();
    let mut i: usize = 0;
    proof {
        match lines_of_uuids(db@, all, 0) {
            Ok(rest) => assert(views(out@) + rest == rest),
            Err(e) => {},
        }
    }
    while i < us.len()
        invariant
            i <= us@.len(),
            views(us@) == all,
            all == in_order(views(uuids@)),
            db@.pending.len() == 0,
            lines_of_uuids(db@, all, 0) == (match lines_of_uuids(db@, all, i as int) {
                Ok(rest) => Ok::<Seq<Seq<char>>, ErrorView>(views(out@) + rest),
                Err(e) => Err(e),
            }),
        decreases us@.len() - i,
    {
        assert(all[i as int] == us@[i as int]@);
        match db.binary_search_uuid(us[i].as_str()) {
            Ok(k) => {
                let ghost before = views(out@);
                assert(db@.sorted[k as int] == db.sorted@[k as int]@);
                push_string(&mut out, copy_of(db.sorted[k].as_str()));
                proof {
                    let l = db@.sorted[k as int];
                    match lines_of_uuids(db@, all, i + 1) {
                        Ok(rest) => assert(before + (seq![l] + rest) == before.push(l) + rest),
                        Err(e) => {},
                    }
                }
            },
            Err(_) => {
                return Err(
                    TsdbError::Other(
                        cat2(
                            us[i].as_str(),
                            " resolved by index but missing from compacted .dov",
                        ),
                    ),
                );
            },
        }
        i += 1;
    }
    assert(views(out@) + Seq::<Seq<char>>::empty() == views(out@));
    Ok(out)
}

/// The text of a record output: the lines and the last line of the database file.
pub fn show_text(records: &[String], footer: &str) -> (r: String)
    ensures
        r@ == index_text(views(records@), footer@),
{
    write_index(copy_slice(records), footer)
}

} // verus!
