//! The inverted indexes with one line for each key and value.
//!
//! `kv.rtv` has a key, a value and the identifiers that have both; `vk.rtv` has value and key
//! exchanged; `uuid.rtv` lists the identifiers. The last line of each is that of the database file.
use crate::dotsv::DotsvFile;
use crate::error::{ErrorView, Result, TsdbError};
use crate::index::{
    collect_triples, grouped_index, grouped_lines, index_text, relate_triples, relation_of,
    set_to_vec, sorted_uuids, triples_from, uuids_from, write_index,
};
use crate::paths::{companion, companion_path};
use crate::sorted::listed;
use crate::text::{blank, cat2, copy_of, is_blank, str_eq, text_lines, text_lines_of, views};
use vstd::prelude::*;

verus! {

/// The path of the index by keys of a database file.
pub fn kv_rtv_path(dov_path: &str) -> (r: String)
    ensures
        r@ == companion(dov_path@, ".kv.rtv"@),
{
    companion_path(dov_path, ".kv.rtv")
}

/// The path of the index by values of a database file.
pub fn vk_rtv_path(dov_path: &str) -> (r: String)
    ensures
        r@ == companion(dov_path@, ".vk.rtv"@),
{
    companion_path(dov_path, ".vk.rtv")
}

/// The path of the list of identifiers of a database file.
pub fn uuid_rtv_path(dov_path: &str) -> (r: String)
    ensures
        r@ == companion(dov_path@, ".uuid.rtv"@),
{
    companion_path(dov_path, ".uuid.rtv")
}

/// The last lines of the three files; nothing for a file that does not exist.
pub struct RtvFooters {
    pub kv: Option<String>,
    pub vk: Option<String>,
    pub uuid: Option<String>,
}

/// The texts of the three files.
#[derive(Debug)]
pub struct Rtvs {
    pub kv: String,
    pub vk: String,
    pub uuid: String,
}

/// Whether a file exists and ends with the line `dov_ts`.
pub open spec fn is_current(last: Option<String>, dov_ts: Seq<char>) -> bool {
    last is Some && last->0@ == dov_ts
}

impl RtvFooters {
    /// Whether all three files are current.
    pub open spec fn current(self, dov_ts: Seq<char>) -> bool {
        is_current(self.kv, dov_ts) && is_current(self.vk, dov_ts) && is_current(self.uuid, dov_ts)
    }
}

/// The texts of the three files by the lines of the sorted section.
pub open spec fn rtv_texts(sorted: Seq<Seq<char>>, dov_ts: Seq<char>) -> core::result::Result<
    (Seq<char>, Seq<char>, Seq<char>),
    ErrorView,
> {
    match triples_from(sorted, 0, false) {
        Err(e) => Err(e),
        Ok(ts) => match uuids_from(sorted, 0) {
            Err(e) => Err(e),
            Ok(us) => Ok(
                (
                    index_text(grouped_lines(relation_of(ts, false)), dov_ts),
                    index_text(grouped_lines(relation_of(ts, true)), dov_ts),
                    index_text(listed(us.to_set()), dov_ts),
                ),
            ),
        },
    }
}

/// Whether a file is current.
pub(crate) fn footer_matches(last: &Option<String>, dov_ts: &str) -> (r: bool)
    ensures
        r == is_current(*last, dov_ts@),
{
    match last {
        Some(s) => str_eq(s.as_str(), dov_ts),
        None => false,
    }
}

/// The texts of the three files of a compacted database, or nothing where all three are current.
/// `dov_ts` is the last line of the database file.
pub fn generate_rtvs(db: &DotsvFile, dov_ts: &str, existing: &RtvFooters) -> (r: Result<Option<Rtvs>>)
    ensures
        match r {
            Err(e) => if db@.pending.len() > 0 {
                e@ == ErrorView::Other(
                    "generate_rtvs requires a fully compacted DotsvFile (pending section must be empty)"@,
                )
            } else {
                !existing.current(dov_ts@) && rtv_texts(db@.sorted, dov_ts@) == Err::<
                    (Seq<char>, Seq<char>, Seq<char>),
                    ErrorView,
                >(e@)
            },
            Ok(None) => db@.pending.len() == 0 && existing.current(dov_ts@),
            Ok(Some(t)) => db@.pending.len() == 0 && !existing.current(dov_ts@) && rtv_texts(
                db@.sorted,
                dov_ts@,
            ) == Ok::<(Seq<char>, Seq<char>, Seq<char>), ErrorView>((t.kv@, t.vk@, t.uuid@)),
        },
{
    if db.pending.len() > 0 {
        return Err(
            TsdbError::Other(
                copy_of(
                    "generate_rtvs requires a fully compacted DotsvFile (pending section must be empty)",
                ),
            ),
        );
    }
    if footer_matches(&existing.kv, dov_ts) && footer_matches(&existing.vk, dov_ts)
        && footer_matches(&existing.uuid, dov_ts) {
        return Ok(None);
    }
    let ts = match collect_triples(db, false) {
        Ok(ts) => ts,
        Err(e) => {
            return Err(e);
        },
    };
    let us = match sorted_uuids(db) {
        Ok(us) => us,
        Err(e) => {
            return Err(e);
        },
    };
    let kv = write_index(grouped_index(&relate_triples(&ts, false)), dov_ts);
    let vk = write_index(grouped_index(&relate_triples(&ts, true)), dov_ts);
    let uuid = write_index(set_to_vec(&us), dov_ts);
    Ok(Some(Rtvs { kv, vk, uuid }))
}

/// The last of the lines that is not blank.
pub open spec fn last_filled(ls: Seq<Seq<char>>) -> Option<Seq<char>>
    decreases ls.len(),
{
    if ls.len() == 0 {
        None
    } else if !is_blank(ls.last()) {
        Some(ls.last())
    } else {
        last_filled(ls.drop_last())
    }
}

/// The last line of a text that is not blank. `path` names the file in the error.
pub fn last_nonempty_line(content: &str, path: &str) -> (r: Result<String>)
    ensures
        match r {
            Ok(s) => last_filled(text_lines(content@)) == Some(s@),
            Err(e) => last_filled(text_lines(content@)) is None && e@ == ErrorView::Other(
                "file has no content: "@ + path@,
            ),
        },
{
    let ls = text_lines_of(content);
    let ghost all = text_lines(content@);
    let mut n: usize = ls.len();
    assert(all.take(n as int) == all);
    while n > 0
        invariant
            n <= ls@.len(),
            views(ls@) == all,
            all == text_lines(content@),
            last_filled(all) == last_filled(all.take(n as int)),
        decreases n,
    {
        assert(all.take(n as int).last() == ls@[n - 1]@);
        assert(all.take(n as int).drop_last() == all.take(n - 1));
        if !blank(ls[n - 1].as_str()) {
            return Ok(copy_of(ls[n - 1].as_str()));
        }
        n -= 1;
    }
    Err(TsdbError::Other(cat2("file has no content: ", path)))
}

} // verus!
