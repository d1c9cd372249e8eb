//! The flat indexes with one line for each key, value and identifier.
//!
//! `kv.ptv` has a key, a value and an identifier in each line; `vk.ptv` has value and key
//! exchanged; `uuid.ptv` lists the identifiers; `ord.ptv` orders the numbers and `kt.ptv` has the
//! types of the keys. A value in array form counts as its elements, except for its type.
use crate::dotsv::DotsvFile;
use crate::error::{ErrorView, Result, TsdbError};
use crate::index::{
    collect_triples, flat_lines, index_text, push_flat_index, relate_triples, relation_of, set_to_vec,
    sorted_uuids, triples_from, uuids_from, write_index,
};
use crate::keytype::{generate_kt_ptv, kt_text};
use crate::order::{generate_ord_ptv, ord_text};
use crate::paths::{companion, companion_path};
use crate::relate::{footer_matches, is_current};
use crate::sorted::listed;
use crate::text::{copy_of, views};
use vstd::prelude::*;

verus! {

/// The path of the flat index by keys of a database file.
pub fn kv_ptv_path(dov_path: &str) -> (r: String)
    ensures
        r@ == companion(dov_path@, ".kv.ptv"@),
{
    companion_path(dov_path, ".kv.ptv")
}

/// The path of the flat index by values of a database file.
pub fn vk_ptv_path(dov_path: &str) -> (r: String)
    ensures
        r@ == companion(dov_path@, ".vk.ptv"@),
{
    companion_path(dov_path, ".vk.ptv")
}

/// The path of the flat list of identifiers of a database file.
pub fn uuid_ptv_path(dov_path: &str) -> (r: String)
    ensures
        r@ == companion(dov_path@, ".uuid.ptv"@),
{
    companion_path(dov_path, ".uuid.ptv")
}

/// The last lines of the five files; nothing for a file that does not exist.
pub struct PtvFooters {
    pub kv: Option<String>,
    pub vk: Option<String>,
    pub uuid: Option<String>,
    pub ord: Option<String>,
    pub kt: Option<String>,
}

impl PtvFooters {
    /// Whether all five files are current.
    pub open spec fn current(self, dov_ts: Seq<char>) -> bool {
        is_current(self.kv, dov_ts) && is_current(self.vk, dov_ts) && is_current(self.uuid, dov_ts)
            && is_current(self.ord, dov_ts) && is_current(self.kt, dov_ts)
    }
}

/// The texts of the five files.
#[derive(Debug)]
pub struct Ptvs {
    pub kv: String,
    pub vk: String,
    pub uuid: String,
    pub ord: String,
    pub kt: String,
}

/// The texts of the first three files by the lines of the sorted section.
pub open spec fn ptv_texts(sorted: Seq<Seq<char>>, dov_ts: Seq<char>) -> core::result::Result<
    (Seq<char>, Seq<char>, Seq<char>),
    ErrorView,
> {
    match triples_from(sorted, 0, true) {
        Err(e) => Err(e),
        Ok(ts) => match uuids_from(sorted, 0) {
            Err(e) => Err(e),
            Ok(us) => Ok(
                (
                    index_text(flat_lines(Seq::empty(), relation_of(ts, false)), dov_ts),
                    index_text(flat_lines(Seq::empty(), relation_of(ts, true)), dov_ts),
                    index_text(listed(us.to_set()), dov_ts),
                ),
            ),
        },
    }
}

/// The text of a flat index.
fn flat_index(ts: &Vec<crate::index::Triple>, swapped: bool, dov_ts: &str) -> (r: String)
    ensures
        r@ == index_text(
            flat_lines(
                Seq::empty(),
                relation_of(crate::index::triple_views(ts@), swapped),
            ),
            dov_ts@,
        ),
{
    let m = relate_triples(ts, swapped);
    let mut rows: Vec<String> = Vec::new();
    let head = String::new();
    push_flat_index(&mut rows, head.as_str(), &m);
    proof {
        assert(head@ == Seq::<char>::empty());
        assert(views(rows@) == flat_lines(Seq::<char>::empty(), m@));
    }
    write_index(rows, dov_ts)
}

/// Why the indexes of a file with pending operations are refused.
pub open spec fn pending_error() -> ErrorView {
    ErrorView::Other(
        "generate_ptvs requires a fully compacted DotsvFile (pending section must be empty)"@,
    )
}

/// The texts of the five files of a compacted database, or nothing where all five are current.
/// `dov_ts` is the last line of the database file.
pub fn generate_ptvs(db: &DotsvFile, dov_ts: &str, existing: &PtvFooters) -> (r: Result<Option<Ptvs>>)
    ensures
        match r {
            Err(e) => if db@.pending.len() > 0 {
                e@ == pending_error()
            } else {
                !existing.current(dov_ts@) && ptv_texts(db@.sorted, dov_ts@) == Err::<
                    (Seq<char>, Seq<char>, Seq<char>),
                    ErrorView,
                >(e@)
            },
            Ok(None) => db@.pending.len() == 0 && existing.current(dov_ts@),
            Ok(Some(t)) => {
                &&& db@.pending.len() == 0
                &&& !existing.current(dov_ts@)
                &&& ptv_texts(db@.sorted, dov_ts@) == Ok::<
                    (Seq<char>, Seq<char>, Seq<char>),
                    ErrorView,
                >((t.kv@, t.vk@, t.uuid@))
                &&& ord_text(db@, dov_ts@) == Ok::<Seq<char>, ErrorView>(t.ord@)
                &&& kt_text(db@, dov_ts@) == Ok::<Seq<char>, ErrorView>(t.kt@)
            },
        },
{
    if db.pending.len() > 0 {
        return Err(
            TsdbError::Other(
                copy_of(
                    "generate_ptvs requires a fully compacted DotsvFile (pending section must be empty)",
                ),
            ),
        );
    }
    if footer_matches(&existing.kv, dov_ts) && footer_matches(&existing.vk, dov_ts)
        && footer_matches(&existing.uuid, dov_ts) && footer_matches(&existing.ord, dov_ts)
        && footer_matches(&existing.kt, dov_ts) {
        return Ok(None);
    }
    let ts = match collect_triples(db, true) {
        Ok(ts) => ts,
        Err(e) => {
            return Err(e);
        },
    };
    let us = match sorted_uuids(db) {
        Ok(us) => us,
        Err(e) => {
            return Err(e);
        },
    };
    let kv = flat_index(&ts, false, dov_ts);
    let vk = flat_index(&ts, true, dov_ts);
    let uuid = write_index(set_to_vec(&us), dov_ts);
    let ord = match generate_ord_ptv(db, dov_ts) {
        Ok(t) => t,
        Err(e) => {
            return Err(e);
        },
    };
    proof {
        crate::index::lemma_triples_unexpanded(db@.sorted, 0);
    }
    let kt = match generate_kt_ptv(db, dov_ts) {
        Ok(t) => t,
        Err(e) => {
            return Err(e);
        },
    };
    Ok(Some(Ptvs { kv, vk, uuid, ord, kt }))
}

} // verus!
