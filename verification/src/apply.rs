//! Actions applied to a database file.
use crate::action::{action_views, Action, ActionView, Opcode};
use crate::compact::merged;
use crate::dotsv::{holds, sorted_place, unmentioned, DotsvFile, FileView};
use crate::error::{outcome, ErrorView, Result, TsdbError};
use crate::fields::keys_of;
use crate::record::{
    field_texts, patched, record_line, record_of, spaces, tombstone, write_fields,
    Record,
};
use crate::sorted::StringSet;
use crate::text::{byte_len, byte_len_of, cat2, cat4, copy_of, dec, dec_of, join, join_with, str_eq, views};
use vstd::prelude::*;

verus! {

/// `s` with spaces behind it, up to `n` bytes.
pub open spec fn padded(s: Seq<char>, n: nat) -> Seq<char> {
    s + spaces(if byte_len(s) < n { (n - byte_len(s)) as nat } else { 0 })
}

/// The pending line of a patch.
pub open spec fn patch_line(uuid: Seq<char>, m: Map<Seq<char>, Seq<char>>) -> Seq<char> {
    "~"@ + uuid + "\t"@ + join(field_texts(m), "\t"@)
}

/// The pending line of an insertion.
pub open spec fn insert_line(uuid: Seq<char>, m: Map<Seq<char>, Seq<char>>) -> Seq<char> {
    "+"@ + record_line(uuid, m)
}

/// The pending line of a deletion.
pub open spec fn delete_line(uuid: Seq<char>) -> Seq<char> {
    "-"@ + uuid
}

/// The file with one more pending line.
pub open spec fn with_pending(f: FileView, line: Seq<char>) -> FileView {
    FileView { sorted: f.sorted, pending: f.pending.push(line) }
}

/// The file with another line at place `i` of the sorted section, padded to the bytes of the old
/// one.
pub open spec fn with_sorted_line(f: FileView, i: int, line: Seq<char>) -> FileView {
    FileView { sorted: f.sorted.update(i, padded(line, byte_len(f.sorted[i]))), pending: f.pending }
}

/// Whether a patch sets no field.
pub open spec fn only_removes(patch: Map<Seq<char>, Seq<char>>) -> bool {
    forall|k: Seq<char>| #[trigger] patch.contains_key(k) ==> patch[k] == tombstone()
}

/// Why a patch that leaves no field is refused, with its line in the action file.
pub open spec fn emptied_error(a: ActionView) -> ErrorView {
    ErrorView::Other(
        "line "@ + dec(a.line_no as nat) + ": patch would remove all fields from record "@ + a.uuid,
    )
}

/// Whether a patch leaves no field of a record that pending lines are about.
pub open spec fn patch_empties(f: FileView, a: ActionView) -> core::result::Result<bool, ErrorView> {
    if !only_removes(a.fields) {
        Ok(false)
    } else {
        match merged(f) {
            Err(e) => Err(e),
            Ok(m) => Ok(
                m.live(a.uuid) && patched((m.records[a.uuid]->0).fields, a.fields) == Map::<
                    Seq<char>,
                    Seq<char>,
                >::empty(),
            ),
        }
    }
}

/// The file after a patch of a record that pending lines are about.
pub open spec fn patch_appended(f: FileView, a: ActionView) -> core::result::Result<
    FileView,
    ErrorView,
> {
    match patch_empties(f, a) {
        Err(e) => Err(e),
        Ok(true) => Err(emptied_error(a)),
        Ok(false) => Ok(with_pending(f, patch_line(a.uuid, a.fields))),
    }
}

/// The file after a patch of the record at place `i` of the sorted section.
pub open spec fn patch_in_place(f: FileView, a: ActionView, i: int) -> core::result::Result<
    FileView,
    ErrorView,
> {
    match record_of(f.sorted[i], 0) {
        Err(e) => Err(e),
        Ok(r) => {
            let fields = patched(r.fields, a.fields);
            let line = record_line(r.uuid, fields);
            if fields == Map::<Seq<char>, Seq<char>>::empty() {
                Err(emptied_error(a))
            } else if byte_len(line) <= byte_len(f.sorted[i]) {
                Ok(with_sorted_line(f, i, line))
            } else {
                Ok(with_pending(f, patch_line(a.uuid, a.fields)))
            }
        },
    }
}

/// The file after a patch.
pub open spec fn patch_applied(f: FileView, a: ActionView) -> core::result::Result<
    FileView,
    ErrorView,
> {
    match sorted_place(f, a.uuid) {
        Ok(i) => if unmentioned(f, a.uuid) {
            patch_in_place(f, a, i)
        } else {
            patch_appended(f, a)
        },
        Err(_) => patch_appended(f, a),
    }
}

/// The file after an upsert. A line without fields cannot be padded, so it is never written in
/// place.
pub open spec fn upsert_applied(f: FileView, a: ActionView) -> FileView {
    let line = record_line(a.uuid, a.fields);
    match sorted_place(f, a.uuid) {
        Ok(i) => if unmentioned(f, a.uuid) && a.fields != Map::<Seq<char>, Seq<char>>::empty()
            && byte_len(line) <= byte_len(f.sorted[i]) {
            with_sorted_line(f, i, line)
        } else {
            with_pending(f, insert_line(a.uuid, a.fields))
        },
        Err(_) => with_pending(f, insert_line(a.uuid, a.fields)),
    }
}

/// The file after one action, or why the action fails.
pub open spec fn applied(f: FileView, a: ActionView) -> core::result::Result<FileView, ErrorView> {
    match a.opcode {
        Opcode::Append => if holds(f, a.uuid) {
            Err(ErrorView::DuplicateUuid { line: a.line_no, uuid: a.uuid })
        } else {
            Ok(with_pending(f, insert_line(a.uuid, a.fields)))
        },
        Opcode::Delete => if !holds(f, a.uuid) {
            Err(ErrorView::MissingUuid { line: a.line_no, uuid: a.uuid })
        } else {
            Ok(with_pending(f, delete_line(a.uuid)))
        },
        Opcode::Patch => if !holds(f, a.uuid) {
            Err(ErrorView::MissingUuid { line: a.line_no, uuid: a.uuid })
        } else {
            patch_applied(f, a)
        },
        Opcode::Upsert => Ok(upsert_applied(f, a)),
    }
}

/// The file after the actions from `i` on, up to the first that fails, and how it ended.
pub open spec fn applied_from(f: FileView, actions: Seq<ActionView>, i: int) -> (
    FileView,
    core::result::Result<(), ErrorView>,
)
    decreases actions.len() - i,
{
    if i >= actions.len() {
        (f, Ok(()))
    } else {
        match applied(f, actions[i]) {
            Err(e) => (f, Err(e)),
            Ok(g) => applied_from(g, actions, i + 1),
        }
    }
}

/// Whether the identifier is there as far as validation has followed the actions.
pub open spec fn present(
    f: FileView,
    uuid: Seq<char>,
    added: Set<Seq<char>>,
    deleted: Set<Seq<char>>,
) -> bool {
    (holds(f, uuid) || added.contains(uuid)) && !deleted.contains(uuid)
}

/// `Ok` if no action from `i` on conflicts, with the identifiers added and deleted so far.
pub open spec fn validated_from(
    f: FileView,
    actions: Seq<ActionView>,
    i: int,
    added: Set<Seq<char>>,
    deleted: Set<Seq<char>>,
) -> core::result::Result<(), ErrorView>
    decreases actions.len() - i,
{
    if i >= actions.len() {
        Ok(())
    } else {
        let u = actions[i].uuid;
        let there = present(f, u, added, deleted);
        match actions[i].opcode {
            Opcode::Append => if there {
                Err(ErrorView::DuplicateUuid { line: actions[i].line_no, uuid: u })
            } else {
                validated_from(f, actions, i + 1, added.insert(u), deleted.remove(u))
            },
            Opcode::Delete => if !there {
                Err(ErrorView::MissingUuid { line: actions[i].line_no, uuid: u })
            } else {
                validated_from(f, actions, i + 1, added.remove(u), deleted.insert(u))
            },
            Opcode::Patch => if !there {
                Err(ErrorView::MissingUuid { line: actions[i].line_no, uuid: u })
            } else {
                validated_from(f, actions, i + 1, added, deleted)
            },
            Opcode::Upsert => validated_from(f, actions, i + 1, added.insert(u), deleted.remove(u)),
        }
    }
}

/// `s` with spaces behind it, up to `n` bytes.
fn pad(s: String, n: usize) -> (r: String)
    ensures
        r@ == padded(s@, n as nat),
{
    let mut r = copy_of(s.as_str());
    let mut k: usize = byte_len_of(s.as_str());
    let ghost len = byte_len(s@);
    assert(s@ + spaces(0) == s@);
    while k < n
        invariant
            len == byte_len(s@),
            len <= k,
            k <= n || k == len,
            r@ == s@ + spaces((k - len) as nat),
        decreases n - k,
    {
        r.push(' ');
        assert(r@ == s@ + spaces((k + 1 - len) as nat));
        k += 1;
    }
    r
}

impl DotsvFile {
    /// Add a pending line.
    fn push_pending(&mut self, line: String)
        ensures
            final(self)@ == with_pending(old(self)@, line@),
    {
        let ghost before = self@;
        let ghost l = line@;
        self.pending.push(line);
        assert(views(self.pending@) == before.pending.push(l));
    }

    /// Put a line at place `i` of the sorted section if it is no longer than the one there.
    fn overwrite(&mut self, i: usize, line: String) -> (r: bool)
        requires
            i < old(self).sorted@.len(),
        ensures
            r == (byte_len(line@) <= byte_len(old(self)@.sorted[i as int])),
            r ==> final(self)@ == with_sorted_line(old(self)@, i as int, line@),
            !r ==> final(self)@ == old(self)@,
    {
        let ghost before = self@;
        let n: usize = byte_len_of(self.sorted[i].as_str());
        assert(before.sorted[i as int] == self.sorted@[i as int]@);
        if byte_len_of(line.as_str()) > n {
            return false;
        }
        let p = pad(line, n);
        let ghost l = p@;
        self.sorted.set(i, p);
        assert(views(self.sorted@) == before.sorted.update(i as int, l));
        true
    }

    /// Whether a patch leaves no field of a record that pending lines are about.
    fn emptied_by(&self, action: &Action) -> (r: Result<bool>)
        ensures
            outcome(r) == patch_empties(self@, action@),
    {
        let n: usize = action.fields.len();
        let ghost ks = keys_of(action@.fields);
        let mut i: usize = 0;
        while i < n
            invariant
                i <= n == ks.len(),
                ks == keys_of(action@.fields),
                ks.to_set() == action@.fields.dom(),
                forall|k: int| 0 <= k < i ==> action@.fields[#[trigger] ks[k]] == tombstone(),
            decreases n - i,
        {
            if !str_eq(action.fields.value(i).as_str(), "\0") {
                assert(ks.to_set().contains(ks[i as int]));
                assert(action@.fields.contains_key(ks[i as int]));
                return Ok(false);
            }
            i += 1;
        }
        assert(only_removes(action@.fields)) by {
            assert forall|k: Seq<char>| #[trigger]
                action@.fields.contains_key(k) implies action@.fields[k] == tombstone() by {
                assert(ks.to_set().contains(k));
                let j = choose|j: int| 0 <= j < ks.len() && ks[j] == k;
                assert(action@.fields[ks[j]] == tombstone());
            }
        }
        let m = match self.merge() {
            Ok(m) => m,
            Err(e) => {
                return Err(e);
            },
        };
        match m.record(action.uuid.as_str()) {
            Some(rec) => {
                let mut rec = rec;
                match rec.apply_patch(&action.fields) {
                    Ok(_) => Ok(false),
                    Err(_) => Ok(true),
                }
            },
            None => Ok(false),
        }
    }

    /// Add the pending line of a patch.
    fn push_patch(&mut self, action: &Action)
        ensures
            final(self)@ == with_pending(old(self)@, patch_line(action.uuid@, action.fields@)),
    {
        let texts = write_fields(&action.fields);
        let tail = join_with(&texts, "\t");
        self.push_pending(cat4("~", action.uuid.as_str(), "\t", tail.as_str()));
    }
}

/// Why a patch that leaves no field is refused.
fn refuse_emptied(action: &Action) -> (e: TsdbError)
    ensures
        e@ == emptied_error(action@),
{
    TsdbError::Other(
        cat4(
            "line ",
            dec_of(action.line_no as u64).as_str(),
            ": patch would remove all fields from record ",
            action.uuid.as_str(),
        ),
    )
}

/// Apply one action. On an error nothing changes.
fn apply_single_action(db: &mut DotsvFile, action: &Action) -> (r: Result<()>)
    ensures
        match r {
            Ok(_) => applied(old(db)@, action@) == Ok::<FileView, ErrorView>(final(db)@),
            Err(e) => applied(old(db)@, action@) == Err::<FileView, ErrorView>(e@) && final(db)@
                == old(db)@,
        },
{
    let uuid: &str = action.uuid.as_str();
    match action.opcode {
        Opcode::Append => {
            if db.uuid_exists(uuid) {
                return Err(TsdbError::DuplicateUuid { line: action.line_no, uuid: copy_of(uuid) });
            }
            let rec = Record { uuid: copy_of(uuid), fields: action.fields.clone() };
            db.push_pending(cat2("+", rec.serialize().as_str()));
        },
        Opcode::Delete => {
            if !db.uuid_exists(uuid) {
                return Err(TsdbError::MissingUuid { line: action.line_no, uuid: copy_of(uuid) });
            }
            db.push_pending(cat2("-", uuid));
        },
        Opcode::Patch => {
            if !db.uuid_exists(uuid) {
                return Err(TsdbError::MissingUuid { line: action.line_no, uuid: copy_of(uuid) });
            }
            let place = if db.find_in_pending(uuid).is_none() {
                db.binary_search_uuid(uuid)
            } else {
                Err(0)
            };
            match place {
                Ok(idx) => {
                    assert(db@.sorted[idx as int] == db.sorted@[idx as int]@);
                    let mut rec = match Record::parse(db.sorted[idx].as_str(), 0) {
                        Ok(rec) => rec,
                        Err(e) => {
                            return Err(e);
                        },
                    };
                    if rec.apply_patch(&action.fields).is_err() {
                        return Err(refuse_emptied(action));
                    }
                    let line = rec.serialize();
                    if !db.overwrite(idx, line) {
                        db.push_patch(action);
                    }
                },
                Err(_) => {
                    match db.emptied_by(action) {
                        Ok(true) => {
                            return Err(refuse_emptied(action));
                        },
                        Ok(false) => {},
                        Err(e) => {
                            return Err(e);
                        },
                    }
                    db.push_patch(action);
                },
            }
        },
        Opcode::Upsert => {
            let rec = Record { uuid: copy_of(uuid), fields: action.fields.clone() };
            match db.binary_search_uuid(uuid) {
                Ok(idx) => {
                    if db.find_in_pending(uuid).is_some() || rec.fields.is_empty() || !db.overwrite(
                        idx,
                        rec.serialize(),
                    ) {
                        db.push_pending(cat2("+", rec.serialize().as_str()));
                    }
                },
                Err(_) => {
                    db.push_pending(cat2("+", rec.serialize().as_str()));
                },
            }
        },
    }
    Ok(())
}

/// Apply actions in order, up to the first that fails.
pub fn apply_actions(db: &mut DotsvFile, actions: &[Action]) -> (r: Result<()>)
    ensures
        (final(db)@, outcome(r)) == applied_from(old(db)@, action_views(actions@), 0),
{
    let ghost all = action_views(actions@);
    let mut i: usize = 0;
    while i < actions.len()
        invariant
            i <= actions@.len(),
            all == action_views(actions@),
            applied_from(old(db)@, all, 0) == applied_from(db@, all, i as int),
        decreases actions@.len() - i,
    {
        assert(all[i as int] == actions@[i as int]@);
        match apply_single_action(db, &actions[i]) {
            Ok(_) => {},
            Err(e) => {
                return Err(e);
            },
        }
        i += 1;
    }
    Ok(())
}

/// Check that no action conflicts with the database or with the actions before it.
pub fn validate_actions(db: &DotsvFile, actions: &[Action]) -> (r: Result<()>)
    ensures
        outcome(r) == validated_from(
            db@,
            action_views(actions@),
            0,
            Set::empty(),
            Set::empty(),
        ),
{
    let ghost all = action_views(actions@);
    let mut added = StringSet::new();
    let mut deleted = StringSet::new();
    let mut i: usize = 0;
    while i < actions.len()
        invariant
            i <= actions@.len(),
            all == action_views(actions@),
            validated_from(db@, all, 0, Set::empty(), Set::empty()) == validated_from(
                db@,
                all,
                i as int,
                added@,
                deleted@,
            ),
        decreases actions@.len() - i,
    {
        let action: &Action = &actions[i];
        assert(all[i as int] == action@);
        let uuid: &str = action.uuid.as_str();
        let there = (db.uuid_exists(uuid) || added.contains(uuid)) && !deleted.contains(uuid);
        match action.opcode {
            Opcode::Append => {
                if there {
                    return Err(TsdbError::DuplicateUuid { line: action.line_no, uuid: copy_of(uuid) });
                }
                let _ = added.insert(copy_of(uuid));
                let _ = deleted.remove(uuid);
            },
            Opcode::Delete => {
                if !there {
                    return Err(TsdbError::MissingUuid { line: action.line_no, uuid: copy_of(uuid) });
                }
                let _ = deleted.insert(copy_of(uuid));
                let _ = added.remove(uuid);
            },
            Opcode::Patch => {
                if !there {
                    return Err(TsdbError::MissingUuid { line: action.line_no, uuid: copy_of(uuid) });
                }
            },
            Opcode::Upsert => {
                let _ = added.insert(copy_of(uuid));
                let _ = deleted.remove(uuid);
            },
        }
        i += 1;
    }
    Ok(())
}

} // verus!
