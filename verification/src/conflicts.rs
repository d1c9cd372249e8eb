//! Laws of validation: what it accepts does not conflict when it is applied.
use crate::action::{equals_from, pairs_from, ActionView, Opcode};
use crate::apply::{
    applied, applied_from, delete_line, insert_line, patch_line, present, validated_from,
    with_sorted_line,
};
use crate::base62::{is_uuid, lemma_uuid_chars};
use crate::compact::{merge_line, merge_pending, merge_sorted, MergeView};
use crate::database::{
    lemma_op_line, lemma_pending_state_none, lemma_pending_state_push, lemma_record_line_starts, lemma_record_of_uuid,
    lemma_uuid_part_of,
};
use crate::dotsv::{holds, pending_state, search, sorted_place, unmentioned, uuid_part, uuid_parts, FileView};
use crate::error::ErrorView;
use crate::record::{field_texts, patched, record_line, record_of, spaces, trim_last};
use crate::text::{byte_suffix, join, split};
use vstd::prelude::*;

verus! {

pub proof fn lemma_search_hit(us: Seq<Seq<char>>, uuid: Seq<char>, lo: int, hi: int)
    requires
        0 <= lo <= hi <= us.len(),
    ensures
        search(us, uuid, lo, hi) matches Ok(i) ==> 0 <= i < us.len() && us[i] == uuid,
    decreases hi - lo,
{
    if lo < hi {
        let mid = lo + (hi - lo) / 2;
        if us[mid] == uuid {
        } else if crate::text::str_lt(us[mid], uuid) {
            lemma_search_hit(us, uuid, mid + 1, hi);
        } else {
            lemma_search_hit(us, uuid, lo, mid);
        }
    }
}

proof fn lemma_overwrite_keeps_uuids(f: FileView, i: int, uuid: Seq<char>, m: Map<Seq<char>, Seq<char>>)
    requires
        0 <= i < f.sorted.len(),
        is_uuid(uuid),
        uuid_part(f.sorted[i]) == uuid,
    ensures
        uuid_parts(with_sorted_line(f, i, record_line(uuid, m)).sorted) == uuid_parts(f.sorted),
{
    let g = with_sorted_line(f, i, record_line(uuid, m));
    let tail = lemma_record_line_starts(uuid, m);
    let line = g.sorted[i];
    let pad = (line.len() - record_line(uuid, m).len()) as nat;
    assert(line == uuid + (tail + spaces(pad)));
    lemma_uuid_part_of(uuid, tail + spaces(pad));
    assert(uuid_parts(g.sorted) =~= uuid_parts(f.sorted));
}

/// Law: an action that succeeds changes whether its own identifier is there, and no other: a deleted
/// one is gone, any other is there.
pub proof fn law_applied_holds(f: FileView, a: ActionView, g: FileView)
    requires
        is_uuid(a.uuid),
        applied(f, a) == Ok::<FileView, ErrorView>(g),
    ensures
        uuid_parts(g.sorted) == uuid_parts(f.sorted),
        g.sorted.len() == f.sorted.len(),
        forall|v: Seq<char>| v != a.uuid ==> #[trigger] holds(g, v) == holds(f, v),
        holds(g, a.uuid) == (a.opcode != Opcode::Delete),
{
    reveal_strlit("+");
    reveal_strlit("-");
    reveal_strlit("~");
    reveal_strlit("\t");
    let u = a.uuid;
    lemma_uuid_chars(u);
    let tail = lemma_record_line_starts(u, a.fields);
    lemma_op_line('+', u, tail);
    assert("+"@ == seq!['+'] && "-"@ == seq!['-'] && "~"@ == seq!['~']);
    assert(insert_line(u, a.fields) == seq!['+'] + u + tail);
    let ptail = "\t"@ + join(field_texts(a.fields), "\t"@);
    lemma_op_line('~', u, ptail);
    assert(patch_line(u, a.fields) == seq!['~'] + u + ptail);
    lemma_op_line('-', u, Seq::empty());
    assert(delete_line(u) == seq!['-'] + u + Seq::<char>::empty());
    assert forall|line: Seq<char>, v: Seq<char>| #[trigger]
        pending_state(f.pending.push(line), v) == (if crate::dotsv::mentions(line, v) {
            Some(line[0] != '-')
        } else {
            pending_state(f.pending, v)
        }) by {
        lemma_pending_state_push(f.pending, line, v);
    }
    lemma_search_hit(uuid_parts(f.sorted), u, 0, f.sorted.len() as int);
    if unmentioned(f, u) {
        lemma_pending_state_none(f.pending, u);
    }
    match sorted_place(f, u) {
        Ok(i) => {
            assert(uuid_parts(f.sorted)[i] == u);
            if unmentioned(f, u) {
                lemma_overwrite_keeps_uuids(f, i, u, a.fields);
                if a.opcode == Opcode::Patch {
                    let r = record_of(f.sorted[i], 0)->Ok_0;
                    lemma_record_of_uuid(f.sorted[i], 0);
                    lemma_overwrite_keeps_uuids(f, i, r.uuid, patched(r.fields, a.fields));
                }
            }
        },
        Err(p) => {},
    }
    assert forall|v: Seq<char>| v != u implies #[trigger] holds(g, v) == holds(f, v) by {
        assert(sorted_place(g, v) == sorted_place(f, v));
    }
    assert(sorted_place(g, u) == sorted_place(f, u));
}

proof fn lemma_equals_error(s: Seq<char>, i: int, n: usize)
    ensures
        equals_from(s, i, n) matches Err(e) ==> e is ParseError,
    decreases s.len() - i,
{
    if i >= s.len() || s[i] == '=' {
    } else {
        lemma_equals_error(s, i + 1, n);
        if i + 1 < s.len() {
            lemma_equals_error(s, i + 2, n);
        }
        if i + 3 < s.len() {
            lemma_equals_error(s, i + 4, n);
        }
    }
}

proof fn lemma_pairs_error(parts: Seq<Seq<char>>, i: int, n: usize)
    ensures
        pairs_from(parts, i, n, false) matches Err(e) ==> e is ParseError,
    decreases parts.len() - i,
{
    if i < parts.len() {
        lemma_equals_error(parts[i], 0, n);
        lemma_pairs_error(parts, i + 1, n);
    }
}

/// Whether an error is none of a conflict.
spec fn other_error(e: ErrorView) -> bool {
    e is ParseError || e is Other
}

proof fn lemma_record_error(line: Seq<char>, n: usize)
    ensures
        record_of(line, n) matches Err(e) ==> other_error(e),
{
    lemma_pairs_error(trim_last(split(line, '\t').skip(1)), 0, n);
}

proof fn lemma_merge_sorted_error(ls: Seq<Seq<char>>, i: int, m: MergeView)
    ensures
        merge_sorted(ls, i, m) matches Err(e) ==> other_error(e),
    decreases ls.len() - i,
{
    if i >= ls.len() {
    } else if ls[i].len() == 0 {
        lemma_merge_sorted_error(ls, i + 1, m);
    } else {
        lemma_record_error(ls[i], (i + 1) as usize);
        if let Ok(r) = record_of(ls[i], (i + 1) as usize) {
            lemma_merge_sorted_error(ls, i + 1, m.with_sorted(r));
        }
    }
}

proof fn lemma_merge_pending_error(ls: Seq<Seq<char>>, i: int, m: MergeView)
    ensures
        merge_pending(ls, i, m) matches Err(e) ==> other_error(e),
    decreases ls.len() - i,
{
    if i >= ls.len() {
    } else if ls[i].len() == 0 {
        lemma_merge_pending_error(ls, i + 1, m);
    } else {
        let n = (i + 1) as usize;
        assert(merge_line(m, ls[i], n) matches Err(e) ==> other_error(e)) by {
            reveal(merge_line);
            let rest = ls[i].skip(1);
            lemma_record_error(rest, n);
            lemma_pairs_error(split(byte_suffix(rest, 12).skip(1), '\t'), 0, n);
        }
        if let Ok(m2) = merge_line(m, ls[i], n) {
            lemma_merge_pending_error(ls, i + 1, m2);
        }
    }
}

/// An action fails for a conflict only where it names an identifier that is there, or is not.
proof fn lemma_applied_conflict(f: FileView, a: ActionView)
    ensures
        applied(f, a) matches Err(e) ==> (e is DuplicateUuid ==> a.opcode == Opcode::Append && holds(
            f,
            a.uuid,
        )) && (e is MissingUuid ==> a.opcode != Opcode::Append && a.opcode != Opcode::Upsert
            && !holds(f, a.uuid)),
{
    if a.opcode == Opcode::Patch {
        lemma_merge_sorted_error(f.sorted, 0, MergeView::start());
        if let Ok(m) = merge_sorted(f.sorted, 0, MergeView::start()) {
            lemma_merge_pending_error(f.pending, 0, m);
        }
        if let Ok(i) = sorted_place(f, a.uuid) {
            lemma_record_error(f.sorted[i], 0);
        }
    }
}

/// Whether an error says that an identifier is there already, or is not there.
pub open spec fn is_conflict(r: core::result::Result<(), ErrorView>) -> bool {
    r matches Err(e) && (e is DuplicateUuid || e is MissingUuid)
}

proof fn lemma_validation_from(
    f: FileView,
    cur: FileView,
    actions: Seq<ActionView>,
    i: int,
    added: Set<Seq<char>>,
    deleted: Set<Seq<char>>,
)
    requires
        0 <= i <= actions.len(),
        forall|k: int| 0 <= k < actions.len() ==> is_uuid((#[trigger] actions[k]).uuid),
        forall|v: Seq<char>| #[trigger] holds(cur, v) == present(f, v, added, deleted),
    ensures
        match validated_from(f, actions, i, added, deleted) {
            Ok(_) => !is_conflict(applied_from(cur, actions, i).1),
            Err(e) => applied_from(cur, actions, i).1 matches Err(d) && (is_conflict(
                applied_from(cur, actions, i).1,
            ) ==> d == e),
        },
    decreases actions.len() - i,
{
    if i < actions.len() {
        let a = actions[i];
        let u = a.uuid;
        let there = present(f, u, added, deleted);
        assert(holds(cur, u) == there);
        lemma_applied_conflict(cur, a);
        match applied(cur, a) {
            Err(e) => {},
            Ok(g) => {
                law_applied_holds(cur, a, g);
                let (added2, deleted2) = match a.opcode {
                    Opcode::Append => (added.insert(u), deleted.remove(u)),
                    Opcode::Delete => (added.remove(u), deleted.insert(u)),
                    Opcode::Patch => (added, deleted),
                    Opcode::Upsert => (added.insert(u), deleted.remove(u)),
                };
                assert forall|v: Seq<char>| #[trigger] holds(g, v) == present(
                    f,
                    v,
                    added2,
                    deleted2,
                ) by {
                    assert(holds(cur, v) == present(f, v, added, deleted));
                    if v != u {
                        assert(holds(g, v) == holds(cur, v));
                    }
                }
                lemma_validation_from(f, g, actions, i + 1, added2, deleted2);
            },
        }
    }
}

/// Law: validation foretells every conflict. Actions that it accepts give no duplicate or missing
/// identifier when they are applied; of actions that it refuses, applying them fails too, and if it
/// is for a conflict, with the same error.
pub proof fn law_validation_foretells_conflicts(f: FileView, actions: Seq<ActionView>)
    requires
        forall|i: int| 0 <= i < actions.len() ==> is_uuid((#[trigger] actions[i]).uuid),
    ensures
        match validated_from(f, actions, 0, Set::empty(), Set::empty()) {
            Ok(_) => !is_conflict(applied_from(f, actions, 0).1),
            Err(e) => applied_from(f, actions, 0).1 matches Err(d) && (is_conflict(
                applied_from(f, actions, 0).1,
            ) ==> d == e),
        },
{
    lemma_validation_from(f, f, actions, 0, Set::empty(), Set::empty());
}

} // verus!
