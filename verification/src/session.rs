//! A run of actions: checked as a whole, applied, and what the database holds afterwards.
use crate::action::{action_views, proper, Action, ActionView, Opcode};
use crate::apply::{
    applied, applied_from, apply_actions, padded, patch_line, validate_actions, validated_from,
    with_sorted_line,
};
use crate::base62::{is_uuid, lemma_uuid_chars, lemma_uuid_plain};
use crate::compact::{compacted, merged};
use crate::conflicts::lemma_search_hit;
use crate::database::{
    database, law_append, law_compact, law_delete, law_patch, law_upsert, lemma_record_line_starts,
    lemma_record_of_uuid, sound,
};
use crate::dotsv::{
    file_from, file_text, holds, sorted_check, sorted_place, unmentioned, uuid_parts, DotsvFile,
    FileView,
};
use crate::error::{outcome, ErrorView, Result};
use crate::record::{ends_in_space, field_texts, patched, record_line, record_of, spaces};
use crate::reload::{
    is_line, is_section_line, law_read_written_file, law_reload_compacted,
    lemma_record_line_is_line, writable,
};
use crate::text::{
    byte_len, join, lemma_encode_concat, lemma_encode_push, lemma_join_first, lemma_lead_byte, lemma_split_bytes_concat, lemma_split_nonempty, lines, raw_lines, split,
    trim_end,
};
use vstd::prelude::*;
use vstd::utf8::*;

verus! {

/// The records after one action.
pub open spec fn effect(
    d: Map<Seq<char>, Map<Seq<char>, Seq<char>>>,
    a: ActionView,
) -> Map<Seq<char>, Map<Seq<char>, Seq<char>>> {
    match a.opcode {
        Opcode::Append => d.insert(a.uuid, a.fields),
        Opcode::Delete => d.remove(a.uuid),
        Opcode::Patch => d.insert(a.uuid, patched(d[a.uuid], a.fields)),
        Opcode::Upsert => d.insert(a.uuid, a.fields),
    }
}

/// The records after the actions from `i` on.
pub open spec fn effects(
    d: Map<Seq<char>, Map<Seq<char>, Seq<char>>>,
    actions: Seq<ActionView>,
    i: int,
) -> Map<Seq<char>, Map<Seq<char>, Seq<char>>>
    decreases actions.len() - i,
{
    if i >= actions.len() {
        d
    } else {
        effects(effect(d, actions[i]), actions, i + 1)
    }
}

/// Whether a record has fields and its last value does not end in a space, which would be taken
/// for padding.
pub open spec fn storable_fields(m: Map<Seq<char>, Seq<char>>) -> bool {
    m != Map::<Seq<char>, Seq<char>>::empty() && !ends_in_space(m)
}

/// Whether the actions from `i` on have well-formed identifiers and no empty keys, and leave no
/// record whose last value ends in a space, which would be taken for padding.
pub open spec fn storable_from(
    d: Map<Seq<char>, Map<Seq<char>, Seq<char>>>,
    actions: Seq<ActionView>,
    i: int,
) -> bool
    decreases actions.len() - i,
{
    if i >= actions.len() {
        true
    } else {
        let a = actions[i];
        let e = effect(d, a);
        is_uuid(a.uuid) && proper(a.fields) && (a.opcode != Opcode::Delete ==> !ends_in_space(
            e[a.uuid],
        )) && storable_from(e, actions, i + 1)
    }
}

/// Whether every record of a database can be stored.
pub open spec fn storable_records(d: Map<Seq<char>, Map<Seq<char>, Seq<char>>>) -> bool {
    forall|u: Seq<char>| #[trigger] d.contains_key(u) ==> storable_fields(d[u])
}

/// Check the actions as a whole and apply them. If the check finds a conflict nothing changes.
pub fn execute_actions(db: &mut DotsvFile, actions: &[Action]) -> (r: Result<()>)
    ensures
        match validated_from(old(db)@, action_views(actions@), 0, Set::empty(), Set::empty()) {
            Ok(_) => (final(db)@, outcome(r)) == applied_from(old(db)@, action_views(actions@), 0),
            Err(e) => outcome(r) == Err::<(), ErrorView>(e) && final(db)@ == old(db)@,
        },
{
    match validate_actions(db, actions) {
        Ok(_) => apply_actions(db, actions),
        Err(e) => Err(e),
    }
}

/// Law: an action does to the records what it says, and keeps the database sound.
pub proof fn law_effect(f: FileView, a: ActionView, g: FileView)
    requires
        sound(f),
        is_uuid(a.uuid),
        proper(a.fields),
        a.opcode != Opcode::Delete ==> !ends_in_space(effect(database(f), a)[a.uuid]),
        applied(f, a) == Ok::<FileView, ErrorView>(g),
    ensures
        sound(g),
        database(g) == effect(database(f), a),
{
    match a.opcode {
        Opcode::Append => law_append(f, a, g),
        Opcode::Delete => law_delete(f, a, g),
        Opcode::Patch => law_patch(f, a, g),
        Opcode::Upsert => law_upsert(f, a, g),
    }
}

proof fn lemma_effects_from(f: FileView, actions: Seq<ActionView>, i: int)
    requires
        sound(f),
        0 <= i <= actions.len(),
        storable_from(database(f), actions, i),
        applied_from(f, actions, i).1 is Ok,
    ensures
        sound(applied_from(f, actions, i).0),
        database(applied_from(f, actions, i).0) == effects(database(f), actions, i),
    decreases actions.len() - i,
{
    if i < actions.len() {
        let g = applied(f, actions[i])->Ok_0;
        law_effect(f, actions[i], g);
        lemma_effects_from(g, actions, i + 1);
    }
}

/// Law: a run of actions that succeeds does to the records what its actions say one after the
/// other, and keeps the database sound. Left out are records with an empty key or whose last value
/// ends in a space.
pub proof fn law_effects(f: FileView, actions: Seq<ActionView>)
    requires
        sound(f),
        storable_from(database(f), actions, 0),
        applied_from(f, actions, 0).1 is Ok,
    ensures
        sound(applied_from(f, actions, 0).0),
        database(applied_from(f, actions, 0).0) == effects(database(f), actions, 0),
{
    lemma_effects_from(f, actions, 0);
}

/// A line that starts with an identifier can stand in the sorted section if something follows.
proof fn lemma_sorted_check(uuid: Seq<char>, tail: Seq<char>)
    requires
        is_uuid(uuid),
        tail.len() > 0,
    ensures
        sorted_check(uuid + tail, 0) is Ok,
{
    lemma_uuid_chars(uuid);
    lemma_split_bytes_concat(uuid, tail);
    assert(encode_utf8(tail).len() > 0) by {
        lemma_lead_byte(tail[0]);
    }
}

proof fn lemma_spaces_len(n: nat)
    ensures
        byte_len(spaces(n)) == n,
    decreases n,
{
    if n == 0 {
        assert(spaces(n) == Seq::<char>::empty());
    } else {
        let d = (n - 1) as nat;
        lemma_spaces_len(d);
        assert(spaces(n) == spaces(d).push(' '));
        lemma_encode_push(spaces(d), ' ');
        lemma_lead_byte(' ');
    }
}

/// Law: a line that is written over one that is at least as long takes exactly its bytes.
pub proof fn law_overwrite_keeps_length(f: FileView, i: int, line: Seq<char>)
    requires
        0 <= i < f.sorted.len(),
        byte_len(line) <= byte_len(f.sorted[i]),
    ensures
        byte_len(with_sorted_line(f, i, line).sorted[i]) == byte_len(f.sorted[i]),
{
    let n = (byte_len(f.sorted[i]) - byte_len(line)) as nat;
    lemma_spaces_len(n);
    lemma_spaces_len(0);
    lemma_encode_concat(line, spaces(n));
    assert(line + spaces(0) == line);
}

proof fn lemma_padded_line(uuid: Seq<char>, m: Map<Seq<char>, Seq<char>>, n: nat)
    requires
        is_uuid(uuid),
        n >= 13,
    ensures
        is_section_line(padded(record_line(uuid, m), n)),
        sorted_check(padded(record_line(uuid, m), n), 0) is Ok,
{
    let s = record_line(uuid, m);
    let p = padded(s, n);
    let k = if byte_len(s) < n {
        (n - byte_len(s)) as nat
    } else {
        0
    };
    lemma_record_line_is_line(uuid, m);
    let tail = lemma_record_line_starts(uuid, m);
    lemma_uuid_chars(uuid);
    if tail.len() == 0 {
        assert(s == uuid);
    }
    assert(p == s + spaces(k));
    assert(p == uuid + (tail + spaces(k)));
    lemma_sorted_check(uuid, tail + spaces(k));
    assert(!p.contains('\n')) by {
        if p.contains('\n') {
            let j = choose|j: int| 0 <= j < p.len() && p[j] == '\n';
            if j < s.len() {
                assert(s[j] == '\n');
            }
        }
    }
    assert(p[0] == s[0]);
    if k > 0 {
        assert(p.last() == ' ');
    } else {
        assert(p == s);
    }
}

proof fn lemma_op_line_is_line(op: char, s: Seq<char>)
    requires
        op == '+' || op == '-' || op == '~',
        s.len() > 0,
        is_line(s),
    ensures
        is_section_line(seq![op] + s),
{
    let t = seq![op] + s;
    assert(t.last() == s.last());
    if t.contains('\n') {
        let k = choose|k: int| 0 <= k < t.len() && t[k] == '\n';
        assert(s[k - 1] == '\n');
    }
}

proof fn lemma_uuid_is_line(u: Seq<char>)
    requires
        is_uuid(u),
    ensures
        is_line(u),
        u.len() == 12,
{
    lemma_uuid_plain(u);
}

proof fn lemma_patch_is_line(u: Seq<char>, m: Map<Seq<char>, Seq<char>>)
    requires
        is_uuid(u),
    ensures
        is_section_line(patch_line(u, m)),
{
    reveal_strlit("~");
    reveal_strlit("\t");
    let op = seq!['~'];
    let tab = seq!['\t'];
    assert("~"@ == op && "\t"@ == tab);
    lemma_uuid_is_line(u);
    let texts = field_texts(m);
    let body = join(texts, tab);
    let line = patch_line(u, m);
    assert(line == op + (u + (tab + body)));
    if texts.len() == 0 {
        let s = u + tab;
        assert(tab + body == tab);
        assert(is_line(s)) by {
            if s.contains('\n') {
                let k = choose|k: int| 0 <= k < s.len() && s[k] == '\n';
                assert(u[k] == '\n');
            }
        }
        lemma_op_line_is_line('~', s);
    } else {
        lemma_record_line_is_line(u, m);
        lemma_patch_tail(u, texts);
        lemma_op_line_is_line('~', record_line(u, m));
    }
}

proof fn lemma_patch_tail(u: Seq<char>, texts: Seq<Seq<char>>)
    requires
        texts.len() > 0,
    ensures
        join(seq![u] + texts, seq!['\t']) == u + (seq!['\t'] + join(texts, seq!['\t'])),
{
    let parts = seq![u] + texts;
    lemma_join_first(parts, seq!['\t']);
    assert(parts.skip(1) == texts);
}

/// Law: an action leaves a file that can be written such a file.
pub proof fn law_applied_writable(f: FileView, a: ActionView, g: FileView)
    requires
        writable(f),
        is_uuid(a.uuid),
        applied(f, a) == Ok::<FileView, ErrorView>(g),
    ensures
        writable(g),
{
    reveal_strlit("+");
    reveal_strlit("-");
    assert("+"@ == seq!['+'] && "-"@ == seq!['-']);
    lemma_uuid_is_line(a.uuid);
    lemma_op_line_is_line('-', a.uuid);
    lemma_record_line_is_line(a.uuid, a.fields);
    lemma_op_line_is_line('+', record_line(a.uuid, a.fields));
    lemma_patch_is_line(a.uuid, a.fields);
    lemma_search_hit(uuid_parts(f.sorted), a.uuid, 0, f.sorted.len() as int);
    if let Ok(i) = sorted_place(f, a.uuid) {
        assert(is_section_line(f.sorted[i]) && sorted_check(f.sorted[i], 0) is Ok);
        lemma_padded_line(a.uuid, a.fields, byte_len(f.sorted[i]));
        if a.opcode == Opcode::Patch && unmentioned(f, a.uuid) {
            let r = record_of(f.sorted[i], 0)->Ok_0;
            lemma_record_of_uuid(f.sorted[i], 0);
            lemma_padded_line(r.uuid, patched(r.fields, a.fields), byte_len(f.sorted[i]));
        }
    }
}

proof fn lemma_writable_from(f: FileView, actions: Seq<ActionView>, i: int)
    requires
        writable(f),
        0 <= i <= actions.len(),
        forall|k: int| 0 <= k < actions.len() ==> is_uuid((#[trigger] actions[k]).uuid),
    ensures
        writable(applied_from(f, actions, i).0),
    decreases actions.len() - i,
{
    if i < actions.len() {
        if let Ok(g) = applied(f, actions[i]) {
            law_applied_writable(f, actions[i], g);
            lemma_writable_from(g, actions, i + 1);
        }
    }
}

proof fn lemma_storable_uuids(
    d: Map<Seq<char>, Map<Seq<char>, Seq<char>>>,
    actions: Seq<ActionView>,
    i: int,
)
    requires
        0 <= i <= actions.len(),
        storable_from(d, actions, i),
    ensures
        forall|k: int| i <= k < actions.len() ==> is_uuid((#[trigger] actions[k]).uuid),
    decreases actions.len() - i,
{
    if i < actions.len() {
        lemma_storable_uuids(effect(d, actions[i]), actions, i + 1);
    }
}

/// Law: what a run of actions writes is read back. The file that is read from the text written
/// after the run, with or without compaction, is a sound database, whose records are those that
/// the actions leave. Left out are records without fields, with an empty key or whose last value
/// ends in a space.
pub proof fn law_read_after_write(f: FileView, actions: Seq<ActionView>, stamp: Seq<char>)
    requires
        sound(f),
        writable(f),
        storable_from(database(f), actions, 0),
        storable_records(effects(database(f), actions, 0)),
        applied_from(f, actions, 0).1 is Ok,
        is_line(stamp),
    ensures
        ({
            let g = applied_from(f, actions, 0).0;
            let d = effects(database(f), actions, 0);
            &&& file_from(lines(file_text(g, stamp)), 0, false) == Ok::<FileView, ErrorView>(g)
            &&& sound(g) && writable(g) && database(g) == d
            &&& compacted(g) is Ok
            &&& file_from(lines(file_text(compacted(g)->Ok_0, stamp)), 0, false) == compacted(g)
            &&& sound(compacted(g)->Ok_0) && database(compacted(g)->Ok_0) == d
        }),
{
    let g = applied_from(f, actions, 0).0;
    law_effects(f, actions);
    lemma_storable_uuids(database(f), actions, 0);
    lemma_writable_from(f, actions, 0);
    law_read_written_file(g, stamp);
    assert forall|u: Seq<char>| #[trigger] database(g).contains_key(u) implies !ends_in_space(
        database(g)[u],
    ) && database(g)[u] != Map::<Seq<char>, Seq<char>>::empty() by {
        assert(storable_fields(database(g)[u]));
    }
    law_compact(g);
    law_reload_compacted(g, stamp);
}

/// Law: an identifier has a record in a sound database if and only if the file holds it.
pub proof fn law_held(f: FileView, uuid: Seq<char>)
    requires
        sound(f),
        is_uuid(uuid),
    ensures
        holds(f, uuid) <==> database(f).contains_key(uuid),
{
    lemma_uuid_chars(uuid);
    assert(holds(f, uuid) == (merged(f)->Ok_0).live(uuid));
}

proof fn lemma_trim_end_line(s: Seq<char>)
    requires
        !s.contains('\n'),
    ensures
        is_line(trim_end(s, '\r')),
    decreases s.len(),
{
    if s.len() > 0 && s.last() == '\r' {
        let d = s.drop_last();
        assert(!d.contains('\n')) by {
            if d.contains('\n') {
                let k = choose|k: int| 0 <= k < d.len() && d[k] == '\n';
                assert(s[k] == '\n');
            }
        }
        lemma_trim_end_line(d);
    }
}

proof fn lemma_split_parts(s: Seq<char>, i: int)
    requires
        0 <= i < split(s, '\n').len(),
    ensures
        !split(s, '\n')[i].contains('\n'),
    decreases s.len(),
{
    if s.len() > 0 {
        let d = s.drop_last();
        let p = split(d, '\n');
        let t = split(s, '\n')[i];
        lemma_split_nonempty(d, '\n');
        if s.last() == '\n' {
            if i < p.len() {
                lemma_split_parts(d, i);
            }
        } else if i < p.len() - 1 {
            lemma_split_parts(d, i);
        } else {
            lemma_split_parts(d, p.len() - 1);
            if t.contains('\n') {
                let k = choose|k: int| 0 <= k < t.len() && t[k] == '\n';
                assert(p.last()[k] == '\n');
            }
        }
    }
}

proof fn lemma_check_line(line: Seq<char>, n: usize)
    ensures
        sorted_check(line, n) is Ok ==> sorted_check(line, 0) is Ok,
{
}

proof fn lemma_loaded_from(ls: Seq<Seq<char>>, i: int, in_pending: bool)
    requires
        0 <= i,
        forall|k: int| 0 <= k < ls.len() ==> is_line(#[trigger] ls[k]),
    ensures
        file_from(ls, i, in_pending) matches Ok(f) ==> writable(f),
    decreases ls.len() - i,
{
    if i < ls.len() {
        lemma_loaded_from(ls, i + 1, in_pending);
        lemma_loaded_from(ls, i + 1, true);
        lemma_check_line(ls[i], (i + 1) as usize);
    }
}

/// Law: a file that was read can be written again without loss.
pub proof fn law_loaded_writable(text: Seq<char>)
    ensures
        file_from(lines(text), 0, false) matches Ok(f) ==> writable(f),
{
    let ls = lines(text);
    assert forall|k: int| 0 <= k < ls.len() implies is_line(#[trigger] ls[k]) by {
        let p = raw_lines(text);
        assert(p[k] == split(text, '\n')[k]);
        lemma_split_parts(text, k);
        lemma_trim_end_line(p[k]);
    }
    lemma_loaded_from(ls, 0, false);
}

} // verus!
