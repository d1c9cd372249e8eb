//! Which files are sound databases, whoever wrote them, and what then holds of them.
use crate::action::{proper, ActionView, Opcode};
use crate::apply::{applied, applied_from, with_pending};
use crate::base62::{is_uuid, lemma_uuid_chars};
use crate::compact::{compacted, final_uuids, merge_line, merge_sorted, merged, patch_of, MergeView};
use crate::database::{
    database, law_binary_search, law_compact, law_final_uuids, lemma_merge_pending_push,
    lemma_merged_push, lemma_op_line, lemma_pairs_same, lemma_patched_proper, lemma_pending_state_push,
    lemma_record_of_same, lemma_record_of_uuid, lemma_stored_proper,
    lemma_uuid_part_of, sound, sound_merge,
};
use crate::dotsv::{holds, mentions, sorted_place, uuid_parts, FileView};
use crate::error::ErrorView;
use crate::fields::keys_of;
use crate::lookup::lemma_concat_contains;
use crate::record::{
    ends_in_space, law_parse_serialize, patched, record_line, record_of, spaces, RecordView,
};
use crate::session::{effect, effects, law_effect, law_effects, law_held, storable_from};
use crate::sorted::{lemma_listed_finite, lemma_ordered_distinct, ordered};
use crate::text::{byte_len, byte_prefix, byte_suffix, lemma_bytes_parts, split, splits_at};
use vstd::prelude::*;
use vstd::utf8::*;

verus! {

/// Whether the lines of a sorted section say records, in strictly increasing order of their
/// identifiers.
pub open spec fn valid_sorted(ls: Seq<Seq<char>>) -> bool {
    &&& forall|i: int| 0 <= i < ls.len() ==> (#[trigger] ls[i]).len() > 0 && record_of(ls[i], 0) is Ok
    &&& ordered(uuid_parts(ls))
}

/// The identifier that a pending line is about.
pub open spec fn turn_uuid(line: Seq<char>) -> Seq<char> {
    byte_prefix(line.skip(1), 12)
}

/// The patch of a pending line.
pub open spec fn turn_patch(line: Seq<char>) -> core::result::Result<
    Map<Seq<char>, Seq<char>>,
    ErrorView,
> {
    patch_of(byte_suffix(line.skip(1), 12), 0)
}

/// Whether a pending line names a well-formed identifier behind its opcode, and a present one if it
/// deletes or patches.
pub open spec fn legal_turn(g: FileView, line: Seq<char>) -> bool {
    &&& line.len() > 0
    &&& line[0] == '+' || line[0] == '-' || line[0] == '~'
    &&& byte_len(line.skip(1)) >= 12
    &&& splits_at(line.skip(1), 12)
    &&& is_uuid(turn_uuid(line))
    &&& line[0] != '+' ==> holds(g, turn_uuid(line))
}

/// Whether a pending line is valid behind the lines of a file: it is legal, what it inserts is a
/// record, and what it patches keeps a field.
pub open spec fn valid_turn(g: FileView, line: Seq<char>) -> bool {
    &&& legal_turn(g, line)
    &&& line[0] == '+' ==> record_of(line.skip(1), 0) is Ok
    &&& line[0] == '~' ==> turn_patch(line) is Ok && patched(
        database(g)[turn_uuid(line)],
        turn_patch(line)->Ok_0,
    ) != Map::<Seq<char>, Seq<char>>::empty()
}

/// The file with its first `n` pending lines.
pub open spec fn up_to(f: FileView, n: int) -> FileView {
    FileView { sorted: f.sorted, pending: f.pending.take(n) }
}

/// Whether a file is valid: its sorted section is, and each pending line is in its turn.
pub open spec fn valid_file(f: FileView) -> bool {
    &&& valid_sorted(f.sorted)
    &&& forall|i: int| 0 <= i < f.pending.len() ==> valid_turn(up_to(f, i), #[trigger] f.pending[i])
}

/// What merging the first `i` lines of a valid sorted section gives.
spec fn sorted_state(ls: Seq<Seq<char>>, i: int, m: MergeView) -> bool {
    &&& m.order == uuid_parts(ls).take(i)
    &&& forall|u: Seq<char>| #[trigger] m.records.contains_key(u) <==> m.order.contains(u)
    &&& forall|u: Seq<char>| #[trigger]
        m.records.contains_key(u) ==> is_uuid(u) && m.records[u] is Some && (m.records[u]->0).uuid
            == u && proper((m.records[u]->0).fields)
}

proof fn lemma_sorted_state(ls: Seq<Seq<char>>, i: int, m: MergeView)
    requires
        0 <= i <= ls.len(),
        valid_sorted(ls),
        sorted_state(ls, i, m),
    ensures
        merge_sorted(ls, i, m) is Ok,
        sorted_state(ls, ls.len() as int, merge_sorted(ls, i, m)->Ok_0),
    decreases ls.len() - i,
{
    if i < ls.len() {
        let us = uuid_parts(ls);
        assert(ls[i].len() > 0 && record_of(ls[i], 0) is Ok);
        lemma_record_of_same(ls[i], 0, (i + 1) as usize);
        lemma_record_of_uuid(ls[i], 0);
        let r = record_of(ls[i], 0)->Ok_0;
        let m2 = m.with_sorted(r);
        assert(us[i] == r.uuid);
        assert(us.take(i + 1) == us.take(i).push(r.uuid));
        assert forall|u: Seq<char>| #[trigger] m2.records.contains_key(u) <==> m2.order.contains(u) by {
            assert(m.order.push(r.uuid) == m.order + seq![r.uuid]);
            lemma_concat_contains(m.order, seq![r.uuid], u);
            assert(seq![r.uuid].contains(u) <==> seq![r.uuid][0] == u);
            assert(m.records.contains_key(u) <==> m.order.contains(u));
        }
        assert(sorted_state(ls, i + 1, m2));
        lemma_sorted_state(ls, i + 1, m2);
    }
}

/// Law: a file whose sorted lines say records in strictly increasing order of their identifiers, and
/// which has no pending lines, is a sound database.
pub proof fn law_sorted_file_sound(f: FileView)
    requires
        valid_sorted(f.sorted),
        f.pending.len() == 0,
    ensures
        sound(f),
{
    let ls = f.sorted;
    let us = uuid_parts(ls);
    let m0 = MergeView::start();
    assert(us.take(0) == m0.order);
    assert(sorted_state(ls, 0, m0));
    lemma_sorted_state(ls, 0, m0);
    let m = merge_sorted(ls, 0, m0)->Ok_0;
    assert(merged(f) == Ok::<MergeView, ErrorView>(m));
    assert(us.take(ls.len() as int) == us);
    assert(m.order == us);
    assert(m.order.no_duplicates()) by {
        assert forall|i: int, j: int| 0 <= i < us.len() && 0 <= j < us.len() && i != j implies us[i]
            != us[j] by {
            if us[i] == us[j] {
                lemma_ordered_distinct(us, i, j);
            }
        }
    }
    assert(sound_merge(m));
    assert forall|u: Seq<char>| byte_len(u) == 12 implies #[trigger] holds(f, u) == m.live(u) by {
        law_binary_search(us, u);
        if sorted_place(f, u) is Ok {
            assert(us.contains(us[sorted_place(f, u)->Ok_0]));
        }
        assert(m.records.contains_key(u) <==> m.order.contains(u));
    }
}

/// One more pending line that sets what is known of an identifier.
proof fn lemma_turn(
    g: FileView,
    line: Seq<char>,
    uuid: Seq<char>,
    slot: Option<RecordView>,
    m2: MergeView,
)
    requires
        sound(g),
        line.len() > 0,
        is_uuid(uuid),
        (line[0] != '-') == (slot is Some),
        slot is Some ==> (slot->0).uuid == uuid && proper((slot->0).fields),
        forall|v: Seq<char>| #[trigger] mentions(line, v) <==> v == uuid,
        merged(with_pending(g, line)) == Ok::<MergeView, ErrorView>(m2),
        m2.records == (merged(g)->Ok_0).records.insert(uuid, slot),
        m2.order == if (merged(g)->Ok_0).records.contains_key(uuid) {
            (merged(g)->Ok_0).order
        } else {
            (merged(g)->Ok_0).order.push(uuid)
        },
    ensures
        sound(with_pending(g, line)),
{
    let m = merged(g)->Ok_0;
    let h = with_pending(g, line);
    lemma_uuid_chars(uuid);
    assert forall|v: Seq<char>| #[trigger] m2.order.contains(v) <==> m2.records.contains_key(v) by {
        assert(m.order.contains(v) <==> m.records.contains_key(v));
        if m2.order != m.order {
            assert(m2.order == m.order + seq![uuid]);
            lemma_concat_contains(m.order, seq![uuid], v);
            assert(seq![uuid].contains(v) <==> seq![uuid][0] == v);
        }
    }
    assert(m2.order.no_duplicates()) by {
        if m2.order != m.order {
            assert(m.order.contains(uuid) <==> m.records.contains_key(uuid));
            assert(!m.order.contains(uuid));
        }
    }
    assert forall|v: Seq<char>| #[trigger] m2.live(v) implies is_uuid(v) && (m2.records[v]->0).uuid
        == v && proper((m2.records[v]->0).fields) by {
        if v != uuid {
            assert(m.live(v));
        }
    }
    assert forall|v: Seq<char>| byte_len(v) == 12 implies #[trigger] holds(h, v) == m2.live(v) by {
        lemma_pending_state_push(g.pending, line, v);
        assert(mentions(line, v) <==> v == uuid);
        assert(holds(g, v) == m.live(v));
    }
}

/// Where a legal pending line is about its identifier.
proof fn lemma_turn_line(line: Seq<char>)
    requires
        line.len() > 0,
        line[0] == '+' || line[0] == '-' || line[0] == '~',
        byte_len(line.skip(1)) >= 12,
        splits_at(line.skip(1), 12),
        is_uuid(turn_uuid(line)),
    ensures
        line.skip(1) == turn_uuid(line) + byte_suffix(line.skip(1), 12),
        forall|v: Seq<char>| #[trigger] mentions(line, v) <==> v == turn_uuid(line),
{
    let rest = line.skip(1);
    let u = turn_uuid(line);
    let tail = byte_suffix(rest, 12);
    lemma_bytes_parts(rest, 12);
    lemma_uuid_chars(u);
    lemma_op_line(line[0], u, tail);
    assert(line == seq![line[0]] + rest);
    assert(seq![line[0]] + (u + tail) == seq![line[0]] + u + tail);
}

proof fn lemma_patch_same(after: Seq<char>, n: usize)
    ensures
        patch_of(after, 0) is Ok ==> patch_of(after, n) == patch_of(after, 0),
        patch_of(after, n) is Ok ==> patch_of(after, 0) == patch_of(after, n),
        patch_of(after, 0) matches Ok(p) ==> proper(p),
{
    let parts = split(after.skip(1), '\t');
    if after.len() > 0 && after[0] == '\t' {
        if patch_of(after, 0) is Ok {
            lemma_pairs_same(parts, 0, 0, n);
        }
        if patch_of(after, n) is Ok {
            lemma_pairs_same(parts, 0, n, 0);
        }
        lemma_stored_proper(parts, 0);
    } else {
        assert(Map::<Seq<char>, Seq<char>>::empty().dom() =~= Set::<Seq<char>>::empty());
    }
}

/// Law: a legal pending line that can be merged leaves a sound database sound.
pub proof fn law_turn_sound(g: FileView, line: Seq<char>)
    requires
        sound(g),
        legal_turn(g, line),
        merged(with_pending(g, line)) is Ok,
    ensures
        sound(with_pending(g, line)),
{
    reveal(merge_line);
    let m = merged(g)->Ok_0;
    let n = (g.pending.len() + 1) as usize;
    let u = turn_uuid(line);
    let rest = line.skip(1);
    let tail = byte_suffix(rest, 12);
    lemma_merged_push(g, line);
    lemma_turn_line(line);
    lemma_uuid_chars(u);
    assert(holds(g, u) == m.live(u));
    let m2 = merged(with_pending(g, line))->Ok_0;
    if line[0] == '+' {
        let r = record_of(rest, n)->Ok_0;
        lemma_record_of_uuid(rest, n);
        lemma_uuid_part_of(u, tail);
        assert(r.uuid == u);
        lemma_turn(g, line, u, Some(r), m2);
    } else if line[0] == '-' {
        lemma_turn(g, line, u, None, m2);
    } else {
        let patch = patch_of(tail, n)->Ok_0;
        lemma_patch_same(tail, n);
        let r = m.records[u]->0;
        lemma_patched_proper(r.fields, patch);
        lemma_turn(g, line, u, Some(RecordView { uuid: r.uuid, fields: patched(r.fields, patch) }), m2);
    }
}

/// A valid pending line can be merged.
proof fn lemma_valid_turn(g: FileView, line: Seq<char>)
    requires
        sound(g),
        valid_turn(g, line),
    ensures
        merged(with_pending(g, line)) is Ok,
{
    reveal(merge_line);
    let n = (g.pending.len() + 1) as usize;
    let u = turn_uuid(line);
    let rest = line.skip(1);
    lemma_merged_push(g, line);
    lemma_uuid_chars(u);
    assert(holds(g, u) == (merged(g)->Ok_0).live(u));
    if line[0] == '+' {
        lemma_record_of_same(rest, 0, n);
    } else if line[0] == '~' {
        lemma_patch_same(byte_suffix(rest, 12), n);
    }
}

proof fn lemma_up_to(f: FileView, n: int)
    requires
        0 < n <= f.pending.len(),
    ensures
        up_to(f, n) == with_pending(up_to(f, n - 1), f.pending[n - 1]),
{
    assert(f.pending.take(n) == f.pending.take(n - 1).push(f.pending[n - 1]));
}

proof fn lemma_valid_up_to(f: FileView, n: int)
    requires
        valid_file(f),
        0 <= n <= f.pending.len(),
    ensures
        sound(up_to(f, n)),
    decreases n,
{
    if n == 0 {
        law_sorted_file_sound(up_to(f, 0));
    } else {
        lemma_valid_up_to(f, n - 1);
        lemma_up_to(f, n);
        assert(valid_turn(up_to(f, n - 1), f.pending[n - 1]));
        lemma_valid_turn(up_to(f, n - 1), f.pending[n - 1]);
        law_turn_sound(up_to(f, n - 1), f.pending[n - 1]);
    }
}

/// Law: a valid file, whoever wrote it, is a sound database.
pub proof fn law_valid_file_sound(f: FileView)
    requires
        valid_file(f),
    ensures
        sound(f),
{
    lemma_valid_up_to(f, f.pending.len() as int);
    assert(f.pending.take(f.pending.len() as int) == f.pending);
}

/// Whether each pending line of a file is legal in its turn.
pub open spec fn legal_file(f: FileView) -> bool {
    &&& valid_sorted(f.sorted)
    &&& forall|i: int| 0 <= i < f.pending.len() ==> legal_turn(up_to(f, i), #[trigger] f.pending[i])
}

/// What can be merged can be merged up to any pending line.
proof fn lemma_merged_up_to(f: FileView, n: int)
    requires
        merged(f) is Ok,
        0 <= n <= f.pending.len(),
        forall|i: int| 0 <= i < f.pending.len() ==> (#[trigger] f.pending[i]).len() > 0,
    ensures
        merged(up_to(f, n)) is Ok,
    decreases f.pending.len() - n,
{
    if n == f.pending.len() {
        assert(f.pending.take(n) == f.pending);
    } else {
        lemma_merged_up_to(f, n + 1);
        lemma_up_to(f, n + 1);
        let g = up_to(f, n);
        let ms = merge_sorted(f.sorted, 0, MergeView::start())->Ok_0;
        lemma_merge_pending_push(g.pending, f.pending[n], 0, ms);
    }
}

proof fn lemma_legal_up_to(f: FileView, n: int)
    requires
        legal_file(f),
        merged(f) is Ok,
        0 <= n <= f.pending.len(),
    ensures
        sound(up_to(f, n)),
    decreases n,
{
    if n == 0 {
        law_sorted_file_sound(up_to(f, 0));
    } else {
        lemma_legal_up_to(f, n - 1);
        lemma_up_to(f, n);
        assert forall|i: int| 0 <= i < f.pending.len() implies (#[trigger] f.pending[i]).len() > 0 by {
            assert(legal_turn(up_to(f, i), f.pending[i]));
        }
        lemma_merged_up_to(f, n);
        assert(legal_turn(up_to(f, n - 1), f.pending[n - 1]));
        law_turn_sound(up_to(f, n - 1), f.pending[n - 1]);
    }
}

/// Law: a file whose pending lines are legal in their turns, and which can be compacted, is a sound
/// database.
pub proof fn law_legal_file_sound(f: FileView)
    requires
        legal_file(f),
        compacted(f) is Ok,
    ensures
        sound(f),
{
    lemma_legal_up_to(f, f.pending.len() as int);
    assert(f.pending.take(f.pending.len() as int) == f.pending);
}

/// Law: compaction of a file whose pending lines are legal in their turns empties the pending
/// section, leaves one line for each identifier in strictly increasing order, keeps the
/// identifiers and the records, and leaves no padding: each line is that of the record it says.
/// Left out are records whose last value ends in a space.
pub proof fn law_compact_file(f: FileView)
    requires
        legal_file(f),
        compacted(f) is Ok,
        forall|u: Seq<char>| #[trigger]
            database(f).contains_key(u) ==> !ends_in_space(database(f)[u]),
    ensures
        ({
            let g = compacted(f)->Ok_0;
            &&& g.pending.len() == 0
            &&& ordered(uuid_parts(g.sorted))
            &&& sound(g) && database(g) == database(f)
            &&& forall|u: Seq<char>| byte_len(u) == 12 ==> #[trigger] holds(g, u) == holds(f, u)
            &&& forall|i: int, n: usize|
                0 <= i < g.sorted.len() ==> (#[trigger] record_of(g.sorted[i], n) matches Ok(r)
                    && g.sorted[i] == record_line(r.uuid, r.fields) && r.uuid == uuid_parts(
                    g.sorted,
                )[i] && database(f).contains_key(r.uuid) && r.fields == database(f)[r.uuid])
        }),
{
    law_legal_file_sound(f);
    law_compact(f);
    let g = compacted(f)->Ok_0;
    let m = merged(f)->Ok_0;
    let k = merged(g)->Ok_0;
    let us = final_uuids(m);
    law_final_uuids(m);
    assert forall|u: Seq<char>| byte_len(u) == 12 implies #[trigger] holds(g, u) == holds(f, u) by {
        assert(holds(g, u) == k.live(u));
        assert(holds(f, u) == m.live(u));
        assert(database(g).contains_key(u) <==> k.live(u));
        assert(database(f).contains_key(u) <==> m.live(u));
    }
    assert forall|i: int, n: usize| 0 <= i < g.sorted.len() implies (
    #[trigger] record_of(g.sorted[i], n) matches Ok(r) && g.sorted[i] == record_line(r.uuid, r.fields)
        && r.uuid == uuid_parts(g.sorted)[i] && database(f).contains_key(r.uuid) && r.fields
        == database(f)[r.uuid]) by {
        let u = us[i];
        assert(us.contains(u));
        assert(m.live(u));
        let fields = (m.records[u]->0).fields;
        assert(database(f).contains_key(u));
        law_parse_serialize(u, fields, 0, n);
        assert(record_line(u, fields) + spaces(0) == record_line(u, fields));
        assert(g.sorted[i] == record_line(u, fields));
    }
}

/// Law: a run of actions on a valid file that succeeds leaves, after compaction, the records that
/// the actions leave one after the other. Left out are records with an empty key or whose last
/// value ends in a space.
pub proof fn law_run_on_file(f: FileView, actions: Seq<ActionView>)
    requires
        valid_file(f),
        storable_from(database(f), actions, 0),
        applied_from(f, actions, 0).1 is Ok,
        forall|u: Seq<char>| #[trigger]
            effects(database(f), actions, 0).contains_key(u) ==> !ends_in_space(
                effects(database(f), actions, 0)[u],
            ),
    ensures
        compacted(applied_from(f, actions, 0).0) matches Ok(g) && sound(g) && database(g) == effects(
            database(f),
            actions,
            0,
        ),
{
    law_valid_file_sound(f);
    law_effects(f, actions);
    law_compact(applied_from(f, actions, 0).0);
}

/// Whether no value ends in a space.
pub open spec fn unspaced(m: Map<Seq<char>, Seq<char>>) -> bool {
    forall|k: Seq<char>| #[trigger] m.contains_key(k) ==> !(m[k].len() > 0 && m[k].last() == ' ')
}

/// Whether no value of a database ends in a space.
pub open spec fn unspaced_records(d: Map<Seq<char>, Map<Seq<char>, Seq<char>>>) -> bool {
    forall|u: Seq<char>| #[trigger] d.contains_key(u) ==> unspaced(d[u])
}

proof fn lemma_unspaced(m: Map<Seq<char>, Seq<char>>)
    requires
        unspaced(m),
        proper(m),
    ensures
        !ends_in_space(m),
{
    let ks = keys_of(m);
    lemma_listed_finite(m.dom());
    if ks.len() > 0 {
        assert(ks.contains(ks[ks.len() - 1]));
        assert(ks.to_set().contains(ks.last()));
        assert(m.contains_key(ks.last()));
    }
}

proof fn lemma_database_proper(f: FileView, u: Seq<char>)
    requires
        sound(f),
        database(f).contains_key(u),
    ensures
        proper(database(f)[u]),
{
    assert((merged(f)->Ok_0).live(u));
}

proof fn lemma_unspaced_run(f: FileView, actions: Seq<ActionView>, i: int)
    requires
        sound(f),
        0 <= i <= actions.len(),
        unspaced_records(database(f)),
        forall|k: int|
            0 <= k < actions.len() ==> is_uuid((#[trigger] actions[k]).uuid) && proper(
                actions[k].fields,
            ) && unspaced(actions[k].fields),
        applied_from(f, actions, i).1 is Ok,
    ensures
        storable_from(database(f), actions, i),
        sound(applied_from(f, actions, i).0),
        unspaced_records(database(applied_from(f, actions, i).0)),
    decreases actions.len() - i,
{
    if i < actions.len() {
        let a = actions[i];
        let d = database(f);
        let e = effect(d, a);
        let g = applied(f, a)->Ok_0;
        assert(is_uuid(a.uuid) && proper(a.fields) && unspaced(a.fields));
        if a.opcode == Opcode::Patch {
            law_held(f, a.uuid);
            lemma_database_proper(f, a.uuid);
            lemma_patched_proper(d[a.uuid], a.fields);
            assert(unspaced(d[a.uuid]));
            assert(unspaced(patched(d[a.uuid], a.fields)));
            lemma_unspaced(patched(d[a.uuid], a.fields));
        } else if a.opcode != Opcode::Delete {
            lemma_unspaced(a.fields);
        }
        law_effect(f, a, g);
        assert(unspaced_records(e)) by {
            assert forall|u: Seq<char>| #[trigger] e.contains_key(u) implies unspaced(e[u]) by {
                if u != a.uuid {
                    assert(d.contains_key(u));
                }
            }
        }
        lemma_unspaced_run(g, actions, i + 1);
    }
}

/// Law: a run of parsed actions on a valid file that succeeds leaves, after compaction, the records
/// that the actions leave one after the other, if no value of the file or of the actions ends in a
/// space.
pub proof fn law_unspaced_run_on_file(f: FileView, actions: Seq<ActionView>)
    requires
        valid_file(f),
        unspaced_records(database(f)),
        forall|k: int|
            0 <= k < actions.len() ==> is_uuid((#[trigger] actions[k]).uuid) && proper(
                actions[k].fields,
            ) && unspaced(actions[k].fields),
        applied_from(f, actions, 0).1 is Ok,
    ensures
        compacted(applied_from(f, actions, 0).0) matches Ok(g) && sound(g) && database(g) == effects(
            database(f),
            actions,
            0,
        ),
{
    law_valid_file_sound(f);
    lemma_unspaced_run(f, actions, 0);
    law_effects(f, actions);
    let g = applied_from(f, actions, 0).0;
    assert forall|u: Seq<char>| #[trigger] database(g).contains_key(u) implies !ends_in_space(
        database(g)[u],
    ) by {
        lemma_database_proper(g, u);
        lemma_unspaced(database(g)[u]);
    }
    law_compact(g);
}

/// Law: actions change no record but those that they name.
pub proof fn law_others_unchanged(
    d: Map<Seq<char>, Map<Seq<char>, Seq<char>>>,
    actions: Seq<ActionView>,
    i: int,
    u: Seq<char>,
)
    requires
        0 <= i <= actions.len(),
        forall|k: int| i <= k < actions.len() ==> (#[trigger] actions[k]).uuid != u,
    ensures
        effects(d, actions, i).contains_key(u) == d.contains_key(u),
        effects(d, actions, i)[u] == d[u],
    decreases actions.len() - i,
{
    if i < actions.len() {
        law_others_unchanged(effect(d, actions[i]), actions, i + 1, u);
    }
}

/// Law: of actions that name different identifiers, each leaves its record as its opcode says: an
/// append or an upsert its fields, a patch the old fields with those that it names set or removed,
/// a delete none.
pub proof fn law_each_as_its_opcode(
    d: Map<Seq<char>, Map<Seq<char>, Seq<char>>>,
    actions: Seq<ActionView>,
    i: int,
    k: int,
)
    requires
        0 <= i <= k < actions.len(),
        forall|a: int, b: int|
            0 <= a < actions.len() && 0 <= b < actions.len() && a != b ==> (#[trigger] actions[a]).uuid
                != (#[trigger] actions[b]).uuid,
    ensures
        ({
            let a = actions[k];
            let e = effects(d, actions, i);
            match a.opcode {
                Opcode::Append => e.contains_key(a.uuid) && e[a.uuid] == a.fields,
                Opcode::Upsert => e.contains_key(a.uuid) && e[a.uuid] == a.fields,
                Opcode::Patch => e.contains_key(a.uuid) && e[a.uuid] == patched(d[a.uuid], a.fields),
                Opcode::Delete => !e.contains_key(a.uuid),
            }
        }),
    decreases actions.len() - i,
{
    let e = effect(d, actions[i]);
    if i == k {
        assert forall|j: int| i + 1 <= j < actions.len() implies (#[trigger] actions[j]).uuid
            != actions[k].uuid by {
            assert(actions[j].uuid != actions[k].uuid);
        }
        law_others_unchanged(e, actions, i + 1, actions[k].uuid);
    } else {
        assert(actions[i].uuid != actions[k].uuid);
        law_each_as_its_opcode(e, actions, i + 1, k);
    }
}

} // verus!
