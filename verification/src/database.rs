//! Laws of the database: what a file holds, and what actions and compaction do to it.
use crate::action::{
    last_values, lemma_pairs_keyed, pairs_from, proper, stored_fields, stored_parts, ActionView, Opcode,
};
use crate::apply::{
    applied, delete_line, emptied_error, insert_line, only_removes, patch_empties, patch_line, with_pending,
    with_sorted_line,
};
use crate::base62::{is_uuid, lemma_uuid_chars};
use crate::compact::{
    compacted, deduped, final_lines, final_uuids, in_order, live_of, merge_line, merge_pending,
    merge_sorted, merged, patch_of, put_in_order, MergeView,
};
use crate::dotsv::{
    cut, holds, mentions, pending_state, search, sorted_place, unmentioned, uuid_part, uuid_parts,
    FileView,
};
use crate::error::ErrorView;
use crate::fields::keys_of;
use crate::record::{
    ends_in_space, field_texts, law_parse_serialize, lemma_read_fields, patched, record_line,
    record_of, spaces, tombstone, trim_last, RecordView,
};
use crate::sorted::{lemma_ordered_distinct, lemma_ordered_unique, ordered};
use crate::text::{
    byte_len, byte_prefix, byte_suffix, join, lemma_encode_concat, lemma_encode_injective,
    lemma_join_first, lemma_lead_byte, lemma_split_bytes_concat, lemma_split_join,
    lemma_str_lt_irreflexive, lemma_str_lt_total, lemma_str_lt_transitive, lines, split, splits_at,
    str_lt,
};
use vstd::prelude::*;
use vstd::utf8::*;

verus! {

proof fn lemma_search(us: Seq<Seq<char>>, uuid: Seq<char>, lo: int, hi: int)
    requires
        ordered(us),
        0 <= lo <= hi <= us.len(),
        forall|i: int| 0 <= i < lo ==> str_lt(#[trigger] us[i], uuid),
        forall|i: int| hi <= i < us.len() ==> str_lt(uuid, #[trigger] us[i]),
    ensures
        match search(us, uuid, lo, hi) {
            Ok(i) => 0 <= i < us.len() && us[i] == uuid,
            Err(p) => 0 <= p <= us.len() && (forall|i: int|
                0 <= i < p ==> str_lt(#[trigger] us[i], uuid)) && (forall|i: int|
                p <= i < us.len() ==> str_lt(uuid, #[trigger] us[i])),
        },
    decreases hi - lo,
{
    if lo < hi {
        let mid = lo + (hi - lo) / 2;
        if us[mid] == uuid {
        } else if str_lt(us[mid], uuid) {
            assert forall|i: int| 0 <= i < mid + 1 implies str_lt(#[trigger] us[i], uuid) by {
                if lo <= i < mid {
                    assert(str_lt(us[i], us[mid]));
                    lemma_str_lt_transitive(us[i], us[mid], uuid);
                }
            }
            lemma_search(us, uuid, mid + 1, hi);
        } else {
            lemma_str_lt_total(us[mid], uuid);
            assert forall|i: int| mid <= i < us.len() implies str_lt(uuid, #[trigger] us[i]) by {
                if mid < i {
                    assert(str_lt(us[mid], us[i]));
                    lemma_str_lt_transitive(uuid, us[mid], us[i]);
                }
            }
            lemma_search(us, uuid, lo, mid);
        }
    }
}

/// Law: in an ordered section binary search finds an identifier exactly if it is there, and
/// otherwise the place that keeps the order.
pub proof fn law_binary_search(us: Seq<Seq<char>>, uuid: Seq<char>)
    requires
        ordered(us),
    ensures
        match search(us, uuid, 0, us.len() as int) {
            Ok(i) => 0 <= i < us.len() && us[i] == uuid,
            Err(p) => 0 <= p <= us.len() && !us.contains(uuid) && (forall|i: int|
                0 <= i < p ==> str_lt(#[trigger] us[i], uuid)) && (forall|i: int|
                p <= i < us.len() ==> str_lt(uuid, #[trigger] us[i])),
        },
{
    lemma_search(us, uuid, 0, us.len() as int);
    if search(us, uuid, 0, us.len() as int) is Err && us.contains(uuid) {
        let i = choose|i: int| 0 <= i < us.len() && us[i] == uuid;
        lemma_str_lt_irreflexive(us[i]);
    }
}

/// The records that a merge leaves, by their identifiers.
pub open spec fn contents(m: MergeView) -> Map<Seq<char>, Map<Seq<char>, Seq<char>>> {
    Map::new(|u: Seq<char>| m.live(u), |u: Seq<char>| (m.records[u]->0).fields)
}

/// Whether a merge state is one that the records and operations of a file make: each identifier
/// was listed once, and each record stands under its own identifier.
pub open spec fn sound_merge(m: MergeView) -> bool {
    &&& m.order.no_duplicates()
    &&& forall|u: Seq<char>| #[trigger] m.order.contains(u) <==> m.records.contains_key(u)
    &&& forall|u: Seq<char>| #[trigger]
        m.live(u) ==> is_uuid(u) && (m.records[u]->0).uuid == u && proper(
            (m.records[u]->0).fields,
        )
}

/// Whether a file is a sound database: its sorted section is in order, its operations can be
/// merged, and the identifiers it holds are those that have a record after merging.
pub open spec fn sound(f: FileView) -> bool {
    &&& ordered(uuid_parts(f.sorted))
    &&& merged(f) is Ok
    &&& sound_merge(merged(f)->Ok_0)
    &&& forall|u: Seq<char>| byte_len(u) == 12 ==> #[trigger] holds(f, u) == (merged(f)->Ok_0).live(u)
}

/// The records of a sound database.
pub open spec fn database(f: FileView) -> Map<Seq<char>, Map<Seq<char>, Seq<char>>> {
    contents(merged(f)->Ok_0)
}

/// Law: the empty file is a sound database without records.
pub proof fn law_empty_sound()
    ensures
        sound(FileView { sorted: Seq::empty(), pending: Seq::empty() }),
        database(FileView { sorted: Seq::empty(), pending: Seq::empty() }) == Map::<
            Seq<char>,
            Map<Seq<char>, Seq<char>>,
        >::empty(),
{
    let f = FileView { sorted: Seq::empty(), pending: Seq::empty() };
    let m = merged(f)->Ok_0;
    assert(m == MergeView::start());
    assert forall|u: Seq<char>| byte_len(u) == 12 implies #[trigger] holds(f, u) == m.live(u) by {
        assert(search(uuid_parts(f.sorted), u, 0, 0) is Err);
    }
    assert(database(f) =~= Map::empty());
}

pub proof fn lemma_merge_pending_push(ls: Seq<Seq<char>>, x: Seq<char>, i: int, m: MergeView)
    requires
        0 <= i <= ls.len(),
        x.len() > 0,
    ensures
        merge_pending(ls.push(x), i, m) == (match merge_pending(ls, i, m) {
            Err(e) => Err::<MergeView, ErrorView>(e),
            Ok(m2) => merge_line(m2, x, (ls.len() + 1) as usize),
        }),
    decreases ls.len() - i,
{
    let all = ls.push(x);
    if i == ls.len() {
        assert(all[i] == x);
        match merge_line(m, x, (i + 1) as usize) {
            Ok(m2) => assert(merge_pending(all, i + 1, m2) == Ok::<MergeView, ErrorView>(m2)),
            Err(e) => {},
        }
    } else {
        assert(all[i] == ls[i]);
        if ls[i].len() == 0 {
            lemma_merge_pending_push(ls, x, i + 1, m);
        } else {
            match merge_line(m, ls[i], (i + 1) as usize) {
                Ok(m2) => lemma_merge_pending_push(ls, x, i + 1, m2),
                Err(e) => {},
            }
        }
    }
}

/// A line that starts with an opcode and a twelve-byte identifier, taken apart.
pub proof fn lemma_op_line(op: char, uuid: Seq<char>, tail: Seq<char>)
    requires
        op as u32 <= 0x7F,
        byte_len(uuid) == 12,
    ensures
        ({
            let line = seq![op] + uuid + tail;
            &&& line.skip(1) == uuid + tail
            &&& line[0] == op
            &&& line.len() > 0
            &&& byte_len(line.skip(1)) >= 12
            &&& splits_at(line.skip(1), 12)
            &&& byte_prefix(line.skip(1), 12) == uuid
            &&& byte_suffix(line.skip(1), 12) == tail
            &&& forall|v: Seq<char>| #[trigger] mentions(line, v) <==> v == uuid
        }),
{
    let line = seq![op] + uuid + tail;
    assert(line.skip(1) == uuid + tail);
    lemma_split_bytes_concat(uuid, tail);
    lemma_encode_concat(seq![op], uuid + tail);
    lemma_encode_concat(uuid, tail);
    assert(seq![op] + (uuid + tail) == line);
    lemma_lead_byte(op);
    assert(seq![op].drop_first() == Seq::<char>::empty());
    assert(encode_utf8(seq![op]) == encode_scalar(op as u32) + encode_utf8(Seq::<char>::empty()));
    assert(encode_utf8(seq![op]) == seq![op as u8]);
    assert(encode_utf8(line).subrange(1, 13) == encode_utf8(uuid));
    assert forall|v: Seq<char>| #[trigger] mentions(line, v) <==> v == uuid by {
        if mentions(line, v) {
            lemma_encode_injective(v, uuid);
        }
    }
}

pub proof fn lemma_pending_state_push(p: Seq<Seq<char>>, x: Seq<char>, v: Seq<char>)
    ensures
        pending_state(p.push(x), v) == (if mentions(x, v) {
            Some(x[0] != '-')
        } else {
            pending_state(p, v)
        }),
{
    assert(p.push(x).drop_last() == p);
}

/// The line of a record starts with its identifier.
pub proof fn lemma_record_line_starts(uuid: Seq<char>, m: Map<Seq<char>, Seq<char>>) -> (tail: Seq<char>)
    ensures
        record_line(uuid, m) == uuid + tail,
        tail.len() > 0 ==> tail[0] == '\t',
        keys_of(m).len() > 0 <==> tail.len() > 0,
{
    reveal_strlit("\t");
    let parts = seq![uuid] + field_texts(m);
    if parts.len() >= 2 {
        lemma_join_first(parts, "\t"@);
        let tail = "\t"@ + join(parts.skip(1), "\t"@);
        assert(record_line(uuid, m) == uuid + tail);
        tail
    } else {
        let tail = Seq::<char>::empty();
        assert(parts[0] == uuid);
        assert(record_line(uuid, m) == uuid + tail);
        tail
    }
}

/// The identifier of a line that starts with it.
pub proof fn lemma_uuid_part_of(uuid: Seq<char>, tail: Seq<char>)
    requires
        is_uuid(uuid),
    ensures
        uuid_part(uuid + tail) == uuid,
{
    lemma_uuid_chars(uuid);
    let line = uuid + tail;
    lemma_split_bytes_concat(uuid, tail);
    assert(line[0] == uuid[0]);
    assert(65 <= uuid[0] as u32 <= 90);
    assert(cut(line, 12) == 12);
}

proof fn lemma_split_first(s: Seq<char>, sep: char)
    ensures
        split(s, sep).len() >= 1,
        split(s, sep)[0].len() <= s.len(),
        split(s, sep)[0] == s.take(split(s, sep)[0].len() as int),
        split(s, sep).len() == 1 ==> split(s, sep)[0] == s,
    decreases s.len(),
{
    if s.len() == 0 {
        assert(s.take(0) == Seq::<char>::empty());
        assert(s == Seq::<char>::empty());
    } else {
        let d = s.drop_last();
        lemma_split_first(d, sep);
        let p = split(d, sep);
        let n = p[0].len() as int;
        assert(d.take(n) == s.take(n));
        if s.last() != sep && p.len() == 1 {
            assert(p[0] == d);
            assert(d.push(s.last()) == s);
            assert(split(s, sep) == Seq::<Seq<char>>::empty().push(s));
            assert(s.take(s.len() as int) == s);
        }
    }
}

/// A line that reads as a record starts with the identifier of the record.
pub proof fn lemma_record_of_uuid(line: Seq<char>, n: usize)
    requires
        record_of(line, n) is Ok,
    ensures
        is_uuid((record_of(line, n)->Ok_0).uuid),
        uuid_part(line) == (record_of(line, n)->Ok_0).uuid,
        proper((record_of(line, n)->Ok_0).fields),
{
    let u = split(line, '\t')[0];
    lemma_split_first(line, '\t');
    lemma_uuid_part_of(u, line.skip(u.len() as int));
    assert(u + line.skip(u.len() as int) == line);
    lemma_stored_proper(trim_last(split(line, '\t').skip(1)), n);
}

proof fn lemma_last_values_proper(p: Seq<(Seq<char>, Seq<char>)>)
    requires
        forall|j: int| 0 <= j < p.len() ==> (#[trigger] p[j]).0.len() > 0,
    ensures
        proper(last_values(p)),
    decreases p.len(),
{
    if p.len() > 0 {
        let d = p.drop_last();
        assert forall|j: int| 0 <= j < d.len() implies (#[trigger] d[j]).0.len() > 0 by {
            assert(d[j] == p[j]);
        }
        assert(p[p.len() - 1].0.len() > 0);
        lemma_last_values_proper(d);
    }
}

pub proof fn lemma_stored_proper(parts: Seq<Seq<char>>, n: usize)
    ensures
        stored_parts(parts, n) matches Ok(m) ==> proper(m),
{
    lemma_pairs_keyed(parts, 0, n, false);
    match pairs_from(parts, 0, n, false) {
        Ok(p) => lemma_last_values_proper(p),
        Err(e) => {},
    }
}

pub proof fn lemma_patched_proper(m: Map<Seq<char>, Seq<char>>, patch: Map<Seq<char>, Seq<char>>)
    requires
        proper(m),
        proper(patch),
    ensures
        proper(patched(m, patch)),
{
    assert(patched(m, patch).dom().subset_of(m.dom().union(patch.dom())));
    vstd::set_lib::lemma_set_subset_finite(m.dom().union(patch.dom()), patched(m, patch).dom());
}

/// What merging the line of an insertion does.
proof fn lemma_merge_insert_line(
    m: MergeView,
    uuid: Seq<char>,
    fields: Map<Seq<char>, Seq<char>>,
    n: usize,
)
    requires
        is_uuid(uuid),
        proper(fields),
        !ends_in_space(fields),
    ensures
        merge_line(m, insert_line(uuid, fields), n) == Ok::<MergeView, ErrorView>(
            m.with_inserted(uuid, RecordView { uuid, fields }),
        ),
        insert_line(uuid, fields).len() > 0,
        insert_line(uuid, fields)[0] == '+',
        forall|v: Seq<char>| #[trigger] mentions(insert_line(uuid, fields), v) <==> v == uuid,
{
    reveal(merge_line);
    reveal_strlit("+");
    lemma_uuid_chars(uuid);
    let tail = lemma_record_line_starts(uuid, fields);
    lemma_op_line('+', uuid, tail);
    let line = insert_line(uuid, fields);
    assert("+"@ == seq!['+']);
    assert(line == seq!['+'] + uuid + tail);
    law_parse_serialize(uuid, fields, 0, n);
    assert(record_line(uuid, fields) + spaces(0) == record_line(uuid, fields));
}

/// Law: an append adds its record and changes no other. Left out are records with an empty key or
/// whose last value ends in a space.
pub proof fn law_append(f: FileView, a: ActionView, g: FileView)
    requires
        sound(f),
        a.opcode == Opcode::Append,
        is_uuid(a.uuid),
        proper(a.fields),
        !ends_in_space(a.fields),
        applied(f, a) == Ok::<FileView, ErrorView>(g),
    ensures
        sound(g),
        holds(g, a.uuid),
        database(g) == database(f).insert(a.uuid, a.fields),
{
    lemma_inserted(f, a.uuid, a.fields, g);
}

/// One more pending insertion.
proof fn lemma_inserted(
    f: FileView,
    uuid: Seq<char>,
    fields: Map<Seq<char>, Seq<char>>,
    g: FileView,
)
    requires
        sound(f),
        is_uuid(uuid),
        proper(fields),
        !ends_in_space(fields),
        g == with_pending(f, insert_line(uuid, fields)),
    ensures
        sound(g),
        holds(g, uuid),
        database(g) == database(f).insert(uuid, fields),
{
    let line = insert_line(uuid, fields);
    let m = merged(f)->Ok_0;
    let r = RecordView { uuid, fields };
    let n = (f.pending.len() + 1) as usize;
    lemma_merge_insert_line(m, uuid, fields, n);
    lemma_merged_push(f, line);
    let m2 = m.with_inserted(uuid, r);
    lemma_uuid_chars(uuid);
    assert forall|v: Seq<char>| #[trigger] m2.order.contains(v) <==> m2.records.contains_key(v) by {
        assert(m.order.contains(v) <==> m.records.contains_key(v));
        if m2.order != m.order {
            assert(m2.order[m.order.len() as int] == uuid);
            if m.order.contains(v) {
                let i = choose|i: int| 0 <= i < m.order.len() && m.order[i] == v;
                assert(m2.order[i] == v);
            }
        }
    }
    assert(m2.order.no_duplicates()) by {
        if m2.order != m.order {
            assert(!m.order.contains(uuid));
        }
    }
    assert forall|v: Seq<char>| #[trigger] m2.live(v) implies is_uuid(v) && (m2.records[v]->0).uuid
        == v && proper((m2.records[v]->0).fields) by {
        if v != uuid {
            assert(m.live(v));
        }
    }
    assert forall|v: Seq<char>| byte_len(v) == 12 implies #[trigger] holds(g, v) == m2.live(v) by {
        lemma_pending_state_push(f.pending, line, v);
        assert(mentions(line, v) <==> v == uuid);
        assert(holds(f, v) == m.live(v));
    }
    assert(database(g) =~= database(f).insert(uuid, fields));
}

pub proof fn lemma_merged_push(f: FileView, line: Seq<char>)
    requires
        merged(f) is Ok,
        line.len() > 0,
    ensures
        merged(with_pending(f, line)) == merge_line(
            merged(f)->Ok_0,
            line,
            (f.pending.len() + 1) as usize,
        ),
{
    let ms = merge_sorted(f.sorted, 0, MergeView::start())->Ok_0;
    lemma_merge_pending_push(f.pending, line, 0, ms);
}

/// Law: a delete removes its record and changes no other.
pub proof fn law_delete(f: FileView, a: ActionView, g: FileView)
    requires
        sound(f),
        a.opcode == Opcode::Delete,
        is_uuid(a.uuid),
        applied(f, a) == Ok::<FileView, ErrorView>(g),
    ensures
        sound(g),
        !holds(g, a.uuid),
        database(g) == database(f).remove(a.uuid),
{
    reveal(merge_line);
    reveal_strlit("-");
    let uuid = a.uuid;
    lemma_uuid_chars(uuid);
    lemma_op_line('-', uuid, Seq::empty());
    let line = delete_line(uuid);
    assert("-"@ == seq!['-']);
    assert(line == seq!['-'] + uuid + Seq::<char>::empty());
    let m = merged(f)->Ok_0;
    lemma_merged_push(f, line);
    let m2 = m.with_deleted(uuid);
    assert(holds(f, uuid) == m.live(uuid));
    assert forall|v: Seq<char>| #[trigger] m2.order.contains(v) <==> m2.records.contains_key(v) by {
        assert(m.order.contains(v) <==> m.records.contains_key(v));
    }
    assert forall|v: Seq<char>| #[trigger] m2.live(v) implies is_uuid(v) && (m2.records[v]->0).uuid
        == v && proper((m2.records[v]->0).fields) by {
        assert(m.live(v));
    }
    assert forall|v: Seq<char>| byte_len(v) == 12 implies #[trigger] holds(g, v) == m2.live(v) by {
        lemma_pending_state_push(f.pending, line, v);
        assert(mentions(line, v) <==> v == uuid);
        assert(holds(f, v) == m.live(v));
    }
    assert(holds(g, uuid) == m2.live(uuid));
    assert(database(g) =~= database(f).remove(uuid));
}

/// Reading the fields of a patch line gives the patch.
proof fn lemma_read_patch(m: Map<Seq<char>, Seq<char>>, n: usize)
    requires
        proper(m),
    ensures
        stored_fields(join(field_texts(m), "\t"@), n) == Ok::<
            Map<Seq<char>, Seq<char>>,
            ErrorView,
        >(m),
{
    reveal_strlit("\t");
    assert("\t"@ == seq!['\t']);
    let texts = field_texts(m);
    crate::sorted::lemma_listed_finite(m.dom());
    if texts.len() == 0 {
        assert(join(texts, "\t"@) == Seq::<char>::empty());
        assert(split(Seq::<char>::empty(), '\t') == seq![Seq::<char>::empty()]);
        let parts = seq![Seq::<char>::empty()];
        assert(pairs_from(parts, 1, n, false) == Ok::<Seq<(Seq<char>, Seq<char>)>, ErrorView>(
            Seq::empty(),
        ));
        assert(pairs_from(parts, 0, n, false) == Ok::<Seq<(Seq<char>, Seq<char>)>, ErrorView>(
            Seq::empty(),
        ));
        assert(keys_of(m).to_set() =~= Set::<Seq<char>>::empty());
        assert(m =~= Map::<Seq<char>, Seq<char>>::empty());
    } else {
        assert forall|i: int| 0 <= i < texts.len() implies !(#[trigger] texts[i]).contains('\t') by {
            let k = keys_of(m)[i];
            crate::record::lemma_field_has_no_tab(k, m[k]);
        }
        lemma_split_join(texts, '\t');
        lemma_read_fields(m, n);
    }
}

/// One more pending patch.
proof fn lemma_patched_pending(
    f: FileView,
    uuid: Seq<char>,
    patch: Map<Seq<char>, Seq<char>>,
    g: FileView,
)
    requires
        sound(f),
        is_uuid(uuid),
        proper(patch),
        holds(f, uuid),
        patched(database(f)[uuid], patch) != Map::<Seq<char>, Seq<char>>::empty(),
        g == with_pending(f, patch_line(uuid, patch)),
    ensures
        sound(g),
        holds(g, uuid),
        database(g) == database(f).insert(uuid, patched(database(f)[uuid], patch)),
{
    reveal(merge_line);
    reveal_strlit("~");
    reveal_strlit("\t");
    lemma_uuid_chars(uuid);
    let body = join(field_texts(patch), "\t"@);
    let tail = "\t"@ + body;
    lemma_op_line('~', uuid, tail);
    let line = patch_line(uuid, patch);
    assert("~"@ == seq!['~']);
    assert(line == seq!['~'] + uuid + tail);
    let m = merged(f)->Ok_0;
    let n = (f.pending.len() + 1) as usize;
    assert(tail.skip(1) == body);
    lemma_read_patch(patch, n);
    assert(patch_of(tail, n) == Ok::<Map<Seq<char>, Seq<char>>, ErrorView>(patch));
    lemma_merged_push(f, line);
    assert(holds(f, uuid) == m.live(uuid));
    let r = m.records[uuid]->0;
    let fields = patched(r.fields, patch);
    let m2 = MergeView {
        records: m.records.insert(uuid, Some(RecordView { uuid: r.uuid, fields })),
        order: m.order,
    };
    assert(merged(g) == Ok::<MergeView, ErrorView>(m2));
    lemma_patched_proper(r.fields, patch);
    assert forall|v: Seq<char>| #[trigger] m2.order.contains(v) <==> m2.records.contains_key(v) by {
        assert(m.order.contains(v) <==> m.records.contains_key(v));
    }
    assert forall|v: Seq<char>| #[trigger] m2.live(v) implies is_uuid(v) && (m2.records[v]->0).uuid
        == v && proper((m2.records[v]->0).fields) by {
        assert(m.live(v));
    }
    assert forall|v: Seq<char>| byte_len(v) == 12 implies #[trigger] holds(g, v) == m2.live(v) by {
        lemma_pending_state_push(f.pending, line, v);
        assert(mentions(line, v) <==> v == uuid);
        assert(holds(f, v) == m.live(v));
    }
    assert(holds(g, uuid) == m2.live(uuid));
    assert(database(g) =~= database(f).insert(uuid, patched(database(f)[uuid], patch)));
}

/// The state with another record under `uuid`.
pub open spec fn with_record(m: MergeView, uuid: Seq<char>, r: RecordView) -> MergeView {
    MergeView { records: m.records.insert(uuid, Some(r)), order: m.order }
}

/// The identifier that a mergeable pending line is about.
proof fn lemma_merge_line_uuid(m: MergeView, line: Seq<char>, n: usize, u: Seq<char>)
    requires
        line.len() > 0,
        merge_line(m, line, n) is Ok,
        byte_prefix(line.skip(1), 12) == u,
    ensures
        mentions(line, u),
{
    reveal(merge_line);
    let rest = line.skip(1);
    let op = line[0];
    assert(op == '+' || op == '-' || op == '~');
    let e = encode_utf8(rest);
    encode_utf8_valid_utf8(rest);
    valid_utf8_split(e, 12);
    decode_utf8_encode_utf8(e.subrange(0, 12));
    assert(encode_utf8(u) == e.subrange(0, 12));
    lemma_encode_concat(seq![op], rest);
    assert(seq![op] + rest == line);
    lemma_lead_byte(op);
    assert(seq![op].drop_first() == Seq::<char>::empty());
    assert(encode_utf8(seq![op]) == encode_scalar(op as u32) + encode_utf8(Seq::<char>::empty()));
    assert(encode_utf8(seq![op]) == seq![op as u8]);
    assert(encode_utf8(line).subrange(1, 13) == e.subrange(0, 12));
}

/// A line about other identifiers neither reads nor changes the record of `u`.
proof fn lemma_merge_line_other(
    m: MergeView,
    line: Seq<char>,
    n: usize,
    u: Seq<char>,
    x: RecordView,
)
    requires
        line.len() > 0,
        merge_line(m, line, n) is Ok,
        !mentions(line, u),
        m.records.contains_key(u),
    ensures
        merge_line(with_record(m, u, x), line, n) == Ok::<MergeView, ErrorView>(
            with_record(merge_line(m, line, n)->Ok_0, u, x),
        ),
        (merge_line(m, line, n)->Ok_0).records.contains_key(u),
        (merge_line(m, line, n)->Ok_0).records[u] == m.records[u],
{
    let v = byte_prefix(line.skip(1), 12);
    if v == u {
        lemma_merge_line_uuid(m, line, n, u);
    }
    reveal(merge_line);
    let m2 = with_record(m, u, x);
    let r = merge_line(m, line, n)->Ok_0;
    if line[0] == '+' {
        let rec = record_of(line.skip(1), n)->Ok_0;
        assert(m2.with_inserted(v, rec).records =~= with_record(r, u, x).records);
    } else if line[0] == '-' {
        assert(m2.with_deleted(v).records =~= with_record(r, u, x).records);
    } else {
        assert(m2.live(v) == m.live(v));
        if m.live(v) {
            let patch = patch_of(byte_suffix(line.skip(1), 12), n)->Ok_0;
            let o = m.records[v]->0;
            let y = RecordView { uuid: o.uuid, fields: patched(o.fields, patch) };
            assert(m2.records.insert(v, Some(y)) =~= m.records.insert(v, Some(y)).insert(
                u,
                Some(x),
            ));
        }
    }
}

proof fn lemma_merge_pending_other(
    ls: Seq<Seq<char>>,
    i: int,
    m: MergeView,
    u: Seq<char>,
    x: RecordView,
)
    requires
        0 <= i <= ls.len(),
        merge_pending(ls, i, m) is Ok,
        forall|k: int| 0 <= k < ls.len() ==> !mentions(#[trigger] ls[k], u),
        m.records.contains_key(u),
    ensures
        merge_pending(ls, i, with_record(m, u, x)) == Ok::<MergeView, ErrorView>(
            with_record(merge_pending(ls, i, m)->Ok_0, u, x),
        ),
        (merge_pending(ls, i, m)->Ok_0).records.contains_key(u),
        (merge_pending(ls, i, m)->Ok_0).records[u] == m.records[u],
    decreases ls.len() - i,
{
    if i < ls.len() {
        if ls[i].len() == 0 {
            lemma_merge_pending_other(ls, i + 1, m, u, x);
        } else {
            assert(!mentions(ls[i], u));
            lemma_merge_line_other(m, ls[i], (i + 1) as usize, u, x);
            let m2 = merge_line(m, ls[i], (i + 1) as usize)->Ok_0;
            lemma_merge_pending_other(ls, i + 1, m2, u, x);
        }
    }
}

/// Sorted lines of other identifiers neither read nor change the record of `u`.
proof fn lemma_merge_sorted_other(
    ls: Seq<Seq<char>>,
    i: int,
    m: MergeView,
    u: Seq<char>,
    x: RecordView,
)
    requires
        0 <= i <= ls.len(),
        merge_sorted(ls, i, m) is Ok,
        forall|k: int| i <= k < ls.len() ==> uuid_part(#[trigger] ls[k]) != u,
        m.records.contains_key(u),
    ensures
        merge_sorted(ls, i, with_record(m, u, x)) == Ok::<MergeView, ErrorView>(
            with_record(merge_sorted(ls, i, m)->Ok_0, u, x),
        ),
        (merge_sorted(ls, i, m)->Ok_0).records.contains_key(u),
        (merge_sorted(ls, i, m)->Ok_0).records[u] == m.records[u],
    decreases ls.len() - i,
{
    if i < ls.len() {
        if ls[i].len() == 0 {
            lemma_merge_sorted_other(ls, i + 1, m, u, x);
        } else {
            let n = (i + 1) as usize;
            lemma_record_of_uuid(ls[i], n);
            let r = record_of(ls[i], n)->Ok_0;
            assert(uuid_part(ls[i]) == r.uuid);
            let m2 = m.with_sorted(r);
            lemma_merge_sorted_other(ls, i + 1, m2, u, x);
            assert(with_record(m, u, x).with_sorted(r).records =~= with_record(m2, u, x).records);
            assert(with_record(m, u, x).with_sorted(r) == with_record(m2, u, x));
        }
    }
}

/// Merging a sorted section in which one line was exchanged for another of the same identifier.
proof fn lemma_merge_sorted_update(
    ls: Seq<Seq<char>>,
    i: int,
    line: Seq<char>,
    x: RecordView,
    j: int,
    m: MergeView,
)
    requires
        0 <= j <= i < ls.len(),
        ordered(uuid_parts(ls)),
        merge_sorted(ls, j, m) is Ok,
        line.len() > 0,
        ls[i].len() > 0,
        uuid_part(ls[i]) == x.uuid,
        forall|n: usize| record_of(line, n) == Ok::<RecordView, ErrorView>(x),
    ensures
        merge_sorted(ls.update(i, line), j, m) == Ok::<MergeView, ErrorView>(
            with_record(merge_sorted(ls, j, m)->Ok_0, x.uuid, x),
        ),
        (merge_sorted(ls, j, m)->Ok_0).records.contains_key(x.uuid),
        exists|n: usize|
            record_of(ls[i], n) is Ok && (merge_sorted(ls, j, m)->Ok_0).records[x.uuid] == Some(
                #[trigger] record_of(ls[i], n)->Ok_0,
            ),
    decreases ls.len() - j,
{
    let ls2 = ls.update(i, line);
    let n = (j + 1) as usize;
    if j < i {
        assert(ls2[j] == ls[j]);
        if ls[j].len() == 0 {
            lemma_merge_sorted_update(ls, i, line, x, j + 1, m);
        } else {
            let r = record_of(ls[j], n)->Ok_0;
            lemma_merge_sorted_update(ls, i, line, x, j + 1, m.with_sorted(r));
        }
    } else {
        let r = record_of(ls[i], n)->Ok_0;
        lemma_record_of_uuid(ls[i], n);
        let m2 = m.with_sorted(r);
        assert forall|k: int| i + 1 <= k < ls2.len() implies uuid_part(#[trigger] ls2[k]) != x.uuid by {
            assert(ls2[k] == ls[k]);
            assert(uuid_parts(ls)[k] == uuid_part(ls[k]));
            assert(uuid_parts(ls)[i] == uuid_part(ls[i]));
            if uuid_part(ls[k]) == x.uuid {
                lemma_ordered_distinct(uuid_parts(ls), i, k);
            }
        }
        lemma_merge_sorted_same_tail(ls, ls2, i + 1, m2);
        lemma_merge_sorted_other(ls2, i + 1, m2, x.uuid, x);
        assert(ls2[i] == line);
        assert(record_of(line, n) == Ok::<RecordView, ErrorView>(x));
        assert(m.with_sorted(x).records =~= with_record(m2, x.uuid, x).records);
        assert(m.with_sorted(x) == with_record(m2, x.uuid, x));
        assert((merge_sorted(ls, j, m)->Ok_0).records[x.uuid] == Some(record_of(ls[i], n)->Ok_0));
    }
}

proof fn lemma_merge_sorted_same_tail(a: Seq<Seq<char>>, b: Seq<Seq<char>>, i: int, m: MergeView)
    requires
        a.len() == b.len(),
        forall|k: int| i <= k < a.len() ==> a[k] == #[trigger] b[k],
        0 <= i <= a.len(),
    ensures
        merge_sorted(a, i, m) == merge_sorted(b, i, m),
    decreases a.len() - i,
{
    if i < a.len() {
        assert(a[i] == b[i]);
        if a[i].len() == 0 {
            lemma_merge_sorted_same_tail(a, b, i + 1, m);
        } else {
            match record_of(a[i], (i + 1) as usize) {
                Ok(r) => lemma_merge_sorted_same_tail(a, b, i + 1, m.with_sorted(r)),
                Err(e) => {},
            }
        }
    }
}

pub proof fn lemma_pending_state_none(p: Seq<Seq<char>>, u: Seq<char>)
    requires
        forall|k: int| 0 <= k < p.len() ==> !mentions(#[trigger] p[k], u),
    ensures
        pending_state(p, u) is None,
    decreases p.len(),
{
    if p.len() > 0 {
        assert(p.last() == p[p.len() - 1]);
        assert forall|k: int| 0 <= k < p.drop_last().len() implies !mentions(
            #[trigger] p.drop_last()[k],
            u,
        ) by {
            assert(p.drop_last()[k] == p[k]);
        }
        lemma_pending_state_none(p.drop_last(), u);
    }
}

/// A record written over its old line in the sorted section.
proof fn lemma_overwritten(f: FileView, i: int, uuid: Seq<char>, fields: Map<Seq<char>, Seq<char>>)
    requires
        sound(f),
        is_uuid(uuid),
        sorted_place(f, uuid) == Ok::<int, int>(i),
        0 <= i < f.sorted.len(),
        unmentioned(f, uuid),
        proper(fields),
        fields != Map::<Seq<char>, Seq<char>>::empty(),
        !ends_in_space(fields),
    ensures
        sound(with_sorted_line(f, i, record_line(uuid, fields))),
        holds(with_sorted_line(f, i, record_line(uuid, fields)), uuid),
        database(with_sorted_line(f, i, record_line(uuid, fields))) == database(f).insert(
            uuid,
            fields,
        ),
        exists|n: usize|
            record_of(f.sorted[i], n) is Ok && database(f).contains_key(uuid) && database(f)[uuid]
                == (#[trigger] record_of(f.sorted[i], n)->Ok_0).fields,
{
    let g = with_sorted_line(f, i, record_line(uuid, fields));
    let line = g.sorted[i];
    let x = RecordView { uuid, fields };
    let pad = (line.len() - record_line(uuid, fields).len()) as nat;
    law_binary_search(uuid_parts(f.sorted), uuid);
    assert(uuid_parts(f.sorted)[i] == uuid);
    assert(line == record_line(uuid, fields) + spaces(pad));
    assert forall|n: usize| record_of(line, n) == Ok::<RecordView, ErrorView>(x) by {
        law_parse_serialize(uuid, fields, pad, n);
    }
    let tail = lemma_record_line_starts(uuid, fields);
    lemma_uuid_chars(uuid);
    assert(line == uuid + (tail + spaces(pad)));
    lemma_uuid_part_of(uuid, tail + spaces(pad));
    assert(uuid_parts(g.sorted) == uuid_parts(f.sorted));
    assert(f.sorted[i].len() > 0) by {
        if f.sorted[i].len() == 0 {
            let e = f.sorted[i];
            assert(encode_utf8(e).len() == 0);
            encode_utf8_valid_utf8(e);
            is_char_boundary_start_end_of_seq(encode_utf8(e));
            assert(cut(e, 0) == 0);
            assert(encode_utf8(e).subrange(0, 0) == Seq::<u8>::empty());
            assert(byte_prefix(e, 0) == Seq::<char>::empty());
            assert(uuid_part(e).len() == 0);
        }
    }
    let m0 = MergeView::start();
    lemma_merge_sorted_update(f.sorted, i, line, x, 0, m0);
    let ms = merge_sorted(f.sorted, 0, m0)->Ok_0;
    lemma_merge_pending_other(f.pending, 0, ms, uuid, x);
    let m = merged(f)->Ok_0;
    let m2 = with_record(m, uuid, x);
    assert(merged(g) == Ok::<MergeView, ErrorView>(m2));
    lemma_pending_state_none(f.pending, uuid);
    assert(holds(f, uuid));
    assert(m.live(uuid));
    assert forall|v: Seq<char>| #[trigger] m2.order.contains(v) <==> m2.records.contains_key(v) by {
        assert(m.order.contains(v) <==> m.records.contains_key(v));
    }
    assert forall|v: Seq<char>| #[trigger] m2.live(v) implies is_uuid(v) && (m2.records[v]->0).uuid
        == v && proper((m2.records[v]->0).fields) by {
        assert(m.live(v));
    }
    assert forall|v: Seq<char>| byte_len(v) == 12 implies #[trigger] holds(g, v) == m2.live(v) by {
        assert(holds(f, v) == m.live(v));
        assert(sorted_place(g, v) == sorted_place(f, v));
    }
    assert(holds(g, uuid) == m2.live(uuid));
    assert(database(g) =~= database(f).insert(uuid, fields));
    let n = choose|n: usize|
        record_of(f.sorted[i], n) is Ok && ms.records[uuid] == Some(
            #[trigger] record_of(f.sorted[i], n)->Ok_0,
        );
    assert(database(f)[uuid] == (record_of(f.sorted[i], n)->Ok_0).fields);
}

/// Law: an upsert leaves its record in place of any earlier one and changes no other. Left out
/// are records with an empty key or whose last value ends in a space.
pub proof fn law_upsert(f: FileView, a: ActionView, g: FileView)
    requires
        sound(f),
        a.opcode == Opcode::Upsert,
        is_uuid(a.uuid),
        proper(a.fields),
        !ends_in_space(a.fields),
        applied(f, a) == Ok::<FileView, ErrorView>(g),
    ensures
        sound(g),
        holds(g, a.uuid),
        database(g) == database(f).insert(a.uuid, a.fields),
{
    law_binary_search(uuid_parts(f.sorted), a.uuid);
    match sorted_place(f, a.uuid) {
        Ok(i) => {
            if unmentioned(f, a.uuid) && a.fields != Map::<Seq<char>, Seq<char>>::empty()
                && byte_len(record_line(a.uuid, a.fields)) <= byte_len(f.sorted[i]) {
                lemma_overwritten(f, i, a.uuid, a.fields);
            } else {
                lemma_inserted(f, a.uuid, a.fields, g);
            }
        },
        Err(p) => lemma_inserted(f, a.uuid, a.fields, g),
    }
}

pub proof fn lemma_record_of_same(line: Seq<char>, a: usize, b: usize)
    requires
        record_of(line, a) is Ok,
    ensures
        record_of(line, b) == record_of(line, a),
{
    let parts = trim_last(split(line, '\t').skip(1));
    lemma_pairs_same(parts, 0, a, b);
}

proof fn lemma_equals_same(s: Seq<char>, i: int, a: usize, b: usize)
    requires
        crate::action::equals_from(s, i, a) is Ok,
    ensures
        crate::action::equals_from(s, i, b) == crate::action::equals_from(s, i, a),
    decreases s.len() - i,
{
    if i >= s.len() || s[i] == '=' {
    } else if s[i] != '\\' || i + 1 >= s.len() {
        lemma_equals_same(s, i + 1, a, b);
    } else if s[i + 1] != 'x' {
        lemma_equals_same(s, i + 2, a, b);
    } else {
        lemma_equals_same(s, i + 4, a, b);
    }
}

pub proof fn lemma_pairs_same(parts: Seq<Seq<char>>, i: int, a: usize, b: usize)
    requires
        pairs_from(parts, i, a, false) is Ok,
    ensures
        pairs_from(parts, i, b, false) == pairs_from(parts, i, a, false),
    decreases parts.len() - i,
{
    if i < parts.len() {
        if parts[i].len() > 0 {
            lemma_equals_same(parts[i], 0, a, b);
            assert(crate::action::pair_of(parts[i], b, false) == crate::action::pair_of(
                parts[i],
                a,
                false,
            ));
        }
        lemma_pairs_same(parts, i + 1, a, b);
    }
}

proof fn lemma_patch_sets(m: Map<Seq<char>, Seq<char>>, patch: Map<Seq<char>, Seq<char>>)
    requires
        !only_removes(patch),
    ensures
        patched(m, patch) != Map::<Seq<char>, Seq<char>>::empty(),
{
    let k = choose|k: Seq<char>| #[trigger] patch.contains_key(k) && patch[k] != tombstone();
    assert(patched(m, patch).contains_key(k));
}

pub proof fn lemma_patch_empties(f: FileView, a: ActionView)
    requires
        sound(f),
        is_uuid(a.uuid),
        holds(f, a.uuid),
    ensures
        patch_empties(f, a) == Ok::<bool, ErrorView>(
            patched(database(f)[a.uuid], a.fields) == Map::<Seq<char>, Seq<char>>::empty(),
        ),
{
    lemma_uuid_chars(a.uuid);
    let m = merged(f)->Ok_0;
    assert(holds(f, a.uuid) == m.live(a.uuid));
    if !only_removes(a.fields) {
        lemma_patch_sets(database(f)[a.uuid], a.fields);
    }
}

/// What stands in the sorted section of a record that no pending line is about.
pub proof fn lemma_in_place(f: FileView, a: ActionView, i: int)
    requires
        sound(f),
        is_uuid(a.uuid),
        sorted_place(f, a.uuid) == Ok::<int, int>(i),
        0 <= i < f.sorted.len(),
        unmentioned(f, a.uuid),
    ensures
        record_of(f.sorted[i], 0) == Ok::<RecordView, ErrorView>(
            RecordView { uuid: a.uuid, fields: database(f)[a.uuid] },
        ),
        database(f).contains_key(a.uuid),
        proper(database(f)[a.uuid]),
{
    let k = seq!['k'];
    let fields = Map::<Seq<char>, Seq<char>>::empty().insert(k, k);
    assert(fields.dom() =~= Set::<Seq<char>>::empty().insert(k));
    assert(fields.contains_key(k));
    assert(!ends_in_space(fields)) by {
        let ks = keys_of(fields);
        crate::sorted::lemma_listed_finite(fields.dom());
        if ks.len() > 0 {
            assert(ks.to_set().contains(ks.last())) by {
                assert(ks.contains(ks[ks.len() - 1]));
            }
            assert(fields.contains_key(ks.last()));
        }
    }
    lemma_overwritten(f, i, a.uuid, fields);
    let n = choose|n: usize|
        record_of(f.sorted[i], n) is Ok && database(f).contains_key(a.uuid) && database(f)[a.uuid]
            == (#[trigger] record_of(f.sorted[i], n)->Ok_0).fields;
    lemma_record_of_same(f.sorted[i], n, 0);
    lemma_record_of_uuid(f.sorted[i], 0);
    law_binary_search(uuid_parts(f.sorted), a.uuid);
    assert(uuid_parts(f.sorted)[i] == a.uuid);
}

/// Law: a patch changes the fields that it names of its record, and no other record. Left out are
/// patches with an empty key or that leave a last value that ends in a space.
pub proof fn law_patch(f: FileView, a: ActionView, g: FileView)
    requires
        sound(f),
        a.opcode == Opcode::Patch,
        is_uuid(a.uuid),
        proper(a.fields),
        !ends_in_space(patched(database(f)[a.uuid], a.fields)),
        applied(f, a) == Ok::<FileView, ErrorView>(g),
    ensures
        sound(g),
        holds(g, a.uuid),
        database(g) == database(f).insert(a.uuid, patched(database(f)[a.uuid], a.fields)),
        database(g)[a.uuid] != Map::<Seq<char>, Seq<char>>::empty(),
{
    law_binary_search(uuid_parts(f.sorted), a.uuid);
    lemma_patch_empties(f, a);
    let fields = patched(database(f)[a.uuid], a.fields);
    match sorted_place(f, a.uuid) {
        Ok(i) => if unmentioned(f, a.uuid) {
            lemma_in_place(f, a, i);
            lemma_patched_proper(database(f)[a.uuid], a.fields);
            lemma_overwritten(f, i, a.uuid, fields);
            if byte_len(record_line(a.uuid, fields)) <= byte_len(f.sorted[i]) {
            } else {
                lemma_patched_pending(f, a.uuid, a.fields, g);
            }
        } else {
            lemma_patched_pending(f, a.uuid, a.fields, g);
        },
        Err(p) => lemma_patched_pending(f, a.uuid, a.fields, g),
    }
}

/// Law: a patch of a record that the database holds is refused if and only if it would leave no
/// field.
pub proof fn law_patch_refused(f: FileView, a: ActionView)
    requires
        sound(f),
        a.opcode == Opcode::Patch,
        is_uuid(a.uuid),
        holds(f, a.uuid),
    ensures
        applied(f, a) is Err <==> patched(database(f)[a.uuid], a.fields) == Map::<
            Seq<char>,
            Seq<char>,
        >::empty(),
        applied(f, a) is Err ==> applied(f, a) == Err::<FileView, ErrorView>(emptied_error(a)),
{
    law_binary_search(uuid_parts(f.sorted), a.uuid);
    lemma_patch_empties(f, a);
    match sorted_place(f, a.uuid) {
        Ok(i) => if unmentioned(f, a.uuid) {
            lemma_in_place(f, a, i);
        },
        Err(p) => {},
    }
}

proof fn lemma_put_in_order(s: Seq<Seq<char>>, x: Seq<char>)
    requires
        ordered(s),
        !s.contains(x),
    ensures
        ordered(put_in_order(s, x)),
        forall|y: Seq<char>| #[trigger] put_in_order(s, x).contains(y) <==> s.contains(y) || y == x,
    decreases s.len(),
{
    let t = put_in_order(s, x);
    if s.len() > 0 && str_lt(x, s.last()) {
        let d = s.drop_last();
        let last = s[s.len() - 1];
        assert forall|y: Seq<char>| #[trigger] s.contains(y) <==> d.contains(y) || y == last by {
            if s.contains(y) {
                let k = choose|k: int| 0 <= k < s.len() && s[k] == y;
                if k < d.len() {
                    assert(d[k] == y);
                }
            }
            if d.contains(y) {
                let k = choose|k: int| 0 <= k < d.len() && d[k] == y;
                assert(s[k] == y);
            }
        }
        assert(!d.contains(x));
        lemma_put_in_order(d, x);
        let e = put_in_order(d, x);
        assert(t == e.push(last));
        assert forall|y: Seq<char>| #[trigger] t.contains(y) <==> s.contains(y) || y == x by {
            if t.contains(y) {
                let k = choose|k: int| 0 <= k < t.len() && t[k] == y;
                if k < e.len() {
                    assert(e[k] == y);
                    assert(e.contains(y));
                }
            }
            if e.contains(y) {
                let k = choose|k: int| 0 <= k < e.len() && e[k] == y;
                assert(t[k] == y);
            }
            assert(t[e.len() as int] == last);
        }
        assert forall|i: int, j: int| 0 <= i < j < t.len() implies str_lt(
            #[trigger] t[i],
            #[trigger] t[j],
        ) by {
            if j == e.len() {
                assert(e.contains(e[i]));
                if e[i] != x {
                    let k = choose|k: int| 0 <= k < d.len() && d[k] == e[i];
                    assert(s[k] == e[i]);
                    assert(str_lt(s[k], s[s.len() - 1]));
                }
            } else {
                assert(t[i] == e[i] && t[j] == e[j]);
            }
        }
    } else {
        assert(t == s.push(x));
        assert forall|i: int, j: int| 0 <= i < j < t.len() implies str_lt(
            #[trigger] t[i],
            #[trigger] t[j],
        ) by {
            if j == s.len() {
                let last = s[s.len() - 1];
                assert(s.contains(last));
                lemma_str_lt_total(last, x);
                if i < s.len() - 1 {
                    assert(str_lt(s[i], last));
                    lemma_str_lt_transitive(s[i], last, x);
                }
            } else {
                assert(t[i] == s[i] && t[j] == s[j]);
            }
        }
        assert forall|y: Seq<char>| #[trigger] t.contains(y) <==> s.contains(y) || y == x by {
            if t.contains(y) {
                let k = choose|k: int| 0 <= k < t.len() && t[k] == y;
                if k < s.len() {
                    assert(s[k] == y);
                }
            }
            if s.contains(y) {
                let k = choose|k: int| 0 <= k < s.len() && s[k] == y;
                assert(t[k] == y);
            }
            assert(t[s.len() as int] == x);
        }
    }
}

/// Law: sorting distinct strings puts them in order, and adds and loses none.
pub proof fn law_in_order(s: Seq<Seq<char>>)
    requires
        s.no_duplicates(),
    ensures
        ordered(in_order(s)),
        forall|y: Seq<char>| #[trigger] in_order(s).contains(y) <==> s.contains(y),
    decreases s.len(),
{
    if s.len() > 0 {
        let d = s.drop_last();
        law_in_order(d);
        assert(!d.contains(s.last())) by {
            if d.contains(s.last()) {
                let k = choose|k: int| 0 <= k < d.len() && d[k] == s.last();
                assert(s[k] == s[s.len() - 1]);
            }
        }
        assert(!in_order(d).contains(s.last()));
        lemma_put_in_order(in_order(d), s.last());
        assert forall|y: Seq<char>| #[trigger] in_order(s).contains(y) <==> s.contains(y) by {
            assert(in_order(d).contains(y) <==> d.contains(y));
            if s.contains(y) {
                let k = choose|k: int| 0 <= k < s.len() && s[k] == y;
                if k < d.len() {
                    assert(d[k] == y);
                }
            }
            if d.contains(y) {
                let k = choose|k: int| 0 <= k < d.len() && d[k] == y;
                assert(s[k] == y);
            }
            assert(s[s.len() - 1] == s.last());
        }
    } else {
        assert(in_order(s) == s);
    }
}

/// Whether no string stands behind a greater one.
pub open spec fn nondecreasing(s: Seq<Seq<char>>) -> bool {
    forall|i: int, j: int| 0 <= i < j < s.len() ==> !str_lt(#[trigger] s[j], #[trigger] s[i])
}

/// A string that is not before another is not before one that the other is not before.
proof fn lemma_not_before(a: Seq<char>, b: Seq<char>, c: Seq<char>)
    requires
        !str_lt(b, a),
        !str_lt(c, b),
    ensures
        !str_lt(c, a),
{
    if str_lt(c, a) {
        lemma_str_lt_total(a, b);
        lemma_str_lt_total(b, c);
        if a != b && b != c {
            lemma_str_lt_transitive(a, b, c);
            lemma_str_lt_transitive(a, c, a);
            lemma_str_lt_irreflexive(a);
        }
    }
}

proof fn lemma_put_in_order_repeats(s: Seq<Seq<char>>, x: Seq<char>)
    requires
        nondecreasing(s),
    ensures
        nondecreasing(put_in_order(s, x)),
        put_in_order(s, x).len() == s.len() + 1,
        put_in_order(s, x).to_multiset() == s.to_multiset().insert(x),
        forall|i: int|
            0 <= i < put_in_order(s, x).len() ==> s.contains(#[trigger] put_in_order(s, x)[i])
                || put_in_order(s, x)[i] == x,
    decreases s.len(),
{
    broadcast use vstd::seq_lib::group_to_multiset_ensures;

    let t = put_in_order(s, x);
    if s.len() > 0 && str_lt(x, s.last()) {
        let d = s.drop_last();
        let last = s[s.len() - 1];
        assert(nondecreasing(d)) by {
            assert forall|i: int, j: int| 0 <= i < j < d.len() implies !str_lt(
                #[trigger] d[j],
                #[trigger] d[i],
            ) by {
                assert(d[i] == s[i] && d[j] == s[j]);
            }
        }
        lemma_put_in_order_repeats(d, x);
        let e = put_in_order(d, x);
        assert(t == e.push(last));
        assert(s == d.push(last));
        assert(t.to_multiset() =~= s.to_multiset().insert(x));
        assert forall|i: int| 0 <= i < t.len() implies s.contains(#[trigger] t[i]) || t[i] == x by {
            if i < e.len() {
                assert(t[i] == e[i]);
                if d.contains(e[i]) {
                    let k = choose|k: int| 0 <= k < d.len() && d[k] == e[i];
                    assert(s[k] == e[i]);
                }
            } else {
                assert(s[s.len() - 1] == t[i]);
            }
        }
        assert forall|i: int, j: int| 0 <= i < j < t.len() implies !str_lt(
            #[trigger] t[j],
            #[trigger] t[i],
        ) by {
            if j == e.len() {
                assert(t[i] == e[i]);
                if e[i] == x {
                    if str_lt(last, x) {
                        lemma_str_lt_transitive(x, last, x);
                        lemma_str_lt_irreflexive(x);
                    }
                } else {
                    let k = choose|k: int| 0 <= k < d.len() && d[k] == e[i];
                    assert(s[k] == e[i]);
                    assert(!str_lt(s[s.len() - 1], s[k]));
                }
            } else {
                assert(t[i] == e[i] && t[j] == e[j]);
            }
        }
    } else {
        assert(t == s.push(x));
        assert forall|i: int, j: int| 0 <= i < j < t.len() implies !str_lt(
            #[trigger] t[j],
            #[trigger] t[i],
        ) by {
            if j == s.len() {
                let last = s[s.len() - 1];
                if i < s.len() - 1 {
                    assert(!str_lt(last, s[i]));
                    lemma_not_before(s[i], last, x);
                }
            } else {
                assert(t[i] == s[i] && t[j] == s[j]);
            }
        }
        assert forall|i: int| 0 <= i < t.len() implies s.contains(#[trigger] t[i]) || t[i] == x by {
            if i < s.len() {
                assert(s[i] == t[i]);
            }
        }
    }
}

/// Law: sorting strings leaves each as often as it was, and none behind a greater one.
pub proof fn law_in_order_repeats(s: Seq<Seq<char>>)
    ensures
        nondecreasing(in_order(s)),
        in_order(s).len() == s.len(),
        in_order(s).to_multiset() == s.to_multiset(),
    decreases s.len(),
{
    broadcast use vstd::seq_lib::group_to_multiset_ensures;

    if s.len() > 0 {
        let d = s.drop_last();
        law_in_order_repeats(d);
        lemma_put_in_order_repeats(in_order(d), s.last());
        assert(s == d.push(s.last()));
    } else {
        assert(in_order(s) == s);
    }
}

proof fn lemma_live_of(m: MergeView, s: Seq<Seq<char>>)
    requires
        s.no_duplicates(),
    ensures
        live_of(m, s).no_duplicates(),
        forall|y: Seq<char>| #[trigger] live_of(m, s).contains(y) <==> s.contains(y) && m.live(y),
    decreases s.len(),
{
    let t = live_of(m, s);
    if s.len() > 0 {
        let d = s.drop_last();
        let e = live_of(m, d);
        lemma_live_of(m, d);
        assert forall|y: Seq<char>| s.contains(y) <==> #[trigger] d.contains(y) || y == s.last() by {
            if s.contains(y) {
                let k = choose|k: int| 0 <= k < s.len() && s[k] == y;
                if k < d.len() {
                    assert(d[k] == y);
                }
            }
            if d.contains(y) {
                let k = choose|k: int| 0 <= k < d.len() && d[k] == y;
                assert(s[k] == y);
            }
            assert(s[s.len() - 1] == s.last());
        }
        assert(!d.contains(s.last())) by {
            if d.contains(s.last()) {
                let k = choose|k: int| 0 <= k < d.len() && d[k] == s.last();
                assert(s[k] == s[s.len() - 1]);
            }
        }
        assert(!e.contains(s.last()));
        assert forall|y: Seq<char>| #[trigger] t.contains(y) <==> s.contains(y) && m.live(y) by {
            assert(e.contains(y) <==> d.contains(y) && m.live(y));
            if m.live(s.last()) {
                if t.contains(y) {
                    let k = choose|k: int| 0 <= k < t.len() && t[k] == y;
                    if k < e.len() {
                        assert(e[k] == y);
                    }
                }
                if e.contains(y) {
                    let k = choose|k: int| 0 <= k < e.len() && e[k] == y;
                    assert(t[k] == y);
                }
                assert(t[e.len() as int] == s.last());
            }
        }
    }
}

proof fn lemma_deduped_distinct(s: Seq<Seq<char>>)
    requires
        s.no_duplicates(),
    ensures
        deduped(s) == s,
    decreases s.len(),
{
    if s.len() > 0 {
        lemma_deduped_distinct(s.drop_last());
        if s.len() > 1 {
            assert(s[s.len() - 1] != s[s.len() - 2]);
        }
        assert(s.drop_last().push(s.last()) == s);
    } else {
        assert(s == Seq::<Seq<char>>::empty());
    }
}

/// Law: merging a sound file keeps each record once, in the order of the identifiers.
pub proof fn law_final_uuids(m: MergeView)
    requires
        sound_merge(m),
    ensures
        ordered(final_uuids(m)),
        forall|u: Seq<char>| #[trigger] final_uuids(m).contains(u) <==> m.live(u),
{
    lemma_live_of(m, m.order);
    let l = live_of(m, m.order);
    lemma_deduped_distinct(l);
    law_in_order(l);
    assert forall|u: Seq<char>| #[trigger] final_uuids(m).contains(u) <==> m.live(u) by {
        assert(l.contains(u) <==> m.order.contains(u) && m.live(u));
        assert(m.order.contains(u) <==> m.records.contains_key(u));
    }
}

/// The state in which the first `i` records of a merge are read back.
spec fn read_back(m: MergeView, i: int) -> MergeView {
    let us = final_uuids(m);
    MergeView {
        records: Map::new(|u: Seq<char>| us.take(i).contains(u), |u: Seq<char>| m.records[u]),
        order: us.take(i),
    }
}

proof fn lemma_read_back(m: MergeView, i: int)
    requires
        sound_merge(m),
        forall|u: Seq<char>| #[trigger] m.live(u) ==> !ends_in_space((m.records[u]->0).fields),
        0 <= i <= final_uuids(m).len(),
    ensures
        merge_sorted(final_lines(m), i, read_back(m, i)) == Ok::<MergeView, ErrorView>(
            read_back(m, final_uuids(m).len() as int),
        ),
    decreases final_uuids(m).len() - i,
{
    let us = final_uuids(m);
    let ls = final_lines(m);
    if i < us.len() {
        law_final_uuids(m);
        let u = us[i];
        assert(us.contains(u));
        assert(m.live(u));
        let r = m.records[u]->0;
        let n = (i + 1) as usize;
        law_parse_serialize(u, r.fields, 0, n);
        assert(record_line(u, r.fields) + spaces(0) == record_line(u, r.fields));
        assert(ls[i] == record_line(u, r.fields));
        let tail = lemma_record_line_starts(u, r.fields);
        lemma_uuid_chars(u);
        assert(ls[i].len() > 0);
        let a = read_back(m, i).with_sorted(r);
        let b = read_back(m, i + 1);
        assert(r == RecordView { uuid: u, fields: r.fields });
        assert(us.take(i).push(u) == us.take(i + 1));
        assert forall|v: Seq<char>| us.take(i + 1).contains(v) <==> us.take(i).contains(v) || v == u by {
            let p = us.take(i);
            let q = us.take(i + 1);
            if q.contains(v) {
                let k = choose|k: int| 0 <= k < q.len() && q[k] == v;
                if k < i {
                    assert(p[k] == v);
                }
            }
            if p.contains(v) {
                let k = choose|k: int| 0 <= k < p.len() && p[k] == v;
                assert(q[k] == v);
            }
            assert(q[i] == u);
        }
        assert(m.records[u] == Some(r));
        assert forall|v: Seq<char>| a.records.dom().contains(v) <==> b.records.dom().contains(v) by {
            assert(us.take(i + 1).contains(v) <==> us.take(i).contains(v) || v == u);
        }
        assert(a.records =~= b.records);
        assert(a == b);
        lemma_read_back(m, i + 1);
    }
}

/// Law: compaction of a sound database succeeds, empties the pending section, leaves the sorted
/// section in order, and changes no record. Left out are records whose last value ends in a
/// space.
pub proof fn law_compact(f: FileView)
    requires
        sound(f),
        forall|u: Seq<char>| #[trigger]
            database(f).contains_key(u) ==> !ends_in_space(database(f)[u]),
    ensures
        compacted(f) is Ok,
        (compacted(f)->Ok_0).pending.len() == 0,
        sound(compacted(f)->Ok_0),
        database(compacted(f)->Ok_0) == database(f),
        uuid_parts((compacted(f)->Ok_0).sorted) == final_uuids(merged(f)->Ok_0),
        compacted(compacted(f)->Ok_0) == compacted(f),
{
    let m = merged(f)->Ok_0;
    let g = compacted(f)->Ok_0;
    let us = final_uuids(m);
    law_final_uuids(m);
    assert forall|u: Seq<char>| #[trigger] m.live(u) implies !ends_in_space(
        (m.records[u]->0).fields,
    ) by {
        assert(database(f).contains_key(u));
    }
    let n = us.len() as int;
    lemma_read_back(m, 0);
    assert(us.take(0) == Seq::<Seq<char>>::empty());
    assert(read_back(m, 0).records =~= MergeView::start().records);
    assert(read_back(m, 0) == MergeView::start());
    let m2 = read_back(m, n);
    assert(us.take(n) == us);
    assert(merged(g) == Ok::<MergeView, ErrorView>(m2));
    assert forall|i: int| 0 <= i < us.len() implies #[trigger] uuid_parts(g.sorted)[i] == us[i] by {
        let u = us[i];
        assert(us.contains(u));
        assert(m.live(u));
        let tail = lemma_record_line_starts(u, (m.records[u]->0).fields);
        lemma_uuid_part_of(u, tail);
    }
    assert(uuid_parts(g.sorted) == us);
    assert(m2.order.no_duplicates()) by {
        assert forall|i: int, j: int| 0 <= i < us.len() && 0 <= j < us.len() && i != j implies us[i]
            != us[j] by {
            if us[i] == us[j] {
                lemma_ordered_distinct(us, i, j);
            }
        }
    }
    assert forall|u: Seq<char>| #[trigger] m2.live(u) <==> m.live(u) by {
        assert(us.contains(u) <==> m.live(u));
    }
    assert forall|u: Seq<char>| #[trigger] m2.live(u) implies is_uuid(u) && (m2.records[u]->0).uuid
        == u && proper((m2.records[u]->0).fields) by {
        assert(m.live(u));
    }
    assert forall|u: Seq<char>| byte_len(u) == 12 implies #[trigger] holds(g, u) == m2.live(u) by {
        law_binary_search(us, u);
        if sorted_place(g, u) is Ok {
            assert(us.contains(us[sorted_place(g, u)->Ok_0]));
        }
    }
    assert(database(g) =~= database(f));
    law_final_uuids(m2);
    assert forall|u: Seq<char>| #[trigger] final_uuids(m2).contains(u) <==> us.contains(u) by {
        assert(final_uuids(m2).contains(u) <==> m2.live(u));
    }
    assert(final_uuids(m2).to_set() =~= us.to_set());
    lemma_ordered_unique(final_uuids(m2), us);
    assert(final_lines(m2) =~= final_lines(m)) by {
        assert forall|i: int| 0 <= i < us.len() implies #[trigger] final_lines(m2)[i] == final_lines(
            m,
        )[i] by {
            assert(us.contains(us[i]));
        }
    }
}

} // verus!
