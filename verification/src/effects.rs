//! Which actions are accepted and what each does to the fields of a record, and how the lines of a
//! database file are read and written.
use crate::action::{last_values, pairs_from, proper, ActionView, Opcode};
use crate::apply::{applied, delete_line, insert_line, patch_line};
use crate::base62::{is_uuid, lemma_uuid_chars, lemma_uuid_plain};
use crate::database::{database, law_patch, law_patch_refused, sound};
use crate::dotsv::{file_from, holds, sorted_check, FileView};
use crate::error::ErrorView;
use crate::escape::{array_text, escaped, quoted};
use crate::fields::keys_of;
use crate::record::{
    ends_in_space, field_texts, lemma_escaped_last, lemma_field_has_no_tab, lemma_field_read, patched,
    record_line, record_of, tombstone, trim_last,
};
use crate::session::law_held;
use crate::sorted::{lemma_listed_finite, ordered};
use crate::text::{
    byte_len, byte_prefix, byte_suffix, join, lemma_bytes_parts, lemma_split_bytes_concat,
    lemma_split_join, trim_end,
};
use crate::writing::pair_texts;
use vstd::prelude::*;

verus! {

/// The value that removes its key: a single null character.
pub open spec fn removes(v: Seq<char>) -> bool {
    v == seq!['\0']
}

/// Whether a key is there after a patch.
pub open spec fn stays(m: Map<Seq<char>, Seq<char>>, patch: Map<Seq<char>, Seq<char>>, k: Seq<char>) -> bool {
    if patch.contains_key(k) {
        !removes(patch[k])
    } else {
        m.contains_key(k)
    }
}

proof fn lemma_patched(m: Map<Seq<char>, Seq<char>>, patch: Map<Seq<char>, Seq<char>>, k: Seq<char>)
    ensures
        patched(m, patch).contains_key(k) <==> stays(m, patch, k),
        patch.contains_key(k) && stays(m, patch, k) ==> patched(m, patch)[k] == patch[k],
        !patch.contains_key(k) && m.contains_key(k) ==> patched(m, patch)[k] == m[k],
{
    reveal_strlit("\0");
    assert(tombstone() == seq!['\0']);
}

/// Law: an append is accepted exactly if there is no record of its identifier, a delete exactly if there
/// is one, a patch exactly if there is one and at least one field stays, and an upsert always. An
/// identifier that is there already, or not there, is named with the line of the action.
pub proof fn law_action_accepted(f: FileView, a: ActionView)
    requires
        sound(f),
        is_uuid(a.uuid),
    ensures
        ({
            let there = database(f).contains_key(a.uuid);
            match a.opcode {
                Opcode::Append => if there {
                    applied(f, a) == Err::<FileView, ErrorView>(
                        ErrorView::DuplicateUuid { line: a.line_no, uuid: a.uuid },
                    )
                } else {
                    applied(f, a) is Ok
                },
                Opcode::Delete => if there {
                    applied(f, a) is Ok
                } else {
                    applied(f, a) == Err::<FileView, ErrorView>(
                        ErrorView::MissingUuid { line: a.line_no, uuid: a.uuid },
                    )
                },
                Opcode::Patch => if there {
                    applied(f, a) is Ok <==> exists|k: Seq<char>| #[trigger]
                        stays(database(f)[a.uuid], a.fields, k)
                } else {
                    applied(f, a) == Err::<FileView, ErrorView>(
                        ErrorView::MissingUuid { line: a.line_no, uuid: a.uuid },
                    )
                },
                Opcode::Upsert => applied(f, a) is Ok,
            }
        }),
{
    law_held(f, a.uuid);
    if a.opcode == Opcode::Patch && holds(f, a.uuid) {
        law_patch_refused(f, a);
        let m = database(f)[a.uuid];
        let q = patched(m, a.fields);
        if exists|k: Seq<char>| #[trigger] stays(m, a.fields, k) {
            let k = choose|k: Seq<char>| #[trigger] stays(m, a.fields, k);
            lemma_patched(m, a.fields, k);
        } else {
            assert forall|k: Seq<char>| !(#[trigger] q.contains_key(k)) by {
                lemma_patched(m, a.fields, k);
                assert(!stays(m, a.fields, k));
            }
            assert(q =~= Map::<Seq<char>, Seq<char>>::empty());
        }
    }
}

/// Law: a patch sets the keys that it names to their values, removes those that it names with a single
/// null character, and leaves every other key of the record, and every other record, as it was.
pub proof fn law_patch_fields(f: FileView, a: ActionView, g: FileView, k: Seq<char>, u: Seq<char>)
    requires
        sound(f),
        a.opcode == Opcode::Patch,
        is_uuid(a.uuid),
        proper(a.fields),
        !ends_in_space(patched(database(f)[a.uuid], a.fields)),
        applied(f, a) == Ok::<FileView, ErrorView>(g),
    ensures
        database(g).contains_key(a.uuid),
        a.fields.contains_key(k) && removes(a.fields[k]) ==> !database(g)[a.uuid].contains_key(k),
        a.fields.contains_key(k) && !removes(a.fields[k]) ==> database(g)[a.uuid].contains_key(k)
            && database(g)[a.uuid][k] == a.fields[k],
        !a.fields.contains_key(k) ==> database(g)[a.uuid].contains_key(k) == database(
            f,
        )[a.uuid].contains_key(k),
        !a.fields.contains_key(k) && database(f)[a.uuid].contains_key(k) ==> database(g)[a.uuid][k]
            == database(f)[a.uuid][k],
        u != a.uuid ==> database(g).contains_key(u) == database(f).contains_key(u) && database(g)[u]
            == database(f)[u],
{
    law_patch(f, a, g);
    lemma_patched(database(f)[a.uuid], a.fields, k);
}

/// The fields of a record as they are written: in increasing order of the keys.
pub open spec fn written_fields(m: Map<Seq<char>, Seq<char>>) -> Seq<Seq<char>> {
    Seq::new(
        keys_of(m).len(),
        |i: int| escaped(keys_of(m)[i]) + seq!['='] + escaped(m[keys_of(m)[i]]),
    )
}

/// Law: the line of a record is its identifier and its fields, each key once and in increasing order,
/// with tabs between them; the pending lines of an insertion and a patch have `+` and `~` in front of
/// such a line, and that of a deletion `-` in front of the identifier.
pub proof fn law_stored_lines(uuid: Seq<char>, m: Map<Seq<char>, Seq<char>>)
    requires
        m.dom().finite(),
    ensures
        ordered(keys_of(m)),
        keys_of(m).to_set() == m.dom(),
        record_line(uuid, m) == join(seq![uuid] + written_fields(m), seq!['\t']),
        insert_line(uuid, m) == seq!['+'] + join(seq![uuid] + written_fields(m), seq!['\t']),
        patch_line(uuid, m) == seq!['~'] + uuid + seq!['\t'] + join(written_fields(m), seq!['\t']),
        delete_line(uuid) == seq!['-'] + uuid,
{
    reveal_strlit("\t");
    reveal_strlit("=");
    reveal_strlit("+");
    reveal_strlit("~");
    reveal_strlit("-");
    assert("\t"@ == seq!['\t'] && "="@ == seq!['='] && "+"@ == seq!['+'] && "~"@ == seq!['~'] && "-"@
        == seq!['-']);
    lemma_listed_finite(m.dom());
    assert(field_texts(m) =~= written_fields(m));
}

proof fn lemma_stored_pairs(p: Seq<(Seq<char>, Seq<char>)>, i: int, n: usize)
    requires
        forall|j: int| 0 <= j < p.len() ==> (#[trigger] p[j]).0.len() > 0,
        0 <= i <= p.len(),
    ensures
        pairs_from(pair_texts(p), i, n, false) == Ok::<Seq<(Seq<char>, Seq<char>)>, ErrorView>(
            p.skip(i),
        ),
    decreases p.len() - i,
{
    if i == p.len() {
        assert(p.skip(i) == Seq::<(Seq<char>, Seq<char>)>::empty());
    } else {
        reveal_strlit("=");
        assert("="@ == seq!['=']);
        let (k, v) = p[i];
        assert(p[i].0.len() > 0);
        lemma_stored_pairs(p, i + 1, n);
        lemma_field_read(k, v, n, false);
        assert(pair_texts(p)[i].len() > 0);
        assert(seq![p[i]] + p.skip(i + 1) == p.skip(i));
    }
}

/// Whether the pair at `i` is the last of its key.
pub open spec fn last_of_key(p: Seq<(Seq<char>, Seq<char>)>, i: int) -> bool {
    0 <= i < p.len() && forall|j: int| i < j < p.len() ==> (#[trigger] p[j]).0 != p[i].0
}

/// Whether a pair has the key `k`.
pub open spec fn names_key(p: Seq<(Seq<char>, Seq<char>)>, k: Seq<char>) -> bool {
    exists|i: int| 0 <= i < p.len() && (#[trigger] p[i]).0 == k
}

/// Whether `m` has the value of the last pair of each key, and no other key.
pub open spec fn last_counts(p: Seq<(Seq<char>, Seq<char>)>, m: Map<Seq<char>, Seq<char>>) -> bool {
    &&& forall|i: int| #[trigger] last_of_key(p, i) ==> m.contains_key(p[i].0) && m[p[i].0] == p[i].1
    &&& forall|k: Seq<char>| #[trigger] m.contains_key(k) <==> names_key(p, k)
}

proof fn lemma_last_counts(p: Seq<(Seq<char>, Seq<char>)>)
    ensures
        last_counts(p, last_values(p)),
    decreases p.len(),
{
    let m = last_values(p);
    if p.len() > 0 {
        let d = p.drop_last();
        let last = p.len() - 1;
        lemma_last_counts(d);
        let c = last_values(d);
        assert forall|i: int| #[trigger] last_of_key(p, i) implies m.contains_key(p[i].0) && m[p[i].0]
            == p[i].1 by {
            if i < last {
                assert(p[last].0 != p[i].0);
                assert(last_of_key(d, i)) by {
                    assert forall|j: int| i < j < d.len() implies (#[trigger] d[j]).0 != d[i].0 by {
                        assert(d[j] == p[j]);
                    }
                }
                assert(d[i] == p[i]);
            }
        }
        assert forall|k: Seq<char>| #[trigger] m.contains_key(k) <==> names_key(p, k) by {
            if m.contains_key(k) {
                if k == p[last].0 {
                    assert(p[last].0 == k);
                } else {
                    assert(names_key(d, k));
                    let i = choose|i: int| 0 <= i < d.len() && (#[trigger] d[i]).0 == k;
                    assert(p[i].0 == k);
                }
            }
            if names_key(p, k) {
                let i = choose|i: int| 0 <= i < p.len() && (#[trigger] p[i]).0 == k;
                if i < last {
                    assert(d[i].0 == k);
                    assert(names_key(d, k));
                }
            }
        }
    }
}

/// Law: a stored line of an identifier and written pairs, in whatever order they stand, reads as the
/// record of that identifier with these pairs; of two with one key the later counts. Left out are
/// empty keys, and a last value that ends in a space, which is taken for padding.
pub proof fn law_stored_line_reads(uuid: Seq<char>, p: Seq<(Seq<char>, Seq<char>)>, n: usize)
    requires
        is_uuid(uuid),
        p.len() > 0,
        forall|j: int| 0 <= j < p.len() ==> (#[trigger] p[j]).0.len() > 0,
        p.last().1.len() == 0 || p.last().1.last() != ' ',
    ensures
        record_of(join(seq![uuid] + pair_texts(p), seq!['\t']), n) matches Ok(r) && r.uuid == uuid
            && last_counts(p, r.fields),
{
    reveal_strlit("=");
    assert("="@ == seq!['=']);
    let texts = pair_texts(p);
    let parts = seq![uuid] + texts;
    lemma_uuid_chars(uuid);
    lemma_uuid_plain(uuid);
    assert forall|i: int| 0 <= i < parts.len() implies !(#[trigger] parts[i]).contains('\t') by {
        if i == 0 {
            if uuid.contains('\t') {
                let j = choose|j: int| 0 <= j < uuid.len() && uuid[j] == '\t';
                assert(48 <= uuid[j] as u32);
            }
        } else {
            lemma_field_has_no_tab(p[i - 1].0, p[i - 1].1);
            assert(parts[i] == texts[i - 1]);
        }
    }
    lemma_split_join(parts, '\t');
    assert(parts[0] == uuid);
    assert(parts.skip(1) == texts);
    let t = texts.last();
    let (k, v) = p.last();
    assert(t == escaped(k) + seq!['='] + escaped(v));
    assert(t.last() != ' ') by {
        if v.len() > 0 {
            lemma_escaped_last(v);
            assert(t.last() == escaped(v).last());
        } else {
            assert(escaped(v) == Seq::<char>::empty());
            assert(t.last() == '=');
        }
    }
    assert(trim_end(t, ' ') == t);
    assert(trim_last(texts) == texts);
    lemma_stored_pairs(p, 0, n);
    assert(p.skip(0) == p);
    lemma_last_counts(p);
}

/// Law: a line may stand in the sorted section exactly if it starts with an identifier and is longer
/// than that.
pub proof fn law_sorted_line(line: Seq<char>, n: usize)
    ensures
        sorted_check(line, n) is Ok <==> line.len() >= 13 && is_uuid(line.take(12)),
{
    if sorted_check(line, n) is Ok {
        lemma_bytes_parts(line, 12);
        let a = byte_prefix(line, 12);
        let b = byte_suffix(line, 12);
        lemma_uuid_chars(a);
        assert(line.take(12) == a);
        if b.len() == 0 {
            assert(line == a);
        }
    }
    if line.len() >= 13 && is_uuid(line.take(12)) {
        let a = line.take(12);
        let b = line.skip(12);
        lemma_uuid_chars(a);
        assert(a + b == line);
        lemma_split_bytes_concat(a, b);
        vstd::utf8::encode_utf8_decode_utf8(b);
        if byte_len(b) == 0 {
            crate::text::lemma_encode_injective(b, Seq::empty());
        }
    }
}

/// A comment.
pub open spec fn comment(line: Seq<char>) -> bool {
    line.len() > 0 && line[0] == '#'
}

proof fn lemma_file_shifted(ls: Seq<Seq<char>>, ms: Seq<Seq<char>>, i: int, in_pending: bool)
    requires
        0 <= i <= ls.len(),
        ms.len() == ls.len() + 1,
        forall|k: int| i <= k < ls.len() ==> #[trigger] ms[k + 1] == ls[k],
    ensures
        file_from(ms, i + 1, in_pending) is Ok <==> file_from(ls, i, in_pending) is Ok,
        file_from(ls, i, in_pending) is Ok ==> file_from(ms, i + 1, in_pending) == file_from(
            ls,
            i,
            in_pending,
        ),
    decreases ls.len() - i,
{
    if i < ls.len() {
        assert(ms[i + 1] == ls[i]);
        lemma_file_shifted(ls, ms, i + 1, in_pending);
        lemma_file_shifted(ls, ms, i + 1, true);
        law_sorted_line(ls[i], (i + 1) as usize);
        law_sorted_line(ls[i], (i + 2) as usize);
    }
}

proof fn lemma_file_inserted(ls: Seq<Seq<char>>, j: int, c: Seq<char>, i: int, in_pending: bool)
    requires
        0 <= i <= j <= ls.len(),
        comment(c) || c.len() == 0 && (in_pending || exists|k: int| i <= k < j && (#[trigger] ls[k]).len() == 0),
    ensures
        file_from(ls.insert(j, c), i, in_pending) is Ok <==> file_from(ls, i, in_pending) is Ok,
        file_from(ls, i, in_pending) is Ok ==> file_from(ls.insert(j, c), i, in_pending) == file_from(
            ls,
            i,
            in_pending,
        ),
    decreases ls.len() - i,
{
    let ms = ls.insert(j, c);
    if i == j {
        assert(ms[j] == c);
        lemma_file_shifted(ls, ms, i, in_pending);
    } else {
        assert(ms[i] == ls[i]);
        if ls[i].len() == 0 {
            lemma_file_inserted(ls, j, c, i + 1, true);
        } else {
            assert(comment(c) || in_pending || exists|k: int| i + 1 <= k < j && (#[trigger] ls[k]).len() == 0) by {
                if !comment(c) && !in_pending {
                    let k = choose|k: int| i <= k < j && (#[trigger] ls[k]).len() == 0;
                    assert(i + 1 <= k < j && ls[k].len() == 0);
                }
            }
            lemma_file_inserted(ls, j, c, i + 1, in_pending);
            law_sorted_line(ls[i], (i + 1) as usize);
        }
    }
}

/// Law: a comment counts for nothing wherever it stands in a database file, and neither does a blank
/// line behind the first one.
pub proof fn law_file_comments(ls: Seq<Seq<char>>, j: int, c: Seq<char>)
    requires
        0 <= j <= ls.len(),
        comment(c) || c.len() == 0 && exists|k: int| 0 <= k < j && (#[trigger] ls[k]).len() == 0,
    ensures
        file_from(ls.insert(j, c), 0, false) is Ok <==> file_from(ls, 0, false) is Ok,
        file_from(ls, 0, false) is Ok ==> file_from(ls.insert(j, c), 0, false) == file_from(
            ls,
            0,
            false,
        ),
{
    lemma_file_inserted(ls, j, c, 0, false);
}

/// Law: the elements of an array value stand between quotes, with a backslash in front of each quote and
/// backslash in them, with commas between them and brackets around them.
pub proof fn law_array_form(v: Seq<Seq<char>>)
    ensures
        array_text(v) == seq!['['] + join(
            Seq::new(v.len(), |i: int| seq!['"'] + quoted(v[i]) + seq!['"']),
            seq![','],
        ) + seq![']'],
{
    reveal_strlit("[");
    reveal_strlit("]");
    reveal_strlit(",");
    reveal_strlit("\"");
    let parts = Seq::new(v.len(), |i: int| seq!['"'] + quoted(v[i]) + seq!['"']);
    assert(crate::escape::array_elements(v) =~= parts);
    assert(array_text(v) =~= seq!['['] + join(parts, seq![',']) + seq![']']);
}

/// Law: in an array, a quote and a backslash have a backslash in front of them, and every other
/// character stands as it is.
pub proof fn law_array_character(a: Seq<char>, c: char)
    ensures
        quoted(Seq::<char>::empty()) == Seq::<char>::empty(),
        quoted(seq![c] + a) == (if c == '"' || c == '\\' {
            seq!['\\', c]
        } else {
            seq![c]
        }) + quoted(a),
{
    let s = seq![c] + a;
    assert(s[0] == c);
    assert(s.skip(1) == a);
    assert(quoted(s) =~= (if c == '"' || c == '\\' {
        seq!['\\', c]
    } else {
        seq![c]
    }) + quoted(a));
}

} // verus!
