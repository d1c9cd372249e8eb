//! What an action file says: reading an action gives back what was written.
use crate::action::{
    action_fields, action_of, actions_from, gathered, opcode_of, pairs_from, values_of, ActionView,
    Opcode,
};
use crate::base62::{is_uuid, lemma_uuid_chars, lemma_uuid_plain};
use crate::database::lemma_op_line;
use crate::error::ErrorView;
use crate::escape::{array_of, escaped, law_decode_encode_array};
use crate::record::{field_text, lemma_field_has_no_tab, lemma_field_read};
use crate::text::{
    byte_prefix, byte_suffix, is_blank, join, lemma_bytes_parts, lemma_split_join, lines, split,
};
use vstd::prelude::*;
use vstd::utf8::*;

verus! {

/// Whether a value is closed like an array or an object, which an action may not write.
pub open spec fn is_closed_literal(v: Seq<char>) -> bool {
    v.len() > 0 && ((v[0] == '[' && v[v.len() - 1] == ']') || (v[0] == '{' && v[v.len() - 1] == '}'))
}

/// Whether pairs can be written on an action line: no key is empty and no value is closed like an
/// array or an object.
pub open spec fn writable_pairs(p: Seq<(Seq<char>, Seq<char>)>) -> bool {
    forall|i: int| 0 <= i < p.len() ==> (#[trigger] p[i]).0.len() > 0 && !is_closed_literal(p[i].1)
}

/// Pairs as they are written.
pub open spec fn pair_texts(p: Seq<(Seq<char>, Seq<char>)>) -> Seq<Seq<char>> {
    Seq::new(p.len(), |i: int| escaped(p[i].0) + seq!['='] + escaped(p[i].1))
}

/// An action line with fields.
pub open spec fn fields_line(op: char, uuid: Seq<char>, p: Seq<(Seq<char>, Seq<char>)>) -> Seq<char> {
    seq![op] + uuid + (seq!['\t'] + join(pair_texts(p), seq!['\t']))
}

proof fn lemma_pair_text(k: Seq<char>, v: Seq<char>)
    ensures
        escaped(k) + seq!['='] + escaped(v) == field_text(k, v),
{
    reveal_strlit("=");
    assert("="@ == seq!['=']);
}

proof fn lemma_pairs_read(p: Seq<(Seq<char>, Seq<char>)>, i: int, n: usize)
    requires
        writable_pairs(p),
        0 <= i <= p.len(),
    ensures
        pairs_from(pair_texts(p), i, n, true) == Ok::<Seq<(Seq<char>, Seq<char>)>, ErrorView>(
            p.skip(i),
        ),
    decreases p.len() - i,
{
    if i == p.len() {
        assert(p.skip(i) == Seq::<(Seq<char>, Seq<char>)>::empty());
    } else {
        let (k, v) = p[i];
        assert(p[i].0.len() > 0 && !is_closed_literal(p[i].1));
        lemma_pairs_read(p, i + 1, n);
        lemma_pair_text(k, v);
        lemma_field_read(k, v, n, true);
        assert(pair_texts(p)[i].len() > 0);
        assert(seq![p[i]] + p.skip(i + 1) == p.skip(i));
    }
}

proof fn lemma_pair_texts_split(p: Seq<(Seq<char>, Seq<char>)>)
    requires
        p.len() > 0,
    ensures
        split(join(pair_texts(p), seq!['\t']), '\t') == pair_texts(p),
{
    let texts = pair_texts(p);
    assert forall|i: int| 0 <= i < texts.len() implies !(#[trigger] texts[i]).contains('\t') by {
        lemma_pair_text(p[i].0, p[i].1);
        lemma_field_has_no_tab(p[i].0, p[i].1);
    }
    lemma_split_join(texts, '\t');
}

proof fn lemma_fields_read(p: Seq<(Seq<char>, Seq<char>)>, n: usize)
    requires
        writable_pairs(p),
    ensures
        action_fields(join(pair_texts(p), seq!['\t']), n) == Ok::<
            Map<Seq<char>, Seq<char>>,
            ErrorView,
        >(gathered(p)),
{
    let texts = pair_texts(p);
    if p.len() == 0 {
        let none = Seq::<(Seq<char>, Seq<char>)>::empty();
        let parts = seq![Seq::<char>::empty()];
        assert(join(texts, seq!['\t']) == Seq::<char>::empty());
        assert(split(Seq::<char>::empty(), '\t') == parts);
        assert(pairs_from(parts, 1, n, true) == Ok::<Seq<(Seq<char>, Seq<char>)>, ErrorView>(none));
        assert(pairs_from(parts, 0, n, true) == Ok::<Seq<(Seq<char>, Seq<char>)>, ErrorView>(none));
        assert(p == none);
    } else {
        lemma_pair_texts_split(p);
        lemma_pairs_read(p, 0, n);
        assert(p.skip(0) == p);
    }
}

/// The operation that an opcode character stands for.
pub open spec fn stands_for(op: char, opcode: Opcode) -> bool {
    ||| op == '+' && opcode == Opcode::Append
    ||| op == '-' && opcode == Opcode::Delete
    ||| op == '~' && opcode == Opcode::Patch
    ||| op == '!' && opcode == Opcode::Upsert
}

/// The values that pairs give to a key, in their order.
pub open spec fn values_under(p: Seq<(Seq<char>, Seq<char>)>, k: Seq<char>) -> Seq<Seq<char>> {
    p.filter(|x: (Seq<char>, Seq<char>)| x.0 == k).map_values(|x: (Seq<char>, Seq<char>)| x.1)
}

/// Whether `m` is what pairs gather to: a key that occurs once has its value, and one that occurs
/// more often an array from which all its values are read in their order.
pub open spec fn gathers(p: Seq<(Seq<char>, Seq<char>)>, m: Map<Seq<char>, Seq<char>>) -> bool {
    forall|k: Seq<char>|
        {
            &&& #[trigger] m.contains_key(k) <==> values_under(p, k).len() > 0
            &&& values_under(p, k).len() == 1 ==> m[k] == values_under(p, k)[0]
            &&& values_under(p, k).len() > 1 ==> array_of(m[k]) == Ok::<Seq<Seq<char>>, ErrorView>(
                values_under(p, k),
            )
        }
}

proof fn lemma_values_filter(p: Seq<(Seq<char>, Seq<char>)>, k: Seq<char>)
    ensures
        values_of(p, k) == values_under(p, k),
    decreases p.len(),
{
    reveal(Seq::filter);
    let f = |x: (Seq<char>, Seq<char>)| x.0 == k;
    let g = |x: (Seq<char>, Seq<char>)| x.1;
    let vs = p.filter(f);
    if p.len() > 0 {
        let d = p.drop_last();
        lemma_values_filter(d, k);
        let ws = d.filter(f);
        if p.last().0 == k {
            assert(vs == ws.push(p.last()));
            assert(vs.map_values(g) == ws.map_values(g).push(p.last().1));
        } else {
            assert(vs == ws);
        }
    } else {
        assert(vs.map_values(g) == Seq::<Seq<char>>::empty());
    }
}

proof fn lemma_gathers(p: Seq<(Seq<char>, Seq<char>)>)
    ensures
        gathers(p, gathered(p)),
{
    let m = gathered(p);
    assert forall|k: Seq<char>|
        {
            &&& #[trigger] m.contains_key(k) <==> values_under(p, k).len() > 0
            &&& values_under(p, k).len() == 1 ==> m[k] == values_under(p, k)[0]
            &&& values_under(p, k).len() > 1 ==> array_of(m[k]) == Ok::<Seq<Seq<char>>, ErrorView>(
                values_under(p, k),
            )
        } by {
        lemma_values_filter(p, k);
        law_decode_encode_array(values_of(p, k));
    }
}

/// What reading an action line does behind its identifier.
proof fn lemma_action_line(op: char, opcode: Opcode, uuid: Seq<char>, tail: Seq<char>, n: usize)
    requires
        stands_for(op, opcode),
        is_uuid(uuid),
    ensures
        action_of(seq![op] + uuid + tail, n) == crate::action::action_tail(
            seq![op] + uuid + tail,
            opcode,
            uuid,
            tail,
            n,
        ),
{
    reveal(action_of);
    lemma_uuid_chars(uuid);
    lemma_op_line(op, uuid, tail);
    let s = seq![op] + uuid + tail;
    assert(opcode_of(s[0]) == Some(opcode));
}

/// Law: an append, patch or upsert line that is written from pairs reads as its operation on its
/// identifier with exactly the fields that the pairs gather to.
pub proof fn law_action_line_reads_back(
    op: char,
    opcode: Opcode,
    uuid: Seq<char>,
    p: Seq<(Seq<char>, Seq<char>)>,
    n: usize,
)
    requires
        stands_for(op, opcode),
        opcode != Opcode::Delete,
        is_uuid(uuid),
        p.len() > 0,
        writable_pairs(p),
    ensures
        action_of(fields_line(op, uuid, p), n) matches Ok(a) && a.opcode == opcode && a.uuid == uuid
            && a.line_no == n && gathers(p, a.fields),
{
    let tail = seq!['\t'] + join(pair_texts(p), seq!['\t']);
    lemma_action_line(op, opcode, uuid, tail, n);
    assert(tail[0] == '\t');
    assert(tail.skip(1) == join(pair_texts(p), seq!['\t']));
    lemma_fields_read(p, n);
    lemma_gathers(p);
    let m = gathered(p);
    let k = p[0].0;
    lemma_values_filter(p, k);
    assert(m.contains_key(k)) by {
        lemma_value_found(p, 0);
    }
}

proof fn lemma_value_found(p: Seq<(Seq<char>, Seq<char>)>, i: int)
    requires
        0 <= i < p.len(),
    ensures
        values_of(p, p[i].0).len() > 0,
    decreases p.len(),
{
    if i < p.len() - 1 {
        assert(p.drop_last()[i] == p[i]);
        lemma_value_found(p.drop_last(), i);
    }
}

proof fn lemma_distinct_values(p: Seq<(Seq<char>, Seq<char>)>, k: Seq<char>)
    requires
        forall|i: int, j: int|
            0 <= i < p.len() && 0 <= j < p.len() && i != j ==> (#[trigger] p[i]).0 != (
            #[trigger] p[j]).0,
    ensures
        forall|i: int| 0 <= i < p.len() && (#[trigger] p[i]).0 == k ==> values_of(p, k) == seq![p[i].1],
        (forall|i: int| 0 <= i < p.len() ==> (#[trigger] p[i]).0 != k) ==> values_of(p, k).len() == 0,
    decreases p.len(),
{
    if p.len() > 0 {
        let d = p.drop_last();
        let last = p.len() - 1;
        assert forall|i: int, j: int| 0 <= i < d.len() && 0 <= j < d.len() && i != j implies (
        #[trigger] d[i]).0 != (#[trigger] d[j]).0 by {
            assert(d[i] == p[i] && d[j] == p[j]);
        }
        lemma_distinct_values(d, k);
        if p[last].0 == k {
            assert forall|i: int| 0 <= i < d.len() implies (#[trigger] d[i]).0 != k by {
                assert(p[i].0 != p[last].0);
                assert(d[i] == p[i]);
            }
            assert(values_of(d, k) == Seq::<Seq<char>>::empty());
            assert(values_of(p, k) == seq![p[last].1]);
            assert forall|i: int| 0 <= i < p.len() && (#[trigger] p[i]).0 == k implies values_of(p, k)
                == seq![p[i].1] by {
                assert(i == last);
            }
        } else {
            assert(values_of(p, k) == values_of(d, k));
            assert forall|i: int| 0 <= i < p.len() && (#[trigger] p[i]).0 == k implies values_of(p, k)
                == seq![p[i].1] by {
                assert(d[i] == p[i]);
            }
            if forall|i: int| 0 <= i < p.len() ==> (#[trigger] p[i]).0 != k {
                assert forall|i: int| 0 <= i < d.len() implies (#[trigger] d[i]).0 != k by {
                    assert(d[i] == p[i]);
                }
            }
        }
    } else {
        assert(values_of(p, k).len() == 0);
    }
}

/// Whether `m` has exactly the keys and values of pairs.
pub open spec fn is_map_of(p: Seq<(Seq<char>, Seq<char>)>, m: Map<Seq<char>, Seq<char>>) -> bool {
    &&& forall|i: int| 0 <= i < p.len() ==> m.contains_key((#[trigger] p[i]).0) && m[p[i].0] == p[i].1
    &&& forall|k: Seq<char>| #[trigger]
        m.contains_key(k) ==> exists|i: int| 0 <= i < p.len() && (#[trigger] p[i]).0 == k
}

/// Law: an append, patch or upsert line with different keys, each written with its value, reads as
/// exactly these keys and values, in whatever order they stand.
pub proof fn law_action_line_fields(
    op: char,
    opcode: Opcode,
    uuid: Seq<char>,
    p: Seq<(Seq<char>, Seq<char>)>,
    n: usize,
)
    requires
        stands_for(op, opcode),
        opcode != Opcode::Delete,
        is_uuid(uuid),
        p.len() > 0,
        writable_pairs(p),
        forall|i: int, j: int|
            0 <= i < p.len() && 0 <= j < p.len() && i != j ==> (#[trigger] p[i]).0 != (
            #[trigger] p[j]).0,
    ensures
        action_of(fields_line(op, uuid, p), n) matches Ok(a) && a.opcode == opcode && a.uuid == uuid
            && is_map_of(p, a.fields),
{
    let tail = seq!['\t'] + join(pair_texts(p), seq!['\t']);
    law_action_line_reads_back(op, opcode, uuid, p, n);
    lemma_action_line(op, opcode, uuid, tail, n);
    assert(tail.skip(1) == join(pair_texts(p), seq!['\t']));
    lemma_fields_read(p, n);
    let m = gathered(p);
    assert forall|i: int| 0 <= i < p.len() implies m.contains_key((#[trigger] p[i]).0) && m[p[i].0]
        == p[i].1 by {
        lemma_distinct_values(p, p[i].0);
    }
    assert forall|k: Seq<char>| #[trigger] m.contains_key(k) implies exists|i: int|
        0 <= i < p.len() && (#[trigger] p[i]).0 == k by {
        lemma_distinct_values(p, k);
    }
}

/// Law: a line of one field reads as this field alone.
pub proof fn law_action_line_field(
    op: char,
    opcode: Opcode,
    uuid: Seq<char>,
    k: Seq<char>,
    v: Seq<char>,
    n: usize,
)
    requires
        stands_for(op, opcode),
        opcode != Opcode::Delete,
        is_uuid(uuid),
        k.len() > 0,
        !is_closed_literal(v),
    ensures
        action_of(seq![op] + uuid + seq!['\t'] + (escaped(k) + seq!['='] + escaped(v)), n) == Ok::<
            ActionView,
            ErrorView,
        >(ActionView { opcode, uuid, fields: Map::empty().insert(k, v), line_no: n }),
{
    let p = seq![(k, v)];
    assert(writable_pairs(p));
    law_action_line_fields(op, opcode, uuid, p, n);
    law_action_line_reads_back(op, opcode, uuid, p, n);
    assert(pair_texts(p) == seq![escaped(k) + seq!['='] + escaped(v)]);
    let line = seq![op] + uuid + seq!['\t'] + (escaped(k) + seq!['='] + escaped(v));
    assert(fields_line(op, uuid, p) == line);
    let a = action_of(line, n)->Ok_0;
    assert(p[0].0 == k);
    assert(a.fields =~= Map::empty().insert(k, v)) by {
        assert forall|x: Seq<char>| a.fields.contains_key(x) <==> x == k by {
            if a.fields.contains_key(x) {
                let i = choose|i: int| 0 <= i < p.len() && (#[trigger] p[i]).0 == x;
            }
        }
    }
}

/// Law: a delete line is its opcode and its identifier, and perhaps white space behind them.
pub proof fn law_delete_line(uuid: Seq<char>, space: Seq<char>, n: usize)
    requires
        is_uuid(uuid),
    ensures
        is_blank(space) ==> action_of(seq!['-'] + uuid + space, n) == Ok::<ActionView, ErrorView>(
            ActionView { opcode: Opcode::Delete, uuid, fields: Map::empty(), line_no: n },
        ),
        !is_blank(space) ==> action_of(seq!['-'] + uuid + space, n) is Err,
{
    lemma_action_line('-', Opcode::Delete, uuid, space, n);
}

proof fn lemma_literal_refused(p: Seq<(Seq<char>, Seq<char>)>, i: int, j: int, n: usize)
    requires
        0 <= i <= j < p.len(),
        is_closed_literal(p[j].1),
        forall|x: int| 0 <= x < p.len() ==> (#[trigger] p[x]).0.len() > 0,
    ensures
        pairs_from(pair_texts(p), i, n, true) is Err,
    decreases j - i,
{
    let (k, v) = p[i];
    assert(p[i].0.len() > 0);
    lemma_pair_text(k, v);
    assert(pair_texts(p)[i].len() > 0);
    lemma_field_read(k, v, n, true);
    if i < j {
        lemma_literal_refused(p, i + 1, j, n);
    }
}

/// Law: an action line with a value that is closed like an array or an object is refused.
pub proof fn law_literal_refused(
    op: char,
    uuid: Seq<char>,
    p: Seq<(Seq<char>, Seq<char>)>,
    j: int,
    n: usize,
)
    requires
        0 <= j < p.len(),
        is_closed_literal(p[j].1),
        forall|x: int| 0 <= x < p.len() ==> (#[trigger] p[x]).0.len() > 0,
        is_uuid(uuid),
    ensures
        action_of(fields_line(op, uuid, p), n) is Err,
{
    let tail = seq!['\t'] + join(pair_texts(p), seq!['\t']);
    let s = fields_line(op, uuid, p);
    assert(tail.skip(1) == join(pair_texts(p), seq!['\t']));
    lemma_pair_texts_split(p);
    lemma_literal_refused(p, 0, j, n);
    if op == '+' {
        lemma_action_line(op, Opcode::Append, uuid, tail, n);
    } else if op == '~' {
        lemma_action_line(op, Opcode::Patch, uuid, tail, n);
    } else if op == '!' {
        lemma_action_line(op, Opcode::Upsert, uuid, tail, n);
    } else if op == '-' {
        law_delete_line(uuid, tail, n);
        let t = pair_texts(p)[0];
        lemma_pair_text(p[0].0, p[0].1);
        let q = join(pair_texts(p), seq!['\t']);
        let e = escaped(p[0].0).len() as int;
        assert(q.len() > e && q[e] == '=') by {
            if p.len() > 1 {
                crate::text::lemma_join_first(pair_texts(p), seq!['\t']);
            }
            assert(t[e] == '=');
        }
        assert(tail[e + 1] == '=');
        assert(!crate::text::is_white(tail[e + 1]));
    } else {
        reveal(action_of);
        assert(s[0] == op);
    }
}

/// Law: what reads as an action starts with one of the four opcodes and a well-formed identifier;
/// behind it stands white space alone for a delete, and a tab for any other.
pub proof fn law_action_line_form(s: Seq<char>, n: usize)
    ensures
        action_of(s, n) matches Ok(a) ==> s.len() >= 13 && stands_for(s[0], a.opcode) && is_uuid(
            a.uuid,
        ) && a.uuid == s.subrange(1, 13) && a.line_no == n && if s[0] == '-' {
            is_blank(s.skip(13))
        } else {
            s.len() > 13 && s[13] == '\t'
        },
{
    reveal(action_of);
    if let Ok(a) = action_of(s, n) {
        let rest = s.skip(1);
        lemma_bytes_parts(rest, 12);
        let u = byte_prefix(rest, 12);
        let after = byte_suffix(rest, 12);
        lemma_uuid_plain(u);
        assert(rest == u + after);
        assert(s.subrange(1, 13) == u) by {
            assert forall|i: int| 0 <= i < 12 implies s.subrange(1, 13)[i] == u[i] by {
                assert(rest[i] == s[i + 1]);
            }
        }
        assert(s.skip(13) == after) by {
            assert(rest.skip(12) == after);
            assert(s.skip(13) == rest.skip(12));
        }
        if after.len() > 0 {
            assert(s[13] == s.skip(13)[0]);
        }
    }
}

/// Whether a line counts: it is not blank and no comment.
pub open spec fn counts(line: Seq<char>) -> bool {
    line.len() > 0 && line[0] != '#'
}

/// Whether `ps` are the places, in order, of the lines from `i` on that count.
pub open spec fn counting_places(ls: Seq<Seq<char>>, i: int, ps: Seq<int>) -> bool {
    &&& forall|j: int| 0 <= j < ps.len() ==> i <= #[trigger] ps[j] < ls.len() && counts(ls[ps[j]])
    &&& forall|j: int, k: int| 0 <= j < k < ps.len() ==> #[trigger] ps[j] < #[trigger] ps[k]
    &&& forall|x: int| i <= x < ls.len() && counts(#[trigger] ls[x]) ==> ps.contains(x)
}

/// One more line that counts in front of others.
pub proof fn lemma_counting_first(ls: Seq<Seq<char>>, i: int, ps: Seq<int>)
    requires
        0 <= i < ls.len(),
        counts(ls[i]),
        counting_places(ls, i + 1, ps),
    ensures
        counting_places(ls, i, seq![i] + ps),
{
    let qs = seq![i] + ps;
    assert forall|j: int| 0 <= j < qs.len() implies i <= #[trigger] qs[j] < ls.len() && counts(
        ls[qs[j]],
    ) by {
        if j > 0 {
            assert(qs[j] == ps[j - 1]);
        }
    }
    assert forall|j: int, k: int| 0 <= j < k < qs.len() implies #[trigger] qs[j] < #[trigger] qs[k] by {
        assert(qs[k] == ps[k - 1]);
        if j > 0 {
            assert(qs[j] == ps[j - 1]);
        }
    }
    assert forall|x: int| i <= x < ls.len() && counts(#[trigger] ls[x]) implies qs.contains(x) by {
        if x == i {
            assert(qs[0] == x);
        } else {
            let j = choose|j: int| 0 <= j < ps.len() && ps[j] == x;
            assert(qs[j + 1] == x);
        }
    }
}

proof fn lemma_actions_places(ls: Seq<Seq<char>>, i: int) -> (ps: Seq<int>)
    requires
        0 <= i <= ls.len(),
    ensures
        counting_places(ls, i, ps),
        actions_from(ls, i) matches Ok(v) ==> v.len() == ps.len() && forall|j: int|
            0 <= j < v.len() ==> action_of(ls[ps[j]], (ps[j] + 1) as usize) == Ok::<
                ActionView,
                ErrorView,
            >(#[trigger] v[j]),
        actions_from(ls, i) is Ok <==> forall|j: int|
            0 <= j < ps.len() ==> action_of(ls[#[trigger] ps[j]], (ps[j] + 1) as usize) is Ok,
    decreases ls.len() - i,
{
    if i == ls.len() {
        Seq::empty()
    } else {
        let rest = lemma_actions_places(ls, i + 1);
        if counts(ls[i]) {
            lemma_counting_first(ls, i, rest);
            let ps = seq![i] + rest;
            if let Ok(v) = actions_from(ls, i) {
                let w = actions_from(ls, i + 1)->Ok_0;
                assert forall|j: int| 0 <= j < v.len() implies action_of(
                    ls[ps[j]],
                    (ps[j] + 1) as usize,
                ) == Ok::<ActionView, ErrorView>(#[trigger] v[j]) by {
                    if j > 0 {
                        assert(v[j] == w[j - 1]);
                        assert(ps[j] == rest[j - 1]);
                    }
                }
                assert forall|j: int| 0 <= j < ps.len() implies action_of(
                    ls[#[trigger] ps[j]],
                    (ps[j] + 1) as usize,
                ) is Ok by {
                    assert(action_of(ls[ps[j]], (ps[j] + 1) as usize) == Ok::<ActionView, ErrorView>(
                        v[j],
                    ));
                }
            }
            if forall|j: int|
                0 <= j < ps.len() ==> action_of(ls[#[trigger] ps[j]], (ps[j] + 1) as usize) is Ok {
                assert(ps[0] == i);
                assert forall|j: int| 0 <= j < rest.len() implies action_of(
                    ls[#[trigger] rest[j]],
                    (rest[j] + 1) as usize,
                ) is Ok by {
                    assert(ps[j + 1] == rest[j]);
                }
            }
            ps
        } else {
            rest
        }
    }
}

/// Law: an action file has one action for each line that is neither blank nor a comment, in their
/// order and with their numbers; it is refused exactly if one of these lines is.
pub proof fn law_action_file(ls: Seq<Seq<char>>)
    ensures
        exists|ps: Seq<int>| #[trigger]
            counting_places(ls, 0, ps) && (actions_from(ls, 0) is Ok <==> forall|j: int|
                0 <= j < ps.len() ==> action_of(ls[#[trigger] ps[j]], (ps[j] + 1) as usize) is Ok)
                && (actions_from(ls, 0) matches Ok(v) ==> v.len() == ps.len() && forall|j: int|
                0 <= j < v.len() ==> action_of(ls[ps[j]], (ps[j] + 1) as usize) == Ok::<
                    ActionView,
                    ErrorView,
                >(#[trigger] v[j])),
{
    let ps = lemma_actions_places(ls, 0);
    assert(counting_places(ls, 0, ps));
}

/// Law: a line with a tab and no field behind its identifier patches nothing, or leaves a record without
/// fields; an append needs a field.
pub proof fn law_action_without_fields(op: char, opcode: Opcode, uuid: Seq<char>, n: usize)
    requires
        stands_for(op, opcode),
        is_uuid(uuid),
    ensures
        opcode == Opcode::Append ==> action_of(seq![op] + uuid + seq!['\t'], n) is Err,
        opcode == Opcode::Patch || opcode == Opcode::Upsert ==> (action_of(
            seq![op] + uuid + seq!['\t'],
            n,
        ) matches Ok(a) && a.opcode == opcode && a.uuid == uuid && a.fields == Map::<
            Seq<char>,
            Seq<char>,
        >::empty()),
{
    let none = Seq::<(Seq<char>, Seq<char>)>::empty();
    let tail = seq!['\t'];
    lemma_action_line(op, opcode, uuid, tail, n);
    lemma_fields_read(none, n);
    assert(join(pair_texts(none), seq!['\t']) == Seq::<char>::empty());
    assert(tail.skip(1) == Seq::<char>::empty());
    let m = gathered(none);
    assert forall|k: Seq<char>| !(#[trigger] m.contains_key(k)) by {
        assert(values_of(none, k).len() == 0);
    }
    assert(m =~= Map::<Seq<char>, Seq<char>>::empty());
}

} // verus!
