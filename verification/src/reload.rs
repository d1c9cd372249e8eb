//! Laws of the file form: what is written reads back.
use crate::base62::{is_uuid, lemma_uuid_chars};
use crate::compact::{compacted, final_uuids, merged};
use crate::database::{database, law_compact, law_final_uuids, lemma_record_line_starts, sound};
use crate::dotsv::{file_from, file_text, footer, sorted_check, unlines, FileView};
use crate::error::ErrorView;
use crate::escape::{escaped, is_delimiter, law_escaped_has_no_delimiter};
use crate::fields::keys_of;
use crate::record::{ends_in_space, field_text, field_texts, record_line};
use crate::sorted::lemma_listed_finite;
use crate::text::{
    join, lemma_split_bytes_concat, lemma_split_nonempty, lines, raw_lines, split, trim_end,
};
use vstd::prelude::*;
use vstd::utf8::*;

verus! {

/// Whether a string can be one line of a text: it holds no line feed and does not end in a
/// carriage return.
pub open spec fn is_line(s: Seq<char>) -> bool {
    !s.contains('\n') && (s.len() > 0 ==> s.last() != '\r')
}

pub proof fn lemma_split_extend(a: Seq<char>, b: Seq<char>, sep: char)
    requires
        !b.contains(sep),
    ensures
        split(a + b, sep) == split(a, sep).drop_last().push(split(a, sep).last() + b),
    decreases b.len(),
{
    lemma_split_nonempty(a, sep);
    let p = split(a, sep);
    if b.len() == 0 {
        assert(a + b == a);
        assert(p.last() + b == p.last());
        assert(p.drop_last().push(p.last()) == p);
    } else {
        let d = b.drop_last();
        assert(b.contains(b[b.len() - 1]));
        assert(!d.contains(sep)) by {
            if d.contains(sep) {
                let k = choose|k: int| 0 <= k < d.len() && d[k] == sep;
                assert(b[k] == sep);
            }
        }
        lemma_split_extend(a, d, sep);
        let s = a + b;
        assert(s.drop_last() == a + d);
        assert(s.last() == b.last());
        let q = p.drop_last().push(p.last() + d);
        assert(q.drop_last() == p.drop_last());
        assert(q.last().push(b.last()) == p.last() + b);
    }
}

pub proof fn lemma_split_unlines(ls: Seq<Seq<char>>)
    requires
        forall|i: int| 0 <= i < ls.len() ==> !(#[trigger] ls[i]).contains('\n'),
    ensures
        split(unlines(ls), '\n') == ls.push(Seq::empty()),
    decreases ls.len(),
{
    reveal_strlit("\n");
    if ls.len() == 0 {
        assert(split(Seq::<char>::empty(), '\n') == seq![Seq::<char>::empty()]);
        assert(ls.push(Seq::empty()) == seq![Seq::<char>::empty()]);
    } else {
        let d = ls.drop_last();
        assert forall|i: int| 0 <= i < d.len() implies !(#[trigger] d[i]).contains('\n') by {
            assert(d[i] == ls[i]);
        }
        lemma_split_unlines(d);
        let a = unlines(d);
        let b = ls[ls.len() - 1];
        lemma_split_extend(a, b, '\n');
        let q = d.push(Seq::<char>::empty());
        assert(q.drop_last() == d);
        assert(Seq::<char>::empty() + b == b);
        assert(split(a + b, '\n') == ls) by {
            assert(d.push(b) == ls);
        }
        let s = unlines(ls);
        assert(s.drop_last() == a + b);
        assert(s.last() == '\n');
    }
}

/// Law: lines that are written with a line feed behind each are read back as they were.
pub proof fn law_lines_unlines(ls: Seq<Seq<char>>)
    requires
        forall|i: int| 0 <= i < ls.len() ==> is_line(#[trigger] ls[i]),
    ensures
        lines(unlines(ls)) == ls,
{
    lemma_split_unlines(ls);
    assert(ls.push(Seq::<char>::empty()).drop_last() == ls);
    assert(raw_lines(unlines(ls)) == ls);
    assert forall|i: int| 0 <= i < ls.len() implies trim_end(ls[i], '\r') == #[trigger] ls[i] by {
        assert(is_line(ls[i]));
    }
    assert(lines(unlines(ls)) == ls);
}

/// Whether a string can stand as a line of a section: it is a line, not blank and no comment.
pub open spec fn is_section_line(s: Seq<char>) -> bool {
    is_line(s) && s.len() > 0 && s[0] != '#'
}

/// Whether the lines of a file can be told apart when they are written.
pub open spec fn writable(f: FileView) -> bool {
    &&& forall|i: int|
        0 <= i < f.sorted.len() ==> is_section_line(#[trigger] f.sorted[i]) && sorted_check(
            f.sorted[i],
            0,
        ) is Ok
    &&& forall|i: int| 0 <= i < f.pending.len() ==> is_section_line(#[trigger] f.pending[i])
}

proof fn lemma_read_pending(ls: Seq<Seq<char>>, p: Seq<Seq<char>>, start: int, i: int, foot: Seq<char>)
    requires
        0 <= i <= p.len(),
        0 <= start,
        ls.len() == start + p.len() + 1,
        forall|k: int| 0 <= k < p.len() ==> ls[start + k] == #[trigger] p[k],
        forall|k: int| 0 <= k < p.len() ==> is_section_line(#[trigger] p[k]),
        ls[start + p.len()] == foot,
        foot.len() > 0,
        foot[0] == '#',
    ensures
        file_from(ls, start + i, true) == Ok::<FileView, ErrorView>(
            FileView { sorted: Seq::empty(), pending: p.skip(i) },
        ),
    decreases p.len() - i,
{
    if i == p.len() {
        assert(file_from(ls, start + i + 1, true) == Ok::<FileView, ErrorView>(
            FileView { sorted: Seq::empty(), pending: Seq::empty() },
        ));
        assert(p.skip(i) == Seq::<Seq<char>>::empty());
    } else {
        lemma_read_pending(ls, p, start, i + 1, foot);
        assert(ls[start + i] == p[i]);
        assert(is_section_line(p[i]));
        assert(seq![p[i]] + p.skip(i + 1) == p.skip(i));
    }
}

proof fn lemma_read_sorted(ls: Seq<Seq<char>>, s: Seq<Seq<char>>, i: int, rest: FileView)
    requires
        0 <= i <= s.len() <= ls.len(),
        forall|k: int| 0 <= k < s.len() ==> ls[k] == #[trigger] s[k],
        forall|k: int|
            0 <= k < s.len() ==> is_section_line(#[trigger] s[k]) && sorted_check(s[k], 0) is Ok,
        file_from(ls, s.len() as int, false) == Ok::<FileView, ErrorView>(rest),
        rest.sorted == Seq::<Seq<char>>::empty(),
    ensures
        file_from(ls, i, false) == Ok::<FileView, ErrorView>(
            FileView { sorted: s.skip(i), pending: rest.pending },
        ),
    decreases s.len() - i,
{
    if i == s.len() {
        assert(s.skip(i) == Seq::<Seq<char>>::empty());
    } else {
        lemma_read_sorted(ls, s, i + 1, rest);
        assert(ls[i] == s[i]);
        assert(is_section_line(s[i]));
        assert(seq![s[i]] + s.skip(i + 1) == s.skip(i));
    }
}

/// Law: a file that is written and read again has the same lines.
pub proof fn law_read_written_file(f: FileView, stamp: Seq<char>)
    requires
        writable(f),
        is_line(stamp),
    ensures
        file_from(lines(file_text(f, stamp)), 0, false) == Ok::<FileView, ErrorView>(f),
{
    reveal_strlit("# ");
    let foot = footer(stamp);
    assert(foot[0] == '#');
    assert(is_line(foot)) by {
        if foot.contains('\n') {
            let k = choose|k: int| 0 <= k < foot.len() && foot[k] == '\n';
            assert(stamp[k - 2] == '\n');
        }
        if stamp.len() > 0 {
            assert(foot.last() == stamp.last());
        } else {
            assert(foot.last() == ' ');
        }
    }
    let empty = Seq::<char>::empty();
    let ls = if f.pending.len() == 0 {
        f.sorted + seq![foot]
    } else {
        f.sorted + seq![empty] + f.pending + seq![foot]
    };
    let n = f.sorted.len() as int;
    assert forall|i: int| 0 <= i < ls.len() implies is_line(#[trigger] ls[i]) by {
        if i < n {
            assert(ls[i] == f.sorted[i]);
        } else if f.pending.len() > 0 && n < i < n + 1 + f.pending.len() {
            assert(ls[i] == f.pending[i - n - 1]);
        } else if f.pending.len() > 0 && i == n {
            assert(ls[i] == empty);
        } else {
            assert(ls[i] == foot);
        }
    }
    law_lines_unlines(ls);
    let rest = FileView { sorted: Seq::empty(), pending: f.pending };
    if f.pending.len() == 0 {
        assert(ls[n] == foot);
        assert(file_from(ls, n + 1, false) == Ok::<FileView, ErrorView>(
            FileView { sorted: Seq::empty(), pending: Seq::empty() },
        ));
        assert(f.pending == Seq::<Seq<char>>::empty());
    } else {
        assert forall|k: int| 0 <= k < f.pending.len() implies ls[n + 1 + k] == #[trigger] f.pending[k] by {}
        lemma_read_pending(ls, f.pending, n + 1, 0, foot);
        assert(f.pending.skip(0) == f.pending);
        assert(ls[n] == empty);
    }
    assert(file_from(ls, n, false) == Ok::<FileView, ErrorView>(rest));
    assert forall|k: int| 0 <= k < f.sorted.len() implies ls[k] == #[trigger] f.sorted[k] by {}
    lemma_read_sorted(ls, f.sorted, 0, rest);
    assert(f.sorted.skip(0) == f.sorted);
}

pub proof fn lemma_join_no_char(p: Seq<Seq<char>>, sep: Seq<char>, c: char)
    requires
        forall|i: int| 0 <= i < p.len() ==> !(#[trigger] p[i]).contains(c),
        !sep.contains(c),
    ensures
        !join(p, sep).contains(c),
    decreases p.len(),
{
    if p.len() >= 2 {
        let d = p.drop_last();
        assert forall|i: int| 0 <= i < d.len() implies !(#[trigger] d[i]).contains(c) by {
            assert(d[i] == p[i]);
        }
        lemma_join_no_char(d, sep, c);
        let s = join(p, sep);
        if s.contains(c) {
            let k = choose|k: int| 0 <= k < s.len() && s[k] == c;
            let n = join(d, sep).len();
            if k < n {
                assert(join(d, sep)[k] == c);
            } else if k < n + sep.len() {
                assert(sep[k - n] == c);
            } else {
                assert(p[p.len() - 1][k - n - sep.len()] == c);
            }
        }
    }
}

/// The line of a record holds no line feed and no carriage return.
pub proof fn lemma_record_line_without(uuid: Seq<char>, m: Map<Seq<char>, Seq<char>>, c: char)
    requires
        is_uuid(uuid),
        c == '\n' || c == '\r',
    ensures
        !record_line(uuid, m).contains(c),
{
    reveal_strlit("\t");
    reveal_strlit("=");
    lemma_uuid_chars(uuid);
    let parts = seq![uuid] + field_texts(m);
    assert forall|i: int| 0 <= i < parts.len() implies !(#[trigger] parts[i]).contains(c) by {
        if i == 0 {
            if uuid.contains(c) {
                let k = choose|k: int| 0 <= k < uuid.len() && uuid[k] == c;
                assert(uuid[k] as u8 == c as u8);
            }
        } else {
            let k = keys_of(m)[i - 1];
            let v = m[k];
            let t = field_text(k, v);
            assert(parts[i] == t);
            law_escaped_has_no_delimiter(k);
            law_escaped_has_no_delimiter(v);
            if t.contains(c) {
                let j = choose|j: int| 0 <= j < t.len() && t[j] == c;
                let n = escaped(k).len();
                if j < n {
                    assert(is_delimiter(escaped(k)[j]));
                } else if j > n {
                    assert(is_delimiter(escaped(v)[j - n - 1]));
                }
            }
        }
    }
    assert(!("\t"@).contains(c));
    lemma_join_no_char(parts, "\t"@, c);
}

/// The line of a record is one line and no comment.
pub proof fn lemma_record_line_is_line(uuid: Seq<char>, m: Map<Seq<char>, Seq<char>>)
    requires
        is_uuid(uuid),
    ensures
        is_section_line(record_line(uuid, m)),
{
    lemma_uuid_chars(uuid);
    lemma_record_line_without(uuid, m, '\n');
    lemma_record_line_without(uuid, m, '\r');
    let s = record_line(uuid, m);
    let tail = lemma_record_line_starts(uuid, m);
    assert(s[0] == uuid[0]);
    assert(s.last() != '\r') by {
        assert(s.contains(s[s.len() - 1]));
    }
}

/// Law: after compaction a sound database whose records have fields is written and read again
/// without change. Left out are records whose last value ends in a space.
pub proof fn law_reload_compacted(f: FileView, stamp: Seq<char>)
    requires
        sound(f),
        forall|u: Seq<char>| #[trigger]
            database(f).contains_key(u) ==> !ends_in_space(database(f)[u]) && database(f)[u]
                != Map::<Seq<char>, Seq<char>>::empty(),
        is_line(stamp),
    ensures
        compacted(f) is Ok,
        file_from(lines(file_text(compacted(f)->Ok_0, stamp)), 0, false) == compacted(f),
{
    law_compact(f);
    let g = compacted(f)->Ok_0;
    let m = merged(f)->Ok_0;
    let us = final_uuids(m);
    law_final_uuids(m);
    assert forall|i: int| 0 <= i < g.sorted.len() implies is_section_line(#[trigger] g.sorted[i])
        && sorted_check(g.sorted[i], 0) is Ok by {
        let u = us[i];
        assert(us.contains(u));
        assert(m.live(u));
        let fields = (m.records[u]->0).fields;
        assert(database(f).contains_key(u));
        lemma_record_line_is_line(u, fields);
        lemma_uuid_chars(u);
        lemma_listed_finite(fields.dom());
        if keys_of(fields).len() == 0 {
            assert(keys_of(fields).to_set() =~= Set::<Seq<char>>::empty());
            assert(fields =~= Map::<Seq<char>, Seq<char>>::empty());
        }
        let tail = lemma_record_line_starts(u, fields);
        lemma_split_bytes_concat(u, tail);
        assert(tail.len() > 0);
        assert(encode_utf8(tail).len() > 0) by {
            crate::text::lemma_lead_byte(tail[0]);
        }
    }
    law_read_written_file(g, stamp);
}

} // verus!
