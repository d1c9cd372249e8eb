//! Where an action writes, which characters are white space, and which numbers a lock file says.
use crate::action::{ActionView, Opcode};
use crate::apply::{applied, delete_line, insert_line, patch_line};
use crate::base62::{is_uuid, lemma_uuid_chars};
use crate::database::{database, sound};
use crate::dotsv::{holds, mentions, sorted_place, unmentioned, FileView};
use crate::error::ErrorView;
use crate::lock::{number_or_zero, radix_digit, radix_value};
use crate::record::{patched, record_line};
use crate::text::{byte_len, is_white, lemma_encode_concat, lemma_encode_injective};
use vstd::prelude::*;
use vstd::utf8::*;

verus! {

/// Whether a file is another with one more pending line.
pub open spec fn adds_line(f: FileView, g: FileView, line: Seq<char>) -> bool {
    g.sorted == f.sorted && g.pending == f.pending.push(line)
}

/// Whether a file is another in which one sorted line is overwritten, with `line` and spaces behind it.
pub open spec fn overwrites(f: FileView, g: FileView, i: int, line: Seq<char>) -> bool {
    &&& g.pending == f.pending
    &&& g.sorted.len() == f.sorted.len()
    &&& 0 <= i < f.sorted.len()
    &&& forall|j: int| 0 <= j < f.sorted.len() && j != i ==> #[trigger] g.sorted[j] == f.sorted[j]
    &&& g.sorted[i].len() == line.len() + byte_len(f.sorted[i]) - byte_len(line)
    &&& g.sorted[i].take(line.len() as int) == line
    &&& forall|k: int| line.len() <= k < g.sorted[i].len() ==> #[trigger] g.sorted[i][k] == ' '
}

/// Law: an append and a delete add one pending line and leave the rest of the file as it is.
pub proof fn law_pending_line(f: FileView, a: ActionView, g: FileView)
    requires
        applied(f, a) == Ok::<FileView, ErrorView>(g),
    ensures
        a.opcode == Opcode::Append ==> adds_line(f, g, insert_line(a.uuid, a.fields)),
        a.opcode == Opcode::Delete ==> adds_line(f, g, delete_line(a.uuid)),
{
}

/// Law: an upsert with fields overwrites its record exactly if that stands in the sorted section, no
/// pending line is about it, and the new line has no more bytes than the old; else it adds one
/// pending line.
pub proof fn law_upsert_place(f: FileView, a: ActionView, g: FileView)
    requires
        a.opcode == Opcode::Upsert,
        a.fields != Map::<Seq<char>, Seq<char>>::empty(),
        applied(f, a) == Ok::<FileView, ErrorView>(g),
        sorted_place(f, a.uuid) matches Ok(i) ==> 0 <= i < f.sorted.len(),
    ensures
        ({
            let line = record_line(a.uuid, a.fields);
            match sorted_place(f, a.uuid) {
                Ok(i) => if unmentioned(f, a.uuid) && byte_len(line) <= byte_len(f.sorted[i]) {
                    overwrites(f, g, i, line)
                } else {
                    adds_line(f, g, insert_line(a.uuid, a.fields))
                },
                Err(_) => adds_line(f, g, insert_line(a.uuid, a.fields)),
            }
        }),
{
    let line = record_line(a.uuid, a.fields);
    if let Ok(i) = sorted_place(f, a.uuid) {
        if unmentioned(f, a.uuid) && byte_len(line) <= byte_len(f.sorted[i]) {
            lemma_overwritten(f, g, i, line);
        }
    }
}

proof fn lemma_overwritten(f: FileView, g: FileView, i: int, line: Seq<char>)
    requires
        0 <= i < f.sorted.len(),
        byte_len(line) <= byte_len(f.sorted[i]),
        g == crate::apply::with_sorted_line(f, i, line),
    ensures
        overwrites(f, g, i, line),
{
    assert(g.sorted[i].take(line.len() as int) == line);
}

/// Law: a patch overwrites its record exactly if that stands in the sorted section, no pending line is
/// about it, and the patched line has no more bytes than the old; else it adds one pending line with
/// what it names.
pub proof fn law_patch_place(f: FileView, a: ActionView, g: FileView)
    requires
        sound(f),
        is_uuid(a.uuid),
        a.opcode == Opcode::Patch,
        holds(f, a.uuid),
        applied(f, a) == Ok::<FileView, ErrorView>(g),
    ensures
        ({
            let line = record_line(a.uuid, patched(database(f)[a.uuid], a.fields));
            match sorted_place(f, a.uuid) {
                Ok(i) => if unmentioned(f, a.uuid) && byte_len(line) <= byte_len(f.sorted[i]) {
                    overwrites(f, g, i, line)
                } else {
                    adds_line(f, g, patch_line(a.uuid, a.fields))
                },
                Err(_) => adds_line(f, g, patch_line(a.uuid, a.fields)),
            }
        }),
{
    crate::database::law_binary_search(crate::dotsv::uuid_parts(f.sorted), a.uuid);
    crate::database::lemma_patch_empties(f, a);
    if let Ok(i) = sorted_place(f, a.uuid) {
        if unmentioned(f, a.uuid) {
            crate::database::lemma_in_place(f, a, i);
            let line = record_line(a.uuid, patched(database(f)[a.uuid], a.fields));
            if byte_len(line) <= byte_len(f.sorted[i]) {
                lemma_overwritten(f, g, i, line);
            }
        }
    }
}

/// Law: white space is the tab, the line feed, the vertical tab, the form feed, the carriage return, the
/// space, the next-line character, the no-break space, and the spaces and separators of Unicode.
pub proof fn law_white_space(c: char)
    ensures
        is_white(c) <==> {
            ||| c == '\t'
            ||| c == '\n'
            ||| c == '\u{b}'
            ||| c == '\u{c}'
            ||| c == '\r'
            ||| c == ' '
            ||| c == '\u{85}'
            ||| c == '\u{a0}'
            ||| c == '\u{1680}'
            ||| '\u{2000}' <= c <= '\u{200a}'
            ||| c == '\u{2028}'
            ||| c == '\u{2029}'
            ||| c == '\u{202f}'
            ||| c == '\u{205f}'
            ||| c == '\u{3000}'
        },
{
}

/// A digit for `d`: decimal, or hexadecimal of either form.
pub open spec fn digit_for(c: char, d: int) -> bool {
    ||| 0 <= d <= 9 && c as int == '0' as int + d
    ||| 10 <= d <= 15 && (c as int == 'a' as int + d - 10 || c as int == 'A' as int + d - 10)
}

/// Whether a character is a digit in base 10 or 16.
pub open spec fn is_figure(c: char, base: int) -> bool {
    '0' <= c <= '9' || base == 16 && ('a' <= c <= 'f' || 'A' <= c <= 'F')
}

/// The number that digits say in base 10 or 16.
pub open spec fn figures_say(s: Seq<char>, base: int, n: int) -> bool
    decreases s.len(),
{
    if s.len() == 0 {
        n == 0
    } else {
        n >= 0 && digit_for(s.last(), n % base) && figures_say(s.drop_last(), base, n / base)
    }
}

proof fn lemma_radix(s: Seq<char>, base: nat, n: int)
    requires
        base == 10 || base == 16,
    ensures
        figures_say(s, base as int, n) ==> radix_value(s, base) == Some(n as nat) && n >= 0,
        (exists|k: int| 0 <= k < s.len() && !is_figure(#[trigger] s[k], base as int)) ==> radix_value(
            s,
            base,
        ) is None,
    decreases s.len(),
{
    if s.len() > 0 {
        let d = s.drop_last();
        if figures_say(s, base as int, n) {
            let r = n % (base as int);
            assert(0 <= r < base && n == (n / (base as int)) * base + r) by (nonlinear_arith)
                requires
                    base == 10 || base == 16,
                    r == n % (base as int),
                    n >= 0,
            ;
            lemma_radix(d, base, n / (base as int));
            assert(radix_digit(s.last(), base) == Some(r as nat));
        }
        if exists|k: int| 0 <= k < s.len() && !is_figure(#[trigger] s[k], base as int) {
            let k = choose|k: int| 0 <= k < s.len() && !is_figure(#[trigger] s[k], base as int);
            if k < d.len() {
                assert(d[k] == s[k]);
                lemma_radix(d, base, 0);
            }
        }
    }
}

/// Law: a number in a lock file is what its digits say, with or without `+` before them; a text that
/// holds anything else than digits, or says more than 64 bits hold, counts as zero, as does an empty one.
pub proof fn law_number_read(s: Seq<char>, base: nat, n: int)
    requires
        base == 10 || base == 16,
    ensures
        s.len() > 0 && figures_say(s, base as int, n) && n <= u64::MAX ==> number_or_zero(s, base) == n
            && number_or_zero(seq!['+'] + s, base) == n,
        figures_say(s, base as int, n) && n > u64::MAX ==> number_or_zero(s, base) == 0,
        (exists|k: int| 0 <= k < s.len() && !is_figure(#[trigger] s[k], base as int)) && s[0] != '+'
            ==> number_or_zero(s, base) == 0,
        number_or_zero(Seq::<char>::empty(), base) == 0,
{
    lemma_radix(s, base, n);
    let p = seq!['+'] + s;
    assert(p.skip(1) == s);
    assert(p[0] == '+');
    if s.len() > 0 && figures_say(s, base as int, n) && s[0] == '+' {
        assert(!is_figure(s[0], base as int));
    }
}

/// A line of an opcode, an identifier and what stands behind it.
pub open spec fn about(line: Seq<char>, op: char, v: Seq<char>, tail: Seq<char>) -> bool {
    &&& op == '+' || op == '-' || op == '~'
    &&& is_uuid(v)
    &&& line == seq![op] + v + tail
}

/// Law: a pending line is about the identifier behind its opcode and about no other, and a file has no
/// line about an identifier exactly if none of its pending lines is.
pub proof fn law_about(f: FileView, line: Seq<char>, op: char, v: Seq<char>, tail: Seq<char>, u: Seq<char>)
    requires
        about(line, op, v, tail),
        is_uuid(u),
    ensures
        mentions(line, u) <==> u == v,
        unmentioned(FileView { sorted: f.sorted, pending: f.pending.push(line) }, u) <==> unmentioned(
            f,
            u,
        ) && u != v,
        unmentioned(FileView { sorted: f.sorted, pending: Seq::empty() }, u),
{
    let head = seq![op];
    lemma_encode_concat(head + v, tail);
    lemma_encode_concat(head, v);
    lemma_uuid_chars(v);
    lemma_uuid_chars(u);
    assert(is_ascii_chars(head));
    is_ascii_chars_encode_utf8(head);
    let b = encode_utf8(line);
    assert(b.len() >= 13);
    assert(b.subrange(1, 13) == encode_utf8(v));
    if encode_utf8(u) == encode_utf8(v) {
        lemma_encode_injective(u, v);
    }
    assert(mentions(line, u) <==> u == v);
    let g = FileView { sorted: f.sorted, pending: f.pending.push(line) };
    if unmentioned(g, u) {
        assert forall|k: int| 0 <= k < f.pending.len() implies !mentions(#[trigger] f.pending[k], u) by {
            assert(g.pending[k] == f.pending[k]);
        }
        assert(!mentions(g.pending[f.pending.len() as int], u));
    }
}

} // verus!
