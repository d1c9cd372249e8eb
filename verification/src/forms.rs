//! What the characters of an identifier may be, and what the escapes of a text stand for.
use crate::base62::{
    is_day, is_format_g, is_hour, is_month, is_uuid, lemma_uuid_chars, DAY_TABLE, FORMAT_G,
    HOUR_TABLE, MONTH_TABLE,
};
use crate::error::ErrorView;
use crate::escape::{escaped, escaped_char, hex_value, unescaped, unescaped_rest};
use vstd::prelude::*;
use vstd::utf8::*;

verus! {

/// A digit, a lowercase letter other than `l`, or an uppercase letter other than `O`.
pub open spec fn sixtieth(c: char) -> bool {
    '0' <= c <= '9' || 'a' <= c <= 'z' && c != 'l' || 'A' <= c <= 'Z' && c != 'O'
}

/// A letter or a digit.
pub open spec fn letter_or_digit(c: char) -> bool {
    '0' <= c <= '9' || 'a' <= c <= 'z' || 'A' <= c <= 'Z'
}

/// The characters that an identifier may have.
pub open spec fn identifier(s: Seq<char>) -> bool {
    &&& s.len() == 12
    &&& 'A' <= s[0] <= 'Z'
    &&& s[1] == 'G'
    &&& sixtieth(s[2])
    &&& '0' <= s[3] <= '9'
    &&& '0' <= s[4] <= '9'
    &&& 'a' <= s[5] <= 'f' || 'A' <= s[5] <= 'F'
    &&& '0' <= s[6] <= '9' || 'a' <= s[6] <= 'k' || 'A' <= s[6] <= 'J'
    &&& s[7] == '0' || 'a' <= s[7] <= 'l' || 'A' <= s[7] <= 'K'
    &&& sixtieth(s[8])
    &&& sixtieth(s[9])
    &&& letter_or_digit(s[10])
    &&& letter_or_digit(s[11])
}

/// Law: the places of the Format-G alphabet hold the digits, then the lowercase letters without `l`,
/// then the uppercase letters without `O`, each in its order.
pub proof fn law_format_g_places(i: int)
    requires
        0 <= i < 60,
    ensures
        FORMAT_G[i] == if i < 10 {
            48 + i
        } else if i < 21 {
            87 + i
        } else if i < 35 {
            88 + i
        } else if i < 49 {
            30 + i
        } else {
            31 + i
        },
{
}

proof fn lemma_months(b: u8)
    ensures
        is_month(b) == (97 <= b <= 102 || 65 <= b <= 70),
{
    if 97 <= b <= 102 {
        assert(MONTH_TABLE[b as int - 96] == b);
    }
    if 65 <= b <= 70 {
        assert(MONTH_TABLE[b as int - 58] == b);
    }
}

proof fn lemma_days(b: u8)
    ensures
        is_day(b) == (48 <= b <= 57 || 97 <= b <= 107 || 65 <= b <= 74),
{
    if 48 <= b <= 57 {
        assert(DAY_TABLE[b as int - 47] == b);
    }
    if 97 <= b <= 107 {
        assert(DAY_TABLE[b as int - 86] == b);
    }
    if 65 <= b <= 74 {
        assert(DAY_TABLE[b as int - 43] == b);
    }
}

proof fn lemma_hours(b: u8)
    ensures
        is_hour(b) == (b == 48 || 97 <= b <= 108 || 65 <= b <= 75),
{
    if b == 48 {
        assert(HOUR_TABLE[0] == b);
    }
    if 97 <= b <= 108 {
        assert(HOUR_TABLE[b as int - 96] == b);
    }
    if 65 <= b <= 75 {
        assert(HOUR_TABLE[b as int - 52] == b);
    }
}

proof fn lemma_sixtieths(b: u8)
    ensures
        is_format_g(b) == (48 <= b <= 57 || 97 <= b <= 122 && b != 108 || 65 <= b <= 90 && b != 79),
{
    if 48 <= b <= 57 {
        law_format_g_places(b as int - 48);
    } else if 97 <= b <= 107 {
        law_format_g_places(b as int - 87);
    } else if 109 <= b <= 122 {
        law_format_g_places(b as int - 88);
    } else if 65 <= b <= 78 {
        law_format_g_places(b as int - 30);
    } else if 80 <= b <= 90 {
        law_format_g_places(b as int - 31);
    }
    if is_format_g(b) {
        let i = choose|i: int| 0 <= i < 60 && #[trigger] FORMAT_G[i] == b;
        law_format_g_places(i);
    }
}

proof fn lemma_ascii_char(c: char)
    requires
        (c as u32) < 128,
    ensures
        '\0' <= c <= '\u{7f}',
{
}

/// Law: a text is an identifier exactly if it has twelve characters, each in the range of its place:
/// an uppercase letter, `G`, the century, two digits of the year, the month, the day, the hour, the
/// minute, the second, and two letters or digits.
pub proof fn law_identifier_characters(s: Seq<char>)
    ensures
        is_uuid(s) <==> identifier(s),
{
    let b = encode_utf8(s);
    if is_uuid(s) {
        lemma_uuid_chars(s);
        assert(is_ascii_chars(s)) by {
            assert forall|i| 0 <= i < s.len() implies '\0' <= #[trigger] s[i] <= '\u{7f}' by {
                lemma_ascii_char(s[i]);
            }
        }
        is_ascii_chars_encode_utf8(s);
    }
    if identifier(s) {
        assert(is_ascii_chars(s)) by {
            assert forall|i| 0 <= i < s.len() implies '\0' <= #[trigger] s[i] <= '\u{7f}' by {
                assert(i == 0 || i == 1 || i == 2 || i == 3 || i == 4 || i == 5 || i == 6 || i == 7 || i
                    == 8 || i == 9 || i == 10 || i == 11);
            }
        }
        is_ascii_chars_encode_utf8(s);
    }
    if is_uuid(s) || identifier(s) {
        assert(b.len() == 12);
        assert forall|i: int| 0 <= i < 12 implies b[i] == #[trigger] s[i] as u8 && s[i] as u32 == b[i] by {}
        assert(b[0] == s[0] as u8 && b[1] == s[1] as u8 && b[2] == s[2] as u8 && b[3] == s[3] as u8);
        assert(b[4] == s[4] as u8 && b[5] == s[5] as u8 && b[6] == s[6] as u8 && b[7] == s[7] as u8);
        assert(b[8] == s[8] as u8 && b[9] == s[9] as u8 && b[10] == s[10] as u8 && b[11] == s[11] as u8);
        lemma_sixtieths(b[2]);
        lemma_months(b[5]);
        lemma_days(b[6]);
        lemma_hours(b[7]);
        lemma_sixtieths(b[8]);
        lemma_sixtieths(b[9]);
    }
}

/// Law: a tab, a line feed, a carriage return and `=` are written as a backslash, `x` and their two
/// hexadecimal digits, a backslash as two, and every other character as it is.
pub proof fn law_written_character(c: char)
    ensures
        escaped(seq![c]) == if c == '\t' {
            seq!['\\', 'x', '0', '9']
        } else if c == '\n' {
            seq!['\\', 'x', '0', 'A']
        } else if c == '\r' {
            seq!['\\', 'x', '0', 'D']
        } else if c == '=' {
            seq!['\\', 'x', '3', 'D']
        } else if c == '\\' {
            seq!['\\', '\\']
        } else {
            seq![c]
        },
{
    reveal_strlit("\\x09");
    reveal_strlit("\\x0A");
    reveal_strlit("\\x0D");
    reveal_strlit("\\x3D");
    reveal_strlit("\\\\");
    assert(seq![c].skip(1) == Seq::<char>::empty());
    assert(escaped(seq![c]) == escaped_char(c) + escaped(Seq::<char>::empty()));
    assert(escaped(Seq::<char>::empty()) == Seq::<char>::empty());
}

/// Law: two texts behind one another are escaped as each of them is, behind one another.
pub proof fn law_escape_in_parts(a: Seq<char>, b: Seq<char>)
    ensures
        escaped(a + b) == escaped(a) + escaped(b),
    decreases a.len(),
{
    if a.len() == 0 {
        assert(a + b == b);
        assert(escaped(a) + escaped(b) == escaped(b));
    } else {
        let s = a + b;
        assert(s.skip(1) == a.skip(1) + b);
        law_escape_in_parts(a.skip(1), b);
        assert(s[0] == a[0]);
        assert(escaped_char(a[0]) + (escaped(a.skip(1)) + escaped(b)) == escaped_char(a[0]) + escaped(
            a.skip(1),
        ) + escaped(b));
    }
}

/// A hexadecimal digit, of either form, for `n`.
pub open spec fn stands_for_hex(c: char, n: int) -> bool {
    ||| 0 <= n <= 9 && c as int == '0' as int + n
    ||| 10 <= n <= 15 && (c as int == 'a' as int + n - 10 || c as int == 'A' as int + n - 10)
}

/// Law: in front of a readable text, a plain character is read as itself, two backslashes as one, and
/// `\x` with two hexadecimal digits as the character of that number.
pub proof fn law_escapes_read(t: Seq<char>, c: char, x: char, y: char, n: int, m: int)
    requires
        unescaped(t) is Ok,
        c != '\\',
        stands_for_hex(x, n),
        stands_for_hex(y, m),
    ensures
        unescaped(seq![c] + t) == Ok::<Seq<char>, ErrorView>(seq![c] + unescaped(t)->Ok_0),
        unescaped(seq!['\\', '\\'] + t) == Ok::<Seq<char>, ErrorView>(seq!['\\'] + unescaped(t)->Ok_0),
        unescaped(seq!['\\', 'x', x, y] + t) == Ok::<Seq<char>, ErrorView>(
            seq![(16 * n + m) as char] + unescaped(t)->Ok_0,
        ),
{
    let a = seq![c] + t;
    assert(a.skip(1) == t);
    lemma_rest_readable(t, t, a);
    let b = seq!['\\', '\\'] + t;
    assert(b.skip(2) == t && b[0] == '\\' && b[1] == '\\');
    lemma_rest_readable(t, t, b);
    let d = seq!['\\', 'x', x, y] + t;
    assert(d.skip(4) == t && d[0] == '\\' && d[1] == 'x' && d[2] == x && d[3] == y);
    assert(hex_value(x) == Some(n as nat) && hex_value(y) == Some(m as nat));
    lemma_rest_readable(t, t, d);
}

proof fn lemma_rest_readable(s: Seq<char>, a: Seq<char>, b: Seq<char>)
    ensures
        unescaped_rest(s, a) is Ok <==> unescaped_rest(s, b) is Ok,
        unescaped_rest(s, a) is Ok ==> unescaped_rest(s, a) == unescaped_rest(s, b),
    decreases s.len(),
{
    if s.len() > 0 {
        lemma_rest_readable(s.skip(1), a, b);
        if s.len() > 1 {
            lemma_rest_readable(s.skip(2), a, b);
        }
        if s.len() > 3 {
            lemma_rest_readable(s.skip(4), a, b);
        }
    }
}

/// A hexadecimal digit of either form.
pub open spec fn is_hex(c: char) -> bool {
    '0' <= c <= '9' || 'a' <= c <= 'f' || 'A' <= c <= 'F'
}

/// Law: a backslash in front of a character other than a backslash and `x`, one at the end, and a
/// `\x` that two hexadecimal digits do not follow make a text unreadable.
pub proof fn law_unknown_escape_refused(t: Seq<char>, c: char)
    requires
        c != '\\',
    ensures
        unescaped(seq!['\\']) is Err,
        c != 'x' ==> unescaped(seq!['\\', c] + t) is Err,
        !(t.len() >= 2 && is_hex(t[0]) && is_hex(t[1])) ==> unescaped(
            seq!['\\', 'x'] + t,
        ) is Err,
{
    let a = seq!['\\', c] + t;
    assert(a[0] == '\\' && a[1] == c);
    let b = seq!['\\', 'x'] + t;
    assert(b[0] == '\\' && b[1] == 'x');
    if t.len() >= 2 {
        assert(b[2] == t[0] && b[3] == t[1]);
    }
}

} // verus!
