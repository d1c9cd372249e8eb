//! Escaping of keys and values, and the array form of a value.
//!
//! Tab, line feed, carriage return, `=` and `\` never stand for themselves inside a field: they
//! are written `\x09`, `\x0A`, `\x0D`, `\x3D` and `\\`. A value may be a list, written
//! `["a","b"]` with `\"` and `\\` inside the elements.
use crate::error::{debug_of, debug_text, outcome, ErrorView, Result, TsdbError};
use crate::text::{
    byte_len, byte_len_of, cat2, cat4, chars_of, dec, dec_of, join, lemma_encode_concat, lemma_join_first, views, width,
    width_of,
};
use vstd::prelude::*;
use vstd::utf8::*;

verus! {

/// The written form of one character.
pub open spec fn escaped_char(c: char) -> Seq<char> {
    if c == '\t' {
        "\\x09"@
    } else if c == '\n' {
        "\\x0A"@
    } else if c == '\r' {
        "\\x0D"@
    } else if c == '=' {
        "\\x3D"@
    } else if c == '\\' {
        "\\\\"@
    } else {
        seq![c]
    }
}

/// The written form of a key or value.
pub open spec fn escaped(s: Seq<char>) -> Seq<char>
    decreases s.len(),
{
    if s.len() == 0 {
        Seq::empty()
    } else {
        escaped_char(s[0]) + escaped(s.skip(1))
    }
}

/// The value of a hexadecimal digit.
pub open spec fn hex_value(c: char) -> Option<nat> {
    if '0' <= c && c <= '9' {
        Some((c as u32 - '0' as u32) as nat)
    } else if 'a' <= c && c <= 'f' {
        Some((c as u32 - 'a' as u32 + 10) as nat)
    } else if 'A' <= c && c <= 'F' {
        Some((c as u32 - 'A' as u32 + 10) as nat)
    } else {
        None
    }
}

/// Whether `s` starts with `\x` and two hexadecimal digits.
pub open spec fn starts_with_hex_escape(s: Seq<char>) -> bool {
    s.len() >= 4 && s[0] == '\\' && s[1] == 'x' && hex_value(s[2]) is Some && hex_value(s[3])
        is Some
}

/// Put `c` in front of a result.
pub open spec fn with_first(
    c: char,
    r: core::result::Result<Seq<char>, ErrorView>,
) -> core::result::Result<Seq<char>, ErrorView> {
    match r {
        Ok(t) => Ok(seq![c] + t),
        Err(e) => Err(e),
    }
}

/// What stands behind the escapes of `s`, the rest of `whole`; an error quotes `whole`.
pub open spec fn unescaped_rest(s: Seq<char>, whole: Seq<char>) -> core::result::Result<
    Seq<char>,
    ErrorView,
>
    decreases s.len(),
{
    if s.len() == 0 {
        Ok(Seq::empty())
    } else if s[0] != '\\' {
        with_first(s[0], unescaped_rest(s.skip(1), whole))
    } else if s.len() == 1 {
        Err(ErrorView::EscapeError("trailing backslash in: "@ + debug_text(whole)))
    } else if s[1] == '\\' {
        with_first('\\', unescaped_rest(s.skip(2), whole))
    } else if starts_with_hex_escape(s) {
        with_first(
            (hex_value(s[2])->0 * 16 + hex_value(s[3])->0) as char,
            unescaped_rest(s.skip(4), whole),
        )
    } else if s[1] == 'x' {
        let b = encode_utf8(s.skip(2));
        if b.len() < 2 {
            Err(ErrorView::EscapeError("incomplete \\x escape in: "@ + debug_text(whole)))
        } else {
            Err(
                ErrorView::EscapeError(
                    "invalid escape sequence \\x"@ + seq![b[0] as char, b[1] as char]
                        + ": not valid hex in: "@ + debug_text(whole),
                ),
            )
        }
    } else {
        Err(
            ErrorView::EscapeError(
                "unknown escape \\"@ + seq![encode_utf8(s.skip(1))[0] as char] + " in: "@
                    + debug_text(whole),
            ),
        )
    }
}

/// What a written key or value stands for, or why it is malformed.
pub open spec fn unescaped(s: Seq<char>) -> core::result::Result<Seq<char>, ErrorView> {
    unescaped_rest(s, s)
}

/// Escape a raw key or value for a record line.
pub fn escape(raw: &str) -> (r: String)
    ensures
        r@ == escaped(raw@),
{
    let v = chars_of(raw);
    let mut out = String::new();
    let mut i: usize = 0;
    assert(v@.skip(0) == v@);
    while i < v.len()
        invariant
            i <= v@.len(),
            v@ == raw@,
            escaped(v@) == out@ + escaped(v@.skip(i as int)),
        decreases v@.len() - i,
    {
        let ghost before = out@;
        let c = v[i];
        if c == '\t' {
            out.push_str("\\x09");
        } else if c == '\n' {
            out.push_str("\\x0A");
        } else if c == '\r' {
            out.push_str("\\x0D");
        } else if c == '=' {
            out.push_str("\\x3D");
        } else if c == '\\' {
            out.push_str("\\\\");
        } else {
            out.push(c);
        }
        assert(out@ == before + escaped_char(c));
        assert(v@.skip(i as int).skip(1) == v@.skip(i + 1));
        assert(escaped(v@) == before + (escaped_char(c) + escaped(v@.skip(i + 1))));
        i += 1;
    }
    assert(escaped(v@) == out@);
    out
}

pub(crate) fn hex_digit(c: char) -> (r: Option<u8>)
    ensures
        match r {
            Some(d) => hex_value(c) == Some(d as nat) && d < 16,
            None => hex_value(c) is None,
        },
{
    if '0' <= c && c <= '9' {
        Some((c as u32 - 48) as u8)
    } else if 'a' <= c && c <= 'f' {
        Some((c as u32 - 97 + 10) as u8)
    } else if 'A' <= c && c <= 'F' {
        Some((c as u32 - 65 + 10) as u8)
    } else {
        None
    }
}

/// A string of the one character whose code is `b`.
pub(crate) fn byte_char(b: u8) -> (s: String)
    ensures
        s@ == seq![b as char],
{
    let mut s = String::new();
    s.push(b as char);
    assert(s@ == seq![b as char]);
    s
}

/// Step over one character in a string and in its encoding.
pub(crate) proof fn lemma_step(v: Seq<char>, b: Seq<u8>, i: int, j: int)
    requires
        0 <= i < v.len(),
        0 <= j <= b.len(),
        b.skip(j) == encode_utf8(v.skip(i)),
    ensures
        j + width(v[i]) <= b.len(),
        b.skip((j + width(v[i])) as int) == encode_utf8(v.skip(i + 1)),
        (v[i] as u32) < 0x80 ==> width(v[i]) == 1,
{
    let s = v.skip(i);
    assert(s.drop_first() == v.skip(i + 1));
    assert(s[0] == v[i]);
    let e = encode_scalar(v[i] as u32);
    assert(b.skip(j) == e + encode_utf8(v.skip(i + 1)));
    assert(b.skip(j).len() == b.len() - j);
    let w = e.len() as int;
    assert(b.skip(j + w) == b.skip(j).skip(w));
    assert(b.skip(j).skip(w) == encode_utf8(v.skip(i + 1)));
}

/// Unescape a written key or value.
pub fn unescape(encoded: &str) -> (r: Result<String>)
    ensures
        outcome(r) == unescaped(encoded@),
{
    let v = chars_of(encoded);
    let b: &[u8] = encoded.as_bytes();
    let total: usize = b.len();
    let mut out = String::new();
    let mut i: usize = 0;
    let mut j: usize = 0;
    assert(v@.skip(0) == v@);
    assert(b@.skip(0) == b@);
    proof {
        match unescaped_rest(v@, v@) {
            Ok(t) => assert(Seq::<char>::empty() + t == t),
            Err(e) => {},
        }
    }
    while i < v.len()
        invariant
            i <= v@.len(),
            j <= b@.len() == total,
            v@ == encoded@,
            b@.skip(j as int) == encode_utf8(v@.skip(i as int)),
            unescaped(v@) == (match unescaped_rest(v@.skip(i as int), v@) {
                Ok(t) => Ok::<Seq<char>, ErrorView>(out@ + t),
                Err(e) => Err(e),
            }),
        decreases v@.len() - i,
    {
        let ghost s = v@.skip(i as int);
        let ghost before = out@;
        proof {
            lemma_step(v@, b@, i as int, j as int);
        }
        if v[i] != '\\' {
            out.push(v[i]);
            j += width_of(v[i]);
            i += 1;
            proof {
                assert(s.skip(1) == v@.skip(i as int));
                match unescaped_rest(s.skip(1), v@) {
                    Ok(t) => assert(before + (seq![s[0]] + t) == out@ + t),
                    Err(e) => {},
                }
            }
            continue;
        }
        if i + 1 >= v.len() {
            return Err(
                TsdbError::EscapeError(cat2("trailing backslash in: ", debug_of(encoded).as_str())),
            );
        }
        proof {
            lemma_step(v@, b@, i + 1, j + 1);
            assert(s.skip(1) == v@.skip(i + 1));
            assert(s.skip(2) == v@.skip(i + 2));
        }
        if v[i + 1] == '\\' {
            out.push('\\');
            i += 2;
            j += 2;
            proof {
                match unescaped_rest(s.skip(2), v@) {
                    Ok(t) => assert(before + (seq!['\\'] + t) == out@ + t),
                    Err(e) => {},
                }
            }
        } else if v[i + 1] == 'x' {
            if v.len() - i > 3 {
                if let (Some(hi), Some(lo)) = (hex_digit(v[i + 2]), hex_digit(v[i + 3])) {
                    proof {
                        lemma_step(v@, b@, i + 2, j + 2);
                        lemma_step(v@, b@, i + 3, j + 3);
                    }
                    let byte: u8 = hi * 16 + lo;
                    out.push(byte as char);
                    i += 4;
                    j += 4;
                    proof {
                        assert(s.skip(4) == v@.skip(i as int));
                        match unescaped_rest(s.skip(4), v@) {
                            Ok(t) => assert(before + (seq![byte as char] + t) == out@ + t),
                            Err(e) => {},
                        }
                    }
                    continue;
                }
            }
            if total - j <= 3 {
                assert(byte_len(s.skip(2)) == b@.len() - (j + 2));
                return Err(
                    TsdbError::EscapeError(
                        cat2("incomplete \\x escape in: ", debug_of(encoded).as_str()),
                    ),
                );
            }
            let mut pair = byte_char(b[j + 2]);
            pair.push(b[j + 3] as char);
            proof {
                let e = encode_utf8(s.skip(2));
                assert(e == b@.skip(j + 2));
                assert(pair@ == seq![e[0] as char, e[1] as char]);
            }
            return Err(
                TsdbError::EscapeError(
                    cat4(
                        "invalid escape sequence \\x",
                        pair.as_str(),
                        ": not valid hex in: ",
                        debug_of(encoded).as_str(),
                    ),
                ),
            );
        } else {
            assert(encode_utf8(s.skip(1)) == b@.skip(j + 1));
            return Err(
                TsdbError::EscapeError(
                    cat4(
                        "unknown escape \\",
                        byte_char(b[j + 1]).as_str(),
                        " in: ",
                        debug_of(encoded).as_str(),
                    ),
                ),
            );
        }
    }
    proof {
        assert(v@.skip(i as int) == Seq::<char>::empty());
        assert(out@ + Seq::<char>::empty() == out@);
    }
    Ok(out)
}

/// An array element with `"` and `\` escaped.
pub open spec fn quoted(s: Seq<char>) -> Seq<char>
    decreases s.len(),
{
    if s.len() == 0 {
        Seq::empty()
    } else if s[0] == '"' || s[0] == '\\' {
        seq!['\\', s[0]] + quoted(s.skip(1))
    } else {
        seq![s[0]] + quoted(s.skip(1))
    }
}

/// An array element between its quotes.
pub open spec fn array_element(s: Seq<char>) -> Seq<char> {
    seq!['"'] + quoted(s) + seq!['"']
}

/// The elements of an array, each between quotes.
pub open spec fn array_elements(v: Seq<Seq<char>>) -> Seq<Seq<char>> {
    Seq::new(v.len(), |i: int| array_element(v[i]))
}

/// The array form of a list of strings: `["a","b"]`.
pub open spec fn array_text(v: Seq<Seq<char>>) -> Seq<char> {
    seq!['['] + join(array_elements(v), seq![',']) + seq![']']
}

/// Whether a value has the outer form of an array.
pub open spec fn is_array(s: Seq<char>) -> bool {
    s.len() >= 2 && s[0] == '[' && s.last() == ']'
}

/// The array element that goes on at `s[i]`, after its opening quote: its text, and the position
/// after its closing quote.
pub open spec fn element_at(s: Seq<char>, i: int) -> core::result::Result<
    (Seq<char>, int),
    ErrorView,
>
    decreases s.len() - i,
{
    let end = s.len() - 1;
    if i >= end {
        Err(ErrorView::EscapeError("unterminated string element in: "@ + debug_text(s)))
    } else if s[i] == '"' {
        Ok((Seq::empty(), i + 1))
    } else if s[i] != '\\' {
        with_head(s[i], element_at(s, i + 1))
    } else if i + 1 >= end {
        Err(ErrorView::EscapeError("trailing backslash in array element: "@ + debug_text(s)))
    } else if s[i + 1] == '"' || s[i + 1] == '\\' {
        with_head(s[i + 1], element_at(s, i + 2))
    } else {
        Err(
            ErrorView::EscapeError(
                "invalid escape \\"@ + seq![encode_utf8(s.skip(i + 1))[0] as char]
                    + " in array element: "@ + debug_text(s),
            ),
        )
    }
}

/// Put `c` in front of an element.
pub open spec fn with_head(
    c: char,
    r: core::result::Result<(Seq<char>, int), ErrorView>,
) -> core::result::Result<(Seq<char>, int), ErrorView> {
    match r {
        Ok((t, j)) => Ok((seq![c] + t, j)),
        Err(e) => Err(e),
    }
}

pub proof fn lemma_element_advances(s: Seq<char>, i: int)
    ensures
        element_at(s, i) matches Ok(p) ==> i < p.1 < s.len(),
    decreases s.len() - i,
{
    if i < s.len() - 1 && s[i] != '"' {
        lemma_element_advances(s, i + 1);
        if i + 1 < s.len() - 1 {
            lemma_element_advances(s, i + 2);
        }
    }
}

/// The array elements from position `i` of `s` on.
pub open spec fn elements_at(s: Seq<char>, i: int) -> core::result::Result<
    Seq<Seq<char>>,
    ErrorView,
>
    decreases s.len() - i,
{
    let end = s.len() - 1;
    if i >= end || s[i] != '"' {
        Err(
            ErrorView::EscapeError(
                "expected '\"' at byte "@ + dec(byte_len(s.take(i))) + " in: "@ + debug_text(s),
            ),
        )
    } else {
        proof {
            lemma_element_advances(s, i + 1);
        }
        match element_at(s, i + 1) {
            Err(e) => Err(e),
            Ok((t, j)) => if j >= end {
                Ok(seq![t])
            } else if s[j] != ',' {
                Err(
                    ErrorView::EscapeError(
                        "expected ',' or ']' at byte "@ + dec(byte_len(s.take(j))) + " in: "@
                            + debug_text(s),
                    ),
                )
            } else {
                match elements_at(s, j + 1) {
                    Ok(rest) => Ok(seq![t] + rest),
                    Err(e) => Err(e),
                }
            },
        }
    }
}

/// The elements of a value in array form, or why it is malformed.
pub open spec fn array_of(s: Seq<char>) -> core::result::Result<Seq<Seq<char>>, ErrorView> {
    if !is_array(s) {
        Err(
            ErrorView::EscapeError(
                "not an array value (must start with '[' and end with ']'): "@ + debug_text(s),
            ),
        )
    } else if s.len() == 2 {
        Ok(Seq::empty())
    } else {
        elements_at(s, 1)
    }
}

/// A result that holds strings, with its parts taken by their views.
pub open spec fn strings_outcome(r: Result<Vec<String>>) -> core::result::Result<
    Seq<Seq<char>>,
    ErrorView,
> {
    match r {
        Ok(v) => Ok(views(v@)),
        Err(e) => Err(e@),
    }
}

/// Append an element with `"` and `\` escaped.
fn push_quoted(out: &mut String, s: &str)
    ensures
        final(out)@ == old(out)@ + quoted(s@),
{
    let v = chars_of(s);
    let mut i: usize = 0;
    assert(v@.skip(0) == v@);
    while i < v.len()
        invariant
            i <= v@.len(),
            v@ == s@,
            old(out)@ + quoted(s@) == out@ + quoted(v@.skip(i as int)),
        decreases v@.len() - i,
    {
        let ghost before = out@;
        let c = v[i];
        if c == '"' || c == '\\' {
            out.push('\\');
        }
        out.push(c);
        assert(v@.skip(i as int).skip(1) == v@.skip(i + 1));
        assert(out@ + quoted(v@.skip(i + 1)) == before + quoted(v@.skip(i as int)));
        i += 1;
    }
    assert(v@.skip(i as int) == Seq::<char>::empty());
    assert(out@ + quoted(v@.skip(i as int)) == out@);
}

/// Encode a list of strings as a value in array form.
pub fn encode_array(values: &[String]) -> (r: String)
    ensures
        r@ == array_text(views(values@)),
{
    let mut out = String::new();
    out.push('[');
    let ghost parts = array_elements(views(values@));
    let mut i: usize = 0;
    while i < values.len()
        invariant
            i <= values@.len(),
            parts == array_elements(views(values@)),
            out@ == seq!['['] + join(parts.take(i as int), seq![',']),
        decreases values@.len() - i,
    {
        let ghost before = join(parts.take(i as int), seq![',']);
        assert(parts.take(i + 1).drop_last() == parts.take(i as int));
        assert(parts.take(i + 1).last() == array_element(values@[i as int]@));
        if i > 0 {
            out.push(',');
        }
        out.push('"');
        push_quoted(&mut out, values[i].as_str());
        out.push('"');
        proof {
            let e = array_element(values@[i as int]@);
            if i > 0 {
                assert(out@ == seq!['['] + (before + seq![','] + e));
            } else {
                assert(before == Seq::<char>::empty());
                assert(parts.take(1)[0] == e);
                assert(out@ == seq!['['] + e);
            }
        }
        i += 1;
    }
    assert(parts.take(parts.len() as int) == parts);
    out.push(']');
    assert(out@ == array_text(views(values@)));
    out
}

/// Whether a value has the outer form of an array: starts with `[` and ends with `]`.
pub fn is_array_value(s: &str) -> (r: bool)
    ensures
        r == is_array(s@),
{
    let v = chars_of(s);
    let n: usize = v.len();
    n >= 2 && v[0] == '[' && v[n - 1] == ']'
}

/// The array element that goes on at character `from`, byte `at` of `s`, and the character
/// position after its closing quote.
fn decode_element(s: &str, v: &Vec<char>, from: usize, at: usize) -> (r: Result<(String, usize, usize)>)
    requires
        v@ == s@,
        v@.len() >= 1,
        from < v@.len(),
        at <= byte_len(s@),
        encode_utf8(s@).skip(at as int) == encode_utf8(s@.skip(from as int)),
    ensures
        match r {
            Ok(p) => element_at(s@, from as int) == Ok::<(Seq<char>, int), ErrorView>(
                (p.0@, p.1 as int),
            ) && p.2 <= byte_len(s@) && encode_utf8(s@).skip(p.2 as int) == encode_utf8(
                s@.skip(p.1 as int),
            ),
            Err(e) => element_at(s@, from as int) == Err::<(Seq<char>, int), ErrorView>(e@),
        },
{
    let b: &[u8] = s.as_bytes();
    let total: usize = b.len();
    let end: usize = v.len() - 1;
    let mut elem = String::new();
    let mut i: usize = from;
    let mut j: usize = at;
    proof {
        match element_at(s@, i as int) {
            Ok(p) => assert(Seq::<char>::empty() + p.0 == p.0),
            Err(e) => {},
        }
    }
    loop
        invariant
            i <= v@.len(),
            end == v@.len() - 1,
            j <= total,
            total == b@.len(),
            b@ == encode_utf8(s@),
            v@ == s@,
            b@.skip(j as int) == encode_utf8(s@.skip(i as int)),
            element_at(s@, from as int) == (match element_at(s@, i as int) {
                Ok(p) => Ok::<(Seq<char>, int), ErrorView>((elem@ + p.0, p.1)),
                Err(e) => Err(e),
            }),
        decreases v@.len() - i,
    {
        if i >= end {
            return Err(
                TsdbError::EscapeError(
                    cat2("unterminated string element in: ", debug_of(s).as_str()),
                ),
            );
        }
        let ghost before = elem@;
        proof {
            lemma_step(v@, b@, i as int, j as int);
        }
        if v[i] == '"' {
            assert(elem@ + Seq::<char>::empty() == elem@);
            return Ok((elem, i + 1, j + 1));
        }
        if v[i] != '\\' {
            elem.push(v[i]);
            j += width_of(v[i]);
            i += 1;
            proof {
                match element_at(s@, i as int) {
                    Ok(p) => assert(before + (seq![s@[i - 1]] + p.0) == elem@ + p.0),
                    Err(e) => {},
                }
            }
            continue;
        }
        if i + 1 >= end {
            return Err(
                TsdbError::EscapeError(
                    cat2("trailing backslash in array element: ", debug_of(s).as_str()),
                ),
            );
        }
        proof {
            lemma_step(v@, b@, i + 1, j + 1);
        }
        if v[i + 1] == '"' || v[i + 1] == '\\' {
            elem.push(v[i + 1]);
            i += 2;
            j += 2;
            proof {
                match element_at(s@, i as int) {
                    Ok(p) => assert(before + (seq![s@[i - 1]] + p.0) == elem@ + p.0),
                    Err(e) => {},
                }
            }
        } else {
            assert(encode_utf8(s@.skip(i + 1)) == b@.skip(j + 1));
            return Err(
                TsdbError::EscapeError(
                    cat4(
                        "invalid escape \\",
                        byte_char(b[j + 1]).as_str(),
                        " in array element: ",
                        debug_of(s).as_str(),
                    ),
                ),
            );
        }
    }
}

/// The byte position that belongs to a character position.
pub(crate) proof fn lemma_byte_position(s: Seq<char>, i: int, j: int)
    requires
        0 <= i <= s.len(),
        0 <= j <= byte_len(s),
        encode_utf8(s).skip(j) == encode_utf8(s.skip(i)),
    ensures
        j == byte_len(s.take(i)),
{
    lemma_encode_concat(s.take(i), s.skip(i));
    assert(s == s.take(i) + s.skip(i));
    assert(encode_utf8(s).skip(j).len() == byte_len(s) - j);
}

/// Decode a value in array form into its elements.
pub fn decode_array(encoded: &str) -> (r: Result<Vec<String>>)
    ensures
        strings_outcome(r) == array_of(encoded@),
{
    if !is_array_value(encoded) {
        return Err(
            TsdbError::EscapeError(
                cat2(
                    "not an array value (must start with '[' and end with ']'): ",
                    debug_of(encoded).as_str(),
                ),
            ),
        );
    }
    let v = chars_of(encoded);
    let total: usize = byte_len_of(encoded);
    let mut out: Vec<String> = Vec::new();
    if v.len() == 2 {
        assert(views(out@) == Seq::<Seq<char>>::empty());
        return Ok(out);
    }
    let end: usize = v.len() - 1;
    let mut i: usize = 1;
    let mut j: usize = 1;
    proof {
        assert(encoded@.skip(0) == encoded@);
        assert(encode_utf8(encoded@).skip(0) == encode_utf8(encoded@));
        lemma_step(encoded@, encode_utf8(encoded@), 0, 0);
        match elements_at(encoded@, 1) {
            Ok(p) => assert(views(out@) + p == p),
            Err(e) => {},
        }
    }
    loop
        invariant
            v@ == encoded@,
            v@.len() > 2,
            1 <= i <= v@.len(),
            end == v@.len() - 1,
            total == byte_len(encoded@),
            j <= total,
            encode_utf8(encoded@).skip(j as int) == encode_utf8(encoded@.skip(i as int)),
            is_array(encoded@),
            array_of(encoded@) == (match elements_at(encoded@, i as int) {
                Ok(p) => Ok::<Seq<Seq<char>>, ErrorView>(views(out@) + p),
                Err(e) => Err(e),
            }),
        decreases v@.len() - i,
    {
        if i >= end || v[i] != '"' {
            proof {
                lemma_byte_position(encoded@, i as int, j as int);
            }
            return Err(
                TsdbError::EscapeError(
                    cat4(
                        "expected '\"' at byte ",
                        dec_of(j as u64).as_str(),
                        " in: ",
                        debug_of(encoded).as_str(),
                    ),
                ),
            );
        }
        proof {
            lemma_step(encoded@, encode_utf8(encoded@), i as int, j as int);
            lemma_element_advances(encoded@, i + 1);
        }
        let (elem, next, at) = match decode_element(encoded, &v, i + 1, j + 1) {
            Ok(p) => p,
            Err(e) => {
                return Err(e);
            },
        };
        let ghost before = views(out@);
        let ghost t = elem@;
        out.push(elem);
        assert(views(out@) == before.push(t));
        if next >= end {
            assert(before + seq![t] == views(out@));
            return Ok(out);
        }
        if v[next] != ',' {
            proof {
                lemma_byte_position(encoded@, next as int, at as int);
            }
            return Err(
                TsdbError::EscapeError(
                    cat4(
                        "expected ',' or ']' at byte ",
                        dec_of(at as u64).as_str(),
                        " in: ",
                        debug_of(encoded).as_str(),
                    ),
                ),
            );
        }
        proof {
            lemma_step(encoded@, encode_utf8(encoded@), next as int, at as int);
            match elements_at(encoded@, next + 1) {
                Ok(p) => assert(before + (seq![t] + p) == views(out@) + p),
                Err(e) => {},
            }
        }
        i = next + 1;
        j = at + 1;
    }
}

/// Whether a character needs an escape other than `\\` for itself.
pub open spec fn is_delimiter(c: char) -> bool {
    c == '\t' || c == '\n' || c == '\r' || c == '='
}

/// Law: an escaped string holds no tab, line feed, carriage return or `=`.
pub proof fn law_escaped_has_no_delimiter(s: Seq<char>)
    ensures
        forall|i: int| 0 <= i < escaped(s).len() ==> !is_delimiter(#[trigger] escaped(s)[i]),
    decreases s.len(),
{
    reveal_strlit("\\x09");
    reveal_strlit("\\x0A");
    reveal_strlit("\\x0D");
    reveal_strlit("\\x3D");
    reveal_strlit("\\\\");
    if s.len() > 0 {
        law_escaped_has_no_delimiter(s.skip(1));
        let h = escaped_char(s[0]);
        let t = escaped(s.skip(1));
        assert forall|i: int| 0 <= i < escaped(s).len() implies !is_delimiter(
            #[trigger] escaped(s)[i],
        ) by {
            if i < h.len() {
                assert(escaped(s)[i] == h[i]);
            } else {
                assert(escaped(s)[i] == t[i - h.len()]);
            }
        }
    }
}

proof fn lemma_unescape_escape_rest(s: Seq<char>, whole: Seq<char>)
    ensures
        unescaped_rest(escaped(s), whole) == Ok::<Seq<char>, ErrorView>(s),
    decreases s.len(),
{
    reveal_strlit("\\x09");
    reveal_strlit("\\x0A");
    reveal_strlit("\\x0D");
    reveal_strlit("\\x3D");
    reveal_strlit("\\\\");
    if s.len() == 0 {
        assert(s == Seq::<char>::empty());
    } else {
        let t = escaped(s.skip(1));
        let e = escaped(s);
        lemma_unescape_escape_rest(s.skip(1), whole);
        assert(seq![s[0]] + s.skip(1) == s);
        let c = s[0];
        assert(e == escaped_char(c) + t);
        if c == '\\' {
            assert(e.skip(2) == t);
        } else if is_delimiter(c) {
            assert(e.skip(4) == t);
            assert(e[0] == '\\' && e[1] == 'x' && e[2] == escaped_char(c)[2] && e[3]
                == escaped_char(c)[3]);
        } else {
            assert(e.skip(1) == t);
        }
    }
}

/// Law: unescaping gives back what was escaped.
pub proof fn law_unescape_escape(s: Seq<char>)
    ensures
        unescaped(escaped(s)) == Ok::<Seq<char>, ErrorView>(s),
{
    lemma_unescape_escape_rest(s, escaped(s));
}

proof fn lemma_element_of_quoted(pre: Seq<char>, e: Seq<char>, rest: Seq<char>)
    requires
        rest.len() >= 1,
    ensures
        element_at(pre + quoted(e) + seq!['"'] + rest, pre.len() as int) == Ok::<
            (Seq<char>, int),
            ErrorView,
        >((e, (pre.len() + quoted(e).len() + 1) as int)),
    decreases e.len(),
{
    let s = pre + quoted(e) + seq!['"'] + rest;
    let i = pre.len() as int;
    if e.len() == 0 {
        assert(s[i] == '"');
        assert(e == Seq::<char>::empty());
    } else {
        let q = quoted(e.skip(1));
        assert(seq![e[0]] + e.skip(1) == e);
        if e[0] == '"' || e[0] == '\\' {
            let pre2 = pre + seq!['\\', e[0]];
            lemma_element_of_quoted(pre2, e.skip(1), rest);
            assert(pre2 + q + seq!['"'] + rest == s);
            assert(s[i] == '\\' && s[i + 1] == e[0]);
        } else {
            let pre2 = pre + seq![e[0]];
            lemma_element_of_quoted(pre2, e.skip(1), rest);
            assert(pre2 + q + seq!['"'] + rest == s);
            assert(s[i] == e[0]);
        }
    }
}

proof fn lemma_elements_of_array(pre: Seq<char>, v: Seq<Seq<char>>)
    requires
        v.len() >= 1,
    ensures
        elements_at(
            pre + join(array_elements(v), seq![',']) + seq![']'],
            pre.len() as int,
        ) == Ok::<Seq<Seq<char>>, ErrorView>(v),
    decreases v.len(),
{
    let parts = array_elements(v);
    let s = pre + join(parts, seq![',']) + seq![']'];
    let i = pre.len() as int;
    let q = quoted(v[0]);
    let pre1 = pre + seq!['"'];
    if v.len() == 1 {
        assert(join(parts, seq![',']) == array_element(v[0]));
        lemma_element_of_quoted(pre1, v[0], seq![']']);
        assert(pre1 + q + seq!['"'] + seq![']'] == s);
        assert(s[i] == '"');
        assert(seq![v[0]] == v);
    } else {
        let t = v.skip(1);
        lemma_join_first(parts, seq![',']);
        assert(parts.skip(1) == array_elements(t));
        let tail = join(array_elements(t), seq![',']);
        let rest = seq![','] + tail + seq![']'];
        lemma_element_of_quoted(pre1, v[0], rest);
        assert(pre1 + q + seq!['"'] + rest == s);
        assert(s[i] == '"');
        let j = i + 1 + q.len() + 1;
        assert(s[j] == ',');
        let pre2 = pre + array_element(v[0]) + seq![','];
        lemma_elements_of_array(pre2, t);
        assert(pre2 + tail + seq![']'] == s);
        assert(pre2.len() == j + 1);
        assert(seq![v[0]] + t == v);
    }
}

/// Law: decoding an array value gives back the elements that were encoded.
pub proof fn law_decode_encode_array(v: Seq<Seq<char>>)
    ensures
        array_of(array_text(v)) == Ok::<Seq<Seq<char>>, ErrorView>(v),
{
    let s = array_text(v);
    if v.len() == 0 {
        assert(join(array_elements(v), seq![',']) == Seq::<char>::empty());
        assert(s.len() == 2 && s[0] == '[' && s.last() == ']');
        assert(v == Seq::<Seq<char>>::empty());
    } else {
        lemma_elements_of_array(seq!['['], v);
        let parts = array_elements(v);
        if v.len() >= 2 {
            lemma_join_first(parts, seq![',']);
        }
        assert(join(parts, seq![',']).len() >= array_element(v[0]).len());
        assert(s[0] == '[' && s.last() == ']');
    }
}

/// The text that a decoded element was read from.
proof fn lemma_element_text(s: Seq<char>, i: int)
    requires
        0 <= i,
    ensures
        element_at(s, i) matches Ok(p) ==> i < p.1 < s.len() && s.subrange(i, p.1) == quoted(p.0)
            + seq!['"'],
    decreases s.len() - i,
{
    lemma_element_advances(s, i);
    if i < s.len() - 1 && s[i] != '"' {
        let n = if s[i] == '\\' {
            i + 2
        } else {
            i + 1
        };
        if n <= s.len() {
            lemma_element_text(s, n);
        }
        if let Ok(p) = element_at(s, i) {
            let q = element_at(s, n)->Ok_0;
            assert(p.0.skip(1) == q.0);
            assert(p.1 == q.1);
            lemma_element_advances(s, n);
            assert(s.subrange(i, p.1) == s.subrange(i, n) + s.subrange(n, p.1));
            if s[i] == '\\' {
                assert(s.subrange(i, n) == seq!['\\', s[i + 1]]);
            } else {
                assert(s.subrange(i, n) == seq![s[i]]);
            }
            assert(quoted(p.0) == s.subrange(i, n) + quoted(q.0));
        }
    } else if i < s.len() - 1 {
        assert(s.subrange(i, i + 1) == seq!['"']);
        assert(quoted(Seq::<char>::empty()) + seq!['"'] == seq!['"']);
    }
}

/// The text that decoded elements were read from.
proof fn lemma_elements_text(s: Seq<char>, i: int)
    requires
        0 <= i,
    ensures
        elements_at(s, i) matches Ok(v) ==> v.len() >= 1 && i < s.len() && s.subrange(i, s.len() - 1)
            == join(array_elements(v), seq![',']),
    decreases s.len() - i,
{
    let end = s.len() - 1;
    if let Ok(v) = elements_at(s, i) {
        lemma_element_text(s, i + 1);
        let (t, j) = element_at(s, i + 1)->Ok_0;
        assert(s.subrange(i, j) == array_element(t)) by {
            assert(s.subrange(i, j) == seq![s[i]] + s.subrange(i + 1, j));
            assert(seq!['"'] + (quoted(t) + seq!['"']) == array_element(t));
        }
        let parts = array_elements(v);
        if j >= end {
            assert(v == seq![t]);
            assert(parts[0] == array_element(t));
        } else {
            lemma_elements_text(s, j + 1);
            let rest = elements_at(s, j + 1)->Ok_0;
            assert(v == seq![t] + rest);
            assert(parts.skip(1) == array_elements(rest));
            lemma_join_first(parts, seq![',']);
            assert(parts[0] == array_element(t));
            assert(s.subrange(i, end) == s.subrange(i, j) + seq![s[j]] + s.subrange(j + 1, end));
        }
    }
}

/// Law: decoding accepts only the texts that encoding gives, so that encoding what was decoded gives
/// the text back.
pub proof fn law_encode_decode_array(s: Seq<char>)
    ensures
        array_of(s) matches Ok(v) ==> array_text(v) == s,
        array_of(s) is Ok <==> exists|v: Seq<Seq<char>>| #[trigger] array_text(v) == s,
{
    if let Ok(v) = array_of(s) {
        let end = s.len() - 1;
        assert(array_text(v) == s) by {
            if s.len() == 2 {
                assert(join(array_elements(v), seq![',']) == Seq::<char>::empty());
            } else {
                lemma_elements_text(s, 1);
            }
            assert(s == seq![s[0]] + s.subrange(1, end) + seq![s[end]]);
        }
    }
    if exists|v: Seq<Seq<char>>| #[trigger] array_text(v) == s {
        let v = choose|v: Seq<Seq<char>>| #[trigger] array_text(v) == s;
        law_decode_encode_array(v);
    }
}

} // verus!
