//! Action files: one operation per line.
//!
//! `+uuid⇥k=v…` inserts a record, `-uuid` deletes one, `~uuid⇥k=v…` changes some of its fields and
//! `!uuid⇥k=v…` inserts or replaces it. Blank lines and lines that start with `#` are skipped. A
//! key given more than once on a line has the list of its values, in array form.
use crate::base62::{is_uuid, uuid_check, validate_uuid};
use crate::error::{debug_of, debug_text, outcome, parse_error, ErrorView, Result};
use crate::escape::{
    array_of, array_text, byte_char, encode_array, hex_digit, hex_value, law_decode_encode_array,
    lemma_byte_position, lemma_step,
    unescape, unescaped,
};
use crate::fields::Fields;
use crate::text::{
    blank, byte_len, byte_len_of, byte_prefix, byte_suffix, cat2, cat4, cat5, chars_of, copy_of,
    dec, dec_of, is_blank, lines, lines_of, split, split_bytes, split_on, splits_at, str_eq,
    string_of, views, width_of,
};
use vstd::prelude::*;
use vstd::utf8::*;

verus! {

#[derive(Debug, Clone, Copy, PartialEq, Eq, Structural)]
pub enum Opcode {
    Append,
    Delete,
    Patch,
    Upsert,
}

/// One operation of an action file.
#[derive(Debug)]
pub struct Action {
    pub opcode: Opcode,
    pub uuid: String,
    /// The given fields; none for a delete. In a patch the value `\0` removes its key.
    pub fields: Fields,
    /// The line of the action file, counted from one.
    pub line_no: usize,
}

/// What an action says.
#[verifier::ext_equal]
pub struct ActionView {
    pub opcode: Opcode,
    pub uuid: Seq<char>,
    pub fields: Map<Seq<char>, Seq<char>>,
    pub line_no: usize,
}

impl View for Action {
    type V = ActionView;

    open spec fn view(&self) -> ActionView {
        ActionView {
            opcode: self.opcode,
            uuid: self.uuid@,
            fields: self.fields@,
            line_no: self.line_no,
        }
    }
}

impl Clone for Action {
    fn clone(&self) -> (r: Self)
        ensures
            r@ == self@,
    {
        Action {
            opcode: self.opcode,
            uuid: copy_of(self.uuid.as_str()),
            fields: self.fields.clone(),
            line_no: self.line_no,
        }
    }
}

/// The contents of a sequence of actions.
pub open spec fn action_views(v: Seq<Action>) -> Seq<ActionView> {
    Seq::new(v.len(), |i: int| v[i]@)
}

/// A parse error at a line.
pub open spec fn parse_err<T>(line: usize, message: Seq<char>) -> core::result::Result<
    T,
    ErrorView,
> {
    Err(ErrorView::ParseError { line, message })
}

/// The position of the first `=` of `s` from `i` on that is no part of an escape.
pub open spec fn equals_from(s: Seq<char>, i: int, line: usize) -> core::result::Result<
    Option<int>,
    ErrorView,
>
    decreases s.len() - i,
{
    if i >= s.len() {
        Ok(None)
    } else if s[i] == '=' {
        Ok(Some(i))
    } else if s[i] != '\\' || i + 1 >= s.len() {
        equals_from(s, i + 1, line)
    } else if s[i + 1] != 'x' {
        equals_from(s, i + 2, line)
    } else if i + 3 < s.len() && hex_value(s[i + 2]) is Some && hex_value(s[i + 3]) is Some {
        equals_from(s, i + 4, line)
    } else {
        let b = encode_utf8(s.skip(i + 2));
        let at = dec(byte_len(s.take(i)));
        if b.len() < 2 {
            parse_err(
                line,
                "incomplete \\x escape sequence at position "@ + at + " in: "@ + debug_text(s),
            )
        } else {
            parse_err(
                line,
                "invalid escape sequence \\x"@ + seq![b[0] as char, b[1] as char] + (
                " at position "@ + at) + " in: "@ + debug_text(s),
            )
        }
    }
}

/// Whether a value is written like an array or an object.
pub open spec fn looks_like_literal(s: Seq<char>) -> bool {
    s.len() > 0 && (s[0] == '[' && s.last() == ']' || s[0] == '{' && s.last() == '}')
}

/// The key and value of one `key=value` part. The key must not be empty. With `scalar`, a value written like an array or
/// an object is refused.
pub open spec fn pair_of(s: Seq<char>, line: usize, scalar: bool) -> core::result::Result<
    (Seq<char>, Seq<char>),
    ErrorView,
> {
    match equals_from(s, 0, line) {
        Err(e) => Err(e),
        Ok(None) => parse_err(line, "field missing '=': "@ + debug_text(s)),
        Ok(Some(k)) => match unescaped(s.take(k)) {
            Err(e) => parse_err(line, "key unescape error: "@ + e.text()),
            Ok(key) => if key.len() == 0 {
                parse_err(line, "field has an empty key: "@ + debug_text(s))
            } else {
                match unescaped(s.skip(k + 1)) {
                    Err(e) => parse_err(line, "value unescape error: "@ + e.text()),
                    Ok(value) => if scalar && looks_like_literal(value) {
                        parse_err(
                            line,
                            "value must not look like an array or object literal: "@ + debug_text(s),
                        )
                    } else {
                        Ok((key, value))
                    },
                }
            },
        },
    }
}

/// The pairs of the parts from `i` on; empty parts are skipped.
pub open spec fn pairs_from(
    parts: Seq<Seq<char>>,
    i: int,
    line: usize,
    scalar: bool,
) -> core::result::Result<Seq<(Seq<char>, Seq<char>)>, ErrorView>
    decreases parts.len() - i,
{
    if i >= parts.len() {
        Ok(Seq::empty())
    } else if parts[i].len() == 0 {
        pairs_from(parts, i + 1, line, scalar)
    } else {
        match pair_of(parts[i], line, scalar) {
            Err(e) => Err(e),
            Ok(p) => match pairs_from(parts, i + 1, line, scalar) {
                Err(e) => Err(e),
                Ok(rest) => Ok(seq![p] + rest),
            },
        }
    }
}

/// The map in which the last pair of each key counts.
pub open spec fn last_values(p: Seq<(Seq<char>, Seq<char>)>) -> Map<Seq<char>, Seq<char>>
    decreases p.len(),
{
    if p.len() == 0 {
        Map::empty()
    } else {
        last_values(p.drop_last()).insert(p.last().0, p.last().1)
    }
}

/// Whether fields are finitely many and none of them has an empty key.
pub open spec fn proper(m: Map<Seq<char>, Seq<char>>) -> bool {
    m.dom().finite() && !m.contains_key(Seq::<char>::empty())
}

/// The fields that the parts of a stored line hold.
pub open spec fn stored_parts(parts: Seq<Seq<char>>, line: usize) -> core::result::Result<
    Map<Seq<char>, Seq<char>>,
    ErrorView,
> {
    match pairs_from(parts, 0, line, false) {
        Err(e) => Err(e),
        Ok(p) => Ok(last_values(p)),
    }
}

/// The fields of a stored line.
pub open spec fn stored_fields(s: Seq<char>, line: usize) -> core::result::Result<
    Map<Seq<char>, Seq<char>>,
    ErrorView,
> {
    stored_parts(split(s, '\t'), line)
}

/// All values that the pairs give to `k`, in order.
pub open spec fn values_of(p: Seq<(Seq<char>, Seq<char>)>, k: Seq<char>) -> Seq<Seq<char>>
    decreases p.len(),
{
    if p.len() == 0 {
        Seq::empty()
    } else if p.last().0 == k {
        values_of(p.drop_last(), k).push(p.last().1)
    } else {
        values_of(p.drop_last(), k)
    }
}

/// The map in which a key has its one value, or the array of its values.
pub open spec fn gathered(p: Seq<(Seq<char>, Seq<char>)>) -> Map<Seq<char>, Seq<char>> {
    Map::new(
        |k: Seq<char>| values_of(p, k).len() > 0,
        |k: Seq<char>|
            if values_of(p, k).len() == 1 {
                values_of(p, k)[0]
            } else {
                array_text(values_of(p, k))
            },
    )
}

/// The fields of an action line.
pub open spec fn action_fields(s: Seq<char>, line: usize) -> core::result::Result<
    Map<Seq<char>, Seq<char>>,
    ErrorView,
> {
    match pairs_from(split(s, '\t'), 0, line, true) {
        Err(e) => Err(e),
        Ok(p) => Ok(gathered(p)),
    }
}

/// The opcode that a character stands for.
pub open spec fn opcode_of(c: char) -> Option<Opcode> {
    if c == '+' {
        Some(Opcode::Append)
    } else if c == '-' {
        Some(Opcode::Delete)
    } else if c == '~' {
        Some(Opcode::Patch)
    } else if c == '!' {
        Some(Opcode::Upsert)
    } else {
        None
    }
}

/// An uppercase hexadecimal digit.
pub open spec fn upper_hex(d: int) -> char {
    if d < 10 {
        (48 + d) as char
    } else {
        (55 + d) as char
    }
}

/// A byte as two uppercase hexadecimal digits.
pub open spec fn hex_byte(b: u8) -> Seq<char> {
    seq![upper_hex(b as int / 16), upper_hex(b as int % 16)]
}

/// The action that a line says, or why it is malformed.
#[verifier::opaque]
pub open spec fn action_of(s: Seq<char>, line: usize) -> core::result::Result<
    ActionView,
    ErrorView,
> {
    if s.len() == 0 {
        parse_err(line, "empty line"@)
    } else if opcode_of(s[0]) is None {
        let b = encode_utf8(s)[0];
        parse_err(
            line,
            "unknown opcode byte '"@ + seq![b as char] + "' (0x"@ + hex_byte(b) + ")"@,
        )
    } else {
        let rest = s.skip(1);
        if byte_len(rest) < 12 {
            parse_err(line, "line too short to contain UUID: "@ + debug_text(s))
        } else if !splits_at(rest, 12) {
            parse_err(line, "UUID ends inside a character: "@ + debug_text(s))
        } else {
            let uuid = byte_prefix(rest, 12);
            match uuid_check(uuid) {
                Err(e) => parse_err(line, "invalid UUID: "@ + e.text()),
                Ok(_) => action_tail(s, opcode_of(s[0])->0, uuid, byte_suffix(rest, 12), line),
            }
        }
    }
}

/// The action of line `s` whose opcode and identifier are read and whose rest is `after`.
pub open spec fn action_tail(
    s: Seq<char>,
    opcode: Opcode,
    uuid: Seq<char>,
    after: Seq<char>,
    line: usize,
) -> core::result::Result<ActionView, ErrorView> {
    if opcode == Opcode::Delete {
        if !is_blank(after) {
            parse_err(
                line,
                "delete line has unexpected content after UUID: "@ + debug_text(s),
            )
        } else {
            Ok(ActionView { opcode, uuid, fields: Map::empty(), line_no: line })
        }
    } else if after.len() == 0 || after[0] != '\t' {
        parse_err(line, "expected tab after UUID in: "@ + debug_text(s))
    } else {
        match action_fields(after.skip(1), line) {
            Err(e) => Err(e),
            Ok(fields) => if opcode == Opcode::Append && fields == Map::<
                Seq<char>,
                Seq<char>,
            >::empty() {
                parse_err(
                    line,
                    "Append (+) line has no key-value fields: "@ + debug_text(s),
                )
            } else {
                Ok(ActionView { opcode, uuid, fields, line_no: line })
            },
        }
    }
}

/// The actions of the lines from `i` on.
pub open spec fn actions_from(ls: Seq<Seq<char>>, i: int) -> core::result::Result<
    Seq<ActionView>,
    ErrorView,
>
    decreases ls.len() - i,
{
    if i >= ls.len() {
        Ok(Seq::empty())
    } else if ls[i].len() == 0 || ls[i][0] == '#' {
        actions_from(ls, i + 1)
    } else {
        match action_of(ls[i], (i + 1) as usize) {
            Err(e) => Err(e),
            Ok(a) => match actions_from(ls, i + 1) {
                Err(e) => Err(e),
                Ok(rest) => Ok(seq![a] + rest),
            },
        }
    }
}

/// Character and byte position of the first `=` that is no part of an escape.
fn equals_position(s: &str, v: &Vec<char>, line_no: usize) -> (r: Result<Option<(usize, usize)>>)
    requires
        v@ == s@,
    ensures
        match r {
            Err(e) => equals_from(s@, 0, line_no) == Err::<Option<int>, ErrorView>(e@),
            Ok(None) => equals_from(s@, 0, line_no) == Ok::<Option<int>, ErrorView>(None),
            Ok(Some(p)) => equals_from(s@, 0, line_no) == Ok::<Option<int>, ErrorView>(
                Some(p.0 as int),
            ) && p.0 < s@.len() && s@[p.0 as int] == '=' && p.1 == byte_len(s@.take(p.0 as int)),
        },
{
    let b: &[u8] = s.as_bytes();
    let total: usize = b.len();
    let mut i: usize = 0;
    let mut j: usize = 0;
    assert(v@.skip(0) == v@);
    assert(b@.skip(0) == b@);
    while i < v.len()
        invariant
            i <= v@.len(),
            j <= b@.len() == total,
            v@ == s@,
            b@ == encode_utf8(s@),
            b@.skip(j as int) == encode_utf8(v@.skip(i as int)),
            equals_from(s@, 0, line_no) == equals_from(s@, i as int, line_no),
        decreases v@.len() - i,
    {
        proof {
            lemma_step(v@, b@, i as int, j as int);
        }
        if v[i] == '=' {
            proof {
                lemma_byte_position(s@, i as int, j as int);
            }
            return Ok(Some((i, j)));
        }
        if v[i] != '\\' || v.len() - i == 1 {
            j += width_of(v[i]);
            i += 1;
            continue;
        }
        proof {
            lemma_step(v@, b@, i + 1, j + 1);
        }
        if v[i + 1] != 'x' {
            j += 1;
            j += width_of(v[i + 1]);
            i += 2;
            continue;
        }
        if v.len() - i > 3 && hex_digit(v[i + 2]).is_some() && hex_digit(v[i + 3]).is_some() {
            proof {
                lemma_step(v@, b@, i + 2, j + 2);
                lemma_step(v@, b@, i + 3, j + 3);
            }
            i += 4;
            j += 4;
            continue;
        }
        assert(encode_utf8(s@.skip(i + 2)) == b@.skip(j + 2));
        proof {
            lemma_byte_position(s@, i as int, j as int);
        }
        let at = dec_of(j as u64);
        if total - j <= 3 {
            return Err(
                parse_error(
                    line_no,
                    cat4(
                        "incomplete \\x escape sequence at position ",
                        at.as_str(),
                        " in: ",
                        debug_of(s).as_str(),
                    ),
                ),
            );
        }
        let mut found = byte_char(b[j + 2]);
        found.push(b[j + 3] as char);
        assert(found@ == seq![b@[j + 2] as char, b@[j + 3] as char]);
        let place = cat2(" at position ", at.as_str());
        return Err(
            parse_error(
                line_no,
                cat5(
                    "invalid escape sequence \\x",
                    found.as_str(),
                    place.as_str(),
                    " in: ",
                    debug_of(s).as_str(),
                ),
            ),
        );
    }
    Ok(None)
}

/// The byte position of the first `=` that is no part of an escape.
pub fn find_unescaped_equals(s: &str, line_no: usize) -> (r: Result<Option<usize>>)
    ensures
        match r {
            Err(e) => equals_from(s@, 0, line_no) == Err::<Option<int>, ErrorView>(e@),
            Ok(None) => equals_from(s@, 0, line_no) == Ok::<Option<int>, ErrorView>(None),
            Ok(Some(j)) => equals_from(s@, 0, line_no) matches Ok(Some(i)) && j == byte_len(
                s@.take(i),
            ),
        },
{
    let v = chars_of(s);
    match equals_position(s, &v, line_no) {
        Err(e) => Err(e),
        Ok(None) => Ok(None),
        Ok(Some((i, j))) => Ok(Some(j)),
    }
}

pub(crate) fn looks_literal(s: &str) -> (r: bool)
    ensures
        r == looks_like_literal(s@),
{
    let v = chars_of(s);
    let n: usize = v.len();
    n > 0 && ((v[0] == '[' && v[n - 1] == ']') || (v[0] == '{' && v[n - 1] == '}'))
}

/// Parse one `key=value` part.
fn parse_pair(s: &str, line_no: usize, scalar: bool) -> (r: Result<(String, String)>)
    ensures
        match r {
            Ok(p) => pair_of(s@, line_no, scalar) == Ok::<(Seq<char>, Seq<char>), ErrorView>(
                (p.0@, p.1@),
            ),
            Err(e) => pair_of(s@, line_no, scalar) == Err::<(Seq<char>, Seq<char>), ErrorView>(e@),
        },
{
    let v = chars_of(s);
    let at: usize = match equals_position(s, &v, line_no) {
        Err(e) => {
            return Err(e);
        },
        Ok(None) => {
            return Err(parse_error(line_no, cat2("field missing '=': ", debug_of(s).as_str())));
        },
        Ok(Some((i, j))) => i,
    };
    let raw_key = string_of(&v, 0, at);
    let raw_val = string_of(&v, at + 1, v.len());
    assert(raw_key@ == s@.take(at as int));
    assert(raw_val@ == s@.skip(at + 1));
    let key = match unescape(raw_key.as_str()) {
        Ok(k) => k,
        Err(e) => {
            return Err(parse_error(line_no, cat2("key unescape error: ", e.message().as_str())));
        },
    };
    if key.as_str().is_empty() {
        return Err(parse_error(line_no, cat2("field has an empty key: ", debug_of(s).as_str())));
    }
    let value = match unescape(raw_val.as_str()) {
        Ok(k) => k,
        Err(e) => {
            return Err(parse_error(line_no, cat2("value unescape error: ", e.message().as_str())));
        },
    };
    if scalar && looks_literal(value.as_str()) {
        return Err(
            parse_error(
                line_no,
                cat2(
                    "value must not look like an array or object literal: ",
                    debug_of(s).as_str(),
                ),
            ),
        );
    }
    Ok((key, value))
}

/// The pairs that two vectors of the same length make.
pub open spec fn zipped(ks: Seq<String>, vs: Seq<String>) -> Seq<(Seq<char>, Seq<char>)> {
    Seq::new(ks.len(), |i: int| (ks[i]@, vs[i]@))
}

/// Parse parts into their keys and their values.
fn parse_pairs(parts: &Vec<String>, line_no: usize, scalar: bool) -> (r: Result<
    (Vec<String>, Vec<String>),
>)
    ensures
        match r {
            Ok(p) => p.0@.len() == p.1@.len() && pairs_from(views(parts@), 0, line_no, scalar)
                == Ok::<Seq<(Seq<char>, Seq<char>)>, ErrorView>(zipped(p.0@, p.1@)),
            Err(e) => pairs_from(views(parts@), 0, line_no, scalar) == Err::<
                Seq<(Seq<char>, Seq<char>)>,
                ErrorView,
            >(e@),
        },
{
    let mut ks: Vec<String> = Vec::new();
    let mut vs: Vec<String> = Vec::new();
    let ghost ps = views(parts@);
    let mut i: usize = 0;
    proof {
        match pairs_from(ps, 0, line_no, scalar) {
            Ok(rest) => assert(zipped(ks@, vs@) + rest == rest),
            Err(e) => {},
        }
    }
    while i < parts.len()
        invariant
            i <= parts@.len(),
            ps == views(parts@),
            ks@.len() == vs@.len(),
            pairs_from(ps, 0, line_no, scalar) == (match pairs_from(ps, i as int, line_no, scalar) {
                Ok(rest) => Ok::<Seq<(Seq<char>, Seq<char>)>, ErrorView>(zipped(ks@, vs@) + rest),
                Err(e) => Err(e),
            }),
        decreases parts@.len() - i,
    {
        assert(ps[i as int] == parts@[i as int]@);
        if !parts[i].as_str().is_empty() {
            match parse_pair(parts[i].as_str(), line_no, scalar) {
                Err(e) => {
                    return Err(e);
                },
                Ok((k, v)) => {
                    let ghost before = zipped(ks@, vs@);
                    let ghost p = (k@, v@);
                    ks.push(k);
                    vs.push(v);
                    proof {
                        assert(zipped(ks@, vs@) == before.push(p));
                        match pairs_from(ps, i + 1, line_no, scalar) {
                            Ok(rest) => assert(before + (seq![p] + rest) == zipped(ks@, vs@)
                                + rest),
                            Err(e) => {},
                        }
                    }
                },
            }
        }
        i += 1;
    }
    proof {
        assert(zipped(ks@, vs@) + Seq::<(Seq<char>, Seq<char>)>::empty() == zipped(ks@, vs@));
    }
    Ok((ks, vs))
}

/// Parse the tab-separated `key=value` pairs of a stored line; of a repeated key the last value
/// counts.
pub fn parse_kv_fields(s: &str, line_no: usize) -> (r: Result<Fields>)
    ensures
        outcome(r) == stored_fields(s@, line_no),
{
    parse_parts(&split_on(s, '\t'), line_no)
}

/// Parse the `key=value` parts of a stored line.
pub(crate) fn parse_parts(parts: &Vec<String>, line_no: usize) -> (r: Result<Fields>)
    ensures
        outcome(r) == stored_parts(views(parts@), line_no),
{
    let (ks, vs) = match parse_pairs(parts, line_no, false) {
        Ok(p) => p,
        Err(e) => {
            return Err(e);
        },
    };
    let ghost p = zipped(ks@, vs@);
    let mut fields = Fields::new();
    let mut i: usize = 0;
    while i < ks.len()
        invariant
            i <= ks@.len() == vs@.len(),
            p == zipped(ks@, vs@),
            fields@ == last_values(p.take(i as int)),
        decreases ks@.len() - i,
    {
        assert(p.take(i + 1).drop_last() == p.take(i as int));
        assert(p.take(i + 1).last() == p[i as int]);
        fields.insert(copy_of(ks[i].as_str()), copy_of(vs[i].as_str()));
        i += 1;
    }
    assert(p.take(p.len() as int) == p);
    Ok(fields)
}

/// All values that the pairs give to `k`.
fn collect_values(ks: &Vec<String>, vs: &Vec<String>, k: &str) -> (r: Vec<String>)
    requires
        ks@.len() == vs@.len(),
    ensures
        views(r@) == values_of(zipped(ks@, vs@), k@),
{
    let ghost p = zipped(ks@, vs@);
    let mut r: Vec<String> = Vec::new();
    let mut i: usize = 0;
    assert(views(r@) == Seq::<Seq<char>>::empty());
    while i < ks.len()
        invariant
            i <= ks@.len() == vs@.len(),
            p == zipped(ks@, vs@),
            views(r@) == values_of(p.take(i as int), k@),
        decreases ks@.len() - i,
    {
        assert(p.take(i + 1).drop_last() == p.take(i as int));
        assert(p.take(i + 1).last() == p[i as int]);
        if str_eq(ks[i].as_str(), k) {
            let ghost before = views(r@);
            r.push(copy_of(vs[i].as_str()));
            assert(views(r@) == before.push(vs@[i as int]@));
        }
        i += 1;
    }
    assert(p.take(p.len() as int) == p);
    r
}

proof fn lemma_values_of_contains(p: Seq<(Seq<char>, Seq<char>)>, k: Seq<char>)
    ensures
        values_of(p, k).len() > 0 <==> exists|i: int| 0 <= i < p.len() && (#[trigger] p[i]).0 == k,
    decreases p.len(),
{
    if p.len() > 0 {
        let d = p.drop_last();
        lemma_values_of_contains(d, k);
        if p.last().0 == k {
            assert(p[p.len() - 1].0 == k);
        } else {
            if exists|i: int| 0 <= i < p.len() && (#[trigger] p[i]).0 == k {
                let i = choose|i: int| 0 <= i < p.len() && (#[trigger] p[i]).0 == k;
                assert(d[i].0 == k);
            }
            if exists|i: int| 0 <= i < d.len() && (#[trigger] d[i]).0 == k {
                let i = choose|i: int| 0 <= i < d.len() && (#[trigger] d[i]).0 == k;
                assert(p[i].0 == k);
            }
        }
    }
}

/// Parse the tab-separated `key=value` pairs of an action line; a repeated key gets the array of
/// its values.
fn parse_action_fields(s: &str, line_no: usize) -> (r: Result<Fields>)
    ensures
        outcome(r) == action_fields(s@, line_no),
{
    let (ks, vs) = match parse_pairs(&split_on(s, '\t'), line_no, true) {
        Ok(p) => p,
        Err(e) => {
            return Err(e);
        },
    };
    let ghost p = zipped(ks@, vs@);
    let mut fields = Fields::new();
    let mut i: usize = 0;
    while i < ks.len()
        invariant
            i <= ks@.len() == vs@.len(),
            p == zipped(ks@, vs@),
            forall|k: Seq<char>| #[trigger]
                fields@.contains_key(k) <==> exists|j: int| 0 <= j < i && (#[trigger] p[j]).0 == k,
            forall|k: Seq<char>| #[trigger]
                fields@.contains_key(k) ==> fields@[k] == gathered(p)[k],
        decreases ks@.len() - i,
    {
        let key: &String = &ks[i];
        assert(p[i as int].0 == key@);
        proof {
            lemma_values_of_contains(p, key@);
        }
        if !fields.contains_key(key.as_str()) {
            let values = collect_values(&ks, &vs, key.as_str());
            assert(views(values@).len() == values@.len());
            let value = if values.len() == 1 {
                assert(views(values@)[0] == values@[0]@);
                copy_of(values[0].as_str())
            } else {
                encode_array(values.as_slice())
            };
            fields.insert(copy_of(key.as_str()), value);
        }
        i += 1;
    }
    proof {
        assert forall|k: Seq<char>| #[trigger]
            fields@.contains_key(k) <==> gathered(p).contains_key(k) by {
            lemma_values_of_contains(p, k);
        }
        assert(fields@ =~= gathered(p));
    }
    Ok(fields)
}

fn upper_hex_char(d: u8) -> (c: char)
    requires
        d < 16,
    ensures
        c == upper_hex(d as int),
{
    if d < 10 {
        (48 + d) as char
    } else {
        (55 + d) as char
    }
}

fn hex_byte_of(b: u8) -> (s: String)
    ensures
        s@ == hex_byte(b),
{
    let mut s = String::new();
    s.push(upper_hex_char(b / 16));
    s.push(upper_hex_char(b % 16));
    assert(s@ == hex_byte(b));
    s
}

fn opcode_char(c: char) -> (r: Option<Opcode>)
    ensures
        r == opcode_of(c),
{
    match c {
        '+' => Some(Opcode::Append),
        '-' => Some(Opcode::Delete),
        '~' => Some(Opcode::Patch),
        '!' => Some(Opcode::Upsert),
        _ => None,
    }
}

/// Parse one action line.
pub fn parse_action_line(line: &str, line_no: usize) -> (r: Result<Action>)
    ensures
        outcome(r) == action_of(line@, line_no),
{
    reveal(action_of);
    let v = chars_of(line);
    if v.len() == 0 {
        return Err(parse_error(line_no, copy_of("empty line")));
    }
    let opcode = match opcode_char(v[0]) {
        Some(op) => op,
        None => {
            let b: &[u8] = line.as_bytes();
            proof {
                assert(v@.skip(0) == v@ && b@.skip(0) == b@);
                lemma_step(v@, b@, 0, 0);
            }
            return Err(
                parse_error(
                    line_no,
                    cat5(
                        "unknown opcode byte '",
                        byte_char(b[0]).as_str(),
                        "' (0x",
                        hex_byte_of(b[0]).as_str(),
                        ")",
                    ),
                ),
            );
        },
    };
    let rest = string_of(&v, 1, v.len());
    assert(rest@ == line@.skip(1));
    if byte_len_of(rest.as_str()) < 12 {
        return Err(
            parse_error(
                line_no,
                cat2("line too short to contain UUID: ", debug_of(line).as_str()),
            ),
        );
    }
    let (uuid, after) = match split_bytes(rest.as_str(), 12) {
        Some(p) => p,
        None => {
            return Err(
                parse_error(line_no, cat2("UUID ends inside a character: ", debug_of(line).as_str())),
            );
        },
    };
    if let Err(e) = validate_uuid(uuid) {
        return Err(parse_error(line_no, cat2("invalid UUID: ", e.message().as_str())));
    }
    if opcode == Opcode::Delete {
        if !blank(after) {
            return Err(
                parse_error(
                    line_no,
                    cat2(
                        "delete line has unexpected content after UUID: ",
                        debug_of(line).as_str(),
                    ),
                ),
            );
        }
        return Ok(Action { opcode, uuid: copy_of(uuid), fields: Fields::new(), line_no });
    }
    let tail = chars_of(after);
    if tail.len() == 0 || tail[0] != '\t' {
        return Err(
            parse_error(line_no, cat2("expected tab after UUID in: ", debug_of(line).as_str())),
        );
    }
    let kv_part = string_of(&tail, 1, tail.len());
    assert(kv_part@ == after@.skip(1));
    let fields = match parse_action_fields(kv_part.as_str(), line_no) {
        Ok(f) => f,
        Err(e) => {
            return Err(e);
        },
    };
    if opcode == Opcode::Append && fields.is_empty() {
        return Err(
            parse_error(
                line_no,
                cat2("Append (+) line has no key-value fields: ", debug_of(line).as_str()),
            ),
        );
    }
    Ok(Action { opcode, uuid: copy_of(uuid), fields, line_no })
}

/// Parse the text of an action file.
pub fn parse_action_str(content: &str) -> (r: Result<Vec<Action>>)
    ensures
        match r {
            Ok(v) => actions_from(lines(content@), 0) == Ok::<Seq<ActionView>, ErrorView>(
                action_views(v@),
            ),
            Err(e) => actions_from(lines(content@), 0) == Err::<Seq<ActionView>, ErrorView>(e@),
        },
{
    let ls = lines_of(content);
    let ghost all = lines(content@);
    let mut actions: Vec<Action> = Vec::new();
    let mut i: usize = 0;
    proof {
        match actions_from(all, 0) {
            Ok(rest) => assert(action_views(actions@) + rest == rest),
            Err(e) => {},
        }
    }
    while i < ls.len()
        invariant
            i <= ls@.len(),
            all == views(ls@),
            all == lines(content@),
            actions_from(all, 0) == (match actions_from(all, i as int) {
                Ok(rest) => Ok::<Seq<ActionView>, ErrorView>(action_views(actions@) + rest),
                Err(e) => Err(e),
            }),
        decreases ls@.len() - i,
    {
        assert(all[i as int] == ls@[i as int]@);
        let line: &String = &ls[i];
        let skip = is_skipped(line.as_str());
        if !skip {
            match parse_action_line(line.as_str(), i + 1) {
                Err(e) => {
                    return Err(e);
                },
                Ok(a) => {
                    let ghost before = action_views(actions@);
                    let ghost av = a@;
                    actions.push(a);
                    proof {
                        assert(action_views(actions@) == before.push(av));
                        match actions_from(all, i + 1) {
                            Ok(rest) => assert(before + (seq![av] + rest) == action_views(actions@)
                                + rest),
                            Err(e) => {},
                        }
                    }
                },
            }
        }
        i += 1;
    }
    assert(action_views(actions@) + Seq::<ActionView>::empty() == action_views(actions@));
    Ok(actions)
}

/// Whether a line is blank or a comment.
pub(crate) fn is_skipped(line: &str) -> (r: bool)
    ensures
        r == (line@.len() == 0 || line@[0] == '#'),
{
    let v = chars_of(line);
    v.len() == 0 || v[0] == '#'
}

/// The identifiers that a list of actions names, in order.
pub fn collect_uuids(actions: &[Action]) -> (r: Vec<String>)
    ensures
        views(r@) == Seq::new(actions@.len(), |i: int| actions@[i].uuid@),
{
    let mut r: Vec<String> = Vec::new();
    let mut i: usize = 0;
    let ghost all = Seq::new(actions@.len(), |i: int| actions@[i].uuid@);
    while i < actions.len()
        invariant
            i <= actions@.len(),
            all == Seq::new(actions@.len(), |i: int| actions@[i].uuid@),
            views(r@) == all.take(i as int),
        decreases actions@.len() - i,
    {
        let ghost before = views(r@);
        r.push(copy_of(actions[i].uuid.as_str()));
        assert(views(r@) == before.push(all[i as int]));
        i += 1;
    }
    assert(all.take(all.len() as int) == all);
    r
}

/// The keys of pairs.
spec fn keys_among(p: Seq<(Seq<char>, Seq<char>)>) -> Seq<Seq<char>> {
    Seq::new(p.len(), |i: int| p[i].0)
}

proof fn lemma_values_key(p: Seq<(Seq<char>, Seq<char>)>, k: Seq<char>)
    ensures
        values_of(p, k).len() > 0 ==> keys_among(p).contains(k),
    decreases p.len(),
{
    if p.len() > 0 {
        let d = p.drop_last();
        lemma_values_key(d, k);
        if p.last().0 == k {
            assert(keys_among(p)[p.len() - 1] == k);
        } else if values_of(p, k).len() > 0 {
            let i = choose|i: int| 0 <= i < keys_among(d).len() && keys_among(d)[i] == k;
            assert(keys_among(p)[i] == k);
        }
    }
}

/// No pair that was read has an empty key.
pub proof fn lemma_pairs_keyed(parts: Seq<Seq<char>>, i: int, line: usize, scalar: bool)
    requires
        0 <= i,
    ensures
        pairs_from(parts, i, line, scalar) matches Ok(p) ==> forall|j: int|
            0 <= j < p.len() ==> (#[trigger] p[j]).0.len() > 0,
    decreases parts.len() - i,
{
    if i < parts.len() {
        lemma_pairs_keyed(parts, i + 1, line, scalar);
    }
}

proof fn lemma_gathered_finite(p: Seq<(Seq<char>, Seq<char>)>)
    ensures
        gathered(p).dom().finite(),
{
    let all = keys_among(p).to_set();
    assert(gathered(p).dom().subset_of(all)) by {
        assert forall|k: Seq<char>| gathered(p).dom().contains(k) implies all.contains(k) by {
            lemma_values_key(p, k);
        }
    }
    assert(all.finite());
}

/// Law: a key that an action line repeats has the array of its values, from which they are read
/// back in their order, with repetitions.
pub proof fn law_repeated_key_is_array(p: Seq<(Seq<char>, Seq<char>)>, k: Seq<char>)
    requires
        values_of(p, k).len() >= 2,
    ensures
        gathered(p).contains_key(k),
        array_of(gathered(p)[k]) == Ok::<Seq<Seq<char>>, ErrorView>(values_of(p, k)),
{
    law_decode_encode_array(values_of(p, k));
}

proof fn lemma_action_valid(s: Seq<char>, line: usize)
    ensures
        action_of(s, line) matches Ok(a) ==> is_uuid(a.uuid) && proper(a.fields) && (a.opcode
            == Opcode::Append ==> a.fields != Map::<Seq<char>, Seq<char>>::empty()) && (a.opcode
            == Opcode::Delete ==> a.fields == Map::<Seq<char>, Seq<char>>::empty()),
{
    reveal(action_of);
    if let Ok(a) = action_of(s, line) {
        let after = byte_suffix(s.skip(1), 12);
        if a.opcode == Opcode::Delete {
            assert(a.fields.dom() =~= Set::<Seq<char>>::empty());
        } else {
            match pairs_from(split(after.skip(1), '\t'), 0, line, true) {
                Ok(p) => {
                    lemma_gathered_finite(p);
                    lemma_pairs_keyed(split(after.skip(1), '\t'), 0, line, true);
                    lemma_values_key(p, Seq::empty());
                    assert(!keys_among(p).contains(Seq::<char>::empty()));
                },
                Err(e) => {},
            }
        }
    }
}

/// Law: every action of a parsed file has a well-formed identifier and finitely many fields, none
/// with an empty key; an append has at least one field and a delete none.
pub proof fn law_parsed_actions_valid(ls: Seq<Seq<char>>, i: int)
    requires
        0 <= i,
    ensures
        actions_from(ls, i) matches Ok(v) ==> forall|k: int|
            0 <= k < v.len() ==> is_uuid((#[trigger] v[k]).uuid) && proper(v[k].fields) && (
            v[k].opcode == Opcode::Append ==> v[k].fields != Map::<Seq<char>, Seq<char>>::empty())
                && (v[k].opcode == Opcode::Delete ==> v[k].fields == Map::<
                Seq<char>,
                Seq<char>,
            >::empty()),
    decreases ls.len() - i,
{
    if i < ls.len() {
        law_parsed_actions_valid(ls, i + 1);
        lemma_action_valid(ls[i], (i + 1) as usize);
    }
}

} // verus!
