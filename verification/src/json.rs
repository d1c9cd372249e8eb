//! What holds of the records written as JSON.
use crate::base62::{is_uuid, lemma_uuid_chars, lemma_uuid_plain};
use crate::conflicts::lemma_search_hit;
use crate::database::lemma_record_of_uuid;
use crate::dotsv::{lemma_unlines_concat, lemma_unlines_one, sorted_place, unlines, uuid_parts, FileView};
use crate::error::ErrorView;
use crate::escape::hex_value;
use crate::fields::keys_of;
use crate::keytype::{class_of, digits_end, is_dec, numeric_shape, KtType};
use crate::record::record_of;
use crate::records::{
    behind, json_array, json_char, json_inner, json_items, json_members, json_string, json_value,
    jsonl_line, list_from, list_line_error, list_of, list_skipped, missing_line, uuid_line,
    uuid_lines, BYTE_ORDER_MARK,
};
use crate::reload::lemma_split_unlines;
use crate::text::{hex_text, lower_hex, split, trim, trim_back, trim_front};
use vstd::prelude::*;

verus! {

/// Whether a text has no control character.
pub open spec fn plain(s: Seq<char>) -> bool {
    forall|i: int| 0 <= i < s.len() ==> (#[trigger] s[i]) as u32 >= 32
}

proof fn lemma_plain_concat(a: Seq<char>, b: Seq<char>)
    requires
        plain(a),
        plain(b),
    ensures
        plain(a + b),
{
}

/// The character that the letter behind a `\` stands for.
pub open spec fn json_short(c: char) -> Option<char> {
    if c == '"' || c == '\\' || c == '/' {
        Some(c)
    } else if c == 'b' {
        Some(8u8 as char)
    } else if c == 'f' {
        Some(12u8 as char)
    } else if c == 'n' {
        Some('\n')
    } else if c == 'r' {
        Some('\r')
    } else if c == 't' {
        Some('\t')
    } else {
        None
    }
}

/// The code that four hexadecimal digits make.
pub open spec fn json_code(a: char, b: char, c: char, d: char) -> Option<nat> {
    match (hex_value(a), hex_value(b), hex_value(c), hex_value(d)) {
        (Some(w), Some(x), Some(y), Some(z)) => Some(w * 4096 + x * 256 + y * 16 + z),
        _ => None,
    }
}

/// The string that a JSON text says behind its opening quote, up to the closing quote at its end.
/// Surrogates are not read.
pub open spec fn json_read(s: Seq<char>) -> Option<Seq<char>>
    decreases s.len(),
{
    if s.len() == 0 || (s[0] as u32) < 32 {
        None
    } else if s[0] == '"' {
        if s.len() == 1 {
            Some(Seq::empty())
        } else {
            None
        }
    } else if s[0] == '\\' {
        if s.len() >= 6 && s[1] == 'u' {
            match (json_code(s[2], s[3], s[4], s[5]), json_read(s.skip(6))) {
                (Some(n), Some(t)) => if n < 0xD800 || n >= 0xE000 {
                    Some(seq![n as char] + t)
                } else {
                    None
                },
                _ => None,
            }
        } else if s.len() >= 2 {
            match (json_short(s[1]), json_read(s.skip(2))) {
                (Some(c), Some(t)) => Some(seq![c] + t),
                _ => None,
            }
        } else {
            None
        }
    } else {
        match json_read(s.skip(1)) {
            Some(t) => Some(seq![s[0]] + t),
            None => None,
        }
    }
}

proof fn lemma_char_code(c: char)
    ensures
        (c as u32) as char == c,
        (c as u32) < 0x110000,
{
}

proof fn lemma_json_char(c: char, rest: Seq<char>)
    requires
        json_read(rest) is Some,
    ensures
        json_read(json_char(c) + rest) == Some(seq![c] + json_read(rest)->0),
        plain(json_char(c)),
{
    let t = json_char(c);
    let s = t + rest;
    let n = c as u32;
    lemma_char_code(c);
    if t.len() == 2 {
        assert(s.skip(2) == rest);
        assert(s[0] == '\\');
        assert(s[1] == t[1]);
        assert(json_short(s[1]) == Some(c)) by {
            if n == 8 {
                assert(8u32 as char == c);
            } else if n == 12 {
                assert(12u32 as char == c);
            }
        }
    } else if t.len() == 1 {
        assert(t == seq![c]);
        assert(s.skip(1) == rest);
        assert(s[0] == c);
    } else {
        reveal_with_fuel(hex_text, 3);
        let h = hex_text(c as nat, 2);
        assert(h.len() == 2);
        assert(h[0] == lower_hex((n / 16) as int)) by {
            assert((n as nat / 16) % 16 == n as nat / 16);
        }
        assert(h[1] == lower_hex((n % 16) as int));
        assert(t.len() == 6);
        assert(t[4] == h[0] && t[5] == h[1]);
        assert(s.skip(6) == rest);
        assert(s[0] == '\\' && s[1] == 'u' && s[2] == '0' && s[3] == '0' && s[4] == h[0] && s[5]
            == h[1]);
        assert(hex_value(h[0]) == Some((n / 16) as nat));
        assert(hex_value(h[1]) == Some((n % 16) as nat));
        assert(json_code(s[2], s[3], s[4], s[5]) == Some(n as nat));
    }
}

proof fn lemma_json_inner(s: Seq<char>, rest: Seq<char>)
    requires
        json_read(rest) is Some,
    ensures
        json_read(json_inner(s) + rest) == Some(s + json_read(rest)->0),
        plain(json_inner(s)),
    decreases s.len(),
{
    if s.len() == 0 {
        assert(json_inner(s) + rest == rest);
        assert(s + json_read(rest)->0 == json_read(rest)->0);
    } else {
        let d = s.drop_last();
        let c = s.last();
        let tail = json_char(c) + rest;
        lemma_json_char(c, rest);
        lemma_json_inner(d, tail);
        lemma_plain_concat(json_inner(d), json_char(c));
        assert(json_inner(s) + rest == json_inner(d) + tail);
        assert(d + (seq![c] + json_read(rest)->0) == s + json_read(rest)->0);
    }
}

/// Law: a JSON string says the string that it was made of, and has no control character in it.
pub proof fn law_json_string_reads_back(s: Seq<char>)
    ensures
        json_string(s)[0] == '"',
        json_read(json_string(s).skip(1)) == Some(s),
        plain(json_string(s)),
{
    reveal_strlit("\"");
    let end = seq!['"'];
    assert("\""@ == end);
    assert(json_read(end) == Some(Seq::<char>::empty()));
    lemma_json_inner(s, end);
    assert(json_string(s).skip(1) == json_inner(s) + end);
    assert(s + Seq::<char>::empty() == s);
}

/// Law: different strings are different in JSON.
pub proof fn law_json_string_injective(a: Seq<char>, b: Seq<char>)
    requires
        json_string(a) == json_string(b),
    ensures
        a == b,
{
    law_json_string_reads_back(a);
    law_json_string_reads_back(b);
}

proof fn lemma_json_items(v: Seq<Seq<char>>, n: int)
    requires
        0 <= n <= v.len(),
    ensures
        plain(json_items(v, n)),
    decreases n,
{
    reveal_strlit(",");
    if n > 0 {
        law_json_string_reads_back(v[n - 1]);
        lemma_json_items(v, n - 1);
    }
}

proof fn lemma_digits(s: Seq<char>, i: int, k: int)
    requires
        0 <= i <= k < digits_end(s, i),
    ensures
        k < s.len(),
        is_dec(s[k]),
    decreases s.len() - i,
{
    if i < s.len() && is_dec(s[i]) && k > i {
        lemma_digits(s, i + 1, k);
    }
}

proof fn lemma_number_plain(s: Seq<char>)
    requires
        numeric_shape(s),
    ensures
        plain(s),
{
    let t = if s[0] == '-' {
        s.skip(1)
    } else {
        s
    };
    if s.len() == 0 {
        assert(digits_end(s, 0) == 0);
    }
    let d = digits_end(t, 0);
    assert forall|i: int| 0 <= i < t.len() implies (#[trigger] t[i]) as u32 >= 32 by {
        if i < d {
            lemma_digits(t, 0, i);
        } else if i > d {
            lemma_digits(t, d + 1, i);
        }
    }
    assert forall|i: int| 0 <= i < s.len() implies (#[trigger] s[i]) as u32 >= 32 by {
        if s[0] == '-' && i > 0 {
            assert(s[i] == t[i - 1]);
        }
    }
}

/// Law: a value in JSON has no control character in it.
pub proof fn law_json_value_plain(v: Seq<char>)
    ensures
        json_value(v) matches Ok(t) ==> plain(t),
{
    reveal_strlit("true");
    reveal_strlit("false");
    reveal_strlit("[");
    reveal_strlit("]");
    law_json_string_reads_back(v);
    match class_of(v) {
        KtType::Array => {
            if let Ok(es) = crate::escape::array_of(v) {
                lemma_json_items(es, es.len() as int);
                assert(plain(json_array(es)));
            }
        },
        KtType::Number => {
            lemma_number_plain(v);
        },
        _ => {},
    }
}

/// Law: the JSON form of a value shows its type. An array starts with `[`, a string or a moment
/// with `"`; a number and a boolean stand as they are, a number with a digit or a `-` at its start.
pub proof fn law_json_shape(v: Seq<char>, t: Seq<char>)
    requires
        json_value(v) == Ok::<Seq<char>, ErrorView>(t),
    ensures
        t.len() > 0,
        match class_of(v) {
            KtType::Array => t[0] == '[',
            KtType::Timestamp => t[0] == '"',
            KtType::String => t[0] == '"',
            KtType::Boolean => t == v && (t == "true"@ || t == "false"@),
            KtType::Number => t == v && (t[0] == '-' || is_dec(t[0])),
        },
{
    reveal_strlit("true");
    reveal_strlit("false");
    reveal_strlit("[");
    reveal_strlit("\"");
    law_json_string_reads_back(v);
    if class_of(v) == KtType::Number {
        if v.len() == 0 {
            assert(digits_end(v, 0) == 0);
        } else if v[0] != '-' {
            lemma_digits(v, 0, 0);
        }
    }
}

proof fn lemma_json_members(m: Map<Seq<char>, Seq<char>>, i: int)
    requires
        0 <= i,
        json_members(m, i).error is None,
    ensures
        json_members(m, i).text.len() > 0,
        json_members(m, i).text.last() == '\n',
        plain(json_members(m, i).text.drop_last()),
    decreases keys_of(m).len() - i,
{
    reveal_strlit("}\n");
    reveal_strlit(",");
    reveal_strlit(":");
    if i < keys_of(m).len() {
        let k = keys_of(m)[i];
        let head = ","@ + json_string(k) + ":"@;
        law_json_string_reads_back(k);
        law_json_value_plain(m[k]);
        let t = json_value(m[k])->Ok_0;
        let rest = json_members(m, i + 1);
        lemma_json_members(m, i + 1);
        assert(json_members(m, i) == rest.after(head + t));
        let all = head + t + rest.text;
        assert(json_members(m, i).text == all);
        assert(plain(head + t));
        assert(all.drop_last() == (head + t) + rest.text.drop_last());
    }
}

/// How the line of an identifier starts.
pub open spec fn line_head(uuid: Seq<char>) -> Seq<char> {
    "{\"_uuid\":\""@ + uuid + "\""@
}

proof fn lemma_head_plain(uuid: Seq<char>)
    requires
        is_uuid(uuid),
    ensures
        plain(line_head(uuid)),
{
    reveal_strlit("{\"_uuid\":\"");
    reveal_strlit("\"");
    lemma_uuid_plain(uuid);
    assert(plain("{\"_uuid\":\""@));
    assert(plain(uuid));
    assert(plain("\""@));
}

proof fn lemma_missing_line(uuid: Seq<char>)
    requires
        is_uuid(uuid),
    ensures
        missing_line(uuid).last() == '\n',
        plain(missing_line(uuid).drop_last()),
        line_head(uuid).is_prefix_of(missing_line(uuid)),
{
    reveal_strlit("\"");
    reveal_strlit("\",\"_missing\":true}\n");
    reveal_strlit(",\"_missing\":true}\n");
    let head = line_head(uuid);
    let t = missing_line(uuid);
    let rest = ",\"_missing\":true}\n"@;
    lemma_head_plain(uuid);
    assert("\",\"_missing\":true}\n"@ == "\""@ + rest);
    assert(t == head + rest);
    assert(t.drop_last() == head + rest.drop_last());
    assert(plain(rest.drop_last()));
    assert(t.subrange(0, head.len() as int) == head);
}

/// Law: the line for an identifier starts with it, ends with a line feed, and has no other control
/// character in it.
pub proof fn law_uuid_line(f: FileView, uuid: Seq<char>)
    requires
        is_uuid(uuid),
        uuid_line(f, uuid).error is None,
    ensures
        uuid_line(f, uuid).text.len() > 0,
        uuid_line(f, uuid).text.last() == '\n',
        plain(uuid_line(f, uuid).text.drop_last()),
        line_head(uuid).is_prefix_of(uuid_line(f, uuid).text),
{
    reveal(uuid_line);
    let head = line_head(uuid);
    lemma_head_plain(uuid);
    match sorted_place(f, uuid) {
        Ok(i) => {
            lemma_search_hit(uuid_parts(f.sorted), uuid, 0, f.sorted.len() as int);
            let r = record_of(f.sorted[i], (i + 1) as usize)->Ok_0;
            lemma_record_of_uuid(f.sorted[i], (i + 1) as usize);
            assert(r.uuid == uuid);
            let rest = json_members(r.fields, 0);
            lemma_json_members(r.fields, 0);
            assert(jsonl_line(r).text == head + rest.text);
            assert((head + rest.text).drop_last() == head + rest.text.drop_last());
            assert((head + rest.text).subrange(0, head.len() as int) == head);
        },
        Err(_) => {
            lemma_missing_line(uuid);
        },
    }
}

/// The lines for identifiers, without their line feeds.
pub open spec fn lines_for(f: FileView, us: Seq<Seq<char>>) -> Seq<Seq<char>> {
    Seq::new(us.len(), |i: int| uuid_line(f, us[i]).text.drop_last())
}

proof fn lemma_uuid_lines(f: FileView, us: Seq<Seq<char>>, i: int)
    requires
        0 <= i <= us.len(),
        forall|k: int| 0 <= k < us.len() ==> is_uuid(#[trigger] us[k]),
        uuid_lines(f, us, i).error is None,
    ensures
        uuid_lines(f, us, i).text == unlines(lines_for(f, us).skip(i)),
        forall|k: int| i <= k < us.len() ==> uuid_line(f, #[trigger] us[k]).error is None,
    decreases us.len() - i,
{
    let ls = lines_for(f, us);
    if i >= us.len() {
        assert(ls.skip(i) == Seq::<Seq<char>>::empty());
    } else {
        let w = uuid_line(f, us[i]);
        lemma_uuid_lines(f, us, i + 1);
        law_uuid_line(f, us[i]);
        reveal_strlit("\n");
        assert(w.text == w.text.drop_last() + "\n"@);
        assert(ls.skip(i) == seq![ls[i]] + ls.skip(i + 1));
        lemma_unlines_one(ls[i]);
        lemma_unlines_concat(seq![ls[i]], ls.skip(i + 1));
    }
}

/// Law: a list of identifiers is answered by one line for each, in the order of the list, also for
/// an identifier that is missing or repeated.
pub proof fn law_one_line_each(f: FileView, us: Seq<Seq<char>>)
    requires
        forall|k: int| 0 <= k < us.len() ==> is_uuid(#[trigger] us[k]),
        uuid_lines(f, us, 0).error is None,
    ensures
        uuid_lines(f, us, 0).text == unlines(lines_for(f, us)),
        lines_for(f, us).len() == us.len(),
        forall|k: int|
            0 <= k < us.len() ==> plain(#[trigger] lines_for(f, us)[k]) && line_head(
                us[k],
            ).is_prefix_of(lines_for(f, us)[k]),
{
    lemma_uuid_lines(f, us, 0);
    let ls = lines_for(f, us);
    assert(ls.skip(0) == ls);
    assert forall|k: int| 0 <= k < us.len() implies plain(#[trigger] ls[k]) && line_head(
        us[k],
    ).is_prefix_of(ls[k]) by {
        assert(uuid_line(f, us[k]).error is None);
        law_uuid_line(f, us[k]);
        let t = uuid_line(f, us[k]).text;
        let h = line_head(us[k]);
        assert(h.len() > 0 && h.last() == '"') by {
            reveal_strlit("\"");
        }
        assert(h[h.len() - 1] == t[h.len() - 1]) by {
            assert(h == t.subrange(0, h.len() as int));
        }
        assert(h.len() < t.len());
        assert(ls[k].subrange(0, h.len() as int) == t.subrange(0, h.len() as int));
    }
}

proof fn lemma_trim_uuid(s: Seq<char>)
    requires
        is_uuid(s),
    ensures
        trim(s) == s,
        !s.contains('\n'),
        s.len() == 12,
{
    lemma_uuid_plain(s);
    assert(trim_front(s) == s);
    assert(trim_back(s) == s);
}

pub proof fn lemma_list_line(s: Seq<char>, n: usize, first: bool)
    requires
        is_uuid(s),
    ensures
        list_line_error(s, n, first) is None,
        !list_skipped(s),
{
    lemma_uuid_chars(s);
    lemma_uuid_plain(s);
    lemma_trim_uuid(s);
    assert(s[0] != '#' && s[0] != BYTE_ORDER_MARK && s[11] != '\r');
}

proof fn lemma_list_from(us: Seq<Seq<char>>, i: int, first: bool)
    requires
        0 <= i <= us.len(),
        forall|k: int| 0 <= k < us.len() ==> is_uuid(#[trigger] us[k]),
    ensures
        list_from(us.push(Seq::empty()), i, first) == Ok::<Seq<Seq<char>>, ErrorView>(us.skip(i)),
    decreases us.len() - i,
{
    let ls = us.push(Seq::empty());
    if i < us.len() {
        assert(ls[i] == us[i]);
        lemma_list_line(us[i], (i + 1) as usize, first);
        lemma_list_from(us, i + 1, false);
        assert(seq![us[i]] + us.skip(i + 1) == us.skip(i));
    } else {
        assert(ls[i] == Seq::<char>::empty());
        assert(list_from(ls, i + 1, first) == Ok::<Seq<Seq<char>>, ErrorView>(Seq::empty()));
        assert(us.skip(i) == Seq::<Seq<char>>::empty());
    }
}

/// Law: identifiers that are written one in a line are read back in their order, with their
/// repetitions.
pub proof fn law_list_reads_back(us: Seq<Seq<char>>)
    requires
        forall|k: int| 0 <= k < us.len() ==> is_uuid(#[trigger] us[k]),
    ensures
        list_of(unlines(us)) == Ok::<Seq<Seq<char>>, ErrorView>(us),
{
    assert forall|i: int| 0 <= i < us.len() implies !(#[trigger] us[i]).contains('\n') by {
        lemma_trim_uuid(us[i]);
    }
    lemma_split_unlines(us);
    lemma_list_from(us, 0, true);
    assert(us.skip(0) == us);
}

proof fn lemma_list_valid(ls: Seq<Seq<char>>, i: int, first: bool)
    requires
        0 <= i,
    ensures
        list_from(ls, i, first) matches Ok(us) ==> forall|k: int|
            0 <= k < us.len() ==> is_uuid(#[trigger] us[k]),
    decreases ls.len() - i,
{
    if i < ls.len() {
        lemma_list_valid(ls, i + 1, first);
        lemma_list_valid(ls, i + 1, false);
    }
}

/// Law: every identifier of an accepted list is well formed.
pub proof fn law_list_valid(text: Seq<char>)
    ensures
        list_of(text) matches Ok(us) ==> forall|k: int|
            0 <= k < us.len() ==> is_uuid(#[trigger] us[k]),
{
    lemma_list_valid(split(text, '\n'), 0, true);
}

} // verus!
