//! What the JSON lines of records hold, and what an identifier list says.
use crate::base62::{is_uuid, lemma_uuid_chars, lemma_uuid_plain};
use crate::database::{database, sound};
use crate::dotsv::{sorted_place, FileView};
use crate::error::ErrorView;
use crate::escape::{array_elements, array_text, is_array, law_decode_encode_array, quoted};
use crate::fields::keys_of;
use crate::json::{lemma_list_line, plain};
use crate::lookup::law_record_found;
use crate::record::{record_of, RecordView};
use crate::records::{
    json_inner, json_items, json_members, json_string, json_value, jsonl_line, list_from, list_of,
    uuid_line, Written,
};
use crate::shapes::{law_json_plain_text, stands_for_itself};
use crate::sorted::{lemma_listed_finite, ordered};
use crate::text::{join, lemma_join_first, split};
use crate::writing::{counting_places, counts, lemma_counting_first};
use vstd::prelude::*;

verus! {

/// Strings in JSON.
pub open spec fn json_strings(v: Seq<Seq<char>>) -> Seq<Seq<char>> {
    Seq::new(v.len(), |i: int| json_string(v[i]))
}

proof fn lemma_items_join(v: Seq<Seq<char>>, n: int)
    requires
        0 <= n <= v.len(),
    ensures
        json_items(v, n) == join(json_strings(v).take(n), seq![',']),
    decreases n,
{
    reveal_strlit(",");
    assert(","@ == seq![',']);
    let p = json_strings(v).take(n);
    if n > 0 {
        lemma_items_join(v, n - 1);
        assert(p.drop_last() == json_strings(v).take(n - 1));
        assert(p.last() == json_string(v[n - 1]));
    }
}

/// Law: a value that is the array of some strings is written as the JSON array of these strings, all
/// of them and in their order.
pub proof fn law_json_array_value(v: Seq<Seq<char>>)
    ensures
        json_value(array_text(v)) == Ok::<Seq<char>, ErrorView>(
            seq!['['] + join(json_strings(v), seq![',']) + seq![']'],
        ),
{
    reveal_strlit("[");
    reveal_strlit("]");
    assert("["@ == seq!['['] && "]"@ == seq![']']);
    law_decode_encode_array(v);
    let s = array_text(v);
    assert(s[0] == '[' && s.last() == ']');
    assert(is_array(s));
    lemma_items_join(v, v.len() as int);
    assert(json_strings(v).take(v.len() as int) == json_strings(v));
}

/// The member of an object.
pub open spec fn member(k: Seq<char>, t: Seq<char>) -> Seq<char> {
    json_string(k) + seq![':'] + t
}

/// The values of a record in JSON are all defined.
pub open spec fn has_json_values(m: Map<Seq<char>, Seq<char>>) -> bool {
    forall|k: Seq<char>| #[trigger] m.contains_key(k) ==> json_value(m[k]) is Ok
}

/// The members of an object: each key with its value in JSON, in increasing order of the keys.
pub open spec fn members(m: Map<Seq<char>, Seq<char>>) -> Seq<Seq<char>> {
    Seq::new(keys_of(m).len(), |i: int| member(keys_of(m)[i], json_value(m[keys_of(m)[i]])->Ok_0))
}

proof fn lemma_members(m: Map<Seq<char>, Seq<char>>, i: int)
    requires
        m.dom().finite(),
        has_json_values(m),
        0 <= i <= keys_of(m).len(),
    ensures
        json_members(m, i).error is None,
        forall|head: Seq<char>| #[trigger]
            join(seq![head] + members(m).skip(i), seq![',']) + seq!['}', '\n'] == head + json_members(
                m,
                i,
            ).text,
    decreases keys_of(m).len() - i,
{
    reveal_strlit("}\n");
    reveal_strlit(",");
    reveal_strlit(":");
    assert("}\n"@ == seq!['}', '\n'] && ","@ == seq![','] && ":"@ == seq![':']);
    let ks = keys_of(m);
    lemma_listed_finite(m.dom());
    if i == ks.len() {
        assert forall|head: Seq<char>| #[trigger]
            join(seq![head] + members(m).skip(i), seq![',']) + seq!['}', '\n'] == head + json_members(
                m,
                i,
            ).text by {
            assert(seq![head] + members(m).skip(i) == seq![head]);
        }
    } else {
        let k = ks[i];
        assert(ks.to_set().contains(k));
        assert(m.contains_key(k));
        lemma_members(m, i + 1);
        let t = json_value(m[k])->Ok_0;
        let x = member(k, t);
        let rest = json_members(m, i + 1).text;
        assert(json_members(m, i).text == (seq![','] + json_string(k) + seq![':'] + t) + rest);
        assert forall|head: Seq<char>| #[trigger]
            join(seq![head] + members(m).skip(i), seq![',']) + seq!['}', '\n'] == head + json_members(
                m,
                i,
            ).text by {
            let p = seq![head] + members(m).skip(i);
            assert(members(m).skip(i) == seq![x] + members(m).skip(i + 1));
            lemma_join_first(p, seq![',']);
            assert(p.skip(1) == seq![x] + members(m).skip(i + 1));
            assert(join(p.skip(1), seq![',']) + seq!['}', '\n'] == x + rest);
            assert(p[0] == head);
            assert(head + seq![','] + join(p.skip(1), seq![',']) + seq!['}', '\n'] == head + (seq![',']
                + (join(p.skip(1), seq![',']) + seq!['}', '\n'])));
            assert(seq![','] + (x + rest) == (seq![','] + json_string(k) + seq![':'] + t) + rest);
        }
    }
}

proof fn lemma_uuid_itself(u: Seq<char>)
    requires
        is_uuid(u),
    ensures
        json_string(u) == seq!['"'] + u + seq!['"'],
{
    lemma_uuid_chars(u);
    lemma_uuid_plain(u);
    assert forall|k: int| 0 <= k < u.len() implies stands_for_itself(#[trigger] u[k]) by {
        lemma_alphanumeric_itself(u[k]);
    }
    law_json_plain_text(u);
}

proof fn lemma_alphanumeric_itself(c: char)
    requires
        (c as u32) < 128,
        crate::base62::is_alphanumeric(c as u8),
    ensures
        stands_for_itself(c),
{
}

/// Law: the line of a record is a JSON object with the identifier under `_uuid` first, and then every
/// field of the record, once, in increasing order of the keys, each key as a JSON string and each
/// value in its JSON form.
pub proof fn law_record_object(r: RecordView)
    requires
        is_uuid(r.uuid),
        r.fields.dom().finite(),
        has_json_values(r.fields),
    ensures
        jsonl_line(r).error is None,
        jsonl_line(r).text == seq!['{'] + join(
            seq![member(seq!['_', 'u', 'u', 'i', 'd'], json_string(r.uuid))] + members(r.fields),
            seq![','],
        ) + seq!['}', '\n'],
        ordered(keys_of(r.fields)),
        keys_of(r.fields).to_set() == r.fields.dom(),
{
    reveal_strlit("{\"_uuid\":\"");
    reveal_strlit("\"");
    lemma_listed_finite(r.fields.dom());
    let name = seq!['_', 'u', 'u', 'i', 'd'];
    assert forall|k: int| 0 <= k < name.len() implies stands_for_itself(#[trigger] name[k]) by {}
    law_json_plain_text(name);
    lemma_uuid_itself(r.uuid);
    let first = member(name, json_string(r.uuid));
    let head = "{\"_uuid\":\""@ + r.uuid + "\""@;
    assert("{\"_uuid\":\""@ == seq!['{', '"', '_', 'u', 'u', 'i', 'd', '"', ':', '"']);
    assert("\""@ == seq!['"']);
    assert(head == seq!['{'] + first);
    lemma_members(r.fields, 0);
    let ms = members(r.fields);
    assert(ms.skip(0) == ms);
    let end = seq!['}', '\n'];
    let rest = json_members(r.fields, 0).text;
    assert(join(seq![first] + ms.skip(0), seq![',']) + end == first + rest);
    assert(seq!['{'] + join(seq![first] + ms, seq![',']) + end == seq!['{'] + (join(
        seq![first] + ms,
        seq![','],
    ) + end));
    assert(seq!['{'] + (first + rest) == head + rest);
}

/// Law: an identifier of a list is answered with the object of its record if a compacted database has
/// one, and else with an object that says that it is missing.
pub proof fn law_identifier_answered(f: FileView, u: Seq<char>)
    requires
        sound(f),
        f.pending.len() == 0,
        is_uuid(u),
    ensures
        database(f).contains_key(u) ==> uuid_line(f, u) == jsonl_line(
            RecordView { uuid: u, fields: database(f)[u] },
        ),
        !database(f).contains_key(u) ==> uuid_line(f, u) == (Written {
            text: "{\"_uuid\":\""@ + u + "\",\"_missing\":true}\n"@,
            error: None,
        }),
{
    reveal(uuid_line);
    if database(f).contains_key(u) {
        law_record_found(f, u);
        let k = sorted_place(f, u)->Ok_0;
        let line = f.sorted[k];
        let n = choose|n: usize| #[trigger]
            record_of(line, n) == Ok::<RecordView, ErrorView>(
                RecordView { uuid: u, fields: database(f)[u] },
            );
        crate::database::lemma_record_of_same(line, n, (k + 1) as usize);
    } else {
        crate::session::law_held(f, u);
    }
}

proof fn lemma_list_places(ls: Seq<Seq<char>>, i: int, first: bool) -> (ps: Seq<int>)
    requires
        0 <= i <= ls.len(),
    ensures
        counting_places(ls, i, ps),
        list_from(ls, i, first) matches Ok(us) ==> us.len() == ps.len() && forall|j: int|
            0 <= j < us.len() ==> #[trigger] us[j] == ls[ps[j]],
        list_from(ls, i, first) is Ok <==> (forall|x: int|
            i <= x < ls.len() ==> (#[trigger] ls[x]).len() == 0 || ls[x].last() != '\r') && (forall|
            x: int,
        |
            i <= x < ls.len() && counts(#[trigger] ls[x]) ==> is_uuid(ls[x])),
    decreases ls.len() - i,
{
    if i == ls.len() {
        Seq::empty()
    } else {
        let n = (i + 1) as usize;
        let bad = ls[i].len() > 0 && ls[i].last() == '\r';
        if counts(ls[i]) {
            let rest = lemma_list_places(ls, i + 1, false);
            lemma_counting_first(ls, i, rest);
            let ps = seq![i] + rest;
            if is_uuid(ls[i]) {
                lemma_list_line(ls[i], n, first);
            }
            if let Ok(us) = list_from(ls, i, first) {
                let ws = list_from(ls, i + 1, false)->Ok_0;
                assert forall|j: int| 0 <= j < us.len() implies #[trigger] us[j] == ls[ps[j]] by {
                    if j > 0 {
                        assert(us[j] == ws[j - 1]);
                        assert(ps[j] == rest[j - 1]);
                    }
                }
            }
            assert(list_from(ls, i, first) is Ok ==> is_uuid(ls[i]) && !bad && list_from(
                ls,
                i + 1,
                false,
            ) is Ok);
            if is_uuid(ls[i]) && !bad && list_from(ls, i + 1, false) is Ok {
                assert(list_from(ls, i, first) is Ok);
            }
            ps
        } else {
            let rest = lemma_list_places(ls, i + 1, first);
            assert(list_from(ls, i, first) is Ok <==> !bad && list_from(ls, i + 1, first) is Ok);
            rest
        }
    }
}

/// Law: an identifier list says its lines that are neither blank nor comments, in their order and
/// with their repetitions; it is accepted exactly if each of these is a well-formed identifier and
/// no line ends in a carriage return.
pub proof fn law_list_exactly(text: Seq<char>)
    ensures
        ({
            let ls = split(text, '\n');
            &&& list_of(text) is Ok <==> (forall|x: int|
                0 <= x < ls.len() ==> (#[trigger] ls[x]).len() == 0 || ls[x].last() != '\r') && (
            forall|x: int| 0 <= x < ls.len() && counts(#[trigger] ls[x]) ==> is_uuid(ls[x]))
            &&& list_of(text) matches Ok(us) ==> exists|ps: Seq<int>| #[trigger]
                counting_places(ls, 0, ps) && us.len() == ps.len() && forall|j: int|
                    0 <= j < us.len() ==> #[trigger] us[j] == ls[ps[j]]
        }),
{
    let ls = split(text, '\n');
    let ps = lemma_list_places(ls, 0, true);
    assert(counting_places(ls, 0, ps));
}

/// Law: an array of strings without control characters is stored as it is written in JSON.
pub proof fn law_stored_array_is_json(v: Seq<Seq<char>>)
    requires
        forall|i: int| 0 <= i < v.len() ==> plain(#[trigger] v[i]),
    ensures
        json_value(array_text(v)) == Ok::<Seq<char>, ErrorView>(array_text(v)),
{
    law_json_array_value(v);
    assert(json_strings(v) =~= array_elements(v)) by {
        assert forall|i: int| 0 <= i < v.len() implies #[trigger] json_strings(v)[i] == array_elements(
            v,
        )[i] by {
            reveal_strlit("\"");
            assert(plain(v[i]));
            lemma_quoted_is_json(v[i]);
        }
    }
}

proof fn lemma_quoted_is_json(s: Seq<char>)
    requires
        plain(s),
    ensures
        json_inner(s) == quoted(s),
    decreases s.len(),
{
    if s.len() > 0 {
        let d = s.drop_last();
        let c = s[s.len() - 1];
        assert forall|i: int| 0 <= i < d.len() implies (#[trigger] d[i]) as u32 >= 32 by {
            assert(d[i] == s[i]);
        }
        lemma_quoted_is_json(d);
        lemma_quoted_push(d, c);
        assert(d.push(c) == s);
        lemma_plain_char(c);
    }
}

proof fn lemma_plain_char(c: char)
    requires
        c as u32 >= 32,
    ensures
        crate::records::json_char(c) == if c == '"' || c == '\\' {
            seq!['\\', c]
        } else {
            seq![c]
        },
{
}

proof fn lemma_quoted_push(s: Seq<char>, c: char)
    ensures
        quoted(s.push(c)) == quoted(s) + if c == '"' || c == '\\' {
            seq!['\\', c]
        } else {
            seq![c]
        },
    decreases s.len(),
{
    let t = s.push(c);
    let e = if c == '"' || c == '\\' {
        seq!['\\', c]
    } else {
        seq![c]
    };
    if s.len() == 0 {
        assert(t.skip(1) == Seq::<char>::empty());
        assert(quoted(t.skip(1)) == Seq::<char>::empty());
        assert(quoted(t) == e + Seq::<char>::empty());
        assert(quoted(t) == quoted(s) + e);
    } else {
        assert(t.skip(1) == s.skip(1).push(c));
        lemma_quoted_push(s.skip(1), c);
        assert(t[0] == s[0]);
        let h = if s[0] == '"' || s[0] == '\\' {
            seq!['\\', s[0]]
        } else {
            seq![s[0]]
        };
        assert(h + (quoted(s.skip(1)) + e) == h + quoted(s.skip(1)) + e);
    }
}

} // verus!
