//! The types of values, and the index of the types that each key has.
//!
//! A value is an array, a timestamp, a boolean, a number or a string; the first that fits counts.
use crate::compact::{in_order, sort_strings};
use crate::dotsv::{DotsvFile, FileView};
use crate::error::{outcome, ErrorView, Result, TsdbError};
use crate::escape::{escape, escaped, is_array, is_array_value};
use crate::index::{
    collect_triples, index_text, push_string, set_to_vec, triple_views, triples_from, write_index,
    Triple,
};
use crate::paths::{companion, companion_path};
use crate::sorted::{listed, ordered, StringSet};
use crate::text::{cat5, chars_of, copy_of, dec, dec_of, join, join_with, str_eq, str_lt, views};
use vstd::prelude::*;
use vstd::utf8::*;

verus! {

/// The type of a value.
#[derive(Debug, Clone, Copy, PartialEq, Eq, Hash, PartialOrd, Ord, Structural)]
pub enum KtType {
    Array,
    Boolean,
    Number,
    String,
    Timestamp,
}

/// The word for a type.
pub open spec fn token_text(t: KtType) -> Seq<char> {
    match t {
        KtType::Array => "array"@,
        KtType::Boolean => "boolean"@,
        KtType::Number => "number"@,
        KtType::String => "string"@,
        KtType::Timestamp => "timestamp"@,
    }
}

impl KtType {
    /// The word for the type, as index files have it.
    pub fn token(self) -> (r: &'static str)
        ensures
            r@ == token_text(self),
    {
        match self {
            KtType::Array => "array",
            KtType::Boolean => "boolean",
            KtType::Number => "number",
            KtType::String => "string",
            KtType::Timestamp => "timestamp",
        }
    }
}

/// Whether a character is a decimal digit.
pub open spec fn is_dec(c: char) -> bool {
    '0' <= c <= '9'
}

/// Whether a string is made of decimal digits.
pub open spec fn all_digits(s: Seq<char>) -> bool {
    forall|i: int| 0 <= i < s.len() ==> is_dec(#[trigger] s[i])
}

/// How many digits `s` has from place `i` on before another character.
pub open spec fn digits_end(s: Seq<char>, i: int) -> int
    decreases s.len() - i,
{
    if i < s.len() && is_dec(s[i]) {
        digits_end(s, i + 1)
    } else {
        i
    }
}

/// A number without its sign: digits, none of them a leading zero, and perhaps a fraction.
pub open spec fn unsigned_shape(t: Seq<char>) -> bool {
    let d = digits_end(t, 0);
    &&& d > 0
    &&& d > 1 ==> t[0] != '0'
    &&& d == t.len() || (t[d] == '.' && d + 1 < t.len() && digits_end(t, d + 1) == t.len())
}

/// Whether a string is written like a decimal number.
pub open spec fn numeric_shape(s: Seq<char>) -> bool {
    if s.len() > 0 && s[0] == '-' {
        unsigned_shape(s.skip(1))
    } else {
        unsigned_shape(s)
    }
}

/// The number that the digits at `i` and `i + 1` make.
pub open spec fn pair_at(s: Seq<char>, i: int) -> int {
    (s[i] as int - '0' as int) * 10 + (s[i + 1] as int - '0' as int)
}

/// Whether a string is written like a moment: `YYYYDDMMhhmmss`, with fields in their ranges.
pub open spec fn timestamp_shape(s: Seq<char>) -> bool {
    &&& s.len() == 14
    &&& all_digits(s)
    &&& 1 <= pair_at(s, 6) <= 12
    &&& 1 <= pair_at(s, 4) <= 31
    &&& pair_at(s, 8) < 24
    &&& pair_at(s, 10) < 60
    &&& pair_at(s, 12) < 60
}

/// The type of a value.
pub open spec fn class_of(s: Seq<char>) -> KtType {
    if is_array(s) {
        KtType::Array
    } else if timestamp_shape(s) {
        KtType::Timestamp
    } else if s == "true"@ || s == "false"@ {
        KtType::Boolean
    } else if numeric_shape(s) {
        KtType::Number
    } else {
        KtType::String
    }
}

/// The type of a value.
pub fn classify(v: &str) -> (r: KtType)
    ensures
        r == class_of(v@),
{
    if is_array_value(v) {
        return KtType::Array;
    }
    if is_timestamp(v) {
        return KtType::Timestamp;
    }
    if str_eq(v, "true") || str_eq(v, "false") {
        return KtType::Boolean;
    }
    if is_numeric_shape(v) {
        return KtType::Number;
    }
    KtType::String
}

fn is_digit_char(c: char) -> (r: bool)
    ensures
        r == is_dec(c),
{
    '0' <= c && c <= '9'
}

/// Where the digits from `from` on end.
pub(crate) fn scan_digits(v: &Vec<char>, from: usize) -> (r: usize)
    requires
        from <= v@.len(),
    ensures
        r == digits_end(v@, from as int),
        from <= r <= v@.len(),
        forall|k: int| from <= k < r ==> is_dec(#[trigger] v@[k]),
{
    let mut i: usize = from;
    while i < v.len() && is_digit_char(v[i])
        invariant
            from <= i <= v@.len(),
            digits_end(v@, from as int) == digits_end(v@, i as int),
            forall|k: int| from <= k < i ==> is_dec(#[trigger] v@[k]),
        decreases v@.len() - i,
    {
        i += 1;
    }
    i
}

proof fn lemma_digits_end_skip(s: Seq<char>, i: int)
    requires
        0 <= i <= s.len() - 1,
    ensures
        digits_end(s.skip(1), i) == digits_end(s, i + 1) - 1,
    decreases s.len() - i,
{
    let t = s.skip(1);
    if i < t.len() && is_dec(t[i]) {
        lemma_digits_end_skip(s, i + 1);
    }
}

proof fn lemma_digits_end_range(s: Seq<char>, i: int)
    requires
        0 <= i <= s.len(),
    ensures
        i <= digits_end(s, i) <= s.len(),
    decreases s.len() - i,
{
    if i < s.len() && is_dec(s[i]) {
        lemma_digits_end_range(s, i + 1);
    }
}

/// Whether a string is written like a decimal number: an optional `-`, digits without a leading
/// zero, and perhaps a dot and more digits.
pub fn is_numeric_shape(s: &str) -> (r: bool)
    ensures
        r == numeric_shape(s@),
{
    let v = chars_of(s);
    let n: usize = v.len();
    if n == 0 {
        return false;
    }
    let start: usize = if v[0] == '-' {
        1
    } else {
        0
    };
    let ghost t = v@.skip(start as int);
    proof {
        assert(start == 0 ==> t == v@);
        if start == 1 {
            lemma_digits_end_skip(v@, 0);
        }
        lemma_digits_end_range(t, 0);
    }
    let d = scan_digits(&v, start);
    assert(digits_end(t, 0) == d - start);
    if d == start {
        return false;
    }
    if d - start > 1 && v[start] == '0' {
        return false;
    }
    if d == n {
        return true;
    }
    if v[d] != '.' {
        return false;
    }
    proof {
        if start == 1 {
            if d < n {
                lemma_digits_end_skip(v@, d as int);
            }
        }
    }
    let e = scan_digits(&v, d + 1);
    assert(digits_end(t, d - start + 1) == e - start);
    e == n && e > d + 1
}

/// The number that the digits at `i` and `i + 1` make.
fn two_at(v: &Vec<char>, i: usize) -> (r: u32)
    requires
        i <= 12,
        i + 1 < v@.len(),
        is_dec(v@[i as int]),
        is_dec(v@[i + 1]),
    ensures
        r == pair_at(v@, i as int),
{
    (v[i] as u32 - 48) * 10 + (v[i + 1] as u32 - 48)
}

/// Whether a string is written like a moment: fourteen digits with fields in their ranges.
pub fn is_timestamp(v: &str) -> (r: bool)
    ensures
        r == timestamp_shape(v@),
{
    let c = chars_of(v);
    if c.len() != 14 {
        return false;
    }
    let e = scan_digits(&c, 0);
    if e != 14 {
        proof {
            lemma_digits_end_stop(c@, 0);
        }
        return false;
    }
    assert(all_digits(v@));
    let dd = two_at(&c, 4);
    let mm = two_at(&c, 6);
    let hh = two_at(&c, 8);
    let mn = two_at(&c, 10);
    let ss = two_at(&c, 12);
    1 <= mm && mm <= 12 && 1 <= dd && dd <= 31 && hh < 24 && mn < 60 && ss < 60
}

proof fn lemma_digits_end_stop(s: Seq<char>, i: int)
    requires
        0 <= i <= s.len(),
    ensures
        digits_end(s, i) < s.len() ==> !is_dec(s[digits_end(s, i)]),
        i <= digits_end(s, i) <= s.len(),
    decreases s.len() - i,
{
    if i < s.len() && is_dec(s[i]) {
        lemma_digits_end_stop(s, i + 1);
    }
}

/// The escaped keys of triples.
pub open spec fn escaped_keys(ts: Seq<(Seq<char>, Seq<char>, Seq<char>)>) -> Seq<Seq<char>> {
    Seq::new(ts.len(), |i: int| escaped(ts[i].0))
}

/// The identifiers of the triples whose escaped key is `k` and whose value has type `t`.
pub open spec fn typed_uuids(
    ts: Seq<(Seq<char>, Seq<char>, Seq<char>)>,
    k: Seq<char>,
    t: KtType,
) -> Seq<Seq<char>>
    decreases ts.len(),
{
    if ts.len() == 0 {
        Seq::empty()
    } else {
        let d = typed_uuids(ts.drop_last(), k, t);
        let x = ts.last();
        if escaped(x.0) == k && class_of(x.1) == t {
            d.push(x.2)
        } else {
            d
        }
    }
}

/// The types in the order of their words.
pub open spec fn all_types() -> Seq<KtType> {
    seq![KtType::Array, KtType::Boolean, KtType::Number, KtType::String, KtType::Timestamp]
}

/// The line for a key, a type and the identifiers that have them.
pub open spec fn type_line(k: Seq<char>, t: KtType, us: Seq<Seq<char>>) -> Seq<char> {
    k + "\t"@ + token_text(t) + "\t"@ + (dec(us.len()) + "\t"@ + join(us, ","@))
}

/// The lines of key `k` for the first `n` types.
pub open spec fn key_lines(ts: Seq<(Seq<char>, Seq<char>, Seq<char>)>, k: Seq<char>, n: int) -> Seq<
    Seq<char>,
>
    decreases n,
{
    if n <= 0 {
        Seq::empty()
    } else {
        let d = key_lines(ts, k, n - 1);
        let us = in_order(typed_uuids(ts, k, all_types()[n - 1]));
        if us.len() == 0 {
            d
        } else {
            d.push(type_line(k, all_types()[n - 1], us))
        }
    }
}

/// The lines of the first `n` keys of `ks`.
pub open spec fn type_rows(
    ts: Seq<(Seq<char>, Seq<char>, Seq<char>)>,
    ks: Seq<Seq<char>>,
    n: int,
) -> Seq<Seq<char>>
    decreases n,
{
    if n <= 0 {
        Seq::empty()
    } else {
        type_rows(ts, ks, n - 1) + key_lines(ts, ks[n - 1], 5)
    }
}

/// The lines of the index of types: each key and type, how many records have them, and which.
pub open spec fn type_lines(ts: Seq<(Seq<char>, Seq<char>, Seq<char>)>) -> Seq<Seq<char>> {
    let ks = listed(escaped_keys(ts).to_set());
    type_rows(ts, ks, ks.len() as int)
}

/// The text of the index of types of a file, or why it cannot be made.
pub open spec fn kt_text(f: FileView, dov_ts: Seq<char>) -> core::result::Result<
    Seq<char>,
    ErrorView,
> {
    if f.pending.len() > 0 {
        Err(
            ErrorView::Other(
                "generate_kt_ptv requires a fully compacted DotsvFile (pending must be empty)"@,
            ),
        )
    } else {
        match triples_from(f.sorted, 0, false) {
            Err(e) => Err(e),
            Ok(ts) => Ok(index_text(type_lines(ts), dov_ts)),
        }
    }
}

/// The path of the index of types of a database file.
pub fn kt_ptv_path(dov_path: &str) -> (r: String)
    ensures
        r@ == companion(dov_path@, ".kt.ptv"@),
{
    companion_path(dov_path, ".kt.ptv")
}

/// The identifiers of the triples whose escaped key is `k` and whose value has type `t`. The
/// escaped keys and the types of the triples stand in `ks` and `types`.
fn uuids_with(
    ts: &Vec<Triple>,
    ks: &Vec<String>,
    types: &Vec<KtType>,
    k: &str,
    t: KtType,
) -> (r: Vec<String>)
    requires
        views(ks@) == escaped_keys(triple_views(ts@)),
        types@.len() == ts@.len(),
        forall|i: int| 0 <= i < ts@.len() ==> #[trigger] types@[i] == class_of(ts@[i].value@),
    ensures
        views(r@) == typed_uuids(triple_views(ts@), k@, t),
{
    let ghost all = triple_views(ts@);
    let mut r: Vec<String> = Vec::new();
    let mut i: usize = 0;
    assert(views(r@) == Seq::<Seq<char>>::empty());
    assert(views(ks@).len() == ks@.len());
    while i < ts.len()
        invariant
            i <= ts@.len(),
            ks@.len() == ts@.len(),
            all == triple_views(ts@),
            views(ks@) == escaped_keys(all),
            types@.len() == ts@.len(),
            forall|j: int| 0 <= j < ts@.len() ==> #[trigger] types@[j] == class_of(ts@[j].value@),
            views(r@) == typed_uuids(all.take(i as int), k@, t),
        decreases ts@.len() - i,
    {
        let ghost x = all.take(i + 1);
        assert(x.drop_last() == all.take(i as int));
        assert(x.last() == ts@[i as int]@);
        assert(views(ks@)[i as int] == ks@[i as int]@);
        assert(types@[i as int] == class_of(ts@[i as int].value@));
        if types[i] == t && str_eq(ks[i].as_str(), k) {
            push_string(&mut r, copy_of(ts[i].uuid.as_str()));
        }
        i += 1;
    }
    assert(all.take(all.len() as int) == all);
    r
}

fn type_at(i: usize) -> (r: KtType)
    requires
        i < 5,
    ensures
        r == all_types()[i as int],
{
    if i == 0 {
        KtType::Array
    } else if i == 1 {
        KtType::Boolean
    } else if i == 2 {
        KtType::Number
    } else if i == 3 {
        KtType::String
    } else {
        KtType::Timestamp
    }
}

/// The text of the index of types of a compacted file. `dov_ts` is the last line of the database
/// file.
pub fn generate_kt_ptv(db: &DotsvFile, dov_ts: &str) -> (r: Result<String>)
    ensures
        outcome(r) == kt_text(db@, dov_ts@),
{
    if db.pending.len() > 0 {
        return Err(
            TsdbError::Other(
                copy_of(
                    "generate_kt_ptv requires a fully compacted DotsvFile (pending must be empty)",
                ),
            ),
        );
    }
    let ts = match collect_triples(db, false) {
        Ok(ts) => ts,
        Err(e) => {
            return Err(e);
        },
    };
    let ghost all = triple_views(ts@);
    let mut ks: Vec<String> = Vec::new();
    let mut types: Vec<KtType> = Vec::new();
    let mut i: usize = 0;
    assert(views(ks@) == escaped_keys(all).take(0));
    while i < ts.len()
        invariant
            i <= ts@.len(),
            all == triple_views(ts@),
            views(ks@) == escaped_keys(all).take(i as int),
            types@.len() == i,
            forall|j: int| 0 <= j < i ==> #[trigger] types@[j] == class_of(ts@[j].value@),
        decreases ts@.len() - i,
    {
        push_string(&mut ks, escape(ts[i].key.as_str()));
        types.push(classify(ts[i].value.as_str()));
        assert(escaped_keys(all).take(i + 1) == escaped_keys(all).take(i as int).push(
            escaped_keys(all)[i as int],
        ));
        i += 1;
    }
    assert(escaped_keys(all).take(all.len() as int) == escaped_keys(all));
    let keys = set_to_vec(&StringSet::from_vec(&ks));
    let ghost listing = listed(escaped_keys(all).to_set());
    let mut rows: Vec<String> = Vec::new();
    let mut j: usize = 0;
    assert(views(rows@) == Seq::<Seq<char>>::empty());
    while j < keys.len()
        invariant
            j <= keys@.len(),
            all == triple_views(ts@),
            views(keys@) == listing,
            views(ks@) == escaped_keys(all),
            types@.len() == ts@.len(),
            forall|x: int| 0 <= x < ts@.len() ==> #[trigger] types@[x] == class_of(ts@[x].value@),
            views(rows@) == type_rows(all, listing, j as int),
        decreases keys@.len() - j,
    {
        let key: &str = keys[j].as_str();
        assert(listing[j as int] == key@);
        let ghost before = views(rows@);
        let mut n: usize = 0;
        assert(before + key_lines(all, key@, 0) == before);
        while n < 5
            invariant
                n <= 5,
                all == triple_views(ts@),
                views(ks@) == escaped_keys(all),
                types@.len() == ts@.len(),
                forall|x: int|
                    0 <= x < ts@.len() ==> #[trigger] types@[x] == class_of(ts@[x].value@),
                views(rows@) == before + key_lines(all, key@, n as int),
            decreases 5 - n,
        {
            let t = type_at(n);
            let us = sort_strings(&uuids_with(&ts, &ks, &types, key, t));
            assert(views(us@).len() == us@.len());
            if us.len() > 0 {
                let counted = crate::text::cat3(
                    dec_of(us.len() as u64).as_str(),
                    "\t",
                    join_with(&us, ",").as_str(),
                );
                let line = cat5(key, "\t", t.token(), "\t", counted.as_str());
                let ghost l = line@;
                push_string(&mut rows, line);
                assert(before + key_lines(all, key@, n as int).push(l) == (before + key_lines(
                    all,
                    key@,
                    n as int,
                )).push(l));
            }
            n += 1;
        }
        j += 1;
    }
    Ok(write_index(rows, dov_ts))
}

/// Law: the words for the types stand in alphabetical order.
pub proof fn law_token_order()
    ensures
        ordered(
            seq![
                token_text(KtType::Array),
                token_text(KtType::Boolean),
                token_text(KtType::Number),
                token_text(KtType::String),
                token_text(KtType::Timestamp),
            ],
        ),
{
    reveal_strlit("array");
    reveal_strlit("boolean");
    reveal_strlit("number");
    reveal_strlit("string");
    reveal_strlit("timestamp");
    let s = seq!["array"@, "boolean"@, "number"@, "string"@, "timestamp"@];
    assert forall|i: int, j: int| 0 <= i < j < s.len() implies str_lt(
        #[trigger] s[i],
        #[trigger] s[j],
    ) by {
        crate::text::lemma_lead_byte(s[i][0]);
        crate::text::lemma_lead_byte(s[j][0]);
        assert(encode_utf8(s[i]) == encode_scalar(s[i][0] as u32) + encode_utf8(s[i].drop_first()));
        assert(encode_utf8(s[j]) == encode_scalar(s[j][0] as u32) + encode_utf8(s[j].drop_first()));
        assert(encode_utf8(s[i])[0] == s[i][0] as u8);
        assert(encode_utf8(s[j])[0] == s[j][0] as u8);
    }
}

} // verus!
