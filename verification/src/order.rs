//! The numeric index: numbers in a form whose order as strings is their order as numbers.
//!
//! The form of a number that is not negative is `P`, the length of its integer part in four
//! digits, `_`, the integer part, and the fraction without its trailing zeros behind a dot. A
//! negative number has `N`, the same with each digit `d` exchanged for `9 - d`, and `~` at the end.
use crate::clock::{zero_pad, zero_padded};
use crate::dotsv::{DotsvFile, FileView};
use crate::error::{ErrorView, Result, TsdbError};
use crate::escape::{escape, escaped};
use crate::fields::{keys_of, StringMap};
use crate::index::{
    add_triple, collect_triples, flat_lines, index_text, push_flat_index, triple_views,
    triples_from, with_triple, write_index, Relation, Triple,
};
use crate::keytype::{digits_end, is_numeric_shape, numeric_shape, scan_digits};
use crate::paths::{companion, companion_path};
use crate::sorted::StringSet;
use crate::text::{cat2, cat4, chars_of, copy_of, str_eq, string_of, trim_end, trim_end_of, views};
use vstd::prelude::*;

verus! {

/// Whether a number is written with a minus sign.
pub open spec fn has_sign(s: Seq<char>) -> bool {
    s.len() > 0 && s[0] == '-'
}

/// A number without its sign.
pub open spec fn unsigned(s: Seq<char>) -> Seq<char> {
    if has_sign(s) {
        s.skip(1)
    } else {
        s
    }
}

/// The digits before the dot.
pub open spec fn int_part(s: Seq<char>) -> Seq<char> {
    let t = unsigned(s);
    t.take(digits_end(t, 0))
}

/// The digits behind the dot.
pub open spec fn frac_part(s: Seq<char>) -> Seq<char> {
    let t = unsigned(s);
    let d = digits_end(t, 0);
    if d < t.len() {
        t.skip(d + 1)
    } else {
        Seq::empty()
    }
}

/// The nine's complement of a digit.
pub open spec fn complement(c: char) -> char {
    ('9' as u32 - (c as u32 - '0' as u32)) as char
}

/// Each digit exchanged for its complement.
pub open spec fn complemented(s: Seq<char>) -> Seq<char> {
    Seq::new(s.len(), |i: int| complement(s[i]))
}

/// A fraction behind its dot, or nothing.
pub open spec fn dotted(f: Seq<char>) -> Seq<char> {
    if f.len() == 0 {
        Seq::empty()
    } else {
        "."@ + f
    }
}

/// The sortable form of a number; none for a string that is no number, or whose integer part has
/// more than 9999 digits.
pub open spec fn norm_of(s: Seq<char>) -> Option<Seq<char>> {
    let i = int_part(s);
    let f = trim_end(frac_part(s), '0');
    if !numeric_shape(s) {
        None
    } else if has_sign(s) && i == "0"@ && f.len() == 0 {
        Some("P0001_0"@)
    } else if i.len() > 9999 {
        None
    } else if !has_sign(s) {
        Some("P"@ + zero_padded(i.len(), 4) + "_"@ + i + dotted(f))
    } else {
        Some(
            "N"@ + complemented(zero_padded(i.len(), 4)) + "_"@ + complemented(i) + (dotted(
                complemented(f),
            ) + "~"@),
        )
    }
}

/// For each sortable form the relation of keys, values and identifiers.
pub type OrderRelation = Map<Seq<char>, Relation>;

/// The relation under a sortable form.
pub open spec fn under_norm(m: OrderRelation, n: Seq<char>) -> Relation {
    if m.contains_key(n) {
        m[n]
    } else {
        Map::empty()
    }
}

/// The numeric values of triples, by their sortable forms.
pub open spec fn order_of(ts: Seq<(Seq<char>, Seq<char>, Seq<char>)>) -> OrderRelation
    decreases ts.len(),
{
    if ts.len() == 0 {
        Map::empty()
    } else {
        let t = ts.last();
        let m = order_of(ts.drop_last());
        match norm_of(t.1) {
            Some(n) => m.insert(n, with_triple(under_norm(m, n), t.0, t.1, t.2)),
            None => m,
        }
    }
}

/// The lines of the first `n` sortable forms.
pub open spec fn order_rows(m: OrderRelation, n: int) -> Seq<Seq<char>>
    decreases n,
{
    if n <= 0 {
        Seq::empty()
    } else {
        let k = keys_of(m)[n - 1];
        order_rows(m, n - 1) + flat_lines(escaped(k) + "\t"@, m[k])
    }
}

/// The lines of the numeric index: sortable form, key, value and identifier.
pub open spec fn order_lines(m: OrderRelation) -> Seq<Seq<char>> {
    order_rows(m, keys_of(m).len() as int)
}

/// The text of the numeric index of a file, or why it cannot be made.
pub open spec fn ord_text(f: FileView, dov_ts: Seq<char>) -> core::result::Result<
    Seq<char>,
    ErrorView,
> {
    if f.pending.len() > 0 {
        Err(ErrorView::Other("generate_ord_ptv requires a fully compacted DotsvFile"@))
    } else {
        match triples_from(f.sorted, 0, true) {
            Err(e) => Err(e),
            Ok(ts) => Ok(index_text(order_lines(order_of(ts)), dov_ts)),
        }
    }
}

/// The path of the numeric index of a database file.
pub fn ord_ptv_path(dov_path: &str) -> (r: String)
    ensures
        r@ == companion(dov_path@, ".ord.ptv"@),
{
    companion_path(dov_path, ".ord.ptv")
}

/// Append the complements of digits.
fn push_complement(out: &mut String, s: &str)
    requires
        forall|i: int| 0 <= i < s@.len() ==> '0' <= #[trigger] s@[i] <= '9',
    ensures
        final(out)@ == old(out)@ + complemented(s@),
{
    let v = chars_of(s);
    let mut i: usize = 0;
    assert(old(out)@ + complemented(s@).take(0) == old(out)@);
    while i < v.len()
        invariant
            i <= v@.len(),
            v@ == s@,
            forall|k: int| 0 <= k < s@.len() ==> '0' <= #[trigger] s@[k] <= '9',
            out@ == old(out)@ + complemented(s@).take(i as int),
        decreases v@.len() - i,
    {
        let c = v[i];
        assert('0' <= s@[i as int] <= '9');
        let d: u8 = (57 - (c as u32 - 48)) as u8;
        let ghost before = out@;
        out.push(d as char);
        assert(d as char == complement(c));
        assert(complemented(s@).take(i + 1) == complemented(s@).take(i as int).push(
            complement(c),
        ));
        i += 1;
    }
    assert(complemented(s@).take(s@.len() as int) == complemented(s@));
}

proof fn lemma_trimmed_digits(f: Seq<char>)
    requires
        forall|i: int| 0 <= i < f.len() ==> '0' <= #[trigger] f[i] <= '9',
    ensures
        forall|i: int| 0 <= i < trim_end(f, '0').len() ==> '0' <= #[trigger] trim_end(f, '0')[i]
            <= '9',
        trim_end(f, '0').len() <= f.len(),
    decreases f.len(),
{
    if f.len() > 0 && f.last() == '0' {
        lemma_trimmed_digits(f.drop_last());
    }
}

proof fn lemma_padded_digits(n: nat)
    ensures
        forall|i: int| 0 <= i < zero_padded(n, 4).len() ==> '0' <= #[trigger] zero_padded(n, 4)[i]
            <= '9',
{
    crate::numorder::lemma_dec_digits(n);
}

/// The sortable form of a number.
pub fn encode_norm(s: &str) -> (r: Option<String>)
    ensures
        match r {
            Some(n) => norm_of(s@) == Some(n@),
            None => norm_of(s@) is None,
        },
{
    if !is_numeric_shape(s) {
        return None;
    }
    let all = chars_of(s);
    let negative = all.len() > 0 && all[0] == '-';
    let start: usize = if negative {
        1
    } else {
        0
    };
    let body = string_of(&all, start, all.len());
    assert(body@ == unsigned(s@));
    let v = chars_of(body.as_str());
    let d = scan_digits(&v, 0);
    let whole = string_of(&v, 0, d);
    assert(whole@ == int_part(s@));
    let raw_frac = if d < v.len() {
        let e = scan_digits(&v, d + 1);
        string_of(&v, d + 1, v.len())
    } else {
        String::new()
    };
    assert(raw_frac@ == frac_part(s@));
    assert forall|i: int| 0 <= i < raw_frac@.len() implies '0' <= #[trigger] raw_frac@[i] <= '9' by {
        assert(raw_frac@[i] == v@[d + 1 + i]);
    }
    assert forall|i: int| 0 <= i < whole@.len() implies '0' <= #[trigger] whole@[i] <= '9' by {
        assert(whole@[i] == v@[i]);
    }
    let frac = trim_end_of(raw_frac.as_str(), '0');
    proof {
        lemma_trimmed_digits(raw_frac@);
    }
    if negative && str_eq(whole.as_str(), "0") && frac.as_str().is_empty() {
        return Some(copy_of("P0001_0"));
    }
    if d > 9999 {
        return None;
    }
    let len = zero_pad(d as u64, 4);
    if !negative {
        let mut out = cat4("P", len.as_str(), "_", whole.as_str());
        if !frac.as_str().is_empty() {
            let tail = cat2(".", frac.as_str());
            out.push_str(tail.as_str());
        } else {
            assert(out@ + dotted(frac@) == out@);
        }
        Some(out)
    } else {
        proof {
            lemma_padded_digits(d as nat);
        }
        let mut out = copy_of("N");
        push_complement(&mut out, len.as_str());
        out.push_str("_");
        push_complement(&mut out, whole.as_str());
        let mut tail = String::new();
        if !frac.as_str().is_empty() {
            tail.push_str(".");
            push_complement(&mut tail, frac.as_str());
            assert(tail@ == "."@ + complemented(frac@));
        }
        assert(tail@ == dotted(complemented(frac@)));
        tail.push_str("~");
        out.push_str(tail.as_str());
        Some(out)
    }
}

/// The numeric values of triples, by their sortable forms.
fn order_triples(ts: &Vec<Triple>) -> (r: StringMap<StringMap<StringMap<StringSet>>>)
    ensures
        r@ == order_of(triple_views(ts@)),
{
    let mut m: StringMap<StringMap<StringMap<StringSet>>> = StringMap::new();
    let ghost all = triple_views(ts@);
    let mut i: usize = 0;
    while i < ts.len()
        invariant
            i <= ts@.len(),
            all == triple_views(ts@),
            m@ == order_of(all.take(i as int)),
        decreases ts@.len() - i,
    {
        let ghost t = all.take(i + 1);
        assert(t.drop_last() == all.take(i as int));
        assert(t.last() == ts@[i as int]@);
        let x: &Triple = &ts[i];
        if let Some(n) = encode_norm(x.value.as_str()) {
            let ghost before = m@;
            let mut inner = match m.take(n.as_str()) {
                Some(inner) => inner,
                None => StringMap::new(),
            };
            assert(inner@ == under_norm(before, n@));
            add_triple(&mut inner, x.key.as_str(), x.value.as_str(), x.uuid.as_str());
            let ghost new = inner@;
            let ghost nv = n@;
            m.insert(n, inner);
            assert(m@ =~= before.insert(nv, new));
        }
        i += 1;
    }
    assert(all.take(all.len() as int) == all);
    m
}

/// The text of the numeric index of a compacted file. `dov_ts` is the last line of the database
/// file.
pub fn generate_ord_ptv(db: &DotsvFile, dov_ts: &str) -> (r: Result<String>)
    ensures
        crate::error::outcome(r) == ord_text(db@, dov_ts@),
{
    if db.pending.len() > 0 {
        return Err(
            TsdbError::Other(copy_of("generate_ord_ptv requires a fully compacted DotsvFile")),
        );
    }
    let ts = match collect_triples(db, true) {
        Ok(ts) => ts,
        Err(e) => {
            return Err(e);
        },
    };
    let m = order_triples(&ts);
    let n: usize = m.len();
    let mut rows: Vec<String> = Vec::new();
    let mut i: usize = 0;
    assert(views(rows@) == Seq::<Seq<char>>::empty());
    while i < n
        invariant
            i <= n == keys_of(m@).len(),
            views(rows@) == order_rows(m@, i as int),
        decreases n - i,
    {
        let head = cat2(escape(m.key(i).as_str()).as_str(), "\t");
        push_flat_index(&mut rows, head.as_str(), m.value(i));
        i += 1;
    }
    Ok(write_index(rows, dov_ts))
}

} // verus!
