//! What the index of types says.
use crate::compact::in_order;
use crate::database::{database, law_in_order_repeats, nondecreasing, sound};
use crate::dotsv::{unlines, FileView};
use crate::error::ErrorView;
use crate::escape::{escaped, law_unescape_escape};
use crate::index::triples_from;
use crate::keytype::{
    kt_text,
    all_types, class_of, escaped_keys, key_lines, law_token_order, token_text, type_line, type_lines,
    type_rows, typed_uuids, KtType,
};
use crate::lookup::{has_part, law_triples, parts_of};
use crate::sorted::{lemma_listed_finite, listed};
use crate::text::{dec, join, str_lt};
use vstd::prelude::*;

verus! {

/// A key, a value and the identifier of the record that has them.
pub type Held = (Seq<char>, Seq<char>, Seq<char>);

/// The word for a type.
pub open spec fn type_word(t: KtType) -> Seq<char> {
    match t {
        KtType::Array => seq!['a', 'r', 'r', 'a', 'y'],
        KtType::Boolean => seq!['b', 'o', 'o', 'l', 'e', 'a', 'n'],
        KtType::Number => seq!['n', 'u', 'm', 'b', 'e', 'r'],
        KtType::String => seq!['s', 't', 'r', 'i', 'n', 'g'],
        KtType::Timestamp => seq!['t', 'i', 'm', 'e', 's', 't', 'a', 'm', 'p'],
    }
}

/// Whether a key has a value of a type at place `i`.
pub open spec fn typed_at(ts: Seq<Held>, k: Seq<char>, t: KtType, i: int) -> bool {
    0 <= i < ts.len() && ts[i].0 == k && class_of(ts[i].1) == t
}

/// The places where a key has a value of a type, all of them and each once.
pub open spec fn typed_places(ts: Seq<Held>, k: Seq<char>, t: KtType, at: Seq<int>) -> bool {
    &&& forall|i: int| #[trigger] at.contains(i) <==> typed_at(ts, k, t, i)
    &&& at.no_duplicates()
}

/// The identifiers at places.
pub open spec fn identifiers_at(ts: Seq<Held>, at: Seq<int>) -> Seq<Seq<char>> {
    Seq::new(at.len(), |j: int| ts[at[j]].2)
}

/// A line that says a key, a type, how many values of that type the key has, and whose they are.
pub open spec fn says_type(
    ts: Seq<Held>,
    line: Seq<char>,
    p: (Seq<char>, KtType),
    at: Seq<int>,
    us: Seq<Seq<char>>,
) -> bool {
    &&& typed_places(ts, p.0, p.1, at)
    &&& at.len() > 0
    &&& nondecreasing(us)
    &&& us.to_multiset() == identifiers_at(ts, at).to_multiset()
    &&& line == escaped(p.0) + seq!['\t'] + type_word(p.1) + seq!['\t'] + dec(at.len()) + seq!['\t']
        + join(us, seq![','])
}

/// Whether a key and a type stand before others: by the written keys, then by the words.
pub open spec fn stands_before(p: (Seq<char>, KtType), q: (Seq<char>, KtType)) -> bool {
    str_lt(escaped(p.0), escaped(q.0)) || p.0 == q.0 && str_lt(type_word(p.1), type_word(q.1))
}

proof fn lemma_typed_places(ts: Seq<Held>, k: Seq<char>, t: KtType) -> (at: Seq<int>)
    ensures
        typed_places(ts, k, t, at),
        typed_uuids(ts, escaped(k), t) == identifiers_at(ts, at),
    decreases ts.len(),
{
    if ts.len() == 0 {
        assert(identifiers_at(ts, Seq::empty()) == typed_uuids(ts, escaped(k), t));
        Seq::empty()
    } else {
        let d = ts.drop_last();
        let last = ts.len() - 1;
        let at = lemma_typed_places(d, k, t);
        law_unescape_escape(k);
        law_unescape_escape(ts.last().0);
        assert forall|j: int| 0 <= j < at.len() implies 0 <= #[trigger] at[j] < last && ts[at[j]]
            == d[at[j]] by {
            assert(at.contains(at[j]));
            assert(typed_at(d, k, t, at[j]));
        }
        assert forall|i: int| #[trigger] at.contains(i) <==> typed_at(ts, k, t, i) && i < last by {
            assert(typed_at(d, k, t, i) <==> typed_at(ts, k, t, i) && i < last);
        }
        if typed_at(ts, k, t, last) {
            let more = at.push(last);
            assert(identifiers_at(ts, more) == identifiers_at(d, at).push(ts.last().2));
            assert forall|i: int| #[trigger] more.contains(i) <==> typed_at(ts, k, t, i) by {
                if more.contains(i) {
                    let j = choose|j: int| 0 <= j < more.len() && more[j] == i;
                    if j < at.len() {
                        assert(at[j] == i);
                        assert(at.contains(i));
                    }
                }
                if typed_at(ts, k, t, i) {
                    if i < last {
                        assert(at.contains(i));
                        let j = choose|j: int| 0 <= j < at.len() && at[j] == i;
                        assert(more[j] == i);
                    } else {
                        assert(more[at.len() as int] == i);
                    }
                }
            }
            more
        } else {
            assert(identifiers_at(ts, at) == identifiers_at(d, at));
            assert forall|i: int| #[trigger] at.contains(i) <==> typed_at(ts, k, t, i) by {}
            at
        }
    }
}

proof fn lemma_words_said()
    ensures
        forall|t: KtType| #[trigger] token_text(t) == type_word(t),
        forall|i: int, j: int|
            0 <= i < j < 5 ==> str_lt(
                type_word(#[trigger] all_types()[i]),
                type_word(#[trigger] all_types()[j]),
            ),
{
    reveal_strlit("array");
    reveal_strlit("boolean");
    reveal_strlit("number");
    reveal_strlit("string");
    reveal_strlit("timestamp");
    assert forall|t: KtType| #[trigger] token_text(t) == type_word(t) by {
        assert(token_text(t) =~= type_word(t));
    }
    law_token_order();
    let s = seq![
        token_text(KtType::Array),
        token_text(KtType::Boolean),
        token_text(KtType::Number),
        token_text(KtType::String),
        token_text(KtType::Timestamp),
    ];
    assert forall|i: int, j: int| 0 <= i < j < 5 implies str_lt(
        type_word(#[trigger] all_types()[i]),
        type_word(#[trigger] all_types()[j]),
    ) by {
        assert(str_lt(s[i], s[j]));
        assert(s[i] == token_text(all_types()[i]) && s[j] == token_text(all_types()[j]));
    }
}

proof fn lemma_place_of(t: KtType) -> (i: int)
    ensures
        0 <= i < 5,
        all_types()[i] == t,
{
    match t {
        KtType::Array => 0,
        KtType::Boolean => 1,
        KtType::Number => 2,
        KtType::String => 3,
        KtType::Timestamp => 4,
    }
}

/// A line that says a key and a type.
pub open spec fn line_says(ts: Seq<Held>, line: Seq<char>, p: (Seq<char>, KtType)) -> bool {
    exists|at: Seq<int>, us: Seq<Seq<char>>| #[trigger] says_type(ts, line, p, at, us)
}

/// Whether lines are those of the keys and types `ps`.
pub open spec fn lines_say(ts: Seq<Held>, ls: Seq<Seq<char>>, ps: Seq<(Seq<char>, KtType)>) -> bool {
    &&& ls.len() == ps.len()
    &&& forall|i: int| 0 <= i < ls.len() ==> line_says(ts, #[trigger] ls[i], ps[i])
    &&& forall|i: int, j: int|
        0 <= i < j < ps.len() ==> stands_before(#[trigger] ps[i], #[trigger] ps[j])
}

proof fn lemma_key_lines(ts: Seq<Held>, k: Seq<char>, n: int) -> (ps: Seq<(Seq<char>, KtType)>)
    requires
        0 <= n <= 5,
    ensures
        lines_say(ts, key_lines(ts, escaped(k), n), ps),
        forall|i: int|
            0 <= i < ps.len() ==> (#[trigger] ps[i]).0 == k && exists|m: int|
                0 <= m < n && ps[i].1 == #[trigger] all_types()[m],
        forall|m: int, i: int|
            0 <= m < n && #[trigger] typed_at(ts, k, all_types()[m], i) ==> ps.contains(
                (k, all_types()[m]),
            ),
    decreases n,
{
    if n == 0 {
        Seq::empty()
    } else {
        lemma_words_said();
        let ps = lemma_key_lines(ts, k, n - 1);
        let t = all_types()[n - 1];
        let at = lemma_typed_places(ts, k, t);
        let typed = typed_uuids(ts, escaped(k), t);
        let us = in_order(typed);
        law_in_order_repeats(typed);
        let d = key_lines(ts, escaped(k), n - 1);
        if us.len() == 0 {
            assert forall|m: int, i: int| 0 <= m < n && #[trigger] typed_at(ts, k, all_types()[m], i) implies ps.contains(
                (k, all_types()[m]),
            ) by {
                if m == n - 1 {
                    assert(at.contains(i));
                }
            }
            ps
        } else {
            let p = (k, t);
            let more = ps.push(p);
            let ls = d.push(type_line(escaped(k), t, us));
            reveal_strlit("\t");
            reveal_strlit(",");
            assert("\t"@ == seq!['\t'] && ","@ == seq![',']);
            assert(type_line(escaped(k), t, us) == escaped(k) + seq!['\t'] + type_word(t) + seq!['\t']
                + dec(at.len()) + seq!['\t'] + join(us, seq![',']));
            assert(says_type(ts, ls[d.len() as int], more[d.len() as int], at, us));
            assert(line_says(ts, ls[d.len() as int], more[d.len() as int]));
            assert forall|i: int| 0 <= i < ls.len() implies line_says(ts, #[trigger] ls[i], more[i]) by {
                if i < d.len() {
                    assert(ls[i] == d[i] && more[i] == ps[i]);
                }
            }
            assert forall|i: int, j: int| 0 <= i < j < more.len() implies stands_before(
                #[trigger] more[i],
                #[trigger] more[j],
            ) by {
                assert(more[i] == ps[i]);
                if j < ps.len() {
                    assert(more[j] == ps[j]);
                } else {
                    let m = choose|m: int| 0 <= m < n - 1 && ps[i].1 == #[trigger] all_types()[m];
                    assert(str_lt(type_word(all_types()[m]), type_word(all_types()[n - 1])));
                }
            }
            assert forall|i: int| 0 <= i < more.len() implies (#[trigger] more[i]).0 == k && exists|m: int|
                0 <= m < n && more[i].1 == #[trigger] all_types()[m] by {
                if i < ps.len() {
                    assert(more[i] == ps[i]);
                    let m = choose|m: int| 0 <= m < n - 1 && ps[i].1 == #[trigger] all_types()[m];
                    assert(0 <= m < n && more[i].1 == all_types()[m]);
                } else {
                    assert(more[i].1 == all_types()[n - 1]);
                }
            }
            assert forall|m: int, i: int| 0 <= m < n && #[trigger] typed_at(ts, k, all_types()[m], i) implies more.contains(
                (k, all_types()[m]),
            ) by {
                if m == n - 1 {
                    assert(more[ps.len() as int] == (k, all_types()[m]));
                } else {
                    let j = choose|j: int| 0 <= j < ps.len() && ps[j] == (k, all_types()[m]);
                    assert(more[j] == (k, all_types()[m]));
                }
            }
            more
        }
    }
}

/// Whether `e` is the written form of a key.
spec fn written_in(ts: Seq<Held>, e: Seq<char>) -> bool {
    exists|i: int| 0 <= i < ts.len() && e == escaped(#[trigger] ts[i].0)
}

/// Whether the written form of `k` is one of the first `n`.
spec fn among(ks: Seq<Seq<char>>, n: int, k: Seq<char>) -> bool {
    exists|m: int| 0 <= m < n && #[trigger] ks[m] == escaped(k)
}

proof fn lemma_type_rows(ts: Seq<Held>, ks: Seq<Seq<char>>, n: int) -> (ps: Seq<(Seq<char>, KtType)>)
    requires
        0 <= n <= ks.len(),
        crate::sorted::ordered(ks),
        forall|m: int| 0 <= m < ks.len() ==> written_in(ts, #[trigger] ks[m]),
    ensures
        lines_say(ts, type_rows(ts, ks, n), ps),
        forall|i: int| 0 <= i < ps.len() ==> among(ks, n, (#[trigger] ps[i]).0),
        forall|k: Seq<char>, t: KtType, i: int|
            among(ks, n, k) && #[trigger] typed_at(ts, k, t, i) ==> ps.contains((k, t)),
    decreases n,
{
    if n == 0 {
        Seq::empty()
    } else {
        let a = lemma_type_rows(ts, ks, n - 1);
        assert(written_in(ts, ks[n - 1]));
        let x = choose|i: int| 0 <= i < ts.len() && ks[n - 1] == escaped(#[trigger] ts[i].0);
        let k = ts[x].0;
        let b = lemma_key_lines(ts, k, 5);
        lemma_words_said();
        let la = type_rows(ts, ks, n - 1);
        let lb = key_lines(ts, ks[n - 1], 5);
        let ls = la + lb;
        let ps = a + b;
        assert forall|i: int| 0 <= i < ls.len() implies line_says(ts, #[trigger] ls[i], ps[i]) by {
            if i < la.len() {
                assert(ls[i] == la[i] && ps[i] == a[i]);
            } else {
                assert(ls[i] == lb[i - la.len()] && ps[i] == b[i - la.len()]);
            }
        }
        assert forall|i: int, j: int| 0 <= i < j < ps.len() implies stands_before(
            #[trigger] ps[i],
            #[trigger] ps[j],
        ) by {
            if j < a.len() {
                assert(ps[i] == a[i] && ps[j] == a[j]);
            } else if i >= a.len() {
                assert(ps[i] == b[i - a.len()] && ps[j] == b[j - a.len()]);
            } else {
                assert(ps[i] == a[i] && ps[j] == b[j - a.len()]);
                let m = choose|m: int| 0 <= m < n - 1 && #[trigger] ks[m] == escaped(a[i].0);
                assert(str_lt(ks[m], ks[n - 1]));
            }
        }
        assert forall|i: int| 0 <= i < ps.len() implies among(ks, n, (#[trigger] ps[i]).0) by {
            if i < a.len() {
                assert(ps[i] == a[i]);
                let m = choose|m: int| 0 <= m < n - 1 && #[trigger] ks[m] == escaped(a[i].0);
                assert(ks[m] == escaped(ps[i].0));
            } else {
                assert(ps[i] == b[i - a.len()]);
                assert(ks[n - 1] == escaped(ps[i].0));
            }
        }
        assert forall|q: Seq<char>, t: KtType, i: int|
            among(ks, n, q) && #[trigger] typed_at(ts, q, t, i) implies ps.contains((q, t)) by {
            let m = choose|m: int| 0 <= m < n && #[trigger] ks[m] == escaped(q);
            if m == n - 1 {
                law_unescape_escape(q);
                law_unescape_escape(k);
                assert(q == k);
                let r = lemma_place_of(t);
                assert(typed_at(ts, k, all_types()[r], i));
                let j = choose|j: int| 0 <= j < b.len() && b[j] == (k, t);
                assert(ps[a.len() + j] == (q, t));
            } else {
                assert(among(ks, n - 1, q));
                let j = choose|j: int| 0 <= j < a.len() && a[j] == (q, t);
                assert(ps[j] == (q, t));
            }
        }
        ps
    }
}

/// Law: the index of types has one line for each key and each type that a value of that key has, and no
/// other: the written key, the word of the type, how many values there are, and the identifiers of
/// their records in order, with commas between them. The lines stand in the order of the written keys,
/// and for one key in that of the words.
pub proof fn law_type_index(ts: Seq<Held>)
    ensures
        exists|ps: Seq<(Seq<char>, KtType)>| #[trigger]
            lines_say(ts, type_lines(ts), ps) && forall|k: Seq<char>, t: KtType, i: int| #[trigger]
                typed_at(ts, k, t, i) ==> ps.contains((k, t)),
{
    let es = escaped_keys(ts);
    let ks = listed(es.to_set());
    vstd::seq_lib::seq_to_set_is_finite(es);
    lemma_listed_finite(es.to_set());
    assert forall|m: int| 0 <= m < ks.len() implies written_in(ts, #[trigger] ks[m]) by {
        assert(ks.to_set().contains(ks[m]));
        assert(es.contains(ks[m]));
        let i = choose|i: int| 0 <= i < es.len() && es[i] == ks[m];
        assert(ks[m] == escaped(ts[i].0));
    }
    let ps = lemma_type_rows(ts, ks, ks.len() as int);
    assert forall|k: Seq<char>, t: KtType, i: int| #[trigger] typed_at(ts, k, t, i) implies ps.contains(
        (k, t),
    ) by {
        assert(es[i] == escaped(k));
        assert(es.to_set().contains(escaped(k)));
        assert(ks.contains(escaped(k)));
        let m = choose|m: int| 0 <= m < ks.len() && ks[m] == escaped(k);
        assert(among(ks, ks.len() as int, k));
    }
    assert(lines_say(ts, type_lines(ts), ps));
}

/// Whether lines are the index of types of the records of a database, whose keys and values are `ts`.
pub open spec fn indexes_types(
    f: FileView,
    ls: Seq<Seq<char>>,
    ts: Seq<Held>,
    ps: Seq<(Seq<char>, KtType)>,
) -> bool {
    &&& lines_say(ts, ls, ps)
    &&& forall|k: Seq<char>, t: KtType, i: int| #[trigger]
        typed_at(ts, k, t, i) ==> ps.contains((k, t))
    &&& forall|k: Seq<char>, v: Seq<char>, u: Seq<char>| #[trigger]
        ts.contains((k, v, u)) <==> database(f).contains_key(u) && database(f)[u].contains_key(k)
            && database(f)[u][k] == v
}

/// Law: the index of types of a compacted database is made of the lines for the keys and values of its
/// records, each with a line feed behind it, and of the last line of the database file.
pub proof fn law_type_index_of_database(f: FileView, foot: Seq<char>)
    requires
        sound(f),
        f.pending.len() == 0,
    ensures
        exists|ls: Seq<Seq<char>>, ts: Seq<Held>, ps: Seq<(Seq<char>, KtType)>| #[trigger]
            indexes_types(f, ls, ts, ps) && kt_text(f, foot) == Ok::<Seq<char>, ErrorView>(
                unlines(ls.push(foot)),
            ),
{
    law_triples(f, false);
    let ts = triples_from(f.sorted, 0, false)->Ok_0;
    law_type_index(ts);
    let ps = choose|ps: Seq<(Seq<char>, KtType)>| #[trigger]
        lines_say(ts, type_lines(ts), ps) && forall|k: Seq<char>, t: KtType, i: int| #[trigger]
            typed_at(ts, k, t, i) ==> ps.contains((k, t));
    assert forall|k: Seq<char>, v: Seq<char>, u: Seq<char>| #[trigger] ts.contains((k, v, u)) <==> database(
        f,
    ).contains_key(u) && database(f)[u].contains_key(k) && database(f)[u][k] == v by {
        assert(ts.contains((k, v, u)) <==> has_part(database(f), k, v, u, false));
        let x = database(f)[u][k];
        assert(parts_of(x, false) == seq![x]);
        assert(seq![x][0] == x);
    }
    assert(indexes_types(f, type_lines(ts), ts, ps));
}

} // verus!
