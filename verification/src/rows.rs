//! How the lines of the index files are ordered, and that none is missing and none comes twice.
use crate::database::{database, sound};
use crate::dotsv::{unlines, FileView};
use crate::escape::escaped;
use crate::fields::keys_of;
use crate::index::{
    flat_cell, flat_lines, flat_row, flat_rows, grouped_lines, grouped_row, grouped_rows,
    law_relation_members, related, relation_of, triples_from, uuids_from, Relation,
};
use crate::lookup::{
    filled_relation, filled_row, has_part, has_triple, law_relation_filled, law_triples, lemma_has_part,
    uuid_cell,
};
use crate::order::{norm_of, ord_text, order_lines, order_of, order_rows, OrderRelation};
use crate::plane::ptv_texts;
use crate::relate::rtv_texts;
use crate::selection::{filled_order, law_order_members, order_related};
use crate::sorted::{lemma_listed_finite, listed, ordered};
use crate::text::{join, str_lt};
use vstd::prelude::*;

verus! {

/// Whether two strings stand before two others.
pub open spec fn pair_before(p: (Seq<char>, Seq<char>), q: (Seq<char>, Seq<char>)) -> bool {
    str_lt(p.0, q.0) || p.0 == q.0 && str_lt(p.1, q.1)
}

/// Whether three strings stand before three others.
pub open spec fn triple_before(
    p: (Seq<char>, Seq<char>, Seq<char>),
    q: (Seq<char>, Seq<char>, Seq<char>),
) -> bool {
    str_lt(p.0, q.0) || p.0 == q.0 && (str_lt(p.1, q.1) || p.1 == q.1 && str_lt(p.2, q.2))
}

/// The line of two strings and the third ones that belong to them.
pub open spec fn lists(m: Relation, line: Seq<char>, p: (Seq<char>, Seq<char>), us: Seq<Seq<char>>) -> bool {
    &&& us.len() > 0
    &&& ordered(us)
    &&& forall|u: Seq<char>| #[trigger] us.contains(u) <==> related(m, p.0, p.1, u)
    &&& line == escaped(p.0) + seq!['\t'] + escaped(p.1) + seq!['\t'] + join(us, seq![','])
}

/// Whether a line lists the third strings of two strings.
pub open spec fn lists_some(m: Relation, line: Seq<char>, p: (Seq<char>, Seq<char>)) -> bool {
    exists|us: Seq<Seq<char>>| #[trigger] lists(m, line, p, us)
}

/// Whether lines are those of the pairs `ps`, in increasing order.
pub open spec fn grouped_as(m: Relation, ls: Seq<Seq<char>>, ps: Seq<(Seq<char>, Seq<char>)>) -> bool {
    &&& ls.len() == ps.len()
    &&& forall|i: int| 0 <= i < ls.len() ==> lists_some(m, #[trigger] ls[i], ps[i])
    &&& forall|i: int, j: int|
        0 <= i < j < ps.len() ==> pair_before(#[trigger] ps[i], #[trigger] ps[j])
}

proof fn lemma_place(s: Seq<Seq<char>>, x: Seq<char>) -> (k: int)
    requires
        s.contains(x),
    ensures
        0 <= k < s.len(),
        s[k] == x,
{
    choose|k: int| 0 <= k < s.len() && s[k] == x
}

proof fn lemma_grouped_row(a: Seq<char>, r: Map<Seq<char>, Set<Seq<char>>>, n: int)
    requires
        0 <= n <= keys_of(r).len(),
    ensures
        grouped_row(a, r, n).len() == n,
        forall|i: int|
            0 <= i < n ==> #[trigger] grouped_row(a, r, n)[i] == escaped(a) + "\t"@ + escaped(
                keys_of(r)[i],
            ) + "\t"@ + join(listed(r[keys_of(r)[i]]), ","@),
    decreases n,
{
    if n > 0 {
        lemma_grouped_row(a, r, n - 1);
    }
}

proof fn lemma_grouped_rows(m: Relation, n: int) -> (ps: Seq<(Seq<char>, Seq<char>)>)
    requires
        filled_relation(m),
        0 <= n <= keys_of(m).len(),
    ensures
        grouped_as(m, grouped_rows(m, n), ps),
        forall|i: int| 0 <= i < ps.len() ==> keys_of(m).take(n).contains((#[trigger] ps[i]).0),
        forall|a: Seq<char>, b: Seq<char>, u: Seq<char>| #[trigger]
            related(m, a, b, u) && keys_of(m).take(n).contains(a) ==> ps.contains((a, b)),
    decreases n,
{
    if n == 0 {
        Seq::empty()
    } else {
        reveal_strlit("\t");
        reveal_strlit(",");
        assert("\t"@ == seq!['\t'] && ","@ == seq![',']);
        let ks = keys_of(m);
        lemma_listed_finite(m.dom());
        let x = lemma_grouped_rows(m, n - 1);
        let a = ks[n - 1];
        assert(ks.to_set().contains(a));
        let r = m[a];
        assert(filled_row(r));
        lemma_listed_finite(r.dom());
        let bs = keys_of(r);
        let y = Seq::new(bs.len(), |i: int| (a, bs[i]));
        lemma_grouped_row(a, r, bs.len() as int);
        let lx = grouped_rows(m, n - 1);
        let ly = grouped_row(a, r, bs.len() as int);
        let ls = lx + ly;
        let ps = x + y;
        assert(ks.take(n) == ks.take(n - 1).push(a));
        assert forall|i: int| 0 <= i < ls.len() implies lists_some(m, #[trigger] ls[i], ps[i]) by {
            if i < lx.len() {
                assert(ls[i] == lx[i] && ps[i] == x[i]);
            } else {
                let b = bs[i - lx.len()];
                assert(ls[i] == ly[i - lx.len()] && ps[i] == (a, b));
                assert(bs.to_set().contains(b));
                let c = r[b];
                assert(uuid_cell(c));
                lemma_listed_finite(c);
                let us = listed(c);
                let u0 = choose|u: Seq<char>| c.contains(u);
                assert(us.to_set().contains(u0));
                assert forall|u: Seq<char>| #[trigger] us.contains(u) <==> related(m, a, b, u) by {
                    assert(us.to_set().contains(u) <==> c.contains(u));
                }
                assert(lists(m, ls[i], (a, b), us));
            }
        }
        assert forall|i: int, j: int| 0 <= i < j < ps.len() implies pair_before(
            #[trigger] ps[i],
            #[trigger] ps[j],
        ) by {
            if j < x.len() {
                assert(ps[i] == x[i] && ps[j] == x[j]);
            } else if i >= x.len() {
                assert(ps[i] == y[i - x.len()] && ps[j] == y[j - x.len()]);
                assert(str_lt(bs[i - x.len()], bs[j - x.len()]));
            } else {
                assert(ps[i] == x[i] && ps[j] == y[j - x.len()]);
                let k = lemma_place(ks.take(n - 1), x[i].0);
                assert(str_lt(ks[k], ks[n - 1]));
            }
        }
        assert forall|i: int| 0 <= i < ps.len() implies ks.take(n).contains((#[trigger] ps[i]).0) by {
            if i < x.len() {
                assert(ps[i] == x[i]);
                let k = lemma_place(ks.take(n - 1), x[i].0);
                assert(ks.take(n)[k] == ps[i].0);
            } else {
                assert(ps[i] == y[i - x.len()]);
                assert(ks.take(n)[n - 1] == ps[i].0);
            }
        }
        assert forall|q: Seq<char>, b: Seq<char>, u: Seq<char>| #[trigger]
            related(m, q, b, u) && ks.take(n).contains(q) implies ps.contains((q, b)) by {
            let k = lemma_place(ks.take(n), q);
            if k < n - 1 {
                assert(ks.take(n - 1)[k] == q);
                let j = choose|j: int| 0 <= j < x.len() && x[j] == (q, b);
                assert(ps[j] == (q, b));
            } else {
                assert(q == a);
                assert(r.contains_key(b));
                assert(bs.to_set().contains(b));
                let j = choose|j: int| 0 <= j < bs.len() && bs[j] == b;
                assert(ps[x.len() + j] == (q, b));
            }
        }
        ps
    }
}

/// Whether pairs are all those that a relation holds for.
pub open spec fn covers(m: Relation, ps: Seq<(Seq<char>, Seq<char>)>) -> bool {
    forall|a: Seq<char>, b: Seq<char>, u: Seq<char>| #[trigger]
        related(m, a, b, u) ==> ps.contains((a, b))
}

/// Whether lines are those of all pairs that a relation holds for.
pub open spec fn fully_grouped(m: Relation, ls: Seq<Seq<char>>) -> bool {
    exists|ps: Seq<(Seq<char>, Seq<char>)>| #[trigger] grouped_as(m, ls, ps) && covers(m, ps)
}

/// Law: an index with one line for each two strings has such a line for every two strings that the
/// relation holds for, and no other: both escaped, and the third strings in increasing order
/// with commas between them. The lines stand in increasing order of the first strings, and for one first
/// string in that of the second.
pub proof fn law_grouped_rows(m: Relation)
    requires
        filled_relation(m),
    ensures
        fully_grouped(m, grouped_lines(m)),
{
    let ks = keys_of(m);
    let n = ks.len() as int;
    lemma_listed_finite(m.dom());
    let ps = lemma_grouped_rows(m, n);
    assert(ks.take(n) == ks);
    assert forall|a: Seq<char>, b: Seq<char>, u: Seq<char>| #[trigger] related(m, a, b, u) implies ps.contains(
        (a, b),
    ) by {
        assert(m.contains_key(a));
        assert(ks.to_set().contains(a));
    }
    assert(grouped_as(m, grouped_lines(m), ps));
}

/// Three strings with a tab behind each of the first two, the first two escaped.
pub open spec fn in_columns(t: (Seq<char>, Seq<char>, Seq<char>)) -> Seq<char> {
    escaped(t.0) + seq!['\t'] + escaped(t.1) + seq!['\t'] + t.2
}

/// Whether lines are those of the triples `ts` behind `head`, in increasing order.
pub open spec fn flat_as(
    head: Seq<char>,
    ls: Seq<Seq<char>>,
    ts: Seq<(Seq<char>, Seq<char>, Seq<char>)>,
) -> bool {
    &&& ls.len() == ts.len()
    &&& forall|i: int| 0 <= i < ls.len() ==> #[trigger] ls[i] == head + in_columns(ts[i])
    &&& forall|i: int, j: int|
        0 <= i < j < ts.len() ==> triple_before(#[trigger] ts[i], #[trigger] ts[j])
}

proof fn lemma_flat_cell(h: Seq<char>, us: Seq<Seq<char>>, n: int)
    requires
        0 <= n <= us.len(),
    ensures
        flat_cell(h, us, n).len() == n,
        forall|i: int| 0 <= i < n ==> #[trigger] flat_cell(h, us, n)[i] == h + us[i],
    decreases n,
{
    if n > 0 {
        lemma_flat_cell(h, us, n - 1);
    }
}

/// Whether `u` belongs to a key among the first `n`.
spec fn in_rows(r: Map<Seq<char>, Set<Seq<char>>>, n: int, b: Seq<char>, u: Seq<char>) -> bool {
    keys_of(r).take(n).contains(b) && r[b].contains(u)
}

proof fn lemma_flat_row(head: Seq<char>, a: Seq<char>, r: Map<Seq<char>, Set<Seq<char>>>, n: int) -> (ts:
    Seq<(Seq<char>, Seq<char>, Seq<char>)>)
    requires
        filled_row(r),
        0 <= n <= keys_of(r).len(),
    ensures
        flat_as(head, flat_row(head + escaped(a) + "\t"@, r, n), ts),
        forall|i: int| 0 <= i < ts.len() ==> (#[trigger] ts[i]).0 == a && in_rows(r, n, ts[i].1, ts[i].2),
        forall|b: Seq<char>, u: Seq<char>| #[trigger] in_rows(r, n, b, u) ==> ts.contains((a, b, u)),
    decreases n,
{
    if n == 0 {
        Seq::empty()
    } else {
        reveal_strlit("\t");
        assert("\t"@ == seq!['\t']);
        let ks = keys_of(r);
        lemma_listed_finite(r.dom());
        let x = lemma_flat_row(head, a, r, n - 1);
        let b = ks[n - 1];
        assert(ks.to_set().contains(b));
        assert(uuid_cell(r[b]));
        lemma_listed_finite(r[b]);
        let us = listed(r[b]);
        let h = head + escaped(a) + "\t"@;
        lemma_flat_cell(h + escaped(b) + "\t"@, us, us.len() as int);
        let lx = flat_row(h, r, n - 1);
        let ly = flat_cell(h + escaped(b) + "\t"@, us, us.len() as int);
        let y = Seq::new(us.len(), |i: int| (a, b, us[i]));
        let ls = lx + ly;
        let ts = x + y;
        assert(ks.take(n) == ks.take(n - 1).push(b));
        assert forall|i: int| 0 <= i < ls.len() implies #[trigger] ls[i] == head + in_columns(ts[i]) by {
            if i < lx.len() {
                assert(ls[i] == lx[i] && ts[i] == x[i]);
            } else {
                let u = us[i - lx.len()];
                assert(ls[i] == ly[i - lx.len()] && ts[i] == (a, b, u));
                assert(ls[i] == h + escaped(b) + "\t"@ + u);
                assert(ls[i] == head + in_columns((a, b, u)));
            }
        }
        assert forall|i: int, j: int| 0 <= i < j < ts.len() implies triple_before(
            #[trigger] ts[i],
            #[trigger] ts[j],
        ) by {
            if j < x.len() {
                assert(ts[i] == x[i] && ts[j] == x[j]);
            } else if i >= x.len() {
                assert(ts[i] == y[i - x.len()] && ts[j] == y[j - x.len()]);
                assert(str_lt(us[i - x.len()], us[j - x.len()]));
            } else {
                assert(ts[i] == x[i] && ts[j] == y[j - x.len()]);
                assert(in_rows(r, n - 1, x[i].1, x[i].2));
                let k = lemma_place(ks.take(n - 1), x[i].1);
                assert(str_lt(ks[k], ks[n - 1]));
            }
        }
        assert forall|i: int| 0 <= i < ts.len() implies (#[trigger] ts[i]).0 == a && in_rows(
            r,
            n,
            ts[i].1,
            ts[i].2,
        ) by {
            if i < x.len() {
                assert(ts[i] == x[i]);
                let k = lemma_place(ks.take(n - 1), x[i].1);
                assert(ks.take(n)[k] == ts[i].1);
            } else {
                assert(ts[i] == y[i - x.len()]);
                assert(us.to_set().contains(us[i - x.len()]));
                assert(ks.take(n)[n - 1] == b);
            }
        }
        assert forall|q: Seq<char>, u: Seq<char>| #[trigger] in_rows(r, n, q, u) implies ts.contains(
            (a, q, u),
        ) by {
            let k = lemma_place(ks.take(n), q);
            if k < n - 1 {
                assert(ks.take(n - 1)[k] == q);
                assert(in_rows(r, n - 1, q, u));
                let j = choose|j: int| 0 <= j < x.len() && x[j] == (a, q, u);
                assert(ts[j] == (a, q, u));
            } else {
                assert(us.to_set().contains(u));
                let j = choose|j: int| 0 <= j < us.len() && us[j] == u;
                assert(ts[x.len() + j] == (a, q, u));
            }
        }
        ts
    }
}

proof fn lemma_flat_rows(head: Seq<char>, m: Relation, n: int) -> (ts: Seq<
    (Seq<char>, Seq<char>, Seq<char>),
>)
    requires
        filled_relation(m),
        0 <= n <= keys_of(m).len(),
    ensures
        flat_as(head, flat_rows(head, m, n), ts),
        forall|i: int|
            0 <= i < ts.len() ==> keys_of(m).take(n).contains((#[trigger] ts[i]).0) && related(
                m,
                ts[i].0,
                ts[i].1,
                ts[i].2,
            ),
        forall|a: Seq<char>, b: Seq<char>, u: Seq<char>| #[trigger]
            related(m, a, b, u) && keys_of(m).take(n).contains(a) ==> ts.contains((a, b, u)),
    decreases n,
{
    if n == 0 {
        Seq::empty()
    } else {
        let ks = keys_of(m);
        lemma_listed_finite(m.dom());
        let x = lemma_flat_rows(head, m, n - 1);
        let a = ks[n - 1];
        assert(ks.to_set().contains(a));
        let r = m[a];
        assert(filled_row(r));
        lemma_listed_finite(r.dom());
        let bs = keys_of(r);
        let bn = bs.len() as int;
        let y = lemma_flat_row(head, a, r, bn);
        assert(bs.take(bn) == bs);
        let lx = flat_rows(head, m, n - 1);
        let ly = flat_row(head + escaped(a) + "\t"@, r, bn);
        let ls = lx + ly;
        let ts = x + y;
        assert(ks.take(n) == ks.take(n - 1).push(a));
        assert forall|i: int| 0 <= i < ls.len() implies #[trigger] ls[i] == head + in_columns(ts[i]) by {
            if i < lx.len() {
                assert(ls[i] == lx[i] && ts[i] == x[i]);
            } else {
                assert(ls[i] == ly[i - lx.len()] && ts[i] == y[i - lx.len()]);
            }
        }
        assert forall|i: int, j: int| 0 <= i < j < ts.len() implies triple_before(
            #[trigger] ts[i],
            #[trigger] ts[j],
        ) by {
            if j < x.len() {
                assert(ts[i] == x[i] && ts[j] == x[j]);
            } else if i >= x.len() {
                assert(ts[i] == y[i - x.len()] && ts[j] == y[j - x.len()]);
            } else {
                assert(ts[i] == x[i] && ts[j] == y[j - x.len()]);
                let k = lemma_place(ks.take(n - 1), x[i].0);
                assert(str_lt(ks[k], ks[n - 1]));
            }
        }
        assert forall|i: int| 0 <= i < ts.len() implies ks.take(n).contains((#[trigger] ts[i]).0)
            && related(m, ts[i].0, ts[i].1, ts[i].2) by {
            if i < x.len() {
                assert(ts[i] == x[i]);
                let k = lemma_place(ks.take(n - 1), x[i].0);
                assert(ks.take(n)[k] == ts[i].0);
            } else {
                let t = y[i - x.len()];
                assert(ts[i] == t);
                assert(ks.take(n)[n - 1] == a);
                assert(in_rows(r, bn, t.1, t.2));
                assert(bs.to_set().contains(t.1));
            }
        }
        assert forall|q: Seq<char>, b: Seq<char>, u: Seq<char>| #[trigger]
            related(m, q, b, u) && ks.take(n).contains(q) implies ts.contains((q, b, u)) by {
            let k = lemma_place(ks.take(n), q);
            if k < n - 1 {
                assert(ks.take(n - 1)[k] == q);
                let j = choose|j: int| 0 <= j < x.len() && x[j] == (q, b, u);
                assert(ts[j] == (q, b, u));
            } else {
                assert(r.contains_key(b));
                assert(bs.to_set().contains(b));
                assert(in_rows(r, bn, b, u));
                let j = choose|j: int| 0 <= j < y.len() && y[j] == (a, b, u);
                assert(ts[x.len() + j] == (q, b, u));
            }
        }
        ts
    }
}

/// Whether triples are exactly those that a relation holds for.
pub open spec fn all_related(m: Relation, ts: Seq<(Seq<char>, Seq<char>, Seq<char>)>) -> bool {
    forall|a: Seq<char>, b: Seq<char>, u: Seq<char>| #[trigger]
        ts.contains((a, b, u)) <==> related(m, a, b, u)
}

/// Law: an index with one line for each three strings has such a line for exactly the strings that the
/// relation holds for, the first two escaped, and the lines stand in increasing order of the first
/// strings, then of the second and then of the third.
pub proof fn law_flat_rows(head: Seq<char>, m: Relation) -> (ts: Seq<(Seq<char>, Seq<char>, Seq<char>)>)
    requires
        filled_relation(m),
    ensures
        flat_as(head, flat_lines(head, m), ts),
        all_related(m, ts),
{
    let ks = keys_of(m);
    let n = ks.len() as int;
    lemma_listed_finite(m.dom());
    let ts = lemma_flat_rows(head, m, n);
    assert(ks.take(n) == ks);
    assert forall|a: Seq<char>, b: Seq<char>, u: Seq<char>| #[trigger]
        ts.contains((a, b, u)) <==> related(m, a, b, u) by {
        if ts.contains((a, b, u)) {
            let i = choose|i: int| 0 <= i < ts.len() && ts[i] == (a, b, u);
            assert(related(m, ts[i].0, ts[i].1, ts[i].2));
        }
        if related(m, a, b, u) {
            assert(m.contains_key(a));
            assert(ks.to_set().contains(a));
        }
    }
    ts
}

/// A line of the numeric index: a sortable form, a key, a value and an identifier.
pub struct Numbered {
    pub norm: Seq<char>,
    pub held: (Seq<char>, Seq<char>, Seq<char>),
}

/// Whether lines of the numeric index are those of `xs`, in increasing order of the sortable forms.
pub open spec fn numbered_as(ls: Seq<Seq<char>>, xs: Seq<Numbered>) -> bool {
    &&& ls.len() == xs.len()
    &&& forall|i: int|
        0 <= i < ls.len() ==> #[trigger] ls[i] == escaped(xs[i].norm) + seq!['\t'] + in_columns(xs[i].held)
    &&& forall|i: int, j: int|
        0 <= i < j < xs.len() ==> str_lt((#[trigger] xs[i]).norm, (#[trigger] xs[j]).norm) || xs[i].norm
            == xs[j].norm && triple_before(xs[i].held, xs[j].held)
}

proof fn lemma_order_rows(m: OrderRelation, n: int) -> (xs: Seq<Numbered>)
    requires
        filled_order(m),
        0 <= n <= keys_of(m).len(),
    ensures
        numbered_as(order_rows(m, n), xs),
        forall|i: int|
            0 <= i < xs.len() ==> keys_of(m).take(n).contains((#[trigger] xs[i]).norm) && order_related(
                m,
                xs[i].norm,
                xs[i].held.0,
                xs[i].held.1,
                xs[i].held.2,
            ),
        forall|x: Numbered| #[trigger]
            order_related(m, x.norm, x.held.0, x.held.1, x.held.2) && keys_of(m).take(n).contains(x.norm)
                ==> xs.contains(x),
    decreases n,
{
    if n == 0 {
        Seq::empty()
    } else {
        reveal_strlit("\t");
        assert("\t"@ == seq!['\t']);
        let ks = keys_of(m);
        lemma_listed_finite(m.dom());
        let x = lemma_order_rows(m, n - 1);
        let k = ks[n - 1];
        assert(ks.to_set().contains(k));
        assert(filled_relation(m[k]));
        let head = escaped(k) + "\t"@;
        let ts = law_flat_rows(head, m[k]);
        let y = Seq::new(ts.len(), |i: int| Numbered { norm: k, held: ts[i] });
        let lx = order_rows(m, n - 1);
        let ly = flat_lines(head, m[k]);
        let ls = lx + ly;
        let xs = x + y;
        assert(ks.take(n) == ks.take(n - 1).push(k));
        assert forall|i: int| 0 <= i < ls.len() implies #[trigger] ls[i] == escaped(xs[i].norm)
            + seq!['\t'] + in_columns(xs[i].held) by {
            if i < lx.len() {
                assert(ls[i] == lx[i] && xs[i] == x[i]);
            } else {
                assert(ls[i] == ly[i - lx.len()] && xs[i] == y[i - lx.len()]);
            }
        }
        assert forall|i: int, j: int| 0 <= i < j < xs.len() implies str_lt(
            (#[trigger] xs[i]).norm,
            (#[trigger] xs[j]).norm,
        ) || xs[i].norm == xs[j].norm && triple_before(xs[i].held, xs[j].held) by {
            if j < x.len() {
                assert(xs[i] == x[i] && xs[j] == x[j]);
            } else if i >= x.len() {
                assert(xs[i] == y[i - x.len()] && xs[j] == y[j - x.len()]);
                assert(triple_before(ts[i - x.len()], ts[j - x.len()]));
            } else {
                assert(xs[i] == x[i] && xs[j] == y[j - x.len()]);
                let q = lemma_place(ks.take(n - 1), x[i].norm);
                assert(str_lt(ks[q], ks[n - 1]));
            }
        }
        assert forall|i: int| 0 <= i < xs.len() implies ks.take(n).contains((#[trigger] xs[i]).norm)
            && order_related(m, xs[i].norm, xs[i].held.0, xs[i].held.1, xs[i].held.2) by {
            if i < x.len() {
                assert(xs[i] == x[i]);
                let q = lemma_place(ks.take(n - 1), x[i].norm);
                assert(ks.take(n)[q] == xs[i].norm);
            } else {
                let t = ts[i - x.len()];
                assert(xs[i] == y[i - x.len()]);
                assert(ks.take(n)[n - 1] == k);
                assert(ts.contains((t.0, t.1, t.2)));
            }
        }
        assert forall|z: Numbered| #[trigger]
            order_related(m, z.norm, z.held.0, z.held.1, z.held.2) && ks.take(n).contains(z.norm) implies xs.contains(
            z,
        ) by {
            let q = lemma_place(ks.take(n), z.norm);
            if q < n - 1 {
                assert(ks.take(n - 1)[q] == z.norm);
                let j = choose|j: int| 0 <= j < x.len() && x[j] == z;
                assert(xs[j] == z);
            } else {
                assert(related(m[k], z.held.0, z.held.1, z.held.2));
                assert(ts.contains((z.held.0, z.held.1, z.held.2)));
                let j = choose|j: int| 0 <= j < ts.len() && ts[j] == (z.held.0, z.held.1, z.held.2);
                assert(y[j] == z);
                assert(xs[x.len() + j] == z);
            }
        }
        xs
    }
}

/// Law: the numeric index has one line for each key, value and identifier whose value is a number, and no
/// other: the sortable form of the number, the key, the value and the identifier. The lines stand
/// in increasing order of the sortable forms, then of the keys, values and identifiers.
pub proof fn law_numeric_rows(ts: Seq<(Seq<char>, Seq<char>, Seq<char>)>) -> (xs: Seq<Numbered>)
    requires
        crate::lookup::uuid_triples(ts),
    ensures
        numbered_as(order_lines(order_of(ts)), xs),
        forall|x: Numbered| #[trigger]
            xs.contains(x) <==> ts.contains(x.held) && norm_of(x.held.1) == Some(x.norm),
{
    let m = order_of(ts);
    let e = Seq::<char>::empty();
    law_order_members(ts, e, e, e, e);
    let ks = keys_of(m);
    let n = ks.len() as int;
    lemma_listed_finite(m.dom());
    let xs = lemma_order_rows(m, n);
    assert(ks.take(n) == ks);
    assert forall|x: Numbered| #[trigger] xs.contains(x) <==> ts.contains(x.held) && norm_of(x.held.1)
        == Some(x.norm) by {
        let t = x.held;
        law_order_members(ts, x.norm, t.0, t.1, t.2);
        assert(t == (t.0, t.1, t.2));
        if xs.contains(x) {
            let i = choose|i: int| 0 <= i < xs.len() && xs[i] == x;
            assert(order_related(m, xs[i].norm, xs[i].held.0, xs[i].held.1, xs[i].held.2));
        }
        if order_related(m, x.norm, t.0, t.1, t.2) {
            assert(m.contains_key(x.norm));
            assert(ks.to_set().contains(x.norm));
        }
    }
    xs
}

/// Whether a text is lines with a line feed behind each, and `foot` as the last of them.
pub open spec fn ends_with_foot(text: Seq<char>, ls: Seq<Seq<char>>, foot: Seq<char>) -> bool {
    text == unlines(ls.push(foot))
}

/// The texts of an index by keys, an index by values and a list of identifiers, with their lines.
pub struct IndexLines {
    pub kv: Seq<Seq<char>>,
    pub vk: Seq<Seq<char>>,
    pub uuids: Seq<Seq<char>>,
}

/// Law: the grouped indexes of a compacted database have a line for each key and value, or value and
/// key, that some record has, with the identifiers of all records that have both; the list of
/// identifiers has those of all records, in increasing order. Each ends with the last line of the database
/// file.
pub proof fn law_grouped_files(f: FileView, foot: Seq<char>) -> (x: (Relation, Relation, IndexLines))
    requires
        sound(f),
        f.pending.len() == 0,
    ensures
        rtv_texts(f.sorted, foot) matches Ok(t) && ends_with_foot(t.0, x.2.kv, foot) && ends_with_foot(
            t.1,
            x.2.vk,
            foot,
        ) && ends_with_foot(t.2, x.2.uuids, foot),
        fully_grouped(x.0, x.2.kv),
        fully_grouped(x.1, x.2.vk),
        forall|k: Seq<char>, v: Seq<char>, u: Seq<char>| #[trigger]
            related(x.0, k, v, u) <==> has_triple(database(f), k, v, u),
        forall|k: Seq<char>, v: Seq<char>, u: Seq<char>| #[trigger]
            related(x.1, v, k, u) <==> has_triple(database(f), k, v, u),
        ordered(x.2.uuids),
        x.2.uuids.to_set() == database(f).dom(),
{
    law_triples(f, false);
    let ts = triples_from(f.sorted, 0, false)->Ok_0;
    let us = uuids_from(f.sorted, 0)->Ok_0;
    let kv = relation_of(ts, false);
    let vk = relation_of(ts, true);
    law_relation_filled(ts, false);
    law_relation_filled(ts, true);
    law_grouped_rows(kv);
    law_grouped_rows(vk);
    assert forall|k: Seq<char>, v: Seq<char>, u: Seq<char>| #[trigger]
        related(kv, k, v, u) <==> has_triple(database(f), k, v, u) by {
        law_relation_members(ts, k, v, u);
        lemma_has_part(database(f), k, v, u);
        assert(ts.contains((k, v, u)) <==> has_part(database(f), k, v, u, false));
    }
    assert forall|k: Seq<char>, v: Seq<char>, u: Seq<char>| #[trigger]
        related(vk, v, k, u) <==> has_triple(database(f), k, v, u) by {
        law_relation_members(ts, k, v, u);
        lemma_has_part(database(f), k, v, u);
        assert(ts.contains((k, v, u)) <==> has_part(database(f), k, v, u, false));
    }
    vstd::seq_lib::seq_to_set_is_finite(us);
    lemma_listed_finite(us.to_set());
    (kv, vk, IndexLines { kv: grouped_lines(kv), vk: grouped_lines(vk), uuids: listed(us.to_set()) })
}

/// Law: the flat indexes of a compacted database have a line for each key, value and identifier of its
/// records, and no other, where an array counts as its elements; the numeric index those whose value is a
/// number. Each ends with the last line of the database file. Left out are databases with a
/// malformed array.
pub proof fn law_flat_files(f: FileView, foot: Seq<char>) -> (x: (
    Seq<(Seq<char>, Seq<char>, Seq<char>)>,
    Seq<(Seq<char>, Seq<char>, Seq<char>)>,
    Seq<Numbered>,
    IndexLines,
    Seq<Seq<char>>,
))
    requires
        sound(f),
        f.pending.len() == 0,
        triples_from(f.sorted, 0, true) is Ok,
    ensures
        ptv_texts(f.sorted, foot) matches Ok(t) && ends_with_foot(t.0, x.3.kv, foot) && ends_with_foot(
            t.1,
            x.3.vk,
            foot,
        ) && ends_with_foot(t.2, x.3.uuids, foot),
        ord_text(f, foot) matches Ok(t) && ends_with_foot(t, x.4, foot),
        flat_as(Seq::empty(), x.3.kv, x.0),
        flat_as(Seq::empty(), x.3.vk, x.1),
        numbered_as(x.4, x.2),
        forall|k: Seq<char>, v: Seq<char>, u: Seq<char>| #[trigger]
            x.0.contains((k, v, u)) <==> has_part(database(f), k, v, u, true),
        forall|k: Seq<char>, v: Seq<char>, u: Seq<char>| #[trigger]
            x.1.contains((v, k, u)) <==> has_part(database(f), k, v, u, true),
        forall|y: Numbered| #[trigger]
            x.2.contains(y) <==> has_part(database(f), y.held.0, y.held.1, y.held.2, true) && norm_of(
                y.held.1,
            ) == Some(y.norm),
        ordered(x.3.uuids),
        x.3.uuids.to_set() == database(f).dom(),
{
    law_triples(f, true);
    let ts = triples_from(f.sorted, 0, true)->Ok_0;
    let us = uuids_from(f.sorted, 0)->Ok_0;
    let kv = relation_of(ts, false);
    let vk = relation_of(ts, true);
    law_relation_filled(ts, false);
    law_relation_filled(ts, true);
    let e = Seq::<char>::empty();
    let a = law_flat_rows(e, kv);
    let b = law_flat_rows(e, vk);
    let c = law_numeric_rows(ts);
    assert forall|k: Seq<char>, v: Seq<char>, u: Seq<char>| #[trigger]
        a.contains((k, v, u)) <==> has_part(database(f), k, v, u, true) by {
        law_relation_members(ts, k, v, u);
        assert(ts.contains((k, v, u)) <==> has_part(database(f), k, v, u, true));
        assert(a.contains((k, v, u)) <==> related(kv, k, v, u));
    }
    assert forall|k: Seq<char>, v: Seq<char>, u: Seq<char>| #[trigger]
        b.contains((v, k, u)) <==> has_part(database(f), k, v, u, true) by {
        law_relation_members(ts, k, v, u);
        assert(ts.contains((k, v, u)) <==> has_part(database(f), k, v, u, true));
        assert(b.contains((v, k, u)) <==> related(vk, v, k, u));
    }
    assert forall|y: Numbered| #[trigger] c.contains(y) <==> has_part(
        database(f),
        y.held.0,
        y.held.1,
        y.held.2,
        true,
    ) && norm_of(y.held.1) == Some(y.norm) by {
        let t = y.held;
        assert(t == (t.0, t.1, t.2));
        assert(ts.contains((t.0, t.1, t.2)) <==> has_part(database(f), t.0, t.1, t.2, true));
    }
    vstd::seq_lib::seq_to_set_is_finite(us);
    lemma_listed_finite(us.to_set());
    let ls = IndexLines { kv: flat_lines(e, kv), vk: flat_lines(e, vk), uuids: listed(us.to_set()) };
    (a, b, c, ls, order_lines(order_of(ts)))
}

} // verus!
