//! What holds of the flat and numeric index files and of the filters that read them.
use crate::base62::{is_uuid, lemma_uuid_plain};
use crate::database::{database, sound};
use crate::dotsv::FileView;
use crate::escape::{escaped, law_unescape_escape};
use crate::fields::keys_of;
use crate::filter::{op_needs_rows, NodeView, Op, PredicateView};
use crate::index::{
    flat_cell, flat_lines, flat_row, flat_rows, index_text, law_relation_members, related,
    relation_of, row_of, triples_from, uuids_from, Relation,
};
use crate::lookup::{
    filled_relation, filled_row, has_part, has_triple, is_comment, law_index_reads_back,
    law_relation_filled, law_triples, lemma_concat_contains, lemma_escaped_comment, lemma_has_part,
    lemma_matching, lemma_no_tab, lemma_universe, lemma_with_triple, parts_of, uuid_cell, uuid_triples,
    visible,
};
use crate::order::{norm_of, ord_text, order_lines, order_of, order_rows, under_norm, OrderRelation};
use crate::plane::ptv_texts;
use crate::query::{in_row, lenient, CriterionView, FilterMode};
use crate::relate::rtv_texts;
use crate::reload::{is_line, law_lines_unlines};
use crate::resolve::{
    all_set, any_set, filter_set, indexes_of, kv_rows_from, node_set, number_holds, number_matches, ord_rows_from,
    predicate_set, text_holds, text_matches, value_or_empty, with_number, IndexesView, OrdRowView,
};
use crate::sorted::{lemma_listed_finite, listed};
use crate::text::{join, lemma_split_append, lemma_split_single, lines, split};
use vstd::prelude::*;

verus! {

/// A line of a flat index.
pub open spec fn flat_line(head: Seq<char>, a: Seq<char>, b: Seq<char>, u: Seq<char>) -> Seq<char> {
    head + escaped(a) + "\t"@ + escaped(b) + "\t"@ + u
}

proof fn lemma_flat_cell(head: Seq<char>, us: Seq<Seq<char>>, n: int, line: Seq<char>)
    requires
        0 <= n <= us.len(),
    ensures
        flat_cell(head, us, n).contains(line) <==> exists|i: int|
            0 <= i < n && line == head + #[trigger] us[i],
    decreases n,
{
    if n > 0 {
        lemma_flat_cell(head, us, n - 1, line);
        let s = flat_cell(head, us, n - 1);
        let x = head + us[n - 1];
        assert(s.push(x) == s + seq![x]);
        lemma_concat_contains(s, seq![x], line);
        assert(seq![x].contains(line) <==> seq![x][0] == line);
        if exists|i: int| 0 <= i < n && line == head + #[trigger] us[i] {
            let i = choose|i: int| 0 <= i < n && line == head + #[trigger] us[i];
            if i < n - 1 {
                assert(0 <= i < n - 1 && line == head + us[i]);
            }
        }
    }
}

proof fn lemma_flat_row(head: Seq<char>, r: Map<Seq<char>, Set<Seq<char>>>, n: int, line: Seq<char>)
    requires
        filled_row(r),
        0 <= n <= keys_of(r).len(),
    ensures
        flat_row(head, r, n).contains(line) <==> exists|i: int, u: Seq<char>|
            0 <= i < n && #[trigger] r[keys_of(r)[i]].contains(u) && line == head + escaped(
                keys_of(r)[i],
            ) + "\t"@ + u,
    decreases n,
{
    if n > 0 {
        let ks = keys_of(r);
        lemma_listed_finite(r.dom());
        lemma_flat_row(head, r, n - 1, line);
        let b = ks[n - 1];
        assert(ks.to_set().contains(b));
        assert(r.contains_key(b));
        let c = r[b];
        let us = listed(c);
        let h = head + escaped(b) + "\t"@;
        lemma_listed_finite(c);
        lemma_flat_cell(h, us, us.len() as int, line);
        let s = flat_row(head, r, n - 1);
        let x = flat_cell(h, us, us.len() as int);
        lemma_concat_contains(s, x, line);
        if x.contains(line) {
            let j = choose|j: int| 0 <= j < us.len() && line == h + #[trigger] us[j];
            assert(us.to_set().contains(us[j]));
            assert(r[ks[n - 1]].contains(us[j]));
        }
        if exists|i: int, u: Seq<char>|
            0 <= i < n && #[trigger] r[ks[i]].contains(u) && line == head + escaped(ks[i]) + "\t"@ + u {
            let (i, u) = choose|i: int, u: Seq<char>|
                0 <= i < n && #[trigger] r[ks[i]].contains(u) && line == head + escaped(ks[i]) + "\t"@
                    + u;
            if i < n - 1 {
                assert(0 <= i < n - 1 && r[ks[i]].contains(u));
            } else {
                assert(us.to_set().contains(u));
                let j = choose|j: int| 0 <= j < us.len() && us[j] == u;
                assert(line == h + us[j]);
            }
        }
    }
}

proof fn lemma_flat_rows(head: Seq<char>, m: Relation, n: int, line: Seq<char>)
    requires
        filled_relation(m),
        0 <= n <= keys_of(m).len(),
    ensures
        flat_rows(head, m, n).contains(line) <==> exists|i: int, b: Seq<char>, u: Seq<char>|
            0 <= i < n && #[trigger] related(m, keys_of(m)[i], b, u) && line == flat_line(
                head,
                keys_of(m)[i],
                b,
                u,
            ),
    decreases n,
{
    if n > 0 {
        let ks = keys_of(m);
        lemma_listed_finite(m.dom());
        lemma_flat_rows(head, m, n - 1, line);
        let a = ks[n - 1];
        assert(ks.to_set().contains(a));
        assert(m.contains_key(a));
        let r = m[a];
        let rs = keys_of(r);
        let h = head + escaped(a) + "\t"@;
        lemma_listed_finite(r.dom());
        lemma_flat_row(h, r, rs.len() as int, line);
        let s = flat_rows(head, m, n - 1);
        let x = flat_row(h, r, rs.len() as int);
        lemma_concat_contains(s, x, line);
        if x.contains(line) {
            let (j, u) = choose|j: int, u: Seq<char>|
                0 <= j < rs.len() && #[trigger] r[rs[j]].contains(u) && line == h + escaped(rs[j])
                    + "\t"@ + u;
            assert(rs.to_set().contains(rs[j]));
            assert(related(m, ks[n - 1], rs[j], u));
        }
        if exists|i: int, b: Seq<char>, u: Seq<char>|
            0 <= i < n && #[trigger] related(m, ks[i], b, u) && line == flat_line(head, ks[i], b, u) {
            let (i, b, u) = choose|i: int, b: Seq<char>, u: Seq<char>|
                0 <= i < n && #[trigger] related(m, ks[i], b, u) && line == flat_line(
                    head,
                    ks[i],
                    b,
                    u,
                );
            if i < n - 1 {
                assert(0 <= i < n - 1 && related(m, ks[i], b, u));
            } else {
                assert(rs.to_set().contains(b));
                let j = choose|j: int| 0 <= j < rs.len() && rs[j] == b;
                assert(r[rs[j]].contains(u));
                assert(line == h + escaped(rs[j]) + "\t"@ + u);
            }
        }
    }
}

/// Law: the lines of a flat index are those of the strings that the relation holds for.
pub proof fn law_flat_lines(head: Seq<char>, m: Relation, line: Seq<char>)
    requires
        filled_relation(m),
    ensures
        flat_lines(head, m).contains(line) <==> exists|a: Seq<char>, b: Seq<char>, u: Seq<char>| #[trigger]
            related(m, a, b, u) && line == flat_line(head, a, b, u),
{
    let ks = keys_of(m);
    lemma_listed_finite(m.dom());
    lemma_flat_rows(head, m, ks.len() as int, line);
    if flat_lines(head, m).contains(line) {
        let (i, b, u) = choose|i: int, b: Seq<char>, u: Seq<char>|
            0 <= i < ks.len() && #[trigger] related(m, ks[i], b, u) && line == flat_line(
                head,
                ks[i],
                b,
                u,
            );
        assert(related(m, ks[i], b, u));
    }
    if exists|a: Seq<char>, b: Seq<char>, u: Seq<char>| #[trigger]
        related(m, a, b, u) && line == flat_line(head, a, b, u) {
        let (a, b, u) = choose|a: Seq<char>, b: Seq<char>, u: Seq<char>| #[trigger]
            related(m, a, b, u) && line == flat_line(head, a, b, u);
        assert(m.contains_key(a));
        assert(ks.to_set().contains(a));
        let i = choose|i: int| 0 <= i < ks.len() && ks[i] == a;
        assert(related(m, ks[i], b, u));
    }
}

/// What the three strings of a relation are.
proof fn lemma_related_uuid(m: Relation, a: Seq<char>, b: Seq<char>, u: Seq<char>)
    requires
        filled_relation(m),
        related(m, a, b, u),
    ensures
        is_uuid(u),
        m.contains_key(a),
{
    assert(filled_row(m[a]));
    assert(uuid_cell(m[a][b]));
}

/// The row that a line of the flat index says, if it says one.
spec fn kv_row_at(line: Seq<char>) -> Option<(Seq<char>, Seq<char>, Seq<char>)> {
    let cols = split(line, '\t');
    if line.len() == 0 || line[0] == '#' || cols.len() < 3 {
        None
    } else {
        Some((lenient(cols[0]), lenient(cols[1]), join(cols.skip(2), "\t"@)))
    }
}

proof fn lemma_kv_rows(ls: Seq<Seq<char>>, i: int, x: (Seq<char>, Seq<char>, Seq<char>))
    requires
        0 <= i <= ls.len(),
    ensures
        kv_rows_from(ls, i).contains(x) <==> exists|j: int|
            i <= j < ls.len() && kv_row_at(#[trigger] ls[j]) == Some(x),
    decreases ls.len() - i,
{
    if i < ls.len() {
        lemma_kv_rows(ls, i + 1, x);
        let rest = kv_rows_from(ls, i + 1);
        if kv_row_at(ls[i]) is Some {
            let one = seq![kv_row_at(ls[i])->0];
            assert(kv_rows_from(ls, i) == one + rest);
            lemma_concat_contains(one, rest, x);
            assert(one.contains(x) <==> one[0] == x);
        } else {
            assert(kv_rows_from(ls, i) == rest);
        }
        if exists|j: int| i <= j < ls.len() && kv_row_at(#[trigger] ls[j]) == Some(x) {
            let j = choose|j: int| i <= j < ls.len() && kv_row_at(#[trigger] ls[j]) == Some(x);
            if j > i {
                assert(i + 1 <= j < ls.len() && kv_row_at(ls[j]) == Some(x));
            }
        }
        if exists|j: int| i + 1 <= j < ls.len() && kv_row_at(#[trigger] ls[j]) == Some(x) {
            let j = choose|j: int| i + 1 <= j < ls.len() && kv_row_at(#[trigger] ls[j]) == Some(x);
            assert(i <= j < ls.len() && kv_row_at(ls[j]) == Some(x));
        }
    }
}

proof fn lemma_flat_line(a: Seq<char>, b: Seq<char>, u: Seq<char>)
    requires
        is_uuid(u),
    ensures
        is_line(flat_line(Seq::empty(), a, b, u)),
        kv_row_at(flat_line(Seq::empty(), a, b, u)) == if is_comment(a) {
            None
        } else {
            Some((a, b, u))
        },
{
    reveal_strlit("\t");
    let tab = seq!['\t'];
    assert("\t"@ == tab);
    let ea = escaped(a);
    let eb = escaped(b);
    let line = flat_line(Seq::empty(), a, b, u);
    lemma_no_tab(a);
    lemma_no_tab(b);
    lemma_uuid_plain(u);
    lemma_escaped_comment(a);
    lemma_split_single(ea, '\t');
    lemma_split_append(ea, '\t', eb);
    lemma_split_append(ea + tab + eb, '\t', u);
    let cols = split(line, '\t');
    assert(line == ea + tab + eb + tab + u);
    assert(cols == seq![ea].push(eb).push(u));
    assert(cols.skip(2) == seq![u]);
    assert(join(cols.skip(2), tab) == u);
    law_unescape_escape(a);
    law_unescape_escape(b);
    assert(line[0] == (if ea.len() > 0 {
        ea[0]
    } else {
        '\t'
    }));
    assert(line.last() == u.last());
    assert(!line.contains('\n')) by {
        if line.contains('\n') {
            let k = choose|k: int| 0 <= k < line.len() && line[k] == '\n';
            let p = ea.len() as int;
            let q = p + 1 + eb.len();
            if k < p {
                assert(ea[k] == '\n');
            } else if p < k < q {
                assert(eb[k - p - 1] == '\n');
            } else if k > q {
                assert(u[k - q - 1] == '\n');
            }
        }
    }
}

/// Law: a flat index is read back as the rows of the relation that it was made of. Rows whose
/// first string starts with `#` are lost: their lines look like comments.
pub proof fn law_flat_index_reads_back(
    m: Relation,
    foot: Seq<char>,
    a: Seq<char>,
    b: Seq<char>,
    u: Seq<char>,
)
    requires
        filled_relation(m),
        is_comment(foot),
        is_line(foot),
    ensures
        kv_rows_from(lines(index_text(flat_lines(Seq::empty(), m), foot)), 0).contains((a, b, u))
            <==> related(visible(m), a, b, u),
{
    let rows = flat_lines(Seq::empty(), m);
    let ls = rows.push(foot);
    assert forall|i: int| 0 <= i < ls.len() implies is_line(#[trigger] ls[i]) by {
        if i < rows.len() {
            assert(rows.contains(rows[i]));
            law_flat_lines(Seq::empty(), m, rows[i]);
            let (x, y, z) = choose|x: Seq<char>, y: Seq<char>, z: Seq<char>| #[trigger]
                related(m, x, y, z) && rows[i] == flat_line(Seq::empty(), x, y, z);
            lemma_related_uuid(m, x, y, z);
            lemma_flat_line(x, y, z);
        }
    }
    law_lines_unlines(ls);
    lemma_kv_rows(ls, 0, (a, b, u));
    if kv_rows_from(ls, 0).contains((a, b, u)) {
        let j = choose|j: int| 0 <= j < ls.len() && kv_row_at(#[trigger] ls[j]) == Some((a, b, u));
        if j < rows.len() {
            assert(rows.contains(rows[j]));
            law_flat_lines(Seq::empty(), m, rows[j]);
            let (x, y, z) = choose|x: Seq<char>, y: Seq<char>, z: Seq<char>| #[trigger]
                related(m, x, y, z) && rows[j] == flat_line(Seq::empty(), x, y, z);
            lemma_related_uuid(m, x, y, z);
            lemma_flat_line(x, y, z);
            assert(row_of(visible(m), a) == row_of(m, a));
        }
    }
    if related(visible(m), a, b, u) {
        assert(row_of(visible(m), a) == row_of(m, a));
        assert(related(m, a, b, u));
        lemma_related_uuid(m, a, b, u);
        lemma_flat_line(a, b, u);
        let line = flat_line(Seq::empty(), a, b, u);
        law_flat_lines(Seq::empty(), m, line);
        assert(rows.contains(line));
        let j = choose|j: int| 0 <= j < rows.len() && rows[j] == line;
        assert(ls[j] == line);
        assert(kv_row_at(ls[j]) == Some((a, b, u)));
    }
}

/// Whether a numeric relation is finite and each of its parts is.
pub open spec fn filled_order(m: OrderRelation) -> bool {
    &&& m.dom().finite()
    &&& forall|n: Seq<char>| #[trigger] m.contains_key(n) ==> filled_relation(m[n])
}

/// Whether a numeric relation holds for a sortable form and three strings.
pub open spec fn order_related(
    m: OrderRelation,
    n: Seq<char>,
    k: Seq<char>,
    v: Seq<char>,
    u: Seq<char>,
) -> bool {
    related(under_norm(m, n), k, v, u)
}

/// Law: the numeric relation of triples has exactly the triples whose value is a number, each under
/// the number's sortable form.
pub proof fn law_order_members(
    ts: Seq<(Seq<char>, Seq<char>, Seq<char>)>,
    n: Seq<char>,
    k: Seq<char>,
    v: Seq<char>,
    u: Seq<char>,
)
    requires
        uuid_triples(ts),
    ensures
        filled_order(order_of(ts)),
        order_related(order_of(ts), n, k, v, u) <==> ts.contains((k, v, u)) && norm_of(v) == Some(n),
    decreases ts.len(),
{
    if ts.len() > 0 {
        let d = ts.drop_last();
        let t = ts.last();
        assert(t == ts[ts.len() - 1]);
        assert forall|i: int| 0 <= i < d.len() implies is_uuid((#[trigger] d[i]).2) by {
            assert(d[i] == ts[i]);
        }
        law_order_members(d, n, k, v, u);
        let m = order_of(d);
        assert(ts == d + seq![t]);
        lemma_concat_contains(d, seq![t], (k, v, u));
        assert(seq![t].contains((k, v, u)) <==> seq![t][0] == (k, v, u));
        if let Some(x) = norm_of(t.1) {
            let r = under_norm(m, x);
            let m2 = order_of(ts);
            assert(filled_relation(r));
            lemma_with_triple(r, t.0, t.1, t.2);
            assert(m2.dom() =~= m.dom().insert(x));
        }
    } else {
        assert(order_of(ts).dom() =~= Set::<Seq<char>>::empty());
    }
}

/// The head of the lines under a sortable form.
spec fn norm_head(n: Seq<char>) -> Seq<char> {
    escaped(n) + "\t"@
}

proof fn lemma_order_rows(m: OrderRelation, n: int, line: Seq<char>)
    requires
        filled_order(m),
        0 <= n <= keys_of(m).len(),
    ensures
        order_rows(m, n).contains(line) <==> exists|i: int|
            0 <= i < n && flat_lines(norm_head(#[trigger] keys_of(m)[i]), m[keys_of(m)[i]]).contains(
                line,
            ),
    decreases n,
{
    if n > 0 {
        let ks = keys_of(m);
        lemma_order_rows(m, n - 1, line);
        let x = flat_lines(norm_head(ks[n - 1]), m[ks[n - 1]]);
        lemma_concat_contains(order_rows(m, n - 1), x, line);
        if exists|i: int|
            0 <= i < n && flat_lines(norm_head(#[trigger] ks[i]), m[ks[i]]).contains(line) {
            let i = choose|i: int|
                0 <= i < n && flat_lines(norm_head(#[trigger] ks[i]), m[ks[i]]).contains(line);
            if i < n - 1 {
                assert(0 <= i < n - 1 && flat_lines(norm_head(ks[i]), m[ks[i]]).contains(line));
            }
        }
        if exists|i: int|
            0 <= i < n - 1 && flat_lines(norm_head(#[trigger] ks[i]), m[ks[i]]).contains(line) {
            let i = choose|i: int|
                0 <= i < n - 1 && flat_lines(norm_head(#[trigger] ks[i]), m[ks[i]]).contains(line);
            assert(0 <= i < n && flat_lines(norm_head(ks[i]), m[ks[i]]).contains(line));
        }
    }
}

/// Law: the lines of a numeric index are those of the sortable forms and strings that the numeric
/// relation holds for.
pub proof fn law_order_lines(m: OrderRelation, line: Seq<char>)
    requires
        filled_order(m),
    ensures
        order_lines(m).contains(line) <==> exists|n: Seq<char>, k: Seq<char>, v: Seq<char>, u: Seq<char>| #[trigger]
            order_related(m, n, k, v, u) && line == flat_line(escaped(n) + "\t"@, k, v, u),
{
    let ks = keys_of(m);
    lemma_listed_finite(m.dom());
    lemma_order_rows(m, ks.len() as int, line);
    if order_lines(m).contains(line) {
        let i = choose|i: int|
            0 <= i < ks.len() && flat_lines(norm_head(#[trigger] ks[i]), m[ks[i]]).contains(line);
        let n = ks[i];
        assert(ks.to_set().contains(n));
        assert(m.contains_key(n));
        law_flat_lines(norm_head(n), m[n], line);
        let (k, v, u) = choose|k: Seq<char>, v: Seq<char>, u: Seq<char>| #[trigger]
            related(m[n], k, v, u) && line == flat_line(norm_head(n), k, v, u);
        assert(order_related(m, n, k, v, u));
    }
    if exists|n: Seq<char>, k: Seq<char>, v: Seq<char>, u: Seq<char>| #[trigger]
        order_related(m, n, k, v, u) && line == flat_line(escaped(n) + "\t"@, k, v, u) {
        let (n, k, v, u) = choose|n: Seq<char>, k: Seq<char>, v: Seq<char>, u: Seq<char>| #[trigger]
            order_related(m, n, k, v, u) && line == flat_line(escaped(n) + "\t"@, k, v, u);
        assert(m.contains_key(n));
        law_flat_lines(norm_head(n), m[n], line);
        assert(related(m[n], k, v, u));
        assert(ks.to_set().contains(n));
        let i = choose|i: int| 0 <= i < ks.len() && ks[i] == n;
        assert(flat_lines(norm_head(ks[i]), m[ks[i]]).contains(line));
    }
}

/// The row that a line of the numeric index says, if it says one.
spec fn ord_row_at(line: Seq<char>) -> Option<OrdRowView> {
    let cols = split(line, '\t');
    if line.len() == 0 || line[0] == '#' || cols.len() < 4 {
        None
    } else {
        Some(
            OrdRowView {
                norm: lenient(cols[0]),
                key: lenient(cols[1]),
                raw_value: lenient(cols[2]),
                uuid: join(cols.skip(3), "\t"@),
            },
        )
    }
}

proof fn lemma_ord_rows(ls: Seq<Seq<char>>, i: int, x: OrdRowView)
    requires
        0 <= i <= ls.len(),
    ensures
        ord_rows_from(ls, i).contains(x) <==> exists|j: int|
            i <= j < ls.len() && ord_row_at(#[trigger] ls[j]) == Some(x),
    decreases ls.len() - i,
{
    if i < ls.len() {
        lemma_ord_rows(ls, i + 1, x);
        let rest = ord_rows_from(ls, i + 1);
        if ord_row_at(ls[i]) is Some {
            let one = seq![ord_row_at(ls[i])->0];
            assert(ord_rows_from(ls, i) == one + rest);
            lemma_concat_contains(one, rest, x);
            assert(one.contains(x) <==> one[0] == x);
        } else {
            assert(ord_rows_from(ls, i) == rest);
        }
        if exists|j: int| i <= j < ls.len() && ord_row_at(#[trigger] ls[j]) == Some(x) {
            let j = choose|j: int| i <= j < ls.len() && ord_row_at(#[trigger] ls[j]) == Some(x);
            if j > i {
                assert(i + 1 <= j < ls.len() && ord_row_at(ls[j]) == Some(x));
            }
        }
        if exists|j: int| i + 1 <= j < ls.len() && ord_row_at(#[trigger] ls[j]) == Some(x) {
            let j = choose|j: int| i + 1 <= j < ls.len() && ord_row_at(#[trigger] ls[j]) == Some(x);
            assert(i <= j < ls.len() && ord_row_at(ls[j]) == Some(x));
        }
    }
}

/// A sortable form does not look like a comment.
proof fn lemma_norm_plain(v: Seq<char>)
    requires
        norm_of(v) is Some,
    ensures
        (norm_of(v)->0).len() > 0,
        !is_comment(norm_of(v)->0),
{
    reveal_strlit("P");
    reveal_strlit("N");
    reveal_strlit("P0001_0");
}

proof fn lemma_ord_line(n: Seq<char>, k: Seq<char>, v: Seq<char>, u: Seq<char>)
    requires
        is_uuid(u),
        !is_comment(n),
    ensures
        is_line(flat_line(escaped(n) + "\t"@, k, v, u)),
        ord_row_at(flat_line(escaped(n) + "\t"@, k, v, u)) == Some(
            OrdRowView { norm: n, key: k, raw_value: v, uuid: u },
        ),
{
    reveal_strlit("\t");
    let tab = seq!['\t'];
    assert("\t"@ == tab);
    let en = escaped(n);
    let ek = escaped(k);
    let ev = escaped(v);
    let line = flat_line(en + tab, k, v, u);
    lemma_no_tab(n);
    lemma_no_tab(k);
    lemma_no_tab(v);
    lemma_uuid_plain(u);
    lemma_escaped_comment(n);
    lemma_split_single(en, '\t');
    lemma_split_append(en, '\t', ek);
    lemma_split_append(en + tab + ek, '\t', ev);
    lemma_split_append(en + tab + ek + tab + ev, '\t', u);
    let cols = split(line, '\t');
    assert(line == en + tab + ek + tab + ev + tab + u);
    assert(cols == seq![en].push(ek).push(ev).push(u));
    assert(cols.skip(3) == seq![u]);
    assert(join(cols.skip(3), tab) == u);
    law_unescape_escape(n);
    law_unescape_escape(k);
    law_unescape_escape(v);
    assert(line[0] == (if en.len() > 0 {
        en[0]
    } else {
        '\t'
    }));
    assert(line.last() == u.last());
    assert(!line.contains('\n')) by {
        if line.contains('\n') {
            let i = choose|i: int| 0 <= i < line.len() && line[i] == '\n';
            let p = en.len() as int;
            let q = p + 1 + ek.len();
            let r = q + 1 + ev.len();
            if i < p {
                assert(en[i] == '\n');
            } else if p < i < q {
                assert(ek[i - p - 1] == '\n');
            } else if q < i < r {
                assert(ev[i - q - 1] == '\n');
            } else if i > r {
                assert(u[i - r - 1] == '\n');
            }
        }
    }
}

/// Law: a numeric index is read back as the rows of the triples whose value is a number.
pub proof fn law_numeric_index_reads_back(
    ts: Seq<(Seq<char>, Seq<char>, Seq<char>)>,
    foot: Seq<char>,
    x: OrdRowView,
)
    requires
        uuid_triples(ts),
        is_comment(foot),
        is_line(foot),
    ensures
        ord_rows_from(lines(index_text(order_lines(order_of(ts)), foot)), 0).contains(x)
            <==> ts.contains((x.key, x.raw_value, x.uuid)) && norm_of(x.raw_value) == Some(x.norm),
{
    let m = order_of(ts);
    let rows = order_lines(m);
    let ls = rows.push(foot);
    law_order_members(ts, x.norm, x.key, x.raw_value, x.uuid);
    assert forall|i: int| 0 <= i < rows.len() implies is_line(#[trigger] rows[i]) && exists|
        n: Seq<char>,
        k: Seq<char>,
        v: Seq<char>,
        u: Seq<char>,
    | #[trigger]
        order_related(m, n, k, v, u) && ord_row_at(rows[i]) == Some(
            OrdRowView { norm: n, key: k, raw_value: v, uuid: u },
        ) by {
        assert(rows.contains(rows[i]));
        law_order_lines(m, rows[i]);
        let (n, k, v, u) = choose|n: Seq<char>, k: Seq<char>, v: Seq<char>, u: Seq<char>| #[trigger]
            order_related(m, n, k, v, u) && rows[i] == flat_line(escaped(n) + "\t"@, k, v, u);
        law_order_members(ts, n, k, v, u);
        lemma_norm_plain(v);
        assert(m.contains_key(n));
        lemma_related_uuid(m[n], k, v, u);
        lemma_ord_line(n, k, v, u);
        assert(order_related(m, n, k, v, u));
    }
    assert forall|i: int| 0 <= i < ls.len() implies is_line(#[trigger] ls[i]) by {
        if i < rows.len() {
            assert(is_line(rows[i]));
        }
    }
    law_lines_unlines(ls);
    lemma_ord_rows(ls, 0, x);
    if ord_rows_from(ls, 0).contains(x) {
        let j = choose|j: int| 0 <= j < ls.len() && ord_row_at(#[trigger] ls[j]) == Some(x);
        if j < rows.len() {
            assert(rows[j] == ls[j]);
            assert(order_related(m, x.norm, x.key, x.raw_value, x.uuid));
        }
    }
    if order_related(m, x.norm, x.key, x.raw_value, x.uuid) {
        let line = flat_line(escaped(x.norm) + "\t"@, x.key, x.raw_value, x.uuid);
        lemma_norm_plain(x.raw_value);
        assert(m.contains_key(x.norm));
        lemma_related_uuid(m[x.norm], x.key, x.raw_value, x.uuid);
        lemma_ord_line(x.norm, x.key, x.raw_value, x.uuid);
        law_order_lines(m, line);
        assert(rows.contains(line));
        let j = choose|j: int| 0 <= j < rows.len() && rows[j] == line;
        assert(ls[j] == line);
        assert(ord_row_at(ls[j]) == Some(x));
    }
}

/// Whether some value that `r` has under the key stands for a string for which `op` holds.
pub open spec fn some_part(r: Map<Seq<char>, Seq<char>>, op: Op, k: Seq<char>, v: Seq<char>) -> bool {
    r.contains_key(k) && exists|e: Seq<char>| #[trigger]
        parts_of(r[k], true).contains(e) && text_holds(op, e, v)
}

/// Whether some value that `r` has under the key stands for a number.
pub open spec fn some_number(r: Map<Seq<char>, Seq<char>>, k: Seq<char>) -> bool {
    r.contains_key(k) && exists|e: Seq<char>| #[trigger]
        parts_of(r[k], true).contains(e) && norm_of(e) is Some
}

/// Whether some value that `r` has under the key stands for a number for which `op` holds.
pub open spec fn some_number_part(
    r: Map<Seq<char>, Seq<char>>,
    op: Op,
    k: Seq<char>,
    target: Seq<char>,
) -> bool {
    r.contains_key(k) && exists|e: Seq<char>| #[trigger]
        parts_of(r[k], true).contains(e) && (norm_of(e) matches Some(n) && number_holds(op, n, target))
}

/// Whether a record satisfies a predicate. The elements of an array count one by one.
pub open spec fn satisfies(r: Map<Seq<char>, Seq<char>>, p: PredicateView) -> bool {
    let v = value_or_empty(p);
    if p.op is Has {
        r.contains_key(p.key)
    } else if p.op is Nohas {
        !r.contains_key(p.key)
    } else if p.op is Eq {
        some_part(r, Op::Eq, p.key, v)
    } else if p.op is Ne {
        r.contains_key(p.key) && !some_part(r, Op::Eq, p.key, v)
    } else if op_needs_rows(p.op) {
        some_part(r, p.op, p.key, v)
    } else {
        norm_of(v) matches Some(target) && if p.op is Nne {
            some_number(r, p.key) && !some_number_part(r, Op::Neq, p.key, target)
        } else {
            some_number_part(r, p.op, p.key, target)
        }
    }
}

/// The indexes that the index files of a database say.
pub open spec fn file_indexes(f: FileView, foot: Seq<char>) -> IndexesView {
    let rtv = rtv_texts(f.sorted, foot)->Ok_0;
    let ptv = ptv_texts(f.sorted, foot)->Ok_0;
    indexes_of(rtv.0, rtv.2, Some(ptv.0), Some(ord_text(f, foot)->Ok_0))
}

proof fn lemma_text_matches(
    d: Map<Seq<char>, Map<Seq<char>, Seq<char>>>,
    rows: Seq<(Seq<char>, Seq<char>, Seq<char>)>,
    op: Op,
    k: Seq<char>,
    v: Seq<char>,
    u: Seq<char>,
)
    requires
        !is_comment(k),
        forall|e: Seq<char>| #[trigger] rows.contains((k, e, u)) <==> has_part(d, k, e, u, true),
    ensures
        text_matches(rows, op, k, v).contains(u) <==> d.contains_key(u) && some_part(d[u], op, k, v),
{
    if text_matches(rows, op, k, v).contains(u) {
        let i = choose|i: int|
            0 <= i < rows.len() && (#[trigger] rows[i]).0 == k && text_holds(op, rows[i].1, v)
                && rows[i].2 == u;
        let e = rows[i].1;
        assert(rows[i] == (k, e, u));
        assert(rows.contains((k, e, u)));
    }
    if d.contains_key(u) && some_part(d[u], op, k, v) {
        let e = choose|e: Seq<char>| #[trigger]
            parts_of(d[u][k], true).contains(e) && text_holds(op, e, v);
        assert(has_part(d, k, e, u, true));
        assert(rows.contains((k, e, u)));
        let i = choose|i: int| 0 <= i < rows.len() && rows[i] == (k, e, u);
        assert(rows[i].0 == k && text_holds(op, rows[i].1, v) && rows[i].2 == u);
    }
}

pub proof fn lemma_number_matches(
    d: Map<Seq<char>, Map<Seq<char>, Seq<char>>>,
    rows: Seq<OrdRowView>,
    op: Op,
    k: Seq<char>,
    target: Seq<char>,
    u: Seq<char>,
)
    requires
        forall|x: OrdRowView| #[trigger]
            rows.contains(x) <==> has_part(d, x.key, x.raw_value, x.uuid, true) && norm_of(
                x.raw_value,
            ) == Some(x.norm),
    ensures
        number_matches(rows, op, k, target).contains(u) <==> d.contains_key(u) && some_number_part(
            d[u],
            op,
            k,
            target,
        ),
        with_number(rows, k).contains(u) <==> d.contains_key(u) && some_number(d[u], k),
{
    if number_matches(rows, op, k, target).contains(u) {
        let i = choose|i: int|
            0 <= i < rows.len() && (#[trigger] rows[i]).key == k && number_holds(
                op,
                rows[i].norm,
                target,
            ) && rows[i].uuid == u;
        assert(rows.contains(rows[i]));
        assert(parts_of(d[u][k], true).contains(rows[i].raw_value));
    }
    if with_number(rows, k).contains(u) {
        let i = choose|i: int| 0 <= i < rows.len() && (#[trigger] rows[i]).key == k && rows[i].uuid == u;
        assert(rows.contains(rows[i]));
        assert(parts_of(d[u][k], true).contains(rows[i].raw_value));
    }
    if d.contains_key(u) && some_number_part(d[u], op, k, target) {
        let e = choose|e: Seq<char>| #[trigger]
            parts_of(d[u][k], true).contains(e) && (norm_of(e) matches Some(n) && number_holds(
                op,
                n,
                target,
            ));
        let x = OrdRowView { norm: norm_of(e)->0, key: k, raw_value: e, uuid: u };
        assert(rows.contains(x));
        let i = choose|i: int| 0 <= i < rows.len() && rows[i] == x;
        assert(rows[i].key == k && number_holds(op, rows[i].norm, target) && rows[i].uuid == u);
    }
    if d.contains_key(u) && some_number(d[u], k) {
        let e = choose|e: Seq<char>| #[trigger]
            parts_of(d[u][k], true).contains(e) && norm_of(e) is Some;
        let x = OrdRowView { norm: norm_of(e)->0, key: k, raw_value: e, uuid: u };
        assert(rows.contains(x));
        let i = choose|i: int| 0 <= i < rows.len() && rows[i] == x;
        assert(rows[i].key == k && rows[i].uuid == u);
    }
}

/// Law: a predicate on the index files of a compacted database finds exactly the records that
/// satisfy it. Left out are databases with a malformed array, of which no flat index can be made,
/// and keys that start with `#`.
pub proof fn law_predicate_finds_records(f: FileView, foot: Seq<char>, p: PredicateView, u: Seq<char>)
    requires
        sound(f),
        f.pending.len() == 0,
        triples_from(f.sorted, 0, true) is Ok,
        is_comment(foot),
        is_line(foot),
        !is_comment(p.key),
    ensures
        rtv_texts(f.sorted, foot) is Ok,
        ptv_texts(f.sorted, foot) is Ok,
        ord_text(f, foot) is Ok,
        predicate_set(p, file_indexes(f, foot)).contains(u) <==> database(f).contains_key(u)
            && satisfies(database(f)[u], p),
{
    let d = database(f);
    let k = p.key;
    let v = value_or_empty(p);
    law_triples(f, false);
    law_triples(f, true);
    let ts = triples_from(f.sorted, 0, false)->Ok_0;
    let ps = triples_from(f.sorted, 0, true)->Ok_0;
    let us = uuids_from(f.sorted, 0)->Ok_0;
    let idx = file_indexes(f, foot);
    assert forall|a: Seq<char>, b: Seq<char>, w: Seq<char>| #[trigger]
        ts.contains((a, b, w)) <==> has_triple(d, a, b, w) by {
        lemma_has_part(d, a, b, w);
    }
    law_relation_filled(ts, false);
    law_relation_filled(ps, false);
    law_index_reads_back(relation_of(ts, false), foot);
    lemma_matching(d, ts, CriterionView::Present(k), u);
    assert(in_row(idx.kv_rtv, k).contains(u) <==> d.contains_key(u) && d[u].contains_key(k));
    assert(d.dom().finite()) by {
        assert(us.to_set().finite());
    }
    let m = crate::compact::merged(f)->Ok_0;
    assert forall|w: Seq<char>| #[trigger] d.dom().contains(w) implies is_uuid(w) by {
        assert(m.live(w));
    }
    lemma_universe(d.dom(), foot);
    assert(idx.universe == d.dom());
    let rows = idx.kv_ptv->0;
    let kv = relation_of(ps, false);
    assert forall|e: Seq<char>| #[trigger] rows.contains((k, e, u)) <==> has_part(d, k, e, u, true) by {
        law_flat_index_reads_back(kv, foot, k, e, u);
        law_relation_members(ps, k, e, u);
        assert(row_of(visible(kv), k) == row_of(kv, k));
        assert(ps.contains((k, e, u)) <==> has_part(d, k, e, u, true));
    }
    lemma_text_matches(d, rows, p.op, k, v, u);
    lemma_text_matches(d, rows, Op::Eq, k, v, u);
    let ords = idx.ord_ptv->0;
    assert forall|x: OrdRowView| #[trigger]
        ords.contains(x) <==> has_part(d, x.key, x.raw_value, x.uuid, true) && norm_of(x.raw_value)
            == Some(x.norm) by {
        law_numeric_index_reads_back(ps, foot, x);
        assert(ps.contains((x.key, x.raw_value, x.uuid)) <==> has_part(
            d,
            x.key,
            x.raw_value,
            x.uuid,
            true,
        ));
    }
    if let Some(target) = norm_of(v) {
        lemma_number_matches(d, ords, p.op, k, target, u);
        lemma_number_matches(d, ords, Op::Neq, k, target, u);
    }
}

/// Whether a record satisfies an expression. `and` of nothing holds for every record, `or` for none.
pub open spec fn node_holds(n: NodeView, r: Map<Seq<char>, Seq<char>>) -> bool
    decreases n,
{
    match n {
        NodeView::Pred(p) => satisfies(r, p),
        NodeView::And(c) => all_hold(c, r),
        NodeView::Or(c) => any_holds(c, r),
    }
}

/// Whether a record satisfies all expressions.
pub open spec fn all_hold(s: Seq<NodeView>, r: Map<Seq<char>, Seq<char>>) -> bool
    decreases s,
{
    s.len() == 0 || (all_hold(s.drop_last(), r) && node_holds(s.last(), r))
}

/// Whether a record satisfies one of the expressions.
pub open spec fn any_holds(s: Seq<NodeView>, r: Map<Seq<char>, Seq<char>>) -> bool
    decreases s,
{
    s.len() > 0 && (any_holds(s.drop_last(), r) || node_holds(s.last(), r))
}

/// Whether no key of an expression starts with `#`.
pub open spec fn keys_askable(n: NodeView) -> bool
    decreases n,
{
    match n {
        NodeView::Pred(p) => !is_comment(p.key),
        NodeView::And(c) => all_askable(c),
        NodeView::Or(c) => all_askable(c),
    }
}

/// Whether no key of expressions starts with `#`.
pub open spec fn all_askable(s: Seq<NodeView>) -> bool
    decreases s,
{
    s.len() == 0 || (all_askable(s.drop_last()) && keys_askable(s.last()))
}

proof fn lemma_node_set(f: FileView, foot: Seq<char>, n: NodeView, u: Seq<char>)
    requires
        sound(f),
        f.pending.len() == 0,
        triples_from(f.sorted, 0, true) is Ok,
        is_comment(foot),
        is_line(foot),
        file_indexes(f, foot).universe == database(f).dom(),
        keys_askable(n),
    ensures
        node_set(n, file_indexes(f, foot)).contains(u) <==> database(f).contains_key(u) && node_holds(
            n,
            database(f)[u],
        ),
    decreases n,
{
    match n {
        NodeView::Pred(p) => law_predicate_finds_records(f, foot, p, u),
        NodeView::And(c) => lemma_all_any(f, foot, c, u),
        NodeView::Or(c) => lemma_all_any(f, foot, c, u),
    }
}

proof fn lemma_all_any(f: FileView, foot: Seq<char>, s: Seq<NodeView>, u: Seq<char>)
    requires
        sound(f),
        f.pending.len() == 0,
        triples_from(f.sorted, 0, true) is Ok,
        is_comment(foot),
        is_line(foot),
        file_indexes(f, foot).universe == database(f).dom(),
        all_askable(s),
    ensures
        any_set(s, file_indexes(f, foot)).contains(u) <==> database(f).contains_key(u) && any_holds(
            s,
            database(f)[u],
        ),
        s.len() > 0 ==> (all_set(s, file_indexes(f, foot)).contains(u) <==> database(f).contains_key(u)
            && all_hold(s, database(f)[u])),
    decreases s,
{
    if s.len() > 0 {
        lemma_all_any(f, foot, s.drop_last(), u);
        lemma_node_set(f, foot, s.last(), u);
        if s.len() == 1 {
            assert(s[0] == s.last());
            assert(all_hold(s.drop_last(), database(f)[u]));
        }
    }
}

/// Law: a filter on the index files of a compacted database finds exactly the records that satisfy
/// its expressions, one of them or all; a filter without expressions finds all records. Left out
/// are databases with a malformed array, of which no flat index can be made, and keys that start
/// with `#`.
pub proof fn law_filter_finds_records(
    f: FileView,
    foot: Seq<char>,
    mode: FilterMode,
    ns: Seq<NodeView>,
    u: Seq<char>,
)
    requires
        sound(f),
        f.pending.len() == 0,
        triples_from(f.sorted, 0, true) is Ok,
        is_comment(foot),
        is_line(foot),
        all_askable(ns),
    ensures
        filter_set(mode, ns, file_indexes(f, foot)).contains(u) <==> database(f).contains_key(u) && (
        ns.len() == 0 || if mode == FilterMode::Union {
            any_holds(ns, database(f)[u])
        } else {
            all_hold(ns, database(f)[u])
        }),
{
    let d = database(f);
    law_triples(f, false);
    let us = uuids_from(f.sorted, 0)->Ok_0;
    assert(d.dom().finite()) by {
        assert(us.to_set().finite());
    }
    let m = crate::compact::merged(f)->Ok_0;
    assert forall|w: Seq<char>| #[trigger] d.dom().contains(w) implies is_uuid(w) by {
        assert(m.live(w));
    }
    lemma_universe(d.dom(), foot);
    lemma_all_any(f, foot, ns, u);
}

} // verus!
