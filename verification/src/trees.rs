//! Filter expressions and their lines: what is written reads back, however deep and with whatever
//! comments between.
use crate::choosing::{
    is_word, law_predicate_line, lemma_modes_are_comments, lemma_tabbed, predicate_line,
};
use crate::error::ErrorView;
use crate::filter::{
    block_from, block_node, filter_from, lemma_block_end, op_text, opens_block, predicate_of, NodeView,
    Op, PredicateView,
};
use crate::query::{mode_of, FilterMode};
use crate::writing::{counts, is_closed_literal};
use vstd::prelude::*;

verus! {

/// The line of a predicate.
pub open spec fn written_predicate(p: PredicateView) -> Seq<char> {
    predicate_line(
        op_text(p.op),
        p.op,
        p.key,
        match p.value {
            Some(v) => v,
            None => Seq::empty(),
        },
    )
}

/// Whether a predicate can be written: it has a value exactly if its operator takes one, and the
/// value is not closed like an array or an object.
pub open spec fn writable_predicate(p: PredicateView) -> bool {
    if p.op == Op::Has || p.op == Op::Nohas {
        p.value is None
    } else {
        p.value is Some && !is_closed_literal(p.value->0)
    }
}

/// The lines of an expression.
pub open spec fn node_lines(n: NodeView) -> Seq<Seq<char>>
    decreases n,
{
    match n {
        NodeView::Pred(p) => seq![written_predicate(p)],
        NodeView::And(c) => seq!["and"@] + nodes_lines(c) + seq!["end"@],
        NodeView::Or(c) => seq!["or"@] + nodes_lines(c) + seq!["end"@],
    }
}

/// The lines of expressions.
pub open spec fn nodes_lines(s: Seq<NodeView>) -> Seq<Seq<char>>
    decreases s,
{
    if s.len() == 0 {
        Seq::empty()
    } else {
        node_lines(s[0]) + nodes_lines(s.subrange(1, s.len() as int))
    }
}

/// Whether the predicates of an expression can be written.
pub open spec fn writable_node(n: NodeView) -> bool
    decreases n,
{
    match n {
        NodeView::Pred(p) => writable_predicate(p),
        NodeView::And(c) => writable_nodes(c),
        NodeView::Or(c) => writable_nodes(c),
    }
}

/// Whether the predicates of expressions can be written.
pub open spec fn writable_nodes(s: Seq<NodeView>) -> bool
    decreases s,
{
    s.len() == 0 || (writable_node(s[0]) && writable_nodes(s.subrange(1, s.len() as int)))
}

/// Whether the blocks of an expression are nested at most `d` deep.
pub open spec fn node_fits(n: NodeView, d: int) -> bool
    decreases n,
{
    match n {
        NodeView::Pred(p) => true,
        NodeView::And(c) => d >= 1 && nodes_fit(c, d - 1),
        NodeView::Or(c) => d >= 1 && nodes_fit(c, d - 1),
    }
}

/// Whether the blocks of expressions are nested at most `d` deep.
pub open spec fn nodes_fit(s: Seq<NodeView>, d: int) -> bool
    decreases s,
{
    s.len() == 0 || (node_fits(s[0], d) && nodes_fit(s.subrange(1, s.len() as int), d))
}

/// Whether the lines `xs` stand in `ls` from `i` on.
spec fn stand_at(ls: Seq<Seq<char>>, i: int, xs: Seq<Seq<char>>) -> bool {
    0 <= i && i + xs.len() <= ls.len() && forall|k: int| i <= k < i + xs.len() ==> #[trigger] ls[k] == xs[k - i]
}

proof fn lemma_written(p: PredicateView, n: usize)
    requires
        writable_predicate(p),
    ensures
        predicate_of(written_predicate(p), n) == Ok::<PredicateView, ErrorView>(p),
        counts(written_predicate(p)),
        !opens_block(written_predicate(p)),
        written_predicate(p) != "end"@,
        mode_of(written_predicate(p)) is None,
{
    let v = match p.value {
        Some(v) => v,
        None => Seq::empty(),
    };
    assert(is_word(op_text(p.op), p.op));
    law_predicate_line(op_text(p.op), p.op, p.key, v, n);
    lemma_tabbed(written_predicate(p));
    lemma_modes_are_comments(written_predicate(p));
}

proof fn lemma_block_words()
    ensures
        counts("and"@),
        counts("or"@),
        counts("end"@),
        opens_block("and"@),
        opens_block("or"@),
        !opens_block("end"@),
        "and"@ != "or"@,
        "and"@ != "end"@,
        "or"@ != "end"@,
        mode_of("and"@) is None,
        mode_of("or"@) is None,
{
    reveal_strlit("and");
    reveal_strlit("or");
    reveal_strlit("end");
    assert("and"@.len() == 3 && "and"@[0] == 'a' && "or"@.len() == 2 && "or"@[0] == 'o');
    assert("end"@.len() == 3 && "end"@[0] == 'e');
    lemma_modes_are_comments("and"@);
    lemma_modes_are_comments("or"@);
}

/// What is said of one expression, by its kind.
proof fn lemma_first_unfolds(n: NodeView)
    ensures
        n matches NodeView::Pred(p) ==> node_lines(n) == seq![written_predicate(p)] && (writable_node(n)
            <==> writable_predicate(p)) && forall|d: int| #[trigger] node_fits(n, d),
        n matches NodeView::And(c) ==> node_lines(n) == seq!["and"@] + nodes_lines(c) + seq!["end"@] && (
        writable_node(n) <==> writable_nodes(c)) && forall|d: int| #[trigger]
            node_fits(n, d) <==> d >= 1 && nodes_fit(c, d - 1),
        n matches NodeView::Or(c) ==> node_lines(n) == seq!["or"@] + nodes_lines(c) + seq!["end"@] && (
        writable_node(n) <==> writable_nodes(c)) && forall|d: int| #[trigger]
            node_fits(n, d) <==> d >= 1 && nodes_fit(c, d - 1),
{
}

/// What a block and its rest are in lines.
proof fn lemma_parts_stand(ls: Seq<Seq<char>>, i: int, s: Seq<NodeView>)
    requires
        s.len() > 0,
        stand_at(ls, i, nodes_lines(s)),
    ensures
        stand_at(ls, i, node_lines(s[0])),
        stand_at(ls, i + node_lines(s[0]).len(), nodes_lines(s.subrange(1, s.len() as int))),
        nodes_lines(s).len() == node_lines(s[0]).len() + nodes_lines(
            s.subrange(1, s.len() as int),
        ).len(),
{
    let a = node_lines(s[0]);
    let b = nodes_lines(s.subrange(1, s.len() as int));
    let xs = nodes_lines(s);
    assert(xs == a + b);
    assert forall|k: int| i <= k < i + a.len() implies #[trigger] ls[k] == a[k - i] by {
        assert(ls[k] == xs[k - i]);
    }
    let m = i + a.len();
    assert forall|k: int| m <= k < m + b.len() implies #[trigger] ls[k] == b[k - m] by {
        assert(ls[k] == xs[k - i]);
    }
}

proof fn lemma_block_stands(ls: Seq<Seq<char>>, i: int, head: Seq<char>, c: Seq<NodeView>)
    requires
        stand_at(ls, i, seq![head] + nodes_lines(c) + seq!["end"@]),
    ensures
        ls[i] == head,
        stand_at(ls, i + 1, nodes_lines(c)),
        i + 1 + nodes_lines(c).len() < ls.len(),
        ls[i + 1 + nodes_lines(c).len()] == "end"@,
{
    let b = nodes_lines(c);
    let xs = seq![head] + b + seq!["end"@];
    assert(ls[i] == xs[0]);
    assert forall|k: int| i + 1 <= k < i + 1 + b.len() implies #[trigger] ls[k] == b[k - i - 1] by {
        assert(ls[k] == xs[k - i]);
    }
    let m = i + 1 + b.len();
    assert(ls[m] == xs[m - i]);
}

/// One more expression in front of those of a block.
spec fn in_front(
    n: NodeView,
    r: core::result::Result<(Seq<NodeView>, int), ErrorView>,
) -> core::result::Result<(Seq<NodeView>, int), ErrorView> {
    match r {
        Ok(p) => Ok((seq![n] + p.0, p.1)),
        Err(e) => Err(e),
    }
}

/// One more expression in front of those of a filter.
spec fn before(
    n: NodeView,
    r: core::result::Result<(FilterMode, Seq<NodeView>), ErrorView>,
) -> core::result::Result<(FilterMode, Seq<NodeView>), ErrorView> {
    match r {
        Ok(p) => Ok((p.0, seq![n] + p.1)),
        Err(e) => Err(e),
    }
}

proof fn lemma_block_reads(ls: Seq<Seq<char>>, i: int, start: int, depth: nat, s: Seq<NodeView>)
    requires
        1 <= depth <= 4,
        stand_at(ls, i, nodes_lines(s)),
        i + nodes_lines(s).len() < ls.len(),
        ls[i + nodes_lines(s).len()] == "end"@,
        writable_nodes(s),
    ensures
        nodes_fit(s, 4 - depth) ==> block_from(ls, i, start, depth) == Ok::<
            (Seq<NodeView>, int),
            ErrorView,
        >((s, i + nodes_lines(s).len())),
        !nodes_fit(s, 4 - depth) ==> block_from(ls, i, start, depth) is Err,
    decreases s,
{
    lemma_block_words();
    if s.len() == 0 {
        assert(s == Seq::<NodeView>::empty());
    } else {
        let rest = s.subrange(1, s.len() as int);
        let n = node_lines(s[0]).len();
        lemma_parts_stand(ls, i, s);
        lemma_block_reads(ls, i + n, start, depth, rest);
        assert(seq![s[0]] + rest == s);
        lemma_first_unfolds(s[0]);
        assert(writable_node(s[0]));
        assert(nodes_fit(s, 4 - depth) <==> node_fits(s[0], 4 - depth) && nodes_fit(rest, 4 - depth));
        let r = block_from(ls, i + n, start, depth);
        match s[0] {
            NodeView::Pred(p) => {
                lemma_written(p, (i + 1) as usize);
                assert(ls[i] == node_lines(s[0])[0]);
                assert(n == 1);
                assert(block_from(ls, i, start, depth) == in_front(s[0], r));
            },
            NodeView::And(c) => {
                lemma_block_stands(ls, i, "and"@, c);
                assert(n == nodes_lines(c).len() + 2);
                if depth < 4 {
                    lemma_block_reads(ls, i + 1, i, depth + 1, c);
                    assert(node_fits(s[0], 4 - depth) <==> nodes_fit(c, 4 - depth - 1));
                    if nodes_fit(c, 3 - depth) {
                        assert(block_node(ls[i], c) == s[0]);
                        assert(block_from(ls, i, start, depth) == in_front(s[0], r));
                    }
                }
            },
            NodeView::Or(c) => {
                lemma_block_stands(ls, i, "or"@, c);
                assert(n == nodes_lines(c).len() + 2);
                if depth < 4 {
                    lemma_block_reads(ls, i + 1, i, depth + 1, c);
                    assert(node_fits(s[0], 4 - depth) <==> nodes_fit(c, 4 - depth - 1));
                    if nodes_fit(c, 3 - depth) {
                        assert(block_node(ls[i], c) == s[0]);
                        assert(block_from(ls, i, start, depth) == in_front(s[0], r));
                    }
                }
            },
        }
    }
}

proof fn lemma_filter_reads(ls: Seq<Seq<char>>, i: int, s: Seq<NodeView>, begun: bool)
    requires
        stand_at(ls, i, nodes_lines(s)),
        i + nodes_lines(s).len() == ls.len(),
        writable_nodes(s),
    ensures
        nodes_fit(s, 4) ==> filter_from(ls, i, begun) == Ok::<(FilterMode, Seq<NodeView>), ErrorView>(
            (FilterMode::Intersect, s),
        ),
        !nodes_fit(s, 4) ==> filter_from(ls, i, begun) is Err,
    decreases s,
{
    lemma_block_words();
    if s.len() == 0 {
        assert(s == Seq::<NodeView>::empty());
    } else {
        let rest = s.subrange(1, s.len() as int);
        let n = node_lines(s[0]).len();
        lemma_parts_stand(ls, i, s);
        lemma_filter_reads(ls, i + n, rest, true);
        assert(seq![s[0]] + rest == s);
        lemma_first_unfolds(s[0]);
        assert(writable_node(s[0]));
        assert(nodes_fit(s, 4) <==> node_fits(s[0], 4) && nodes_fit(rest, 4));
        let r = filter_from(ls, i + n, true);
        match s[0] {
            NodeView::Pred(p) => {
                lemma_written(p, (i + 1) as usize);
                assert(ls[i] == node_lines(s[0])[0]);
                assert(n == 1);
                assert(filter_from(ls, i, begun) == before(s[0], r));
            },
            NodeView::And(c) => {
                lemma_block_stands(ls, i, "and"@, c);
                assert(n == nodes_lines(c).len() + 2);
                lemma_block_reads(ls, i + 1, i, 1, c);
                assert(node_fits(s[0], 4) <==> nodes_fit(c, 3));
                if nodes_fit(c, 3) {
                    assert(block_node(ls[i], c) == s[0]);
                    assert(filter_from(ls, i, begun) == before(s[0], r));
                }
            },
            NodeView::Or(c) => {
                lemma_block_stands(ls, i, "or"@, c);
                assert(n == nodes_lines(c).len() + 2);
                lemma_block_reads(ls, i + 1, i, 1, c);
                assert(node_fits(s[0], 4) <==> nodes_fit(c, 3));
                if nodes_fit(c, 3) {
                    assert(block_node(ls[i], c) == s[0]);
                    assert(filter_from(ls, i, begun) == before(s[0], r));
                }
            },
        }
    }
}

/// Law: a filter that is written line by line, with `and`, `or` and `end` around its blocks, reads
/// back as its expressions if its blocks are nested at most four deep, and is refused if they are
/// nested deeper. A mode line in front of them gives the mode; without one all must hold.
pub proof fn law_filter_reads_back(s: Seq<NodeView>)
    requires
        writable_nodes(s),
    ensures
        nodes_fit(s, 4) ==> filter_from(nodes_lines(s), 0, false) == Ok::<
            (FilterMode, Seq<NodeView>),
            ErrorView,
        >((FilterMode::Intersect, s)),
        nodes_fit(s, 4) ==> filter_from(seq!["# mode\tunion"@] + nodes_lines(s), 0, false) == Ok::<
            (FilterMode, Seq<NodeView>),
            ErrorView,
        >((FilterMode::Union, s)),
        nodes_fit(s, 4) ==> filter_from(seq!["# mode\tintersect"@] + nodes_lines(s), 0, false)
            == Ok::<(FilterMode, Seq<NodeView>), ErrorView>((FilterMode::Intersect, s)),
        !nodes_fit(s, 4) ==> filter_from(nodes_lines(s), 0, false) is Err,
{
    reveal_strlit("# mode\tunion");
    reveal_strlit("# mode\tintersect");
    assert("# mode\tunion"@.len() == 12 && "# mode\tintersect"@.len() == 16);
    let ls = nodes_lines(s);
    lemma_filter_reads(ls, 0, s, false);
    let us = seq!["# mode\tunion"@] + ls;
    assert forall|k: int| 1 <= k < 1 + ls.len() implies #[trigger] us[k] == ls[k - 1] by {}
    lemma_filter_reads(us, 1, s, true);
    assert(us[0] == "# mode\tunion"@);
    let ns = seq!["# mode\tintersect"@] + ls;
    assert forall|k: int| 1 <= k < 1 + ls.len() implies #[trigger] ns[k] == ls[k - 1] by {}
    lemma_filter_reads(ns, 1, s, true);
    assert(ns[0] == "# mode\tintersect"@);
}

/// Where place `x` is after a line was inserted at `j`.
spec fn moved(x: int, j: int) -> int {
    if x < j {
        x
    } else {
        x + 1
    }
}

proof fn lemma_predicate_number(line: Seq<char>, a: usize, b: usize)
    ensures
        predicate_of(line, a) is Ok ==> predicate_of(line, b) == predicate_of(line, a),
        predicate_of(line, a) is Err ==> predicate_of(line, b) is Err,
{
    reveal(predicate_of);
}

proof fn lemma_block_moved(
    ls: Seq<Seq<char>>,
    j: int,
    c: Seq<char>,
    i: int,
    start: int,
    depth: nat,
)
    requires
        0 <= j <= ls.len(),
        0 <= start < i <= ls.len(),
        c.len() == 0 || c[0] == '#',
    ensures
        match block_from(ls, i, start, depth) {
            Ok(p) => block_from(ls.insert(j, c), moved(i, j), moved(start, j), depth) == Ok::<
                (Seq<NodeView>, int),
                ErrorView,
            >((p.0, moved(p.1, j))),
            Err(e) => block_from(ls.insert(j, c), moved(i, j), moved(start, j), depth) is Err,
        },
        i == j ==> block_from(ls.insert(j, c), j, moved(start, j), depth) == block_from(
            ls.insert(j, c),
            j + 1,
            moved(start, j),
            depth,
        ),
    decreases ls.len() - i,
{
    let ts = ls.insert(j, c);
    assert(ts[j] == c);
    if i < ls.len() {
        assert(ts[moved(i, j)] == ls[i]);
        lemma_block_moved(ls, j, c, i + 1, start, depth);
        lemma_predicate_number(ls[i], (i + 1) as usize, (moved(i, j) + 1) as usize);
        if counts(ls[i]) && ls[i] != "end"@ && opens_block(ls[i]) && depth < 4 {
            lemma_block_moved(ls, j, c, i + 1, i, depth + 1);
            lemma_block_end(ls, i + 1, i, depth + 1);
            if let Ok(p) = block_from(ls, i + 1, i, depth + 1) {
                lemma_block_moved(ls, j, c, p.1 + 1, start, depth);
            }
        }
    }
}

proof fn lemma_filter_moved(ls: Seq<Seq<char>>, j: int, c: Seq<char>, i: int)
    requires
        0 <= j <= ls.len(),
        0 <= i <= ls.len(),
        c.len() == 0 || c[0] == '#',
    ensures
        match filter_from(ls, i, true) {
            Ok(q) => filter_from(ls.insert(j, c), moved(i, j), true) == Ok::<
                (FilterMode, Seq<NodeView>),
                ErrorView,
            >(q),
            Err(e) => filter_from(ls.insert(j, c), moved(i, j), true) is Err,
        },
        i == j ==> filter_from(ls.insert(j, c), j, true) == filter_from(
            ls.insert(j, c),
            j + 1,
            true,
        ),
    decreases ls.len() - i,
{
    let ts = ls.insert(j, c);
    assert(ts[j] == c);
    if i < ls.len() {
        assert(ts[moved(i, j)] == ls[i]);
        lemma_filter_moved(ls, j, c, i + 1);
        lemma_predicate_number(ls[i], (i + 1) as usize, (moved(i, j) + 1) as usize);
        if counts(ls[i]) && opens_block(ls[i]) {
            lemma_block_moved(ls, j, c, i + 1, i, 1);
            lemma_block_end(ls, i + 1, i, 1);
            if let Ok(p) = block_from(ls, i + 1, i, 1) {
                lemma_filter_moved(ls, j, c, p.1 + 1);
            }
        }
    }
}

proof fn lemma_filter_start(ls: Seq<Seq<char>>, j: int, c: Seq<char>, i: int, k: int)
    requires
        0 <= i <= k < j <= ls.len(),
        ls[k].len() > 0,
        c.len() == 0 || c[0] == '#',
    ensures
        match filter_from(ls, i, false) {
            Ok(q) => filter_from(ls.insert(j, c), i, false) == Ok::<
                (FilterMode, Seq<NodeView>),
                ErrorView,
            >(q),
            Err(e) => filter_from(ls.insert(j, c), i, false) is Err,
        },
    decreases ls.len() - i,
{
    let ts = ls.insert(j, c);
    assert(ts[i] == ls[i]);
    if ls[i].len() == 0 {
        lemma_filter_start(ls, j, c, i + 1, k);
    } else {
        lemma_filter_moved(ls, j, c, i + 1);
        lemma_predicate_number(ls[i], (i + 1) as usize, (i + 1) as usize);
        if counts(ls[i]) && opens_block(ls[i]) {
            lemma_block_moved(ls, j, c, i + 1, i, 1);
            lemma_block_end(ls, i + 1, i, 1);
            if let Ok(p) = block_from(ls, i + 1, i, 1) {
                lemma_filter_moved(ls, j, c, p.1 + 1);
            }
        }
    }
}

/// Law: a comment or a blank line behind the first line that is not blank changes neither the mode
/// nor the expressions of a filter, nor whether it is refused.
pub proof fn law_filter_comments(ls: Seq<Seq<char>>, j: int, c: Seq<char>, k: int)
    requires
        0 <= k < j <= ls.len(),
        ls[k].len() > 0,
        c.len() == 0 || c[0] == '#',
    ensures
        match filter_from(ls, 0, false) {
            Ok(q) => filter_from(ls.insert(j, c), 0, false) == Ok::<
                (FilterMode, Seq<NodeView>),
                ErrorView,
            >(q),
            Err(e) => filter_from(ls.insert(j, c), 0, false) is Err,
        },
{
    lemma_filter_start(ls, j, c, 0, k);
}

} // verus!
