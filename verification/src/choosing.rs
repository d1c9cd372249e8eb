//! What a filter file asks for, said by its lines.
use crate::database::{database, sound};
use crate::dotsv::{unlines, FileView};
use crate::error::ErrorView;
use crate::escape::{escaped, law_unescape_escape};
use crate::filter::{filter_from, op_of, opens_block, predicate_of, NodeView, Op, PredicateView};
use crate::index::triples_from;
use crate::lookup::{is_comment, lemma_no_tab, parts_of};
use crate::numorder::{law_norm_order, num_eq, num_lt};
use crate::order::norm_of;
use crate::query::{mode_of, FilterMode};
use crate::reload::{is_line, law_lines_unlines};
use crate::resolve::{filter_set, is_inside, number_holds, text_holds};
use crate::selection::{
    file_indexes, law_filter_finds_records, satisfies, some_number, some_number_part, some_part,
};
use crate::shapes::{is_decimal, law_sortable_exactly};
use crate::text::{join, lemma_split_append, lemma_split_single, lines, split, str_lt};
use crate::writing::{counts, is_closed_literal};
use vstd::prelude::*;

verus! {

/// Law: the word of each operator.
pub proof fn law_operator_words()
    ensures
        op_of("has"@) == Some(Op::Has),
        op_of("nohas"@) == Some(Op::Nohas),
        op_of("eq"@) == Some(Op::Eq),
        op_of("ne"@) == Some(Op::Ne),
        op_of("lt"@) == Some(Op::Lt),
        op_of("le"@) == Some(Op::Le),
        op_of("gt"@) == Some(Op::Gt),
        op_of("ge"@) == Some(Op::Ge),
        op_of("pre"@) == Some(Op::Pre),
        op_of("suf"@) == Some(Op::Suf),
        op_of("sub"@) == Some(Op::Sub),
        op_of("neq"@) == Some(Op::Neq),
        op_of("nne"@) == Some(Op::Nne),
        op_of("nlt"@) == Some(Op::Nlt),
        op_of("nle"@) == Some(Op::Nle),
        op_of("ngt"@) == Some(Op::Ngt),
        op_of("nge"@) == Some(Op::Nge),
{
    lemma_words();
    let words = seq![
        "has"@,
        "nohas"@,
        "eq"@,
        "ne"@,
        "lt"@,
        "le"@,
        "gt"@,
        "ge"@,
        "pre"@,
        "suf"@,
        "sub"@,
        "neq"@,
        "nne"@,
        "nlt"@,
        "nle"@,
        "ngt"@,
        "nge"@,
    ];
    assert forall|i: int, j: int| 0 <= i < words.len() && 0 <= j < words.len() && i != j implies (
    #[trigger] words[i]).len() != (#[trigger] words[j]).len() || words[i][0] != words[j][0]
        || words[i][1] != words[j][1] || words[i][words[i].len() - 1] != words[j][words[j].len() - 1] by {
    }
    assert forall|i: int, j: int| 0 <= i < words.len() && 0 <= j < words.len() && i != j implies (
    #[trigger] words[i]) != (#[trigger] words[j]) by {}
    assert(words[0] == "has"@ && words[1] == "nohas"@ && words[2] == "eq"@ && words[3] == "ne"@);
    assert(words[4] == "lt"@ && words[5] == "le"@ && words[6] == "gt"@ && words[7] == "ge"@);
    assert(words[8] == "pre"@ && words[9] == "suf"@ && words[10] == "sub"@ && words[11] == "neq"@);
    assert(words[12] == "nne"@ && words[13] == "nlt"@ && words[14] == "nle"@ && words[15] == "ngt"@);
    assert(words[16] == "nge"@);
}

/// The words, letter by letter.
proof fn lemma_words()
    ensures
        "has"@ == seq!['h', 'a', 's'],
        "nohas"@ == seq!['n', 'o', 'h', 'a', 's'],
        "eq"@ == seq!['e', 'q'],
        "ne"@ == seq!['n', 'e'],
        "lt"@ == seq!['l', 't'],
        "le"@ == seq!['l', 'e'],
        "gt"@ == seq!['g', 't'],
        "ge"@ == seq!['g', 'e'],
        "pre"@ == seq!['p', 'r', 'e'],
        "suf"@ == seq!['s', 'u', 'f'],
        "sub"@ == seq!['s', 'u', 'b'],
        "neq"@ == seq!['n', 'e', 'q'],
        "nne"@ == seq!['n', 'n', 'e'],
        "nlt"@ == seq!['n', 'l', 't'],
        "nle"@ == seq!['n', 'l', 'e'],
        "ngt"@ == seq!['n', 'g', 't'],
        "nge"@ == seq!['n', 'g', 'e'],
{
    reveal_strlit("has");
    reveal_strlit("nohas");
    reveal_strlit("eq");
    reveal_strlit("ne");
    reveal_strlit("lt");
    reveal_strlit("le");
    reveal_strlit("gt");
    reveal_strlit("ge");
    reveal_strlit("pre");
    reveal_strlit("suf");
    reveal_strlit("sub");
    reveal_strlit("neq");
    reveal_strlit("nne");
    reveal_strlit("nlt");
    reveal_strlit("nle");
    reveal_strlit("ngt");
    reveal_strlit("nge");
}

/// The word of an operator.
pub open spec fn is_word(w: Seq<char>, op: Op) -> bool {
    match op {
        Op::Has => w == "has"@,
        Op::Nohas => w == "nohas"@,
        Op::Eq => w == "eq"@,
        Op::Ne => w == "ne"@,
        Op::Lt => w == "lt"@,
        Op::Le => w == "le"@,
        Op::Gt => w == "gt"@,
        Op::Ge => w == "ge"@,
        Op::Pre => w == "pre"@,
        Op::Suf => w == "suf"@,
        Op::Sub => w == "sub"@,
        Op::Neq => w == "neq"@,
        Op::Nne => w == "nne"@,
        Op::Nlt => w == "nlt"@,
        Op::Nle => w == "nle"@,
        Op::Ngt => w == "ngt"@,
        Op::Nge => w == "nge"@,
    }
}

/// A predicate line with a word, a written key and a written value; without a value for `has` and
/// `nohas`.
pub open spec fn predicate_line(w: Seq<char>, op: Op, k: Seq<char>, v: Seq<char>) -> Seq<char> {
    if op == Op::Has || op == Op::Nohas {
        w + seq!['\t'] + escaped(k)
    } else {
        w + seq!['\t'] + escaped(k) + seq!['\t'] + escaped(v)
    }
}

/// The value of a predicate that `predicate_line` writes.
pub open spec fn line_value(op: Op, v: Seq<char>) -> Option<Seq<char>> {
    if op == Op::Has || op == Op::Nohas {
        None
    } else {
        Some(v)
    }
}

proof fn lemma_word(w: Seq<char>, op: Op)
    requires
        is_word(w, op),
    ensures
        op_of(w) == Some(op),
        w.len() >= 2,
        w[0] != '#',
        !w.contains('\t'),
        !w.contains('\n'),
{
    law_operator_words();
    lemma_words();
    reveal_strlit("nohas");
}

/// Law: a predicate line with the word of an operator, a written key and a written value reads as
/// this operator on this key and value; a value that is closed like an array or an object is
/// refused.
pub proof fn law_predicate_line(w: Seq<char>, op: Op, k: Seq<char>, v: Seq<char>, n: usize)
    requires
        is_word(w, op),
    ensures
        op == Op::Has || op == Op::Nohas || !is_closed_literal(v) ==> predicate_of(
            predicate_line(w, op, k, v),
            n,
        ) == Ok::<PredicateView, ErrorView>(
            PredicateView { op, key: k, value: line_value(op, v) },
        ),
        op != Op::Has && op != Op::Nohas && is_closed_literal(v) ==> predicate_of(
            predicate_line(w, op, k, v),
            n,
        ) is Err,
        is_line(predicate_line(w, op, k, v)),
        counts(predicate_line(w, op, k, v)),
        predicate_line(w, op, k, v).contains('\t'),
{
    reveal(predicate_of);
    reveal_strlit("\t");
    lemma_word(w, op);
    lemma_no_tab(k);
    lemma_no_tab(v);
    law_unescape_escape(k);
    law_unescape_escape(v);
    let ek = escaped(k);
    let ev = escaped(v);
    let tab = seq!['\t'];
    let line = predicate_line(w, op, k, v);
    let a = w + tab + ek;
    lemma_split_single(w, '\t');
    lemma_split_append(w, '\t', ek);
    lemma_split_append(a, '\t', ev);
    assert(seq![w].push(ek) == seq![w, ek]);
    assert(seq![w, ek].push(ev) == seq![w, ek, ev]);
    assert(seq![w, ek, ev].skip(2) == seq![ev]);
    assert(join(seq![ev], "\t"@) == ev);
    assert(line[0] == w[0]);
    assert(line[w.len() as int] == '\t');
    assert(!a.contains('\n')) by {
        if a.contains('\n') {
            let i = choose|i: int| 0 <= i < a.len() && a[i] == '\n';
            if i < w.len() {
                assert(w[i] == '\n');
            } else if i > w.len() {
                assert(ek[i - w.len() - 1] == '\n');
            }
        }
    }
    assert(!line.contains('\n')) by {
        if line.contains('\n') {
            let i = choose|i: int| 0 <= i < line.len() && line[i] == '\n';
            if i < a.len() {
                assert(a[i] == '\n');
            } else if i > a.len() {
                assert(ev[i - a.len() - 1] == '\n');
            }
        }
    }
    assert(line.last() != '\r') by {
        if op == Op::Has || op == Op::Nohas {
            if ek.len() > 0 {
                assert(line.last() == ek.last());
                assert(ek.contains(ek[ek.len() - 1]));
            } else {
                assert(line.last() == '\t');
            }
        } else {
            if ev.len() > 0 {
                assert(line.last() == ev.last());
                assert(ev.contains(ev[ev.len() - 1]));
            } else {
                assert(line.last() == '\t');
            }
        }
    }
}

/// Law: a line whose first column is none of the words is refused as a predicate.
pub proof fn law_unknown_operator_refused(line: Seq<char>, n: usize)
    requires
        forall|op: Op| !#[trigger] is_word(split(line, '\t')[0], op),
    ensures
        predicate_of(line, n) is Err,
{
    reveal(predicate_of);
    let w = split(line, '\t')[0];
    assert(!is_word(w, Op::Has) && !is_word(w, Op::Nohas) && !is_word(w, Op::Eq) && !is_word(w, Op::Ne));
    assert(!is_word(w, Op::Lt) && !is_word(w, Op::Le) && !is_word(w, Op::Gt) && !is_word(w, Op::Ge));
    assert(!is_word(w, Op::Pre) && !is_word(w, Op::Suf) && !is_word(w, Op::Sub) && !is_word(w, Op::Neq));
    assert(!is_word(w, Op::Nne) && !is_word(w, Op::Nlt) && !is_word(w, Op::Nle) && !is_word(w, Op::Ngt));
    assert(!is_word(w, Op::Nge));
}

/// Whether one value stands to the value of a predicate as the operator says.
pub open spec fn value_meets(op: Op, e: Seq<char>, v: Seq<char>) -> bool {
    match op {
        Op::Eq => e == v,
        Op::Lt => str_lt(e, v),
        Op::Le => str_lt(e, v) || e == v,
        Op::Gt => str_lt(v, e),
        Op::Ge => str_lt(v, e) || e == v,
        Op::Pre => exists|t: Seq<char>| e == #[trigger] (v + t),
        Op::Suf => exists|t: Seq<char>| e == #[trigger] (t + v),
        Op::Sub => exists|a: Seq<char>, b: Seq<char>| e == #[trigger] (a + v + b),
        Op::Neq => both_numbers(e, v) && num_eq(e, v),
        Op::Nlt => both_numbers(e, v) && num_lt(e, v),
        Op::Nle => both_numbers(e, v) && (num_lt(e, v) || num_eq(e, v)),
        Op::Ngt => both_numbers(e, v) && num_lt(v, e),
        Op::Nge => both_numbers(e, v) && (num_lt(v, e) || num_eq(e, v)),
        _ => false,
    }
}

/// Whether two values are numbers that can be compared.
pub open spec fn both_numbers(e: Seq<char>, v: Seq<char>) -> bool {
    is_decimal(e, 9999) && is_decimal(v, 9999)
}

/// Whether a record has under `k` a value, or an array element, that stands to `v` as the operator
/// says.
pub open spec fn some_value(r: Map<Seq<char>, Seq<char>>, op: Op, k: Seq<char>, v: Seq<char>) -> bool {
    r.contains_key(k) && exists|e: Seq<char>| #[trigger]
        parts_of(r[k], true).contains(e) && value_meets(op, e, v)
}

/// Whether a record meets an operator with a key and a value.
pub open spec fn meets_operator(r: Map<Seq<char>, Seq<char>>, op: Op, k: Seq<char>, v: Seq<char>) -> bool {
    match op {
        Op::Has => r.contains_key(k),
        Op::Nohas => !r.contains_key(k),
        Op::Ne => r.contains_key(k) && !some_value(r, Op::Eq, k, v),
        Op::Nne => is_decimal(v, 9999) && !some_value(r, Op::Neq, k, v) && r.contains_key(k)
            && exists|e: Seq<char>| #[trigger]
            parts_of(r[k], true).contains(e) && is_decimal(e, 9999),
        _ => some_value(r, op, k, v),
    }
}

proof fn lemma_text_order(e: Seq<char>, v: Seq<char>)
    ensures
        text_holds(Op::Eq, e, v) <==> e == v,
        text_holds(Op::Lt, e, v) <==> str_lt(e, v),
        text_holds(Op::Le, e, v) <==> str_lt(e, v) || e == v,
        text_holds(Op::Gt, e, v) <==> str_lt(v, e),
        text_holds(Op::Ge, e, v) <==> str_lt(v, e) || e == v,
{
    crate::text::lemma_str_lt_total(e, v);
    crate::text::lemma_str_lt_irreflexive(e);
    if str_lt(e, v) && str_lt(v, e) {
        crate::text::lemma_str_lt_transitive(e, v, e);
    }
}

proof fn lemma_text_prefix(e: Seq<char>, v: Seq<char>)
    ensures
        text_holds(Op::Pre, e, v) <==> value_meets(Op::Pre, e, v),
{
    let n = v.len() as int;
    if text_holds(Op::Pre, e, v) {
        assert(e == v + e.skip(n));
    }
    if value_meets(Op::Pre, e, v) {
        let t = choose|t: Seq<char>| e == #[trigger] (v + t);
        assert(e.take(n) == v);
    }
}

proof fn lemma_text_suffix(e: Seq<char>, v: Seq<char>)
    ensures
        text_holds(Op::Suf, e, v) <==> value_meets(Op::Suf, e, v),
{
    let n = v.len() as int;
    if text_holds(Op::Suf, e, v) {
        assert(e == e.take(e.len() - n) + v);
    }
    if value_meets(Op::Suf, e, v) {
        let t = choose|t: Seq<char>| e == #[trigger] (t + v);
        assert(e.skip(e.len() - n) == v);
    }
}

proof fn lemma_text_inside(e: Seq<char>, v: Seq<char>)
    ensures
        text_holds(Op::Sub, e, v) <==> value_meets(Op::Sub, e, v),
{
    let n = v.len() as int;
    if is_inside(v, e) {
        let i = choose|i: int| 0 <= i && i + n <= e.len() && #[trigger] e.subrange(i, i + n) == v;
        assert(e == e.take(i) + v + e.skip(i + n));
    }
    if value_meets(Op::Sub, e, v) {
        let (a, b) = choose|a: Seq<char>, b: Seq<char>| e == #[trigger] (a + v + b);
        assert(e.subrange(a.len() as int, a.len() + n) == v);
    }
}

proof fn lemma_number_op(e: Seq<char>, v: Seq<char>, t: Seq<char>)
    requires
        norm_of(v) == Some(t),
    ensures
        norm_of(e) matches Some(n) ==> {
            &&& n == t <==> num_eq(e, v)
            &&& str_lt(n, t) <==> num_lt(e, v)
            &&& str_lt(t, n) <==> num_lt(v, e)
            &&& !str_lt(t, n) <==> num_lt(e, v) || num_eq(e, v)
            &&& !str_lt(n, t) <==> num_lt(v, e) || num_eq(e, v)
        },
{
    if let Some(n) = norm_of(e) {
        law_norm_order(e, v);
        law_norm_order(v, e);
        crate::text::lemma_str_lt_total(n, t);
        crate::text::lemma_str_lt_irreflexive(n);
        if str_lt(n, t) && str_lt(t, n) {
            crate::text::lemma_str_lt_transitive(n, t, n);
        }
    }
}

/// Law: the records that an operator is satisfied by, said of their values: of strings by their
/// order and their parts, of numbers by their value.
pub proof fn law_operator_meaning(r: Map<Seq<char>, Seq<char>>, op: Op, k: Seq<char>, v: Seq<char>)
    ensures
        satisfies(r, PredicateView { op, key: k, value: line_value(op, v) }) <==> meets_operator(
            r,
            op,
            k,
            v,
        ),
{
    law_sortable_exactly(v);
    assert forall|q: Op, e: Seq<char>|
        (q is Eq || q is Lt || q is Le || q is Gt || q is Ge || q is Pre || q is Suf || q is Sub)
            implies (#[trigger] text_holds(q, e, v) <==> value_meets(q, e, v)) by {
        lemma_text_order(e, v);
        lemma_text_prefix(e, v);
        lemma_text_suffix(e, v);
        lemma_text_inside(e, v);
    }
    if let Some(t) = norm_of(v) {
        assert forall|q: Op, e: Seq<char>|
            (q is Neq || q is Nlt || q is Nle || q is Ngt || q is Nge) implies (#[trigger] value_meets(
            q,
            e,
            v,
        ) <==> (norm_of(e) matches Some(n) && number_holds(q, n, t))) by {
            law_sortable_exactly(e);
            lemma_number_op(e, v, t);
        }
        assert forall|e: Seq<char>| #[trigger] is_decimal(e, 9999) <==> norm_of(e) is Some by {
            law_sortable_exactly(e);
        }
    }
    let q = if op is Ne {
        Op::Eq
    } else if op is Nne {
        Op::Neq
    } else {
        op
    };
    if op is Has || op is Nohas {
    } else if q is Eq || q is Lt || q is Le || q is Gt || q is Ge || q is Pre || q is Suf || q is Sub {
        if some_part(r, q, k, v) {
            let e = choose|e: Seq<char>| #[trigger]
                parts_of(r[k], true).contains(e) && text_holds(q, e, v);
            assert(value_meets(q, e, v));
        }
        if some_value(r, q, k, v) {
            let e = choose|e: Seq<char>| #[trigger]
                parts_of(r[k], true).contains(e) && value_meets(q, e, v);
            assert(text_holds(q, e, v));
        }
    } else if let Some(t) = norm_of(v) {
        if some_number_part(r, q, k, t) {
            let e = choose|e: Seq<char>| #[trigger]
                parts_of(r[k], true).contains(e) && (norm_of(e) matches Some(n) && number_holds(
                    q,
                    n,
                    t,
                ));
            assert(value_meets(q, e, v));
        }
        if some_value(r, q, k, v) {
            let e = choose|e: Seq<char>| #[trigger]
                parts_of(r[k], true).contains(e) && value_meets(q, e, v);
            assert(norm_of(e) is Some);
        }
        if some_number(r, k) {
            let e = choose|e: Seq<char>| #[trigger]
                parts_of(r[k], true).contains(e) && norm_of(e) is Some;
            assert(is_decimal(e, 9999));
        }
    }
}

/// What a filter of one line finds in the index files of a database.
pub open spec fn line_chooses(f: FileView, foot: Seq<char>, line: Seq<char>) -> Set<Seq<char>> {
    let q = filter_from(lines(unlines(seq![line])), 0, false)->Ok_0;
    filter_set(q.0, q.1, file_indexes(f, foot))
}

pub proof fn lemma_modes_are_comments(line: Seq<char>)
    requires
        counts(line),
    ensures
        mode_of(line) is None,
{
    reveal_strlit("# mode\tunion");
    reveal_strlit("# mode\tintersect");
}

pub proof fn lemma_tabbed(line: Seq<char>)
    requires
        line.contains('\t'),
    ensures
        !opens_block(line),
        line != "end"@,
{
    reveal_strlit("and");
    reveal_strlit("or");
    reveal_strlit("end");
}

/// Law: a filter file of one line with the word of an operator, a written key and a written value
/// finds exactly the records of a compacted database that meet the operator. Left out are
/// databases with a malformed array, of which no flat index can be made, and keys that start with
/// `#`.
pub proof fn law_filter_line_finds(
    f: FileView,
    foot: Seq<char>,
    w: Seq<char>,
    op: Op,
    k: Seq<char>,
    v: Seq<char>,
    u: Seq<char>,
)
    requires
        sound(f),
        f.pending.len() == 0,
        triples_from(f.sorted, 0, true) is Ok,
        is_comment(foot),
        is_line(foot),
        is_word(w, op),
        !is_comment(k),
        !is_closed_literal(v),
    ensures
        line_chooses(f, foot, predicate_line(w, op, k, v)).contains(u) <==> database(f).contains_key(u)
            && meets_operator(database(f)[u], op, k, v),
{
    let line = predicate_line(w, op, k, v);
    let ls = seq![line];
    law_predicate_line(w, op, k, v, 1);
    law_lines_unlines(ls);
    lemma_modes_are_comments(line);
    lemma_tabbed(line);
    let p = PredicateView { op, key: k, value: line_value(op, v) };
    let ns = seq![NodeView::Pred(p)];
    assert(filter_from(ls, 1, true) == Ok::<(FilterMode, Seq<NodeView>), ErrorView>(
        (FilterMode::Intersect, Seq::empty()),
    ));
    assert(ns + Seq::<NodeView>::empty() == ns);
    assert(filter_from(ls, 0, false) == Ok::<(FilterMode, Seq<NodeView>), ErrorView>(
        (FilterMode::Intersect, ns),
    ));
    reveal_with_fuel(crate::selection::all_askable, 3);
    reveal_with_fuel(crate::selection::all_hold, 3);
    assert(ns.drop_last() == Seq::<NodeView>::empty());
    law_filter_finds_records(f, foot, FilterMode::Intersect, ns, u);
    law_operator_meaning(database(f)[u], op, k, v);
}

/// Law: a predicate line needs a key; `has` and `nohas` take no value and every other operator needs one.
pub proof fn law_predicate_columns(line: Seq<char>, op: Op, n: usize)
    requires
        is_word(split(line, '\t')[0], op),
    ensures
        split(line, '\t').len() < 2 ==> predicate_of(line, n) is Err,
        (op == Op::Has || op == Op::Nohas) && split(line, '\t').len() > 2 ==> predicate_of(line, n)
            is Err,
        op != Op::Has && op != Op::Nohas && split(line, '\t').len() < 3 ==> predicate_of(line, n) is Err,
{
    reveal(predicate_of);
    lemma_word(split(line, '\t')[0], op);
}

} // verus!
