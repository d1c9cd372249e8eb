//! What is said to the user: errors and warnings, the written database file, and what a filter needs.
use crate::base62::is_uuid;
use crate::current::is_unsettled;
use crate::database::{database, sound};
use crate::dotsv::{
    file_text, lemma_unlines_concat, lemma_unlines_one, sorted_place, unlines, FileView,
};
use crate::error::ErrorView;
use crate::filter::{op_text, NodeView, Op, PredicateView};
use crate::index::{relation_of, triples_from, uuids_from};
use crate::lock::EntryStatus;
use crate::lookup::{
    has_part, has_triple, is_comment, law_index_reads_back, law_relation_filled, law_triples,
    lemma_has_part, lemma_matching,
};
use crate::order::norm_of;
use crate::plane::PtvFooters;
use crate::query::{in_row, needs_universe, CriterionView, FilterMode};
use crate::relate::{last_filled, RtvFooters};
use crate::reload::is_line;
use crate::resolve::{
    all_set, any_set, filter_set, is_first_skip, node_needs, node_set, nodes_need, predicate_skips,
    same_predicate, skip_text, skip_texts, skipped_count, total_skipped, value_or_empty,
    with_number, IndexesView, OrdRowView, SkipView,
};
use crate::selection::{
    file_indexes, law_numeric_index_reads_back, lemma_number_matches, some_number,
};
use crate::session::law_held;
use crate::show::{lines_of_uuids, shown_lines};
use crate::sorted::{lemma_listed_finite, listed, ordered};
use crate::text::{dec, hex_text, is_blank, join};
use vstd::prelude::*;

verus! {

/// Law: each error is shown by a sentence of its own, with what it is about.
pub proof fn law_error_sentences(line: usize, s: Seq<char>, pid: u64, us: Seq<Seq<char>>)
    ensures
        ErrorView::Io(s).text() == "I/O error: "@ + s,
        ErrorView::EscapeError(s).text() == "Escape error: "@ + s,
        ErrorView::InvalidUuid(s).text() == "Invalid UUID: "@ + s,
        (ErrorView::ParseError { line, message: s }).text() == "Parse error at line "@ + dec(line as nat)
            + ": "@ + s,
        (ErrorView::DuplicateUuid { line, uuid: s }).text() == "Duplicate UUID at line "@ + dec(
            line as nat,
        ) + ": "@ + s,
        (ErrorView::MissingUuid { line, uuid: s }).text() == "Missing UUID at line "@ + dec(line as nat)
            + ": "@ + s,
        ErrorView::Other(s).text() == s,
        (ErrorView::LockConflict { pid, status: EntryStatus::Exec, uuids: us }).text()
            == "conflict with process "@ + hex_text(pid as nat, 16) + "\n  overlapping UUIDs: "@ + join(
            us,
            ", "@,
        ) + "\n  status: EXEC (running)\n  action: aborted, not queued"@,
        (ErrorView::LockConflict { pid, status: EntryStatus::Wait, uuids: us }).text()
            == "conflict with process "@ + hex_text(pid as nat, 16) + "\n  overlapping UUIDs: "@ + join(
            us,
            ", "@,
        ) + "\n  status: WAIT (waiting)\n  action: aborted, not queued"@,
{
}

/// Law: a database file is its sorted lines, then, where there are pending lines, an empty line and
/// these, and last `#`, a space and the moment of writing; a line feed stands behind each.
pub proof fn law_file_form(f: FileView, stamp: Seq<char>)
    ensures
        f.pending.len() == 0 ==> file_text(f, stamp) == unlines(f.sorted) + seq!['#', ' '] + stamp
            + seq!['\n'],
        f.pending.len() > 0 ==> file_text(f, stamp) == unlines(f.sorted) + seq!['\n'] + unlines(
            f.pending,
        ) + seq!['#', ' '] + stamp + seq!['\n'],
{
    reveal_strlit("# ");
    reveal_strlit("\n");
    assert("# "@ == seq!['#', ' '] && "\n"@ == seq!['\n']);
    let foot = "# "@ + stamp;
    let none = Seq::<char>::empty();
    lemma_unlines_one(foot);
    lemma_unlines_one(none);
    if f.pending.len() == 0 {
        lemma_unlines_concat(f.sorted, seq![foot]);
        assert(unlines(f.sorted) + (foot + "\n"@) == unlines(f.sorted) + seq!['#', ' '] + stamp + seq![
            '\n',
        ]);
    } else {
        let a = f.sorted + seq![none];
        lemma_unlines_concat(f.sorted, seq![none]);
        lemma_unlines_concat(a, f.pending);
        lemma_unlines_concat(a + f.pending, seq![foot]);
        assert(unlines(f.sorted) + (none + "\n"@) + unlines(f.pending) + (foot + "\n"@) == unlines(
            f.sorted,
        ) + seq!['\n'] + unlines(f.pending) + seq!['#', ' '] + stamp + seq!['\n']);
    }
}

/// Whether the line at `i` is the last that is not blank.
pub open spec fn last_said(ls: Seq<Seq<char>>, i: int) -> bool {
    &&& 0 <= i < ls.len()
    &&& !is_blank(ls[i])
    &&& forall|j: int| i < j < ls.len() ==> is_blank(#[trigger] ls[j])
}

/// Law: the last line of a text is the last that is not blank; there is none exactly if all are blank.
pub proof fn law_last_said(ls: Seq<Seq<char>>)
    ensures
        forall|i: int| #[trigger] last_said(ls, i) ==> last_filled(ls) == Some(ls[i]),
        last_filled(ls) is None <==> forall|i: int| 0 <= i < ls.len() ==> is_blank(#[trigger] ls[i]),
    decreases ls.len(),
{
    if ls.len() > 0 {
        let d = ls.drop_last();
        law_last_said(d);
        assert(ls.last() == ls[ls.len() - 1]);
        assert forall|i: int| #[trigger] last_said(ls, i) implies last_filled(ls) == Some(ls[i]) by {
            if i < d.len() {
                assert(is_blank(ls[ls.len() - 1]));
                assert(d[i] == ls[i]);
                assert forall|j: int| i < j < d.len() implies is_blank(#[trigger] d[j]) by {
                    assert(d[j] == ls[j]);
                }
                assert(last_said(d, i));
            }
        }
        if forall|i: int| 0 <= i < ls.len() ==> is_blank(#[trigger] ls[i]) {
            assert forall|i: int| 0 <= i < d.len() implies is_blank(#[trigger] d[i]) by {
                assert(d[i] == ls[i]);
            }
        }
        if last_filled(ls) is None {
            assert forall|i: int| 0 <= i < ls.len() implies is_blank(#[trigger] ls[i]) by {
                if i < d.len() {
                    assert(d[i] == ls[i]);
                }
            }
        }
    }
}

/// Law: a database must be compacted before its indexes are made exactly if lines are pending, or its
/// file has no last line, or that line does not start with `#`.
pub proof fn law_unsettled(f: FileView, last: Option<Seq<char>>)
    ensures
        is_unsettled(f, last) <==> f.pending.len() > 0 || last is None || last->0.len() == 0
            || last->0[0] != '#',
{
}

proof fn lemma_lines_missing(f: FileView, us: Seq<Seq<char>>, i: int)
    requires
        0 <= i <= us.len(),
    ensures
        lines_of_uuids(f, us, i) is Ok <==> forall|k: int|
            i <= k < us.len() ==> sorted_place(f, #[trigger] us[k]) is Ok,
    decreases us.len() - i,
{
    if i < us.len() {
        lemma_lines_missing(f, us, i + 1);
        assert(sorted_place(f, us[i]) is Ok || !(sorted_place(f, us[i]) is Ok));
    }
}

/// Law: records can be shown exactly if the database is compacted and has a record of each identifier.
pub proof fn law_shown_exactly(f: FileView, us: Seq<Seq<char>>)
    requires
        sound(f),
        forall|k: int| 0 <= k < us.len() ==> is_uuid(#[trigger] us[k]),
    ensures
        shown_lines(f, us) is Ok <==> f.pending.len() == 0 && forall|k: int|
            0 <= k < us.len() ==> database(f).contains_key(#[trigger] us[k]),
{
    let all = crate::compact::in_order(us);
    crate::database::law_in_order_repeats(us);
    lemma_lines_missing(f, all, 0);
    assert forall|u: Seq<char>| all.contains(u) <==> us.contains(u) by {
        broadcast use vstd::seq_lib::group_to_multiset_ensures;

        assert(all.to_multiset().count(u) == us.to_multiset().count(u));
    }
    if f.pending.len() == 0 {
        assert forall|u: Seq<char>| us.contains(u) implies (sorted_place(f, u) is Ok
            <==> #[trigger] database(f).contains_key(u)) by {
            let k = choose|k: int| 0 <= k < us.len() && us[k] == u;
            assert(is_uuid(us[k]));
            law_held(f, u);
        }
        if forall|k: int| 0 <= k < us.len() ==> database(f).contains_key(#[trigger] us[k]) {
            assert forall|k: int| 0 <= k < all.len() implies sorted_place(f, #[trigger] all[k]) is Ok by {
                assert(all.contains(all[k]));
                assert(us.contains(all[k]));
                let j = choose|j: int| 0 <= j < us.len() && us[j] == all[k];
                assert(database(f).contains_key(us[j]));
            }
        }
        if shown_lines(f, us) is Ok {
            assert forall|k: int| 0 <= k < us.len() implies database(f).contains_key(#[trigger] us[k]) by {
                assert(us.contains(us[k]));
                assert(all.contains(us[k]));
                let j = choose|j: int| 0 <= j < all.len() && all[j] == us[k];
                assert(sorted_place(f, all[j]) is Ok);
            }
        }
    }
}

/// An operator that compares numbers.
pub open spec fn compares_numbers(op: Op) -> bool {
    op == Op::Neq || op == Op::Nne || op == Op::Nlt || op == Op::Nle || op == Op::Ngt || op == Op::Nge
}

/// An operator that compares texts otherwise than by equality.
pub open spec fn compares_texts(op: Op) -> bool {
    op == Op::Lt || op == Op::Le || op == Op::Gt || op == Op::Ge || op == Op::Pre || op == Op::Suf || op
        == Op::Sub
}

/// Law: a filter needs the flat index exactly if one of its predicates compares texts otherwise than by
/// equality, and the numeric one exactly if one of them compares numbers, however deep it stands.
pub proof fn law_needed_indexes(p: PredicateView, c: Seq<NodeView>, s: Seq<NodeView>, n: NodeView)
    ensures
        node_needs(NodeView::Pred(p)) == (compares_texts(p.op), compares_numbers(p.op)),
        node_needs(NodeView::And(c)) == nodes_need(c),
        node_needs(NodeView::Or(c)) == nodes_need(c),
        nodes_need(Seq::<NodeView>::empty()) == (false, false),
        nodes_need(s.push(n)).0 <==> nodes_need(s).0 || node_needs(n).0,
        nodes_need(s.push(n)).1 <==> nodes_need(s).1 || node_needs(n).1,
{
    assert(s.push(n).drop_last() == s);
}

/// Two sets of indexes that agree but for the numeric one.
pub open spec fn same_but_numbers(a: IndexesView, b: IndexesView) -> bool {
    a.kv_rtv == b.kv_rtv && a.universe == b.universe && a.kv_ptv == b.kv_ptv
}

proof fn lemma_node_without_numbers(n: NodeView, a: IndexesView, b: IndexesView)
    requires
        same_but_numbers(a, b),
        !node_needs(n).1,
    ensures
        node_set(n, a) == node_set(n, b),
    decreases n,
{
    match n {
        NodeView::Pred(p) => {},
        NodeView::And(c) => lemma_nodes_without_numbers(c, a, b),
        NodeView::Or(c) => lemma_nodes_without_numbers(c, a, b),
    }
}

proof fn lemma_nodes_without_numbers(s: Seq<NodeView>, a: IndexesView, b: IndexesView)
    requires
        same_but_numbers(a, b),
        !nodes_need(s).1,
    ensures
        all_set(s, a) == all_set(s, b),
        any_set(s, a) == any_set(s, b),
    decreases s,
{
    if s.len() > 0 {
        lemma_nodes_without_numbers(s.drop_last(), a, b);
        lemma_node_without_numbers(s.last(), a, b);
    }
}

/// Law: a filter that does not need the numeric index finds the same records with any and without one.
pub proof fn law_unneeded_numbers(mode: FilterMode, s: Seq<NodeView>, a: IndexesView, b: IndexesView)
    requires
        same_but_numbers(a, b),
        !nodes_need(s).1,
    ensures
        filter_set(mode, s, a) == filter_set(mode, s, b),
{
    lemma_nodes_without_numbers(s, a, b);
}

/// Whether identifiers are those of the records that have a key without a number, in order.
pub open spec fn without_number(f: FileView, k: Seq<char>, us: Seq<Seq<char>>) -> bool {
    &&& ordered(us)
    &&& forall|u: Seq<char>| #[trigger]
        us.contains(u) <==> database(f).contains_key(u) && database(f)[u].contains_key(k)
            && !some_number(database(f)[u], k)
}

/// Law: a predicate leaves records out only if it compares numbers: one if its own value is no number,
/// and else as many as have its key without a number.
pub proof fn law_left_out(f: FileView, foot: Seq<char>, p: PredicateView) -> (us: Seq<Seq<char>>)
    requires
        sound(f),
        f.pending.len() == 0,
        triples_from(f.sorted, 0, true) is Ok,
        is_comment(foot),
        is_line(foot),
        !is_comment(p.key),
    ensures
        without_number(f, p.key, us),
        !compares_numbers(p.op) ==> predicate_skips(p, file_indexes(f, foot)).len() == 0,
        compares_numbers(p.op) && norm_of(value_or_empty(p)) is None ==> predicate_skips(
            p,
            file_indexes(f, foot),
        ) == seq![SkipView { op: p.op, key: p.key, value: value_or_empty(p), count: 1 }],
        compares_numbers(p.op) && norm_of(value_or_empty(p)) is Some && us.len() == 0 ==> predicate_skips(
            p,
            file_indexes(f, foot),
        ).len() == 0,
        compares_numbers(p.op) && norm_of(value_or_empty(p)) is Some && us.len() > 0 ==> predicate_skips(
            p,
            file_indexes(f, foot),
        ) == seq![SkipView { op: p.op, key: p.key, value: value_or_empty(p), count: us.len() }],
{
    let d = database(f);
    let k = p.key;
    law_triples(f, false);
    law_triples(f, true);
    let ts = triples_from(f.sorted, 0, false)->Ok_0;
    let ps = triples_from(f.sorted, 0, true)->Ok_0;
    let all = uuids_from(f.sorted, 0)->Ok_0;
    let idx = file_indexes(f, foot);
    assert forall|a: Seq<char>, b: Seq<char>, w: Seq<char>| #[trigger]
        ts.contains((a, b, w)) <==> has_triple(d, a, b, w) by {
        lemma_has_part(d, a, b, w);
    }
    law_relation_filled(ts, false);
    law_index_reads_back(relation_of(ts, false), foot);
    let ords = idx.ord_ptv->0;
    assert forall|x: OrdRowView| #[trigger]
        ords.contains(x) <==> has_part(d, x.key, x.raw_value, x.uuid, true) && norm_of(x.raw_value)
            == Some(x.norm) by {
        law_numeric_index_reads_back(ps, foot, x);
        assert(ps.contains((x.key, x.raw_value, x.uuid)) <==> has_part(
            d,
            x.key,
            x.raw_value,
            x.uuid,
            true,
        ));
    }
    let out = in_row(idx.kv_rtv, k).difference(with_number(ords, k));
    assert forall|u: Seq<char>| #[trigger] out.contains(u) <==> d.contains_key(u) && d[u].contains_key(k)
        && !some_number(d[u], k) by {
        lemma_matching(d, ts, CriterionView::Present(k), u);
        assert(in_row(idx.kv_rtv, k).contains(u) <==> d.contains_key(u) && d[u].contains_key(k));
        lemma_number_matches(d, ords, Op::Neq, k, Seq::empty(), u);
    }
    vstd::seq_lib::seq_to_set_is_finite(all);
    assert(out.subset_of(d.dom()));
    vstd::set_lib::lemma_set_subset_finite(d.dom(), out);
    lemma_listed_finite(out);
    let us = listed(out);
    assert forall|u: Seq<char>| #[trigger] us.contains(u) <==> d.contains_key(u) && d[u].contains_key(k)
        && !some_number(d[u], k) by {
        assert(us.to_set().contains(u) <==> out.contains(u));
    }
    assert(skipped_count(k, ords, idx) == us.len());
    us
}

/// The places of the first skip of each predicate among the first `n`, in order.
pub open spec fn first_places(v: Seq<SkipView>, n: int, at: Seq<int>) -> bool {
    &&& forall|i: int, j: int| 0 <= i < j < at.len() ==> #[trigger] at[i] < #[trigger] at[j]
    &&& forall|x: int| #[trigger]
        at.contains(x) <==> 0 <= x < n && forall|j: int|
            0 <= j < x ==> !(#[trigger] v[j].op == v[x].op && v[j].key == v[x].key && v[j].value
                == v[x].value)
}

/// Law: a warning is shown for each predicate that left records out, once and where it first came, with
/// its operator, key and value and the number of records that it left out in all.
pub proof fn law_warnings(v: Seq<SkipView>, n: int) -> (at: Seq<int>)
    requires
        0 <= n <= v.len(),
    ensures
        first_places(v, n, at),
        skip_texts(v, n).len() == at.len(),
        forall|i: int|
            0 <= i < at.len() ==> #[trigger] skip_texts(v, n)[i] == "warning: '"@ + op_text(v[at[i]].op)
                + " "@ + v[at[i]].key + " "@ + v[at[i]].value + "' skipped "@ + dec(
                total_skipped(v, v[at[i]]),
            ) + " record(s) with non-numeric value"@,
    decreases n,
{
    if n == 0 {
        Seq::empty()
    } else {
        let at = law_warnings(v, n - 1);
        let s = v[n - 1];
        assert forall|i: int| 0 <= i < at.len() implies 0 <= #[trigger] at[i] < n - 1 by {
            assert(at.contains(at[i]));
        }
        if is_first_skip(v, n - 1) {
            let more = at.push(n - 1);
            assert(skip_text(v, s) == "warning: '"@ + op_text(s.op) + " "@ + s.key + " "@ + s.value
                + "' skipped "@ + dec(total_skipped(v, s)) + " record(s) with non-numeric value"@);
            assert forall|x: int| #[trigger] more.contains(x) <==> at.contains(x) || x == n - 1 by {
                if at.contains(x) {
                    let i = choose|i: int| 0 <= i < at.len() && at[i] == x;
                    assert(more[i] == x);
                }
                if x == n - 1 {
                    assert(more[at.len() as int] == x);
                }
                if more.contains(x) {
                    let i = choose|i: int| 0 <= i < more.len() && more[i] == x;
                    if i < at.len() {
                        assert(at[i] == x);
                    }
                }
            }
            assert forall|j: int| 0 <= j < n - 1 implies !(#[trigger] v[j].op == s.op && v[j].key == s.key
                && v[j].value == s.value) by {
                assert(!same_predicate(v[j], s));
            }
            more
        } else {
            let j = choose|j: int| 0 <= j < n - 1 && same_predicate(#[trigger] v[j], s);
            assert(v[j].op == s.op && v[j].key == s.key && v[j].value == s.value);
            at
        }
    }
}

/// Law: the records that a predicate left out in two runs of skips are those of the one and those of the
/// other; in a single skip they are its own if it is of that predicate, and else none.
pub proof fn law_left_out_in_all(v: Seq<SkipView>, w: Seq<SkipView>, s: SkipView, x: SkipView)
    ensures
        total_skipped(v + w, s) == total_skipped(v, s) + total_skipped(w, s),
        total_skipped(seq![x], s) == if x.op == s.op && x.key == s.key && x.value == s.value {
            x.count
        } else {
            0
        },
    decreases w.len(),
{
    assert(seq![x].drop_last() == Seq::<SkipView>::empty());
    assert(total_skipped(Seq::<SkipView>::empty(), s) == 0);
    if w.len() == 0 {
        assert(v + w == v);
    } else {
        assert((v + w).drop_last() == v + w.drop_last());
        assert((v + w).last() == w.last());
        law_left_out_in_all(v, w.drop_last(), s, x);
    }
}

/// Whether a file is there and its last line is `foot`.
pub open spec fn ends_in(last: Option<String>, foot: Seq<char>) -> bool {
    last matches Some(s) && s@ == foot
}

/// Law: index files need not be made again exactly if each of them is there and ends with the last line of
/// the database file: all three grouped ones, or all five flat ones.
pub proof fn law_indexes_current(a: RtvFooters, b: PtvFooters, foot: Seq<char>)
    ensures
        a.current(foot) <==> ends_in(a.kv, foot) && ends_in(a.vk, foot) && ends_in(a.uuid, foot),
        b.current(foot) <==> ends_in(b.kv, foot) && ends_in(b.vk, foot) && ends_in(b.uuid, foot)
            && ends_in(b.ord, foot) && ends_in(b.kt, foot),
{
}

/// Law: the list of all identifiers is needed exactly for criteria that ask for the absence of a key or of
/// a key with a value.
pub proof fn law_absence_needs_all(k: Seq<char>, v: Seq<char>)
    ensures
        needs_universe(CriterionView::AbsentKey(k)),
        needs_universe(CriterionView::AbsentKeyValue(k, v)),
        !needs_universe(CriterionView::Present(k)),
        !needs_universe(CriterionView::KeyValue(k, v)),
        !needs_universe(CriterionView::Token(k)),
{
}

} // verus!
