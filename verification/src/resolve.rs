//! Filters answered from the indexes.
use crate::action::is_skipped;
use crate::filter::{
    node_view, node_views, op_is_numeric, op_needs_rows, op_text, FtvFile, Node, NodeView, Op,
    Predicate, PredicateView,
};
use crate::index::{cell_of, push_string, related, row_of, set_to_vec, Relation};
use crate::order::{encode_norm, norm_of};
use crate::query::{
    add_all, cell_uuids, content_lines, in_row, index_from, lenient, load_rtv_index,
    load_uuid_universe, row_uuids, select, tail_of, text_view, unescape_lenient, FilterMode,
    RtvIndex,
};
use crate::sorted::{listed, ordered, StringSet};
use crate::text::{
    cat2, cat5, chars_of, copy_of, dec, join, join_with, lemma_str_lt_irreflexive,
    lemma_str_lt_total, lemma_str_lt_transitive, lines, lines_of, split, split_on, str_eq,
    str_less, str_lt, views,
};
use vstd::prelude::*;

verus! {

/// A line of the flat index by keys.
#[derive(Debug)]
pub struct KvPtvRow {
    pub key: String,
    pub value: String,
    pub uuid: String,
}

impl View for KvPtvRow {
    type V = (Seq<char>, Seq<char>, Seq<char>);

    open spec fn view(&self) -> (Seq<char>, Seq<char>, Seq<char>) {
        (self.key@, self.value@, self.uuid@)
    }
}

/// The contents of lines of the flat index.
pub open spec fn kv_row_views(v: Seq<KvPtvRow>) -> Seq<(Seq<char>, Seq<char>, Seq<char>)> {
    Seq::new(v.len(), |i: int| v[i]@)
}

/// A line of the numeric index.
#[derive(Debug)]
pub struct OrdRow {
    pub norm: String,
    pub key: String,
    pub raw_value: String,
    pub uuid: String,
}

/// What a line of the numeric index says.
pub struct OrdRowView {
    pub norm: Seq<char>,
    pub key: Seq<char>,
    pub raw_value: Seq<char>,
    pub uuid: Seq<char>,
}

impl View for OrdRow {
    type V = OrdRowView;

    open spec fn view(&self) -> OrdRowView {
        OrdRowView {
            norm: self.norm@,
            key: self.key@,
            raw_value: self.raw_value@,
            uuid: self.uuid@,
        }
    }
}

/// The contents of lines of the numeric index.
pub open spec fn ord_row_views(v: Seq<OrdRow>) -> Seq<OrdRowView> {
    Seq::new(v.len(), |i: int| v[i]@)
}

/// The indexes that a filter is answered from. The flat and the numeric index are there only if
/// they were loaded.
pub struct Indexes {
    pub kv_rtv: RtvIndex,
    pub universe: StringSet,
    pub kv_ptv: Option<Vec<KvPtvRow>>,
    pub ord_ptv: Option<Vec<OrdRow>>,
}

/// What the indexes hold.
pub struct IndexesView {
    pub kv_rtv: Relation,
    pub universe: Set<Seq<char>>,
    pub kv_ptv: Option<Seq<(Seq<char>, Seq<char>, Seq<char>)>>,
    pub ord_ptv: Option<Seq<OrdRowView>>,
}

impl View for Indexes {
    type V = IndexesView;

    open spec fn view(&self) -> IndexesView {
        IndexesView {
            kv_rtv: self.kv_rtv@,
            universe: self.universe@,
            kv_ptv: match self.kv_ptv {
                Some(r) => Some(kv_row_views(r@)),
                None => None,
            },
            ord_ptv: match self.ord_ptv {
                Some(r) => Some(ord_row_views(r@)),
                None => None,
            },
        }
    }
}

/// Records that a numeric predicate left out because their value is no number.
#[derive(Debug)]
pub struct NumericSkip {
    pub op: Op,
    pub key: String,
    pub value: String,
    pub count: usize,
}

/// What a skip says.
#[verifier::ext_equal]
pub struct SkipView {
    pub op: Op,
    pub key: Seq<char>,
    pub value: Seq<char>,
    pub count: nat,
}

impl View for NumericSkip {
    type V = SkipView;

    open spec fn view(&self) -> SkipView {
        SkipView { op: self.op, key: self.key@, value: self.value@, count: self.count as nat }
    }
}

/// The contents of a sequence of skips.
pub open spec fn skip_views(v: Seq<NumericSkip>) -> Seq<SkipView> {
    Seq::new(v.len(), |i: int| v[i]@)
}

/// The skips of a filter, in the order in which they came.
pub struct Warnings {
    pub numeric_skips: Vec<NumericSkip>,
}

impl View for Warnings {
    type V = Seq<SkipView>;

    open spec fn view(&self) -> Seq<SkipView> {
        skip_views(self.numeric_skips@)
    }
}

impl Default for Warnings {
    fn default() -> (r: Self)
        ensures
            r@ == Seq::<SkipView>::empty(),
    {
        let r = Warnings { numeric_skips: Vec::new() };
        assert(r@ == Seq::<SkipView>::empty());
        r
    }
}

/// Whether `a` stands somewhere in `b`.
pub open spec fn is_inside(a: Seq<char>, b: Seq<char>) -> bool {
    exists|i: int| 0 <= i && i + a.len() <= b.len() && #[trigger] b.subrange(i, i + a.len()) == a
}

/// Whether an operator on strings holds for a value and the value of the predicate.
pub open spec fn text_holds(op: Op, value: Seq<char>, v: Seq<char>) -> bool {
    match op {
        Op::Eq => value == v,
        Op::Lt => str_lt(value, v),
        Op::Le => !str_lt(v, value),
        Op::Gt => str_lt(v, value),
        Op::Ge => !str_lt(value, v),
        Op::Pre => value.len() >= v.len() && value.take(v.len() as int) == v,
        Op::Suf => value.len() >= v.len() && value.skip(value.len() - v.len()) == v,
        Op::Sub => is_inside(v, value),
        _ => false,
    }
}

/// Whether an operator on numbers holds for two sortable forms.
pub open spec fn number_holds(op: Op, norm: Seq<char>, target: Seq<char>) -> bool {
    match op {
        Op::Neq => norm == target,
        Op::Nlt => str_lt(norm, target),
        Op::Nle => !str_lt(target, norm),
        Op::Ngt => str_lt(target, norm),
        Op::Nge => !str_lt(norm, target),
        _ => false,
    }
}

/// The identifiers of the lines with key `k` for whose value an operator on strings holds.
pub open spec fn text_matches(
    rows: Seq<(Seq<char>, Seq<char>, Seq<char>)>,
    op: Op,
    k: Seq<char>,
    v: Seq<char>,
) -> Set<Seq<char>> {
    Set::new(
        |u: Seq<char>|
            exists|i: int|
                0 <= i < rows.len() && (#[trigger] rows[i]).0 == k && text_holds(op, rows[i].1, v)
                    && rows[i].2 == u,
    )
}

/// The identifiers of the lines with key `k` for whose number an operator holds.
pub open spec fn number_matches(
    rows: Seq<OrdRowView>,
    op: Op,
    k: Seq<char>,
    target: Seq<char>,
) -> Set<Seq<char>> {
    Set::new(
        |u: Seq<char>|
            exists|i: int|
                0 <= i < rows.len() && (#[trigger] rows[i]).key == k && number_holds(
                    op,
                    rows[i].norm,
                    target,
                ) && rows[i].uuid == u,
    )
}

/// The identifiers with a number under key `k`.
pub open spec fn with_number(rows: Seq<OrdRowView>, k: Seq<char>) -> Set<Seq<char>> {
    Set::new(
        |u: Seq<char>|
            exists|i: int|
                0 <= i < rows.len() && (#[trigger] rows[i]).key == k && rows[i].uuid == u,
    )
}

/// The value of a predicate; nothing counts as the empty string.
pub open spec fn value_or_empty(p: PredicateView) -> Seq<char> {
    match p.value {
        Some(v) => v,
        None => Seq::empty(),
    }
}

/// The identifiers that have the key with this value: by the flat index, in which the elements of
/// arrays count, if it is loaded, else by the index by keys.
pub open spec fn equal_set(k: Seq<char>, v: Seq<char>, idx: IndexesView) -> Set<Seq<char>> {
    match idx.kv_ptv {
        Some(rows) => text_matches(rows, Op::Eq, k, v),
        None => cell_of(row_of(idx.kv_rtv, k), v),
    }
}

/// The identifiers for which a numeric predicate holds.
pub open spec fn number_set(
    op: Op,
    k: Seq<char>,
    target: Seq<char>,
    rows: Seq<OrdRowView>,
) -> Set<Seq<char>> {
    if op is Nne {
        with_number(rows, k).difference(number_matches(rows, Op::Neq, k, target))
    } else {
        number_matches(rows, op, k, target)
    }
}

/// The identifiers for which a predicate holds.
pub open spec fn predicate_set(p: PredicateView, idx: IndexesView) -> Set<Seq<char>> {
    let v = value_or_empty(p);
    if p.op is Has {
        in_row(idx.kv_rtv, p.key)
    } else if p.op is Nohas {
        idx.universe.difference(in_row(idx.kv_rtv, p.key))
    } else if p.op is Eq {
        equal_set(p.key, v, idx)
    } else if p.op is Ne {
        in_row(idx.kv_rtv, p.key).difference(equal_set(p.key, v, idx))
    } else if op_needs_rows(p.op) {
        match idx.kv_ptv {
            Some(rows) => text_matches(rows, p.op, p.key, v),
            None => Set::empty(),
        }
    } else {
        match (norm_of(v), idx.ord_ptv) {
            (Some(target), Some(rows)) => number_set(p.op, p.key, target, rows),
            _ => Set::empty(),
        }
    }
}

/// How many identifiers have the key without a number.
pub open spec fn skipped_count(k: Seq<char>, rows: Seq<OrdRowView>, idx: IndexesView) -> nat {
    listed(in_row(idx.kv_rtv, k).difference(with_number(rows, k))).len()
}

/// The skips of a predicate: one if its own value is no number, or if values of its key are none.
pub open spec fn predicate_skips(p: PredicateView, idx: IndexesView) -> Seq<SkipView> {
    let v = value_or_empty(p);
    if !op_is_numeric(p.op) {
        Seq::empty()
    } else if norm_of(v) is None {
        seq![SkipView { op: p.op, key: p.key, value: v, count: 1 }]
    } else if idx.ord_ptv is Some && skipped_count(p.key, idx.ord_ptv->0, idx) > 0 {
        seq![
            SkipView {
                op: p.op,
                key: p.key,
                value: v,
                count: skipped_count(p.key, idx.ord_ptv->0, idx),
            },
        ]
    } else {
        Seq::empty()
    }
}

/// The identifiers for which an expression holds. `and` of nothing holds for all, `or` for none.
pub open spec fn node_set(n: NodeView, idx: IndexesView) -> Set<Seq<char>>
    decreases n,
{
    match n {
        NodeView::Pred(p) => predicate_set(p, idx),
        NodeView::And(c) => if c.len() == 0 {
            idx.universe
        } else {
            all_set(c, idx)
        },
        NodeView::Or(c) => any_set(c, idx),
    }
}

/// The identifiers for which all expressions hold.
pub open spec fn all_set(s: Seq<NodeView>, idx: IndexesView) -> Set<Seq<char>>
    decreases s,
{
    if s.len() == 0 {
        Set::empty()
    } else if s.len() == 1 {
        node_set(s[0], idx)
    } else {
        all_set(s.drop_last(), idx).intersect(node_set(s.last(), idx))
    }
}

/// The identifiers for which some expression holds.
pub open spec fn any_set(s: Seq<NodeView>, idx: IndexesView) -> Set<Seq<char>>
    decreases s,
{
    if s.len() == 0 {
        Set::empty()
    } else {
        any_set(s.drop_last(), idx).union(node_set(s.last(), idx))
    }
}

/// The skips of an expression.
pub open spec fn node_skips(n: NodeView, idx: IndexesView) -> Seq<SkipView>
    decreases n,
{
    match n {
        NodeView::Pred(p) => predicate_skips(p, idx),
        NodeView::And(c) => nodes_skips(c, idx),
        NodeView::Or(c) => nodes_skips(c, idx),
    }
}

/// The skips of expressions, in order.
pub open spec fn nodes_skips(s: Seq<NodeView>, idx: IndexesView) -> Seq<SkipView>
    decreases s,
{
    if s.len() == 0 {
        Seq::empty()
    } else {
        nodes_skips(s.drop_last(), idx) + node_skips(s.last(), idx)
    }
}

/// The identifiers that a filter finds. A filter without expressions finds all.
pub open spec fn filter_set(mode: FilterMode, ns: Seq<NodeView>, idx: IndexesView) -> Set<Seq<char>> {
    if ns.len() == 0 {
        idx.universe
    } else {
        match mode {
            FilterMode::Union => any_set(ns, idx),
            FilterMode::Intersect => all_set(ns, idx),
        }
    }
}

/// Law: an identifier is found by `and` exactly if each of its expressions finds it.
pub proof fn law_all_set(s: Seq<NodeView>, idx: IndexesView, u: Seq<char>)
    requires
        s.len() > 0,
    ensures
        all_set(s, idx).contains(u) <==> forall|i: int|
            0 <= i < s.len() ==> (#[trigger] node_set(s[i], idx)).contains(u),
    decreases s.len(),
{
    if s.len() > 1 {
        let d = s.drop_last();
        law_all_set(d, idx, u);
        if all_set(s, idx).contains(u) {
            assert forall|i: int| 0 <= i < s.len() implies (#[trigger] node_set(
                s[i],
                idx,
            )).contains(u) by {
                if i < d.len() {
                    assert(d[i] == s[i]);
                    assert(node_set(d[i], idx).contains(u));
                }
            }
        }
        if forall|i: int| 0 <= i < s.len() ==> (#[trigger] node_set(s[i], idx)).contains(u) {
            assert forall|i: int| 0 <= i < d.len() implies (#[trigger] node_set(
                d[i],
                idx,
            )).contains(u) by {
                assert(d[i] == s[i]);
                assert(node_set(s[i], idx).contains(u));
            }
            assert(node_set(s[s.len() - 1], idx).contains(u));
        }
    } else {
        if all_set(s, idx).contains(u) {
            assert forall|i: int| 0 <= i < s.len() implies (#[trigger] node_set(
                s[i],
                idx,
            )).contains(u) by {}
        }
        if forall|i: int| 0 <= i < s.len() ==> (#[trigger] node_set(s[i], idx)).contains(u) {
            assert(node_set(s[0], idx).contains(u));
        }
    }
}

/// Law: an identifier is found by `or` exactly if one of its expressions finds it.
pub proof fn law_any_set(s: Seq<NodeView>, idx: IndexesView, u: Seq<char>)
    ensures
        any_set(s, idx).contains(u) <==> exists|i: int|
            0 <= i < s.len() && (#[trigger] node_set(s[i], idx)).contains(u),
    decreases s.len(),
{
    if s.len() > 0 {
        let d = s.drop_last();
        law_any_set(d, idx, u);
        if exists|i: int| 0 <= i < s.len() && (#[trigger] node_set(s[i], idx)).contains(u) {
            let i = choose|i: int| 0 <= i < s.len() && (#[trigger] node_set(s[i], idx)).contains(u);
            if i < d.len() {
                assert(d[i] == s[i]);
                assert(node_set(d[i], idx).contains(u));
            }
        }
        if exists|i: int| 0 <= i < d.len() && (#[trigger] node_set(d[i], idx)).contains(u) {
            let i = choose|i: int| 0 <= i < d.len() && (#[trigger] node_set(d[i], idx)).contains(u);
            assert(d[i] == s[i]);
            assert(node_set(s[i], idx).contains(u));
        }
        if node_set(s.last(), idx).contains(u) {
            assert(node_set(s[s.len() - 1], idx).contains(u));
        }
    }
}

/// Law: of all identifiers, `nohas` finds exactly those that `has` does not find.
pub proof fn law_nohas_is_not_has(k: Seq<char>, idx: IndexesView, u: Seq<char>)
    requires
        idx.universe.contains(u),
    ensures
        predicate_set(PredicateView { op: Op::Nohas, key: k, value: None }, idx).contains(u)
            <==> !predicate_set(PredicateView { op: Op::Has, key: k, value: None }, idx).contains(u),
{
}

/// Law: of the identifiers that have the key, `ne` finds exactly those that `eq` does not find.
pub proof fn law_ne_is_not_eq(k: Seq<char>, v: Option<Seq<char>>, idx: IndexesView, u: Seq<char>)
    requires
        in_row(idx.kv_rtv, k).contains(u),
    ensures
        predicate_set(PredicateView { op: Op::Ne, key: k, value: v }, idx).contains(u)
            <==> !predicate_set(PredicateView { op: Op::Eq, key: k, value: v }, idx).contains(u),
{
}

/// Law: `has` finds the identifiers of the key's row of the index by keys, `nohas` all other
/// identifiers; no identifier is found by both, `nohas` finds all where the key has no row, and
/// neither warns.
pub proof fn law_has_and_nohas(k: Seq<char>, idx: IndexesView)
    ensures
        ({
            let has = PredicateView { op: Op::Has, key: k, value: None };
            let nohas = PredicateView { op: Op::Nohas, key: k, value: None };
            let h = predicate_set(has, idx);
            let n = predicate_set(nohas, idx);
            &&& forall|u: Seq<char>| #[trigger]
                h.contains(u) <==> exists|b: Seq<char>| #[trigger] related(idx.kv_rtv, k, b, u)
            &&& n == idx.universe.difference(h)
            &&& h.disjoint(n)
            &&& !idx.kv_rtv.contains_key(k) ==> h == Set::<Seq<char>>::empty() && n == idx.universe
            &&& predicate_skips(has, idx) == Seq::<SkipView>::empty()
            &&& predicate_skips(nohas, idx) == Seq::<SkipView>::empty()
        }),
{
    let h = predicate_set(PredicateView { op: Op::Has, key: k, value: None }, idx);
    let n = predicate_set(PredicateView { op: Op::Nohas, key: k, value: None }, idx);
    if !idx.kv_rtv.contains_key(k) {
        assert forall|u: Seq<char>| !h.contains(u) by {
            assert forall|b: Seq<char>| !#[trigger] related(idx.kv_rtv, k, b, u) by {}
        }
        assert(h =~= Set::<Seq<char>>::empty());
        assert(n =~= idx.universe);
    }
}

/// What a numeric operator finds.
pub open spec fn numeric_set(op: Op, k: Seq<char>, v: Seq<char>, idx: IndexesView) -> Set<Seq<char>> {
    predicate_set(PredicateView { op, key: k, value: Some(v) }, idx)
}

proof fn lemma_number_row(rows: Seq<OrdRowView>, op: Op, k: Seq<char>, target: Seq<char>, i: int)
    requires
        0 <= i < rows.len(),
        rows[i].key == k,
        number_holds(op, rows[i].norm, target),
    ensures
        number_matches(rows, op, k, target).contains(rows[i].uuid),
{
}

/// Law: of the numeric operators on a number, `nle` finds what `nlt` or `neq` finds, `nge` what
/// `ngt` or `neq` finds, `nne` the records with a number that `neq` does not find; and `nlt`,
/// `neq` and `ngt` together find the records with a number.
pub proof fn law_numeric_operators(
    k: Seq<char>,
    v: Seq<char>,
    idx: IndexesView,
    rows: Seq<OrdRowView>,
)
    requires
        norm_of(v) is Some,
        idx.ord_ptv == Some(rows),
    ensures
        numeric_set(Op::Nle, k, v, idx) == numeric_set(Op::Nlt, k, v, idx).union(
            numeric_set(Op::Neq, k, v, idx),
        ),
        numeric_set(Op::Nge, k, v, idx) == numeric_set(Op::Ngt, k, v, idx).union(
            numeric_set(Op::Neq, k, v, idx),
        ),
        numeric_set(Op::Nne, k, v, idx) == with_number(rows, k).difference(
            numeric_set(Op::Neq, k, v, idx),
        ),
        numeric_set(Op::Nlt, k, v, idx).union(numeric_set(Op::Neq, k, v, idx)).union(
            numeric_set(Op::Ngt, k, v, idx),
        ) == with_number(rows, k),
{
    let t = norm_of(v)->0;
    let lt = number_matches(rows, Op::Nlt, k, t);
    let le = number_matches(rows, Op::Nle, k, t);
    let eq = number_matches(rows, Op::Neq, k, t);
    let ge = number_matches(rows, Op::Nge, k, t);
    let gt = number_matches(rows, Op::Ngt, k, t);
    let all = with_number(rows, k);
    assert forall|i: int| 0 <= i < rows.len() && (#[trigger] rows[i]).key == k implies (
    number_holds(Op::Nle, rows[i].norm, t) <==> number_holds(Op::Nlt, rows[i].norm, t)
        || number_holds(Op::Neq, rows[i].norm, t)) && (number_holds(Op::Nge, rows[i].norm, t)
        <==> number_holds(Op::Ngt, rows[i].norm, t) || number_holds(Op::Neq, rows[i].norm, t)) && (
    number_holds(Op::Nlt, rows[i].norm, t) || number_holds(Op::Neq, rows[i].norm, t)
        || number_holds(Op::Ngt, rows[i].norm, t)) by {
        let n = rows[i].norm;
        lemma_str_lt_total(n, t);
        lemma_str_lt_irreflexive(t);
        if str_lt(n, t) && str_lt(t, n) {
            lemma_str_lt_transitive(n, t, n);
            lemma_str_lt_irreflexive(n);
        }
    }
    assert(le =~= lt.union(eq)) by {
        assert forall|u: Seq<char>| le.contains(u) <==> lt.union(eq).contains(u) by {
            if le.contains(u) {
                let i = choose|i: int|
                    0 <= i < rows.len() && (#[trigger] rows[i]).key == k && number_holds(
                        Op::Nle,
                        rows[i].norm,
                        t,
                    ) && rows[i].uuid == u;
                if number_holds(Op::Nlt, rows[i].norm, t) {
                    lemma_number_row(rows, Op::Nlt, k, t, i);
                } else {
                    lemma_number_row(rows, Op::Neq, k, t, i);
                }
            }
            if lt.contains(u) {
                let i = choose|i: int|
                    0 <= i < rows.len() && (#[trigger] rows[i]).key == k && number_holds(
                        Op::Nlt,
                        rows[i].norm,
                        t,
                    ) && rows[i].uuid == u;
                lemma_number_row(rows, Op::Nle, k, t, i);
            }
            if eq.contains(u) {
                let i = choose|i: int|
                    0 <= i < rows.len() && (#[trigger] rows[i]).key == k && number_holds(
                        Op::Neq,
                        rows[i].norm,
                        t,
                    ) && rows[i].uuid == u;
                lemma_number_row(rows, Op::Nle, k, t, i);
            }
        }
    }
    assert(ge =~= gt.union(eq)) by {
        assert forall|u: Seq<char>| ge.contains(u) <==> gt.union(eq).contains(u) by {
            if ge.contains(u) {
                let i = choose|i: int|
                    0 <= i < rows.len() && (#[trigger] rows[i]).key == k && number_holds(
                        Op::Nge,
                        rows[i].norm,
                        t,
                    ) && rows[i].uuid == u;
                if number_holds(Op::Ngt, rows[i].norm, t) {
                    lemma_number_row(rows, Op::Ngt, k, t, i);
                } else {
                    lemma_number_row(rows, Op::Neq, k, t, i);
                }
            }
            if gt.contains(u) {
                let i = choose|i: int|
                    0 <= i < rows.len() && (#[trigger] rows[i]).key == k && number_holds(
                        Op::Ngt,
                        rows[i].norm,
                        t,
                    ) && rows[i].uuid == u;
                lemma_number_row(rows, Op::Nge, k, t, i);
            }
            if eq.contains(u) {
                let i = choose|i: int|
                    0 <= i < rows.len() && (#[trigger] rows[i]).key == k && number_holds(
                        Op::Neq,
                        rows[i].norm,
                        t,
                    ) && rows[i].uuid == u;
                lemma_number_row(rows, Op::Nge, k, t, i);
            }
        }
    }
    assert(lt.union(eq).union(gt) =~= all) by {
        assert forall|u: Seq<char>| lt.union(eq).union(gt).contains(u) <==> all.contains(u) by {
            if all.contains(u) {
                let i = choose|i: int|
                    0 <= i < rows.len() && (#[trigger] rows[i]).key == k && rows[i].uuid == u;
                if number_holds(Op::Nlt, rows[i].norm, t) {
                    lemma_number_row(rows, Op::Nlt, k, t, i);
                } else if number_holds(Op::Neq, rows[i].norm, t) {
                    lemma_number_row(rows, Op::Neq, k, t, i);
                } else {
                    lemma_number_row(rows, Op::Ngt, k, t, i);
                }
            }
        }
    }
}

/// Whether no identifier has two lines with key `k`.
pub open spec fn one_number_each(rows: Seq<OrdRowView>, k: Seq<char>) -> bool {
    forall|i: int, j: int|
        0 <= i < rows.len() && 0 <= j < rows.len() && (#[trigger] rows[i]).key == k && (
        #[trigger] rows[j]).key == k && rows[i].uuid == rows[j].uuid ==> i == j
}

/// Law: where no record has two numbers under the key, no two of `nlt`, `neq` and `ngt` find the
/// same record.
pub proof fn law_numeric_operators_disjoint(
    k: Seq<char>,
    v: Seq<char>,
    idx: IndexesView,
    rows: Seq<OrdRowView>,
)
    requires
        norm_of(v) is Some,
        idx.ord_ptv == Some(rows),
        one_number_each(rows, k),
    ensures
        numeric_set(Op::Nlt, k, v, idx).disjoint(numeric_set(Op::Neq, k, v, idx)),
        numeric_set(Op::Neq, k, v, idx).disjoint(numeric_set(Op::Ngt, k, v, idx)),
        numeric_set(Op::Nlt, k, v, idx).disjoint(numeric_set(Op::Ngt, k, v, idx)),
{
    let t = norm_of(v)->0;
    lemma_str_lt_irreflexive(t);
    assert forall|a: Op, b: Op, u: Seq<char>|
        (a is Nlt && b is Neq || a is Neq && b is Ngt || a is Nlt && b is Ngt)
            && #[trigger] number_matches(rows, a, k, t).contains(u) implies !(
    #[trigger] number_matches(rows, b, k, t).contains(u)) by {
        if number_matches(rows, b, k, t).contains(u) {
            let i = choose|i: int|
                0 <= i < rows.len() && (#[trigger] rows[i]).key == k && number_holds(
                    a,
                    rows[i].norm,
                    t,
                ) && rows[i].uuid == u;
            let j = choose|j: int|
                0 <= j < rows.len() && (#[trigger] rows[j]).key == k && number_holds(
                    b,
                    rows[j].norm,
                    t,
                ) && rows[j].uuid == u;
            assert(i == j);
            let n = rows[i].norm;
            if a is Nlt && b is Ngt {
                lemma_str_lt_transitive(n, t, n);
                lemma_str_lt_irreflexive(n);
            }
        }
    }
}

/// Law: a numeric operator finds no record without a number under the key.
pub proof fn law_numeric_operators_need_numbers(
    op: Op,
    k: Seq<char>,
    v: Seq<char>,
    idx: IndexesView,
    rows: Seq<OrdRowView>,
    u: Seq<char>,
)
    requires
        op_is_numeric(op),
        idx.ord_ptv == Some(rows),
        !with_number(rows, k).contains(u),
    ensures
        !numeric_set(op, k, v, idx).contains(u),
{
    if let Some(t) = norm_of(v) {
        assert forall|o: Op| !#[trigger] number_matches(rows, o, k, t).contains(u) by {
            if number_matches(rows, o, k, t).contains(u) {
                let i = choose|i: int|
                    0 <= i < rows.len() && (#[trigger] rows[i]).key == k && number_holds(
                        o,
                        rows[i].norm,
                        t,
                    ) && rows[i].uuid == u;
                assert(with_number(rows, k).contains(u));
            }
        }
    }
}

/// The lines of the flat index in a text, from line `i` on.
pub open spec fn kv_rows_from(ls: Seq<Seq<char>>, i: int) -> Seq<
    (Seq<char>, Seq<char>, Seq<char>),
>
    decreases ls.len() - i,
{
    if i >= ls.len() {
        Seq::empty()
    } else {
        let cols = split(ls[i], '\t');
        let rest = kv_rows_from(ls, i + 1);
        if ls[i].len() == 0 || ls[i][0] == '#' || cols.len() < 3 {
            rest
        } else {
            seq![(lenient(cols[0]), lenient(cols[1]), join(cols.skip(2), "\t"@))] + rest
        }
    }
}

/// The lines of the numeric index in a text, from line `i` on.
pub open spec fn ord_rows_from(ls: Seq<Seq<char>>, i: int) -> Seq<OrdRowView>
    decreases ls.len() - i,
{
    if i >= ls.len() {
        Seq::empty()
    } else {
        let cols = split(ls[i], '\t');
        let rest = ord_rows_from(ls, i + 1);
        if ls[i].len() == 0 || ls[i][0] == '#' || cols.len() < 4 {
            rest
        } else {
            seq![
                OrdRowView {
                    norm: lenient(cols[0]),
                    key: lenient(cols[1]),
                    raw_value: lenient(cols[2]),
                    uuid: join(cols.skip(3), "\t"@),
                },
            ] + rest
        }
    }
}

/// Load the text of the flat index by keys.
pub fn load_kv_ptv_rows(content: &str) -> (r: Vec<KvPtvRow>)
    ensures
        kv_row_views(r@) == kv_rows_from(lines(content@), 0),
{
    let ls = lines_of(content);
    let ghost all = lines(content@);
    let mut rows: Vec<KvPtvRow> = Vec::new();
    let mut i: usize = 0;
    assert(kv_row_views(rows@) + kv_rows_from(all, 0) == kv_rows_from(all, 0));
    while i < ls.len()
        invariant
            i <= ls@.len(),
            all == views(ls@),
            kv_rows_from(all, 0) == kv_row_views(rows@) + kv_rows_from(all, i as int),
        decreases ls@.len() - i,
    {
        let line: &str = ls[i].as_str();
        assert(all[i as int] == line@);
        if !is_skipped(line) {
            let cols = split_on(line, '\t');
            let ghost cs = split(line@, '\t');
            assert(cs.len() == cols@.len());
            if cols.len() >= 3 {
                assert(cs[0] == cols@[0]@ && cs[1] == cols@[1]@);
                let row = KvPtvRow {
                    key: unescape_lenient(cols[0].as_str()),
                    value: unescape_lenient(cols[1].as_str()),
                    uuid: join_with(&tail_of(&cols, 2), "\t"),
                };
                let ghost before = kv_row_views(rows@);
                let ghost rv = row@;
                rows.push(row);
                assert(kv_row_views(rows@) == before.push(rv));
                assert(before + (seq![rv] + kv_rows_from(all, i + 1)) == before.push(rv)
                    + kv_rows_from(all, i + 1));
            }
        }
        i += 1;
    }
    assert(kv_row_views(rows@) + Seq::<(Seq<char>, Seq<char>, Seq<char>)>::empty() == kv_row_views(
        rows@,
    ));
    rows
}

/// Load the text of the numeric index.
pub fn load_ord_ptv_rows(content: &str) -> (r: Vec<OrdRow>)
    ensures
        ord_row_views(r@) == ord_rows_from(lines(content@), 0),
{
    let ls = lines_of(content);
    let ghost all = lines(content@);
    let mut rows: Vec<OrdRow> = Vec::new();
    let mut i: usize = 0;
    assert(ord_row_views(rows@) + ord_rows_from(all, 0) == ord_rows_from(all, 0));
    while i < ls.len()
        invariant
            i <= ls@.len(),
            all == views(ls@),
            ord_rows_from(all, 0) == ord_row_views(rows@) + ord_rows_from(all, i as int),
        decreases ls@.len() - i,
    {
        let line: &str = ls[i].as_str();
        assert(all[i as int] == line@);
        if !is_skipped(line) {
            let cols = split_on(line, '\t');
            let ghost cs = split(line@, '\t');
            assert(cs.len() == cols@.len());
            if cols.len() >= 4 {
                assert(cs[0] == cols@[0]@ && cs[1] == cols@[1]@ && cs[2] == cols@[2]@);
                let row = OrdRow {
                    norm: unescape_lenient(cols[0].as_str()),
                    key: unescape_lenient(cols[1].as_str()),
                    raw_value: unescape_lenient(cols[2].as_str()),
                    uuid: join_with(&tail_of(&cols, 3), "\t"),
                };
                let ghost before = ord_row_views(rows@);
                let ghost rv = row@;
                rows.push(row);
                assert(ord_row_views(rows@) == before.push(rv));
                assert(before + (seq![rv] + ord_rows_from(all, i + 1)) == before.push(rv)
                    + ord_rows_from(all, i + 1));
            }
        }
        i += 1;
    }
    assert(ord_row_views(rows@) + Seq::<OrdRowView>::empty() == ord_row_views(rows@));
    rows
}

/// Which indexes an expression needs: the flat one, and the numeric one.
pub open spec fn node_needs(n: NodeView) -> (bool, bool)
    decreases n,
{
    match n {
        NodeView::Pred(p) => (op_needs_rows(p.op), op_is_numeric(p.op)),
        NodeView::And(c) => nodes_need(c),
        NodeView::Or(c) => nodes_need(c),
    }
}

/// Which indexes expressions need.
pub open spec fn nodes_need(s: Seq<NodeView>) -> (bool, bool)
    decreases s,
{
    if s.len() == 0 {
        (false, false)
    } else {
        let a = nodes_need(s.drop_last());
        let b = node_needs(s.last());
        (a.0 || b.0, a.1 || b.1)
    }
}

proof fn lemma_node_views_take(s: Seq<Node>, i: int)
    requires
        0 <= i < s.len(),
    ensures
        node_views(s.take(i + 1)) == node_views(s.take(i)).push(node_view(s[i])),
{
    assert(s.take(i + 1).drop_last() == s.take(i));
}

proof fn lemma_node_views_len(s: Seq<Node>)
    ensures
        node_views(s).len() == s.len(),
    decreases s.len(),
{
    if s.len() > 0 {
        lemma_node_views_len(s.drop_last());
    }
}

fn node_required_indexes(node: &Node) -> (r: (bool, bool))
    ensures
        r == node_needs(node_view(*node)),
    decreases node,
{
    match node {
        Node::Pred(p) => (p.op.needs_kv_ptv(), p.op.is_numeric()),
        Node::And(c) | Node::Or(c) => {
            let mut need: (bool, bool) = (false, false);
            let mut i: usize = 0;
            while i < c.len()
                invariant
                    i <= c@.len(),
                    need == nodes_need(node_views(c@.take(i as int))),
                    decreases_to!(node => c),
                decreases c@.len() - i,
            {
                proof {
                    lemma_node_views_take(c@, i as int);
                    assert(node_views(c@.take(i + 1)).drop_last() == node_views(
                        c@.take(i as int),
                    ));
                }
                let one = node_required_indexes(&c[i]);
                need = (need.0 || one.0, need.1 || one.1);
                i += 1;
            }
            assert(c@.take(c@.len() as int) == c@);
            need
        },
    }
}

/// Which indexes expressions need: the flat one, and the numeric one.
pub fn required_indexes(nodes: &[Node]) -> (r: (bool, bool))
    ensures
        r == nodes_need(node_views(nodes@)),
{
    let mut need: (bool, bool) = (false, false);
    let mut i: usize = 0;
    while i < nodes.len()
        invariant
            i <= nodes@.len(),
            need == nodes_need(node_views(nodes@.take(i as int))),
        decreases nodes@.len() - i,
    {
        proof {
            lemma_node_views_take(nodes@, i as int);
            assert(node_views(nodes@.take(i + 1)).drop_last() == node_views(nodes@.take(i as int)));
        }
        let one = node_required_indexes(&nodes[i]);
        need = (need.0 || one.0, need.1 || one.1);
        i += 1;
    }
    assert(nodes@.take(nodes@.len() as int) == nodes@);
    need
}

/// Whether `w[at..]` starts with the characters of `v`.
fn matches_at(w: &Vec<char>, at: usize, v: &Vec<char>) -> (r: bool)
    requires
        at + v@.len() <= w@.len(),
    ensures
        r == (w@.subrange(at as int, at + v@.len()) == v@),
{
    let ghost part = w@.subrange(at as int, at + v@.len());
    let total: usize = w.len();
    let mut i: usize = 0;
    while i < v.len()
        invariant
            i <= v@.len(),
            at + v@.len() <= w@.len() == total,
            part == w@.subrange(at as int, at + v@.len()),
            forall|k: int| 0 <= k < i ==> part[k] == v@[k],
        decreases v@.len() - i,
    {
        assert(part[i as int] == w@[at + i]);
        if w[at + i] != v[i] {
            return false;
        }
        i += 1;
    }
    assert(part == v@);
    true
}

/// Whether the characters of `x` stand somewhere in `w`.
fn inside(w: &Vec<char>, x: &Vec<char>) -> (r: bool)
    ensures
        r == is_inside(x@, w@),
{
    let total: usize = w.len();
    if total < x.len() {
        return false;
    }
    let last: usize = total - x.len();
    let mut i: usize = 0;
    while i < last
        invariant
            i <= last,
            w@.len() == total,
            last == total - x@.len(),
            forall|k: int| 0 <= k < i ==> #[trigger] w@.subrange(k, k + x@.len()) != x@,
        decreases last - i,
    {
        if matches_at(w, i, x) {
            return true;
        }
        i += 1;
    }
    matches_at(w, last, x)
}

/// Whether an operator on strings holds for a value and the value of the predicate.
fn text_match(op: Op, value: &str, v: &str) -> (r: bool)
    ensures
        r == text_holds(op, value@, v@),
{
    match op {
        Op::Eq => str_eq(value, v),
        Op::Lt => str_less(value, v),
        Op::Le => !str_less(v, value),
        Op::Gt => str_less(v, value),
        Op::Ge => !str_less(value, v),
        Op::Pre => {
            let w = chars_of(value);
            let x = chars_of(v);
            if w.len() < x.len() {
                return false;
            }
            assert(w@.take(x@.len() as int) == w@.subrange(0, x@.len() as int));
            matches_at(&w, 0, &x)
        },
        Op::Suf => {
            let w = chars_of(value);
            let x = chars_of(v);
            if w.len() < x.len() {
                return false;
            }
            let at: usize = w.len() - x.len();
            assert(w@.skip(at as int) == w@.subrange(at as int, w@.len() as int));
            matches_at(&w, at, &x)
        },
        Op::Sub => inside(&chars_of(value), &chars_of(v)),
        _ => false,
    }
}

/// Whether an operator on numbers holds for two sortable forms.
fn number_match(op: Op, norm: &str, target: &str) -> (r: bool)
    ensures
        r == number_holds(op, norm@, target@),
{
    match op {
        Op::Neq => str_eq(norm, target),
        Op::Nlt => str_less(norm, target),
        Op::Nle => !str_less(target, norm),
        Op::Ngt => str_less(target, norm),
        Op::Nge => !str_less(norm, target),
        _ => false,
    }
}

/// The identifiers of the lines with key `k` for whose value an operator on strings holds.
fn match_rows(rows: &Vec<KvPtvRow>, op: Op, k: &str, v: &str) -> (r: StringSet)
    ensures
        r@ == text_matches(kv_row_views(rows@), op, k@, v@),
{
    let ghost all = kv_row_views(rows@);
    let mut set = StringSet::new();
    let mut i: usize = 0;
    while i < rows.len()
        invariant
            i <= rows@.len(),
            all == kv_row_views(rows@),
            forall|u: Seq<char>| #[trigger]
                set@.contains(u) <==> exists|j: int|
                    0 <= j < i && (#[trigger] all[j]).0 == k@ && text_holds(op, all[j].1, v@)
                        && all[j].2 == u,
        decreases rows@.len() - i,
    {
        let row: &KvPtvRow = &rows[i];
        assert(all[i as int] == row@);
        let ghost before = set@;
        let hit = str_eq(row.key.as_str(), k) && text_match(op, row.value.as_str(), v);
        if hit {
            let _ = set.insert(copy_of(row.uuid.as_str()));
        }
        proof {
            assert forall|u: Seq<char>| #[trigger] set@.contains(u) <==> exists|j: int|
                0 <= j < i + 1 && (#[trigger] all[j]).0 == k@ && text_holds(op, all[j].1, v@)
                    && all[j].2 == u by {
                if before.contains(u) {
                    let j = choose|j: int|
                        0 <= j < i && (#[trigger] all[j]).0 == k@ && text_holds(op, all[j].1, v@)
                            && all[j].2 == u;
                    assert(all[j].2 == u);
                }
                if hit && u == row.uuid@ {
                    assert(all[i as int].2 == u);
                }
            }
        }
        i += 1;
    }
    assert(set@ =~= text_matches(all, op, k@, v@));
    set
}

/// The identifiers of the lines with key `k` for whose number an operator holds.
fn match_numbers(rows: &Vec<OrdRow>, op: Op, k: &str, target: &str) -> (r: StringSet)
    ensures
        r@ == number_matches(ord_row_views(rows@), op, k@, target@),
{
    let ghost all = ord_row_views(rows@);
    let mut set = StringSet::new();
    let mut i: usize = 0;
    while i < rows.len()
        invariant
            i <= rows@.len(),
            all == ord_row_views(rows@),
            forall|u: Seq<char>| #[trigger]
                set@.contains(u) <==> exists|j: int|
                    0 <= j < i && (#[trigger] all[j]).key == k@ && number_holds(
                        op,
                        all[j].norm,
                        target@,
                    ) && all[j].uuid == u,
        decreases rows@.len() - i,
    {
        let row: &OrdRow = &rows[i];
        assert(all[i as int] == row@);
        let ghost before = set@;
        let hit = str_eq(row.key.as_str(), k) && number_match(op, row.norm.as_str(), target);
        if hit {
            let _ = set.insert(copy_of(row.uuid.as_str()));
        }
        proof {
            assert forall|u: Seq<char>| #[trigger] set@.contains(u) <==> exists|j: int|
                0 <= j < i + 1 && (#[trigger] all[j]).key == k@ && number_holds(
                    op,
                    all[j].norm,
                    target@,
                ) && all[j].uuid == u by {
                if before.contains(u) {
                    let j = choose|j: int|
                        0 <= j < i && (#[trigger] all[j]).key == k@ && number_holds(
                            op,
                            all[j].norm,
                            target@,
                        ) && all[j].uuid == u;
                    assert(all[j].uuid == u);
                }
                if hit && u == row.uuid@ {
                    assert(all[i as int].uuid == u);
                }
            }
        }
        i += 1;
    }
    assert(set@ =~= number_matches(all, op, k@, target@));
    set
}

/// The identifiers with a number under key `k`.
fn numbered(rows: &Vec<OrdRow>, k: &str) -> (r: StringSet)
    ensures
        r@ == with_number(ord_row_views(rows@), k@),
{
    let ghost all = ord_row_views(rows@);
    let mut set = StringSet::new();
    let mut i: usize = 0;
    while i < rows.len()
        invariant
            i <= rows@.len(),
            all == ord_row_views(rows@),
            forall|u: Seq<char>| #[trigger]
                set@.contains(u) <==> exists|j: int|
                    0 <= j < i && (#[trigger] all[j]).key == k@ && all[j].uuid == u,
        decreases rows@.len() - i,
    {
        let row: &OrdRow = &rows[i];
        assert(all[i as int] == row@);
        let ghost before = set@;
        let hit = str_eq(row.key.as_str(), k);
        if hit {
            let _ = set.insert(copy_of(row.uuid.as_str()));
        }
        proof {
            assert forall|u: Seq<char>| #[trigger] set@.contains(u) <==> exists|j: int|
                0 <= j < i + 1 && (#[trigger] all[j]).key == k@ && all[j].uuid == u by {
                if before.contains(u) {
                    let j = choose|j: int|
                        0 <= j < i && (#[trigger] all[j]).key == k@ && all[j].uuid == u;
                    assert(all[j].uuid == u);
                }
                if hit && u == row.uuid@ {
                    assert(all[i as int].uuid == u);
                }
            }
        }
        i += 1;
    }
    assert(set@ =~= with_number(all, k@));
    set
}

impl Warnings {
    /// Note a skip.
    fn note(&mut self, op: Op, key: &str, value: &str, count: usize)
        ensures
            final(self)@ == old(self)@.push(
                SkipView { op, key: key@, value: value@, count: count as nat },
            ),
    {
        let ghost before = self@;
        let skip = NumericSkip { op, key: copy_of(key), value: copy_of(value), count };
        let ghost sv = skip@;
        self.numeric_skips.push(skip);
        assert(self@ == before.push(sv));
    }
}

/// The identifiers that have the key with this value.
fn eq_uuids(key: &str, value: &str, idx: &Indexes) -> (r: StringSet)
    ensures
        r@ == equal_set(key@, value@, idx@),
{
    match &idx.kv_ptv {
        Some(rows) => match_rows(rows, Op::Eq, key, value),
        None => cell_uuids(&idx.kv_rtv, key, value),
    }
}

/// The identifiers for which a numeric predicate holds; its skips are noted.
fn resolve_numeric(p: &Predicate, v: &str, idx: &Indexes, warnings: &mut Warnings) -> (r: StringSet)
    requires
        op_is_numeric(p.op),
        v@ == value_or_empty(p@),
    ensures
        r@ == predicate_set(p@, idx@),
        final(warnings)@ == old(warnings)@ + predicate_skips(p@, idx@),
{
    let key: &str = p.key.as_str();
    let target = match encode_norm(v) {
        Some(n) => n,
        None => {
            warnings.note(p.op, key, v, 1);
            assert(warnings@ == old(warnings)@ + predicate_skips(p@, idx@));
            return StringSet::new();
        },
    };
    let rows = match &idx.ord_ptv {
        Some(rows) => rows,
        None => {
            assert(old(warnings)@ + predicate_skips(p@, idx@) == old(warnings)@);
            return StringSet::new();
        },
    };
    let numbers = numbered(rows, key);
    let skipped = select(&row_uuids(&idx.kv_rtv, key), &numbers, false).len();
    if skipped > 0 {
        warnings.note(p.op, key, v, skipped);
        assert(warnings@ == old(warnings)@ + predicate_skips(p@, idx@));
    } else {
        assert(old(warnings)@ + predicate_skips(p@, idx@) == old(warnings)@);
    }
    if p.op == Op::Nne {
        let equal = match_numbers(rows, Op::Neq, key, target.as_str());
        select(&numbers, &equal, false)
    } else {
        match_numbers(rows, p.op, key, target.as_str())
    }
}

/// The identifiers for which a predicate holds; its skips are noted.
pub fn resolve_predicate(p: &Predicate, idx: &Indexes, warnings: &mut Warnings) -> (r: StringSet)
    ensures
        r@ == predicate_set(p@, idx@),
        final(warnings)@ == old(warnings)@ + predicate_skips(p@, idx@),
{
    let empty = String::new();
    let v: &str = match &p.value {
        Some(v) => v.as_str(),
        None => empty.as_str(),
    };
    assert(v@ == value_or_empty(p@));
    let key: &str = p.key.as_str();
    if p.op.is_numeric() {
        return resolve_numeric(p, v, idx, warnings);
    }
    assert(old(warnings)@ + predicate_skips(p@, idx@) == old(warnings)@);
    match p.op {
        Op::Has => row_uuids(&idx.kv_rtv, key),
        Op::Nohas => select(&idx.universe, &row_uuids(&idx.kv_rtv, key), false),
        Op::Eq => eq_uuids(key, v, idx),
        Op::Ne => select(&row_uuids(&idx.kv_rtv, key), &eq_uuids(key, v, idx), false),
        _ => match &idx.kv_ptv {
            Some(rows) => match_rows(rows, p.op, key, v),
            None => StringSet::new(),
        },
    }
}

/// A copy of a set.
fn copy_set(s: &StringSet) -> (r: StringSet)
    ensures
        r@ == s@,
{
    let mut r = StringSet::new();
    add_all(&mut r, s);
    assert(r@ =~= s@);
    r
}

/// The identifiers for which an expression holds; its skips are noted.
fn resolve_node(node: &Node, idx: &Indexes, warnings: &mut Warnings) -> (r: StringSet)
    ensures
        r@ == node_set(node_view(*node), idx@),
        final(warnings)@ == old(warnings)@ + node_skips(node_view(*node), idx@),
    decreases node,
{
    match node {
        Node::Pred(p) => resolve_predicate(p, idx, warnings),
        Node::And(c) => {
            if c.len() == 0 {
                assert(node_views(c@) == Seq::<NodeView>::empty());
                assert(old(warnings)@ + Seq::<SkipView>::empty() == old(warnings)@);
                return copy_set(&idx.universe);
            }
            let mut acc = StringSet::new();
            let mut i: usize = 0;
            assert(old(warnings)@ + Seq::<SkipView>::empty() == old(warnings)@);
            while i < c.len()
                invariant
                    i <= c@.len(),
                    acc@ == all_set(node_views(c@.take(i as int)), idx@),
                    warnings@ == old(warnings)@ + nodes_skips(node_views(c@.take(i as int)), idx@),
                    decreases_to!(node => c),
                decreases c@.len() - i,
            {
                let ghost done = node_views(c@.take(i as int));
                let ghost noted = warnings@;
                proof {
                    lemma_node_views_take(c@, i as int);
                    lemma_node_views_len(c@.take(i as int));
                    assert(node_views(c@.take(i + 1)).drop_last() == done);
                }
                let one = resolve_node(&c[i], idx, warnings);
                acc = if i == 0 {
                    one
                } else {
                    select(&acc, &one, true)
                };
                proof {
                    let more = node_skips(node_view(c@[i as int]), idx@);
                    assert(old(warnings)@ + nodes_skips(done, idx@) + more == old(warnings)@ + (
                    nodes_skips(done, idx@) + more));
                }
                i += 1;
            }
            proof {
                assert(c@.take(c@.len() as int) == c@);
                lemma_node_views_len(c@);
            }
            acc
        },
        Node::Or(c) => {
            let mut acc = StringSet::new();
            let mut i: usize = 0;
            assert(old(warnings)@ + Seq::<SkipView>::empty() == old(warnings)@);
            while i < c.len()
                invariant
                    i <= c@.len(),
                    acc@ == any_set(node_views(c@.take(i as int)), idx@),
                    warnings@ == old(warnings)@ + nodes_skips(node_views(c@.take(i as int)), idx@),
                    decreases_to!(node => c),
                decreases c@.len() - i,
            {
                let ghost done = node_views(c@.take(i as int));
                proof {
                    lemma_node_views_take(c@, i as int);
                    assert(node_views(c@.take(i + 1)).drop_last() == done);
                }
                let one = resolve_node(&c[i], idx, warnings);
                add_all(&mut acc, &one);
                proof {
                    let more = node_skips(node_view(c@[i as int]), idx@);
                    assert(old(warnings)@ + nodes_skips(done, idx@) + more == old(warnings)@ + (
                    nodes_skips(done, idx@) + more));
                }
                i += 1;
            }
            assert(c@.take(c@.len() as int) == c@);
            acc
        },
    }
}

/// The identifiers that the expressions of a filter find; the skips are noted.
pub fn resolve_nodes(nodes: &[Node], mode: FilterMode, idx: &Indexes, warnings: &mut Warnings) -> (r:
    StringSet)
    ensures
        r@ == filter_set(mode, node_views(nodes@), idx@),
        final(warnings)@ == old(warnings)@ + nodes_skips(node_views(nodes@), idx@),
{
    if nodes.len() == 0 {
        assert(node_views(nodes@) == Seq::<NodeView>::empty());
        assert(old(warnings)@ + Seq::<SkipView>::empty() == old(warnings)@);
        return copy_set(&idx.universe);
    }
    let mut acc = StringSet::new();
    let mut i: usize = 0;
    assert(old(warnings)@ + Seq::<SkipView>::empty() == old(warnings)@);
    while i < nodes.len()
        invariant
            i <= nodes@.len(),
            acc@ == (match mode {
                FilterMode::Union => any_set(node_views(nodes@.take(i as int)), idx@),
                FilterMode::Intersect => all_set(node_views(nodes@.take(i as int)), idx@),
            }),
            warnings@ == old(warnings)@ + nodes_skips(node_views(nodes@.take(i as int)), idx@),
        decreases nodes@.len() - i,
    {
        let ghost done = node_views(nodes@.take(i as int));
        proof {
            lemma_node_views_take(nodes@, i as int);
            lemma_node_views_len(nodes@.take(i as int));
            assert(node_views(nodes@.take(i + 1)).drop_last() == done);
        }
        let one = resolve_node(&nodes[i], idx, warnings);
        match mode {
            FilterMode::Union => {
                add_all(&mut acc, &one);
            },
            FilterMode::Intersect => {
                acc = if i == 0 {
                    one
                } else {
                    select(&acc, &one, true)
                };
            },
        }
        proof {
            let more = node_skips(node_view(nodes@[i as int]), idx@);
            assert(old(warnings)@ + nodes_skips(done, idx@) + more == old(warnings)@ + (nodes_skips(
                done,
                idx@,
            ) + more));
        }
        i += 1;
    }
    proof {
        assert(nodes@.take(nodes@.len() as int) == nodes@);
        lemma_node_views_len(nodes@);
    }
    acc
}

/// Whether two skips are of the same predicate.
pub open spec fn same_predicate(a: SkipView, b: SkipView) -> bool {
    a.op == b.op && a.key == b.key && a.value == b.value
}

/// How many records were left out in the skips of the predicate of `s`.
pub open spec fn total_skipped(v: Seq<SkipView>, s: SkipView) -> nat
    decreases v.len(),
{
    if v.len() == 0 {
        0
    } else {
        total_skipped(v.drop_last(), s) + if same_predicate(v.last(), s) {
            v.last().count
        } else {
            0
        }
    }
}

/// Whether the skip at place `i` is the first of its predicate.
pub open spec fn is_first_skip(v: Seq<SkipView>, i: int) -> bool {
    forall|j: int| 0 <= j < i ==> !same_predicate(#[trigger] v[j], v[i])
}

/// The warning about the predicate of a skip.
pub open spec fn skip_text(v: Seq<SkipView>, s: SkipView) -> Seq<char> {
    "warning: '"@ + op_text(s.op) + " "@ + s.key + " "@ + (s.value + "' skipped "@ + dec(
        total_skipped(v, s),
    ) + " record(s) with non-numeric value"@)
}

/// The warnings about the predicates of the first `n` skips: one each, where it first comes.
pub open spec fn skip_texts(v: Seq<SkipView>, n: int) -> Seq<Seq<char>>
    decreases n,
{
    if n <= 0 {
        Seq::empty()
    } else if is_first_skip(v, n - 1) {
        skip_texts(v, n - 1).push(skip_text(v, v[n - 1]))
    } else {
        skip_texts(v, n - 1)
    }
}

fn same_skip(a: &NumericSkip, b: &NumericSkip) -> (r: bool)
    ensures
        r == same_predicate(a@, b@),
{
    a.op == b.op && str_eq(a.key.as_str(), b.key.as_str()) && str_eq(
        a.value.as_str(),
        b.value.as_str(),
    )
}

/// `n` in decimal.
fn dec_large(n: u128) -> (r: String)
    ensures
        r@ == dec(n as nat),
    decreases n,
{
    if n < 10 {
        let mut r = String::new();
        r.push(crate::text::digit_char(n as u64));
        assert(r@ == dec(n as nat));
        r
    } else {
        let mut r = dec_large(n / 10);
        r.push(crate::text::digit_char((n % 10) as u64));
        r
    }
}

impl Warnings {
    /// The warnings to show, one for each numeric predicate that left records out.
    pub fn messages(&self) -> (r: Vec<String>)
        ensures
            views(r@) == skip_texts(self@, self@.len() as int),
    {
        let v: &Vec<NumericSkip> = &self.numeric_skips;
        let ghost all = self@;
        let mut out: Vec<String> = Vec::new();
        let mut i: usize = 0;
        assert(views(out@) == Seq::<Seq<char>>::empty());
        while i < v.len()
            invariant
                i <= v@.len(),
                all == skip_views(v@),
                views(out@) == skip_texts(all, i as int),
            decreases v@.len() - i,
        {
            assert(all[i as int] == v@[i as int]@);
            let mut first = true;
            let mut j: usize = 0;
            while j < i
                invariant
                    j <= i < v@.len(),
                    all == skip_views(v@),
                    first == forall|k: int|
                        0 <= k < j ==> !same_predicate(#[trigger] all[k], all[i as int]),
                decreases i - j,
            {
                assert(all[j as int] == v@[j as int]@);
                if same_skip(&v[j], &v[i]) {
                    first = false;
                }
                j += 1;
            }
            if first {
                let mut total: u128 = 0;
                let mut n: usize = 0;
                while n < v.len()
                    invariant
                        n <= v@.len(),
                        i < v@.len(),
                        all == skip_views(v@),
                        total == total_skipped(all.take(n as int), all[i as int]),
                        total <= n * usize::MAX,
                    decreases v@.len() - n,
                {
                    assert(all.take(n + 1).drop_last() == all.take(n as int));
                    assert(all.take(n + 1).last() == v@[n as int]@);
                    assert((n + 1) * usize::MAX == n * usize::MAX + usize::MAX) by (nonlinear_arith);
                    assert(n * usize::MAX <= usize::MAX * usize::MAX) by (nonlinear_arith)
                        requires
                            n <= usize::MAX,
                    ;
                    assert(usize::MAX * usize::MAX + usize::MAX <= u128::MAX) by (nonlinear_arith)
                        requires
                            0 <= usize::MAX <= 0xffff_ffff_ffff_ffff,
                    ;
                    if same_skip(&v[n], &v[i]) {
                        total = total + v[n].count as u128;
                    }
                    n += 1;
                }
                assert(all.take(all.len() as int) == all);
                let tail = crate::text::cat4(
                    v[i].value.as_str(),
                    "' skipped ",
                    dec_large(total).as_str(),
                    " record(s) with non-numeric value",
                );
                let head = cat5("warning: '", v[i].op.name(), " ", v[i].key.as_str(), " ");
                push_string(&mut out, cat2(head.as_str(), tail.as_str()));
            }
            i += 1;
        }
        out
    }
}

/// What the texts of the indexes hold.
pub open spec fn indexes_of(
    kv_rtv: Seq<char>,
    uuids: Seq<char>,
    kv_ptv: Option<Seq<char>>,
    ord_ptv: Option<Seq<char>>,
) -> IndexesView {
    IndexesView {
        kv_rtv: index_from(lines(kv_rtv), 0, Map::empty()),
        universe: content_lines(lines(uuids)),
        kv_ptv: match kv_ptv {
            Some(t) => Some(kv_rows_from(lines(t), 0)),
            None => None,
        },
        ord_ptv: match ord_ptv {
            Some(t) => Some(ord_rows_from(lines(t), 0)),
            None => None,
        },
    }
}

/// Load the texts of the indexes.
pub fn load_indexes(kv_rtv: &str, uuids: &str, kv_ptv: Option<&str>, ord_ptv: Option<&str>) -> (r:
    Indexes)
    ensures
        r@ == indexes_of(kv_rtv@, uuids@, text_view(kv_ptv), text_view(ord_ptv)),
{
    Indexes {
        kv_rtv: load_rtv_index(kv_rtv),
        universe: load_uuid_universe(uuids),
        kv_ptv: match kv_ptv {
            Some(t) => Some(load_kv_ptv_rows(t)),
            None => None,
        },
        ord_ptv: match ord_ptv {
            Some(t) => Some(load_ord_ptv_rows(t)),
            None => None,
        },
    }
}

/// The identifiers that a filter finds, in order, and the warnings to show.
pub fn resolve_filter(ftv: &FtvFile, idx: &Indexes) -> (r: (Vec<String>, Vec<String>))
    ensures
        views(r.0@) == listed(filter_set(ftv.mode, node_views(ftv.nodes@), idx@)),
        ordered(views(r.0@)),
        views(r.0@).to_set() == filter_set(ftv.mode, node_views(ftv.nodes@), idx@),
        views(r.1@) == skip_texts(
            nodes_skips(node_views(ftv.nodes@), idx@),
            nodes_skips(node_views(ftv.nodes@), idx@).len() as int,
        ),
{
    let mut warnings = Warnings::default();
    let found = resolve_nodes(ftv.nodes.as_slice(), ftv.mode, idx, &mut warnings);
    assert(warnings@ == nodes_skips(node_views(ftv.nodes@), idx@));
    (set_to_vec(&found), warnings.messages())
}

} // verus!
