//! Filters: predicates on keys and values, combined by `and` and `or`.
//!
//! A predicate is an operator, a key and, for most operators, a value, separated by tabs. Lines
//! from `and` or `or` to `end` are combined; blocks may be nested four deep. The first line may
//! say `# mode` and `union` or `intersect`, the default.
use crate::action::{is_skipped, looks_like_literal, looks_literal, parse_err};
use crate::error::{debug_of, debug_text, outcome, parse_error, ErrorView, Result};
use crate::escape::{unescape, unescaped};
use crate::query::{mode_of, parse_mode, tail_of, FilterMode};
use crate::text::{
    cat2, cat3, cat5, copy_of, dec, dec_of, join, join_with, lines, lines_of, split, split_on,
    str_eq, views,
};
use vstd::prelude::*;

pub use crate::resolve::{
    required_indexes, resolve_nodes, Indexes, KvPtvRow, NumericSkip, OrdRow, Warnings,
};

verus! {

/// How deep blocks may be nested.
pub const MAX_NESTING_DEPTH: usize = 4;

/// An operator.
#[derive(Debug, Clone, Copy, PartialEq, Eq, Structural)]
pub enum Op {
    Has,
    Nohas,
    Eq,
    Ne,
    Lt,
    Le,
    Gt,
    Ge,
    Pre,
    Suf,
    Sub,
    Neq,
    Nne,
    Nlt,
    Nle,
    Ngt,
    Nge,
}

/// The word for an operator.
pub open spec fn op_text(op: Op) -> Seq<char> {
    match op {
        Op::Has => "has"@,
        Op::Nohas => "nohas"@,
        Op::Eq => "eq"@,
        Op::Ne => "ne"@,
        Op::Lt => "lt"@,
        Op::Le => "le"@,
        Op::Gt => "gt"@,
        Op::Ge => "ge"@,
        Op::Pre => "pre"@,
        Op::Suf => "suf"@,
        Op::Sub => "sub"@,
        Op::Neq => "neq"@,
        Op::Nne => "nne"@,
        Op::Nlt => "nlt"@,
        Op::Nle => "nle"@,
        Op::Ngt => "ngt"@,
        Op::Nge => "nge"@,
    }
}

/// The operator that a word stands for.
pub open spec fn op_of(s: Seq<char>) -> Option<Op> {
    if s == "has"@ {
        Some(Op::Has)
    } else if s == "nohas"@ {
        Some(Op::Nohas)
    } else if s == "eq"@ {
        Some(Op::Eq)
    } else if s == "ne"@ {
        Some(Op::Ne)
    } else if s == "lt"@ {
        Some(Op::Lt)
    } else if s == "le"@ {
        Some(Op::Le)
    } else if s == "gt"@ {
        Some(Op::Gt)
    } else if s == "ge"@ {
        Some(Op::Ge)
    } else if s == "pre"@ {
        Some(Op::Pre)
    } else if s == "suf"@ {
        Some(Op::Suf)
    } else if s == "sub"@ {
        Some(Op::Sub)
    } else if s == "neq"@ {
        Some(Op::Neq)
    } else if s == "nne"@ {
        Some(Op::Nne)
    } else if s == "nlt"@ {
        Some(Op::Nlt)
    } else if s == "nle"@ {
        Some(Op::Nle)
    } else if s == "ngt"@ {
        Some(Op::Ngt)
    } else if s == "nge"@ {
        Some(Op::Nge)
    } else {
        None
    }
}

/// Whether an operator compares numbers.
pub open spec fn op_is_numeric(op: Op) -> bool {
    op is Neq || op is Nne || op is Nlt || op is Nle || op is Ngt || op is Nge
}

/// Whether an operator compares strings by more than equality.
pub open spec fn op_needs_rows(op: Op) -> bool {
    op is Lt || op is Le || op is Gt || op is Ge || op is Pre || op is Suf || op is Sub
}

/// Whether an operator takes a value.
pub open spec fn op_takes_value(op: Op) -> bool {
    !(op is Has || op is Nohas)
}

impl Op {
    fn from_str(s: &str) -> (r: Option<Op>)
        ensures
            r == op_of(s@),
    {
        if str_eq(s, "has") {
            Some(Op::Has)
        } else if str_eq(s, "nohas") {
            Some(Op::Nohas)
        } else if str_eq(s, "eq") {
            Some(Op::Eq)
        } else if str_eq(s, "ne") {
            Some(Op::Ne)
        } else if str_eq(s, "lt") {
            Some(Op::Lt)
        } else if str_eq(s, "le") {
            Some(Op::Le)
        } else if str_eq(s, "gt") {
            Some(Op::Gt)
        } else if str_eq(s, "ge") {
            Some(Op::Ge)
        } else if str_eq(s, "pre") {
            Some(Op::Pre)
        } else if str_eq(s, "suf") {
            Some(Op::Suf)
        } else if str_eq(s, "sub") {
            Some(Op::Sub)
        } else if str_eq(s, "neq") {
            Some(Op::Neq)
        } else if str_eq(s, "nne") {
            Some(Op::Nne)
        } else if str_eq(s, "nlt") {
            Some(Op::Nlt)
        } else if str_eq(s, "nle") {
            Some(Op::Nle)
        } else if str_eq(s, "ngt") {
            Some(Op::Ngt)
        } else if str_eq(s, "nge") {
            Some(Op::Nge)
        } else {
            None
        }
    }

    /// The word for the operator.
    pub fn name(self) -> (r: &'static str)
        ensures
            r@ == op_text(self),
    {
        match self {
            Op::Has => "has",
            Op::Nohas => "nohas",
            Op::Eq => "eq",
            Op::Ne => "ne",
            Op::Lt => "lt",
            Op::Le => "le",
            Op::Gt => "gt",
            Op::Ge => "ge",
            Op::Pre => "pre",
            Op::Suf => "suf",
            Op::Sub => "sub",
            Op::Neq => "neq",
            Op::Nne => "nne",
            Op::Nlt => "nlt",
            Op::Nle => "nle",
            Op::Ngt => "ngt",
            Op::Nge => "nge",
        }
    }

    /// Whether the operator compares numbers.
    pub fn is_numeric(self) -> (r: bool)
        ensures
            r == op_is_numeric(self),
    {
        match self {
            Op::Neq | Op::Nne | Op::Nlt | Op::Nle | Op::Ngt | Op::Nge => true,
            _ => false,
        }
    }

    /// Whether the operator needs the flat index: it compares strings by more than equality.
    pub fn needs_kv_ptv(self) -> (r: bool)
        ensures
            r == op_needs_rows(self),
    {
        match self {
            Op::Lt | Op::Le | Op::Gt | Op::Ge | Op::Pre | Op::Suf | Op::Sub => true,
            _ => false,
        }
    }

    /// Whether the operator takes a value.
    pub fn takes_value(self) -> (r: bool)
        ensures
            r == op_takes_value(self),
    {
        match self {
            Op::Has | Op::Nohas => false,
            _ => true,
        }
    }
}

/// An operator applied to a key and perhaps a value.
#[derive(Debug)]
pub struct Predicate {
    pub op: Op,
    pub key: String,
    pub value: Option<String>,
}

/// What a predicate says.
#[verifier::ext_equal]
pub struct PredicateView {
    pub op: Op,
    pub key: Seq<char>,
    pub value: Option<Seq<char>>,
}

impl View for Predicate {
    type V = PredicateView;

    open spec fn view(&self) -> PredicateView {
        PredicateView {
            op: self.op,
            key: self.key@,
            value: match self.value {
                Some(v) => Some(v@),
                None => None,
            },
        }
    }
}

/// A filter expression.
#[derive(Debug)]
pub enum Node {
    Pred(Predicate),
    And(Vec<Node>),
    Or(Vec<Node>),
}

/// What a filter expression says.
pub enum NodeView {
    Pred(PredicateView),
    And(Seq<NodeView>),
    Or(Seq<NodeView>),
}

/// What a filter expression says.
pub open spec fn node_view(n: Node) -> NodeView
    decreases n,
{
    match n {
        Node::Pred(p) => NodeView::Pred(p@),
        Node::And(c) => NodeView::And(node_views(c@)),
        Node::Or(c) => NodeView::Or(node_views(c@)),
    }
}

/// What filter expressions say.
pub open spec fn node_views(s: Seq<Node>) -> Seq<NodeView>
    decreases s,
{
    if s.len() == 0 {
        Seq::empty()
    } else {
        node_views(s.drop_last()).push(node_view(s.last()))
    }
}

impl View for Node {
    type V = NodeView;

    open spec fn view(&self) -> NodeView {
        node_view(*self)
    }
}

/// A filter: a mode and expressions.
#[derive(Debug)]
pub struct FtvFile {
    pub mode: FilterMode,
    pub nodes: Vec<Node>,
}

impl View for FtvFile {
    type V = (FilterMode, Seq<NodeView>);

    open spec fn view(&self) -> (FilterMode, Seq<NodeView>) {
        (self.mode, node_views(self.nodes@))
    }
}

/// The value of a predicate line, or why it is malformed.
pub open spec fn value_of(cols: Seq<Seq<char>>, op: Op, n: usize) -> core::result::Result<
    Option<Seq<char>>,
    ErrorView,
> {
    if !op_takes_value(op) {
        if cols.len() >= 3 {
            parse_err(
                n,
                "op "@ + debug_text(op_text(op)) + " takes only a key, but extra column found"@,
            )
        } else {
            Ok(None)
        }
    } else if cols.len() < 3 {
        parse_err(n, "op "@ + debug_text(op_text(op)) + " requires a value"@)
    } else {
        match unescaped(join(cols.skip(2), "\t"@)) {
            Err(e) => parse_err(n, "predicate value unescape error: "@ + e.text()),
            Ok(v) => if looks_like_literal(v) {
                parse_err(
                    n,
                    "value "@ + debug_text(v) + " for op "@ + debug_text(op_text(op))
                        + " looks like an array/object literal; array literals are not allowed in .ftv predicates"@,
                )
            } else {
                Ok(Some(v))
            },
        }
    }
}

/// The predicate that a line says, or why it is malformed.
#[verifier::opaque]
pub open spec fn predicate_of(line: Seq<char>, n: usize) -> core::result::Result<
    PredicateView,
    ErrorView,
> {
    let cols = split(line, '\t');
    match op_of(cols[0]) {
        None => parse_err(
            n,
            "unknown op "@ + debug_text(cols[0]) + " (line "@ + dec(n as nat) + ")"@,
        ),
        Some(op) => if cols.len() < 2 {
            parse_err(n, "predicate "@ + debug_text(cols[0]) + " missing key"@)
        } else {
            match unescaped(cols[1]) {
                Err(e) => parse_err(n, "predicate key unescape error: "@ + e.text()),
                Ok(key) => match value_of(cols, op, n) {
                    Err(e) => Err(e),
                    Ok(value) => Ok(PredicateView { op, key, value }),
                },
            }
        },
    }
}

/// Whether a line opens a block.
pub open spec fn opens_block(line: Seq<char>) -> bool {
    line == "and"@ || line == "or"@
}

/// The expression of a block that the line `head` opens.
pub open spec fn block_node(head: Seq<char>, children: Seq<NodeView>) -> NodeView {
    if head == "and"@ {
        NodeView::And(children)
    } else {
        NodeView::Or(children)
    }
}

/// The expressions of the lines from `i` on up to the `end` of the block that line `start` opens,
/// and the place of that `end`. The block is nested `depth` deep.
pub open spec fn block_from(ls: Seq<Seq<char>>, i: int, start: int, depth: nat) -> core::result::Result<
    (Seq<NodeView>, int),
    ErrorView,
>
    decreases ls.len() - i,
{
    if i >= ls.len() {
        parse_err(
            (start + 1) as usize,
            "unterminated '"@ + ls[start] + "' block (no matching 'end')"@,
        )
    } else if ls[i].len() == 0 || ls[i][0] == '#' {
        block_from(ls, i + 1, start, depth)
    } else if ls[i] == "end"@ {
        Ok((Seq::empty(), i))
    } else if opens_block(ls[i]) {
        if depth >= MAX_NESTING_DEPTH {
            parse_err((i + 1) as usize, "nesting limit 4 exceeded"@)
        } else {
            match block_from(ls, i + 1, i, depth + 1) {
                Err(e) => Err(e),
                Ok((children, end)) => {
                    let next = if i < end < ls.len() {
                        end + 1
                    } else {
                        i + 1
                    };
                    match block_from(ls, next, start, depth) {
                        Err(e) => Err(e),
                        Ok((rest, last)) => Ok((seq![block_node(ls[i], children)] + rest, last)),
                    }
                },
            }
        }
    } else {
        match predicate_of(ls[i], (i + 1) as usize) {
            Err(e) => Err(e),
            Ok(p) => match block_from(ls, i + 1, start, depth) {
                Err(e) => Err(e),
                Ok((rest, last)) => Ok((seq![NodeView::Pred(p)] + rest, last)),
            },
        }
    }
}

/// The end of a block lies behind its start.
pub proof fn lemma_block_end(ls: Seq<Seq<char>>, i: int, start: int, depth: nat)
    ensures
        block_from(ls, i, start, depth) matches Ok(p) ==> i <= p.1 < ls.len(),
    decreases ls.len() - i,
{
    if i < ls.len() {
        lemma_block_end(ls, i + 1, start, depth);
        if ls[i].len() > 0 && ls[i][0] != '#' && opens_block(ls[i]) && depth < MAX_NESTING_DEPTH {
            lemma_block_end(ls, i + 1, i, depth + 1);
            match block_from(ls, i + 1, i, depth + 1) {
                Ok(p) => lemma_block_end(ls, p.1 + 1, start, depth),
                Err(e) => {},
            }
        }
    }
}

/// The mode and the expressions of the lines from `i` on; the mode may still be declared unless
/// `begun`.
pub open spec fn filter_from(ls: Seq<Seq<char>>, i: int, begun: bool) -> core::result::Result<
    (FilterMode, Seq<NodeView>),
    ErrorView,
>
    decreases ls.len() - i,
{
    if i >= ls.len() {
        Ok((FilterMode::Intersect, Seq::empty()))
    } else if ls[i].len() == 0 {
        filter_from(ls, i + 1, begun)
    } else if !begun && mode_of(ls[i]) is Some {
        match filter_from(ls, i + 1, true) {
            Err(e) => Err(e),
            Ok((_, ns)) => Ok((mode_of(ls[i])->0, ns)),
        }
    } else if ls[i][0] == '#' {
        filter_from(ls, i + 1, true)
    } else if opens_block(ls[i]) {
        match block_from(ls, i + 1, i, 1) {
            Err(e) => Err(e),
            Ok((children, end)) => {
                let next = if i < end < ls.len() {
                    end + 1
                } else {
                    i + 1
                };
                match filter_from(ls, next, true) {
                    Err(e) => Err(e),
                    Ok((m, rest)) => Ok((m, seq![block_node(ls[i], children)] + rest)),
                }
            },
        }
    } else {
        match predicate_of(ls[i], (i + 1) as usize) {
            Err(e) => Err(e),
            Ok(p) => match filter_from(ls, i + 1, true) {
                Err(e) => Err(e),
                Ok((m, rest)) => Ok((m, seq![NodeView::Pred(p)] + rest)),
            },
        }
    }
}

fn parse_value(cols: &Vec<String>, op: Op, n: usize) -> (r: Result<Option<String>>)
    requires
        cols@.len() >= 2,
    ensures
        match r {
            Err(e) => value_of(views(cols@), op, n) == Err::<Option<Seq<char>>, ErrorView>(e@),
            Ok(None) => value_of(views(cols@), op, n) == Ok::<Option<Seq<char>>, ErrorView>(None),
            Ok(Some(v)) => value_of(views(cols@), op, n) == Ok::<Option<Seq<char>>, ErrorView>(
                Some(v@),
            ),
        },
{
    assert(views(cols@).len() == cols@.len());
    let shown = debug_of(op.name());
    if !op.takes_value() {
        if cols.len() >= 3 {
            return Err(
                parse_error(
                    n,
                    cat3("op ", shown.as_str(), " takes only a key, but extra column found"),
                ),
            );
        }
        return Ok(None);
    }
    if cols.len() < 3 {
        return Err(parse_error(n, cat3("op ", shown.as_str(), " requires a value")));
    }
    let raw = join_with(&tail_of(cols, 2), "\t");
    let v = match unescape(raw.as_str()) {
        Ok(v) => v,
        Err(e) => {
            return Err(
                parse_error(n, cat2("predicate value unescape error: ", e.message().as_str())),
            );
        },
    };
    if looks_literal(v.as_str()) {
        return Err(
            parse_error(
                n,
                cat5(
                    "value ",
                    debug_of(v.as_str()).as_str(),
                    " for op ",
                    shown.as_str(),
                    " looks like an array/object literal; array literals are not allowed in .ftv predicates",
                ),
            ),
        );
    }
    Ok(Some(v))
}

/// Parse one predicate line.
fn parse_predicate_line(line: &str, line_no: usize) -> (r: Result<Predicate>)
    ensures
        outcome(r) == predicate_of(line@, line_no),
{
    reveal(predicate_of);
    let cols = split_on(line, '\t');
    let ghost all = split(line@, '\t');
    assert(all.len() == cols@.len());
    assert(all[0] == cols@[0]@);
    let op = match Op::from_str(cols[0].as_str()) {
        Some(op) => op,
        None => {
            return Err(
                parse_error(
                    line_no,
                    cat5(
                        "unknown op ",
                        debug_of(cols[0].as_str()).as_str(),
                        " (line ",
                        dec_of(line_no as u64).as_str(),
                        ")",
                    ),
                ),
            );
        },
    };
    if cols.len() < 2 {
        return Err(
            parse_error(
                line_no,
                cat3("predicate ", debug_of(cols[0].as_str()).as_str(), " missing key"),
            ),
        );
    }
    assert(all[1] == cols@[1]@);
    let key = match unescape(cols[1].as_str()) {
        Ok(k) => k,
        Err(e) => {
            return Err(
                parse_error(
                    line_no,
                    cat2("predicate key unescape error: ", e.message().as_str()),
                ),
            );
        },
    };
    match parse_value(&cols, op, line_no) {
        Ok(value) => Ok(Predicate { op, key, value }),
        Err(e) => Err(e),
    }
}

/// One more expression.
proof fn lemma_node_views_push(s: Seq<Node>, n: Node)
    ensures
        node_views(s.push(n)) == node_views(s).push(node_view(n)),
{
    assert(s.push(n).drop_last() == s);
}

fn push_node(v: &mut Vec<Node>, n: Node)
    ensures
        node_views(final(v)@) == node_views(old(v)@).push(node_view(n)),
{
    proof {
        lemma_node_views_push(v@, n);
    }
    v.push(n);
}

fn opens(line: &str) -> (r: bool)
    ensures
        r == opens_block(line@),
{
    str_eq(line, "and") || str_eq(line, "or")
}

/// The expression of a block.
fn make_block(head: &str, children: Vec<Node>) -> (r: Node)
    ensures
        node_view(r) == block_node(head@, node_views(children@)),
{
    if str_eq(head, "and") {
        Node::And(children)
    } else {
        Node::Or(children)
    }
}

/// Parse the lines of the block that line `start` opens, nested `depth` deep.
fn parse_block(ls: &Vec<String>, start: usize, depth: usize) -> (r: Result<(Vec<Node>, usize)>)
    requires
        start < ls@.len(),
        depth <= MAX_NESTING_DEPTH,
    ensures
        match r {
            Ok(p) => block_from(views(ls@), start + 1, start as int, depth as nat) == Ok::<
                (Seq<NodeView>, int),
                ErrorView,
            >((node_views(p.0@), p.1 as int)) && start < p.1 < ls@.len(),
            Err(e) => block_from(views(ls@), start + 1, start as int, depth as nat) == Err::<
                (Seq<NodeView>, int),
                ErrorView,
            >(e@),
        },
    decreases MAX_NESTING_DEPTH - depth,
{
    let count: usize = ls.len();
    let ghost all = views(ls@);
    let ghost whole = block_from(all, start + 1, start as int, depth as nat);
    let mut children: Vec<Node> = Vec::new();
    let mut i: usize = start + 1;
    proof {
        assert(node_views(children@) == Seq::<NodeView>::empty());
        match whole {
            Ok(p) => assert(node_views(children@) + p.0 == p.0),
            Err(e) => {},
        }
    }
    while i < count
        invariant
            start < i <= count == ls@.len(),
            depth <= MAX_NESTING_DEPTH,
            all == views(ls@),
            whole == block_from(all, start + 1, start as int, depth as nat),
            whole == (match block_from(all, i as int, start as int, depth as nat) {
                Ok(p) => Ok::<(Seq<NodeView>, int), ErrorView>(
                    (node_views(children@) + p.0, p.1),
                ),
                Err(e) => Err(e),
            }),
        decreases ls@.len() - i,
    {
        let line: &str = ls[i].as_str();
        assert(all[i as int] == line@);
        let ghost before = node_views(children@);
        if is_skipped(line) {
            i += 1;
            continue;
        }
        if str_eq(line, "end") {
            assert(before + Seq::<NodeView>::empty() == before);
            return Ok((children, i));
        }
        if opens(line) {
            if depth >= MAX_NESTING_DEPTH {
                return Err(parse_error(i + 1, copy_of("nesting limit 4 exceeded")));
            }
            let (inner, end) = match parse_block(ls, i, depth + 1) {
                Ok(p) => p,
                Err(e) => {
                    return Err(e);
                },
            };
            let node = make_block(line, inner);
            let ghost nv = node_view(node);
            push_node(&mut children, node);
            proof {
                match block_from(all, end + 1, start as int, depth as nat) {
                    Ok(p) => assert(before + (seq![nv] + p.0) == before.push(nv) + p.0),
                    Err(e) => {},
                }
            }
            i = end + 1;
            continue;
        }
        let pred = match parse_predicate_line(line, i + 1) {
            Ok(p) => p,
            Err(e) => {
                return Err(e);
            },
        };
        let ghost nv = NodeView::Pred(pred@);
        push_node(&mut children, Node::Pred(pred));
        proof {
            match block_from(all, i + 1, start as int, depth as nat) {
                Ok(p) => assert(before + (seq![nv] + p.0) == before.push(nv) + p.0),
                Err(e) => {},
            }
        }
        i += 1;
    }
    assert(all[start as int] == ls@[start as int]@);
    Err(
        parse_error(
            start + 1,
            cat3("unterminated '", ls[start].as_str(), "' block (no matching 'end')"),
        ),
    )
}

/// After the start no mode is declared.
proof fn lemma_mode_begun(ls: Seq<Seq<char>>, i: int)
    ensures
        filter_from(ls, i, true) matches Ok(q) ==> q.0 == FilterMode::Intersect,
    decreases ls.len() - i,
{
    if i < ls.len() {
        lemma_mode_begun(ls, i + 1);
        match block_from(ls, i + 1, i, 1) {
            Ok(p) => if i < p.1 < ls.len() {
                lemma_mode_begun(ls, p.1 + 1);
            },
            Err(e) => {},
        }
    }
}

/// Parse the text of a filter.
pub fn parse_ftv_str(content: &str) -> (r: Result<FtvFile>)
    ensures
        outcome(r) == filter_from(lines(content@), 0, false),
{
    let ls = lines_of(content);
    let ghost all = lines(content@);
    let mut mode = FilterMode::Intersect;
    let mut nodes: Vec<Node> = Vec::new();
    let mut begun = false;
    let mut i: usize = 0;
    proof {
        match filter_from(all, 0, false) {
            Ok(q) => assert(node_views(nodes@) + q.1 == q.1),
            Err(e) => {},
        }
    }
    while i < ls.len()
        invariant
            i <= ls@.len(),
            all == views(ls@),
            all == lines(content@),
            !begun ==> mode == FilterMode::Intersect,
            filter_from(all, 0, false) == (match filter_from(all, i as int, begun) {
                Ok(q) => Ok::<(FilterMode, Seq<NodeView>), ErrorView>(
                    (if begun { mode } else { q.0 }, node_views(nodes@) + q.1),
                ),
                Err(e) => Err(e),
            }),
        decreases ls@.len() - i,
    {
        let line: &str = ls[i].as_str();
        assert(all[i as int] == line@);
        if line.is_empty() {
            i += 1;
            continue;
        }
        let declared = if begun {
            None
        } else {
            parse_mode(line)
        };
        let ghost before = node_views(nodes@);
        proof {
            lemma_mode_begun(all, i as int);
            lemma_mode_begun(all, i + 1);
        }
        begun = true;
        if let Some(m) = declared {
            mode = m;
            i += 1;
        } else if is_skipped(line) {
            i += 1;
        } else if opens(line) {
            let (inner, end) = match parse_block(&ls, i, 1) {
                Ok(p) => p,
                Err(e) => {
                    return Err(e);
                },
            };
            let node = make_block(line, inner);
            let ghost nv = node_view(node);
            push_node(&mut nodes, node);
            proof {
                lemma_mode_begun(all, end + 1);
                match filter_from(all, end + 1, true) {
                    Ok(q) => assert(before + (seq![nv] + q.1) == before.push(nv) + q.1),
                    Err(e) => {},
                }
            }
            i = end + 1;
        } else {
            let pred = match parse_predicate_line(line, i + 1) {
                Ok(p) => p,
                Err(e) => {
                    return Err(e);
                },
            };
            let ghost nv = NodeView::Pred(pred@);
            push_node(&mut nodes, Node::Pred(pred));
            proof {
                match filter_from(all, i + 1, true) {
                    Ok(q) => assert(before + (seq![nv] + q.1) == before.push(nv) + q.1),
                    Err(e) => {},
                }
            }
            i += 1;
        }
    }
    assert(node_views(nodes@) + Seq::<NodeView>::empty() == node_views(nodes@));
    Ok(FtvFile { mode, nodes })
}

/// Law: the words of the operators tell them apart.
pub proof fn law_op_words(op: Op)
    ensures
        op_of(op_text(op)) == Some(op),
{
    reveal_strlit("has");
    reveal_strlit("nohas");
    reveal_strlit("eq");
    reveal_strlit("ne");
    reveal_strlit("lt");
    reveal_strlit("le");
    reveal_strlit("gt");
    reveal_strlit("ge");
    reveal_strlit("pre");
    reveal_strlit("suf");
    reveal_strlit("sub");
    reveal_strlit("neq");
    reveal_strlit("nne");
    reveal_strlit("nlt");
    reveal_strlit("nle");
    reveal_strlit("ngt");
    reveal_strlit("nge");
    let s = op_text(op);
    assert("has"@.len() == 3 && "has"@[0] == 'h' && "has"@[1] == 'a' && "has"@[2] == 's');
    assert("nohas"@.len() == 5 && "nohas"@[0] == 'n' && "nohas"@[1] == 'o' && "nohas"@[2] == 'h' && "nohas"@[3] == 'a' && "nohas"@[4] == 's');
    assert("eq"@.len() == 2 && "eq"@[0] == 'e' && "eq"@[1] == 'q');
    assert("ne"@.len() == 2 && "ne"@[0] == 'n' && "ne"@[1] == 'e');
    assert("lt"@.len() == 2 && "lt"@[0] == 'l' && "lt"@[1] == 't');
    assert("le"@.len() == 2 && "le"@[0] == 'l' && "le"@[1] == 'e');
    assert("gt"@.len() == 2 && "gt"@[0] == 'g' && "gt"@[1] == 't');
    assert("ge"@.len() == 2 && "ge"@[0] == 'g' && "ge"@[1] == 'e');
    assert("pre"@.len() == 3 && "pre"@[0] == 'p' && "pre"@[1] == 'r' && "pre"@[2] == 'e');
    assert("suf"@.len() == 3 && "suf"@[0] == 's' && "suf"@[1] == 'u' && "suf"@[2] == 'f');
    assert("sub"@.len() == 3 && "sub"@[0] == 's' && "sub"@[1] == 'u' && "sub"@[2] == 'b');
    assert("neq"@.len() == 3 && "neq"@[0] == 'n' && "neq"@[1] == 'e' && "neq"@[2] == 'q');
    assert("nne"@.len() == 3 && "nne"@[0] == 'n' && "nne"@[1] == 'n' && "nne"@[2] == 'e');
    assert("nlt"@.len() == 3 && "nlt"@[0] == 'n' && "nlt"@[1] == 'l' && "nlt"@[2] == 't');
    assert("nle"@.len() == 3 && "nle"@[0] == 'n' && "nle"@[1] == 'l' && "nle"@[2] == 'e');
    assert("ngt"@.len() == 3 && "ngt"@[0] == 'n' && "ngt"@[1] == 'g' && "ngt"@[2] == 't');
    assert("nge"@.len() == 3 && "nge"@[0] == 'n' && "nge"@[1] == 'g' && "nge"@[2] == 'e');
}

} // verus!
