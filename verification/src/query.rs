//! Queries: criteria on keys and values, answered from the inverted indexes.
//!
//! A query has one criterion per line: a key and a value, a single word that is a key or a value,
//! `@present` or `@absent` with a key, or `@absent` with a key and a value. The first line may say
//! `# mode` and `union` or `intersect`, the default.
use crate::action::{is_skipped, parse_err};
use crate::error::{debug_of, debug_text, parse_error, ErrorView, Result};
use crate::escape::{unescape, unescaped};
use crate::fields::{keys_of, StringMap};
use crate::index::{cell_of, push_string, related, row_of, set_to_vec, Relation};
use crate::sorted::{listed, ordered, StringSet};
use crate::text::{
    cat2, copy_of, join, join_with, lines, lines_of, split, split_on, str_eq, views,
};
use vstd::prelude::*;

verus! {

/// How the criteria of a query are combined.
#[derive(Debug, Clone, Copy, PartialEq, Eq, Structural)]
pub enum FilterMode {
    /// At least one criterion must hold.
    Union,
    /// All criteria must hold.
    Intersect,
}

/// A criterion of a query.
#[derive(Debug)]
pub enum Criterion {
    /// The word is a key or a value of the record.
    Token(String),
    /// The record has the key with this value.
    KeyValue(String, String),
    /// The record has the key.
    Present(String),
    /// The record does not have the key.
    AbsentKey(String),
    /// The record does not have the key with this value.
    AbsentKeyValue(String, String),
}

/// What a criterion says.
pub enum CriterionView {
    Token(Seq<char>),
    KeyValue(Seq<char>, Seq<char>),
    Present(Seq<char>),
    AbsentKey(Seq<char>),
    AbsentKeyValue(Seq<char>, Seq<char>),
}

impl View for Criterion {
    type V = CriterionView;

    open spec fn view(&self) -> CriterionView {
        match self {
            Criterion::Token(s) => CriterionView::Token(s@),
            Criterion::KeyValue(k, v) => CriterionView::KeyValue(k@, v@),
            Criterion::Present(k) => CriterionView::Present(k@),
            Criterion::AbsentKey(k) => CriterionView::AbsentKey(k@),
            Criterion::AbsentKeyValue(k, v) => CriterionView::AbsentKeyValue(k@, v@),
        }
    }
}

/// The contents of a sequence of criteria.
pub open spec fn criterion_views(v: Seq<Criterion>) -> Seq<CriterionView> {
    Seq::new(v.len(), |i: int| v[i]@)
}

/// A query: a mode and criteria.
#[derive(Debug)]
pub struct Query {
    pub mode: FilterMode,
    pub criteria: Vec<Criterion>,
}

impl View for Query {
    type V = (FilterMode, Seq<CriterionView>);

    open spec fn view(&self) -> (FilterMode, Seq<CriterionView>) {
        (self.mode, criterion_views(self.criteria@))
    }
}

/// An inverted index in memory: for each first and second column the set of identifiers.
pub type RtvIndex = StringMap<StringMap<StringSet>>;

/// The mode that a line declares.
pub open spec fn mode_of(line: Seq<char>) -> Option<FilterMode> {
    if line == "# mode\tunion"@ {
        Some(FilterMode::Union)
    } else if line == "# mode\tintersect"@ {
        Some(FilterMode::Intersect)
    } else {
        None
    }
}

/// What a column of a query stands for behind its escapes; an error starts with `what`.
pub open spec fn column(s: Seq<char>, what: Seq<char>) -> core::result::Result<
    Seq<char>,
    ErrorView,
> {
    match unescaped(s) {
        Ok(t) => Ok(t),
        Err(e) => parse_err(0, what + e.text()),
    }
}

/// The criterion that a line which starts with `@` says.
pub open spec fn directive_of(line: Seq<char>) -> core::result::Result<CriterionView, ErrorView> {
    let cols = split(line, '\t');
    if cols[0] == "@present"@ {
        if cols.len() == 1 {
            parse_err(0, "@present requires a key"@)
        } else if cols.len() > 2 {
            parse_err(0, "@present takes one column (a key); got: "@ + debug_text(line))
        } else {
            match column(cols[1], "@present key unescape error: "@) {
                Err(e) => Err(e),
                Ok(k) => Ok(CriterionView::Present(k)),
            }
        }
    } else if cols[0] == "@absent"@ {
        if cols.len() == 1 {
            parse_err(0, "@absent requires a key"@)
        } else if cols.len() > 3 {
            parse_err(0, "@absent takes 1 or 2 columns; got: "@ + debug_text(line))
        } else {
            match column(cols[1], "@absent key unescape error: "@) {
                Err(e) => Err(e),
                Ok(k) => if cols.len() == 2 {
                    Ok(CriterionView::AbsentKey(k))
                } else {
                    match column(cols[2], "@absent value unescape error: "@) {
                        Err(e) => Err(e),
                        Ok(v) => Ok(CriterionView::AbsentKeyValue(k, v)),
                    }
                },
            }
        }
    } else {
        parse_err(0, "unknown qtv directive "@ + debug_text(cols[0]))
    }
}

/// The criterion that a line says.
pub open spec fn criterion_of(line: Seq<char>) -> core::result::Result<CriterionView, ErrorView> {
    let cols = split(line, '\t');
    if line[0] == '@' {
        directive_of(line)
    } else if cols.len() >= 2 {
        match column(cols[0], "key unescape error: "@) {
            Err(e) => Err(e),
            Ok(k) => match column(join(cols.skip(1), "\t"@), "value unescape error: "@) {
                Err(e) => Err(e),
                Ok(v) => Ok(CriterionView::KeyValue(k, v)),
            },
        }
    } else {
        match column(line, "token unescape error: "@) {
            Err(e) => Err(e),
            Ok(t) => Ok(CriterionView::Token(t)),
        }
    }
}

/// The mode and the criteria of the lines from `i` on; the mode may still be declared unless
/// `begun`.
pub open spec fn query_from(ls: Seq<Seq<char>>, i: int, begun: bool) -> core::result::Result<
    (FilterMode, Seq<CriterionView>),
    ErrorView,
>
    decreases ls.len() - i,
{
    if i >= ls.len() {
        Ok((FilterMode::Intersect, Seq::empty()))
    } else if ls[i].len() == 0 {
        query_from(ls, i + 1, begun)
    } else if !begun && mode_of(ls[i]) is Some {
        match query_from(ls, i + 1, true) {
            Err(e) => Err(e),
            Ok((_, cs)) => Ok((mode_of(ls[i])->0, cs)),
        }
    } else if ls[i][0] == '#' {
        query_from(ls, i + 1, true)
    } else {
        match criterion_of(ls[i]) {
            Err(e) => Err(e),
            Ok(c) => match query_from(ls, i + 1, true) {
                Err(e) => Err(e),
                Ok((m, cs)) => Ok((m, seq![c] + cs)),
            },
        }
    }
}

/// A string behind its escapes, or itself if they are malformed.
pub open spec fn lenient(s: Seq<char>) -> Seq<char> {
    match unescaped(s) {
        Ok(t) => t,
        Err(_) => s,
    }
}

/// The strings that are not empty.
pub open spec fn filled(s: Seq<Seq<char>>) -> Set<Seq<char>> {
    Set::new(|u: Seq<char>| s.contains(u) && u.len() > 0)
}

/// The relation in which `a` and `b` have exactly the strings `us`.
pub open spec fn with_cell(m: Relation, a: Seq<char>, b: Seq<char>, us: Set<Seq<char>>) -> Relation {
    m.insert(a, row_of(m, a).insert(b, us))
}

/// The relation that the lines of an index from `i` on say, when the lines before said `m`. Blank
/// lines, comments and lines with fewer than three columns do not count.
pub open spec fn index_from(ls: Seq<Seq<char>>, i: int, m: Relation) -> Relation
    decreases ls.len() - i,
{
    if i >= ls.len() {
        m
    } else {
        let cols = split(ls[i], '\t');
        if ls[i].len() == 0 || ls[i][0] == '#' || cols.len() < 3 {
            index_from(ls, i + 1, m)
        } else {
            let us = filled(split(join(cols.skip(2), "\t"@), ','));
            index_from(ls, i + 1, with_cell(m, lenient(cols[0]), lenient(cols[1]), us))
        }
    }
}

/// The lines that are neither blank nor comments.
pub open spec fn content_lines(ls: Seq<Seq<char>>) -> Set<Seq<char>> {
    Set::new(|u: Seq<char>| ls.contains(u) && u.len() > 0 && u[0] != '#')
}

/// The identifiers that stand in a row of an index.
pub open spec fn in_row(m: Relation, a: Seq<char>) -> Set<Seq<char>> {
    Set::new(|u: Seq<char>| exists|b: Seq<char>| #[trigger] related(m, a, b, u))
}

/// The identifiers for which a criterion holds. `universe` has all identifiers; without it no
/// identifier counts as absent.
pub open spec fn matching(
    c: CriterionView,
    kv: Relation,
    vk: Relation,
    universe: Option<Set<Seq<char>>>,
) -> Set<Seq<char>> {
    match c {
        CriterionView::Token(t) => in_row(kv, t).union(in_row(vk, t)),
        CriterionView::KeyValue(k, v) => cell_of(row_of(kv, k), v),
        CriterionView::Present(k) => in_row(kv, k),
        CriterionView::AbsentKey(k) => match universe {
            Some(all) => all.difference(in_row(kv, k)),
            None => Set::empty(),
        },
        CriterionView::AbsentKeyValue(k, v) => match universe {
            Some(all) => all.difference(cell_of(row_of(kv, k), v)),
            None => Set::empty(),
        },
    }
}

/// The identifiers that a query finds: those for which one criterion holds, or all do. A query
/// without criteria finds none.
pub open spec fn query_result(
    mode: FilterMode,
    cs: Seq<CriterionView>,
    kv: Relation,
    vk: Relation,
    universe: Option<Set<Seq<char>>>,
) -> Set<Seq<char>> {
    match mode {
        FilterMode::Union => Set::new(
            |u: Seq<char>|
                exists|i: int|
                    0 <= i < cs.len() && (#[trigger] matching(cs[i], kv, vk, universe)).contains(u),
        ),
        FilterMode::Intersect => Set::new(
            |u: Seq<char>|
                cs.len() > 0 && forall|i: int|
                    0 <= i < cs.len() ==> (#[trigger] matching(cs[i], kv, vk, universe)).contains(
                        u,
                    ),
        ),
    }
}

fn parse_column(s: &str, what: &str) -> (r: Result<String>)
    ensures
        crate::error::outcome(r) == column(s@, what@),
{
    match unescape(s) {
        Ok(t) => Ok(t),
        Err(e) => Err(parse_error(0, cat2(what, e.message().as_str()))),
    }
}

fn parse_directive(line: &str) -> (r: Result<Criterion>)
    ensures
        crate::error::outcome(r) == directive_of(line@),
{
    let cols = split_on(line, '\t');
    let ghost all = split(line@, '\t');
    assert(all[0] == cols@[0]@);
    let n: usize = cols.len();
    assert(all.len() == n);
    if str_eq(cols[0].as_str(), "@present") {
        if n == 1 {
            return Err(parse_error(0, copy_of("@present requires a key")));
        }
        assert(all[1] == cols@[1]@);
        if n > 2 {
            return Err(
                parse_error(
                    0,
                    cat2("@present takes one column (a key); got: ", debug_of(line).as_str()),
                ),
            );
        }
        match parse_column(cols[1].as_str(), "@present key unescape error: ") {
            Ok(k) => Ok(Criterion::Present(k)),
            Err(e) => Err(e),
        }
    } else if str_eq(cols[0].as_str(), "@absent") {
        if n == 1 {
            return Err(parse_error(0, copy_of("@absent requires a key")));
        }
        assert(all[1] == cols@[1]@);
        if n > 3 {
            return Err(
                parse_error(
                    0,
                    cat2("@absent takes 1 or 2 columns; got: ", debug_of(line).as_str()),
                ),
            );
        }
        let k = match parse_column(cols[1].as_str(), "@absent key unescape error: ") {
            Ok(k) => k,
            Err(e) => {
                return Err(e);
            },
        };
        if n == 2 {
            return Ok(Criterion::AbsentKey(k));
        }
        assert(all[2] == cols@[2]@);
        match parse_column(cols[2].as_str(), "@absent value unescape error: ") {
            Ok(v) => Ok(Criterion::AbsentKeyValue(k, v)),
            Err(e) => Err(e),
        }
    } else {
        Err(parse_error(0, cat2("unknown qtv directive ", debug_of(cols[0].as_str()).as_str())))
    }
}

/// The strings of `v` from place `n` on.
pub(crate) fn tail_of(v: &Vec<String>, n: usize) -> (r: Vec<String>)
    requires
        n <= v@.len(),
    ensures
        views(r@) == views(v@).skip(n as int),
{
    let mut r: Vec<String> = Vec::new();
    let mut i: usize = n;
    while i < v.len()
        invariant
            n <= i <= v@.len(),
            views(r@) == views(v@).subrange(n as int, i as int),
        decreases v@.len() - i,
    {
        push_string(&mut r, copy_of(v[i].as_str()));
        assert(views(v@).subrange(n as int, i + 1) == views(v@).subrange(n as int, i as int).push(
            v@[i as int]@,
        ));
        i += 1;
    }
    assert(views(v@).subrange(n as int, v@.len() as int) == views(v@).skip(n as int));
    r
}

fn parse_criterion(line: &str) -> (r: Result<Criterion>)
    requires
        line@.len() > 0,
    ensures
        crate::error::outcome(r) == criterion_of(line@),
{
    let v = crate::text::chars_of(line);
    if v[0] == '@' {
        return parse_directive(line);
    }
    let cols = split_on(line, '\t');
    let ghost all = split(line@, '\t');
    assert(all.len() == cols@.len());
    assert(all[0] == cols@[0]@);
    if cols.len() >= 2 {
        let k = match parse_column(cols[0].as_str(), "key unescape error: ") {
            Ok(k) => k,
            Err(e) => {
                return Err(e);
            },
        };
        let raw = join_with(&tail_of(&cols, 1), "\t");
        match parse_column(raw.as_str(), "value unescape error: ") {
            Ok(v) => Ok(Criterion::KeyValue(k, v)),
            Err(e) => Err(e),
        }
    } else {
        match parse_column(line, "token unescape error: ") {
            Ok(t) => Ok(Criterion::Token(t)),
            Err(e) => Err(e),
        }
    }
}

pub(crate) fn parse_mode(line: &str) -> (r: Option<FilterMode>)
    ensures
        r == mode_of(line@),
{
    if str_eq(line, "# mode\tunion") {
        Some(FilterMode::Union)
    } else if str_eq(line, "# mode\tintersect") {
        Some(FilterMode::Intersect)
    } else {
        None
    }
}

/// Parse the text of a query.
pub fn parse_qtv(content: &str) -> (r: Result<Query>)
    ensures
        crate::error::outcome(r) == query_from(lines(content@), 0, false),
{
    let ls = lines_of(content);
    let ghost all = lines(content@);
    let mut mode = FilterMode::Intersect;
    let mut criteria: Vec<Criterion> = Vec::new();
    let mut begun = false;
    let mut i: usize = 0;
    proof {
        match query_from(all, 0, false) {
            Ok(q) => assert(criterion_views(criteria@) + q.1 == q.1),
            Err(e) => {},
        }
    }
    while i < ls.len()
        invariant
            i <= ls@.len(),
            all == views(ls@),
            all == lines(content@),
            !begun ==> mode == FilterMode::Intersect,
            query_from(all, 0, false) == (match query_from(all, i as int, begun) {
                Ok(q) => Ok::<(FilterMode, Seq<CriterionView>), ErrorView>(
                    (if begun { mode } else { q.0 }, criterion_views(criteria@) + q.1),
                ),
                Err(e) => Err(e),
            }),
        decreases ls@.len() - i,
    {
        let line: &str = ls[i].as_str();
        assert(all[i as int] == line@);
        if line.is_empty() {
            i += 1;
            continue;
        }
        let declared = if begun {
            None
        } else {
            parse_mode(line)
        };
        proof {
            lemma_mode_begun(all, i + 1);
        }
        begun = true;
        if let Some(m) = declared {
            mode = m;
        } else if !is_skipped(line) {
            match parse_criterion(line) {
                Err(e) => {
                    return Err(e);
                },
                Ok(c) => {
                    let ghost before = criterion_views(criteria@);
                    let ghost cv = c@;
                    criteria.push(c);
                    proof {
                        assert(criterion_views(criteria@) == before.push(cv));
                        match query_from(all, i + 1, true) {
                            Ok(q) => assert(before + (seq![cv] + q.1) == criterion_views(criteria@)
                                + q.1),
                            Err(e) => {},
                        }
                    }
                },
            }
        }
        i += 1;
    }
    assert(criterion_views(criteria@) + Seq::<CriterionView>::empty() == criterion_views(criteria@));
    Ok(Query { mode, criteria })
}

/// After the start no mode is declared.
proof fn lemma_mode_begun(ls: Seq<Seq<char>>, i: int)
    ensures
        query_from(ls, i, true) matches Ok(q) ==> q.0 == FilterMode::Intersect,
    decreases ls.len() - i,
{
    if i < ls.len() {
        lemma_mode_begun(ls, i + 1);
    }
}

/// Whether a criterion can only be answered with the list of all identifiers.
pub open spec fn needs_universe(c: CriterionView) -> bool {
    c is AbsentKey || c is AbsentKeyValue
}

/// Whether some criterion can only be answered with the list of all identifiers.
pub fn criteria_need_universe(criteria: &[Criterion]) -> (r: bool)
    ensures
        r == exists|i: int| 0 <= i < criteria@.len() && needs_universe((#[trigger] criteria@[i])@),
{
    let mut i: usize = 0;
    while i < criteria.len()
        invariant
            i <= criteria@.len(),
            forall|k: int| 0 <= k < i ==> !needs_universe((#[trigger] criteria@[k])@),
        decreases criteria@.len() - i,
    {
        match &criteria[i] {
            Criterion::AbsentKey(_) | Criterion::AbsentKeyValue(_, _) => {
                assert(needs_universe(criteria@[i as int]@));
                return true;
            },
            _ => {},
        }
        i += 1;
    }
    false
}

/// The identifiers of a list of identifiers.
pub fn load_uuid_universe(content: &str) -> (r: StringSet)
    ensures
        r@ == content_lines(lines(content@)),
{
    let ls = lines_of(content);
    let ghost all = lines(content@);
    let mut set = StringSet::new();
    let mut i: usize = 0;
    assert(set@ =~= content_lines(all.take(0)));
    while i < ls.len()
        invariant
            i <= ls@.len(),
            all == views(ls@),
            set@ == content_lines(all.take(i as int)),
        decreases ls@.len() - i,
    {
        let line: &str = ls[i].as_str();
        assert(all[i as int] == line@);
        let ghost before = set@;
        if !is_skipped(line) {
            let _ = set.insert(copy_of(line));
        }
        proof {
            let a = all.take(i as int);
            let b = all.take(i + 1);
            assert forall|u: Seq<char>| set@.contains(u) <==> content_lines(b).contains(u) by {
                if b.contains(u) {
                    let k = choose|k: int| 0 <= k < b.len() && b[k] == u;
                    if k < i {
                        assert(a[k] == u);
                    }
                }
                if a.contains(u) {
                    let k = choose|k: int| 0 <= k < a.len() && a[k] == u;
                    assert(b[k] == u);
                }
                assert(b[i as int] == line@);
            }
            assert(set@ =~= content_lines(b));
        }
        i += 1;
    }
    assert(all.take(all.len() as int) == all);
    set
}

pub(crate) fn unescape_lenient(s: &str) -> (r: String)
    ensures
        r@ == lenient(s@),
{
    match unescape(s) {
        Ok(t) => t,
        Err(_) => copy_of(s),
    }
}

/// The identifiers of a comma-separated list.
fn uuid_list(s: &str) -> (r: StringSet)
    ensures
        r@ == filled(split(s@, ',')),
{
    let parts = split_on(s, ',');
    let ghost all = split(s@, ',');
    let mut set = StringSet::new();
    let mut i: usize = 0;
    assert(set@ =~= filled(all.take(0)));
    while i < parts.len()
        invariant
            i <= parts@.len(),
            all == views(parts@),
            set@ == filled(all.take(i as int)),
        decreases parts@.len() - i,
    {
        let part: &str = parts[i].as_str();
        assert(all[i as int] == part@);
        if !part.is_empty() {
            let _ = set.insert(copy_of(part));
        }
        proof {
            let a = all.take(i as int);
            let b = all.take(i + 1);
            assert forall|u: Seq<char>| set@.contains(u) <==> filled(b).contains(u) by {
                if b.contains(u) {
                    let k = choose|k: int| 0 <= k < b.len() && b[k] == u;
                    if k < i {
                        assert(a[k] == u);
                    }
                }
                if a.contains(u) {
                    let k = choose|k: int| 0 <= k < a.len() && a[k] == u;
                    assert(b[k] == u);
                }
                assert(b[i as int] == part@);
            }
            assert(set@ =~= filled(b));
        }
        i += 1;
    }
    assert(all.take(all.len() as int) == all);
    set
}

/// Load the text of an inverted index.
pub fn load_rtv_index(content: &str) -> (r: RtvIndex)
    ensures
        r@ == index_from(lines(content@), 0, Map::empty()),
{
    let ls = lines_of(content);
    let ghost all = lines(content@);
    let mut m: RtvIndex = StringMap::new();
    let mut i: usize = 0;
    while i < ls.len()
        invariant
            i <= ls@.len(),
            all == views(ls@),
            index_from(all, 0, Map::empty()) == index_from(all, i as int, m@),
        decreases ls@.len() - i,
    {
        let line: &str = ls[i].as_str();
        assert(all[i as int] == line@);
        if !is_skipped(line) {
            let cols = split_on(line, '\t');
            let ghost cs = split(line@, '\t');
            assert(cs.len() == cols@.len());
            if cols.len() >= 3 {
                assert(cs[0] == cols@[0]@ && cs[1] == cols@[1]@);
                let a = unescape_lenient(cols[0].as_str());
                let b = unescape_lenient(cols[1].as_str());
                let us = uuid_list(join_with(&tail_of(&cols, 2), "\t").as_str());
                let ghost before = m@;
                let mut row = match m.take(a.as_str()) {
                    Some(row) => row,
                    None => StringMap::new(),
                };
                assert(row@ == row_of(before, a@));
                let ghost new_row = row@.insert(b@, us@);
                let ghost av = a@;
                row.insert(b, us);
                m.insert(a, row);
                assert(m@ =~= before.insert(av, new_row));
            }
        }
        i += 1;
    }
    m
}

/// Add the strings of `other` to `set`.
pub(crate) fn add_all(set: &mut StringSet, other: &StringSet)
    ensures
        final(set)@ == old(set)@.union(other@),
{
    let n: usize = other.len();
    let ghost us = listed(other@);
    let mut i: usize = 0;
    assert(old(set)@.union(us.take(0).to_set()) =~= old(set)@);
    while i < n
        invariant
            i <= n == us.len(),
            us == listed(other@),
            us.to_set() == other@,
            set@ == old(set)@.union(us.take(i as int).to_set()),
        decreases n - i,
    {
        let ghost before = set@;
        let _ = set.insert(copy_of(other.get(i).as_str()));
        proof {
            crate::sorted::lemma_take_set(us, i as int);
            assert(set@ =~= old(set)@.union(us.take(i + 1).to_set()));
        }
        i += 1;
    }
    assert(us.take(n as int) == us);
}

/// The strings of `a` that are, or are not, in `b`.
pub(crate) fn select(a: &StringSet, b: &StringSet, wanted: bool) -> (r: StringSet)
    ensures
        r@ == (if wanted { a@.intersect(b@) } else { a@.difference(b@) }),
{
    let n: usize = a.len();
    let ghost us = listed(a@);
    let mut r = StringSet::new();
    let mut i: usize = 0;
    while i < n
        invariant
            i <= n == us.len(),
            us == listed(a@),
            us.to_set() == a@,
            forall|u: Seq<char>| #[trigger]
                r@.contains(u) <==> us.take(i as int).contains(u) && b@.contains(u) == wanted,
        decreases n - i,
    {
        let u: &String = a.get(i);
        let ghost before = r@;
        if b.contains(u.as_str()) == wanted {
            let _ = r.insert(copy_of(u.as_str()));
        }
        proof {
            let p = us.take(i as int);
            let q = us.take(i + 1);
            assert forall|x: Seq<char>| #[trigger]
                r@.contains(x) <==> q.contains(x) && b@.contains(x) == wanted by {
                assert(before.contains(x) <==> p.contains(x) && b@.contains(x) == wanted);
                if q.contains(x) {
                    let k = choose|k: int| 0 <= k < q.len() && q[k] == x;
                    if k < i {
                        assert(p[k] == x);
                    }
                }
                if p.contains(x) {
                    let k = choose|k: int| 0 <= k < p.len() && p[k] == x;
                    assert(q[k] == x);
                }
                assert(q[i as int] == u@);
            }
        }
        i += 1;
    }
    proof {
        assert(us.take(n as int) == us);
        assert forall|u: Seq<char>| us.contains(u) <==> a@.contains(u) by {
            assert(us.to_set().contains(u) <==> us.contains(u));
        }
        if wanted {
            assert(r@ =~= a@.intersect(b@));
        } else {
            assert(r@ =~= a@.difference(b@));
        }
    }
    r
}

/// The identifiers that stand in a row of an index.
pub(crate) fn row_uuids(m: &RtvIndex, a: &str) -> (r: StringSet)
    ensures
        r@ == in_row(m@, a@),
{
    let mut set = StringSet::new();
    match m.get(a) {
        None => {
            proof {
                assert(row_of(m@, a@) == Map::<Seq<char>, Set<Seq<char>>>::empty());
                assert(set@ =~= in_row(m@, a@));
            }
        },
        Some(row) => {
            let n: usize = row.len();
            let ghost bs = keys_of(row@);
            let mut i: usize = 0;
            while i < n
                invariant
                    i <= n == bs.len(),
                    bs == keys_of(row@),
                    bs.to_set() == row@.dom(),
                    forall|u: Seq<char>| #[trigger]
                        set@.contains(u) <==> exists|k: int|
                            0 <= k < i && (#[trigger] row@[bs[k]]).contains(u),
                decreases n - i,
            {
                let ghost before = set@;
                let cell: &StringSet = row.value(i);
                add_all(&mut set, cell);
                proof {
                    assert forall|u: Seq<char>| #[trigger] set@.contains(u) <==> exists|k: int|
                        0 <= k < i + 1 && (#[trigger] row@[bs[k]]).contains(u) by {
                        if before.contains(u) {
                            let k = choose|k: int|
                                0 <= k < i && (#[trigger] row@[bs[k]]).contains(u);
                            assert(row@[bs[k]].contains(u));
                        }
                        if cell@.contains(u) {
                            assert(row@[bs[i as int]].contains(u));
                        }
                    }
                }
                i += 1;
            }
            proof {
                assert(row_of(m@, a@) == row@);
                assert forall|u: Seq<char>| set@.contains(u) <==> in_row(m@, a@).contains(u) by {
                    if set@.contains(u) {
                        let k = choose|k: int| 0 <= k < n && (#[trigger] row@[bs[k]]).contains(u);
                        assert(bs.to_set().contains(bs[k]));
                        assert(related(m@, a@, bs[k], u));
                    }
                    if in_row(m@, a@).contains(u) {
                        let b = choose|b: Seq<char>| #[trigger] related(m@, a@, b, u);
                        assert(row@.contains_key(b));
                        assert(bs.to_set().contains(b));
                        let k = choose|k: int| 0 <= k < bs.len() && bs[k] == b;
                        assert(row@[bs[k]].contains(u));
                    }
                }
                assert(set@ =~= in_row(m@, a@));
            }
        },
    }
    set
}

/// The identifiers of one cell of an index.
pub(crate) fn cell_uuids(m: &RtvIndex, a: &str, b: &str) -> (r: StringSet)
    ensures
        r@ == cell_of(row_of(m@, a@), b@),
{
    let mut set = StringSet::new();
    if let Some(row) = m.get(a) {
        if let Some(cell) = row.get(b) {
            add_all(&mut set, cell);
            assert(set@ =~= cell@);
        }
    }
    set
}

/// The set behind an optional reference.
pub open spec fn set_view(u: Option<&StringSet>) -> Option<Set<Seq<char>>> {
    match u {
        Some(s) => Some(s@),
        None => None,
    }
}

/// The identifiers for which a criterion holds.
pub fn resolve_criterion(
    criterion: &Criterion,
    kv_index: &RtvIndex,
    vk_index: &RtvIndex,
    universe: Option<&StringSet>,
) -> (r: StringSet)
    ensures
        r@ == matching(criterion@, kv_index@, vk_index@, set_view(universe)),
{
    match criterion {
        Criterion::Token(t) => {
            let mut set = row_uuids(kv_index, t.as_str());
            let other = row_uuids(vk_index, t.as_str());
            add_all(&mut set, &other);
            set
        },
        Criterion::KeyValue(k, v) => cell_uuids(kv_index, k.as_str(), v.as_str()),
        Criterion::Present(k) => row_uuids(kv_index, k.as_str()),
        Criterion::AbsentKey(k) => match universe {
            Some(all) => select(all, &row_uuids(kv_index, k.as_str()), false),
            None => StringSet::new(),
        },
        Criterion::AbsentKeyValue(k, v) => match universe {
            Some(all) => select(all, &cell_uuids(kv_index, k.as_str(), v.as_str()), false),
            None => StringSet::new(),
        },
    }
}

/// The identifiers that a query finds, in order.
pub fn execute_query(
    criteria: &[Criterion],
    mode: FilterMode,
    kv_index: &RtvIndex,
    vk_index: &RtvIndex,
    universe: Option<&StringSet>,
) -> (r: Vec<String>)
    ensures
        views(r@) == listed(
            query_result(
                mode,
                criterion_views(criteria@),
                kv_index@,
                vk_index@,
                set_view(universe),
            ),
        ),
        ordered(views(r@)),
        views(r@).to_set() == query_result(
            mode,
            criterion_views(criteria@),
            kv_index@,
            vk_index@,
            set_view(universe),
        ),
{
    let ghost cs = criterion_views(criteria@);
    let ghost un = set_view(universe);
    if criteria.len() == 0 {
        let none = StringSet::new();
        proof {
            assert(query_result(mode, cs, kv_index@, vk_index@, un) =~= none@);
        }
        return set_to_vec(&none);
    }
    assert(cs[0] == criteria@[0]@);
    let mut acc = resolve_criterion(&criteria[0], kv_index, vk_index, universe);
    proof {
        assert(query_result(mode, cs.take(1), kv_index@, vk_index@, un) =~= acc@) by {
            assert(cs.take(1)[0] == cs[0]);
            assert forall|u: Seq<char>|
                query_result(mode, cs.take(1), kv_index@, vk_index@, un).contains(u)
                    <==> acc@.contains(u) by {
                if acc@.contains(u) {
                    assert(matching(cs.take(1)[0], kv_index@, vk_index@, un).contains(u));
                }
            }
        }
    }
    let mut i: usize = 1;
    while i < criteria.len()
        invariant
            1 <= i <= criteria@.len(),
            cs == criterion_views(criteria@),
            un == set_view(universe),
            acc@ == query_result(mode, cs.take(i as int), kv_index@, vk_index@, un),
        decreases criteria@.len() - i,
    {
        let set = resolve_criterion(&criteria[i], kv_index, vk_index, universe);
        assert(cs[i as int] == criteria@[i as int]@);
        let ghost before = acc@;
        match mode {
            FilterMode::Union => {
                add_all(&mut acc, &set);
            },
            FilterMode::Intersect => {
                acc = select(&acc, &set, true);
            },
        }
        proof {
            lemma_query_result_push(mode, cs.take(i as int), cs[i as int], kv_index@, vk_index@, un);
            assert(cs.take(i as int).push(cs[i as int]) == cs.take(i + 1));
        }
        i += 1;
    }
    assert(cs.take(cs.len() as int) == cs);
    set_to_vec(&acc)
}

proof fn lemma_query_result_push(
    mode: FilterMode,
    cs: Seq<CriterionView>,
    c: CriterionView,
    kv: Relation,
    vk: Relation,
    un: Option<Set<Seq<char>>>,
)
    requires
        cs.len() > 0,
    ensures
        query_result(mode, cs.push(c), kv, vk, un) == (match mode {
            FilterMode::Union => query_result(mode, cs, kv, vk, un).union(matching(c, kv, vk, un)),
            FilterMode::Intersect => query_result(mode, cs, kv, vk, un).intersect(
                matching(c, kv, vk, un),
            ),
        }),
{
    let ds = cs.push(c);
    let a = query_result(mode, cs, kv, vk, un);
    let b = query_result(mode, ds, kv, vk, un);
    let m = matching(c, kv, vk, un);
    assert(ds[cs.len() as int] == c);
    match mode {
        FilterMode::Union => {
            assert forall|u: Seq<char>| b.contains(u) <==> a.contains(u) || m.contains(u) by {
                if b.contains(u) {
                    let i = choose|i: int|
                        0 <= i < ds.len() && (#[trigger] matching(ds[i], kv, vk, un)).contains(u);
                    if i < cs.len() {
                        assert(ds[i] == cs[i]);
                        assert(matching(cs[i], kv, vk, un).contains(u));
                    }
                }
                if a.contains(u) {
                    let i = choose|i: int|
                        0 <= i < cs.len() && (#[trigger] matching(cs[i], kv, vk, un)).contains(u);
                    assert(ds[i] == cs[i]);
                    assert(matching(ds[i], kv, vk, un).contains(u));
                }
                if m.contains(u) {
                    assert(matching(ds[cs.len() as int], kv, vk, un).contains(u));
                }
            }
            assert(b =~= a.union(m));
        },
        FilterMode::Intersect => {
            assert forall|u: Seq<char>| b.contains(u) <==> a.contains(u) && m.contains(u) by {
                if b.contains(u) {
                    assert forall|i: int| 0 <= i < cs.len() implies (#[trigger] matching(
                        cs[i],
                        kv,
                        vk,
                        un,
                    )).contains(u) by {
                        assert(ds[i] == cs[i]);
                        assert(matching(ds[i], kv, vk, un).contains(u));
                    }
                    assert(matching(ds[cs.len() as int], kv, vk, un).contains(u));
                }
                if a.contains(u) && m.contains(u) {
                    assert forall|i: int| 0 <= i < ds.len() implies (#[trigger] matching(
                        ds[i],
                        kv,
                        vk,
                        un,
                    )).contains(u) by {
                        if i < cs.len() {
                            assert(ds[i] == cs[i]);
                            assert(matching(cs[i], kv, vk, un).contains(u));
                        }
                    }
                }
            }
            assert(b =~= a.intersect(m));
        },
    }
}

/// The contents of an optional text.
pub open spec fn text_view(t: Option<&str>) -> Option<Seq<char>> {
    match t {
        Some(s) => Some(s@),
        None => None,
    }
}

/// What a query finds in the texts of the indexes. `uuids` is the text of the list of all
/// identifiers, for queries that need it.
pub open spec fn found(
    q: (FilterMode, Seq<CriterionView>),
    kv: Seq<char>,
    vk: Seq<char>,
    uuids: Option<Seq<char>>,
) -> Set<Seq<char>> {
    query_result(
        q.0,
        q.1,
        index_from(lines(kv), 0, Map::empty()),
        index_from(lines(vk), 0, Map::empty()),
        match uuids {
            Some(t) => Some(content_lines(lines(t))),
            None => None,
        },
    )
}

/// The identifiers that a query finds, in order, from the texts of the query and of the indexes.
/// The list of all identifiers is read only where the query needs it.
pub fn resolve_query_uuids(qtv: &str, kv: &str, vk: &str, uuids: Option<&str>) -> (r: Result<
    Vec<String>,
>)
    ensures
        match r {
            Err(e) => query_from(lines(qtv@), 0, false) == Err::<
                (FilterMode, Seq<CriterionView>),
                ErrorView,
            >(e@),
            Ok(v) => query_from(lines(qtv@), 0, false) matches Ok(q) && views(v@) == listed(
                found(q, kv@, vk@, text_view(uuids)),
            ) && ordered(views(v@)) && views(v@).to_set() == found(q, kv@, vk@, text_view(uuids)),
        },
{
    let q = match parse_qtv(qtv) {
        Ok(q) => q,
        Err(e) => {
            return Err(e);
        },
    };
    let kv_index = load_rtv_index(kv);
    let vk_index = load_rtv_index(vk);
    match uuids {
        Some(t) => {
            let all = load_uuid_universe(t);
            Ok(execute_query(q.criteria.as_slice(), q.mode, &kv_index, &vk_index, Some(&all)))
        },
        None => Ok(execute_query(q.criteria.as_slice(), q.mode, &kv_index, &vk_index, None)),
    }
}

/// Law: what a query finds does not depend on the list of all identifiers unless a criterion
/// needs it.
pub proof fn law_universe_only_for_absence(
    mode: FilterMode,
    cs: Seq<CriterionView>,
    kv: Relation,
    vk: Relation,
    a: Option<Set<Seq<char>>>,
    b: Option<Set<Seq<char>>>,
)
    requires
        forall|i: int| 0 <= i < cs.len() ==> !needs_universe(#[trigger] cs[i]),
    ensures
        query_result(mode, cs, kv, vk, a) == query_result(mode, cs, kv, vk, b),
{
    assert forall|i: int| 0 <= i < cs.len() implies matching(cs[i], kv, vk, a) == #[trigger] matching(
        cs[i],
        kv,
        vk,
        b,
    ) by {
        assert(!needs_universe(cs[i]));
    }
    let x = query_result(mode, cs, kv, vk, a);
    let y = query_result(mode, cs, kv, vk, b);
    assert forall|u: Seq<char>| x.contains(u) <==> y.contains(u) by {
        match mode {
            FilterMode::Union => {
                if x.contains(u) {
                    let i = choose|i: int|
                        0 <= i < cs.len() && (#[trigger] matching(cs[i], kv, vk, a)).contains(u);
                    assert(matching(cs[i], kv, vk, b).contains(u));
                }
                if y.contains(u) {
                    let i = choose|i: int|
                        0 <= i < cs.len() && (#[trigger] matching(cs[i], kv, vk, b)).contains(u);
                    assert(matching(cs[i], kv, vk, a).contains(u));
                }
            },
            FilterMode::Intersect => {
                if x.contains(u) {
                    assert forall|i: int| 0 <= i < cs.len() implies (#[trigger] matching(
                        cs[i],
                        kv,
                        vk,
                        b,
                    )).contains(u) by {
                        assert(matching(cs[i], kv, vk, a).contains(u));
                    }
                }
                if y.contains(u) {
                    assert forall|i: int| 0 <= i < cs.len() implies (#[trigger] matching(
                        cs[i],
                        kv,
                        vk,
                        a,
                    )).contains(u) by {
                        assert(matching(cs[i], kv, vk, b).contains(u));
                    }
                }
            },
        }
    }
    assert(x =~= y);
}

/// Law: of all identifiers, those that lack a key are exactly those that do not have it.
pub proof fn law_absent_is_not_present(
    k: Seq<char>,
    kv: Relation,
    vk: Relation,
    all: Set<Seq<char>>,
    u: Seq<char>,
)
    requires
        all.contains(u),
    ensures
        matching(CriterionView::AbsentKey(k), kv, vk, Some(all)).contains(u) <==> !matching(
            CriterionView::Present(k),
            kv,
            vk,
            Some(all),
        ).contains(u),
{
}

} // verus!
