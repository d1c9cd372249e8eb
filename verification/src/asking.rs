//! What a query file asks for, said by its lines.
use crate::dotsv::{unlines, FileView};
use crate::database::{database, sound};
use crate::error::ErrorView;
use crate::escape::{escaped, law_unescape_escape};
use crate::lookup::{is_comment, law_query_finds_records, lemma_no_tab};
use crate::query::{criterion_of, found, mode_of, query_from, CriterionView, FilterMode};
use crate::relate::rtv_texts;
use crate::reload::{is_line, law_lines_unlines};
use crate::text::{join, lemma_split_append, lemma_split_single, lines, split};
use crate::writing::{counting_places, counts, lemma_counting_first};
use vstd::prelude::*;

verus! {

proof fn lemma_query_places(ls: Seq<Seq<char>>, i: int, begun: bool) -> (ps: Seq<int>)
    requires
        0 <= i <= ls.len(),
    ensures
        counting_places(ls, i, ps),
        query_from(ls, i, begun) matches Ok(q) ==> q.1.len() == ps.len() && forall|j: int|
            0 <= j < ps.len() ==> criterion_of(ls[ps[j]]) == Ok::<CriterionView, ErrorView>(
                #[trigger] q.1[j],
            ),
        query_from(ls, i, begun) is Ok <==> forall|j: int|
            0 <= j < ps.len() ==> criterion_of(ls[#[trigger] ps[j]]) is Ok,
    decreases ls.len() - i,
{
    if i == ls.len() {
        Seq::empty()
    } else if counts(ls[i]) {
        lemma_modes_are_comments(ls[i]);
        let rest = lemma_query_places(ls, i + 1, true);
        lemma_counting_first(ls, i, rest);
        let ps = seq![i] + rest;
        if let Ok(q) = query_from(ls, i, begun) {
            let w = query_from(ls, i + 1, true)->Ok_0;
            assert forall|j: int| 0 <= j < ps.len() implies criterion_of(ls[ps[j]]) == Ok::<
                CriterionView,
                ErrorView,
            >(#[trigger] q.1[j]) by {
                if j > 0 {
                    assert(q.1[j] == w.1[j - 1]);
                    assert(ps[j] == rest[j - 1]);
                }
            }
            assert forall|j: int| 0 <= j < ps.len() implies criterion_of(ls[#[trigger] ps[j]]) is Ok by {
                assert(criterion_of(ls[ps[j]]) == Ok::<CriterionView, ErrorView>(q.1[j]));
            }
        }
        if forall|j: int| 0 <= j < ps.len() ==> criterion_of(ls[#[trigger] ps[j]]) is Ok {
            assert(ps[0] == i);
            assert forall|j: int| 0 <= j < rest.len() implies criterion_of(ls[#[trigger] rest[j]])
                is Ok by {
                assert(ps[j + 1] == rest[j]);
            }
        }
        ps
    } else if ls[i].len() == 0 {
        lemma_query_places(ls, i + 1, begun)
    } else {
        lemma_query_places(ls, i + 1, true)
    }
}

proof fn lemma_modes_are_comments(line: Seq<char>)
    requires
        counts(line),
    ensures
        mode_of(line) is None,
{
    reveal_strlit("# mode\tunion");
    reveal_strlit("# mode\tintersect");
}

/// Law: a query has one criterion for each line that is neither blank nor a comment, in their
/// order; it is refused exactly if one of these lines is.
pub proof fn law_query_criteria(ls: Seq<Seq<char>>)
    ensures
        exists|ps: Seq<int>| #[trigger]
            counting_places(ls, 0, ps) && (query_from(ls, 0, false) is Ok <==> forall|j: int|
                0 <= j < ps.len() ==> criterion_of(ls[#[trigger] ps[j]]) is Ok) && (query_from(
                ls,
                0,
                false,
            ) matches Ok(q) ==> q.1.len() == ps.len() && forall|j: int|
                0 <= j < ps.len() ==> criterion_of(ls[ps[j]]) == Ok::<CriterionView, ErrorView>(
                    #[trigger] q.1[j],
                )),
{
    let ps = lemma_query_places(ls, 0, false);
    assert(counting_places(ls, 0, ps));
}

/// Whether the first line that is not blank is `line`.
pub open spec fn starts_with_line(ls: Seq<Seq<char>>, line: Seq<char>) -> bool {
    exists|i: int|
        0 <= i < ls.len() && #[trigger] ls[i] == line && line.len() > 0 && forall|j: int|
            0 <= j < i ==> (#[trigger] ls[j]).len() == 0
}

proof fn lemma_begun_mode(ls: Seq<Seq<char>>, i: int)
    ensures
        query_from(ls, i, true) matches Ok(q) ==> q.0 == FilterMode::Intersect,
    decreases ls.len() - i,
{
    if i < ls.len() {
        lemma_begun_mode(ls, i + 1);
    }
}

proof fn lemma_query_mode(ls: Seq<Seq<char>>, i: int)
    requires
        0 <= i <= ls.len(),
        forall|j: int| 0 <= j < i ==> (#[trigger] ls[j]).len() == 0,
        query_from(ls, i, false) is Ok,
    ensures
        (query_from(ls, i, false)->Ok_0).0 == FilterMode::Union <==> starts_with_line(
            ls,
            "# mode\tunion"@,
        ),
    decreases ls.len() - i,
{
    reveal_strlit("# mode\tunion");
    reveal_strlit("# mode\tintersect");
    let union = "# mode\tunion"@;
    if i == ls.len() {
        if starts_with_line(ls, union) {
            let k = choose|k: int|
                0 <= k < ls.len() && #[trigger] ls[k] == union && union.len() > 0 && forall|j: int|
                    0 <= j < k ==> (#[trigger] ls[j]).len() == 0;
            assert(ls[k].len() == 0);
        }
    } else if ls[i].len() == 0 {
        lemma_query_mode(ls, i + 1);
    } else {
        lemma_begun_mode(ls, i + 1);
        assert("# mode\tintersect"@.len() == 16 && union.len() == 12);
        if ls[i] == union {
            assert(starts_with_line(ls, union));
        } else if starts_with_line(ls, union) {
            let k = choose|k: int|
                0 <= k < ls.len() && #[trigger] ls[k] == union && union.len() > 0 && forall|j: int|
                    0 <= j < k ==> (#[trigger] ls[j]).len() == 0;
            if k < i {
                assert(ls[k].len() == 0);
            } else if k > i {
                assert(ls[i].len() == 0);
            }
        }
        if counts(ls[i]) {
            lemma_modes_are_comments(ls[i]);
        }
    }
}

/// Law: a query is a union exactly if its first line that is not blank says so; else all criteria
/// must hold.
pub proof fn law_query_mode(ls: Seq<Seq<char>>)
    requires
        query_from(ls, 0, false) is Ok,
    ensures
        (query_from(ls, 0, false)->Ok_0).0 == if starts_with_line(ls, "# mode\tunion"@) {
            FilterMode::Union
        } else {
            FilterMode::Intersect
        },
{
    lemma_query_mode(ls, 0);
    match (query_from(ls, 0, false)->Ok_0).0 {
        FilterMode::Union => {},
        FilterMode::Intersect => {},
    }
}

proof fn lemma_comment_inserted(ls: Seq<Seq<char>>, j: int, c: Seq<char>, i: int, begun: bool)
    requires
        0 <= i <= j <= ls.len(),
        c.len() == 0 || c[0] == '#',
        begun || exists|k: int| i <= k < j && (#[trigger] ls[k]).len() > 0,
    ensures
        query_from(ls.insert(j, c), i, begun) == query_from(ls, i, begun),
    decreases ls.len() - i,
{
    let ts = ls.insert(j, c);
    if i < j {
        assert(ts[i] == ls[i]);
        if ls[i].len() == 0 {
            if !begun {
                let k = choose|k: int| i <= k < j && (#[trigger] ls[k]).len() > 0;
                assert(i + 1 <= k < j && ls[k].len() > 0);
            }
            lemma_comment_inserted(ls, j, c, i + 1, begun);
        } else {
            lemma_comment_inserted(ls, j, c, i + 1, true);
        }
    } else {
        assert(ts[j] == c);
        lemma_shifted(ls, j, c, j, true);
    }
}

proof fn lemma_shifted(ls: Seq<Seq<char>>, j: int, c: Seq<char>, i: int, begun: bool)
    requires
        0 <= j <= i <= ls.len(),
    ensures
        query_from(ls.insert(j, c), i + 1, begun) == query_from(ls, i, begun),
    decreases ls.len() - i,
{
    let ts = ls.insert(j, c);
    if i < ls.len() {
        assert(ts[i + 1] == ls[i]);
        lemma_shifted(ls, j, c, i + 1, begun);
        lemma_shifted(ls, j, c, i + 1, true);
    }
}

/// Law: a comment or a blank line behind the first line that is not blank changes neither the mode
/// nor the criteria of a query, nor how it is refused.
pub proof fn law_query_comments(ls: Seq<Seq<char>>, j: int, c: Seq<char>, k: int)
    requires
        0 <= k < j <= ls.len(),
        ls[k].len() > 0,
        c.len() == 0 || c[0] == '#',
    ensures
        query_from(ls.insert(j, c), 0, false) == query_from(ls, 0, false),
{
    lemma_comment_inserted(ls, j, c, 0, false);
}

/// Two written columns with a tab between them.
pub open spec fn columns(a: Seq<char>, b: Seq<char>) -> Seq<char> {
    a + seq!['\t'] + b
}

proof fn lemma_columns(a: Seq<char>, b: Seq<char>)
    requires
        !a.contains('\t'),
        !b.contains('\t'),
    ensures
        split(columns(a, b), '\t') == seq![a, b],
        join(seq![a, b].skip(1), "\t"@) == b,
{
    lemma_split_single(a, '\t');
    lemma_split_append(a, '\t', b);
    assert(seq![a].push(b) == seq![a, b]);
    assert(seq![a, b].skip(1) == seq![b]);
}

/// Law: a line with a written key and a written value asks for records that have both.
pub proof fn law_ask_key_value(k: Seq<char>, v: Seq<char>)
    requires
        k.len() == 0 || k[0] != '@',
    ensures
        criterion_of(columns(escaped(k), escaped(v))) == Ok::<CriterionView, ErrorView>(
            CriterionView::KeyValue(k, v),
        ),
{
    lemma_no_tab(k);
    lemma_no_tab(v);
    lemma_columns(escaped(k), escaped(v));
    law_unescape_escape(k);
    law_unescape_escape(v);
    lemma_first_char(k, '@');
    let line = columns(escaped(k), escaped(v));
    if k.len() > 0 {
        assert(line[0] == escaped(k)[0]);
    } else {
        assert(line[0] == '\t');
    }
}

/// The first written character of a string.
proof fn lemma_first_char(s: Seq<char>, c: char)
    requires
        c == '@' || c == '#',
    ensures
        escaped(s).len() == 0 <==> s.len() == 0,
        s.len() > 0 ==> (escaped(s)[0] == c <==> s[0] == c),
{
    reveal_strlit("\\x09");
    reveal_strlit("\\x0A");
    reveal_strlit("\\x0D");
    reveal_strlit("\\x3D");
    reveal_strlit("\\\\");
    if s.len() > 0 {
        assert(escaped(s)[0] == crate::escape::escaped_char(s[0])[0]);
    }
}

/// Law: a line with one written word asks for records that have it as a key or as a value.
pub proof fn law_ask_token(t: Seq<char>)
    requires
        t.len() > 0,
        t[0] != '@',
    ensures
        criterion_of(escaped(t)) == Ok::<CriterionView, ErrorView>(CriterionView::Token(t)),
{
    lemma_no_tab(t);
    lemma_split_single(escaped(t), '\t');
    law_unescape_escape(t);
    lemma_first_char(t, '@');
}

/// Law: `@present` asks for records that have a key, `@absent` for those that do not have it, or
/// do not have it with a value.
pub proof fn law_ask_directives(k: Seq<char>, v: Seq<char>)
    ensures
        criterion_of(columns("@present"@, escaped(k))) == Ok::<CriterionView, ErrorView>(
            CriterionView::Present(k),
        ),
        criterion_of(columns("@absent"@, escaped(k))) == Ok::<CriterionView, ErrorView>(
            CriterionView::AbsentKey(k),
        ),
        criterion_of(columns(columns("@absent"@, escaped(k)), escaped(v))) == Ok::<
            CriterionView,
            ErrorView,
        >(CriterionView::AbsentKeyValue(k, v)),
{
    reveal_strlit("@present");
    reveal_strlit("@absent");
    let p = "@present"@;
    let a = "@absent"@;
    assert(p.len() == 8 && a.len() == 7);
    assert(!p.contains('\t') && !a.contains('\t'));
    lemma_no_tab(k);
    lemma_no_tab(v);
    lemma_columns(p, escaped(k));
    lemma_columns(a, escaped(k));
    lemma_split_append(columns(a, escaped(k)), '\t', escaped(v));
    assert(seq![a, escaped(k)].push(escaped(v)) == seq![a, escaped(k), escaped(v)]);
    law_unescape_escape(k);
    law_unescape_escape(v);
    assert(columns(p, escaped(k))[0] == '@');
    assert(columns(a, escaped(k))[0] == '@');
    assert(columns(columns(a, escaped(k)), escaped(v))[0] == '@');
}

/// Law: a line that starts with `@` and is no such directive is refused.
pub proof fn law_unknown_directive_refused(line: Seq<char>)
    requires
        line.len() > 0,
        line[0] == '@',
        split(line, '\t')[0] != "@present"@,
        split(line, '\t')[0] != "@absent"@,
    ensures
        criterion_of(line) is Err,
{
}

/// What a query of one line finds in the index files of a database.
pub open spec fn line_finds(f: FileView, foot: Seq<char>, line: Seq<char>) -> Set<Seq<char>> {
    let t = rtv_texts(f.sorted, foot)->Ok_0;
    let q = query_from(lines(unlines(seq![line])), 0, false)->Ok_0;
    found(q, t.0, t.1, Some(t.2))
}

proof fn lemma_one_line(line: Seq<char>, c: CriterionView)
    requires
        is_line(line),
        counts(line),
        criterion_of(line) == Ok::<CriterionView, ErrorView>(c),
    ensures
        query_from(lines(unlines(seq![line])), 0, false) == Ok::<
            (FilterMode, Seq<CriterionView>),
            ErrorView,
        >((FilterMode::Intersect, seq![c])),
{
    let ls = seq![line];
    law_lines_unlines(ls);
    lemma_modes_are_comments(line);
    assert(query_from(ls, 1, true) == Ok::<(FilterMode, Seq<CriterionView>), ErrorView>(
        (FilterMode::Intersect, Seq::empty()),
    ));
    assert(seq![c] + Seq::<CriterionView>::empty() == seq![c]);
}

proof fn lemma_written_is_line(a: Seq<char>, s: Seq<char>)
    requires
        !a.contains('\n'),
    ensures
        is_line(escaped(s)),
        is_line(columns(a, escaped(s))),
{
    lemma_no_tab(s);
    let e = escaped(s);
    let c = columns(a, e);
    if e.len() > 0 {
        assert(e.contains(e[e.len() - 1]));
        assert(c.last() == e.last());
    } else {
        assert(c.last() == '\t');
    }
    if c.contains('\n') {
        let k = choose|k: int| 0 <= k < c.len() && c[k] == '\n';
        if k < a.len() {
            assert(a[k] == '\n');
        } else if k > a.len() {
            assert(e[k - a.len() - 1] == '\n');
        }
    }
}

/// Law: a query file of one line with a written key and value finds exactly the records of a
/// compacted database that have this value under this key; one with a written word those that
/// have it as a key or as a value.
pub proof fn law_query_line_finds(f: FileView, foot: Seq<char>, k: Seq<char>, v: Seq<char>, u: Seq<char>)
    requires
        sound(f),
        f.pending.len() == 0,
        is_comment(foot),
        is_line(foot),
        k.len() > 0,
        k[0] != '@',
        k[0] != '#',
    ensures
        line_finds(f, foot, columns(escaped(k), escaped(v))).contains(u) <==> database(f).contains_key(
            u,
        ) && database(f)[u].contains_key(k) && database(f)[u][k] == v,
        line_finds(f, foot, escaped(k)).contains(u) <==> database(f).contains_key(u) && (database(
            f,
        )[u].contains_key(k) || exists|x: Seq<char>| #[trigger]
            database(f)[u].contains_key(x) && database(f)[u][x] == k),
        line_finds(f, foot, columns("@present"@, escaped(k))).contains(u) <==> database(
            f,
        ).contains_key(u) && database(f)[u].contains_key(k),
        line_finds(f, foot, columns("@absent"@, escaped(k))).contains(u) <==> database(
            f,
        ).contains_key(u) && !database(f)[u].contains_key(k),
        line_finds(f, foot, columns(columns("@absent"@, escaped(k)), escaped(v))).contains(u)
            <==> database(f).contains_key(u) && !(database(f)[u].contains_key(k) && database(f)[u][k]
            == v),
{
    reveal_strlit("@present");
    reveal_strlit("@absent");
    let p = "@present"@;
    let a = "@absent"@;
    assert(!p.contains('\n') && !a.contains('\n'));
    lemma_no_tab(k);
    lemma_no_tab(v);
    law_ask_key_value(k, v);
    law_ask_token(k);
    law_ask_directives(k, v);
    lemma_first_char(k, '#');
    lemma_first_char(k, '@');
    lemma_written_is_line(escaped(k), v);
    lemma_written_is_line(p, k);
    lemma_written_is_line(a, k);
    lemma_written_is_line(columns(a, escaped(k)), v);
    let l1 = columns(escaped(k), escaped(v));
    let l2 = columns(p, escaped(k));
    let l3 = columns(a, escaped(k));
    let l4 = columns(l3, escaped(v));
    assert(l1[0] == escaped(k)[0] && l2[0] == '@' && l3[0] == '@' && l4[0] == '@');
    lemma_one_line(l1, CriterionView::KeyValue(k, v));
    lemma_one_line(escaped(k), CriterionView::Token(k));
    lemma_one_line(l2, CriterionView::Present(k));
    lemma_one_line(l3, CriterionView::AbsentKey(k));
    lemma_one_line(l4, CriterionView::AbsentKeyValue(k, v));
    let all = FilterMode::Intersect;
    let (c1, c2, c3, c4, c5) = (
        seq![CriterionView::KeyValue(k, v)],
        seq![CriterionView::Token(k)],
        seq![CriterionView::Present(k)],
        seq![CriterionView::AbsentKey(k)],
        seq![CriterionView::AbsentKeyValue(k, v)],
    );
    law_query_finds_records(f, foot, all, c1, u);
    law_query_finds_records(f, foot, all, c2, u);
    law_query_finds_records(f, foot, all, c3, u);
    law_query_finds_records(f, foot, all, c4, u);
    law_query_finds_records(f, foot, all, c5, u);
    assert(c1[0] == CriterionView::KeyValue(k, v));
    assert(c2[0] == CriterionView::Token(k));
    assert(c3[0] == CriterionView::Present(k));
    assert(c4[0] == CriterionView::AbsentKey(k));
    assert(c5[0] == CriterionView::AbsentKeyValue(k, v));
}

/// Law: `@present` takes one key, and `@absent` a key and perhaps a value.
pub proof fn law_directive_columns(line: Seq<char>)
    requires
        line.len() > 0,
        line[0] == '@',
    ensures
        ({
            let cols = split(line, '\t');
            &&& cols[0] == "@present"@ && cols.len() != 2 ==> criterion_of(line) is Err
            &&& cols[0] == "@absent"@ && cols.len() != 2 && cols.len() != 3 ==> criterion_of(line) is Err
        }),
{
    reveal_strlit("@present");
    reveal_strlit("@absent");
    assert("@present"@.len() == 8 && "@absent"@.len() == 7);
    crate::text::lemma_split_nonempty(line, '\t');
}

} // verus!
