//! What holds of the index files and of the queries that read them.
use crate::base62::{is_uuid, lemma_uuid_plain};
use crate::compact::{in_order, lemma_in_order_members, merge_sorted, merged, MergeView};
use crate::database::{database, law_binary_search, lemma_record_of_uuid, sound};
use crate::dotsv::{cut, sorted_place, uuid_part, uuid_parts, FileView};
use crate::error::ErrorView;
use crate::escape::{
    array_of, escaped, escaped_char, is_array, is_delimiter, law_escaped_has_no_delimiter,
    law_unescape_escape,
};
use crate::fields::keys_of;
use crate::index::{
    cell_of, grouped_lines, grouped_row, grouped_rows, index_text, law_relation_members,
    lemma_record_triples_unexpanded, record_triples, related, relation_of, row_of, triples_from,
    triples_of, uuids_from, with_triple, Relation,
};
use crate::query::{
    content_lines, filled, found, in_row, index_from, lenient, matching, query_result, with_cell,
    CriterionView, FilterMode,
};
use crate::record::{record_of, RecordView};
use crate::relate::rtv_texts;
use crate::reload::{is_line, law_lines_unlines, lemma_join_no_char};
use crate::show::{lines_of_uuids, shown_lines};
use crate::sorted::{lemma_listed_finite, lemma_ordered_distinct, listed, ordered};
use crate::text::{
    byte_prefix, join, lemma_split_append, lemma_split_join, lemma_split_single, lines, split,
};
use vstd::prelude::*;
use vstd::utf8::*;

verus! {

/// Whether a string looks like a comment where a line starts with it.
pub open spec fn is_comment(s: Seq<char>) -> bool {
    s.len() > 0 && s[0] == '#'
}

/// Whether a set is finite, has a member, and has only identifiers.
pub open spec fn uuid_cell(c: Set<Seq<char>>) -> bool {
    &&& c.finite()
    &&& exists|u: Seq<char>| c.contains(u)
    &&& forall|u: Seq<char>| #[trigger] c.contains(u) ==> is_uuid(u)
}

/// Whether a row is finite and has something in every cell.
pub open spec fn filled_row(r: Map<Seq<char>, Set<Seq<char>>>) -> bool {
    &&& r.dom().finite()
    &&& exists|b: Seq<char>| r.contains_key(b)
    &&& forall|b: Seq<char>| #[trigger] r.contains_key(b) ==> uuid_cell(r[b])
}

/// Whether a relation is finite and between strings and identifiers, without empty rows or cells.
pub open spec fn filled_relation(m: Relation) -> bool {
    &&& m.dom().finite()
    &&& forall|a: Seq<char>| #[trigger] m.contains_key(a) ==> filled_row(m[a])
}

/// The part of a relation whose rows do not look like comments.
pub open spec fn visible(m: Relation) -> Relation {
    Map::new(|a: Seq<char>| m.contains_key(a) && !is_comment(a), |a: Seq<char>| m[a])
}

/// The relation after one more line of an index.
spec fn index_step(m: Relation, line: Seq<char>) -> Relation {
    index_from(seq![line], 0, m)
}

proof fn lemma_index_append(ls: Seq<Seq<char>>, line: Seq<char>, i: int, m: Relation)
    requires
        0 <= i <= ls.len(),
    ensures
        index_from(ls.push(line), i, m) == index_step(index_from(ls, i, m), line),
    decreases ls.len() - i,
{
    let all = ls.push(line);
    if i == ls.len() {
        assert(all[i] == line);
        let one = seq![line];
        assert(one[0] == line);
        reveal_with_fuel(index_from, 3);
    } else {
        assert(all[i] == ls[i]);
        let cols = split(ls[i], '\t');
        if ls[i].len() == 0 || ls[i][0] == '#' || cols.len() < 3 {
            lemma_index_append(ls, line, i + 1, m);
        } else {
            let us = filled(split(join(cols.skip(2), "\t"@), ','));
            lemma_index_append(ls, line, i + 1, with_cell(m, lenient(cols[0]), lenient(cols[1]), us));
        }
    }
}

pub proof fn lemma_no_tab(s: Seq<char>)
    ensures
        !escaped(s).contains('\t'),
        !escaped(s).contains('\n'),
        !escaped(s).contains('\r'),
{
    law_escaped_has_no_delimiter(s);
    let e = escaped(s);
    assert forall|c: char| is_delimiter(c) implies !#[trigger] e.contains(c) by {
        if e.contains(c) {
            let k = choose|k: int| 0 <= k < e.len() && e[k] == c;
            assert(is_delimiter(e[k]));
        }
    }
    assert(is_delimiter('\t') && is_delimiter('\n') && is_delimiter('\r'));
}

/// An escaped string looks like a comment if and only if the string does.
pub proof fn lemma_escaped_comment(s: Seq<char>)
    ensures
        is_comment(escaped(s)) <==> is_comment(s),
        escaped(s).len() == 0 <==> s.len() == 0,
{
    reveal_strlit("\\x09");
    reveal_strlit("\\x0A");
    reveal_strlit("\\x0D");
    reveal_strlit("\\x3D");
    reveal_strlit("\\\\");
    if s.len() > 0 {
        assert(escaped(s)[0] == escaped_char(s[0])[0]);
    }
}

/// The cell of identifiers that its text says.
proof fn lemma_cell_text(c: Set<Seq<char>>)
    requires
        uuid_cell(c),
    ensures
        filled(split(join(listed(c), ","@), ',')) == c,
        !join(listed(c), ","@).contains('\t'),
        is_line(join(listed(c), ","@)),
        join(listed(c), ","@).len() > 0,
{
    reveal_strlit(",");
    assert(","@ == seq![',']);
    lemma_listed_finite(c);
    let us = listed(c);
    let u = choose|u: Seq<char>| c.contains(u);
    assert(us.to_set().contains(u));
    assert(us.len() > 0);
    assert forall|i: int| 0 <= i < us.len() implies is_uuid(#[trigger] us[i]) by {
        assert(us.to_set().contains(us[i]));
    }
    assert forall|i: int, x: char|
        0 <= i < us.len() && (x == ',' || x == '\t' || x == '\n' || x == '\r') implies !(
    #[trigger] us[i].contains(x)) by {
        lemma_uuid_plain(us[i]);
    }
    lemma_split_join(us, ',');
    assert(filled(us) =~= c) by {
        assert forall|v: Seq<char>| filled(us).contains(v) <==> c.contains(v) by {
            assert(us.contains(v) <==> us.to_set().contains(v));
            if c.contains(v) {
                lemma_uuid_plain(v);
            }
        }
    }
    lemma_join_no_char(us, seq![','], '\t');
    lemma_join_no_char(us, seq![','], '\n');
    lemma_join_no_char(us, seq![','], '\r');
    let t = join(us, seq![',']);
    assert(t.len() > 0) by {
        if us.len() == 1 {
            lemma_uuid_plain(us[0]);
        }
    }
    assert(t.contains(t[t.len() - 1]));
}

/// The line of a cell.
spec fn cell_line(a: Seq<char>, b: Seq<char>, c: Set<Seq<char>>) -> Seq<char> {
    escaped(a) + "\t"@ + escaped(b) + "\t"@ + join(listed(c), ","@)
}

proof fn lemma_cell_line(m: Relation, a: Seq<char>, b: Seq<char>, c: Set<Seq<char>>)
    requires
        uuid_cell(c),
    ensures
        is_line(cell_line(a, b, c)),
        index_step(m, cell_line(a, b, c)) == if is_comment(a) {
            m
        } else {
            with_cell(m, a, b, c)
        },
{
    reveal_strlit("\t");
    let tab = seq!['\t'];
    assert("\t"@ == tab);
    let ea = escaped(a);
    let eb = escaped(b);
    let t = join(listed(c), ","@);
    let line = cell_line(a, b, c);
    lemma_no_tab(a);
    lemma_no_tab(b);
    lemma_cell_text(c);
    lemma_escaped_comment(a);
    lemma_split_single(ea, '\t');
    lemma_split_append(ea, '\t', eb);
    lemma_split_append(ea + tab + eb, '\t', t);
    let cols = split(line, '\t');
    assert(line == ea + tab + eb + tab + t);
    assert(cols == seq![ea].push(eb).push(t));
    assert(cols.skip(2) == seq![t]);
    assert(join(cols.skip(2), tab) == t);
    law_unescape_escape(a);
    law_unescape_escape(b);
    let one = seq![line];
    assert(one[0] == line);
    assert(line[0] == (if ea.len() > 0 {
        ea[0]
    } else {
        '\t'
    }));
    reveal_with_fuel(index_from, 3);
    assert(line.last() == t.last());
    assert(!line.contains('\n')) by {
        if line.contains('\n') {
            let k = choose|k: int| 0 <= k < line.len() && line[k] == '\n';
            let p = ea.len() as int;
            let q = p + 1 + eb.len();
            if k < p {
                assert(ea[k] == '\n');
            } else if p < k < q {
                assert(eb[k - p - 1] == '\n');
            } else if k > q {
                assert(t[k - q - 1] == '\n');
            }
        }
    }
}

/// The first `n` keys of a row.
spec fn row_part(r: Map<Seq<char>, Set<Seq<char>>>, n: int) -> Map<Seq<char>, Set<Seq<char>>> {
    Map::new(|b: Seq<char>| keys_of(r).take(n).contains(b), |b: Seq<char>| r[b])
}

/// The first `n` rows of a relation that do not look like comments.
spec fn rows_part(m: Relation, n: int) -> Relation {
    Map::new(
        |a: Seq<char>| keys_of(m).take(n).contains(a) && !is_comment(a),
        |a: Seq<char>| m[a],
    )
}

proof fn lemma_take_push(s: Seq<Seq<char>>, n: int)
    requires
        0 < n <= s.len(),
    ensures
        forall|x: Seq<char>| #[trigger] s.take(n).contains(x) <==> s.take(n - 1).contains(x) || x == s[n - 1],
{
    let a = s.take(n - 1);
    let b = s.take(n);
    assert forall|x: Seq<char>| #[trigger] b.contains(x) <==> a.contains(x) || x == s[n - 1] by {
        if b.contains(x) {
            let k = choose|k: int| 0 <= k < b.len() && b[k] == x;
            if k < n - 1 {
                assert(a[k] == x);
            }
        }
        if a.contains(x) {
            let k = choose|k: int| 0 <= k < a.len() && a[k] == x;
            assert(b[k] == x);
        }
        assert(b[n - 1] == s[n - 1]);
    }
}

proof fn lemma_take_lacks(s: Seq<Seq<char>>, n: int)
    requires
        ordered(s),
        0 < n <= s.len(),
    ensures
        !s.take(n - 1).contains(s[n - 1]),
{
    let t = s.take(n - 1);
    let x = s[n - 1];
    if t.contains(x) {
        let k = choose|k: int| 0 <= k < t.len() && t[k] == x;
        lemma_ordered_distinct(s, k, n - 1);
    }
}

proof fn lemma_index_row(
    before: Seq<Seq<char>>,
    s: Relation,
    a: Seq<char>,
    r: Map<Seq<char>, Set<Seq<char>>>,
    n: int,
)
    requires
        filled_row(r),
        0 <= n <= keys_of(r).len(),
        index_from(before, 0, Map::empty()) == s,
        !s.contains_key(a),
    ensures
        index_from(before + grouped_row(a, r, n), 0, Map::empty()) == if is_comment(a) || n == 0 {
            s
        } else {
            s.insert(a, row_part(r, n))
        },
        forall|i: int|
            0 <= i < grouped_row(a, r, n).len() ==> is_line(#[trigger] grouped_row(a, r, n)[i]),
    decreases n,
{
    let ks = keys_of(r);
    lemma_listed_finite(r.dom());
    if n == 0 {
        assert(before + grouped_row(a, r, 0) == before);
    } else {
        lemma_index_row(before, s, a, r, n - 1);
        let b = ks[n - 1];
        assert(ks.to_set().contains(b));
        assert(r.contains_key(b));
        let line = cell_line(a, b, r[b]);
        let g = grouped_row(a, r, n - 1);
        assert(grouped_row(a, r, n) == g.push(line));
        assert(before + g.push(line) == (before + g).push(line));
        lemma_index_append(before + g, line, 0, Map::empty());
        let p = index_from(before + g, 0, Map::empty());
        lemma_cell_line(p, a, b, r[b]);
        if !is_comment(a) {
            lemma_take_push(ks, n);
            assert(row_part(r, 0) =~= Map::<Seq<char>, Set<Seq<char>>>::empty());
            assert(row_of(p, a) == row_part(r, n - 1));
            assert(row_part(r, n - 1).insert(b, r[b]) =~= row_part(r, n));
            assert(with_cell(p, a, b, r[b]) =~= s.insert(a, row_part(r, n)));
        }
    }
}

proof fn lemma_index_rows(m: Relation, n: int)
    requires
        filled_relation(m),
        0 <= n <= keys_of(m).len(),
    ensures
        index_from(grouped_rows(m, n), 0, Map::empty()) == rows_part(m, n),
        forall|i: int|
            0 <= i < grouped_rows(m, n).len() ==> is_line(#[trigger] grouped_rows(m, n)[i]),
    decreases n,
{
    let ks = keys_of(m);
    lemma_listed_finite(m.dom());
    if n == 0 {
        assert(rows_part(m, 0) =~= Map::<Seq<char>, Map<Seq<char>, Set<Seq<char>>>>::empty());
    } else {
        lemma_index_rows(m, n - 1);
        let a = ks[n - 1];
        assert(ks.to_set().contains(a));
        assert(m.contains_key(a));
        let r = m[a];
        let all = keys_of(r).len() as int;
        lemma_listed_finite(r.dom());
        lemma_take_lacks(ks, n);
        lemma_take_push(ks, n);
        lemma_index_row(grouped_rows(m, n - 1), rows_part(m, n - 1), a, r, all);
        assert(keys_of(r).take(all) == keys_of(r));
        assert(row_part(r, all) =~= r) by {
            assert forall|b: Seq<char>| keys_of(r).contains(b) <==> r.contains_key(b) by {
                assert(keys_of(r).to_set().contains(b) <==> keys_of(r).contains(b));
            }
        }
        assert(all > 0) by {
            let b = choose|b: Seq<char>| r.contains_key(b);
            assert(keys_of(r).to_set().contains(b));
        }
        if is_comment(a) {
            assert(rows_part(m, n) =~= rows_part(m, n - 1));
        } else {
            assert(rows_part(m, n) =~= rows_part(m, n - 1).insert(a, r));
        }
    }
}

/// Law: an index with one line for each key and value, or value and key, is read back as the
/// relation that it was made of. Rows whose first string starts with `#` are lost: their lines look
/// like comments.
pub proof fn law_index_reads_back(m: Relation, foot: Seq<char>)
    requires
        filled_relation(m),
        is_comment(foot),
        is_line(foot),
    ensures
        index_from(lines(index_text(grouped_lines(m), foot)), 0, Map::empty()) == visible(m),
{
    let ks = keys_of(m);
    let n = ks.len() as int;
    let rows = grouped_lines(m);
    lemma_index_rows(m, n);
    lemma_listed_finite(m.dom());
    assert(ks.take(n) == ks);
    assert(rows_part(m, n) =~= visible(m)) by {
        assert forall|a: Seq<char>| ks.contains(a) <==> m.contains_key(a) by {
            assert(ks.to_set().contains(a) <==> ks.contains(a));
        }
    }
    law_lines_unlines(rows.push(foot));
    lemma_index_append(rows, foot, 0, Map::empty());
    let one = seq![foot];
    assert(one[0] == foot);
    reveal_with_fuel(index_from, 3);
}

/// Whether the third strings of triples are identifiers.
pub open spec fn uuid_triples(ts: Seq<(Seq<char>, Seq<char>, Seq<char>)>) -> bool {
    forall|i: int| 0 <= i < ts.len() ==> is_uuid((#[trigger] ts[i]).2)
}

pub proof fn lemma_with_triple(m: Relation, a: Seq<char>, b: Seq<char>, u: Seq<char>)
    requires
        filled_relation(m),
        is_uuid(u),
    ensures
        filled_relation(with_triple(m, a, b, u)),
{
    let row = row_of(m, a);
    let cell = cell_of(row, b);
    let c2 = cell.insert(u);
    let r2 = row.insert(b, c2);
    let m2 = with_triple(m, a, b, u);
    assert(c2.contains(u));
    assert(uuid_cell(c2)) by {
        assert forall|v: Seq<char>| #[trigger] c2.contains(v) implies is_uuid(v) by {}
    }
    assert(r2.contains_key(b));
    assert(r2.dom() =~= row.dom().insert(b));
    assert(filled_row(r2));
    assert(m2.dom() =~= m.dom().insert(a));
}

/// Law: the relation of triples whose third strings are identifiers is finite and has no empty
/// rows or cells.
pub proof fn law_relation_filled(ts: Seq<(Seq<char>, Seq<char>, Seq<char>)>, swapped: bool)
    requires
        uuid_triples(ts),
    ensures
        filled_relation(relation_of(ts, swapped)),
    decreases ts.len(),
{
    if ts.len() > 0 {
        let d = ts.drop_last();
        let t = ts.last();
        assert(t == ts[ts.len() - 1]);
        assert forall|i: int| 0 <= i < d.len() implies is_uuid((#[trigger] d[i]).2) by {
            assert(d[i] == ts[i]);
        }
        law_relation_filled(d, swapped);
        let m = relation_of(d, swapped);
        if swapped {
            lemma_with_triple(m, t.1, t.0, t.2);
        } else {
            lemma_with_triple(m, t.0, t.1, t.2);
        }
    }
}

/// What merging sorted lines leaves unchanged: an identifier that none of them has.
proof fn lemma_merge_untouched(ls: Seq<Seq<char>>, i: int, m: MergeView, u: Seq<char>)
    requires
        0 <= i <= ls.len(),
        merge_sorted(ls, i, m) is Ok,
        forall|j: int| i <= j < ls.len() ==> #[trigger] uuid_parts(ls)[j] != u,
    ensures
        (merge_sorted(ls, i, m)->Ok_0).records.contains_key(u) == m.records.contains_key(u),
        (merge_sorted(ls, i, m)->Ok_0).records[u] == m.records[u],
    decreases ls.len() - i,
{
    if i < ls.len() {
        if ls[i].len() == 0 {
            lemma_merge_untouched(ls, i + 1, m, u);
        } else {
            let r = record_of(ls[i], (i + 1) as usize)->Ok_0;
            lemma_record_of_uuid(ls[i], (i + 1) as usize);
            assert(uuid_parts(ls)[i] == r.uuid);
            lemma_merge_untouched(ls, i + 1, m.with_sorted(r), u);
        }
    }
}

/// What merging sorted lines knows of the record of line `j`.
proof fn lemma_merge_recorded(ls: Seq<Seq<char>>, i: int, m: MergeView, j: int)
    requires
        0 <= i <= j < ls.len(),
        ls[j].len() > 0,
        merge_sorted(ls, i, m) is Ok,
        ordered(uuid_parts(ls)),
    ensures
        record_of(ls[j], (j + 1) as usize) is Ok,
        recorded(merge_sorted(ls, i, m)->Ok_0, record_of(ls[j], (j + 1) as usize)->Ok_0),
    decreases ls.len() - i,
{
    if ls[i].len() == 0 {
        lemma_merge_recorded(ls, i + 1, m, j);
    } else {
        let r = record_of(ls[i], (i + 1) as usize)->Ok_0;
        let m2 = m.with_sorted(r);
        if i < j {
            lemma_merge_recorded(ls, i + 1, m2, j);
        } else {
            let us = uuid_parts(ls);
            lemma_record_of_uuid(ls[i], (i + 1) as usize);
            assert(us[i] == r.uuid);
            assert forall|k: int| i + 1 <= k < ls.len() implies #[trigger] us[k] != r.uuid by {
                if us[k] == r.uuid {
                    lemma_ordered_distinct(us, i, k);
                }
            }
            lemma_merge_untouched(ls, i + 1, m2, r.uuid);
        }
    }
}

/// Where a record that merging sorted lines gives comes from.
proof fn lemma_merge_source(ls: Seq<Seq<char>>, i: int, m: MergeView, u: Seq<char>)
    requires
        0 <= i <= ls.len(),
        merge_sorted(ls, i, m) is Ok,
        (merge_sorted(ls, i, m)->Ok_0).live(u),
    ensures
        m.live(u) || exists|j: int| i <= j < ls.len() && uuid_at(ls, j, u),
    decreases ls.len() - i,
{
    if i < ls.len() {
        let m2 = if ls[i].len() == 0 {
            m
        } else {
            m.with_sorted(record_of(ls[i], (i + 1) as usize)->Ok_0)
        };
        lemma_merge_source(ls, i + 1, m2, u);
        if !m.live(u) {
            if m2.live(u) {
                assert(uuid_at(ls, i, u));
            } else {
                let j = choose|j: int| i + 1 <= j < ls.len() && uuid_at(ls, j, u);
                assert(uuid_at(ls, j, u));
            }
        }
    }
}

/// Whether a merge state has a record.
spec fn recorded(m: MergeView, r: RecordView) -> bool {
    m.records.contains_key(r.uuid) && m.records[r.uuid] == Some(r)
}

/// Whether the record of line `j` has identifier `u`.
spec fn uuid_at(ls: Seq<Seq<char>>, j: int, u: Seq<char>) -> bool {
    ls[j].len() > 0 && (record_of(ls[j], (j + 1) as usize) matches Ok(r) && r.uuid == u)
}

/// The values that a value stands for: with `expand` the elements of an array, else itself.
pub open spec fn parts_of(v: Seq<char>, expand: bool) -> Seq<Seq<char>> {
    if expand && is_array(v) {
        array_of(v)->Ok_0
    } else {
        seq![v]
    }
}

/// Whether the record of line `j` has identifier `u` and the key `k` with a value that stands for
/// `v`.
spec fn triple_at(
    ls: Seq<Seq<char>>,
    j: int,
    k: Seq<char>,
    v: Seq<char>,
    u: Seq<char>,
    expand: bool,
) -> bool {
    ls[j].len() > 0 && (record_of(ls[j], (j + 1) as usize) matches Ok(r) && r.uuid == u
        && r.fields.contains_key(k) && parts_of(r.fields[k], expand).contains(v))
}

pub proof fn lemma_concat_contains<T>(a: Seq<T>, b: Seq<T>, x: T)
    ensures
        (a + b).contains(x) <==> a.contains(x) || b.contains(x),
{
    let s = a + b;
    if a.contains(x) {
        let i = choose|i: int| 0 <= i < a.len() && a[i] == x;
        assert(s[i] == x);
    }
    if b.contains(x) {
        let i = choose|i: int| 0 <= i < b.len() && b[i] == x;
        assert(s[a.len() + i] == x);
    }
    if s.contains(x) {
        let i = choose|i: int| 0 <= i < s.len() && s[i] == x;
        if i < a.len() {
            assert(a[i] == x);
        } else {
            assert(b[i - a.len()] == x);
        }
    }
}

proof fn lemma_record_triples(
    r: RecordView,
    i: int,
    n: usize,
    k: Seq<char>,
    v: Seq<char>,
    u: Seq<char>,
    expand: bool,
)
    requires
        0 <= i <= keys_of(r.fields).len(),
        record_triples(r, i, n, expand) is Ok,
    ensures
        (record_triples(r, i, n, expand)->Ok_0).contains((k, v, u)) <==> u == r.uuid && keys_of(
            r.fields,
        ).skip(i).contains(k) && parts_of(r.fields[k], expand).contains(v),
    decreases keys_of(r.fields).len() - i,
{
    let ks = keys_of(r.fields);
    if i < ks.len() {
        lemma_record_triples(r, i + 1, n, k, v, u, expand);
        let rest = record_triples(r, i + 1, n, expand)->Ok_0;
        let vs = parts_of(r.fields[ks[i]], expand);
        let here = triples_of(ks[i], vs, r.uuid);
        assert(record_triples(r, i, n, expand)->Ok_0 == here + rest);
        lemma_concat_contains(here, rest, (k, v, u));
        assert(here.contains((k, v, u)) <==> k == ks[i] && u == r.uuid && vs.contains(v)) by {
            if here.contains((k, v, u)) {
                let j = choose|j: int| 0 <= j < here.len() && here[j] == (k, v, u);
                assert(vs[j] == v);
            }
            if k == ks[i] && u == r.uuid && vs.contains(v) {
                let j = choose|j: int| 0 <= j < vs.len() && vs[j] == v;
                assert(here[j] == (k, v, u));
            }
        }
        assert(ks.skip(i) == seq![ks[i]] + ks.skip(i + 1));
        lemma_concat_contains(seq![ks[i]], ks.skip(i + 1), k);
        assert(seq![ks[i]].contains(k) <==> seq![ks[i]][0] == k);
    } else {
        assert(ks.skip(i) == Seq::<Seq<char>>::empty());
    }
}

proof fn lemma_triples(
    ls: Seq<Seq<char>>,
    i: int,
    k: Seq<char>,
    v: Seq<char>,
    u: Seq<char>,
    expand: bool,
)
    requires
        0 <= i <= ls.len(),
        triples_from(ls, i, expand) is Ok,
    ensures
        (triples_from(ls, i, expand)->Ok_0).contains((k, v, u)) <==> exists|j: int|
            i <= j < ls.len() && triple_at(ls, j, k, v, u, expand),
    decreases ls.len() - i,
{
    if i < ls.len() {
        let ts = triples_from(ls, i, expand)->Ok_0;
        lemma_triples_rest(ls, i, expand);
        lemma_triples(ls, i + 1, k, v, u, expand);
        let rest = triples_from(ls, i + 1, expand)->Ok_0;
        if ls[i].len() > 0 {
            let n = (i + 1) as usize;
            let r = record_of(ls[i], n)->Ok_0;
            let ks = keys_of(r.fields);
            lemma_record_of_uuid(ls[i], n);
            lemma_listed_finite(r.fields.dom());
            lemma_record_triples(r, 0, n, k, v, u, expand);
            let here = record_triples(r, 0, n, expand)->Ok_0;
            assert(ks.skip(0) == ks);
            assert(ks.contains(k) <==> ks.to_set().contains(k));
            assert(here.contains((k, v, u)) <==> triple_at(ls, i, k, v, u, expand));
            lemma_concat_contains(here, rest, (k, v, u));
            assert(ts == here + rest);
        } else {
            assert(!triple_at(ls, i, k, v, u, expand));
        }
        if exists|j: int| i <= j < ls.len() && triple_at(ls, j, k, v, u, expand) {
            let j = choose|j: int| i <= j < ls.len() && triple_at(ls, j, k, v, u, expand);
            if j > i {
                assert(i + 1 <= j < ls.len() && triple_at(ls, j, k, v, u, expand));
            }
        }
        if exists|j: int| i + 1 <= j < ls.len() && triple_at(ls, j, k, v, u, expand) {
            let j = choose|j: int| i + 1 <= j < ls.len() && triple_at(ls, j, k, v, u, expand);
            assert(i <= j < ls.len() && triple_at(ls, j, k, v, u, expand));
        }
    }
}

proof fn lemma_triples_rest(ls: Seq<Seq<char>>, i: int, expand: bool)
    requires
        0 <= i < ls.len(),
        triples_from(ls, i, expand) is Ok,
    ensures
        triples_from(ls, i + 1, expand) is Ok,
{
}

proof fn lemma_triples_ok(ls: Seq<Seq<char>>, i: int)
    requires
        0 <= i <= ls.len(),
        forall|j: int|
            i <= j < ls.len() && (#[trigger] ls[j]).len() > 0 ==> record_of(ls[j], (j + 1) as usize)
                is Ok,
    ensures
        triples_from(ls, i, false) is Ok,
        uuids_from(ls, i) is Ok,
        forall|u: Seq<char>| #[trigger]
            (uuids_from(ls, i)->Ok_0).contains(u) <==> exists|j: int|
                i <= j < ls.len() && uuid_at(ls, j, u),
    decreases ls.len() - i,
{
    if i < ls.len() {
        lemma_triples_ok(ls, i + 1);
        let n = (i + 1) as usize;
        if ls[i].len() > 0 {
            lemma_record_triples_unexpanded(record_of(ls[i], n)->Ok_0, 0, n);
        }
        let us = uuids_from(ls, i)->Ok_0;
        let rest = uuids_from(ls, i + 1)->Ok_0;
        assert forall|u: Seq<char>| #[trigger] us.contains(u) <==> exists|j: int|
            i <= j < ls.len() && uuid_at(ls, j, u) by {
            if ls[i].len() > 0 {
                let one = seq![(record_of(ls[i], n)->Ok_0).uuid];
                assert(us == one + rest);
                lemma_concat_contains(one, rest, u);
                assert(one.contains(u) <==> one[0] == u);
                assert(one.contains(u) <==> uuid_at(ls, i, u));
            } else {
                assert(!uuid_at(ls, i, u));
                assert(us == rest);
            }
            assert(rest.contains(u) <==> exists|j: int| i + 1 <= j < ls.len() && uuid_at(ls, j, u));
            if exists|j: int| i <= j < ls.len() && uuid_at(ls, j, u) {
                let j = choose|j: int| i <= j < ls.len() && uuid_at(ls, j, u);
                if j > i {
                    assert(i + 1 <= j < ls.len() && uuid_at(ls, j, u));
                }
            }
            if exists|j: int| i + 1 <= j < ls.len() && uuid_at(ls, j, u) {
                let j = choose|j: int| i + 1 <= j < ls.len() && uuid_at(ls, j, u);
                assert(i <= j < ls.len() && uuid_at(ls, j, u));
            }
        }
    }
}

/// Whether a database has a record of `u` with the key `k` and a value that stands for `v`.
pub open spec fn has_part(
    d: Map<Seq<char>, Map<Seq<char>, Seq<char>>>,
    k: Seq<char>,
    v: Seq<char>,
    u: Seq<char>,
    expand: bool,
) -> bool {
    d.contains_key(u) && d[u].contains_key(k) && parts_of(d[u][k], expand).contains(v)
}

/// Whether a database has a record of `u` with the key `k` and the value `v`.
pub open spec fn has_triple(
    d: Map<Seq<char>, Map<Seq<char>, Seq<char>>>,
    k: Seq<char>,
    v: Seq<char>,
    u: Seq<char>,
) -> bool {
    d.contains_key(u) && d[u].contains_key(k) && d[u][k] == v
}

/// Law: the triples of a compacted sound database are the keys and values of its records, or, with
/// `expand`, the keys and what their values stand for; the identifiers are those of its records.
/// Left out are databases with a malformed array, if `expand`.
pub proof fn law_triples(f: FileView, expand: bool)
    requires
        sound(f),
        f.pending.len() == 0,
        expand ==> triples_from(f.sorted, 0, true) is Ok,
    ensures
        triples_from(f.sorted, 0, expand) is Ok,
        uuids_from(f.sorted, 0) is Ok,
        (uuids_from(f.sorted, 0)->Ok_0).to_set() == database(f).dom(),
        uuid_triples(triples_from(f.sorted, 0, expand)->Ok_0),
        forall|k: Seq<char>, v: Seq<char>, u: Seq<char>| #[trigger]
            (triples_from(f.sorted, 0, expand)->Ok_0).contains((k, v, u)) <==> has_part(
                database(f),
                k,
                v,
                u,
                expand,
            ),
{
    let ls = f.sorted;
    let m = merge_sorted(ls, 0, MergeView::start())->Ok_0;
    assert(merged(f) == Ok::<MergeView, ErrorView>(m));
    assert forall|j: int| 0 <= j < ls.len() && (#[trigger] ls[j]).len() > 0 implies record_of(
        ls[j],
        (j + 1) as usize,
    ) is Ok && recorded(m, record_of(ls[j], (j + 1) as usize)->Ok_0) by {
        lemma_merge_recorded(ls, 0, MergeView::start(), j);
    }
    assert forall|u: Seq<char>| #[trigger] m.live(u) implies exists|j: int|
        0 <= j < ls.len() && uuid_at(ls, j, u) by {
        lemma_merge_source(ls, 0, MergeView::start(), u);
    }
    lemma_triples_ok(ls, 0);
    let ts = triples_from(ls, 0, expand)->Ok_0;
    let us = uuids_from(ls, 0)->Ok_0;
    assert(us.to_set() =~= database(f).dom()) by {
        assert forall|u: Seq<char>| us.to_set().contains(u) <==> database(f).contains_key(u) by {
            assert(us.contains(u) <==> us.to_set().contains(u));
            if us.contains(u) {
                let j = choose|j: int| 0 <= j < ls.len() && uuid_at(ls, j, u);
                assert(ls[j].len() > 0);
                assert(recorded(m, record_of(ls[j], (j + 1) as usize)->Ok_0));
                assert(m.live(u));
            }
            if database(f).contains_key(u) {
                assert(m.live(u));
            }
        }
    }
    assert forall|k: Seq<char>, v: Seq<char>, u: Seq<char>| #[trigger]
        ts.contains((k, v, u)) <==> has_part(database(f), k, v, u, expand) by {
        lemma_triples(ls, 0, k, v, u, expand);
        if ts.contains((k, v, u)) {
            let j = choose|j: int| 0 <= j < ls.len() && triple_at(ls, j, k, v, u, expand);
            assert(ls[j].len() > 0);
            let r = record_of(ls[j], (j + 1) as usize)->Ok_0;
            assert(recorded(m, r));
            assert(m.live(u));
        }
        if has_part(database(f), k, v, u, expand) {
            assert(m.live(u));
            let j = choose|j: int| 0 <= j < ls.len() && uuid_at(ls, j, u);
            assert(ls[j].len() > 0);
            let r = record_of(ls[j], (j + 1) as usize)->Ok_0;
            assert(recorded(m, r));
            assert(triple_at(ls, j, k, v, u, expand));
        }
    }
    assert forall|i: int| 0 <= i < ts.len() implies is_uuid((#[trigger] ts[i]).2) by {
        let t = ts[i];
        assert(ts.contains((t.0, t.1, t.2)));
        assert(has_part(database(f), t.0, t.1, t.2, expand));
        assert(m.live(t.2));
    }
}

/// Without expansion a value stands for itself alone.
pub proof fn lemma_has_part(
    d: Map<Seq<char>, Map<Seq<char>, Seq<char>>>,
    k: Seq<char>,
    v: Seq<char>,
    u: Seq<char>,
)
    ensures
        has_part(d, k, v, u, false) <==> has_triple(d, k, v, u),
{
    let one = seq![d[u][k]];
    assert(one.contains(v) <==> one[0] == v);
}

/// Whether a record meets a criterion.
pub open spec fn meets(r: Map<Seq<char>, Seq<char>>, c: CriterionView) -> bool {
    match c {
        CriterionView::Token(t) => r.contains_key(t) || exists|k: Seq<char>| #[trigger]
            r.contains_key(k) && r[k] == t,
        CriterionView::KeyValue(k, v) => r.contains_key(k) && r[k] == v,
        CriterionView::Present(k) => r.contains_key(k),
        CriterionView::AbsentKey(k) => !r.contains_key(k),
        CriterionView::AbsentKeyValue(k, v) => !(r.contains_key(k) && r[k] == v),
    }
}

/// Whether a record meets a query: one of its criteria, or all of them. No record meets a query
/// without criteria.
pub open spec fn meets_query(
    r: Map<Seq<char>, Seq<char>>,
    mode: FilterMode,
    cs: Seq<CriterionView>,
) -> bool {
    match mode {
        FilterMode::Union => exists|i: int| 0 <= i < cs.len() && meets(r, #[trigger] cs[i]),
        FilterMode::Intersect => cs.len() > 0 && forall|i: int|
            0 <= i < cs.len() ==> meets(r, #[trigger] cs[i]),
    }
}

/// Whether a criterion asks for a string that does not look like a comment.
pub open spec fn askable(c: CriterionView) -> bool {
    match c {
        CriterionView::Token(t) => !is_comment(t),
        CriterionView::KeyValue(k, v) => !is_comment(k),
        CriterionView::Present(k) => !is_comment(k),
        CriterionView::AbsentKey(k) => !is_comment(k),
        CriterionView::AbsentKeyValue(k, v) => !is_comment(k),
    }
}

pub proof fn lemma_matching(
    d: Map<Seq<char>, Map<Seq<char>, Seq<char>>>,
    ts: Seq<(Seq<char>, Seq<char>, Seq<char>)>,
    c: CriterionView,
    u: Seq<char>,
)
    requires
        forall|k: Seq<char>, v: Seq<char>, w: Seq<char>| #[trigger]
            ts.contains((k, v, w)) <==> has_triple(d, k, v, w),
        askable(c),
    ensures
        matching(
            c,
            visible(relation_of(ts, false)),
            visible(relation_of(ts, true)),
            Some(d.dom()),
        ).contains(u) <==> d.contains_key(u) && meets(d[u], c),
{
    let kv = visible(relation_of(ts, false));
    let vk = visible(relation_of(ts, true));
    assert forall|k: Seq<char>, v: Seq<char>| !is_comment(k) implies (#[trigger] related(kv, k, v, u)
        <==> has_triple(d, k, v, u)) by {
        law_relation_members(ts, k, v, u);
        assert(ts.contains((k, v, u)) <==> has_triple(d, k, v, u));
        assert(row_of(kv, k) == row_of(relation_of(ts, false), k));
    }
    assert forall|k: Seq<char>, v: Seq<char>| !is_comment(v) implies (#[trigger] related(vk, v, k, u)
        <==> has_triple(d, k, v, u)) by {
        law_relation_members(ts, k, v, u);
        assert(ts.contains((k, v, u)) <==> has_triple(d, k, v, u));
        assert(row_of(vk, v) == row_of(relation_of(ts, true), v));
    }
    assert forall|k: Seq<char>| !is_comment(k) implies (#[trigger] in_row(kv, k).contains(u)
        <==> d.contains_key(u) && d[u].contains_key(k)) by {
        if d.contains_key(u) && d[u].contains_key(k) {
            assert(related(kv, k, d[u][k], u));
        }
    }
    assert forall|t: Seq<char>| !is_comment(t) implies (#[trigger] in_row(vk, t).contains(u)
        <==> d.contains_key(u) && exists|k: Seq<char>| #[trigger]
        d[u].contains_key(k) && d[u][k] == t) by {
        if in_row(vk, t).contains(u) {
            let k = choose|k: Seq<char>| #[trigger] related(vk, t, k, u);
            assert(has_triple(d, k, t, u));
            assert(d[u].contains_key(k));
        }
        if d.contains_key(u) && exists|k: Seq<char>| #[trigger] d[u].contains_key(k) && d[u][k] == t {
            let k = choose|k: Seq<char>| #[trigger] d[u].contains_key(k) && d[u][k] == t;
            assert(related(vk, t, k, u));
        }
    }
    match c {
        CriterionView::KeyValue(k, v) => {
            assert(related(kv, k, v, u) <==> has_triple(d, k, v, u));
        },
        CriterionView::AbsentKeyValue(k, v) => {
            assert(related(kv, k, v, u) <==> has_triple(d, k, v, u));
        },
        _ => {},
    }
}

/// The identifiers that the list of all identifiers says.
pub proof fn lemma_universe(d: Set<Seq<char>>, foot: Seq<char>)
    requires
        d.finite(),
        forall|u: Seq<char>| #[trigger] d.contains(u) ==> is_uuid(u),
        is_comment(foot),
        is_line(foot),
    ensures
        content_lines(lines(index_text(listed(d), foot))) == d,
{
    lemma_listed_finite(d);
    let us = listed(d);
    let ls = us.push(foot);
    assert forall|i: int| 0 <= i < ls.len() implies is_line(#[trigger] ls[i]) by {
        if i < us.len() {
            assert(us.to_set().contains(us[i]));
            lemma_uuid_plain(us[i]);
        }
    }
    law_lines_unlines(ls);
    assert forall|u: Seq<char>| content_lines(ls).contains(u) <==> d.contains(u) by {
        if d.contains(u) {
            lemma_uuid_plain(u);
            assert(us.to_set().contains(u));
            let i = choose|i: int| 0 <= i < us.len() && us[i] == u;
            assert(ls[i] == u);
        }
        if content_lines(ls).contains(u) {
            let i = choose|i: int| 0 <= i < ls.len() && ls[i] == u;
            if i < us.len() {
                assert(us.to_set().contains(us[i]));
            }
        }
    }
    assert(content_lines(ls) =~= d);
}

/// Law: a query on the index files of a compacted database finds exactly the records that meet it.
/// Left out are criteria whose key or word starts with `#`.
pub proof fn law_query_finds_records(
    f: FileView,
    foot: Seq<char>,
    mode: FilterMode,
    cs: Seq<CriterionView>,
    u: Seq<char>,
)
    requires
        sound(f),
        f.pending.len() == 0,
        is_comment(foot),
        is_line(foot),
        forall|i: int| 0 <= i < cs.len() ==> askable(#[trigger] cs[i]),
    ensures
        rtv_texts(f.sorted, foot) matches Ok(t) && (found((mode, cs), t.0, t.1, Some(t.2)).contains(
            u,
        ) <==> database(f).contains_key(u) && meets_query(database(f)[u], mode, cs)),
{
    let d = database(f);
    law_triples(f, false);
    let ts = triples_from(f.sorted, 0, false)->Ok_0;
    assert forall|k: Seq<char>, v: Seq<char>, w: Seq<char>| #[trigger]
        ts.contains((k, v, w)) <==> has_triple(d, k, v, w) by {
        lemma_has_part(d, k, v, w);
    }
    let kv = relation_of(ts, false);
    let vk = relation_of(ts, true);
    law_relation_filled(ts, false);
    law_relation_filled(ts, true);
    law_index_reads_back(kv, foot);
    law_index_reads_back(vk, foot);
    let m = merged(f)->Ok_0;
    let us = uuids_from(f.sorted, 0)->Ok_0;
    assert(d.dom().finite()) by {
        assert(us.to_set().finite());
    }
    assert forall|w: Seq<char>| #[trigger] d.dom().contains(w) implies is_uuid(w) by {
        assert(m.live(w));
    }
    lemma_universe(d.dom(), foot);
    let all = Some(d.dom());
    assert forall|i: int| 0 <= i < cs.len() implies (#[trigger] matching(
        cs[i],
        visible(kv),
        visible(vk),
        all,
    ).contains(u) <==> d.contains_key(u) && meets(d[u], cs[i])) by {
        assert(askable(cs[i]));
        lemma_matching(d, ts, cs[i], u);
    }
    if mode == FilterMode::Intersect && cs.len() > 0 {
        assert(matching(cs[0], visible(kv), visible(vk), all).contains(u) <==> d.contains_key(u)
            && meets(d[u], cs[0]));
    }
    if d.contains_key(u) && meets_query(d[u], mode, cs) {
        if mode == FilterMode::Union {
            let i = choose|i: int| 0 <= i < cs.len() && meets(d[u], #[trigger] cs[i]);
            assert(matching(cs[i], visible(kv), visible(vk), all).contains(u));
        }
    }
    if query_result(mode, cs, visible(kv), visible(vk), all).contains(u) {
        if mode == FilterMode::Union {
            let i = choose|i: int|
                0 <= i < cs.len() && (#[trigger] matching(
                    cs[i],
                    visible(kv),
                    visible(vk),
                    all,
                )).contains(u);
            assert(meets(d[u], cs[i]));
        } else {
            assert forall|i: int| 0 <= i < cs.len() implies meets(d[u], #[trigger] cs[i]) by {
                assert(matching(cs[i], visible(kv), visible(vk), all).contains(u));
            }
        }
    }
}

/// Whether a line says the record of `u`.
pub open spec fn says_record(f: FileView, u: Seq<char>, line: Seq<char>) -> bool {
    exists|n: usize| #[trigger] record_of(line, n) == Ok::<RecordView, ErrorView>(
        RecordView { uuid: u, fields: database(f)[u] },
    )
}

proof fn lemma_empty_part()
    ensures
        uuid_part(Seq::<char>::empty()).len() == 0,
{
    let e = Seq::<char>::empty();
    assert(encode_utf8(e).len() == 0);
    encode_utf8_valid_utf8(e);
    is_char_boundary_start_end_of_seq(encode_utf8(e));
    assert(cut(e, 0) == 0);
    assert(encode_utf8(e).subrange(0, 0) == Seq::<u8>::empty());
    assert(byte_prefix(e, 0) == Seq::<char>::empty());
}

/// Law: of a compacted sound database, a record is found at the place of its identifier.
pub proof fn law_record_found(f: FileView, u: Seq<char>)
    requires
        sound(f),
        f.pending.len() == 0,
        database(f).contains_key(u),
    ensures
        sorted_place(f, u) matches Ok(k) && 0 <= k < f.sorted.len() && says_record(f, u, f.sorted[k]),
{
    let ls = f.sorted;
    let us = uuid_parts(ls);
    let m = merge_sorted(ls, 0, MergeView::start())->Ok_0;
    assert(merged(f) == Ok::<MergeView, ErrorView>(m));
    assert(m.live(u));
    lemma_uuid_plain(u);
    lemma_merge_source(ls, 0, MergeView::start(), u);
    let j = choose|j: int| 0 <= j < ls.len() && uuid_at(ls, j, u);
    lemma_record_of_uuid(ls[j], (j + 1) as usize);
    assert(us[j] == u);
    law_binary_search(us, u);
    assert(us.contains(u));
    let k = sorted_place(f, u)->Ok_0;
    assert(us[k] == u);
    assert(ls[k].len() > 0) by {
        if ls[k].len() == 0 {
            assert(ls[k] == Seq::<char>::empty());
            lemma_empty_part();
        }
    }
    lemma_merge_recorded(ls, 0, MergeView::start(), k);
    let n = (k + 1) as usize;
    lemma_record_of_uuid(ls[k], n);
    let r = record_of(ls[k], n)->Ok_0;
    assert(recorded(m, r));
    assert(r.uuid == u);
    assert(r.fields == database(f)[u]);
    assert(record_of(ls[k], n) == Ok::<RecordView, ErrorView>(
        RecordView { uuid: u, fields: database(f)[u] },
    ));
}

proof fn lemma_lines_of_uuids(f: FileView, us: Seq<Seq<char>>, i: int)
    requires
        sound(f),
        f.pending.len() == 0,
        0 <= i <= us.len(),
        forall|k: int| 0 <= k < us.len() ==> database(f).contains_key(#[trigger] us[k]),
    ensures
        lines_of_uuids(f, us, i) matches Ok(ls) && ls.len() == us.len() - i && forall|k: int|
            0 <= k < ls.len() ==> says_record(f, us[i + k], #[trigger] ls[k]),
    decreases us.len() - i,
{
    if i < us.len() {
        lemma_lines_of_uuids(f, us, i + 1);
        law_record_found(f, us[i]);
        let rest = lines_of_uuids(f, us, i + 1)->Ok_0;
        let ls = lines_of_uuids(f, us, i)->Ok_0;
        assert forall|k: int| 0 <= k < ls.len() implies says_record(f, us[i + k], #[trigger] ls[k]) by {
            if k > 0 {
                assert(ls[k] == rest[k - 1]);
                assert(us[i + k] == us[i + 1 + (k - 1)]);
            }
        }
    }
}

/// Law: the records of identifiers that a compacted database holds are shown, each by its line, in
/// increasing order of the identifiers.
pub proof fn law_shown_records(f: FileView, us: Seq<Seq<char>>)
    requires
        sound(f),
        f.pending.len() == 0,
        forall|k: int| 0 <= k < us.len() ==> database(f).contains_key(#[trigger] us[k]),
    ensures
        shown_lines(f, us) matches Ok(ls) && ls.len() == in_order(us).len() && forall|k: int|
            0 <= k < ls.len() ==> says_record(f, in_order(us)[k], #[trigger] ls[k]),
{
    let all = in_order(us);
    assert forall|k: int| 0 <= k < all.len() implies database(f).contains_key(#[trigger] all[k]) by {
        lemma_in_order_members(us, k);
    }
    lemma_lines_of_uuids(f, all, 0);
}

} // verus!
