//! The relation between keys, values and identifiers that the index files hold.
use crate::action::parse_err;
use crate::dotsv::{push_lines, unlines, DotsvFile};
use crate::error::{debug_of, debug_text, parse_error, ErrorView, Result};
use crate::escape::{array_of, decode_array, escape, escaped, is_array, is_array_value};
use crate::fields::{keys_of, StringMap};
use crate::record::{record_of, Record, RecordView};
use crate::sorted::{listed, ordered, StringSet};
use crate::text::{cat3, cat4, cat5, copy_of, join, join_with, views};
use vstd::prelude::*;

verus! {

/// A key, a value, and the identifier of a record that has them.
pub struct Triple {
    pub key: String,
    pub value: String,
    pub uuid: String,
}

impl View for Triple {
    type V = (Seq<char>, Seq<char>, Seq<char>);

    open spec fn view(&self) -> (Seq<char>, Seq<char>, Seq<char>) {
        (self.key@, self.value@, self.uuid@)
    }
}

/// The contents of a sequence of triples.
pub open spec fn triple_views(v: Seq<Triple>) -> Seq<(Seq<char>, Seq<char>, Seq<char>)> {
    Seq::new(v.len(), |i: int| v[i]@)
}

/// What a value counts as: with `expand` each element of an array, else the value itself.
pub open spec fn value_parts(k: Seq<char>, v: Seq<char>, n: usize, expand: bool) -> core::result::Result<
    Seq<Seq<char>>,
    ErrorView,
> {
    if expand && is_array(v) {
        match array_of(v) {
            Ok(es) => Ok(es),
            Err(e) => parse_err(
                n,
                "array value for key "@ + debug_text(k) + ": "@ + e.text(),
            ),
        }
    } else {
        Ok(seq![v])
    }
}

/// One triple for each of the values.
pub open spec fn triples_of(k: Seq<char>, vs: Seq<Seq<char>>, u: Seq<char>) -> Seq<
    (Seq<char>, Seq<char>, Seq<char>),
> {
    Seq::new(vs.len(), |j: int| (k, vs[j], u))
}

/// The triples of a record from place `i` of the order of its keys on.
pub open spec fn record_triples(r: RecordView, i: int, n: usize, expand: bool) -> core::result::Result<
    Seq<(Seq<char>, Seq<char>, Seq<char>)>,
    ErrorView,
>
    decreases keys_of(r.fields).len() - i,
{
    let ks = keys_of(r.fields);
    if i >= ks.len() {
        Ok(Seq::empty())
    } else {
        match value_parts(ks[i], r.fields[ks[i]], n, expand) {
            Err(e) => Err(e),
            Ok(vs) => match record_triples(r, i + 1, n, expand) {
                Err(e) => Err(e),
                Ok(rest) => Ok(triples_of(ks[i], vs, r.uuid) + rest),
            },
        }
    }
}

/// The triples of the sorted lines from `i` on.
pub open spec fn triples_from(ls: Seq<Seq<char>>, i: int, expand: bool) -> core::result::Result<
    Seq<(Seq<char>, Seq<char>, Seq<char>)>,
    ErrorView,
>
    decreases ls.len() - i,
{
    let n = (i + 1) as usize;
    if i >= ls.len() {
        Ok(Seq::empty())
    } else if ls[i].len() == 0 {
        triples_from(ls, i + 1, expand)
    } else {
        match record_of(ls[i], n) {
            Err(e) => Err(e),
            Ok(r) => match record_triples(r, 0, n, expand) {
                Err(e) => Err(e),
                Ok(ts) => match triples_from(ls, i + 1, expand) {
                    Err(e) => Err(e),
                    Ok(rest) => Ok(ts + rest),
                },
            },
        }
    }
}

pub proof fn lemma_record_triples_unexpanded(r: RecordView, i: int, n: usize)
    ensures
        record_triples(r, i, n, false) is Ok,
    decreases keys_of(r.fields).len() - i,
{
    if i < keys_of(r.fields).len() {
        lemma_record_triples_unexpanded(r, i + 1, n);
    }
}

/// Lines whose expanded triples can be listed have triples and identifiers.
pub proof fn lemma_triples_unexpanded(ls: Seq<Seq<char>>, i: int)
    requires
        triples_from(ls, i, true) is Ok,
    ensures
        triples_from(ls, i, false) is Ok,
    decreases ls.len() - i,
{
    if i < ls.len() {
        lemma_triples_unexpanded(ls, i + 1);
        if ls[i].len() > 0 {
            let n = (i + 1) as usize;
            lemma_record_triples_unexpanded(record_of(ls[i], n)->Ok_0, 0, n);
        }
    }
}

/// The identifiers of the sorted lines from `i` on.
pub open spec fn uuids_from(ls: Seq<Seq<char>>, i: int) -> core::result::Result<
    Seq<Seq<char>>,
    ErrorView,
>
    decreases ls.len() - i,
{
    if i >= ls.len() {
        Ok(Seq::empty())
    } else if ls[i].len() == 0 {
        uuids_from(ls, i + 1)
    } else {
        match record_of(ls[i], (i + 1) as usize) {
            Err(e) => Err(e),
            Ok(r) => match uuids_from(ls, i + 1) {
                Err(e) => Err(e),
                Ok(rest) => Ok(seq![r.uuid] + rest),
            },
        }
    }
}

/// For each first string and each second one the set of third ones.
pub type Relation = Map<Seq<char>, Map<Seq<char>, Set<Seq<char>>>>;

/// The second and third strings that belong to `a`.
pub open spec fn row_of(m: Relation, a: Seq<char>) -> Map<Seq<char>, Set<Seq<char>>> {
    if m.contains_key(a) {
        m[a]
    } else {
        Map::empty()
    }
}

/// The third strings that belong to `b`.
pub open spec fn cell_of(m: Map<Seq<char>, Set<Seq<char>>>, b: Seq<char>) -> Set<Seq<char>> {
    if m.contains_key(b) {
        m[b]
    } else {
        Set::empty()
    }
}

/// Whether the relation holds for three strings.
pub open spec fn related(m: Relation, a: Seq<char>, b: Seq<char>, c: Seq<char>) -> bool {
    cell_of(row_of(m, a), b).contains(c)
}

/// The relation with three more strings.
pub open spec fn with_triple(m: Relation, a: Seq<char>, b: Seq<char>, c: Seq<char>) -> Relation {
    m.insert(a, row_of(m, a).insert(b, cell_of(row_of(m, a), b).insert(c)))
}

/// The relation of triples: keys first, or, if `swapped`, values first.
pub open spec fn relation_of(ts: Seq<(Seq<char>, Seq<char>, Seq<char>)>, swapped: bool) -> Relation
    decreases ts.len(),
{
    if ts.len() == 0 {
        Map::empty()
    } else {
        let t = ts.last();
        let m = relation_of(ts.drop_last(), swapped);
        if swapped {
            with_triple(m, t.1, t.0, t.2)
        } else {
            with_triple(m, t.0, t.1, t.2)
        }
    }
}

/// Law: the relation of triples holds for exactly the strings of a triple, in either order of
/// keys and values.
pub proof fn law_relation_members(
    ts: Seq<(Seq<char>, Seq<char>, Seq<char>)>,
    k: Seq<char>,
    v: Seq<char>,
    u: Seq<char>,
)
    ensures
        related(relation_of(ts, false), k, v, u) <==> ts.contains((k, v, u)),
        related(relation_of(ts, true), v, k, u) <==> ts.contains((k, v, u)),
    decreases ts.len(),
{
    if ts.len() > 0 {
        let d = ts.drop_last();
        law_relation_members(d, k, v, u);
        if ts.contains((k, v, u)) {
            let i = choose|i: int| 0 <= i < ts.len() && ts[i] == (k, v, u);
            if i < d.len() {
                assert(d[i] == (k, v, u));
            }
        }
        if d.contains((k, v, u)) {
            let i = choose|i: int| 0 <= i < d.len() && d[i] == (k, v, u);
            assert(ts[i] == (k, v, u));
        }
        assert(ts[ts.len() - 1] == ts.last());
    }
}

/// The first `n` lines that list, for `a`, each second string with its third ones in one line.
pub open spec fn grouped_row(a: Seq<char>, m: Map<Seq<char>, Set<Seq<char>>>, n: int) -> Seq<
    Seq<char>,
>
    decreases n,
{
    if n <= 0 {
        Seq::empty()
    } else {
        let b = keys_of(m)[n - 1];
        grouped_row(a, m, n - 1).push(
            escaped(a) + "\t"@ + escaped(b) + "\t"@ + join(listed(m[b]), ","@),
        )
    }
}

/// The lines of the first `n` first strings, with one line for each two strings.
pub open spec fn grouped_rows(m: Relation, n: int) -> Seq<Seq<char>>
    decreases n,
{
    if n <= 0 {
        Seq::empty()
    } else {
        let a = keys_of(m)[n - 1];
        grouped_rows(m, n - 1) + grouped_row(a, m[a], keys_of(m[a]).len() as int)
    }
}

/// The lines of an index with one line for each two strings.
pub open spec fn grouped_lines(m: Relation) -> Seq<Seq<char>> {
    grouped_rows(m, keys_of(m).len() as int)
}

/// The first `n` lines that say `head` and one of the strings of `us`.
pub open spec fn flat_cell(head: Seq<char>, us: Seq<Seq<char>>, n: int) -> Seq<Seq<char>>
    decreases n,
{
    if n <= 0 {
        Seq::empty()
    } else {
        flat_cell(head, us, n - 1).push(head + us[n - 1])
    }
}

/// The lines of the first `n` second strings, one line for each third string.
pub open spec fn flat_row(head: Seq<char>, m: Map<Seq<char>, Set<Seq<char>>>, n: int) -> Seq<Seq<char>>
    decreases n,
{
    if n <= 0 {
        Seq::empty()
    } else {
        let b = keys_of(m)[n - 1];
        let us = listed(m[b]);
        flat_row(head, m, n - 1) + flat_cell(head + escaped(b) + "\t"@, us, us.len() as int)
    }
}

/// The lines of the first `n` first strings, one line for each three strings; each line starts
/// with `head`.
pub open spec fn flat_rows(head: Seq<char>, m: Relation, n: int) -> Seq<Seq<char>>
    decreases n,
{
    if n <= 0 {
        Seq::empty()
    } else {
        let a = keys_of(m)[n - 1];
        flat_rows(head, m, n - 1) + flat_row(
            head + escaped(a) + "\t"@,
            m[a],
            keys_of(m[a]).len() as int,
        )
    }
}

/// The lines of an index with one line for each three strings; each line starts with `head`.
pub open spec fn flat_lines(head: Seq<char>, m: Relation) -> Seq<Seq<char>> {
    flat_rows(head, m, keys_of(m).len() as int)
}

/// The text of an index file: its lines and the last line of the database file.
pub open spec fn index_text(rows: Seq<Seq<char>>, dov_ts: Seq<char>) -> Seq<char> {
    unlines(rows.push(dov_ts))
}

/// Append a string to a vector.
pub(crate) fn push_string(v: &mut Vec<String>, s: String)
    ensures
        views(final(v)@) == views(old(v)@).push(s@),
{
    let ghost before = views(v@);
    let ghost t = s@;
    v.push(s);
    assert(views(v@) == before.push(t));
}

/// The text of an index file.
pub(crate) fn write_index(rows: Vec<String>, dov_ts: &str) -> (r: String)
    ensures
        r@ == index_text(views(rows@), dov_ts@),
{
    let mut rows = rows;
    push_string(&mut rows, copy_of(dov_ts));
    let mut out = String::new();
    push_lines(&mut out, &rows);
    assert(out@ == unlines(views(rows@)));
    out
}

/// What a value counts as.
fn parts_of_value(k: &str, v: &str, n: usize, expand: bool) -> (r: Result<Vec<String>>)
    ensures
        match r {
            Ok(p) => value_parts(k@, v@, n, expand) == Ok::<Seq<Seq<char>>, ErrorView>(views(p@)),
            Err(e) => value_parts(k@, v@, n, expand) == Err::<Seq<Seq<char>>, ErrorView>(e@),
        },
{
    if expand && is_array_value(v) {
        match decode_array(v) {
            Ok(es) => Ok(es),
            Err(e) => Err(
                parse_error(
                    n,
                    cat4(
                        "array value for key ",
                        debug_of(k).as_str(),
                        ": ",
                        e.message().as_str(),
                    ),
                ),
            ),
        }
    } else {
        let mut one: Vec<String> = Vec::new();
        one.push(copy_of(v));
        assert(views(one@) == seq![v@]);
        Ok(one)
    }
}

/// Append one triple for each of the values.
fn push_triples(out: &mut Vec<Triple>, k: &str, vs: &Vec<String>, u: &str)
    ensures
        triple_views(final(out)@) == triple_views(old(out)@) + triples_of(k@, views(vs@), u@),
{
    let ghost all = triples_of(k@, views(vs@), u@);
    let ghost before = triple_views(out@);
    let mut i: usize = 0;
    assert(before + all.take(0) == before);
    while i < vs.len()
        invariant
            i <= vs@.len(),
            all == triples_of(k@, views(vs@), u@),
            triple_views(out@) == before + all.take(i as int),
        decreases vs@.len() - i,
    {
        let ghost now = triple_views(out@);
        let t = Triple { key: copy_of(k), value: copy_of(vs[i].as_str()), uuid: copy_of(u) };
        assert(t@ == all[i as int]);
        out.push(t);
        assert(triple_views(out@) == now.push(all[i as int]));
        assert(before + all.take(i + 1) == now.push(all[i as int]));
        i += 1;
    }
    assert(all.take(all.len() as int) == all);
}

/// Append the triples of a record.
fn push_record_triples(out: &mut Vec<Triple>, r: &Record, n: usize, expand: bool) -> (res: Result<()>)
    ensures
        match res {
            Ok(_) => record_triples(r@, 0, n, expand) matches Ok(ts) && triple_views(final(out)@)
                == triple_views(old(out)@) + ts,
            Err(e) => record_triples(r@, 0, n, expand) == Err::<
                Seq<(Seq<char>, Seq<char>, Seq<char>)>,
                ErrorView,
            >(e@),
        },
{
    let count: usize = r.fields.len();
    let ghost ks = keys_of(r.fields@);
    let ghost before = triple_views(out@);
    let ghost mut done = Seq::<(Seq<char>, Seq<char>, Seq<char>)>::empty();
    let mut i: usize = 0;
    proof {
        assert(before + done == before);
        match record_triples(r@, 0, n, expand) {
            Ok(ts) => assert(done + ts == ts),
            Err(e) => {},
        }
    }
    while i < count
        invariant
            i <= count == ks.len(),
            ks == keys_of(r.fields@),
            triple_views(out@) == before + done,
            record_triples(r@, 0, n, expand) == (match record_triples(r@, i as int, n, expand) {
                Ok(ts) => Ok::<Seq<(Seq<char>, Seq<char>, Seq<char>)>, ErrorView>(done + ts),
                Err(e) => Err(e),
            }),
        decreases count - i,
    {
        let k: &String = r.fields.key(i);
        let v: &String = r.fields.value(i);
        let vs = match parts_of_value(k.as_str(), v.as_str(), n, expand) {
            Ok(p) => p,
            Err(e) => {
                return Err(e);
            },
        };
        push_triples(out, k.as_str(), &vs, r.uuid.as_str());
        proof {
            let new = triples_of(k@, views(vs@), r.uuid@);
            assert(before + done + new == before + (done + new));
            match record_triples(r@, i + 1, n, expand) {
                Ok(ts) => assert(done + (new + ts) == done + new + ts),
                Err(e) => {},
            }
            done = done + new;
        }
        i += 1;
    }
    assert(done + Seq::<(Seq<char>, Seq<char>, Seq<char>)>::empty() == done);
    Ok(())
}

/// The triples of the sorted section.
pub(crate) fn collect_triples(db: &DotsvFile, expand: bool) -> (r: Result<Vec<Triple>>)
    ensures
        match r {
            Ok(v) => triples_from(db@.sorted, 0, expand) == Ok::<
                Seq<(Seq<char>, Seq<char>, Seq<char>)>,
                ErrorView,
            >(triple_views(v@)),
            Err(e) => triples_from(db@.sorted, 0, expand) == Err::<
                Seq<(Seq<char>, Seq<char>, Seq<char>)>,
                ErrorView,
            >(e@),
        },
{
    let mut out: Vec<Triple> = Vec::new();
    let mut i: usize = 0;
    let ghost ls = db@.sorted;
    proof {
        match triples_from(ls, 0, expand) {
            Ok(ts) => assert(triple_views(out@) + ts == ts),
            Err(e) => {},
        }
    }
    while i < db.sorted.len()
        invariant
            i <= db.sorted@.len(),
            ls == db@.sorted,
            triples_from(ls, 0, expand) == (match triples_from(ls, i as int, expand) {
                Ok(ts) => Ok::<Seq<(Seq<char>, Seq<char>, Seq<char>)>, ErrorView>(
                    triple_views(out@) + ts,
                ),
                Err(e) => Err(e),
            }),
        decreases db.sorted@.len() - i,
    {
        let line: &String = &db.sorted[i];
        assert(ls[i as int] == line@);
        if !line.as_str().is_empty() {
            let rec = match Record::parse(line.as_str(), i + 1) {
                Ok(rec) => rec,
                Err(e) => {
                    return Err(e);
                },
            };
            let ghost before = triple_views(out@);
            match push_record_triples(&mut out, &rec, i + 1, expand) {
                Ok(_) => {},
                Err(e) => {
                    return Err(e);
                },
            }
            proof {
                let new = record_triples(rec@, 0, (i + 1) as usize, expand)->Ok_0;
                match triples_from(ls, i + 1, expand) {
                    Ok(ts) => assert(before + (new + ts) == triple_views(out@) + ts),
                    Err(e) => {},
                }
            }
        }
        i += 1;
    }
    assert(triple_views(out@) + Seq::<(Seq<char>, Seq<char>, Seq<char>)>::empty() == triple_views(
        out@,
    ));
    Ok(out)
}

/// The identifiers of the sorted section, each once and in order.
pub(crate) fn sorted_uuids(db: &DotsvFile) -> (r: Result<StringSet>)
    ensures
        match r {
            Ok(s) => uuids_from(db@.sorted, 0) matches Ok(us) && s@ == us.to_set(),
            Err(e) => uuids_from(db@.sorted, 0) == Err::<Seq<Seq<char>>, ErrorView>(e@),
        },
{
    let mut set = StringSet::new();
    let ghost mut done = Seq::<Seq<char>>::empty();
    let ghost ls = db@.sorted;
    let mut i: usize = 0;
    proof {
        assert(done.to_set() =~= Set::<Seq<char>>::empty());
        match uuids_from(ls, 0) {
            Ok(us) => assert(done + us == us),
            Err(e) => {},
        }
    }
    while i < db.sorted.len()
        invariant
            i <= db.sorted@.len(),
            ls == db@.sorted,
            set@ == done.to_set(),
            uuids_from(ls, 0) == (match uuids_from(ls, i as int) {
                Ok(us) => Ok::<Seq<Seq<char>>, ErrorView>(done + us),
                Err(e) => Err(e),
            }),
        decreases db.sorted@.len() - i,
    {
        let line: &String = &db.sorted[i];
        assert(ls[i as int] == line@);
        if !line.as_str().is_empty() {
            let rec = match Record::parse(line.as_str(), i + 1) {
                Ok(rec) => rec,
                Err(e) => {
                    return Err(e);
                },
            };
            let ghost u = rec.uuid@;
            let _ = set.insert(rec.uuid);
            proof {
                match uuids_from(ls, i + 1) {
                    Ok(us) => assert(done + (seq![u] + us) == done.push(u) + us),
                    Err(e) => {},
                }
                let next = done.push(u);
                crate::sorted::lemma_take_set(next, done.len() as int);
                assert(next.take(done.len() as int) == done);
                assert(next.take((done.len() + 1) as int) == next);
                done = next;
            }
        }
        i += 1;
    }
    assert(done + Seq::<Seq<char>>::empty() == done);
    Ok(set)
}

/// The relation with three more strings.
pub(crate) fn add_triple(m: &mut StringMap<StringMap<StringSet>>, a: &str, b: &str, c: &str)
    ensures
        final(m)@ == with_triple(old(m)@, a@, b@, c@),
{
    let ghost before = m@;
    let mut row = match m.take(a) {
        Some(row) => row,
        None => StringMap::new(),
    };
    assert(row@ == row_of(before, a@));
    let ghost old_row = row@;
    let mut cell = match row.take(b) {
        Some(cell) => cell,
        None => StringSet::new(),
    };
    assert(cell@ == cell_of(old_row, b@));
    let _ = cell.insert(copy_of(c));
    let ghost new_cell = cell@;
    row.insert(copy_of(b), cell);
    assert(row@ =~= old_row.insert(b@, new_cell));
    let ghost new_row = row@;
    m.insert(copy_of(a), row);
    assert(m@ =~= before.insert(a@, new_row));
}

/// The relation of triples.
pub(crate) fn relate_triples(ts: &Vec<Triple>, swapped: bool) -> (r: StringMap<StringMap<StringSet>>)
    ensures
        r@ == relation_of(triple_views(ts@), swapped),
{
    let mut m: StringMap<StringMap<StringSet>> = StringMap::new();
    let ghost all = triple_views(ts@);
    let mut i: usize = 0;
    while i < ts.len()
        invariant
            i <= ts@.len(),
            all == triple_views(ts@),
            m@ == relation_of(all.take(i as int), swapped),
        decreases ts@.len() - i,
    {
        let ghost t = all.take(i + 1);
        assert(t.drop_last() == all.take(i as int));
        assert(t.last() == ts@[i as int]@);
        let x: &Triple = &ts[i];
        if swapped {
            add_triple(&mut m, x.value.as_str(), x.key.as_str(), x.uuid.as_str());
        } else {
            add_triple(&mut m, x.key.as_str(), x.value.as_str(), x.uuid.as_str());
        }
        i += 1;
    }
    assert(all.take(all.len() as int) == all);
    m
}

/// The strings of a set with `sep` between each two.
fn join_set(s: &StringSet, sep: &str) -> (r: String)
    ensures
        r@ == join(listed(s@), sep@),
{
    join_with(&set_to_vec(s), sep)
}

/// The strings of a set in order.
pub(crate) fn set_to_vec(s: &StringSet) -> (r: Vec<String>)
    ensures
        views(r@) == listed(s@),
        ordered(views(r@)),
        views(r@).to_set() == s@,
{
    let n: usize = s.len();
    let mut v: Vec<String> = Vec::new();
    let mut i: usize = 0;
    while i < n
        invariant
            i <= n == listed(s@).len(),
            views(v@) == listed(s@).take(i as int),
        decreases n - i,
    {
        push_string(&mut v, copy_of(s.get(i).as_str()));
        assert(listed(s@).take(i + 1) == listed(s@).take(i as int).push(listed(s@)[i as int]));
        i += 1;
    }
    assert(listed(s@).take(n as int) == listed(s@));
    v
}

/// The lines of an index with one line for each two strings.
pub(crate) fn grouped_index(m: &StringMap<StringMap<StringSet>>) -> (r: Vec<String>)
    ensures
        views(r@) == grouped_lines(m@),
{
    let mut out: Vec<String> = Vec::new();
    let n: usize = m.len();
    let mut i: usize = 0;
    assert(views(out@) == Seq::<Seq<char>>::empty());
    while i < n
        invariant
            i <= n == keys_of(m@).len(),
            views(out@) == grouped_rows(m@, i as int),
        decreases n - i,
    {
        let a: &String = m.key(i);
        let row: &StringMap<StringSet> = m.value(i);
        let head = escape(a.as_str());
        let k: usize = row.len();
        let ghost before = views(out@);
        let mut j: usize = 0;
        assert(before + grouped_row(a@, row@, 0) == before);
        while j < k
            invariant
                j <= k == keys_of(row@).len(),
                head@ == escaped(a@),
                views(out@) == before + grouped_row(a@, row@, j as int),
            decreases k - j,
        {
            let b: &String = row.key(j);
            let cell: &StringSet = row.value(j);
            let line = cat5(
                head.as_str(),
                "\t",
                escape(b.as_str()).as_str(),
                "\t",
                join_set(cell, ",").as_str(),
            );
            let ghost l = line@;
            push_string(&mut out, line);
            assert(before + grouped_row(a@, row@, j as int).push(l) == (before + grouped_row(
                a@,
                row@,
                j as int,
            )).push(l));
            j += 1;
        }
        i += 1;
    }
    out
}

/// Append the lines that say `head` and a string of the set.
fn push_flat_cell(out: &mut Vec<String>, head: &str, cell: &StringSet)
    ensures
        views(final(out)@) == views(old(out)@) + flat_cell(
            head@,
            listed(cell@),
            listed(cell@).len() as int,
        ),
{
    let n: usize = cell.len();
    let ghost us = listed(cell@);
    let ghost before = views(out@);
    let mut i: usize = 0;
    assert(before + flat_cell(head@, us, 0) == before);
    while i < n
        invariant
            i <= n == us.len(),
            us == listed(cell@),
            views(out@) == before + flat_cell(head@, us, i as int),
        decreases n - i,
    {
        let u: &String = cell.get(i);
        push_string(out, crate::text::cat2(head, u.as_str()));
        assert(before + flat_cell(head@, us, i as int).push(head@ + u@) == (before + flat_cell(
            head@,
            us,
            i as int,
        )).push(head@ + u@));
        i += 1;
    }
}

/// Append the lines of an index with one line for each three strings; each starts with `head`.
pub(crate) fn push_flat_index(out: &mut Vec<String>, head: &str, m: &StringMap<StringMap<StringSet>>)
    ensures
        views(final(out)@) == views(old(out)@) + flat_lines(head@, m@),
{
    let n: usize = m.len();
    let ghost start = views(out@);
    let mut i: usize = 0;
    assert(start + flat_rows(head@, m@, 0) == start);
    while i < n
        invariant
            i <= n == keys_of(m@).len(),
            views(out@) == start + flat_rows(head@, m@, i as int),
        decreases n - i,
    {
        let a: &String = m.key(i);
        let row: &StringMap<StringSet> = m.value(i);
        let head_a = cat3(head, escape(a.as_str()).as_str(), "\t");
        let k: usize = row.len();
        let ghost before = views(out@);
        let mut j: usize = 0;
        assert(before + flat_row(head_a@, row@, 0) == before);
        while j < k
            invariant
                j <= k == keys_of(row@).len(),
                views(out@) == before + flat_row(head_a@, row@, j as int),
            decreases k - j,
        {
            let b: &String = row.key(j);
            let cell: &StringSet = row.value(j);
            let head_b = cat3(head_a.as_str(), escape(b.as_str()).as_str(), "\t");
            let ghost now = flat_row(head_a@, row@, j as int);
            push_flat_cell(out, head_b.as_str(), cell);
            assert(before + now + flat_cell(head_b@, listed(cell@), listed(cell@).len() as int)
                == before + (now + flat_cell(
                head_b@,
                listed(cell@),
                listed(cell@).len() as int,
            )));
            j += 1;
        }
        proof {
            let now = flat_rows(head@, m@, i as int);
            let new = flat_row(head_a@, row@, keys_of(row@).len() as int);
            assert(start + now + new == start + (now + new));
        }
        i += 1;
    }
}

} // verus!
