//! Compaction: the pending operations merged into the sorted section.
use crate::action::{parse_err, parse_kv_fields, stored_fields};
use crate::dotsv::{DotsvFile, FileView, PENDING_COMPACT_THRESHOLD};
use crate::error::{debug_of, debug_text, parse_error, ErrorView, Result};
use crate::fields::{Fields, StringMap};
use crate::record::{empty_patch_error, patched, record_line, record_of, Record, RecordView};
use crate::text::{
    byte_len, byte_len_of, byte_prefix, byte_suffix, cat2, chars_of, copy_of, split_bytes, splits_at,
    str_eq, str_less, str_lt, string_of, views,
};
use vstd::prelude::*;

verus! {

/// What is known of an identifier while operations are merged.
pub enum Slot {
    Live(Record),
    Gone,
}

impl View for Slot {
    type V = Option<RecordView>;

    open spec fn view(&self) -> Option<RecordView> {
        match self {
            Slot::Live(r) => Some(r@),
            Slot::Gone => None,
        }
    }
}

/// The state of a merge: what is known of each identifier, and the identifiers in the order in
/// which their records came.
pub struct Merge {
    pub records: StringMap<Slot>,
    pub order: Vec<String>,
}

#[verifier::ext_equal]
pub struct MergeView {
    pub records: Map<Seq<char>, Option<RecordView>>,
    pub order: Seq<Seq<char>>,
}

impl View for Merge {
    type V = MergeView;

    open spec fn view(&self) -> MergeView {
        MergeView { records: self.records@, order: views(self.order@) }
    }
}

impl MergeView {
    /// The state with nothing merged.
    pub open spec fn start() -> MergeView {
        MergeView { records: Map::empty(), order: Seq::empty() }
    }

    /// A record of the sorted section.
    pub open spec fn with_sorted(self, r: RecordView) -> MergeView {
        MergeView { records: self.records.insert(r.uuid, Some(r)), order: self.order.push(r.uuid) }
    }

    /// An inserted record.
    pub open spec fn with_inserted(self, uuid: Seq<char>, r: RecordView) -> MergeView {
        MergeView {
            records: self.records.insert(uuid, Some(r)),
            order: if self.records.contains_key(uuid) {
                self.order
            } else {
                self.order.push(uuid)
            },
        }
    }

    /// A deleted record.
    pub open spec fn with_deleted(self, uuid: Seq<char>) -> MergeView {
        MergeView { records: self.records.insert(uuid, None), order: self.order }
    }

    /// Whether `uuid` has a record.
    pub open spec fn live(self, uuid: Seq<char>) -> bool {
        self.records.contains_key(uuid) && self.records[uuid] is Some
    }

    /// A patched record; a patch for an identifier without a record changes nothing.
    pub open spec fn with_patched(
        self,
        uuid: Seq<char>,
        patch: Map<Seq<char>, Seq<char>>,
    ) -> core::result::Result<MergeView, ErrorView> {
        if !self.live(uuid) {
            Ok(self)
        } else {
            let r = self.records[uuid]->0;
            let fields = patched(r.fields, patch);
            if fields == Map::<Seq<char>, Seq<char>>::empty() {
                Err(empty_patch_error(r.uuid))
            } else {
                Ok(
                    MergeView {
                        records: self.records.insert(uuid, Some(RecordView { uuid: r.uuid, fields })),
                        order: self.order,
                    },
                )
            }
        }
    }
}

/// The state after the sorted lines from `i` on.
pub open spec fn merge_sorted(ls: Seq<Seq<char>>, i: int, m: MergeView) -> core::result::Result<
    MergeView,
    ErrorView,
>
    decreases ls.len() - i,
{
    if i >= ls.len() {
        Ok(m)
    } else if ls[i].len() == 0 {
        merge_sorted(ls, i + 1, m)
    } else {
        match record_of(ls[i], (i + 1) as usize) {
            Err(e) => Err(e),
            Ok(r) => merge_sorted(ls, i + 1, m.with_sorted(r)),
        }
    }
}

/// The patch of a pending line whose text after the identifier is `after`.
pub open spec fn patch_of(after: Seq<char>, n: usize) -> core::result::Result<
    Map<Seq<char>, Seq<char>>,
    ErrorView,
> {
    if after.len() > 0 && after[0] == '\t' {
        stored_fields(after.skip(1), n)
    } else {
        Ok(Map::empty())
    }
}

/// The state after one pending line.
#[verifier::opaque]
pub open spec fn merge_line(m: MergeView, line: Seq<char>, n: usize) -> core::result::Result<
    MergeView,
    ErrorView,
> {
    let rest = line.skip(1);
    if byte_len(rest) < 12 {
        parse_err(n, "pending line too short: "@ + debug_text(line))
    } else if !splits_at(rest, 12) {
        parse_err(n, "pending UUID ends inside a character: "@ + debug_text(line))
    } else {
        let uuid = byte_prefix(rest, 12);
        if line[0] == '+' {
            match record_of(rest, n) {
                Err(e) => Err(e),
                Ok(r) => Ok(m.with_inserted(uuid, r)),
            }
        } else if line[0] == '-' {
            Ok(m.with_deleted(uuid))
        } else if line[0] == '~' {
            match patch_of(byte_suffix(rest, 12), n) {
                Err(e) => Err(e),
                Ok(patch) => m.with_patched(uuid, patch),
            }
        } else {
            parse_err(n, "unknown pending opcode: "@ + debug_text(line))
        }
    }
}

/// The state after the pending lines from `i` on.
pub open spec fn merge_pending(ls: Seq<Seq<char>>, i: int, m: MergeView) -> core::result::Result<
    MergeView,
    ErrorView,
>
    decreases ls.len() - i,
{
    if i >= ls.len() {
        Ok(m)
    } else if ls[i].len() == 0 {
        merge_pending(ls, i + 1, m)
    } else {
        match merge_line(m, ls[i], (i + 1) as usize) {
            Err(e) => Err(e),
            Ok(m2) => merge_pending(ls, i + 1, m2),
        }
    }
}

/// All operations of a file merged.
pub open spec fn merged(f: FileView) -> core::result::Result<MergeView, ErrorView> {
    match merge_sorted(f.sorted, 0, MergeView::start()) {
        Err(e) => Err(e),
        Ok(m) => merge_pending(f.pending, 0, m),
    }
}

/// The identifiers of `s` that have a record.
pub open spec fn live_of(m: MergeView, s: Seq<Seq<char>>) -> Seq<Seq<char>>
    decreases s.len(),
{
    if s.len() == 0 {
        Seq::empty()
    } else if m.live(s.last()) {
        live_of(m, s.drop_last()).push(s.last())
    } else {
        live_of(m, s.drop_last())
    }
}

/// `s` with one string for each run of equal ones.
pub open spec fn deduped(s: Seq<Seq<char>>) -> Seq<Seq<char>>
    decreases s.len(),
{
    if s.len() == 0 {
        Seq::empty()
    } else if s.len() > 1 && s.last() == s[s.len() - 2] {
        deduped(s.drop_last())
    } else {
        deduped(s.drop_last()).push(s.last())
    }
}

/// `x` put behind the strings of `s` that are not after it.
pub open spec fn put_in_order(s: Seq<Seq<char>>, x: Seq<char>) -> Seq<Seq<char>>
    decreases s.len(),
{
    if s.len() > 0 && str_lt(x, s.last()) {
        put_in_order(s.drop_last(), x).push(s.last())
    } else {
        s.push(x)
    }
}

/// The strings of `s` in order.
pub open spec fn in_order(s: Seq<Seq<char>>) -> Seq<Seq<char>>
    decreases s.len(),
{
    if s.len() == 0 {
        Seq::empty()
    } else {
        put_in_order(in_order(s.drop_last()), s.last())
    }
}

/// The identifiers whose records stand in the sorted section after a merge.
pub open spec fn final_uuids(m: MergeView) -> Seq<Seq<char>> {
    in_order(deduped(live_of(m, m.order)))
}

/// The sorted section after a merge.
pub open spec fn final_lines(m: MergeView) -> Seq<Seq<char>> {
    let us = final_uuids(m);
    Seq::new(
        us.len(),
        |i: int| record_line((m.records[us[i]]->0).uuid, (m.records[us[i]]->0).fields),
    )
}

/// The compacted file.
pub open spec fn compacted(f: FileView) -> core::result::Result<FileView, ErrorView> {
    match merged(f) {
        Err(e) => Err(e),
        Ok(m) => Ok(FileView { sorted: final_lines(m), pending: Seq::empty() }),
    }
}

impl Merge {
    fn new() -> (r: Self)
        ensures
            r@ == MergeView::start(),
    {
        let order: Vec<String> = Vec::new();
        assert(views(order@) == Seq::<Seq<char>>::empty());
        Merge { records: StringMap::new(), order }
    }

    fn is_live(&self, uuid: &str) -> (r: bool)
        ensures
            r == self@.live(uuid@),
    {
        match self.records.get(uuid) {
            Some(Slot::Live(_)) => true,
            _ => false,
        }
    }

    /// A copy of the record of `uuid`, if it has one.
    pub(crate) fn record(&self, uuid: &str) -> (r: Option<Record>)
        ensures
            match r {
                Some(rec) => self@.live(uuid@) && self@.records[uuid@] == Some(rec@),
                None => !self@.live(uuid@),
            },
    {
        match self.records.get(uuid) {
            Some(Slot::Live(rec)) => Some(rec.clone()),
            _ => None,
        }
    }

    /// Merge one pending line.
    fn apply_line(&mut self, line: &str, n: usize) -> (r: Result<()>)
        requires
            line@.len() > 0,
        ensures
            match r {
                Ok(_) => merge_line(old(self)@, line@, n) == Ok::<MergeView, ErrorView>(
                    final(self)@,
                ),
                Err(e) => merge_line(old(self)@, line@, n) == Err::<MergeView, ErrorView>(e@),
            },
    {
        reveal(merge_line);
        let v = chars_of(line);
        let op = v[0];
        let rest = string_of(&v, 1, v.len());
        assert(rest@ == line@.skip(1));
        if byte_len_of(rest.as_str()) < 12 {
            return Err(
                parse_error(n, cat2("pending line too short: ", debug_of(line).as_str())),
            );
        }
        let (uuid, after) = match split_bytes(rest.as_str(), 12) {
            Some(p) => p,
            None => {
                return Err(
                    parse_error(
                        n,
                        cat2("pending UUID ends inside a character: ", debug_of(line).as_str()),
                    ),
                );
            },
        };
        if op == '+' {
            let rec = match Record::parse(rest.as_str(), n) {
                Ok(rec) => rec,
                Err(e) => {
                    return Err(e);
                },
            };
            let ghost before = self@.order;
            if !self.records.contains_key(uuid) {
                self.order.push(copy_of(uuid));
                assert(self@.order == before.push(uuid@));
            }
            self.records.insert(copy_of(uuid), Slot::Live(rec));
            Ok(())
        } else if op == '-' {
            self.records.insert(copy_of(uuid), Slot::Gone);
            Ok(())
        } else if op == '~' {
            let tail = chars_of(after);
            let patch = if tail.len() > 0 && tail[0] == '\t' {
                let kv = string_of(&tail, 1, tail.len());
                assert(kv@ == after@.skip(1));
                match parse_kv_fields(kv.as_str(), n) {
                    Ok(p) => p,
                    Err(e) => {
                        return Err(e);
                    },
                }
            } else {
                Fields::new()
            };
            if !self.is_live(uuid) {
                return Ok(());
            }
            let ghost before = self@;
            match self.records.take(uuid) {
                Some(Slot::Live(mut rec)) => {
                    match rec.apply_patch(&patch) {
                        Ok(_) => {},
                        Err(e) => {
                            return Err(e);
                        },
                    }
                    self.records.insert(copy_of(uuid), Slot::Live(rec));
                    assert(self@.records =~= before.records.insert(uuid@, Some(rec@)));
                },
                _ => {},
            }
            Ok(())
        } else {
            Err(parse_error(n, cat2("unknown pending opcode: ", debug_of(line).as_str())))
        }
    }

    /// The identifiers that have a record, in the order of `order`, without neighbours that
    /// repeat.
    fn live_uuids(&self) -> (r: Vec<String>)
        ensures
            views(r@) == deduped(live_of(self@, self@.order)),
    {
        let mut r: Vec<String> = Vec::new();
        let ghost mut kept = Seq::<Seq<char>>::empty();
        let mut i: usize = 0;
        assert(views(r@) == Seq::<Seq<char>>::empty());
        while i < self.order.len()
            invariant
                i <= self.order@.len(),
                kept == live_of(self@, self@.order.take(i as int)),
                views(r@) == deduped(kept),
                r@.len() > 0 <==> kept.len() > 0,
                kept.len() > 0 ==> r@.last()@ == kept.last(),
            decreases self.order@.len() - i,
        {
            let u: &String = &self.order[i];
            let ghost t = self@.order.take(i + 1);
            assert(t.drop_last() == self@.order.take(i as int));
            assert(t.last() == u@);
            if self.is_live(u.as_str()) {
                let ghost next = kept.push(u@);
                assert(next.drop_last() == kept);
                let n: usize = r.len();
                if n > 0 && str_eq(r[n - 1].as_str(), u.as_str()) {
                    assert(next[next.len() - 2] == kept.last());
                    assert(deduped(next) == deduped(kept));
                } else {
                    let ghost before = views(r@);
                    r.push(copy_of(u.as_str()));
                    assert(views(r@) == before.push(u@));
                    assert(kept.len() > 0 ==> next[next.len() - 2] == kept.last());
                    assert(deduped(next) == deduped(kept).push(u@));
                }
                proof {
                    kept = next;
                }
            }
            i += 1;
        }
        assert(self@.order.take(self.order@.len() as int) == self@.order);
        r
    }
}

/// Put a string behind those that are not after it.
fn insert_in_order(v: &mut Vec<String>, x: String)
    ensures
        views(final(v)@) == put_in_order(views(old(v)@), x@),
{
    let mut n: usize = v.len();
    let ghost s = views(v@);
    assert(s.take(n as int) == s);
    assert(s.skip(n as int) == Seq::<Seq<char>>::empty());
    assert(put_in_order(s, x@) + Seq::<Seq<char>>::empty() == put_in_order(s, x@));
    while n > 0 && str_less(x.as_str(), v[n - 1].as_str())
        invariant
            n <= v@.len(),
            s == views(v@),
            v@ == old(v)@,
            put_in_order(s, x@) == put_in_order(s.take(n as int), x@) + s.skip(n as int),
        decreases n,
    {
        let ghost t = s.take(n as int);
        assert(t.last() == v@[n - 1]@);
        assert(t.drop_last() == s.take(n - 1));
        assert(put_in_order(t, x@) == put_in_order(s.take(n - 1), x@).push(s[n - 1]));
        assert(put_in_order(s.take(n - 1), x@).push(s[n - 1]) + s.skip(n as int) == put_in_order(
            s.take(n - 1),
            x@,
        ) + s.skip(n - 1));
        n -= 1;
    }
    let ghost key = x@;
    proof {
        let t = s.take(n as int);
        if n > 0 {
            assert(t.last() == v@[n - 1]@);
        }
        assert(put_in_order(t, key) == t.push(key));
    }
    v.insert(n, x);
    assert(views(v@) == s.insert(n as int, key));
    assert(s.insert(n as int, key) == s.take(n as int).push(key) + s.skip(n as int));
}

/// Sort strings.
pub(crate) fn sort_strings(v: &Vec<String>) -> (r: Vec<String>)
    ensures
        views(r@) == in_order(views(v@)),
{
    let mut r: Vec<String> = Vec::new();
    let mut i: usize = 0;
    assert(views(r@) == Seq::<Seq<char>>::empty());
    while i < v.len()
        invariant
            i <= v@.len(),
            views(r@) == in_order(views(v@).take(i as int)),
        decreases v@.len() - i,
    {
        let ghost t = views(v@).take(i + 1);
        assert(t.drop_last() == views(v@).take(i as int));
        assert(t.last() == v@[i as int]@);
        insert_in_order(&mut r, copy_of(v[i].as_str()));
        i += 1;
    }
    assert(views(v@).take(v@.len() as int) == views(v@));
    r
}

proof fn lemma_put_in_order_members(s: Seq<Seq<char>>, x: Seq<char>, i: int)
    requires
        0 <= i < put_in_order(s, x).len(),
    ensures
        put_in_order(s, x)[i] == x || s.contains(put_in_order(s, x)[i]),
    decreases s.len(),
{
    if s.len() > 0 && str_lt(x, s.last()) {
        let d = put_in_order(s.drop_last(), x);
        if i < d.len() {
            lemma_put_in_order_members(s.drop_last(), x, i);
            if d[i] != x {
                let k = choose|k: int| 0 <= k < s.drop_last().len() && s.drop_last()[k] == d[i];
                assert(s[k] == d[i]);
            }
        } else {
            assert(s[s.len() - 1] == put_in_order(s, x)[i]);
        }
    } else {
        if i < s.len() {
            assert(s[i] == put_in_order(s, x)[i]);
        }
    }
}

/// Sorting adds no string.
pub proof fn lemma_in_order_members(s: Seq<Seq<char>>, i: int)
    requires
        0 <= i < in_order(s).len(),
    ensures
        s.contains(in_order(s)[i]),
    decreases s.len(),
{
    if s.len() > 0 {
        let d = in_order(s.drop_last());
        lemma_put_in_order_members(d, s.last(), i);
        let x = in_order(s)[i];
        if x == s.last() {
            assert(s[s.len() - 1] == x);
        } else {
            let k = choose|k: int| 0 <= k < d.len() && d[k] == x;
            lemma_in_order_members(s.drop_last(), k);
            let j = choose|j: int| 0 <= j < s.drop_last().len() && s.drop_last()[j] == x;
            assert(s[j] == x);
        }
    }
}

proof fn lemma_deduped_members(s: Seq<Seq<char>>, i: int)
    requires
        0 <= i < deduped(s).len(),
    ensures
        s.contains(deduped(s)[i]),
    decreases s.len(),
{
    if s.len() > 0 {
        let d = deduped(s.drop_last());
        let x = deduped(s)[i];
        if i < d.len() {
            lemma_deduped_members(s.drop_last(), i);
            let j = choose|j: int| 0 <= j < s.drop_last().len() && s.drop_last()[j] == x;
            assert(s[j] == x);
        } else {
            assert(s[s.len() - 1] == x);
        }
    }
}

proof fn lemma_live_of_members(m: MergeView, s: Seq<Seq<char>>, i: int)
    requires
        0 <= i < live_of(m, s).len(),
    ensures
        m.live(live_of(m, s)[i]),
        s.contains(live_of(m, s)[i]),
    decreases s.len(),
{
    if s.len() > 0 {
        let d = live_of(m, s.drop_last());
        let x = live_of(m, s)[i];
        if i < d.len() {
            lemma_live_of_members(m, s.drop_last(), i);
            let j = choose|j: int| 0 <= j < s.drop_last().len() && s.drop_last()[j] == x;
            assert(s[j] == x);
        } else {
            assert(s[s.len() - 1] == x);
        }
    }
}

/// Each identifier of the new sorted section has a record.
pub proof fn lemma_final_uuids_live(m: MergeView, i: int)
    requires
        0 <= i < final_uuids(m).len(),
    ensures
        m.live(final_uuids(m)[i]),
        m.order.contains(final_uuids(m)[i]),
{
    let l = live_of(m, m.order);
    let d = deduped(l);
    lemma_in_order_members(d, i);
    let x = final_uuids(m)[i];
    let j = choose|j: int| 0 <= j < d.len() && d[j] == x;
    lemma_deduped_members(l, j);
    let k = choose|k: int| 0 <= k < l.len() && l[k] == x;
    lemma_live_of_members(m, m.order, k);
}

impl DotsvFile {
    /// Merge the sorted and the pending section.
    pub(crate) fn merge(&self) -> (r: Result<Merge>)
        ensures
            match r {
                Ok(m) => merged(self@) == Ok::<MergeView, ErrorView>(m@),
                Err(e) => merged(self@) == Err::<MergeView, ErrorView>(e@),
            },
    {
        let mut m = Merge::new();
        let mut i: usize = 0;
        while i < self.sorted.len()
            invariant
                i <= self.sorted@.len(),
                merge_sorted(self@.sorted, 0, MergeView::start()) == merge_sorted(
                    self@.sorted,
                    i as int,
                    m@,
                ),
            decreases self.sorted@.len() - i,
        {
            let line: &String = &self.sorted[i];
            assert(self@.sorted[i as int] == line@);
            if !line.as_str().is_empty() {
                let rec = match Record::parse(line.as_str(), i + 1) {
                    Ok(rec) => rec,
                    Err(e) => {
                        return Err(e);
                    },
                };
                let ghost before = m@;
                m.order.push(copy_of(rec.uuid.as_str()));
                assert(views(m.order@) == before.order.push(rec@.uuid));
                m.records.insert(copy_of(rec.uuid.as_str()), Slot::Live(rec));
            }
            i += 1;
        }
        let mut j: usize = 0;
        while j < self.pending.len()
            invariant
                j <= self.pending@.len(),
                merged(self@) == merge_pending(self@.pending, j as int, m@),
            decreases self.pending@.len() - j,
        {
            let line: &String = &self.pending[j];
            assert(self@.pending[j as int] == line@);
            if !line.as_str().is_empty() {
                match m.apply_line(line.as_str(), j + 1) {
                    Ok(_) => {},
                    Err(e) => {
                        return Err(e);
                    },
                }
            }
            j += 1;
        }
        Ok(m)
    }

    /// Merge the pending operations into the sorted section. On an error nothing changes.
    pub fn compact(&mut self) -> (r: Result<()>)
        ensures
            match r {
                Ok(_) => compacted(old(self)@) == Ok::<FileView, ErrorView>(final(self)@),
                Err(e) => compacted(old(self)@) == Err::<FileView, ErrorView>(e@) && final(self)@
                    == old(self)@,
            },
    {
        let m = match self.merge() {
            Ok(m) => m,
            Err(e) => {
                return Err(e);
            },
        };
        let us = sort_strings(&m.live_uuids());
        let mut sorted: Vec<String> = Vec::new();
        let mut i: usize = 0;
        let ghost all = final_lines(m@);
        while i < us.len()
            invariant
                i <= us@.len(),
                views(us@) == final_uuids(m@),
                all == final_lines(m@),
                views(sorted@) == all.take(i as int),
            decreases us@.len() - i,
        {
            proof {
                lemma_final_uuids_live(m@, i as int);
                assert(views(us@)[i as int] == us@[i as int]@);
            }
            match m.records.get(us[i].as_str()) {
                Some(Slot::Live(rec)) => {
                    let line = rec.serialize();
                    let ghost before = views(sorted@);
                    assert(line@ == all[i as int]);
                    sorted.push(line);
                    assert(views(sorted@) == before.push(all[i as int]));
                },
                _ => {},
            }
            i += 1;
        }
        assert(all.take(all.len() as int) == all);
        self.sorted = sorted;
        self.pending = Vec::new();
        assert(self@.pending == Seq::<Seq<char>>::empty());
        Ok(())
    }
}

/// Compact the file if its pending section exceeds the threshold; tells whether it did.
pub fn maybe_compact(db: &mut DotsvFile) -> (r: Result<bool>)
    ensures
        match r {
            Ok(done) => done == (old(db)@.pending.len() > PENDING_COMPACT_THRESHOLD) && if done {
                compacted(old(db)@) == Ok::<FileView, ErrorView>(final(db)@)
            } else {
                final(db)@ == old(db)@
            },
            Err(e) => old(db)@.pending.len() > PENDING_COMPACT_THRESHOLD && compacted(old(db)@)
                == Err::<FileView, ErrorView>(e@) && final(db)@ == old(db)@,
        },
        r matches Ok(done) ==> done == (old(db)@.pending.len() > 100),
        r is Err ==> old(db)@.pending.len() > 100,
{
    if db.pending_count() > PENDING_COMPACT_THRESHOLD {
        match db.compact() {
            Ok(_) => Ok(true),
            Err(e) => Err(e),
        }
    } else {
        Ok(false)
    }
}

} // verus!
