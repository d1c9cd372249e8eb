//! The queue of writers: a lock file with one line for each instance that runs or waits.
//!
//! A line has `EXEC` or `WAIT`, the instance's number in sixteen hexadecimal digits, the
//! identifiers that it will write, and the moment of its last sign of life. No identifiers means
//! all of them. An instance may not join while another holds one of its identifiers, or all; it
//! runs when it is the first that waits and nothing that runs is in its way.
use crate::clock::unix_secs;
use crate::dotsv::{push_lines, unlines};
use crate::error::{ErrorView, Result, TsdbError};
use crate::escape::{hex_digit, hex_value};
use crate::index::push_string;
use crate::text::{
    cat2, cat3, cat5, chars_of, copy_all, copy_of, dec, dec_of, hex_of, hex_text, join, join_with, lines, lines_of, split,
    split_on, str_eq, views,
};
use vstd::prelude::*;

verus! {

/// The seconds after which an instance without a sign of life does not count any more.
pub const STALE_TIMEOUT_SECS: u64 = 30;

/// The milliseconds between two looks at the queue.
pub const POLL_INTERVAL_MS: u64 = 100;

#[derive(Debug, Clone, Copy, PartialEq, Eq, Structural)]
pub enum EntryStatus {
    Exec,
    Wait,
}

/// A line of the lock file.
#[derive(Debug)]
pub struct LockEntry {
    pub status: EntryStatus,
    pub pid: u64,
    pub uuids: Vec<String>,
    pub timestamp: u64,
}

/// What a line of the lock file says.
#[verifier::ext_equal]
pub struct EntryView {
    pub status: EntryStatus,
    pub pid: u64,
    pub uuids: Seq<Seq<char>>,
    pub timestamp: u64,
}

impl View for LockEntry {
    type V = EntryView;

    open spec fn view(&self) -> EntryView {
        EntryView {
            status: self.status,
            pid: self.pid,
            uuids: views(self.uuids@),
            timestamp: self.timestamp,
        }
    }
}

impl EntryView {
    /// Whether the entry has given no sign of life for too long.
    pub open spec fn stale_at(self, now: u64) -> bool {
        now - self.timestamp > STALE_TIMEOUT_SECS
    }
}

/// The contents of a sequence of entries.
pub open spec fn entry_views(v: Seq<LockEntry>) -> Seq<EntryView> {
    Seq::new(v.len(), |i: int| v[i]@)
}

/// The value of a digit in base 10 or 16.
pub open spec fn radix_digit(c: char, base: nat) -> Option<nat> {
    match hex_value(c) {
        Some(d) => if d < base {
            Some(d)
        } else {
            None
        },
        None => None,
    }
}

/// The number that digits make, or nothing if one is no digit.
pub open spec fn radix_value(s: Seq<char>, base: nat) -> Option<nat>
    decreases s.len(),
{
    if s.len() == 0 {
        Some(0)
    } else {
        match (radix_value(s.drop_last(), base), radix_digit(s.last(), base)) {
            (Some(n), Some(d)) => Some(n * base + d),
            _ => None,
        }
    }
}

/// The number that a string says: digits with perhaps a `+` before them, up to 64 bits; 0 for any
/// other string.
pub open spec fn number_or_zero(s: Seq<char>, base: nat) -> u64 {
    let t = if s.len() > 1 && s[0] == '+' {
        s.skip(1)
    } else {
        s
    };
    match radix_value(t, base) {
        Some(n) => if t.len() > 0 && n <= u64::MAX {
            n as u64
        } else {
            0
        },
        None => 0,
    }
}

/// The identifiers of a comma-separated list; none for the empty string.
pub open spec fn uuids_of(s: Seq<char>) -> Seq<Seq<char>> {
    if s.len() == 0 {
        Seq::empty()
    } else {
        split(s, ',')
    }
}

/// The entry that a line says, if it says one.
pub open spec fn entry_of(line: Seq<char>) -> Option<EntryView> {
    let parts = split(line, '\t');
    if parts.len() < 4 || (parts[0] != "EXEC"@ && parts[0] != "WAIT"@) {
        None
    } else {
        Some(
            EntryView {
                status: if parts[0] == "EXEC"@ {
                    EntryStatus::Exec
                } else {
                    EntryStatus::Wait
                },
                pid: number_or_zero(parts[1], 16),
                uuids: uuids_of(parts[2]),
                timestamp: number_or_zero(parts[3], 10),
            },
        )
    }
}

/// The entries of the lines from `i` on.
pub open spec fn entries_from(ls: Seq<Seq<char>>, i: int) -> Seq<EntryView>
    decreases ls.len() - i,
{
    if i >= ls.len() {
        Seq::empty()
    } else {
        match entry_of(ls[i]) {
            Some(e) => seq![e] + entries_from(ls, i + 1),
            None => entries_from(ls, i + 1),
        }
    }
}

/// The word for a status.
pub open spec fn status_text(s: EntryStatus) -> Seq<char> {
    match s {
        EntryStatus::Exec => "EXEC"@,
        EntryStatus::Wait => "WAIT"@,
    }
}

/// The line of an entry.
pub open spec fn entry_line(e: EntryView) -> Seq<char> {
    status_text(e.status) + "\t"@ + hex_text(e.pid as nat, 16) + "\t"@ + (join(e.uuids, ","@) + "\t"@
        + dec(e.timestamp as nat))
}

/// The lines of entries.
pub open spec fn entry_lines(es: Seq<EntryView>) -> Seq<Seq<char>> {
    Seq::new(es.len(), |i: int| entry_line(es[i]))
}

/// The entries that are not stale.
pub open spec fn fresh(es: Seq<EntryView>, now: u64) -> Seq<EntryView>
    decreases es.len(),
{
    if es.len() == 0 {
        Seq::empty()
    } else if es.last().stale_at(now) {
        fresh(es.drop_last(), now)
    } else {
        fresh(es.drop_last(), now).push(es.last())
    }
}

/// The identifiers among the first `n` of `ours` that are in `theirs`, or all of them if `theirs`
/// means all; each once.
pub open spec fn overlap(ours: Seq<Seq<char>>, theirs: Seq<Seq<char>>, n: int) -> Seq<Seq<char>>
    decreases n,
{
    if n <= 0 {
        Seq::empty()
    } else {
        let d = overlap(ours, theirs, n - 1);
        let u = ours[n - 1];
        if (theirs.len() == 0 || theirs.contains(u)) && !d.contains(u) {
            d.push(u)
        } else {
            d
        }
    }
}

/// Whether an entry keeps an instance that writes `ours` from joining.
pub open spec fn refuses(e: EntryView, ours: Seq<Seq<char>>) -> bool {
    e.uuids.len() == 0 || exists|i: int| 0 <= i < ours.len() && e.uuids.contains(#[trigger] ours[i])
}

/// The first entry from place `i` on that keeps an instance from joining.
pub open spec fn refuser(es: Seq<EntryView>, ours: Seq<Seq<char>>, i: int) -> Option<EntryView>
    decreases es.len() - i,
{
    if i >= es.len() {
        None
    } else if refuses(es[i], ours) {
        Some(es[i])
    } else {
        refuser(es, ours, i + 1)
    }
}

/// The queue after an instance joined, or why it may not.
pub open spec fn registered(es: Seq<EntryView>, pid: u64, ours: Seq<Seq<char>>, now: u64) -> core::result::Result<
    Seq<EntryView>,
    ErrorView,
> {
    let kept = fresh(es, now);
    match refuser(kept, ours, 0) {
        Some(e) => Err(
            ErrorView::LockConflict {
                pid: e.pid,
                status: e.status,
                uuids: overlap(ours, e.uuids, ours.len() as int),
            },
        ),
        None => Ok(
            kept.push(EntryView { status: EntryStatus::Wait, pid, uuids: ours, timestamp: now }),
        ),
    }
}

/// Whether a running entry is in the way of an instance that writes `ours`.
pub open spec fn blocks(e: EntryView, ours: Seq<Seq<char>>) -> bool {
    e.status == EntryStatus::Exec && (ours.len() == 0 || refuses(e, ours))
}

/// The number of the first instance that waits.
pub open spec fn first_waiting(es: Seq<EntryView>, i: int) -> Option<u64>
    decreases es.len() - i,
{
    if i >= es.len() {
        None
    } else if es[i].status == EntryStatus::Wait {
        Some(es[i].pid)
    } else {
        first_waiting(es, i + 1)
    }
}

/// An entry after instance `pid` was given its turn.
pub open spec fn started(e: EntryView, pid: u64, now: u64) -> EntryView {
    if e.status == EntryStatus::Wait && e.pid == pid {
        EntryView { status: EntryStatus::Exec, pid: e.pid, uuids: e.uuids, timestamp: now }
    } else {
        e
    }
}

/// The queue after the instance was given its turn, or nothing while it must wait.
pub open spec fn promoted(es: Seq<EntryView>, pid: u64, ours: Seq<Seq<char>>, now: u64) -> Option<
    Seq<EntryView>,
> {
    let kept = fresh(es, now);
    if (exists|i: int| 0 <= i < kept.len() && blocks(#[trigger] kept[i], ours)) || first_waiting(
        kept,
        0,
    ) != Some(pid) {
        None
    } else {
        Some(Seq::new(kept.len(), |i: int| started(kept[i], pid, now)))
    }
}

/// The queue after a sign of life of the running instance `pid`.
pub open spec fn refreshed(es: Seq<EntryView>, pid: u64, now: u64) -> Seq<EntryView> {
    Seq::new(
        es.len(),
        |i: int|
            if es[i].status == EntryStatus::Exec && es[i].pid == pid {
                EntryView { status: es[i].status, pid, uuids: es[i].uuids, timestamp: now }
            } else {
                es[i]
            },
    )
}

/// The queue without instance `pid`.
pub open spec fn released(es: Seq<EntryView>, pid: u64) -> Seq<EntryView>
    decreases es.len(),
{
    if es.len() == 0 {
        Seq::empty()
    } else if es.last().pid == pid {
        released(es.drop_last(), pid)
    } else {
        released(es.drop_last(), pid).push(es.last())
    }
}

impl LockEntry {
    /// Whether the entry has given no sign of life for more than the timeout at the moment `now`.
    pub fn is_stale_at(&self, now: u64) -> (r: bool)
        ensures
            r == self@.stale_at(now),
    {
        now > self.timestamp && now - self.timestamp > STALE_TIMEOUT_SECS
    }

    /// Whether the entry is stale by the system's clock.
    pub fn is_stale(&self) -> (r: bool)
        ensures
            exists|now: u64| r == #[trigger] self@.stale_at(now),
    {
        let now: u64 = unix_secs();
        self.is_stale_at(now)
    }
}

impl Clone for LockEntry {
    fn clone(&self) -> (r: Self)
        ensures
            r@ == self@,
    {
        LockEntry {
            status: self.status,
            pid: self.pid,
            uuids: copy_all(&self.uuids),
            timestamp: self.timestamp,
        }
    }
}

/// The number that a string says in base 10 or 16, or 0.
fn parse_number(s: &str, base: u64) -> (r: u64)
    requires
        base == 10 || base == 16,
    ensures
        r == number_or_zero(s@, base as nat),
{
    let v = chars_of(s);
    let start: usize = if v.len() > 1 && v[0] == '+' {
        1
    } else {
        0
    };
    let ghost t = v@.skip(start as int);
    assert(start == 0 ==> t == v@);
    if v.len() == start {
        return 0;
    }
    let mut n: u64 = 0;
    let mut big = false;
    let mut i: usize = start;
    assert(t.take(0) == Seq::<char>::empty());
    while i < v.len()
        invariant
            start <= i <= v@.len(),
            t == v@.skip(start as int),
            v@ == s@,
            start == 1 <==> s@.len() > 1 && s@[0] == '+',
            start == 0 || start == 1,
            start == 0 ==> t == v@,
            base == 10 || base == 16,
            radix_value(t.take(i - start), base as nat) is Some,
            big ==> radix_value(t.take(i - start), base as nat)->0 > u64::MAX,
            !big ==> radix_value(t.take(i - start), base as nat)->0 == n,
        decreases v@.len() - i,
    {
        let ghost a = t.take(i - start);
        let ghost b = t.take(i - start + 1);
        assert(b.drop_last() == a);
        assert(b.last() == v@[i as int]);
        let ghost before = radix_value(a, base as nat)->0;
        let d: u8 = match hex_digit(v[i]) {
            Some(d) => d,
            None => {
                proof {
                    lemma_radix_none(t, base as nat, i - start + 1);
                }
                return 0;
            },
        };
        if d as u64 >= base {
            proof {
                lemma_radix_none(t, base as nat, i - start + 1);
            }
            return 0;
        }
        assert(radix_value(b, base as nat) == Some((before * base + d) as nat));
        if big || n > (u64::MAX - d as u64) / base {
            proof {
                let m = before as int;
                let k = base as int;
                if !big {
                    assert(n * k + d > u64::MAX) by {
                        let q = (u64::MAX - d as u64) as int / k;
                        vstd::arithmetic::div_mod::lemma_fundamental_div_mod(
                            (u64::MAX - d as u64) as int,
                            k,
                        );
                        assert(n >= q + 1);
                        assert(n * k >= (q + 1) * k) by (nonlinear_arith)
                            requires
                                n >= q + 1,
                                k >= 0,
                        ;
                        assert((q + 1) * k == k * q + k) by (nonlinear_arith);
                    }
                } else {
                    assert(m * k + d > u64::MAX) by (nonlinear_arith)
                        requires
                            m > u64::MAX,
                            k >= 1,
                            d >= 0,
                    ;
                }
            }
            big = true;
        } else {
            proof {
                let k = base as int;
                let q = (u64::MAX - d as u64) as int / k;
                vstd::arithmetic::div_mod::lemma_fundamental_div_mod(
                    (u64::MAX - d as u64) as int,
                    k,
                );
                assert(n * k <= k * q) by (nonlinear_arith)
                    requires
                        n <= q,
                        k >= 0,
                ;
            }
            n = n * base + d as u64;
        }
        i += 1;
    }
    assert(t.take(v@.len() - start) == t);
    if big {
        0
    } else {
        n
    }
}

/// One character that is no digit leaves no number.
proof fn lemma_radix_none(t: Seq<char>, base: nat, n: int)
    requires
        0 <= n <= t.len(),
        radix_value(t.take(n), base) is None,
    ensures
        radix_value(t, base) is None,
    decreases t.len() - n,
{
    if n == t.len() {
        assert(t.take(n) == t);
    } else {
        assert(t.take(n + 1).drop_last() == t.take(n));
        lemma_radix_none(t, base, n + 1);
    }
}

/// The entry that a line says, if it says one.
fn parse_entry(line: &str) -> (r: Option<LockEntry>)
    ensures
        match r {
            Some(e) => entry_of(line@) == Some(e@),
            None => entry_of(line@) is None,
        },
{
    let parts = split_on(line, '\t');
    let ghost all = split(line@, '\t');
    assert(all.len() == parts@.len());
    if parts.len() < 4 {
        return None;
    }
    assert(all[0] == parts@[0]@ && all[1] == parts@[1]@ && all[2] == parts@[2]@ && all[3]
        == parts@[3]@);
    let status = if str_eq(parts[0].as_str(), "EXEC") {
        EntryStatus::Exec
    } else if str_eq(parts[0].as_str(), "WAIT") {
        EntryStatus::Wait
    } else {
        return None;
    };
    let uuids = if parts[2].as_str().is_empty() {
        let none: Vec<String> = Vec::new();
        assert(views(none@) == Seq::<Seq<char>>::empty());
        none
    } else {
        split_on(parts[2].as_str(), ',')
    };
    Some(
        LockEntry {
            status,
            pid: parse_number(parts[1].as_str(), 16),
            uuids,
            timestamp: parse_number(parts[3].as_str(), 10),
        },
    )
}

/// Parse the text of a lock file. Lines that say no entry are left out.
pub fn parse_lock_file(content: &str) -> (r: Vec<LockEntry>)
    ensures
        entry_views(r@) == entries_from(lines(content@), 0),
{
    let ls = lines_of(content);
    let ghost all = lines(content@);
    let mut out: Vec<LockEntry> = Vec::new();
    let mut i: usize = 0;
    assert(entry_views(out@) + entries_from(all, 0) == entries_from(all, 0));
    while i < ls.len()
        invariant
            i <= ls@.len(),
            all == views(ls@),
            entries_from(all, 0) == entry_views(out@) + entries_from(all, i as int),
        decreases ls@.len() - i,
    {
        assert(all[i as int] == ls@[i as int]@);
        if let Some(e) = parse_entry(ls[i].as_str()) {
            let ghost before = entry_views(out@);
            let ghost ev = e@;
            out.push(e);
            assert(entry_views(out@) == before.push(ev));
            assert(before + (seq![ev] + entries_from(all, i + 1)) == before.push(ev) + entries_from(
                all,
                i + 1,
            ));
        }
        i += 1;
    }
    assert(entry_views(out@) + Seq::<EntryView>::empty() == entry_views(out@));
    out
}

fn write_entry(e: &LockEntry) -> (r: String)
    ensures
        r@ == entry_line(e@),
{
    let word = match e.status {
        EntryStatus::Exec => "EXEC",
        EntryStatus::Wait => "WAIT",
    };
    let tail = cat3(
        join_with(&e.uuids, ",").as_str(),
        "\t",
        dec_of(e.timestamp).as_str(),
    );
    cat5(word, "\t", hex_of(e.pid, 16).as_str(), "\t", tail.as_str())
}

/// The text of a lock file with the given entries.
pub fn serialize_lock_file(entries: &[LockEntry]) -> (r: String)
    ensures
        r@ == unlines(entry_lines(entry_views(entries@))),
{
    let ghost all = entry_lines(entry_views(entries@));
    let mut ls: Vec<String> = Vec::new();
    let mut i: usize = 0;
    while i < entries.len()
        invariant
            i <= entries@.len(),
            all == entry_lines(entry_views(entries@)),
            views(ls@) == all.take(i as int),
        decreases entries@.len() - i,
    {
        push_string(&mut ls, write_entry(&entries[i]));
        assert(all.take(i + 1) == all.take(i as int).push(all[i as int]));
        i += 1;
    }
    assert(all.take(all.len() as int) == all);
    let mut out = String::new();
    push_lines(&mut out, &ls);
    assert(out@ == unlines(all));
    out
}

/// The entries that are not stale.
fn drop_stale(es: &Vec<LockEntry>, now: u64) -> (r: Vec<LockEntry>)
    ensures
        entry_views(r@) == fresh(entry_views(es@), now),
{
    let ghost all = entry_views(es@);
    let mut out: Vec<LockEntry> = Vec::new();
    let mut i: usize = 0;
    assert(entry_views(out@) == Seq::<EntryView>::empty());
    while i < es.len()
        invariant
            i <= es@.len(),
            all == entry_views(es@),
            entry_views(out@) == fresh(all.take(i as int), now),
        decreases es@.len() - i,
    {
        assert(all.take(i + 1).drop_last() == all.take(i as int));
        assert(all.take(i + 1).last() == es@[i as int]@);
        if !es[i].is_stale_at(now) {
            push_entry(&mut out, es[i].clone());
        }
        i += 1;
    }
    assert(all.take(all.len() as int) == all);
    out
}

fn push_entry(v: &mut Vec<LockEntry>, e: LockEntry)
    ensures
        entry_views(final(v)@) == entry_views(old(v)@).push(e@),
{
    let ghost before = entry_views(v@);
    let ghost ev = e@;
    v.push(e);
    assert(entry_views(v@) == before.push(ev));
}

/// Whether a vector holds a string.
fn holds_string(v: &Vec<String>, s: &str) -> (r: bool)
    ensures
        r == views(v@).contains(s@),
{
    let mut i: usize = 0;
    while i < v.len()
        invariant
            i <= v@.len(),
            forall|k: int| 0 <= k < i ==> #[trigger] views(v@)[k] != s@,
        decreases v@.len() - i,
    {
        assert(views(v@)[i as int] == v@[i as int]@);
        if str_eq(v[i].as_str(), s) {
            return true;
        }
        i += 1;
    }
    false
}

/// Whether an entry keeps an instance that writes `ours` from joining.
fn entry_refuses(e: &LockEntry, ours: &Vec<String>) -> (r: bool)
    ensures
        r == refuses(e@, views(ours@)),
{
    if e.uuids.len() == 0 {
        return true;
    }
    let mut i: usize = 0;
    while i < ours.len()
        invariant
            i <= ours@.len(),
            e.uuids@.len() > 0,
            forall|k: int| 0 <= k < i ==> !e@.uuids.contains(#[trigger] views(ours@)[k]),
        decreases ours@.len() - i,
    {
        assert(views(ours@)[i as int] == ours@[i as int]@);
        if holds_string(&e.uuids, ours[i].as_str()) {
            return true;
        }
        i += 1;
    }
    false
}

/// The identifiers of `ours` that an entry holds.
fn overlap_with(ours: &Vec<String>, theirs: &Vec<String>) -> (r: Vec<String>)
    ensures
        views(r@) == overlap(views(ours@), views(theirs@), ours@.len() as int),
{
    let mut r: Vec<String> = Vec::new();
    let mut i: usize = 0;
    assert(views(r@) == Seq::<Seq<char>>::empty());
    assert(views(theirs@).len() == theirs@.len());
    while i < ours.len()
        invariant
            i <= ours@.len(),
            views(theirs@).len() == theirs@.len(),
            views(r@) == overlap(views(ours@), views(theirs@), i as int),
        decreases ours@.len() - i,
    {
        let u: &str = ours[i].as_str();
        assert(views(ours@)[i as int] == u@);
        if (theirs.len() == 0 || holds_string(theirs, u)) && !holds_string(&r, u) {
            push_string(&mut r, copy_of(u));
        }
        i += 1;
    }
    r
}

/// A random number from the `rand` crate (`rand::random::<u64>`). Nothing is promised of it.
#[verifier::external_body]
fn current_pid() -> u64 {
    rand::random::<u64>()
}

/// One instance's part in the queue.
#[derive(Debug)]
pub struct LockManager {
    pub lock_path: String,
    pub pid: u64,
    pub uuids: Vec<String>,
}

impl LockManager {
    /// The part of a new instance with a random number. `uuids` is what it will write, or nothing
    /// if it may write all.
    pub fn new(dov_path: &str, uuids: Vec<String>) -> (r: Self)
        ensures
            r.lock_path@ == dov_path@ + ".lock"@,
            views(r.uuids@) == views(uuids@),
    {
        LockManager::with_pid(dov_path, current_pid(), uuids)
    }

    /// The part of the instance with number `pid`.
    pub fn with_pid(dov_path: &str, pid: u64, uuids: Vec<String>) -> (r: Self)
        ensures
            r.lock_path@ == dov_path@ + ".lock"@,
            r.pid == pid,
            views(r.uuids@) == views(uuids@),
    {
        LockManager { lock_path: cat2(dov_path, ".lock"), pid, uuids }
    }

    /// The queue after this instance joined at the moment `now`, or the conflict that keeps it
    /// from joining.
    pub fn do_register(&self, entries: &Vec<LockEntry>, now: u64) -> (r: Result<Vec<LockEntry>>)
        ensures
            match r {
                Ok(v) => registered(entry_views(entries@), self.pid, views(self.uuids@), now)
                    == Ok::<Seq<EntryView>, ErrorView>(entry_views(v@)),
                Err(e) => registered(entry_views(entries@), self.pid, views(self.uuids@), now)
                    == Err::<Seq<EntryView>, ErrorView>(e@),
            },
    {
        let mut kept = drop_stale(entries, now);
        let ghost ks = entry_views(kept@);
        let ghost ours = views(self.uuids@);
        let mut i: usize = 0;
        while i < kept.len()
            invariant
                i <= kept@.len(),
                ks == entry_views(kept@),
                ks == fresh(entry_views(entries@), now),
                ours == views(self.uuids@),
                refuser(ks, ours, 0) == refuser(ks, ours, i as int),
            decreases kept@.len() - i,
        {
            let e: &LockEntry = &kept[i];
            assert(ks[i as int] == e@);
            if entry_refuses(e, &self.uuids) {
                let uuids = overlap_with(&self.uuids, &e.uuids);
                assert(ours.len() == self.uuids@.len());
                return Err(TsdbError::LockConflict { pid: e.pid, status: e.status, uuids });
            }
            i += 1;
        }
        push_entry(
            &mut kept,
            LockEntry {
                status: EntryStatus::Wait,
                pid: self.pid,
                uuids: copy_all(&self.uuids),
                timestamp: now,
            },
        );
        Ok(kept)
    }

    /// The text of the lock file after this instance joined, from its text before.
    pub fn register(&self, content: &str, now: u64) -> (r: Result<String>)
        ensures
            match r {
                Ok(t) => registered(
                    entries_from(lines(content@), 0),
                    self.pid,
                    views(self.uuids@),
                    now,
                ) matches Ok(es) && t@ == unlines(entry_lines(es)),
                Err(e) => registered(
                    entries_from(lines(content@), 0),
                    self.pid,
                    views(self.uuids@),
                    now,
                ) == Err::<Seq<EntryView>, ErrorView>(e@),
            },
    {
        match self.do_register(&parse_lock_file(content), now) {
            Ok(v) => Ok(serialize_lock_file(v.as_slice())),
            Err(e) => Err(e),
        }
    }

    /// The queue after this instance was given its turn at the moment `now`, or nothing while it
    /// must wait.
    pub fn promote(&self, entries: &Vec<LockEntry>, now: u64) -> (r: Option<Vec<LockEntry>>)
        ensures
            match r {
                Some(v) => promoted(entry_views(entries@), self.pid, views(self.uuids@), now)
                    == Some(entry_views(v@)),
                None => promoted(entry_views(entries@), self.pid, views(self.uuids@), now) is None,
            },
    {
        let kept = drop_stale(entries, now);
        let ghost ks = entry_views(kept@);
        let ghost ours = views(self.uuids@);
        assert(ours.len() == self.uuids@.len());
        let mut i: usize = 0;
        while i < kept.len()
            invariant
                i <= kept@.len(),
                ks == entry_views(kept@),
                ks == fresh(entry_views(entries@), now),
                ours == views(self.uuids@),
                ours.len() == self.uuids@.len(),
                forall|k: int| 0 <= k < i ==> !blocks(#[trigger] ks[k], ours),
            decreases kept@.len() - i,
        {
            let e: &LockEntry = &kept[i];
            assert(ks[i as int] == e@);
            if e.status == EntryStatus::Exec && (self.uuids.len() == 0 || entry_refuses(
                e,
                &self.uuids,
            )) {
                assert(blocks(ks[i as int], ours));
                return None;
            }
            i += 1;
        }
        let mut first: Option<u64> = None;
        let mut j: usize = 0;
        while j < kept.len() && first.is_none()
            invariant
                j <= kept@.len(),
                ks == entry_views(kept@),
                first is None ==> first_waiting(ks, 0) == first_waiting(ks, j as int),
                first is Some ==> first_waiting(ks, 0) == first,
            decreases kept@.len() - j,
        {
            assert(ks[j as int] == kept@[j as int]@);
            if kept[j].status == EntryStatus::Wait {
                first = Some(kept[j].pid);
            }
            j += 1;
        }
        match first {
            Some(p) => {
                if p != self.pid {
                    return None;
                }
            },
            None => {
                return None;
            },
        }
        let mut out: Vec<LockEntry> = Vec::new();
        let mut n: usize = 0;
        let ghost all = Seq::new(ks.len(), |k: int| started(ks[k], self.pid, now));
        assert(entry_views(out@) == all.take(0));
        while n < kept.len()
            invariant
                n <= kept@.len(),
                ks == entry_views(kept@),
                all == Seq::new(ks.len(), |k: int| started(ks[k], self.pid, now)),
                entry_views(out@) == all.take(n as int),
            decreases kept@.len() - n,
        {
            assert(ks[n as int] == kept@[n as int]@);
            let mut e = kept[n].clone();
            if e.status == EntryStatus::Wait && e.pid == self.pid {
                e = LockEntry {
                    status: EntryStatus::Exec,
                    pid: e.pid,
                    uuids: e.uuids,
                    timestamp: now,
                };
            }
            assert(e@ == all[n as int]);
            push_entry(&mut out, e);
            assert(all.take(n + 1) == all.take(n as int).push(all[n as int]));
            n += 1;
        }
        assert(all.take(all.len() as int) == all);
        Some(out)
    }

    /// The text of the lock file after this instance was given its turn, or nothing while it must
    /// wait.
    pub fn try_promote(&self, content: &str, now: u64) -> (r: Option<String>)
        ensures
            match r {
                Some(t) => promoted(
                    entries_from(lines(content@), 0),
                    self.pid,
                    views(self.uuids@),
                    now,
                ) matches Some(es) && t@ == unlines(entry_lines(es)),
                None => promoted(
                    entries_from(lines(content@), 0),
                    self.pid,
                    views(self.uuids@),
                    now,
                ) is None,
            },
    {
        match self.promote(&parse_lock_file(content), now) {
            Some(v) => Some(serialize_lock_file(v.as_slice())),
            None => None,
        }
    }

    /// The text of the lock file after a sign of life of this instance.
    pub fn refresh_timestamp(&self, content: &str, now: u64) -> (r: String)
        ensures
            r@ == unlines(
                entry_lines(refreshed(entries_from(lines(content@), 0), self.pid, now)),
            ),
    {
        let es = parse_lock_file(content);
        let ghost vs = entry_views(es@);
        let ghost all = refreshed(vs, self.pid, now);
        let mut out: Vec<LockEntry> = Vec::new();
        let mut n: usize = 0;
        assert(entry_views(out@) == all.take(0));
        while n < es.len()
            invariant
                n <= es@.len(),
                vs == entry_views(es@),
                all == refreshed(vs, self.pid, now),
                entry_views(out@) == all.take(n as int),
            decreases es@.len() - n,
        {
            assert(vs[n as int] == es@[n as int]@);
            let mut e = es[n].clone();
            if e.status == EntryStatus::Exec && e.pid == self.pid {
                e = LockEntry { status: e.status, pid: e.pid, uuids: e.uuids, timestamp: now };
            }
            assert(e@ == all[n as int]);
            push_entry(&mut out, e);
            assert(all.take(n + 1) == all.take(n as int).push(all[n as int]));
            n += 1;
        }
        assert(all.take(all.len() as int) == all);
        serialize_lock_file(out.as_slice())
    }

    /// The text of the lock file without this instance.
    pub fn release(&self, content: &str) -> (r: String)
        ensures
            r@ == unlines(entry_lines(released(entries_from(lines(content@), 0), self.pid))),
    {
        let es = parse_lock_file(content);
        let ghost all = entry_views(es@);
        let mut out: Vec<LockEntry> = Vec::new();
        let mut i: usize = 0;
        assert(entry_views(out@) == Seq::<EntryView>::empty());
        while i < es.len()
            invariant
                i <= es@.len(),
                all == entry_views(es@),
                entry_views(out@) == released(all.take(i as int), self.pid),
            decreases es@.len() - i,
        {
            assert(all.take(i + 1).drop_last() == all.take(i as int));
            assert(all.take(i + 1).last() == es@[i as int]@);
            if es[i].pid != self.pid {
                push_entry(&mut out, es[i].clone());
            }
            i += 1;
        }
        assert(all.take(all.len() as int) == all);
        serialize_lock_file(out.as_slice())
    }
}

} // verus!
