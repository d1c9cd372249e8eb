//! Who may join the queue of a lock file, who is given a turn, and what the file says; and where the
//! files beside a database lie.
use crate::error::ErrorView;
use crate::lock::{
    blocks, entries_from, entry_line, entry_of, first_waiting, fresh, promoted, refreshed, refuser,
    refuses, registered, EntryStatus, EntryView,
};
use crate::paths::{
    companion, is_file_name, joined_path, last_component, last_dot, name_start, stem, trimmed_path,
};
use crate::queue::{law_overlap, picks};
use crate::text::{dec, hex_text, join, lower_hex, split};
use vstd::prelude::*;

verus! {

/// Whether an entry gave a sign of life in the last thirty seconds.
pub open spec fn alive(e: EntryView, now: u64) -> bool {
    now <= e.timestamp + 30
}

/// Whether an entry and an instance write a common record; no identifiers mean all records.
pub open spec fn in_the_way(e: EntryView, ours: Seq<Seq<char>>) -> bool {
    e.uuids.len() == 0 || exists|u: Seq<char>| #[trigger] ours.contains(u) && e.uuids.contains(u)
}

proof fn lemma_in_the_way(e: EntryView, ours: Seq<Seq<char>>)
    ensures
        refuses(e, ours) <==> in_the_way(e, ours),
{
    if refuses(e, ours) && e.uuids.len() > 0 {
        let i = choose|i: int| 0 <= i < ours.len() && e.uuids.contains(#[trigger] ours[i]);
        assert(ours.contains(ours[i]));
    }
    if in_the_way(e, ours) && e.uuids.len() > 0 {
        let u = choose|u: Seq<char>| #[trigger] ours.contains(u) && e.uuids.contains(u);
        let i = choose|i: int| 0 <= i < ours.len() && ours[i] == u;
        assert(e.uuids.contains(ours[i]));
    }
}

proof fn lemma_alive(e: EntryView, now: u64)
    ensures
        e.stale_at(now) <==> !alive(e, now),
{
}

/// The places of the entries that are alive, in order.
pub open spec fn alive_places(es: Seq<EntryView>, now: u64, p: Seq<int>) -> bool {
    &&& forall|i: int, j: int| 0 <= i < j < p.len() ==> #[trigger] p[i] < #[trigger] p[j]
    &&& forall|x: int| #[trigger] p.contains(x) <==> 0 <= x < es.len() && alive(es[x], now)
}

proof fn lemma_alive_places(es: Seq<EntryView>, now: u64) -> (p: Seq<int>)
    ensures
        alive_places(es, now, p),
        picks(p, fresh(es, now), es),
    decreases es.len(),
{
    if es.len() == 0 {
        Seq::empty()
    } else {
        let d = es.drop_last();
        let last = es.len() - 1;
        let p = lemma_alive_places(d, now);
        lemma_alive(es.last(), now);
        assert forall|i: int| 0 <= i < p.len() implies 0 <= #[trigger] p[i] < last && d[p[i]] == es[p[i]] by {
            assert(p.contains(p[i]));
        }
        assert forall|x: int| #[trigger] p.contains(x) <==> 0 <= x < last && alive(es[x], now) by {
            if 0 <= x < last {
                assert(d[x] == es[x]);
            }
        }
        if alive(es.last(), now) {
            let q = p.push(last);
            assert forall|x: int| #[trigger] q.contains(x) <==> 0 <= x < es.len() && alive(es[x], now) by {
                if q.contains(x) {
                    let i = choose|i: int| 0 <= i < q.len() && q[i] == x;
                    if i < p.len() {
                        assert(p[i] == x);
                        assert(p.contains(x));
                    }
                }
                if 0 <= x < es.len() && alive(es[x], now) {
                    if x < last {
                        assert(p.contains(x));
                        let i = choose|i: int| 0 <= i < p.len() && p[i] == x;
                        assert(q[i] == x);
                    } else {
                        assert(q[p.len() as int] == x);
                    }
                }
            }
            q
        } else {
            p
        }
    }
}

/// The first entry that is alive and in the way of an instance.
pub open spec fn first_in_the_way(es: Seq<EntryView>, ours: Seq<Seq<char>>, now: u64, x: int) -> bool {
    &&& 0 <= x < es.len()
    &&& alive(es[x], now)
    &&& in_the_way(es[x], ours)
    &&& forall|y: int| 0 <= y < x && alive(#[trigger] es[y], now) ==> !in_the_way(es[y], ours)
}

proof fn lemma_refuser_place(es: Seq<EntryView>, ours: Seq<Seq<char>>, i: int) -> (k: int)
    requires
        0 <= i <= es.len(),
    ensures
        refuser(es, ours, i) is Some ==> i <= k < es.len() && refuser(es, ours, i) == Some(es[k])
            && refuses(es[k], ours) && forall|j: int| i <= j < k ==> !refuses(#[trigger] es[j], ours),
        refuser(es, ours, i) is None ==> forall|j: int|
            i <= j < es.len() ==> !refuses(#[trigger] es[j], ours),
    decreases es.len() - i,
{
    if i >= es.len() || refuses(es[i], ours) {
        i
    } else {
        lemma_refuser_place(es, ours, i + 1)
    }
}

/// Law: an instance may join the queue exactly if no entry that gave a sign of life in the last thirty
/// seconds writes a record that it writes. Else the first such entry is named, with the records
/// that both write, each once. An instance that joins waits behind the entries that are alive.
pub proof fn law_join_exactly(es: Seq<EntryView>, pid: u64, ours: Seq<Seq<char>>, now: u64)
    ensures
        registered(es, pid, ours, now) is Ok <==> forall|x: int|
            0 <= x < es.len() && alive(#[trigger] es[x], now) ==> !in_the_way(es[x], ours),
        registered(es, pid, ours, now) matches Ok(q) ==> exists|p: Seq<int>| #[trigger]
            alive_places(es, now, p) && q.len() == p.len() + 1 && (forall|k: int|
                0 <= k < p.len() ==> #[trigger] q[k] == es[p[k]]) && q.last() == (EntryView {
                status: EntryStatus::Wait,
                pid,
                uuids: ours,
                timestamp: now,
            }),
        forall|x: int| #[trigger]
            first_in_the_way(es, ours, now, x) ==> (registered(es, pid, ours, now) matches Err(
                ErrorView::LockConflict { pid: p, status: s, uuids: us },
            ) && p == es[x].pid && s == es[x].status && us.no_duplicates() && forall|u: Seq<char>|
                #[trigger] us.contains(u) <==> ours.contains(u) && (es[x].uuids.len() == 0
                    || es[x].uuids.contains(u))),
{
    let p = lemma_alive_places(es, now);
    let kept = fresh(es, now);
    let k = lemma_refuser_place(kept, ours, 0);
    assert forall|j: int| 0 <= j < kept.len() implies #[trigger] kept[j] == es[p[j]] && alive(
        es[p[j]],
        now,
    ) && (refuses(kept[j], ours) <==> in_the_way(es[p[j]], ours)) by {
        assert(p.contains(p[j]));
        lemma_in_the_way(kept[j], ours);
    }
    if refuser(kept, ours, 0) is None {
        assert forall|x: int| 0 <= x < es.len() && alive(#[trigger] es[x], now) implies !in_the_way(
            es[x],
            ours,
        ) by {
            assert(p.contains(x));
            let j = choose|j: int| 0 <= j < p.len() && p[j] == x;
            assert(!refuses(kept[j], ours));
        }
    } else {
        let x0 = p[k];
        assert(first_in_the_way(es, ours, now, x0)) by {
            assert(kept[k] == es[p[k]]);
            assert(p.contains(p[k]));
            assert forall|y: int| 0 <= y < x0 && alive(#[trigger] es[y], now) implies !in_the_way(
                es[y],
                ours,
            ) by {
                assert(p.contains(y));
                let j = choose|j: int| 0 <= j < p.len() && p[j] == y;
                if j > k {
                    assert(p[k] < p[j]);
                }
                assert(j < k);
                assert(!refuses(kept[j], ours));
            }
        }
        assert forall|x: int| #[trigger] first_in_the_way(es, ours, now, x) implies x == x0 by {
            if x < x0 {
                assert(alive(es[x], now));
            } else if x0 < x {
                assert(alive(es[x0], now));
            }
        }
        law_overlap(ours, es[x0].uuids, ours.len() as int);
        assert(ours.take(ours.len() as int) == ours);
        assert(alive(es[x0], now) && in_the_way(es[x0], ours));
    }
    assert forall|x: int| #[trigger] first_in_the_way(es, ours, now, x) implies refuser(kept, ours, 0) is Some by {
        assert(alive(es[x], now));
    }
}

/// The first entry that is alive and waits.
pub open spec fn next_in_line(es: Seq<EntryView>, now: u64, x: int) -> bool {
    &&& 0 <= x < es.len()
    &&& alive(es[x], now)
    &&& es[x].status == EntryStatus::Wait
    &&& forall|y: int| 0 <= y < x && alive(#[trigger] es[y], now) ==> es[y].status == EntryStatus::Exec
}

/// Whether nothing that is alive and runs writes a record that an instance writes.
pub open spec fn way_is_free(es: Seq<EntryView>, ours: Seq<Seq<char>>, now: u64) -> bool {
    forall|x: int|
        0 <= x < es.len() && alive(#[trigger] es[x], now) && es[x].status == EntryStatus::Exec
            ==> ours.len() > 0 && !in_the_way(es[x], ours)
}

proof fn lemma_first_waiting(es: Seq<EntryView>, i: int) -> (k: int)
    requires
        0 <= i <= es.len(),
    ensures
        first_waiting(es, i) is Some ==> i <= k < es.len() && first_waiting(es, i) == Some(es[k].pid)
            && es[k].status == EntryStatus::Wait,
        first_waiting(es, i) is Some ==> forall|j: int|
            i <= j < k ==> (#[trigger] es[j]).status == EntryStatus::Exec,
        first_waiting(es, i) is None ==> forall|j: int|
            i <= j < es.len() ==> (#[trigger] es[j]).status == EntryStatus::Exec,
    decreases es.len() - i,
{
    if i >= es.len() || es[i].status == EntryStatus::Wait {
        i
    } else {
        lemma_first_waiting(es, i + 1)
    }
}

/// Law: an instance is given its turn exactly if the first entry that is alive and waits has its number
/// and nothing that is alive and runs writes a record that it writes. Its waiting entry then runs from
/// `now` on, the other entries that are alive stay as they are, and the rest is dropped.
pub proof fn law_turn_exactly(es: Seq<EntryView>, pid: u64, ours: Seq<Seq<char>>, now: u64)
    ensures
        promoted(es, pid, ours, now) is Some <==> way_is_free(es, ours, now) && exists|x: int|
            #[trigger] next_in_line(es, now, x) && es[x].pid == pid,
        promoted(es, pid, ours, now) matches Some(q) ==> exists|p: Seq<int>| #[trigger]
            alive_places(es, now, p) && q.len() == p.len() && forall|k: int|
                0 <= k < p.len() ==> {
                    let e = es[p[k]];
                    if e.status == EntryStatus::Wait && e.pid == pid {
                        #[trigger] q[k] == (EntryView {
                            status: EntryStatus::Exec,
                            pid: e.pid,
                            uuids: e.uuids,
                            timestamp: now,
                        })
                    } else {
                        q[k] == e
                    }
                },
{
    let p = lemma_alive_places(es, now);
    let kept = fresh(es, now);
    let w = lemma_first_waiting(kept, 0);
    assert forall|j: int| 0 <= j < kept.len() implies #[trigger] kept[j] == es[p[j]] && alive(
        es[p[j]],
        now,
    ) && (refuses(kept[j], ours) <==> in_the_way(es[p[j]], ours)) by {
        assert(p.contains(p[j]));
        lemma_in_the_way(kept[j], ours);
    }
    let blocked = exists|i: int| 0 <= i < kept.len() && blocks(#[trigger] kept[i], ours);
    assert(!blocked <==> way_is_free(es, ours, now)) by {
        if blocked {
            let i = choose|i: int| 0 <= i < kept.len() && blocks(#[trigger] kept[i], ours);
            assert(kept[i] == es[p[i]]);
            assert(alive(es[p[i]], now));
        } else {
            assert forall|x: int|
                0 <= x < es.len() && alive(#[trigger] es[x], now) && es[x].status == EntryStatus::Exec implies ours.len()
                > 0 && !in_the_way(es[x], ours) by {
                assert(p.contains(x));
                let j = choose|j: int| 0 <= j < p.len() && p[j] == x;
                assert(!blocks(kept[j], ours));
            }
        }
    }
    if first_waiting(kept, 0) is Some {
        let x0 = p[w];
        assert(kept[w] == es[p[w]]);
        assert(p.contains(p[w]));
        assert(next_in_line(es, now, x0)) by {
            assert forall|y: int| 0 <= y < x0 && alive(#[trigger] es[y], now) implies es[y].status
                == EntryStatus::Exec by {
                assert(p.contains(y));
                let j = choose|j: int| 0 <= j < p.len() && p[j] == y;
                if j > w {
                    assert(p[w] < p[j]);
                }
                assert(kept[j].status == EntryStatus::Exec);
            }
        }
        assert forall|x: int| #[trigger] next_in_line(es, now, x) implies x == x0 by {
            if x < x0 {
                assert(alive(es[x], now));
            } else if x0 < x {
                assert(alive(es[x0], now));
            }
        }
    } else {
        assert forall|x: int| !(#[trigger] next_in_line(es, now, x)) by {
            if next_in_line(es, now, x) {
                assert(p.contains(x));
                let j = choose|j: int| 0 <= j < p.len() && p[j] == x;
                assert(kept[j].status == EntryStatus::Exec);
            }
        }
    }
}

/// Law: a sign of life changes the moment of the running entries with that number, and nothing else.
pub proof fn law_sign_of_life(es: Seq<EntryView>, pid: u64, now: u64, i: int)
    requires
        0 <= i < es.len(),
    ensures
        refreshed(es, pid, now).len() == es.len(),
        refreshed(es, pid, now)[i].status == es[i].status,
        refreshed(es, pid, now)[i].pid == es[i].pid,
        refreshed(es, pid, now)[i].uuids == es[i].uuids,
        es[i].pid == pid && es[i].status == EntryStatus::Exec ==> refreshed(es, pid, now)[i].timestamp
            == now,
        es[i].pid != pid || es[i].status == EntryStatus::Wait ==> refreshed(es, pid, now)[i].timestamp
            == es[i].timestamp,
{
}

/// The lowercase hexadecimal digit for `d`.
pub open spec fn hex_figure(c: char, d: int) -> bool {
    ||| 0 <= d <= 9 && c as int == '0' as int + d
    ||| 10 <= d <= 15 && c as int == 'a' as int + d - 10
}

/// The number that lowercase hexadecimal digits say.
pub open spec fn hex_says(s: Seq<char>, n: int) -> bool
    decreases s.len(),
{
    if s.len() == 0 {
        n == 0
    } else {
        hex_figure(s.last(), n % 16) && hex_says(s.drop_last(), n / 16)
    }
}

/// The number that decimal digits say.
pub open spec fn decimal_says(s: Seq<char>, n: int) -> bool
    decreases s.len(),
{
    if s.len() == 0 {
        n == 0
    } else {
        s.last() as int == '0' as int + n % 10 && decimal_says(s.drop_last(), n / 10)
    }
}

proof fn lemma_hex_says(n: nat, w: nat)
    requires
        n < vstd::arithmetic::power::pow(16, w),
    ensures
        hex_text(n, w).len() == w,
        hex_says(hex_text(n, w), n as int),
    decreases w,
{
    vstd::arithmetic::power::lemma_pow0(16);
    if w > 0 {
        let v = (w - 1) as nat;
        vstd::arithmetic::power::lemma_pow_adds(16, 1, v);
        vstd::arithmetic::power::lemma_pow1(16);
        assert(n / 16 < vstd::arithmetic::power::pow(16, v));
        lemma_hex_says(n / 16, v);
        assert(hex_text(n, w).drop_last() == hex_text(n / 16, v));
        assert(hex_text(n, w).last() == lower_hex((n % 16) as int));
        assert(hex_figure(lower_hex((n % 16) as int), (n % 16) as int));
    }
}

/// Law: a number is written with its decimal digits, without a zero in front of them.
pub proof fn law_decimal_digits(n: nat)
    ensures
        dec(n).len() > 0,
        decimal_says(dec(n), n as int),
        dec(n)[0] == '0' ==> n == 0 && dec(n).len() == 1,
    decreases n,
{
    if n < 10 {
        assert(dec(n).drop_last() == Seq::<char>::empty());
        assert(decimal_says(dec(n).drop_last(), 0));
        assert(dec(n).last() as int == '0' as int + n);
        assert(n as int / 10 == 0 && n as int % 10 == n);
    } else {
        law_decimal_digits(n / 10);
        assert(dec(n).drop_last() == dec(n / 10));
        assert(dec(n)[0] == dec(n / 10)[0]);
    }
}

/// Law: the line of an entry is the word of its status, its number in sixteen lowercase hexadecimal
/// digits, its identifiers with commas between them, and its moment in decimal, with tabs between these.
pub proof fn law_entry_line_form(e: EntryView) -> (h: Seq<char>)
    ensures
        h.len() == 16,
        hex_says(h, e.pid as int),
        entry_line(e) == (if e.status == EntryStatus::Exec {
            seq!['E', 'X', 'E', 'C']
        } else {
            seq!['W', 'A', 'I', 'T']
        }) + seq!['\t'] + h + seq!['\t'] + join(e.uuids, seq![',']) + seq!['\t'] + dec(
            e.timestamp as nat,
        ),
{
    reveal_strlit("EXEC");
    reveal_strlit("WAIT");
    reveal_strlit("\t");
    reveal_strlit(",");
    assert("\t"@ == seq!['\t'] && ","@ == seq![',']);
    assert("EXEC"@ == seq!['E', 'X', 'E', 'C'] && "WAIT"@ == seq!['W', 'A', 'I', 'T']);
    let h = hex_text(e.pid as nat, 16);
    assert(e.pid < vstd::arithmetic::power::pow(16, 16)) by {
        vstd::arithmetic::power::lemma_pow1(16);
        vstd::arithmetic::power::lemma_pow_adds(16, 1, 1);
        vstd::arithmetic::power::lemma_pow_adds(16, 2, 2);
        vstd::arithmetic::power::lemma_pow_adds(16, 4, 4);
        vstd::arithmetic::power::lemma_pow_adds(16, 8, 8);
        let a = vstd::arithmetic::power::pow(16, 2);
        let b = vstd::arithmetic::power::pow(16, 4);
        let c = vstd::arithmetic::power::pow(16, 8);
        assert(a * a == 65536) by (nonlinear_arith)
            requires
                a == 256,
        ;
        assert(b * b == 4294967296) by (nonlinear_arith)
            requires
                b == 65536,
        ;
        assert(c * c == 18446744073709551616) by (nonlinear_arith)
            requires
                c == 4294967296,
        ;
    }
    lemma_hex_says(e.pid as nat, 16);
    let word = if e.status == EntryStatus::Exec {
        seq!['E', 'X', 'E', 'C']
    } else {
        seq!['W', 'A', 'I', 'T']
    };
    assert(entry_line(e) == word + seq!['\t'] + h + seq!['\t'] + join(e.uuids, seq![',']) + seq!['\t']
        + dec(e.timestamp as nat));
    h
}

/// Law: a line of a lock file that has fewer than three tabs, or another first word than `EXEC` and
/// `WAIT`, counts for nothing, wherever it stands.
pub proof fn law_other_lines_ignored(ls: Seq<Seq<char>>, j: int, line: Seq<char>, i: int)
    requires
        0 <= i <= j <= ls.len(),
        split(line, '\t').len() < 4 || split(line, '\t')[0] != seq!['E', 'X', 'E', 'C'] && split(
            line,
            '\t',
        )[0] != seq!['W', 'A', 'I', 'T'],
    ensures
        entries_from(ls.insert(j, line), i) == entries_from(ls, i),
    decreases ls.len() - i,
{
    reveal_strlit("EXEC");
    reveal_strlit("WAIT");
    assert("EXEC"@ == seq!['E', 'X', 'E', 'C'] && "WAIT"@ == seq!['W', 'A', 'I', 'T']);
    let ms = ls.insert(j, line);
    if i == j {
        assert(ms[j] == line);
        assert(entry_of(line) is None);
        lemma_entries_shifted(ls, ms, i);
    } else {
        assert(ms[i] == ls[i]);
        law_other_lines_ignored(ls, j, line, i + 1);
    }
}

proof fn lemma_entries_shifted(ls: Seq<Seq<char>>, ms: Seq<Seq<char>>, i: int)
    requires
        0 <= i <= ls.len(),
        ms.len() == ls.len() + 1,
        forall|k: int| i <= k < ls.len() ==> #[trigger] ms[k + 1] == ls[k],
    ensures
        entries_from(ms, i + 1) == entries_from(ls, i),
    decreases ls.len() - i,
{
    if i < ls.len() {
        assert(ms[i + 1] == ls[i]);
        lemma_entries_shifted(ls, ms, i + 1);
    }
}

/// A name without separators and dots.
pub open spec fn plain_name(s: Seq<char>) -> bool {
    s.len() > 0 && forall|k: int| 0 <= k < s.len() ==> #[trigger] s[k] != '/' && s[k] != '.'
}

/// The path of a directory with no separator at its end, and no `.` as its last component.
pub open spec fn plain_dir(d: Seq<char>) -> bool {
    d.len() > 0 && d.last() != '/' && !(d.len() > 1 && d.last() == '.' && d[d.len() - 2] == '/')
}

proof fn lemma_name_start(p: Seq<char>, n: int)
    requires
        0 <= n <= p.len(),
        n == 0 || p[n - 1] == '/',
        forall|k: int| n <= k < p.len() ==> #[trigger] p[k] != '/',
    ensures
        name_start(p) == n,
    decreases p.len(),
{
    if p.len() > n {
        assert(p[p.len() - 1] != '/');
        lemma_name_start(p.drop_last(), n);
    } else if n > 0 {
        assert(p.last() == '/');
    }
}

proof fn lemma_last_dot(s: Seq<char>, n: int)
    requires
        0 <= n < s.len(),
        s[n] == '.',
        forall|k: int| n < k < s.len() ==> #[trigger] s[k] != '.',
    ensures
        last_dot(s) == n,
    decreases s.len(),
{
    if s.len() - 1 > n {
        assert(s[s.len() - 1] != '.');
        lemma_last_dot(s.drop_last(), n);
    }
}

proof fn lemma_no_dot(s: Seq<char>)
    requires
        forall|k: int| 0 <= k < s.len() ==> #[trigger] s[k] != '.',
    ensures
        last_dot(s) == 0,
    decreases s.len(),
{
    if s.len() > 0 {
        assert(s[s.len() - 1] != '.');
        lemma_no_dot(s.drop_last());
    }
}

/// Law: a file beside a database lies in the directory of the database, and has its name with the
/// suffix in place of the extension. Both with and without a directory, and for a database without an
/// extension.
pub proof fn law_companion_path(dir: Seq<char>, name: Seq<char>, ext: Seq<char>, suffix: Seq<char>)
    requires
        plain_dir(dir),
        plain_name(name),
        plain_name(ext),
    ensures
        companion(name + seq!['.'] + ext, suffix) == name + suffix,
        companion(name, suffix) == name + suffix,
        companion(dir + seq!['/'] + name + seq!['.'] + ext, suffix) == dir + seq!['/'] + name + suffix,
        companion(dir + seq!['/'] + name, suffix) == dir + seq!['/'] + name + suffix,
        companion(seq!['/'] + name + seq!['.'] + ext, suffix) == seq!['/'] + name + suffix,
{
    reveal_strlit("/");
    assert("/"@ == seq!['/']);
    let none = Seq::<char>::empty();
    let dotted = name + seq!['.'] + ext;
    lemma_companion_in(none, dotted, name, suffix);
    assert(none + dotted == dotted);
    lemma_companion_in(none, name, name, suffix);
    assert(none + name == name);
    let d = dir + seq!['/'];
    lemma_companion_in(d, dotted, name, suffix);
    assert(d + dotted == dir + seq!['/'] + name + seq!['.'] + ext);
    lemma_companion_in(d, name, name, suffix);
    let root = seq!['/'];
    lemma_companion_in(root, dotted, name, suffix);
    assert(root + dotted == seq!['/'] + name + seq!['.'] + ext);
    assert(trimmed_path(none) == none);
    assert(trimmed_path(root) == root);
    assert(d.drop_last() == dir);
    assert(trimmed_path(dir) == dir);
    assert(d.last() == '/' && d.len() > 1);
    assert(trimmed_path(d) == dir);
    assert(joined_path(dir, name + suffix) == dir + seq!['/'] + name + suffix);
    assert(joined_path(none, name + suffix) == name + suffix);
    assert(joined_path(root, name + suffix) == root + name + suffix);
}

proof fn lemma_companion_in(d: Seq<char>, full: Seq<char>, name: Seq<char>, suffix: Seq<char>)
    requires
        d.len() == 0 || d.last() == '/',
        plain_name(name),
        full == name || exists|ext: Seq<char>| plain_name(ext) && full == #[trigger] (name + seq!['.'] + ext),
    ensures
        companion(d + full, suffix) == joined_path(trimmed_path(d), name + suffix),
{
    reveal_strlit(".");
    reveal_strlit("..");
    let p = d + full;
    let n = d.len() as int;
    assert forall|k: int| 0 <= k < full.len() implies #[trigger] full[k] != '/' by {
        if full != name {
            let ext = choose|ext: Seq<char>| plain_name(ext) && full == #[trigger] (name + seq!['.'] + ext);
            if k < name.len() {
                assert(full[k] == name[k]);
            } else if k > name.len() {
                assert(full[k] == ext[k - name.len() - 1]);
            }
        }
    }
    assert(full.last() != '.') by {
        if full != name {
            let ext = choose|ext: Seq<char>| plain_name(ext) && full == #[trigger] (name + seq!['.'] + ext);
            assert(full.last() == ext[ext.len() - 1]);
        } else {
            assert(full.last() == name[name.len() - 1]);
        }
    }
    assert(p.last() == full.last());
    assert(full[full.len() - 1] != '/');
    assert(trimmed_path(p) == p);
    assert forall|k: int| n <= k < p.len() implies #[trigger] p[k] != '/' by {
        assert(p[k] == full[k - n]);
    }
    lemma_name_start(p, n);
    assert(last_component(p) == full);
    assert(full[0] == name[0]);
    assert(is_file_name(full));
    assert(p.take(n) == d);
    if full == name {
        lemma_no_dot(name);
        assert(stem(full) == name);
    } else {
        let ext = choose|ext: Seq<char>| plain_name(ext) && full == #[trigger] (name + seq!['.'] + ext);
        assert forall|k: int| name.len() < k < full.len() implies #[trigger] full[k] != '.' by {
            assert(full[k] == ext[k - name.len() - 1]);
        }
        lemma_last_dot(full, name.len() as int);
        assert(full.take(name.len() as int) == name);
        assert(stem(full) == name);
    }
}

} // verus!
