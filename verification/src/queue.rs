//! What holds of the queue of writers.
use crate::lock::{
    blocks, entries_from, entry_line, entry_lines, entry_of, first_waiting, fresh,
    number_or_zero, overlap, promoted, radix_digit, radix_value, refreshed, refuser, refuses, registered,
    released, started, status_text, uuids_of, EntryStatus, EntryView,
};
use crate::dotsv::unlines;
use crate::reload::{is_line, law_lines_unlines};
use crate::text::{dec, hex_text, join, lemma_split_append, lemma_split_join, lemma_split_single, lines, lower_hex, split};
use vstd::prelude::*;

verus! {

/// Whether no two entries share an identifier.
pub open spec fn disjoint(es: Seq<EntryView>) -> bool {
    forall|i: int, j: int, u: Seq<char>|
        0 <= i < es.len() && 0 <= j < es.len() && i != j && #[trigger] es[i].uuids.contains(u)
            ==> !(#[trigger] es[j].uuids.contains(u))
}

/// Whether no two entries have the same number.
pub open spec fn numbered(es: Seq<EntryView>) -> bool {
    forall|i: int, j: int|
        0 <= i < es.len() && 0 <= j < es.len() && i != j ==> (#[trigger] es[i]).pid != (
        #[trigger] es[j]).pid
}

/// Whether two entries that run would get in each other's way nowhere.
pub open spec fn running_apart(es: Seq<EntryView>) -> bool {
    forall|i: int, j: int|
        0 <= i < es.len() && 0 <= j < es.len() && i != j && (#[trigger] es[i]).status
            == EntryStatus::Exec && (#[trigger] es[j]).status == EntryStatus::Exec ==> !refuses(
            es[i],
            es[j].uuids,
        )
}

/// The places in `es` of what `part` keeps of it, in order.
pub open spec fn part_of(part: Seq<EntryView>, es: Seq<EntryView>) -> bool {
    exists|p: Seq<int>| #[trigger] picks(p, part, es)
}

pub open spec fn picks(p: Seq<int>, part: Seq<EntryView>, es: Seq<EntryView>) -> bool {
    p.len() == part.len() && (forall|i: int|
        0 <= i < p.len() ==> 0 <= #[trigger] p[i] < es.len() && part[i] == es[p[i]]) && (forall|
        i: int,
        j: int,
    |
        0 <= i < j < p.len() ==> #[trigger] p[i] < #[trigger] p[j])
}

proof fn lemma_picks_push(p: Seq<int>, part: Seq<EntryView>, es: Seq<EntryView>)
    requires
        es.len() > 0,
        picks(p, part, es.drop_last()),
    ensures
        picks(p, part, es),
        picks(p.push(es.len() - 1), part.push(es.last()), es),
{
}

/// Law: dropping stale entries keeps the others, in order, and no stale one.
pub proof fn law_fresh(es: Seq<EntryView>, now: u64)
    ensures
        part_of(fresh(es, now), es),
        forall|i: int| 0 <= i < fresh(es, now).len() ==> !(#[trigger] fresh(es, now)[i]).stale_at(now),
        forall|e: EntryView|
            #[trigger] fresh(es, now).contains(e) <==> es.contains(e) && !e.stale_at(now),
    decreases es.len(),
{
    let f = fresh(es, now);
    if es.len() == 0 {
        assert(picks(Seq::empty(), f, es));
    } else {
        let d = es.drop_last();
        let g = fresh(d, now);
        law_fresh(d, now);
        let p = choose|p: Seq<int>| #[trigger] picks(p, g, d);
        lemma_picks_push(p, g, es);
        if es.last().stale_at(now) {
            assert(picks(p, f, es));
        } else {
            assert(picks(p.push(es.len() - 1), f, es));
        }
        lemma_contains_push(d, es.last());
        lemma_contains_push(g, es.last());
        assert(d.push(es.last()) == es);
    }
}

proof fn lemma_contains_push(s: Seq<EntryView>, x: EntryView)
    ensures
        forall|e: EntryView| #[trigger] s.push(x).contains(e) <==> s.contains(e) || e == x,
{
    assert forall|e: EntryView| #[trigger] s.push(x).contains(e) <==> s.contains(e) || e == x by {
        if s.contains(e) {
            let k = choose|k: int| 0 <= k < s.len() && s[k] == e;
            assert(s.push(x)[k] == e);
        }
        if e == x {
            assert(s.push(x)[s.len() as int] == e);
        }
        if s.push(x).contains(e) {
            let k = choose|k: int| 0 <= k < s.push(x).len() && s.push(x)[k] == e;
            if k < s.len() {
                assert(s[k] == e);
            }
        }
    }
}

/// Law: an instance that leaves takes its own entries with it, and no other.
pub proof fn law_release(es: Seq<EntryView>, pid: u64)
    ensures
        part_of(released(es, pid), es),
        forall|e: EntryView|
            #[trigger] released(es, pid).contains(e) <==> es.contains(e) && e.pid != pid,
    decreases es.len(),
{
    let f = released(es, pid);
    if es.len() == 0 {
        assert(picks(Seq::empty(), f, es));
    } else {
        let d = es.drop_last();
        let g = released(d, pid);
        law_release(d, pid);
        let p = choose|p: Seq<int>| #[trigger] picks(p, g, d);
        lemma_picks_push(p, g, es);
        if es.last().pid == pid {
            assert(picks(p, f, es));
        } else {
            assert(picks(p.push(es.len() - 1), f, es));
        }
        lemma_contains_push(d, es.last());
        lemma_contains_push(g, es.last());
        assert(d.push(es.last()) == es);
    }
}

/// What holds of any two entries of a queue holds of any two of a part of it.
proof fn lemma_part(part: Seq<EntryView>, es: Seq<EntryView>)
    requires
        part_of(part, es),
    ensures
        disjoint(es) ==> disjoint(part),
        numbered(es) ==> numbered(part),
        running_apart(es) ==> running_apart(part),
{
    let p = choose|p: Seq<int>| #[trigger] picks(p, part, es);
    assert forall|i: int, j: int|
        0 <= i < part.len() && 0 <= j < part.len() && i != j implies #[trigger] p[i] != #[trigger] p[j] by {
        if i < j {
            assert(p[i] < p[j]);
        } else {
            assert(p[j] < p[i]);
        }
    }
    if disjoint(es) {
        assert forall|i: int, j: int, u: Seq<char>|
            0 <= i < part.len() && 0 <= j < part.len() && i != j
                && #[trigger] part[i].uuids.contains(u) implies !(
        #[trigger] part[j].uuids.contains(u)) by {
            assert(part[i] == es[p[i]] && part[j] == es[p[j]]);
            assert(es[p[i]].uuids.contains(u));
        }
    }
    if numbered(es) {
        assert forall|i: int, j: int|
            0 <= i < part.len() && 0 <= j < part.len() && i != j implies (#[trigger] part[i]).pid
            != (#[trigger] part[j]).pid by {
            assert(part[i] == es[p[i]] && part[j] == es[p[j]]);
        }
    }
    if running_apart(es) {
        assert forall|i: int, j: int|
            0 <= i < part.len() && 0 <= j < part.len() && i != j && (#[trigger] part[i]).status
                == EntryStatus::Exec && (#[trigger] part[j]).status
                == EntryStatus::Exec implies !refuses(part[i], part[j].uuids) by {
            assert(part[i] == es[p[i]] && part[j] == es[p[j]]);
        }
    }
}

proof fn lemma_refuser(es: Seq<EntryView>, ours: Seq<Seq<char>>, i: int)
    requires
        0 <= i <= es.len(),
    ensures
        match refuser(es, ours, i) {
            Some(e) => refuses(e, ours) && es.contains(e),
            None => forall|k: int| i <= k < es.len() ==> !refuses(#[trigger] es[k], ours),
        },
    decreases es.len() - i,
{
    if i < es.len() {
        if refuses(es[i], ours) {
            assert(es.contains(es[i]));
        } else {
            lemma_refuser(es, ours, i + 1);
        }
    }
}

/// Law: an instance is kept from joining if and only if an entry that is not stale holds one of its
/// identifiers, or all; else it waits behind those entries.
pub proof fn law_conflict(es: Seq<EntryView>, pid: u64, ours: Seq<Seq<char>>, now: u64)
    ensures
        registered(es, pid, ours, now) is Err <==> exists|i: int|
            0 <= i < es.len() && !(#[trigger] es[i]).stale_at(now) && refuses(es[i], ours),
        registered(es, pid, ours, now) matches Ok(q) ==> q.drop_last() == fresh(es, now) && q.last()
            == (EntryView { status: EntryStatus::Wait, pid, uuids: ours, timestamp: now }),
{
    let kept = fresh(es, now);
    law_fresh(es, now);
    lemma_refuser(kept, ours, 0);
    match refuser(kept, ours, 0) {
        Some(e) => {
            assert(kept.contains(e));
            assert(es.contains(e));
            let i = choose|i: int| 0 <= i < es.len() && es[i] == e;
            assert(!es[i].stale_at(now) && refuses(es[i], ours));
        },
        None => {
            assert forall|i: int| 0 <= i < es.len() && !(#[trigger] es[i]).stale_at(now) implies !refuses(
                es[i],
                ours,
            ) by {
                assert(es.contains(es[i]));
                assert(kept.contains(es[i]));
                let k = choose|k: int| 0 <= k < kept.len() && kept[k] == es[i];
                assert(!refuses(kept[k], ours));
            }
            let q = registered(es, pid, ours, now)->Ok_0;
            assert(q.drop_last() == kept);
        },
    }
}

/// Law: a conflict names the identifiers that both instances write, each once; all of the
/// newcomer's if the other writes all.
pub proof fn law_overlap(ours: Seq<Seq<char>>, theirs: Seq<Seq<char>>, n: int)
    requires
        0 <= n <= ours.len(),
    ensures
        overlap(ours, theirs, n).no_duplicates(),
        forall|u: Seq<char>|
            #[trigger] overlap(ours, theirs, n).contains(u) <==> ours.take(n).contains(u) && (
            theirs.len() == 0 || theirs.contains(u)),
    decreases n,
{
    let o = overlap(ours, theirs, n);
    if n > 0 {
        law_overlap(ours, theirs, n - 1);
        let d = overlap(ours, theirs, n - 1);
        let x = ours[n - 1];
        assert(ours.take(n) == ours.take(n - 1).push(x));
        assert forall|u: Seq<char>|
            #[trigger] o.contains(u) <==> ours.take(n).contains(u) && (theirs.len() == 0
                || theirs.contains(u)) by {
            let a = ours.take(n - 1);
            assert(a.push(x).contains(u) <==> a.contains(u) || u == x) by {
                lemma_text_contains_push(a, x, u);
            }
            lemma_text_contains_push(d, x, u);
            assert(d.contains(u) <==> a.contains(u) && (theirs.len() == 0 || theirs.contains(u)));
        }
        assert(o.no_duplicates());
    }
}

proof fn lemma_text_contains_push(s: Seq<Seq<char>>, x: Seq<char>, e: Seq<char>)
    ensures
        s.push(x).contains(e) <==> s.contains(e) || e == x,
{
    if s.contains(e) {
        let k = choose|k: int| 0 <= k < s.len() && s[k] == e;
        assert(s.push(x)[k] == e);
    }
    if e == x {
        assert(s.push(x)[s.len() as int] == e);
    }
    if s.push(x).contains(e) {
        let k = choose|k: int| 0 <= k < s.push(x).len() && s.push(x)[k] == e;
        if k < s.len() {
            assert(s[k] == e);
        }
    }
}

/// Law: joining keeps the queue sound: no two entries share an identifier, have one number or run
/// in each other's way.
pub proof fn law_register_keeps(es: Seq<EntryView>, pid: u64, ours: Seq<Seq<char>>, now: u64)
    requires
        disjoint(es),
        numbered(es),
        running_apart(es),
        forall|i: int| 0 <= i < es.len() ==> (#[trigger] es[i]).pid != pid,
    ensures
        registered(es, pid, ours, now) matches Ok(q) ==> disjoint(q) && numbered(q)
            && running_apart(q),
{
    if let Ok(q) = registered(es, pid, ours, now) {
        let kept = fresh(es, now);
        law_fresh(es, now);
        lemma_part(kept, es);
        lemma_refuser(kept, ours, 0);
        let last = EntryView { status: EntryStatus::Wait, pid, uuids: ours, timestamp: now };
        assert(q == kept.push(last));
        assert forall|k: int| 0 <= k < kept.len() implies (#[trigger] kept[k]).pid != pid by {
            assert(kept.contains(kept[k]));
            assert(es.contains(kept[k]));
        }
        assert forall|k: int, u: Seq<char>|
            0 <= k < kept.len() && #[trigger] kept[k].uuids.contains(u) implies !ours.contains(u) by {
            if ours.contains(u) {
                let m = choose|m: int| 0 <= m < ours.len() && ours[m] == u;
                assert(refuses(kept[k], ours));
            }
        }
        assert forall|i: int, j: int, u: Seq<char>|
            0 <= i < q.len() && 0 <= j < q.len() && i != j
                && #[trigger] q[i].uuids.contains(u) implies !(#[trigger] q[j].uuids.contains(
            u,
        )) by {
            if i < kept.len() && j < kept.len() {
                assert(q[i] == kept[i] && q[j] == kept[j]);
            } else if i < kept.len() {
                assert(kept[i].uuids.contains(u));
            } else if kept[j].uuids.contains(u) {
                assert(false);
            }
        }
    }
}

proof fn lemma_first_waiting(es: Seq<EntryView>, i: int) -> (k: int)
    requires
        0 <= i,
        first_waiting(es, i) is Some,
    ensures
        i <= k < es.len(),
        es[k].status == EntryStatus::Wait,
        Some(es[k].pid) == first_waiting(es, i),
        forall|m: int| i <= m < k ==> (#[trigger] es[m]).status == EntryStatus::Exec,
    decreases es.len() - i,
{
    if es[i].status == EntryStatus::Wait {
        i
    } else {
        lemma_first_waiting(es, i + 1)
    }
}

/// Law: a turn is given to the first that waits, and keeps the queue sound. What runs then was no
/// obstacle.
pub proof fn law_promote_keeps(es: Seq<EntryView>, pid: u64, ours: Seq<Seq<char>>, now: u64)
    requires
        disjoint(es),
        numbered(es),
        running_apart(es),
        forall|i: int| 0 <= i < es.len() && (#[trigger] es[i]).pid == pid ==> es[i].uuids == ours,
    ensures
        promoted(es, pid, ours, now) matches Some(q) ==> disjoint(q) && numbered(q)
            && running_apart(q) && exists|k: int|
            0 <= k < q.len() && (#[trigger] q[k]) == (EntryView {
                status: EntryStatus::Exec,
                pid,
                uuids: ours,
                timestamp: now,
            }),
{
    if let Some(q) = promoted(es, pid, ours, now) {
        let kept = fresh(es, now);
        law_fresh(es, now);
        lemma_part(kept, es);
        assert(q == Seq::new(kept.len(), |i: int| started(kept[i], pid, now)));
        let w = lemma_first_waiting(kept, 0);
        assert forall|k: int| 0 <= k < kept.len() && (#[trigger] kept[k]).pid == pid implies k == w
            && kept[k].uuids == ours by {
            assert(kept.contains(kept[k]));
            assert(es.contains(kept[k]));
        }
        assert(kept[w].pid == pid);
        assert forall|k: int| 0 <= k < kept.len() && k != w implies #[trigger] q[k] == kept[k] by {
            assert(kept[k].pid != kept[w].pid);
        }
        assert(q[w] == started(kept[w], pid, now));
        assert forall|k: int| 0 <= k < kept.len() implies (#[trigger] q[k]).uuids == kept[k].uuids
            && q[k].pid == kept[k].pid by {}
        assert forall|i: int, j: int, u: Seq<char>|
            0 <= i < q.len() && 0 <= j < q.len() && i != j
                && #[trigger] q[i].uuids.contains(u) implies !(#[trigger] q[j].uuids.contains(
            u,
        )) by {
            assert(kept[i].uuids.contains(u));
            assert(!kept[j].uuids.contains(u));
        }
        assert forall|i: int, j: int|
            0 <= i < q.len() && 0 <= j < q.len() && i != j && (#[trigger] q[i]).status
                == EntryStatus::Exec && (#[trigger] q[j]).status
                == EntryStatus::Exec implies !refuses(q[i], q[j].uuids) by {
            if i != w && j != w {
                assert(q[i] == kept[i] && q[j] == kept[j]);
            } else if i != w {
                assert(!blocks(kept[i], ours));
            } else {
                assert(!blocks(kept[j], ours));
                assert(ours.len() > 0);
                assert forall|m: int| 0 <= m < kept[j].uuids.len() implies !ours.contains(
                    #[trigger] kept[j].uuids[m],
                ) by {
                    if ours.contains(kept[j].uuids[m]) {
                        let u = kept[j].uuids[m];
                        let n = choose|n: int| 0 <= n < ours.len() && ours[n] == u;
                        assert(kept[j].uuids.contains(ours[n]));
                        assert(refuses(kept[j], ours));
                    }
                }
            }
        }
    }
}

/// Law: a sign of life changes nothing but the moment of the running instance's entry.
pub proof fn law_refresh_keeps(es: Seq<EntryView>, pid: u64, now: u64)
    ensures
        refreshed(es, pid, now).len() == es.len(),
        forall|i: int|
            0 <= i < es.len() ==> (#[trigger] refreshed(es, pid, now)[i]).pid == es[i].pid && refreshed(
                es,
                pid,
                now,
            )[i].status == es[i].status && refreshed(es, pid, now)[i].uuids == es[i].uuids,
        disjoint(es) ==> disjoint(refreshed(es, pid, now)),
        numbered(es) ==> numbered(refreshed(es, pid, now)),
        running_apart(es) ==> running_apart(refreshed(es, pid, now)),
        forall|i: int|
            0 <= i < es.len() && (#[trigger] es[i]).pid == pid && es[i].status == EntryStatus::Exec
                ==> !refreshed(es, pid, now)[i].stale_at(now),
{
    let q = refreshed(es, pid, now);
    if disjoint(es) {
        assert forall|i: int, j: int, u: Seq<char>|
            0 <= i < q.len() && 0 <= j < q.len() && i != j
                && #[trigger] q[i].uuids.contains(u) implies !(#[trigger] q[j].uuids.contains(
            u,
        )) by {
            assert(es[i].uuids.contains(u));
            assert(!es[j].uuids.contains(u));
        }
    }
}

/// Law: leaving keeps the queue sound.
pub proof fn law_release_keeps(es: Seq<EntryView>, pid: u64)
    requires
        disjoint(es),
        numbered(es),
        running_apart(es),
    ensures
        disjoint(released(es, pid)),
        numbered(released(es, pid)),
        running_apart(released(es, pid)),
{
    law_release(es, pid);
    lemma_part(released(es, pid), es);
}

/// Law: instances that write different identifiers run at the same time: the first that waits is
/// given its turn as soon as nothing that runs shares an identifier with it.
pub proof fn law_disjoint_run(es: Seq<EntryView>, pid: u64, ours: Seq<Seq<char>>, now: u64)
    requires
        ours.len() > 0,
        first_waiting(fresh(es, now), 0) == Some(pid),
        forall|i: int, u: Seq<char>|
            0 <= i < es.len() && es[i].status == EntryStatus::Exec && #[trigger] ours.contains(u)
                ==> !(#[trigger] es[i].uuids.contains(u)),
        forall|i: int| 0 <= i < es.len() ==> (#[trigger] es[i]).uuids.len() > 0,
    ensures
        promoted(es, pid, ours, now) is Some,
{
    let kept = fresh(es, now);
    law_fresh(es, now);
    assert forall|k: int| 0 <= k < kept.len() implies !blocks(#[trigger] kept[k], ours) by {
        assert(kept.contains(kept[k]));
        assert(es.contains(kept[k]));
        let i = choose|i: int| 0 <= i < es.len() && es[i] == kept[k];
        if blocks(kept[k], ours) {
            let m = choose|m: int| 0 <= m < ours.len() && kept[k].uuids.contains(#[trigger] ours[m]);
            assert(ours.contains(ours[m]));
        }
    }
}

/// Law: an instance that writes all waits until nothing runs.
pub proof fn law_all_waits_for_all(es: Seq<EntryView>, pid: u64, now: u64, i: int)
    requires
        0 <= i < es.len(),
        es[i].status == EntryStatus::Exec,
        !es[i].stale_at(now),
    ensures
        promoted(es, pid, Seq::empty(), now) is None,
{
    let kept = fresh(es, now);
    law_fresh(es, now);
    assert(es.contains(es[i]));
    assert(kept.contains(es[i]));
    let k = choose|k: int| 0 <= k < kept.len() && kept[k] == es[i];
    assert(blocks(kept[k], Seq::empty()));
}

/// Whether a lock file can hold an entry.
pub open spec fn storable(e: EntryView) -> bool {
    e.uuids != seq![Seq::<char>::empty()] && forall|i: int|
        0 <= i < e.uuids.len() ==> !(#[trigger] e.uuids[i]).contains(',') && !e.uuids[i].contains(
            '\t',
        ) && !e.uuids[i].contains('\n')
}

proof fn lemma_hex_text(n: nat, w: nat)
    requires
        n < vstd::arithmetic::power::pow(16, w),
    ensures
        hex_text(n, w).len() == w,
        radix_value(hex_text(n, w), 16) == Some(n),
        forall|i: int|
            0 <= i < w ==> (#[trigger] hex_text(n, w)[i]) != '\t' && hex_text(n, w)[i] != '\n'
                && hex_text(n, w)[i] != '+',
    decreases w,
{
    vstd::arithmetic::power::lemma_pow0(16);
    if w > 0 {
        let v = (w - 1) as nat;
        let d = n % 16;
        vstd::arithmetic::power::lemma_pow_adds(16, 1, v);
        vstd::arithmetic::power::lemma_pow1(16);
        lemma_hex_text(n / 16, v);
        let h = hex_text(n, w);
        assert(h.drop_last() == hex_text(n / 16, v));
        assert(h.last() == lower_hex(d as int));
        assert(radix_digit(lower_hex(d as int), 16) == Some(d));
        assert forall|i: int| 0 <= i < w implies (#[trigger] h[i]) != '\t' && h[i] != '\n' && h[i]
            != '+' by {
            if i < v {
                assert(h[i] == hex_text(n / 16, v)[i]);
            }
        }
    }
}

proof fn lemma_dec_text(n: nat)
    ensures
        dec(n).len() > 0,
        radix_value(dec(n), 10) == Some(n),
        forall|i: int| 0 <= i < dec(n).len() ==> '0' <= (#[trigger] dec(n)[i]) && dec(n)[i] <= '9',
    decreases n,
{
    let s = dec(n);
    let d = if n < 10 {
        n
    } else {
        n % 10
    };
    let c = ('0' as u32 + d) as char;
    assert(s.last() == c);
    assert(radix_digit(c, 10) == Some(d));
    if n < 10 {
        assert(s.drop_last() == Seq::<char>::empty());
        assert(radix_value(s.drop_last(), 10) == Some(0nat));
    } else {
        lemma_dec_text(n / 10);
        assert(s.drop_last() == dec(n / 10));
        assert forall|i: int| 0 <= i < s.len() implies '0' <= (#[trigger] s[i]) && s[i] <= '9' by {
            if i < dec(n / 10).len() {
                assert(s[i] == dec(n / 10)[i]);
            }
        }
    }
}

proof fn lemma_join_without(p: Seq<Seq<char>>, c: char)
    requires
        c != ',',
        forall|i: int| 0 <= i < p.len() ==> !(#[trigger] p[i]).contains(c),
    ensures
        !join(p, ","@).contains(c),
    decreases p.len(),
{
    reveal_strlit(",");
    let s = join(p, ","@);
    if p.len() > 1 {
        let q = p.drop_last();
        assert forall|i: int| 0 <= i < q.len() implies !(#[trigger] q[i]).contains(c) by {
            assert(q[i] == p[i]);
        }
        lemma_join_without(q, c);
        if s.contains(c) {
            let k = choose|k: int| 0 <= k < s.len() && s[k] == c;
            let a = join(q, ","@);
            if k < a.len() {
                assert(a[k] == c);
            } else if k == a.len() {
                assert(s[k] == ',');
            } else {
                assert(p.last()[k - a.len() - 1] == c);
                assert(p[p.len() - 1].contains(c));
            }
        }
    } else if p.len() == 1 {
        assert(s == p[0]);
    }
}

proof fn lemma_join_empty(p: Seq<Seq<char>>)
    requires
        join(p, ","@).len() == 0,
    ensures
        p.len() == 0 || p == seq![Seq::<char>::empty()],
{
    reveal_strlit(",");
    if p.len() == 1 {
        assert(p[0] == Seq::<char>::empty());
        assert(p == seq![Seq::<char>::empty()]);
    }
}

proof fn lemma_entry_line(e: EntryView)
    requires
        storable(e),
    ensures
        entry_of(entry_line(e)) == Some(e),
        is_line(entry_line(e)),
{
    reveal_strlit("EXEC");
    reveal_strlit("WAIT");
    reveal_strlit("\t");
    reveal_strlit(",");
    let word = status_text(e.status);
    let pid = hex_text(e.pid as nat, 16);
    let us = join(e.uuids, ","@);
    let ts = dec(e.timestamp as nat);
    let line = entry_line(e);
    let tab = seq!['\t'];
    assert("\t"@ == tab);
    assert(","@ == seq![',']);
    assert(e.pid < vstd::arithmetic::power::pow(16, 16)) by {
        reveal_with_fuel(vstd::arithmetic::power::pow, 17);
    }
    lemma_hex_text(e.pid as nat, 16);
    lemma_dec_text(e.timestamp as nat);
    lemma_join_without(e.uuids, '\t');
    lemma_join_without(e.uuids, '\n');
    assert(!word.contains('\t'));
    assert(!word.contains('\n'));
    assert(!pid.contains('\t'));
    assert(!ts.contains('\t'));
    assert(line == word + tab + pid + tab + us + tab + ts);
    lemma_split_single(word, '\t');
    lemma_split_append(word, '\t', pid);
    lemma_split_append(word + tab + pid, '\t', us);
    lemma_split_append(word + tab + pid + tab + us, '\t', ts);
    let parts = split(line, '\t');
    assert(parts == seq![word].push(pid).push(us).push(ts));
    assert("EXEC"@[0] != "WAIT"@[0]);
    assert(number_or_zero(pid, 16) == e.pid);
    assert(number_or_zero(ts, 10) == e.timestamp);
    if e.uuids.len() == 0 {
        assert(us.len() == 0);
        assert(uuids_of(us) == e.uuids);
    } else {
        if us.len() == 0 {
            lemma_join_empty(e.uuids);
        }
        lemma_split_join(e.uuids, ',');
    }
    assert(entry_of(line) == Some(e));
    assert(line.last() == ts.last());
    assert(!line.contains('\n')) by {
        if line.contains('\n') {
            let k = choose|k: int| 0 <= k < line.len() && line[k] == '\n';
            let a = word.len() as int;
            let b = a + 1 + pid.len();
            let c = b + 1 + us.len();
            if k < a {
                assert(word[k] == '\n');
            } else if a < k < b {
                assert(pid[k - a - 1] == '\n');
            } else if b < k < c {
                assert(us[k - b - 1] == '\n');
            } else if k > c {
                assert(ts[k - c - 1] == '\n');
            }
        }
    }
}

proof fn lemma_entries(es: Seq<EntryView>, i: int)
    requires
        0 <= i <= es.len(),
        forall|k: int| 0 <= k < es.len() ==> storable(#[trigger] es[k]),
    ensures
        entries_from(entry_lines(es), i) == es.skip(i),
    decreases es.len() - i,
{
    if i < es.len() {
        lemma_entry_line(es[i]);
        lemma_entries(es, i + 1);
        assert(es.skip(i) == seq![es[i]] + es.skip(i + 1));
    } else {
        assert(es.skip(i) == Seq::<EntryView>::empty());
    }
}

/// Law: a lock file is read back as it was written.
pub proof fn law_lock_file_round_trip(es: Seq<EntryView>)
    requires
        forall|k: int| 0 <= k < es.len() ==> storable(#[trigger] es[k]),
    ensures
        entries_from(lines(unlines(entry_lines(es))), 0) == es,
{
    let ls = entry_lines(es);
    assert forall|i: int| 0 <= i < ls.len() implies is_line(#[trigger] ls[i]) by {
        lemma_entry_line(es[i]);
    }
    law_lines_unlines(ls);
    lemma_entries(es, 0);
    assert(es.skip(0) == es);
}

} // verus!
