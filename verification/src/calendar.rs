//! What the calendar and the order of texts are, and where the lines of a text end.
use crate::clock::{
    days_before_month, days_before_year, is_stamp, month_len, stamp_text, year_len, Date, EPOCH_DAY,
};
use crate::text::{bytes_lt, lines, raw_lines, split, text_lines, trim_end};
use vstd::prelude::*;

verus! {

/// Law: a year has 365 days, and one more in every fourth year, but not in the hundredth unless it is
/// the four hundredth: this many days lie before the year `y`.
pub proof fn law_days_before_year(y: nat)
    ensures
        days_before_year(y) == 365 * y + (y + 3) / 4 - (y + 99) / 100 + (y + 399) / 400,
    decreases y,
{
    if y > 0 {
        law_days_before_year((y - 1) as nat);
    }
}

/// Law: the months of a year start behind these many days of it, and a year ends with its December.
pub proof fn law_month_starts(y: nat)
    ensures
        ({
            let leap: nat = if y % 4 == 0 && (y % 100 != 0 || y % 400 == 0) {
                1
            } else {
                0
            };
            &&& days_before_month(y, 1) == 0
            &&& days_before_month(y, 2) == 31
            &&& days_before_month(y, 3) == 59 + leap
            &&& days_before_month(y, 4) == 90 + leap
            &&& days_before_month(y, 5) == 120 + leap
            &&& days_before_month(y, 6) == 151 + leap
            &&& days_before_month(y, 7) == 181 + leap
            &&& days_before_month(y, 8) == 212 + leap
            &&& days_before_month(y, 9) == 243 + leap
            &&& days_before_month(y, 10) == 273 + leap
            &&& days_before_month(y, 11) == 304 + leap
            &&& days_before_month(y, 12) == 334 + leap
            &&& days_before_month(y, 13) == 365 + leap
            &&& year_len(y) == 365 + leap
        }),
{
    reveal_with_fuel(days_before_month, 14);
}

/// Law: the first moment of 1970 starts the first day of January of that year.
pub proof fn law_epoch(d: Date)
    requires
        d.valid(),
    ensures
        d.number() == EPOCH_DAY <==> d.year == 1970 && d.month == 1 && d.day == 1,
{
    law_days_before_year(1970);
    law_month_starts(1970);
    let e = Date { year: 1970, month: 1, day: 1 };
    assert(e.number() == EPOCH_DAY);
    if d.number() == EPOCH_DAY {
        crate::clock::law_one_date_per_day(d, e);
    }
}

/// Law: the day behind a day is the next of its month, or the first of the next month, or the first of
/// the next year.
pub proof fn law_next_day(d: Date, e: Date)
    requires
        d.valid(),
        e.valid(),
        d.year < u64::MAX,
    ensures
        e.number() == d.number() + 1 <==> if d.day < month_len(d.year as nat, d.month as nat) {
            e == (Date { year: d.year, month: d.month, day: (d.day + 1) as u64 })
        } else if d.month < 12 {
            e == (Date { year: d.year, month: (d.month + 1) as u64, day: 1 })
        } else {
            e == (Date { year: (d.year + 1) as u64, month: 1, day: 1 })
        },
{
    let y = d.year as nat;
    let n = if d.day < month_len(y, d.month as nat) {
        Date { year: d.year, month: d.month, day: (d.day + 1) as u64 }
    } else if d.month < 12 {
        Date { year: d.year, month: (d.month + 1) as u64, day: 1 }
    } else {
        Date { year: (d.year + 1) as u64, month: 1, day: 1 }
    };
    law_month_starts(y);
    law_month_starts(y + 1);
    if d.day == month_len(y, d.month as nat) {
        if d.month < 12 {
            assert(days_before_month(y, d.month as nat + 1) == days_before_month(y, d.month as nat)
                + month_len(y, d.month as nat));
        } else {
            assert(days_before_month(y, 13) == days_before_month(y, 12) + month_len(y, 12));
            assert(days_before_year(y + 1) == days_before_year(y) + year_len(y));
        }
    }
    assert(n.valid());
    assert(n.number() == d.number() + 1);
    if e.number() == d.number() + 1 {
        crate::clock::law_one_date_per_day(e, n);
    }
}

/// Law: a moment is written in one way only.
pub proof fn law_stamp_of_moment(s: Seq<char>, t: Seq<char>, n: int)
    requires
        is_stamp(s, n),
        is_stamp(t, n),
    ensures
        s == t,
{
    let a = choose|a: Date|
        #![trigger a.number()]
        a.valid() && a.number() == EPOCH_DAY + n / 86400 && s == stamp_text(a, (n % 86400) as nat);
    let b = choose|b: Date|
        #![trigger b.number()]
        b.valid() && b.number() == EPOCH_DAY + n / 86400 && t == stamp_text(b, (n % 86400) as nat);
    crate::clock::law_one_date_per_day(a, b);
}

/// The first place where two byte sequences differ, or where one of them ends.
pub open spec fn parts_at(a: Seq<u8>, b: Seq<u8>, i: int) -> bool {
    &&& 0 <= i <= a.len()
    &&& i <= b.len()
    &&& forall|k: int| 0 <= k < i ==> #[trigger] a[k] == b[k]
    &&& i == a.len() || i == b.len() || a[i] != b[i]
}

/// Law: of two texts the one comes first that ends at the first difference of their bytes or has the
/// smaller byte there.
pub proof fn law_first_difference(a: Seq<u8>, b: Seq<u8>, i: int)
    requires
        parts_at(a, b, i),
    ensures
        bytes_lt(a, b) <==> i < b.len() && (i == a.len() || a[i] < b[i]),
    decreases i,
{
    if i > 0 {
        let x = a.skip(1);
        let y = b.skip(1);
        assert(a[0] == b[0]);
        assert forall|k: int| 0 <= k < i - 1 implies #[trigger] x[k] == y[k] by {
            assert(a[k + 1] == b[k + 1]);
        }
        law_first_difference(x, y, i - 1);
    }
}

/// A text without a line feed or a carriage return.
pub open spec fn unbroken(s: Seq<char>) -> bool {
    forall|k: int| 0 <= k < s.len() ==> #[trigger] s[k] != '\n' && s[k] != '\r'
}

/// Lines, each with an ending: a line feed, with a carriage return before it where `crs` says so.
pub open spec fn ended(ls: Seq<Seq<char>>, crs: Seq<bool>) -> Seq<char>
    decreases ls.len(),
{
    if ls.len() == 0 {
        Seq::empty()
    } else {
        ended(ls.drop_last(), crs) + ls.last() + if crs[ls.len() - 1] {
            seq!['\r', '\n']
        } else {
            seq!['\n']
        }
    }
}

/// The pieces before the line feeds.
spec fn pieces(ls: Seq<Seq<char>>, crs: Seq<bool>) -> Seq<Seq<char>> {
    Seq::new(
        ls.len(),
        |i: int|
            if crs[i] {
                ls[i].push('\r')
            } else {
                ls[i]
            },
    )
}

proof fn lemma_split_at_end(a: Seq<char>, b: Seq<char>)
    requires
        split(a, '\n').last().len() == 0,
        !b.contains('\n'),
    ensures
        split(a + b, '\n') == split(a, '\n').drop_last().push(b),
    decreases b.len(),
{
    crate::text::lemma_split_nonempty(a, '\n');
    if b.len() == 0 {
        assert(a + b == a);
        assert(split(a, '\n').last() == b);
    } else {
        let c = b.drop_last();
        assert(!c.contains('\n')) by {
            if c.contains('\n') {
                let k = choose|k: int| 0 <= k < c.len() && c[k] == '\n';
                assert(b[k] == '\n');
            }
        }
        lemma_split_at_end(a, c);
        assert((a + b).drop_last() == a + c);
        assert((a + b).last() == b.last());
        assert(b.last() != '\n') by {
            assert(b.contains(b[b.len() - 1]));
        }
        let p = split(a, '\n').drop_last().push(c);
        assert(p.drop_last() == split(a, '\n').drop_last());
        assert(p.last().push(b.last()) == b);
    }
}

proof fn lemma_split_ended(ls: Seq<Seq<char>>, crs: Seq<bool>)
    requires
        crs.len() >= ls.len(),
        forall|i: int| 0 <= i < ls.len() ==> unbroken(#[trigger] ls[i]),
    ensures
        split(ended(ls, crs), '\n') == pieces(ls, crs).push(Seq::empty()),
    decreases ls.len(),
{
    if ls.len() == 0 {
        assert(pieces(ls, crs).push(Seq::empty()) == seq![Seq::<char>::empty()]);
    } else {
        let d = ls.drop_last();
        let n = ls.len() - 1;
        assert forall|i: int| 0 <= i < d.len() implies unbroken(#[trigger] d[i]) by {
            assert(d[i] == ls[i]);
        }
        lemma_split_ended(d, crs);
        let a = ended(d, crs);
        let piece = pieces(ls, crs)[n];
        assert(unbroken(ls[n]));
        assert(!piece.contains('\n'));
        lemma_split_at_end(a, piece);
        let t = a + piece;
        let s = ended(ls, crs);
        assert(s == t.push('\n'));
        assert(s.drop_last() == t && s.last() == '\n');
        assert(pieces(d, crs).push(Seq::empty()).drop_last() == pieces(d, crs));
        assert(pieces(ls, crs) == pieces(d, crs).push(piece));
    }
}

proof fn lemma_trim_end_piece(s: Seq<char>)
    requires
        unbroken(s),
    ensures
        trim_end(s, '\r') == s,
        trim_end(s.push('\r'), '\r') == s,
{
    assert(s.push('\r').drop_last() == s);
    assert(s.push('\r').last() == '\r');
    if s.len() > 0 {
        assert(s[s.len() - 1] != '\r');
    }
}

/// Law: the lines of a text are what stands before its line endings, each a line feed alone or with a
/// carriage return before it; what stands behind the last ending is a line too, unless it is empty.
pub proof fn law_lines_of_text(ls: Seq<Seq<char>>, crs: Seq<bool>, tail: Seq<char>)
    requires
        crs.len() == ls.len(),
        forall|i: int| 0 <= i < ls.len() ==> unbroken(#[trigger] ls[i]),
        unbroken(tail),
    ensures
        lines(ended(ls, crs) + tail) == if tail.len() == 0 {
            ls
        } else {
            ls.push(tail)
        },
        text_lines(ended(ls, crs) + tail) == if tail.len() == 0 {
            ls
        } else {
            ls.push(tail)
        },
{
    let a = ended(ls, crs);
    let s = a + tail;
    let ps = pieces(ls, crs);
    lemma_split_ended(ls, crs);
    assert(ps.push(Seq::empty()).drop_last() == ps);
    assert(!tail.contains('\n'));
    lemma_split_at_end(a, tail);
    assert(split(s, '\n') == ps.push(tail));
    assert(ps.push(tail).drop_last() == ps);
    let want = if tail.len() == 0 {
        ls
    } else {
        ls.push(tail)
    };
    let raw = raw_lines(s);
    assert(raw == if tail.len() == 0 {
        ps
    } else {
        ps.push(tail)
    });
    assert forall|i: int| 0 <= i < want.len() implies #[trigger] lines(s)[i] == want[i] && text_lines(
        s,
    )[i] == want[i] by {
        if i < ls.len() {
            lemma_trim_end_piece(ls[i]);
            assert(raw[i] == ps[i]);
            assert(ls[i].push('\r').drop_last() == ls[i]);
            if ls[i].len() > 0 {
                assert(ls[i][ls[i].len() - 1] != '\r');
            }
        } else {
            lemma_trim_end_piece(tail);
        }
    }
    assert(lines(s) =~= want);
    assert(text_lines(s) =~= want);
}

} // verus!
