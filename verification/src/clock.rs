//! Moments: the seconds since 1970, and the fourteen digits in which files carry them.
use crate::text::{dec, dec_of};
use vstd::prelude::*;

verus! {

/// The type of moments of the system's clock, `std::time::SystemTime`.
#[verifier::external_type_specification]
#[verifier::external_body]
pub struct ExSystemTime(std::time::SystemTime);

/// `std::time::SystemTime::now`: the moment by the system's clock. Nothing is promised of it.
pub assume_specification[ std::time::SystemTime::now ]() -> (r: std::time::SystemTime)
;

/// `std::time::Duration::as_secs`: the whole seconds of a duration. Durations are opaque here, so
/// nothing is said of the number.
pub assume_specification[ core::time::Duration::as_secs ](d: &core::time::Duration) -> (r: u64)
;

/// `std::time::SystemTime::duration_since` with the start of 1970: the time that has passed since
/// then, or nothing for a moment before it. Moments are opaque here, so nothing is said of which.
#[verifier::external_body]
fn since_epoch(t: std::time::SystemTime) -> (r: Option<core::time::Duration>) {
    t.duration_since(std::time::UNIX_EPOCH).ok()
}

/// The seconds since 1970 by the system's clock; 0 if the clock stands before that.
pub(crate) fn unix_secs() -> (r: u64) {
    match since_epoch(std::time::SystemTime::now()) {
        Some(d) => epoch_secs(Some(d.as_secs())),
        None => epoch_secs(None),
    }
}

/// The seconds since 1970 by what a clock says has passed: 0 if it stands before that.
pub fn epoch_secs(passed: Option<u64>) -> (r: u64)
    ensures
        r == match passed {
            Some(n) => n,
            None => 0,
        },
{
    match passed {
        Some(n) => n,
        None => 0,
    }
}

/// Whether a year has 366 days.
pub open spec fn is_leap(y: nat) -> bool {
    y % 4 == 0 && (y % 100 != 0 || y % 400 == 0)
}

/// The number of days of a year.
pub open spec fn year_len(y: nat) -> nat {
    if is_leap(y) {
        366
    } else {
        365
    }
}

/// The number of days of a month.
pub open spec fn month_len(y: nat, m: nat) -> nat {
    if m == 2 {
        if is_leap(y) {
            29
        } else {
            28
        }
    } else if m == 4 || m == 6 || m == 9 || m == 11 {
        30
    } else {
        31
    }
}

/// The days of the years before `y`, from year 0 on.
pub open spec fn days_before_year(y: nat) -> nat
    decreases y,
{
    if y == 0 {
        0
    } else {
        days_before_year((y - 1) as nat) + year_len((y - 1) as nat)
    }
}

/// The days of the months of year `y` before month `m`.
pub open spec fn days_before_month(y: nat, m: nat) -> nat
    decreases m,
{
    if m <= 1 {
        0
    } else {
        days_before_month(y, (m - 1) as nat) + month_len(y, (m - 1) as nat)
    }
}

/// A calendar date.
pub struct Date {
    pub year: u64,
    pub month: u64,
    pub day: u64,
}

impl Date {
    /// Whether there is such a day.
    pub open spec fn valid(self) -> bool {
        1 <= self.month <= 12 && 1 <= self.day <= month_len(self.year as nat, self.month as nat)
    }

    /// The number of days from the first day of year 0 to this one.
    pub open spec fn number(self) -> int {
        days_before_year(self.year as nat) + days_before_month(self.year as nat, self.month as nat)
            + self.day - 1
    }
}

/// The number of the first day of 1970.
pub const EPOCH_DAY: u64 = 719528;

/// `n` in decimal with at least `w` digits.
pub open spec fn zero_padded(n: nat, w: nat) -> Seq<char> {
    let d = dec(n);
    Seq::new(if d.len() < w { (w - d.len()) as nat } else { 0 }, |i: int| '0') + d
}

/// A date and a second of its day as `YYYYDDMMhhmmss`.
pub open spec fn stamp_text(date: Date, second: nat) -> Seq<char> {
    zero_padded(date.year as nat, 4) + zero_padded(date.day as nat, 2) + zero_padded(
        date.month as nat,
        2,
    ) + (zero_padded(second / 3600, 2) + zero_padded(second / 60 % 60, 2) + zero_padded(
        second % 60,
        2,
    ))
}

fn leap(y: u64) -> (r: bool)
    ensures
        r == is_leap(y as nat),
{
    y % 4 == 0 && (y % 100 != 0 || y % 400 == 0)
}

fn len_of_month(y: u64, m: u64) -> (r: u64)
    ensures
        r == month_len(y as nat, m as nat),
{
    if m == 2 {
        if leap(y) {
            29
        } else {
            28
        }
    } else if m == 4 || m == 6 || m == 9 || m == 11 {
        30
    } else {
        31
    }
}

proof fn lemma_months(y: nat)
    ensures
        days_before_month(y, 13) == year_len(y),
{
    reveal_with_fuel(days_before_month, 14);
}

/// The date whose number is `day`.
pub fn date_of(day: u64) -> (r: Date)
    ensures
        r.valid(),
        r.number() == day,
{
    let mut year: u64 = 0;
    let mut rest: u64 = day;
    loop
        invariant_except_break
            days_before_year(year as nat) + rest == day,
            year <= day - rest,
        ensures
            days_before_year(year as nat) + rest == day,
            rest < year_len(year as nat),
        decreases rest,
    {
        let n: u64 = if leap(year) {
            366
        } else {
            365
        };
        if rest < n {
            break;
        }
        rest -= n;
        year += 1;
    }
    let mut month: u64 = 1;
    while month < 12 && rest >= len_of_month(year, month)
        invariant
            1 <= month <= 12,
            days_before_year(year as nat) + days_before_month(year as nat, month as nat) + rest
                == day,
            days_before_month(year as nat, month as nat) + rest < year_len(year as nat),
        decreases 12 - month,
    {
        rest -= len_of_month(year, month);
        month += 1;
    }
    proof {
        lemma_months(year as nat);
        assert(days_before_month(year as nat, 13) == days_before_month(year as nat, 12) + month_len(
            year as nat,
            12,
        ));
    }
    Date { year, month, day: rest + 1 }
}

/// `n` in decimal with at least `w` digits.
pub(crate) fn zero_pad(n: u64, w: usize) -> (r: String)
    ensures
        r@ == zero_padded(n as nat, w as nat),
{
    let d = dec_of(n);
    let len: usize = crate::text::chars_of(d.as_str()).len();
    let mut r = String::new();
    let mut k: usize = len;
    while k < w
        invariant
            len <= k,
            k <= w || k == len,
            r@ == Seq::new((k - len) as nat, |i: int| '0'),
        decreases w - k,
    {
        r.push('0');
        assert(r@ == Seq::new((k + 1 - len) as nat, |i: int| '0'));
        k += 1;
    }
    r.push_str(d.as_str());
    assert(r@ == zero_padded(n as nat, w as nat));
    r
}

/// Whether a text is the moment `n` seconds after the start of 1970 as `YYYYDDMMhhmmss`.
pub open spec fn is_stamp(s: Seq<char>, n: int) -> bool {
    exists|date: Date|
        #![trigger date.number()]
        date.valid() && date.number() == EPOCH_DAY + n / 86400 && s == stamp_text(
            date,
            (n % 86400) as nat,
        )
}

/// The current moment by the system's clock, `offset` seconds east of UTC, as `YYYYDDMMhhmmss`.
pub fn timestamp_now(offset: i64) -> (r: String)
    requires
        -86400 <= offset <= 86400,
    ensures
        exists|secs: u64| is_stamp(r@, #[trigger] (secs + offset)),
{
    let secs: u64 = unix_secs();
    timestamp(secs, offset)
}

/// The moment `secs` seconds after the start of 1970, `offset` seconds east of UTC, as
/// `YYYYDDMMhhmmss`.
pub fn timestamp(secs: u64, offset: i64) -> (r: String)
    requires
        -86400 <= offset <= 86400,
    ensures
        is_stamp(r@, secs + offset),
{
    let local: i128 = EPOCH_DAY as i128 * 86400 + secs as i128 + offset as i128;
    let day: u64 = (local / 86400) as u64;
    let second: u64 = (local % 86400) as u64;
    assert(day == EPOCH_DAY + (secs + offset) / 86400);
    assert(second == (secs + offset) % 86400);
    let date = date_of(day);
    let left = crate::text::cat3(
        zero_pad(date.year, 4).as_str(),
        zero_pad(date.day, 2).as_str(),
        zero_pad(date.month, 2).as_str(),
    );
    let right = crate::text::cat3(
        zero_pad(second / 3600, 2).as_str(),
        zero_pad(second / 60 % 60, 2).as_str(),
        zero_pad(second % 60, 2).as_str(),
    );
    let r = crate::text::cat2(left.as_str(), right.as_str());
    assert(date.number() == day);
    assert(r@ == stamp_text(date, second as nat));
    r
}

proof fn lemma_years_increase(a: nat, b: nat)
    requires
        a < b,
    ensures
        days_before_year(a) + year_len(a) <= days_before_year(b),
    decreases b,
{
    if a + 1 < b {
        lemma_years_increase(a, (b - 1) as nat);
    }
}

proof fn lemma_months_increase(y: nat, a: nat, b: nat)
    requires
        1 <= a < b,
    ensures
        days_before_month(y, a) + month_len(y, a) <= days_before_month(y, b),
    decreases b,
{
    if a + 1 < b {
        lemma_months_increase(y, a, (b - 1) as nat);
    }
}

/// Law: each day has one date.
pub proof fn law_one_date_per_day(a: Date, b: Date)
    requires
        a.valid(),
        b.valid(),
        a.number() == b.number(),
    ensures
        a == b,
{
    lemma_months(a.year as nat);
    lemma_months(b.year as nat);
    lemma_months_increase(a.year as nat, a.month as nat, 13);
    lemma_months_increase(b.year as nat, b.month as nat, 13);
    if a.year < b.year {
        lemma_years_increase(a.year as nat, b.year as nat);
    } else if b.year < a.year {
        lemma_years_increase(b.year as nat, a.year as nat);
    }
    if a.month < b.month {
        lemma_months_increase(a.year as nat, a.month as nat, b.month as nat);
    } else if b.month < a.month {
        lemma_months_increase(a.year as nat, b.month as nat, a.month as nat);
    }
}

} // verus!
