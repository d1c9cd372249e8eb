//! Which values are numbers, moments and booleans, said by how they are written.
use crate::clock::{stamp_text, zero_padded, Date};
use crate::keytype::{
    class_of, digits_end, is_dec, numeric_shape, pair_at, timestamp_shape, unsigned_shape, KtType,
};
use crate::numorder::{digits_value, mantissa, scale};
use crate::order::{frac_part, has_sign, int_part, norm_of, unsigned};
use crate::records::{json_char, json_inner, json_string, json_value};
use crate::error::ErrorView;
use crate::text::dec;
use vstd::prelude::*;

verus! {

/// The character of a digit.
pub open spec fn digit(n: int) -> char {
    (48 + n) as char
}

/// Whether a string is made of decimal digits.
pub open spec fn digits_only(s: Seq<char>) -> bool {
    forall|i: int| 0 <= i < s.len() ==> '0' <= #[trigger] s[i] && s[i] <= '9'
}

/// A decimal number as it is written: a sign if it is negative, the digits before the dot, and, if
/// there are any, a dot and the digits behind it.
pub open spec fn decimal_text(neg: bool, i: Seq<char>, f: Seq<char>) -> Seq<char> {
    (if neg {
        seq!['-']
    } else {
        Seq::empty()
    }) + i + (if f.len() > 0 {
        seq!['.'] + f
    } else {
        Seq::empty()
    })
}

/// Whether digits can stand before and behind the dot: there is one before it, and no zero leads
/// others.
pub open spec fn decimal_digits(i: Seq<char>, f: Seq<char>) -> bool {
    &&& i.len() > 0
    &&& digits_only(i)
    &&& digits_only(f)
    &&& i.len() > 1 ==> i[0] != '0'
}

/// Whether a string is a decimal number with at most `n` digits before its dot.
pub open spec fn is_decimal(s: Seq<char>, n: nat) -> bool {
    exists|neg: bool, i: Seq<char>, f: Seq<char>|
        s == #[trigger] decimal_text(neg, i, f) && decimal_digits(i, f) && i.len() <= n
}

proof fn lemma_digits_run(s: Seq<char>, from: int, to: int)
    requires
        0 <= from <= to <= s.len(),
        forall|k: int| from <= k < to ==> '0' <= #[trigger] s[k] && s[k] <= '9',
        to < s.len() ==> !('0' <= s[to] && s[to] <= '9'),
    ensures
        digits_end(s, from) == to,
    decreases to - from,
{
    if from < to {
        lemma_digits_run(s, from + 1, to);
    }
}

proof fn lemma_run_digits(s: Seq<char>, from: int)
    requires
        0 <= from <= s.len(),
    ensures
        from <= digits_end(s, from) <= s.len(),
        forall|k: int| from <= k < digits_end(s, from) ==> '0' <= #[trigger] s[k] && s[k] <= '9',
    decreases s.len() - from,
{
    if from < s.len() && is_dec(s[from]) {
        lemma_run_digits(s, from + 1);
        assert forall|k: int| from <= k < digits_end(s, from) implies '0' <= #[trigger] s[k] && s[k]
            <= '9' by {
            if k > from {
                assert('0' <= s[k]);
            }
        }
    }
}

/// Law: a number that is written in decimal is taken apart into its sign and its digits, and has
/// their value.
pub proof fn law_decimal_parts(neg: bool, i: Seq<char>, f: Seq<char>)
    requires
        decimal_digits(i, f),
    ensures
        ({
            let s = decimal_text(neg, i, f);
            &&& numeric_shape(s)
            &&& has_sign(s) == neg
            &&& int_part(s) == i
            &&& frac_part(s) == f
            &&& scale(s) == f.len()
            &&& mantissa(s) == if neg {
                -(digits_value(i + f) as int)
            } else {
                digits_value(i + f) as int
            }
        }),
{
    let s = decimal_text(neg, i, f);
    let t = i + (if f.len() > 0 {
        seq!['.'] + f
    } else {
        Seq::empty()
    });
    let n = i.len() as int;
    if neg {
        assert(s == seq!['-'] + t);
        assert(s[0] == '-');
        assert(s.skip(1) == t);
    } else {
        assert(s == t);
        assert(s[0] == i[0]);
        assert('0' <= i[0]);
    }
    assert(unsigned(s) == t);
    assert forall|k: int| 0 <= k < n implies '0' <= #[trigger] t[k] && t[k] <= '9' by {
        assert(t[k] == i[k]);
    }
    if f.len() > 0 {
        assert(t[n] == '.');
        assert forall|k: int| n + 1 <= k < t.len() implies '0' <= #[trigger] t[k] && t[k] <= '9' by {
            assert(t[k] == f[k - n - 1]);
        }
        lemma_digits_run(t, n + 1, t.len() as int);
        assert(t.skip(n + 1) == f);
    } else {
        assert(t == i);
        assert(f == Seq::<char>::empty());
    }
    lemma_digits_run(t, 0, n);
    assert(t.take(n) == i);
    assert(t[0] == i[0]);
    assert(unsigned_shape(t));
}

/// Law: what counts as a number is exactly what is written in decimal.
pub proof fn law_decimal_shape(s: Seq<char>)
    ensures
        numeric_shape(s) <==> exists|neg: bool, i: Seq<char>, f: Seq<char>|
            s == #[trigger] decimal_text(neg, i, f) && decimal_digits(i, f),
{
    if numeric_shape(s) {
        let neg = s.len() > 0 && s[0] == '-';
        let t = if neg {
            s.skip(1)
        } else {
            s
        };
        let d = digits_end(t, 0);
        lemma_run_digits(t, 0);
        let i = t.take(d);
        let f = if d == t.len() {
            Seq::<char>::empty()
        } else {
            t.skip(d + 1)
        };
        assert(digits_only(i)) by {
            assert forall|k: int| 0 <= k < i.len() implies '0' <= #[trigger] i[k] && i[k] <= '9' by {
                assert(i[k] == t[k]);
            }
        }
        if d < t.len() {
            lemma_run_digits(t, d + 1);
            assert(digits_only(f)) by {
                assert forall|k: int| 0 <= k < f.len() implies '0' <= #[trigger] f[k] && f[k] <= '9' by {
                    assert(f[k] == t[d + 1 + k]);
                }
            }
            assert(t == i + (seq!['.'] + f));
        } else {
            assert(t == i + Seq::<char>::empty());
        }
        if neg {
            assert(s == seq!['-'] + t);
        }
        assert(s == decimal_text(neg, i, f));
        assert(decimal_digits(i, f));
    }
    if exists|neg: bool, i: Seq<char>, f: Seq<char>|
        s == #[trigger] decimal_text(neg, i, f) && decimal_digits(i, f) {
        let (neg, i, f) = choose|neg: bool, i: Seq<char>, f: Seq<char>|
            s == #[trigger] decimal_text(neg, i, f) && decimal_digits(i, f);
        law_decimal_parts(neg, i, f);
    }
}

/// Law: a string has a sortable form exactly if it is a decimal number with at most 9999 digits
/// before its dot.
pub proof fn law_sortable_exactly(s: Seq<char>)
    ensures
        norm_of(s) is Some <==> is_decimal(s, 9999),
{
    reveal_strlit("0");
    law_decimal_shape(s);
    if numeric_shape(s) {
        let (neg, i, f) = choose|neg: bool, i: Seq<char>, f: Seq<char>|
            s == #[trigger] decimal_text(neg, i, f) && decimal_digits(i, f);
        law_decimal_parts(neg, i, f);
        if is_decimal(s, 9999) {
            let (neg2, i2, f2) = choose|neg2: bool, i2: Seq<char>, f2: Seq<char>|
                s == #[trigger] decimal_text(neg2, i2, f2) && decimal_digits(i2, f2) && i2.len()
                    <= 9999;
            law_decimal_parts(neg2, i2, f2);
            assert(i == i2);
        }
        if i.len() <= 9999 {
            assert(is_decimal(s, 9999));
        }
    } else if is_decimal(s, 9999) {
        let (neg, i, f) = choose|neg: bool, i: Seq<char>, f: Seq<char>|
            s == #[trigger] decimal_text(neg, i, f) && decimal_digits(i, f) && i.len() <= 9999;
        law_decimal_parts(neg, i, f);
    }
}

/// A number below a hundred in two digits.
pub open spec fn two(n: int) -> Seq<char> {
    seq![digit(n / 10), digit(n % 10)]
}

/// A number below ten thousand in four digits.
pub open spec fn four(n: int) -> Seq<char> {
    two(n / 100) + two(n % 100)
}

/// Year, day, month, hour, minute and second in fourteen digits.
pub open spec fn moment_text(y: int, d: int, m: int, hour: int, minute: int, second: int) -> Seq<char> {
    four(y) + two(d) + two(m) + (two(hour) + two(minute) + two(second))
}

/// Whether numbers are those of a moment.
pub open spec fn moment_parts(y: int, d: int, m: int, hour: int, minute: int, second: int) -> bool {
    0 <= y <= 9999 && 1 <= d <= 31 && 1 <= m <= 12 && 0 <= hour <= 23 && 0 <= minute <= 59 && 0
        <= second <= 59
}

/// Whether a string is written as a moment.
pub open spec fn is_moment(s: Seq<char>) -> bool {
    exists|y: int, d: int, m: int, hour: int, minute: int, second: int|
        s == #[trigger] moment_text(y, d, m, hour, minute, second) && moment_parts(
            y,
            d,
            m,
            hour,
            minute,
            second,
        )
}

proof fn lemma_two(s: Seq<char>, i: int)
    requires
        0 <= i,
        i + 1 < s.len(),
        is_dec(s[i]),
        is_dec(s[i + 1]),
    ensures
        0 <= pair_at(s, i) <= 99,
        s[i] == digit(pair_at(s, i) / 10),
        s[i + 1] == digit(pair_at(s, i) % 10),
{
    let a = s[i] as int - '0' as int;
    let b = s[i + 1] as int - '0' as int;
    assert(0 <= a <= 9 && 0 <= b <= 9);
    assert((a * 10 + b) / 10 == a);
    assert((a * 10 + b) % 10 == b);
    lemma_digit_char(s[i]);
    lemma_digit_char(s[i + 1]);
}

proof fn lemma_digit_char(c: char)
    requires
        is_dec(c),
    ensures
        digit(c as int - '0' as int) == c,
{
}

proof fn lemma_digit(n: int)
    requires
        0 <= n <= 9,
    ensures
        is_dec(digit(n)),
        digit(n) as int - '0' as int == n,
        digit(n) as u32 == 48 + n,
{
}

proof fn lemma_pair_two(s: Seq<char>, i: int, n: int)
    requires
        0 <= n <= 99,
        0 <= i,
        i + 1 < s.len(),
        s[i] == digit(n / 10),
        s[i + 1] == digit(n % 10),
    ensures
        pair_at(s, i) == n,
        is_dec(s[i]),
        is_dec(s[i + 1]),
{
    lemma_digit(n / 10);
    lemma_digit(n % 10);
}

proof fn lemma_moment_chars(y: int, d: int, m: int, hour: int, minute: int, second: int)
    requires
        moment_parts(y, d, m, hour, minute, second),
    ensures
        ({
            let s = moment_text(y, d, m, hour, minute, second);
            &&& s.len() == 14
            &&& forall|k: int| 0 <= k < 14 ==> is_dec(#[trigger] s[k])
            &&& pair_at(s, 0) == y / 100 && pair_at(s, 2) == y % 100
            &&& pair_at(s, 4) == d && pair_at(s, 6) == m
            &&& pair_at(s, 8) == hour && pair_at(s, 10) == minute && pair_at(s, 12) == second
        }),
{
    let s = moment_text(y, d, m, hour, minute, second);
    lemma_pair_two(s, 0, y / 100);
    lemma_pair_two(s, 2, y % 100);
    lemma_pair_two(s, 4, d);
    lemma_pair_two(s, 6, m);
    lemma_pair_two(s, 8, hour);
    lemma_pair_two(s, 10, minute);
    lemma_pair_two(s, 12, second);
}

/// Law: a value counts as a moment exactly if it is a year in four digits, and a day of at most 31,
/// a month of at most 12, an hour below 24, a minute and a second below 60, each in two.
pub proof fn law_moment_shape(s: Seq<char>)
    ensures
        timestamp_shape(s) <==> is_moment(s),
{
    if timestamp_shape(s) {
        assert forall|k: int| 0 <= k < 14 implies is_dec(#[trigger] s[k]) by {}
        lemma_two(s, 0);
        lemma_two(s, 2);
        lemma_two(s, 4);
        lemma_two(s, 6);
        lemma_two(s, 8);
        lemma_two(s, 10);
        lemma_two(s, 12);
        let y = pair_at(s, 0) * 100 + pair_at(s, 2);
        assert(y / 100 == pair_at(s, 0) && y % 100 == pair_at(s, 2));
        let t = moment_text(
            y,
            pair_at(s, 4),
            pair_at(s, 6),
            pair_at(s, 8),
            pair_at(s, 10),
            pair_at(s, 12),
        );
        assert(s =~= t);
        assert(moment_parts(
            y,
            pair_at(s, 4),
            pair_at(s, 6),
            pair_at(s, 8),
            pair_at(s, 10),
            pair_at(s, 12),
        ));
    }
    if is_moment(s) {
        let (y, d, m, hour, minute, second) = choose|
            y: int,
            d: int,
            m: int,
            hour: int,
            minute: int,
            second: int,
        |
            s == #[trigger] moment_text(y, d, m, hour, minute, second) && moment_parts(
                y,
                d,
                m,
                hour,
                minute,
                second,
            );
        lemma_moment_chars(y, d, m, hour, minute, second);
    }
}

proof fn lemma_padded_two(n: nat)
    requires
        n <= 99,
    ensures
        zero_padded(n, 2) == two(n as int),
{
    reveal_with_fuel(dec, 3);
    assert(zero_padded(n, 2) =~= two(n as int));
}

proof fn lemma_padded_four(n: nat)
    requires
        n <= 9999,
    ensures
        zero_padded(n, 4) == four(n as int),
{
    reveal_with_fuel(dec, 5);
    assert(n / 10 / 10 == n / 100 && n / 10 / 10 / 10 == n / 1000);
    assert(n as int / 100 / 10 == n as int / 1000 && (n as int / 100) % 10 == (n as int / 10 / 10) % 10);
    assert((n as int % 100) / 10 == (n as int / 10) % 10 && (n as int % 100) % 10 == n as int % 10);
    assert(zero_padded(n, 4) =~= four(n as int));
}

/// Law: a moment is written as its year, day, month, hour, minute and second.
pub proof fn law_stamp_digits(date: Date, hour: nat, minute: nat, second: nat)
    requires
        date.valid(),
        date.year <= 9999,
        hour < 24,
        minute < 60,
        second < 60,
    ensures
        stamp_text(date, hour * 3600 + minute * 60 + second) == moment_text(
            date.year as int,
            date.day as int,
            date.month as int,
            hour as int,
            minute as int,
            second as int,
        ),
{
    let n = hour * 3600 + minute * 60 + second;
    assert(n / 3600 == hour);
    assert(n / 60 == hour * 60 + minute);
    assert(n / 60 % 60 == minute);
    assert(n % 60 == second);
    lemma_padded_four(date.year as nat);
    lemma_padded_two(date.day as nat);
    lemma_padded_two(date.month as nat);
    lemma_padded_two(hour);
    lemma_padded_two(minute);
    lemma_padded_two(second);
}

proof fn lemma_inner_digits(s: Seq<char>)
    requires
        forall|k: int| 0 <= k < s.len() ==> stands_for_itself(#[trigger] s[k]),
    ensures
        json_inner(s) == s,
    decreases s.len(),
{
    if s.len() > 0 {
        let d = s.drop_last();
        assert forall|k: int| 0 <= k < d.len() implies stands_for_itself(#[trigger] d[k]) by {
            assert(d[k] == s[k]);
        }
        lemma_inner_digits(d);
        let c = s[s.len() - 1];
        assert(stands_for_itself(c));
        lemma_own_char(c);
        assert(d + seq![c] == s);
    }
}

proof fn lemma_own_char(c: char)
    requires
        stands_for_itself(c),
    ensures
        json_char(c) == seq![c],
{
}

/// Whether a character stands for itself in a JSON string.
pub open spec fn stands_for_itself(c: char) -> bool {
    c as u32 >= 32 && c != '"' && c != '\\'
}

/// Law: text without quotes, backslashes and control characters is written in JSON as it is, between
/// quotes.
pub proof fn law_json_plain_text(s: Seq<char>)
    requires
        forall|k: int| 0 <= k < s.len() ==> stands_for_itself(#[trigger] s[k]),
    ensures
        json_string(s) == seq!['"'] + s + seq!['"'],
{
    reveal_strlit("\"");
    assert("\""@ == seq!['"']);
    lemma_inner_digits(s);
}

/// Law: every moment that the program writes counts as a moment, and is written in JSON as it is,
/// between quotes.
pub proof fn law_stamp_is_moment(date: Date, second: nat)
    requires
        date.valid(),
        date.year <= 9999,
        second < 86400,
    ensures
        class_of(stamp_text(date, second)) == KtType::Timestamp,
        json_value(stamp_text(date, second)) == Ok::<Seq<char>, ErrorView>(
            seq!['"'] + stamp_text(date, second) + seq!['"'],
        ),
{
    let s = stamp_text(date, second);
    let hour = second / 3600;
    let minute = second / 60 % 60;
    let sec = second % 60;
    assert(hour < 24);
    assert(second == hour * 3600 + minute * 60 + sec);
    law_stamp_digits(date, hour, minute, sec);
    assert(moment_parts(
        date.year as int,
        date.day as int,
        date.month as int,
        hour as int,
        minute as int,
        sec as int,
    ));
    lemma_moment_chars(
        date.year as int,
        date.day as int,
        date.month as int,
        hour as int,
        minute as int,
        sec as int,
    );
    assert(is_moment(s));
    law_moment_shape(s);
    assert(is_dec(s[0]));
    assert forall|k: int| 0 <= k < s.len() implies stands_for_itself(#[trigger] s[k]) by {
        assert(is_dec(s[k]));
    }
    law_json_plain_text(s);
}

/// Law: the type of a value by how it is written: what is enclosed in brackets is an array; of the
/// rest, moments are timestamps, the two words are booleans, decimal numbers are numbers, and all
/// else is a string.
pub proof fn law_class_exactly(s: Seq<char>)
    ensures
        ({
            let bracketed = s.len() >= 2 && s[0] == '[' && s[s.len() - 1] == ']';
            let word = s == seq!['t', 'r', 'u', 'e'] || s == seq!['f', 'a', 'l', 's', 'e'];
            let number = exists|neg: bool, i: Seq<char>, f: Seq<char>|
                s == #[trigger] decimal_text(neg, i, f) && decimal_digits(i, f);
            &&& class_of(s) == KtType::Array <==> bracketed
            &&& class_of(s) == KtType::Timestamp <==> is_moment(s)
            &&& class_of(s) == KtType::Boolean <==> word
            &&& class_of(s) == KtType::Number <==> number && !is_moment(s)
            &&& class_of(s) == KtType::String <==> !bracketed && !is_moment(s) && !word && !number
        }),
{
    reveal_strlit("true");
    reveal_strlit("false");
    assert("true"@ == seq!['t', 'r', 'u', 'e']);
    assert("false"@ == seq!['f', 'a', 'l', 's', 'e']);
    law_moment_shape(s);
    law_decimal_shape(s);
    let word = s == seq!['t', 'r', 'u', 'e'] || s == seq!['f', 'a', 'l', 's', 'e'];
    if word {
        assert(s[0] == 't' || s[0] == 'f');
    }
    if timestamp_shape(s) {
        assert(is_dec(s[0]));
    }
    if numeric_shape(s) {
        let (neg, i, f) = choose|neg: bool, i: Seq<char>, f: Seq<char>|
            s == #[trigger] decimal_text(neg, i, f) && decimal_digits(i, f);
        assert(s[0] == '-' || is_dec(s[0])) by {
            if !neg {
                assert(s[0] == i[0]);
            }
        }
    }
}

} // verus!
