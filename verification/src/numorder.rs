//! Law of the numeric index: the order of sortable forms is the order of numbers.
use crate::clock::zero_padded;
use crate::keytype::{all_digits, digits_end, is_dec, numeric_shape};
use crate::order::{
    complement, complemented, dotted, frac_part, has_sign, int_part, norm_of, unsigned,
};
use crate::text::{dec, str_lt, trim_end};
use vstd::prelude::*;
use vstd::utf8::*;

verus! {

/// The digits of a number are digits.
pub proof fn lemma_dec_digits(n: nat)
    ensures
        all_digits(dec(n)),
        dec(n).len() >= 1,
    decreases n,
{
    if n >= 10 {
        lemma_dec_digits(n / 10);
        let d = dec(n / 10);
        assert forall|i: int| 0 <= i < dec(n).len() implies is_dec(#[trigger] dec(n)[i]) by {
            if i < d.len() {
                assert(dec(n)[i] == d[i]);
            }
        }
    }
}

/// Ten to the power `n`.
pub open spec fn pow10(n: nat) -> nat
    decreases n,
{
    if n == 0 {
        1
    } else {
        10 * pow10((n - 1) as nat)
    }
}

/// The value of a digit.
pub open spec fn digit_value(c: char) -> nat {
    (c as u32 - '0' as u32) as nat
}

/// The number that digits make.
pub open spec fn digits_value(s: Seq<char>) -> nat
    decreases s.len(),
{
    if s.len() == 0 {
        0
    } else {
        digits_value(s.drop_last()) * 10 + digit_value(s.last())
    }
}

/// A decimal number as an integer, with the dot left out.
pub open spec fn mantissa(s: Seq<char>) -> int {
    let m = digits_value(int_part(s) + frac_part(s)) as int;
    if has_sign(s) {
        -m
    } else {
        m
    }
}

/// How many digits of a decimal number stand behind the dot.
pub open spec fn scale(s: Seq<char>) -> nat {
    frac_part(s).len()
}

/// Whether the number `a` is less than the number `b`: both taken as fractions of powers of ten.
pub open spec fn num_lt(a: Seq<char>, b: Seq<char>) -> bool {
    mantissa(a) * pow10(scale(b)) < mantissa(b) * pow10(scale(a))
}

/// Whether two numbers are equal.
pub open spec fn num_eq(a: Seq<char>, b: Seq<char>) -> bool {
    mantissa(a) * pow10(scale(b)) == mantissa(b) * pow10(scale(a))
}

/// Lexicographic order by the codes of characters.
pub open spec fn lex(a: Seq<char>, b: Seq<char>) -> bool
    decreases a.len(),
{
    if b.len() == 0 {
        false
    } else if a.len() == 0 {
        true
    } else if a[0] != b[0] {
        a[0] < b[0]
    } else {
        lex(a.skip(1), b.skip(1))
    }
}

/// For ASCII strings the order of strings is the order by codes.
pub proof fn lemma_lex_ascii(a: Seq<char>, b: Seq<char>)
    requires
        is_ascii_chars(a),
        is_ascii_chars(b),
    ensures
        str_lt(a, b) == lex(a, b),
    decreases a.len(),
{
    is_ascii_chars_encode_utf8(a);
    is_ascii_chars_encode_utf8(b);
    let x = encode_utf8(a);
    let y = encode_utf8(b);
    if a.len() > 0 && b.len() > 0 {
        assert(x[0] == a[0] as u8);
        assert(y[0] == b[0] as u8);
        let a1 = a.skip(1);
        let b1 = b.skip(1);
        assert forall|i| 0 <= i < a1.len() implies '\0' <= #[trigger] a1[i] <= '\u{7f}' by {
            assert(a1[i] == a[i + 1]);
        }
        assert forall|i| 0 <= i < b1.len() implies '\0' <= #[trigger] b1[i] <= '\u{7f}' by {
            assert(b1[i] == b[i + 1]);
        }
        lemma_lex_ascii(a1, b1);
        assert(a1 == a.drop_first() && b1 == b.drop_first());
        crate::text::lemma_lead_byte(a[0]);
        crate::text::lemma_lead_byte(b[0]);
        assert(x == seq![a[0] as u8] + encode_utf8(a1));
        assert(y == seq![b[0] as u8] + encode_utf8(b1));
        assert(x.skip(1) == encode_utf8(a1));
        assert(y.skip(1) == encode_utf8(b1));
    }
}

proof fn lemma_lex_same_head(p: Seq<char>, a: Seq<char>, b: Seq<char>)
    ensures
        lex(p + a, p + b) == lex(a, b),
    decreases p.len(),
{
    if p.len() == 0 {
        assert(p + a == a && p + b == b);
    } else {
        lemma_lex_same_head(p.skip(1), a, b);
        assert((p + a).skip(1) == p.skip(1) + a);
        assert((p + b).skip(1) == p.skip(1) + b);
    }
}

/// Two different strings of one length decide the order, whatever follows.
proof fn lemma_lex_decided(p: Seq<char>, q: Seq<char>, a: Seq<char>, b: Seq<char>)
    requires
        p.len() == q.len(),
        p != q,
    ensures
        lex(p + a, q + b) == lex(p, q),
    decreases p.len(),
{
    if p.len() == 0 {
        assert(p == q);
    } else {
        assert((p + a).skip(1) == p.skip(1) + a);
        assert((q + b).skip(1) == q.skip(1) + b);
        if p[0] == q[0] {
            if p.skip(1) == q.skip(1) {
                assert(p == seq![p[0]] + p.skip(1));
                assert(q == seq![q[0]] + q.skip(1));
            }
            lemma_lex_decided(p.skip(1), q.skip(1), a, b);
        }
    }
}

proof fn lemma_lex_total(a: Seq<char>, b: Seq<char>)
    ensures
        lex(a, b) || lex(b, a) || a == b,
        !(lex(a, b) && lex(b, a)),
        !lex(a, a),
    decreases a.len(),
{
    if a.len() > 0 {
        lemma_lex_total(a.skip(1), a.skip(1));
        if b.len() > 0 {
            lemma_lex_total(a.skip(1), b.skip(1));
            if a[0] == b[0] && a.skip(1) == b.skip(1) {
                assert(a == seq![a[0]] + a.skip(1));
                assert(b == seq![b[0]] + b.skip(1));
            }
        }
    } else if b.len() == 0 {
        assert(a == b);
    }
}

proof fn lemma_pow10_positive(n: nat)
    ensures
        pow10(n) >= 1,
    decreases n,
{
    if n > 0 {
        lemma_pow10_positive((n - 1) as nat);
    }
}

proof fn lemma_pow10_monotone(a: nat, b: nat)
    requires
        a <= b,
    ensures
        pow10(a) <= pow10(b),
    decreases b,
{
    if a < b {
        lemma_pow10_monotone(a, (b - 1) as nat);
    }
}

proof fn lemma_value_append(a: Seq<char>, b: Seq<char>)
    ensures
        digits_value(a + b) == digits_value(a) * pow10(b.len()) + digits_value(b),
    decreases b.len(),
{
    if b.len() == 0 {
        assert(a + b == a);
        assert(pow10(0) == 1);
        assert(digits_value(a) * 1 == digits_value(a)) by (nonlinear_arith);
    } else {
        let d = b.drop_last();
        lemma_value_append(a, d);
        assert((a + b).drop_last() == a + d);
        assert((a + b).last() == b.last());
        let x = digits_value(a);
        let p = pow10(d.len());
        assert(pow10(b.len()) == 10 * p);
        assert((x * p) * 10 == x * (10 * p)) by (nonlinear_arith);
        assert(digits_value(a + b) == (x * p + digits_value(d)) * 10 + digit_value(b.last()));
    }
}

/// `n` zeros.
pub open spec fn zeros(n: nat) -> Seq<char> {
    Seq::new(n, |i: int| '0')
}

proof fn lemma_zeros_value(n: nat)
    ensures
        digits_value(zeros(n)) == 0,
    decreases n,
{
    if n > 0 {
        lemma_zeros_value((n - 1) as nat);
        assert(zeros(n).drop_last() == zeros((n - 1) as nat));
    }
}

/// Zeros behind a number multiply it.
proof fn lemma_value_scaled(a: Seq<char>, n: nat)
    ensures
        digits_value(a + zeros(n)) == digits_value(a) * pow10(n),
{
    lemma_value_append(a, zeros(n));
    lemma_zeros_value(n);
}

proof fn lemma_value_bound(a: Seq<char>)
    requires
        all_digits(a),
    ensures
        digits_value(a) < pow10(a.len()),
    decreases a.len(),
{
    if a.len() > 0 {
        let d = a.drop_last();
        assert forall|i: int| 0 <= i < d.len() implies is_dec(#[trigger] d[i]) by {
            assert(d[i] == a[i]);
        }
        assert(is_dec(a[a.len() - 1]));
        lemma_value_bound(d);
    }
}

proof fn lemma_value_front(a: Seq<char>)
    requires
        a.len() > 0,
    ensures
        digits_value(a) == digit_value(a[0]) * pow10((a.len() - 1) as nat) + digits_value(a.skip(1)),
{
    assert(a == seq![a[0]] + a.skip(1));
    lemma_value_append(seq![a[0]], a.skip(1));
    assert(seq![a[0]].drop_last() == Seq::<char>::empty());
    assert(digits_value(Seq::<char>::empty()) == 0);
    assert(digits_value(seq![a[0]]) == digit_value(a[0]));
}

proof fn lemma_skip_digits(a: Seq<char>)
    requires
        all_digits(a),
        a.len() > 0,
    ensures
        all_digits(a.skip(1)),
{
    assert forall|i: int| 0 <= i < a.skip(1).len() implies is_dec(#[trigger] a.skip(1)[i]) by {
        assert(a.skip(1)[i] == a[i + 1]);
    }
}

/// Of two digit strings of one length the greater in order is the greater number.
proof fn lemma_value_lex(a: Seq<char>, b: Seq<char>)
    requires
        a.len() == b.len(),
        all_digits(a),
        all_digits(b),
    ensures
        digits_value(a) < digits_value(b) <==> lex(a, b),
    decreases a.len(),
{
    if a.len() > 0 {
        lemma_value_front(a);
        lemma_value_front(b);
        lemma_skip_digits(a);
        lemma_skip_digits(b);
        lemma_value_lex(a.skip(1), b.skip(1));
        lemma_value_bound(a.skip(1));
        lemma_value_bound(b.skip(1));
        assert(is_dec(a[0]) && is_dec(b[0]));
        let p = pow10((a.len() - 1) as nat) as int;
        let x = digit_value(a[0]) as int;
        let y = digit_value(b[0]) as int;
        if x < y {
            assert((x + 1) * p <= y * p) by (nonlinear_arith)
                requires
                    x + 1 <= y,
                    p >= 0,
            ;
            assert((x + 1) * p == x * p + p) by (nonlinear_arith);
        } else if y < x {
            assert((y + 1) * p <= x * p) by (nonlinear_arith)
                requires
                    y + 1 <= x,
                    p >= 0,
            ;
            assert((y + 1) * p == y * p + p) by (nonlinear_arith);
        } else {
            assert(a[0] == b[0]);
        }
    }
}

/// Of two digit strings the longer one, if it has no leading zero, is the greater number.
proof fn lemma_value_longer(a: Seq<char>, b: Seq<char>)
    requires
        a.len() < b.len(),
        all_digits(a),
        all_digits(b),
        b[0] != '0',
    ensures
        digits_value(a) < digits_value(b),
{
    lemma_value_bound(a);
    lemma_value_front(b);
    assert(is_dec(b[0]));
    lemma_pow10_monotone(a.len(), (b.len() - 1) as nat);
    let p = pow10((b.len() - 1) as nat) as int;
    let y = digit_value(b[0]) as int;
    assert(y * p >= p) by (nonlinear_arith)
        requires
            y >= 1,
            p >= 0,
    ;
}

/// The trailing zeros of a fraction do not change its order.
proof fn lemma_trimmed_order(fa: Seq<char>, fb: Seq<char>)
    requires
        all_digits(fa),
        all_digits(fb),
    ensures
        lex(fa + zeros(fb.len()), fb + zeros(fa.len())) == lex(
            trim_end(fa, '0'),
            trim_end(fb, '0'),
        ),
{
    lemma_trimmed_order_padded(fa, fb, fb.len(), fa.len());
}

proof fn lemma_trim_front(f: Seq<char>)
    requires
        f.len() > 0,
    ensures
        ({
            let t = trim_end(f.skip(1), '0');
            trim_end(f, '0') == (if t.len() == 0 && f[0] == '0' {
                Seq::<char>::empty()
            } else {
                seq![f[0]] + t
            })
        }),
    decreases f.len(),
{
    let g = f.skip(1);
    if f.len() == 1 {
        assert(g == Seq::<char>::empty());
        assert(f.drop_last() == Seq::<char>::empty());
        assert(f.last() == f[0]);
        assert(f == seq![f[0]] + Seq::<char>::empty());
    } else {
        assert(g.last() == f.last());
        if f.last() == '0' {
            let d = f.drop_last();
            lemma_trim_front(d);
            assert(d.skip(1) == g.drop_last());
            assert(d[0] == f[0]);
        } else {
            assert(f == seq![f[0]] + g);
        }
    }
}

proof fn lemma_zeros_least(m: nat, f: Seq<char>)
    requires
        f.len() == m,
        all_digits(f),
    ensures
        lex(zeros(m), f) == (trim_end(f, '0').len() > 0),
        !lex(f, zeros(m)),
    decreases m,
{
    if m > 0 {
        lemma_skip_digits(f);
        lemma_trim_front(f);
        assert(zeros(m).skip(1) == zeros((m - 1) as nat));
        lemma_zeros_least((m - 1) as nat, f.skip(1));
        assert(is_dec(f[0]));
    }
}

proof fn lemma_trimmed_order_padded(fa: Seq<char>, fb: Seq<char>, m: nat, n: nat)
    requires
        all_digits(fa),
        all_digits(fb),
        fa.len() + m == fb.len() + n,
    ensures
        lex(fa + zeros(m), fb + zeros(n)) == lex(trim_end(fa, '0'), trim_end(fb, '0')),
    decreases fa.len(),
{
    let a = fa + zeros(m);
    let b = fb + zeros(n);
    if fa.len() == 0 {
        assert(a == zeros(m));
        assert forall|i: int| 0 <= i < b.len() implies is_dec(#[trigger] b[i]) by {
            if i < fb.len() {
                assert(b[i] == fb[i]);
            }
        }
        lemma_zeros_least(m, b);
        lemma_trim_padding(fb, n);
        assert(trim_end(fa, '0') == fa);
    } else if fb.len() == 0 {
        assert(b == zeros(n));
        assert forall|i: int| 0 <= i < a.len() implies is_dec(#[trigger] a[i]) by {
            if i < fa.len() {
                assert(a[i] == fa[i]);
            }
        }
        lemma_zeros_least(n, a);
        assert(trim_end(fb, '0') == fb);
    } else {
        lemma_skip_digits(fa);
        lemma_skip_digits(fb);
        lemma_trim_front(fa);
        lemma_trim_front(fb);
        lemma_trimmed_order_padded(fa.skip(1), fb.skip(1), m, n);
        assert(a.skip(1) == fa.skip(1) + zeros(m));
        assert(b.skip(1) == fb.skip(1) + zeros(n));
        assert(is_dec(fa[0]) && is_dec(fb[0]));
        let ta = trim_end(fa.skip(1), '0');
        let tb = trim_end(fb.skip(1), '0');
        assert((seq![fa[0]] + ta).skip(1) == ta);
        assert((seq![fb[0]] + tb).skip(1) == tb);
    }
}

proof fn lemma_trim_padding(f: Seq<char>, n: nat)
    ensures
        trim_end(f + zeros(n), '0') == trim_end(f, '0'),
    decreases n,
{
    if n == 0 {
        assert(f + zeros(n) == f);
    } else {
        lemma_trim_padding(f, (n - 1) as nat);
        assert((f + zeros(n)).drop_last() == f + zeros((n - 1) as nat));
    }
}

/// The parts of a number are digits, and its integer part has no leading zero.
proof fn lemma_parts(s: Seq<char>)
    requires
        numeric_shape(s),
    ensures
        all_digits(int_part(s)),
        all_digits(frac_part(s)),
        int_part(s).len() >= 1,
        int_part(s).len() > 1 ==> int_part(s)[0] != '0',
{
    let t = unsigned(s);
    lemma_digits_prefix(t, 0);
    let d = digits_end(t, 0);
    if d < t.len() {
        lemma_digits_prefix(t, d + 1);
    }
}

proof fn lemma_digits_prefix(t: Seq<char>, i: int)
    requires
        0 <= i <= t.len(),
    ensures
        i <= digits_end(t, i) <= t.len(),
        forall|k: int| i <= k < digits_end(t, i) ==> is_dec(#[trigger] t[k]),
    decreases t.len() - i,
{
    if i < t.len() && is_dec(t[i]) {
        lemma_digits_prefix(t, i + 1);
    }
}

proof fn lemma_all_digits_append(a: Seq<char>, b: Seq<char>)
    requires
        all_digits(a),
        all_digits(b),
    ensures
        all_digits(a + b),
{
    assert forall|i: int| 0 <= i < (a + b).len() implies is_dec(#[trigger] (a + b)[i]) by {
        if i < a.len() {
            assert((a + b)[i] == a[i]);
        } else {
            assert((a + b)[i] == b[i - a.len()]);
        }
    }
}

/// The sizes of two numbers, compared by their parts.
pub open spec fn size_lt(a: Seq<char>, b: Seq<char>) -> bool {
    let (i, j) = (int_part(a), int_part(b));
    if i.len() != j.len() {
        i.len() < j.len()
    } else if i != j {
        lex(i, j)
    } else {
        lex(trim_end(frac_part(a), '0'), trim_end(frac_part(b), '0'))
    }
}

/// The comparison by parts is the comparison of the sizes.
proof fn lemma_size(a: Seq<char>, b: Seq<char>)
    requires
        numeric_shape(a),
        numeric_shape(b),
    ensures
        digits_value(int_part(a) + frac_part(a)) * pow10(scale(b)) < digits_value(
            int_part(b) + frac_part(b),
        ) * pow10(scale(a)) <==> size_lt(a, b),
{
    lemma_parts(a);
    lemma_parts(b);
    let (i, f) = (int_part(a), frac_part(a));
    let (j, g) = (int_part(b), frac_part(b));
    let x = i + f + zeros(g.len());
    let y = j + g + zeros(f.len());
    lemma_value_scaled(i + f, g.len());
    lemma_value_scaled(j + g, f.len());
    lemma_all_digits_append(i, f);
    lemma_all_digits_append(j, g);
    assert(all_digits(zeros(g.len())) && all_digits(zeros(f.len())));
    lemma_all_digits_append(i + f, zeros(g.len()));
    lemma_all_digits_append(j + g, zeros(f.len()));
    if i.len() < j.len() {
        assert(y[0] == j[0]);
        lemma_value_longer(x, y);
    } else if j.len() < i.len() {
        assert(x[0] == i[0]);
        lemma_value_longer(y, x);
    } else {
        lemma_value_lex(x, y);
        let p = f + zeros(g.len());
        let q = g + zeros(f.len());
        assert(x == i + p);
        assert(y == j + q);
        if i != j {
            lemma_lex_decided(i, j, p, q);
        } else {
            lemma_lex_same_head(i, p, q);
            lemma_trimmed_order(f, g);
        }
    }
}

proof fn lemma_dec_value(n: nat)
    ensures
        digits_value(dec(n)) == n,
        n < pow10(dec(n).len()),
    decreases n,
{
    lemma_dec_digits(n);
    lemma_value_bound(dec(n));
    if n < 10 {
        assert(dec(n).drop_last() == Seq::<char>::empty());
        assert(digits_value(Seq::<char>::empty()) == 0);
    } else {
        lemma_dec_value(n / 10);
        assert(dec(n).drop_last() == dec(n / 10));
    }
}

proof fn lemma_dec_len(n: nat, w: nat)
    requires
        n < pow10(w),
        w >= 1,
    ensures
        dec(n).len() <= w,
    decreases w,
{
    if n >= 10 {
        if w == 1 {
            assert(pow10(0) == 1);
            assert(pow10(1) == 10);
        } else {
            lemma_dec_len(n / 10, (w - 1) as nat);
        }
    }
}

/// A length in four digits.
proof fn lemma_len_field(n: nat)
    requires
        n <= 9999,
    ensures
        zero_padded(n, 4).len() == 4,
        all_digits(zero_padded(n, 4)),
        digits_value(zero_padded(n, 4)) == n,
{
    assert(pow10(0) == 1);
    assert(pow10(1) == 10);
    assert(pow10(2) == 100);
    assert(pow10(3) == 1000);
    assert(pow10(4) == 10000);
    lemma_dec_len(n, 4);
    lemma_dec_value(n);
    lemma_dec_digits(n);
    let k = (4 - dec(n).len()) as nat;
    assert(zero_padded(n, 4) == zeros(k) + dec(n));
    lemma_zeros_value(k);
    lemma_value_append(zeros(k), dec(n));
    assert(all_digits(zeros(k)));
    lemma_all_digits_append(zeros(k), dec(n));
}

proof fn lemma_complement_order(a: Seq<char>, b: Seq<char>)
    requires
        a.len() == b.len(),
        all_digits(a),
        all_digits(b),
    ensures
        lex(complemented(a), complemented(b)) == lex(b, a),
        complemented(a) == complemented(b) <==> a == b,
    decreases a.len(),
{
    if a.len() > 0 {
        lemma_skip_digits(a);
        lemma_skip_digits(b);
        lemma_complement_order(a.skip(1), b.skip(1));
        assert(complemented(a).skip(1) == complemented(a.skip(1)));
        assert(complemented(b).skip(1) == complemented(b.skip(1)));
        assert(is_dec(a[0]) && is_dec(b[0]));
        assert(complement(a[0]) == complement(b[0]) <==> a[0] == b[0]);
        assert(complement(a[0]) < complement(b[0]) <==> b[0] < a[0]);
        assert(complemented(a)[0] == complement(a[0]));
        assert(complemented(b)[0] == complement(b[0]));
        assert(a == seq![a[0]] + a.skip(1));
        assert(b == seq![b[0]] + b.skip(1));
        if complemented(a) == complemented(b) {
            assert(complemented(a).skip(1) == complemented(b).skip(1));
        }
    } else {
        assert(a == b);
    }
}

proof fn lemma_complement_tail(f: Seq<char>, g: Seq<char>)
    requires
        all_digits(f),
        all_digits(g),
    ensures
        lex(complemented(f) + seq!['~'], complemented(g) + seq!['~']) == lex(g, f),
    decreases f.len(),
{
    let x = complemented(f) + seq!['~'];
    let y = complemented(g) + seq!['~'];
    if f.len() > 0 && g.len() > 0 {
        lemma_skip_digits(f);
        lemma_skip_digits(g);
        lemma_complement_tail(f.skip(1), g.skip(1));
        assert(is_dec(f[0]) && is_dec(g[0]));
        assert(x.skip(1) == complemented(f.skip(1)) + seq!['~']);
        assert(y.skip(1) == complemented(g.skip(1)) + seq!['~']);
        assert(x[0] == complement(f[0]));
        assert(y[0] == complement(g[0]));
        assert(complement(f[0]) == complement(g[0]) <==> f[0] == g[0]);
        assert(complement(f[0]) < complement(g[0]) <==> g[0] < f[0]);
    } else if f.len() > 0 {
        assert(is_dec(f[0]));
        assert(x[0] == complement(f[0]));
        assert(y[0] == '~');
        assert(complement(f[0]) < '~');
    } else if g.len() > 0 {
        assert(is_dec(g[0]));
        assert(x[0] == '~');
        assert(y[0] == complement(g[0]));
        assert(complement(g[0]) < '~');
    } else {
        assert(x[0] == '~' && y[0] == '~');
        assert(y.skip(1).len() == 0);
        assert(!lex(x.skip(1), y.skip(1)));
    }
}

proof fn lemma_dotted_order(f: Seq<char>, g: Seq<char>)
    requires
        all_digits(f),
        all_digits(g),
    ensures
        lex(dotted(f), dotted(g)) == lex(f, g),
        lex(dotted(complemented(f)) + seq!['~'], dotted(complemented(g)) + seq!['~']) == lex(g, f),
{
    reveal_strlit(".");
    let dot = seq!['.'];
    assert("."@ == dot);
    lemma_lex_same_head(dot, f, g);
    lemma_complement_tail(f, g);
    let x = dotted(complemented(f)) + seq!['~'];
    let y = dotted(complemented(g)) + seq!['~'];
    if f.len() > 0 && g.len() > 0 {
        assert(x == dot + (complemented(f) + seq!['~']));
        assert(y == dot + (complemented(g) + seq!['~']));
        lemma_lex_same_head(dot, complemented(f) + seq!['~'], complemented(g) + seq!['~']);
    } else if f.len() > 0 {
        assert(x[0] == '.');
        assert(y[0] == '~');
    } else if g.len() > 0 {
        assert(x[0] == '~');
        assert(y[0] == '.');
    }
}

/// The sortable form of a number that is not negative, behind its sign.
pub open spec fn plain_form(s: Seq<char>) -> Seq<char> {
    zero_padded(int_part(s).len(), 4) + seq!['_'] + int_part(s) + dotted(
        trim_end(frac_part(s), '0'),
    )
}

/// The sortable form of a negative number, behind its sign.
pub open spec fn flipped_form(s: Seq<char>) -> Seq<char> {
    complemented(zero_padded(int_part(s).len(), 4)) + seq!['_'] + complemented(int_part(s)) + (
    dotted(complemented(trim_end(frac_part(s), '0'))) + seq!['~'])
}

proof fn lemma_trim_digits(f: Seq<char>)
    requires
        all_digits(f),
    ensures
        all_digits(trim_end(f, '0')),
    decreases f.len(),
{
    if f.len() > 0 && f.last() == '0' {
        let d = f.drop_last();
        assert forall|i: int| 0 <= i < d.len() implies is_dec(#[trigger] d[i]) by {
            assert(d[i] == f[i]);
        }
        lemma_trim_digits(d);
    }
}

proof fn lemma_forms(a: Seq<char>, b: Seq<char>)
    requires
        numeric_shape(a),
        numeric_shape(b),
        int_part(a).len() <= 9999,
        int_part(b).len() <= 9999,
    ensures
        lex(plain_form(a), plain_form(b)) == size_lt(a, b),
        lex(flipped_form(a), flipped_form(b)) == size_lt(b, a),
{
    lemma_parts(a);
    lemma_parts(b);
    let (i, f) = (int_part(a), trim_end(frac_part(a), '0'));
    let (j, g) = (int_part(b), trim_end(frac_part(b), '0'));
    lemma_trim_digits(frac_part(a));
    lemma_trim_digits(frac_part(b));
    let (m, n) = (zero_padded(i.len(), 4), zero_padded(j.len(), 4));
    lemma_len_field(i.len());
    lemma_len_field(j.len());
    lemma_value_lex(m, n);
    lemma_value_lex(n, m);
    let bar = seq!['_'];
    let (cm, cn) = (complemented(m), complemented(n));
    let (ci, cj) = (complemented(i), complemented(j));
    let tf = dotted(complemented(f)) + seq!['~'];
    let tg = dotted(complemented(g)) + seq!['~'];
    lemma_complement_order(m, n);
    assert(plain_form(a) == m + (bar + (i + dotted(f))));
    assert(plain_form(b) == n + (bar + (j + dotted(g))));
    assert(flipped_form(a) == cm + (bar + (ci + tf)));
    assert(flipped_form(b) == cn + (bar + (cj + tg)));
    if i.len() != j.len() {
        assert(m != n);
        lemma_lex_decided(m, n, bar + (i + dotted(f)), bar + (j + dotted(g)));
        lemma_lex_decided(cm, cn, bar + (ci + tf), bar + (cj + tg));
    } else {
        lemma_lex_same_head(m, bar + (i + dotted(f)), bar + (j + dotted(g)));
        lemma_lex_same_head(bar, i + dotted(f), j + dotted(g));
        lemma_lex_same_head(cm, bar + (ci + tf), bar + (cj + tg));
        lemma_lex_same_head(bar, ci + tf, cj + tg);
        lemma_complement_order(i, j);
        if i != j {
            lemma_lex_decided(i, j, dotted(f), dotted(g));
            lemma_lex_decided(ci, cj, tf, tg);
        } else {
            lemma_lex_same_head(i, dotted(f), dotted(g));
            lemma_lex_same_head(ci, tf, tg);
            lemma_dotted_order(f, g);
        }
    }
}

/// Whether a number counts as negative: it has a minus sign and is not zero.
pub open spec fn is_negative(s: Seq<char>) -> bool {
    has_sign(s) && !(int_part(s) == seq!['0'] && trim_end(frac_part(s), '0').len() == 0)
}

proof fn lemma_zero_value(s: Seq<char>)
    requires
        numeric_shape(s),
    ensures
        digits_value(int_part(s) + frac_part(s)) == 0 <==> int_part(s) == seq!['0'] && trim_end(
            frac_part(s),
            '0',
        ).len() == 0,
{
    lemma_parts(s);
    let (i, f) = (int_part(s), frac_part(s));
    let x = i + f;
    lemma_all_digits_append(i, f);
    let z = zeros(x.len());
    assert(all_digits(z));
    lemma_value_lex(z, x);
    lemma_zeros_value(x.len());
    lemma_zeros_least(x.len(), x);
    lemma_trim_front(x);
    assert(is_dec(i[0]));
    assert(x[0] == i[0]);
    if i.len() == 1 {
        assert(x.skip(1) == f);
        assert(i == seq![i[0]]);
    }
}

/// The form behind the sign.
proof fn lemma_norm_form(s: Seq<char>)
    requires
        norm_of(s) is Some,
    ensures
        numeric_shape(s),
        int_part(s).len() <= 9999,
        is_negative(s) ==> norm_of(s)->0 == seq!['N'] + flipped_form(s),
        !is_negative(s) ==> norm_of(s)->0 == seq!['P'] + plain_form(s),
        is_ascii_chars(norm_of(s)->0),
{
    reveal_strlit("P0001_0");
    reveal_strlit("P");
    reveal_strlit("N");
    reveal_strlit("_");
    reveal_strlit("~");
    reveal_strlit("0");
    reveal_strlit(".");
    assert("0"@ == seq!['0']);
    assert("_"@ == seq!['_']);
    assert("~"@ == seq!['~']);
    assert("N"@ == seq!['N']);
    assert("P"@ == seq!['P']);
    lemma_parts(s);
    let i = int_part(s);
    let f = trim_end(frac_part(s), '0');
    lemma_trim_digits(frac_part(s));
    let n = norm_of(s)->0;
    if has_sign(s) && i == "0"@ && f.len() == 0 {
        lemma_len_field(1);
        assert(dec(1) == seq!['1']);
        assert(zero_padded(1, 4) == seq!['0', '0', '0', '1']);
        assert(plain_form(s) == seq!['0', '0', '0', '1'] + seq!['_'] + seq!['0'] + Seq::<
            char,
        >::empty());
        assert(n == seq!['P'] + plain_form(s));
    } else {
        lemma_len_field(i.len());
        let m = zero_padded(i.len(), 4);
        if has_sign(s) {
            assert(n == seq!['N'] + flipped_form(s));
            assert forall|k: int| 0 <= k < m.len() implies is_dec(#[trigger] complemented(m)[k]) by {
                assert(is_dec(m[k]));
            }
            assert forall|k: int| 0 <= k < i.len() implies is_dec(#[trigger] complemented(i)[k]) by {
                assert(is_dec(i[k]));
            }
            assert forall|k: int| 0 <= k < f.len() implies is_dec(#[trigger] complemented(f)[k]) by {
                assert(is_dec(f[k]));
            }
            lemma_ascii_form('N', complemented(m), complemented(i), dotted(complemented(f)), seq!['~']);
        } else {
            assert(n == seq!['P'] + plain_form(s));
            lemma_ascii_form('P', m, i, dotted(f), Seq::empty());
            assert(dotted(f) + Seq::<char>::empty() == dotted(f));
        }
    }
}

proof fn lemma_ascii_form(sign: char, m: Seq<char>, i: Seq<char>, f: Seq<char>, end: Seq<char>)
    requires
        sign as u32 <= 0x7F,
        all_digits(m),
        all_digits(i),
        f.len() > 0 ==> f[0] == '.',
        forall|k: int| 1 <= k < f.len() ==> is_dec(#[trigger] f[k]),
        forall|k: int| 0 <= k < end.len() ==> #[trigger] end[k] == '~',
    ensures
        is_ascii_chars(seq![sign] + (m + seq!['_'] + i + (f + end))),
{
    let n = seq![sign] + (m + seq!['_'] + i + (f + end));
    assert forall|k| 0 <= k < n.len() implies '\0' <= #[trigger] n[k] <= '\u{7f}' by {
        let a = 1 + m.len();
        let b = a + 1 + i.len();
        let c = b + f.len();
        if k == 0 {
        } else if k < a {
            assert(n[k] == m[k - 1]);
        } else if k == a {
        } else if k < b {
            assert(n[k] == i[k - a - 1]);
        } else if k < c {
            assert(n[k] == f[k - b]);
            if k > b {
                assert(is_dec(f[k - b]));
            }
        } else {
            assert(n[k] == end[k - c]);
        }
    }
}

/// Law: the order of sortable forms is the order of the numbers, and equal numbers have equal
/// forms.
pub proof fn law_norm_order(a: Seq<char>, b: Seq<char>)
    requires
        norm_of(a) is Some,
        norm_of(b) is Some,
    ensures
        str_lt(norm_of(a)->0, norm_of(b)->0) <==> num_lt(a, b),
        norm_of(a)->0 == norm_of(b)->0 <==> num_eq(a, b),
{
    lemma_norm_less(a, b);
    lemma_norm_less(b, a);
    let (x, y) = (norm_of(a)->0, norm_of(b)->0);
    crate::text::lemma_str_lt_total(x, y);
    crate::text::lemma_str_lt_irreflexive(x);
}

proof fn lemma_norm_less(a: Seq<char>, b: Seq<char>)
    requires
        norm_of(a) is Some,
        norm_of(b) is Some,
    ensures
        str_lt(norm_of(a)->0, norm_of(b)->0) <==> num_lt(a, b),
{
    lemma_norm_form(a);
    lemma_norm_form(b);
    let (x, y) = (norm_of(a)->0, norm_of(b)->0);
    lemma_lex_ascii(x, y);
    lemma_forms(a, b);
    lemma_size(a, b);
    lemma_size(b, a);
    lemma_zero_value(a);
    lemma_zero_value(b);
    let p = digits_value(int_part(a) + frac_part(a)) as int;
    let q = digits_value(int_part(b) + frac_part(b)) as int;
    let u = pow10(scale(b)) as int;
    let v = pow10(scale(a)) as int;
    lemma_pow10_positive(scale(a));
    lemma_pow10_positive(scale(b));
    assert((-p) * u == -(p * u)) by (nonlinear_arith);
    assert((-q) * v == -(q * v)) by (nonlinear_arith);
    assert(p * u >= 0) by (nonlinear_arith)
        requires
            p >= 0,
            u >= 1,
    ;
    assert(q * v >= 0) by (nonlinear_arith)
        requires
            q >= 0,
            v >= 1,
    ;
    assert(p > 0 ==> p * u > 0) by (nonlinear_arith)
        requires
            u >= 1,
    ;
    assert(q > 0 ==> q * v > 0) by (nonlinear_arith)
        requires
            v >= 1,
    ;
    assert(p == 0 ==> p * u == 0) by (nonlinear_arith);
    assert(q == 0 ==> q * v == 0) by (nonlinear_arith);
    if is_negative(a) == is_negative(b) {
        let sign = if is_negative(a) {
            seq!['N']
        } else {
            seq!['P']
        };
        lemma_lex_same_head(sign, plain_form(a), plain_form(b));
        lemma_lex_same_head(sign, flipped_form(a), flipped_form(b));
    } else {
        assert(x[0] != y[0]);
    }
}

} // verus!
