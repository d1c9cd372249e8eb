//! Strings as sequences of characters: order, splitting, joining and number formatting.
use vstd::prelude::*;
use vstd::utf8::*;

verus! {

/// `String::push` appends one character.
pub assume_specification[ std::string::String::push ](s: &mut std::string::String, c: char)
    ensures
        final(s)@ == old(s)@.push(c),
;

/// `String::push_str` appends all characters of its argument.
pub assume_specification[ std::string::String::push_str ](s: &mut std::string::String, other: &str)
    ensures
        final(s)@ == old(s)@ + other@,
;

/// The contents of a sequence of strings.
pub open spec fn views(v: Seq<String>) -> Seq<Seq<char>> {
    Seq::new(v.len(), |i: int| v[i]@)
}

/// The characters of `s` as a vector.
pub fn chars_of(s: &str) -> (v: Vec<char>)
    ensures
        v@ == s@,
{
    let mut v: Vec<char> = Vec::new();
    for c in it: s.chars()
        invariant
            v@ == it.seq().take(it.index() as int),
            it.seq() == s@,
    {
        v.push(c);
    }
    assert(s@.take(s@.len() as int) == s@);
    v
}

/// The string made of `v[from..to]`.
pub fn string_of(v: &Vec<char>, from: usize, to: usize) -> (s: String)
    requires
        from <= to <= v@.len(),
    ensures
        s@ == v@.subrange(from as int, to as int),
{
    let mut s = String::new();
    let mut i: usize = from;
    while i < to
        invariant
            from <= i <= to <= v@.len(),
            s@ == v@.subrange(from as int, i as int),
        decreases to - i,
    {
        s.push(v[i]);
        i += 1;
    }
    s
}

/// Lexicographic order of byte sequences.
pub open spec fn bytes_lt(a: Seq<u8>, b: Seq<u8>) -> bool
    decreases a.len(),
{
    if b.len() == 0 {
        false
    } else if a.len() == 0 {
        true
    } else if a[0] != b[0] {
        a[0] < b[0]
    } else {
        bytes_lt(a.skip(1), b.skip(1))
    }
}

/// The order of strings: lexicographic by the bytes of their UTF-8 encodings.
pub open spec fn str_lt(a: Seq<char>, b: Seq<char>) -> bool {
    bytes_lt(encode_utf8(a), encode_utf8(b))
}

pub proof fn lemma_bytes_lt_irreflexive(a: Seq<u8>)
    ensures
        !bytes_lt(a, a),
    decreases a.len(),
{
    if a.len() > 0 {
        lemma_bytes_lt_irreflexive(a.skip(1));
    }
}

pub proof fn lemma_bytes_lt_total(a: Seq<u8>, b: Seq<u8>)
    ensures
        bytes_lt(a, b) || bytes_lt(b, a) || a == b,
    decreases a.len(),
{
    if a.len() > 0 && b.len() > 0 && a[0] == b[0] {
        lemma_bytes_lt_total(a.skip(1), b.skip(1));
        if a.skip(1) == b.skip(1) {
            assert(a == seq![a[0]] + a.skip(1));
            assert(b == seq![b[0]] + b.skip(1));
        }
    } else if a.len() == 0 && b.len() == 0 {
        assert(a == b);
    }
}

pub proof fn lemma_bytes_lt_transitive(a: Seq<u8>, b: Seq<u8>, c: Seq<u8>)
    requires
        bytes_lt(a, b),
        bytes_lt(b, c),
    ensures
        bytes_lt(a, c),
    decreases a.len(),
{
    if a.len() > 0 && b.len() > 0 && c.len() > 0 && a[0] == b[0] && b[0] == c[0] {
        lemma_bytes_lt_transitive(a.skip(1), b.skip(1), c.skip(1));
    }
}

/// Strings with equal encodings are equal.
pub proof fn lemma_encode_injective(a: Seq<char>, b: Seq<char>)
    requires
        encode_utf8(a) == encode_utf8(b),
    ensures
        a == b,
{
    encode_utf8_decode_utf8(a);
    encode_utf8_decode_utf8(b);
}

pub broadcast proof fn lemma_str_lt_irreflexive(a: Seq<char>)
    ensures
        !#[trigger] str_lt(a, a),
{
    lemma_bytes_lt_irreflexive(encode_utf8(a));
}

/// Any two strings are equal or ordered one way.
pub proof fn lemma_str_lt_total(a: Seq<char>, b: Seq<char>)
    ensures
        str_lt(a, b) || str_lt(b, a) || a == b,
{
    lemma_bytes_lt_total(encode_utf8(a), encode_utf8(b));
    if encode_utf8(a) == encode_utf8(b) {
        lemma_encode_injective(a, b);
    }
}

pub proof fn lemma_str_lt_transitive(a: Seq<char>, b: Seq<char>, c: Seq<char>)
    requires
        str_lt(a, b),
        str_lt(b, c),
    ensures
        str_lt(a, c),
{
    lemma_bytes_lt_transitive(encode_utf8(a), encode_utf8(b), encode_utf8(c));
}

/// Whether `a` comes before `b`.
pub fn str_less(a: &str, b: &str) -> (r: bool)
    ensures
        r == str_lt(a@, b@),
{
    let x: &[u8] = a.as_bytes();
    let y: &[u8] = b.as_bytes();
    let mut i: usize = 0;
    assert(x@.skip(0) == x@);
    assert(y@.skip(0) == y@);
    while i < x.len() && i < y.len()
        invariant
            i <= x@.len(),
            i <= y@.len(),
            x@ == encode_utf8(a@),
            y@ == encode_utf8(b@),
            bytes_lt(x@, y@) == bytes_lt(x@.skip(i as int), y@.skip(i as int)),
        decreases x@.len() - i,
    {
        if x[i] != y[i] {
            return x[i] < y[i];
        }
        assert(x@.skip(i as int).skip(1) == x@.skip(i + 1));
        assert(y@.skip(i as int).skip(1) == y@.skip(i + 1));
        i += 1;
    }
    i < y.len()
}

/// Whether two strings are equal.
pub fn str_eq(a: &str, b: &str) -> (r: bool)
    ensures
        r == (a@ == b@),
{
    let x: &[u8] = a.as_bytes();
    let y: &[u8] = b.as_bytes();
    if x.len() != y.len() {
        return false;
    }
    let mut i: usize = 0;
    while i < x.len()
        invariant
            i <= x@.len(),
            x@.len() == y@.len(),
            x@ == encode_utf8(a@),
            y@ == encode_utf8(b@),
            forall|k: int| 0 <= k < i ==> x@[k] == y@[k],
        decreases x@.len() - i,
    {
        if x[i] != y[i] {
            return false;
        }
        i += 1;
    }
    proof {
        assert(x@ == y@);
        lemma_encode_injective(a@, b@);
    }
    true
}

/// The contents of `a` and `b`, one after the other.
pub fn cat2(a: &str, b: &str) -> (r: String)
    ensures
        r@ == a@ + b@,
{
    let mut r = String::new();
    r.push_str(a);
    r.push_str(b);
    assert(r@ == a@ + b@);
    r
}

pub fn cat3(a: &str, b: &str, c: &str) -> (r: String)
    ensures
        r@ == a@ + b@ + c@,
{
    let mut r = cat2(a, b);
    r.push_str(c);
    r
}

pub fn cat4(a: &str, b: &str, c: &str, d: &str) -> (r: String)
    ensures
        r@ == a@ + b@ + c@ + d@,
{
    let mut r = cat3(a, b, c);
    r.push_str(d);
    r
}

pub fn cat5(a: &str, b: &str, c: &str, d: &str, e: &str) -> (r: String)
    ensures
        r@ == a@ + b@ + c@ + d@ + e@,
{
    let mut r = cat4(a, b, c, d);
    r.push_str(e);
    r
}

/// An owned copy of `s`.
pub fn copy_of(s: &str) -> (r: String)
    ensures
        r@ == s@,
{
    let mut r = String::new();
    r.push_str(s);
    assert(r@ == s@);
    r
}

/// Owned copies of all strings of `v`.
pub fn copy_all(v: &Vec<String>) -> (r: Vec<String>)
    ensures
        views(r@) == views(v@),
{
    let mut r: Vec<String> = Vec::new();
    let mut i: usize = 0;
    while i < v.len()
        invariant
            i <= v@.len(),
            views(r@) == views(v@).take(i as int),
        decreases v@.len() - i,
    {
        let c = copy_of(v[i].as_str());
        let ghost before = views(r@);
        r.push(c);
        assert(views(r@) == before.push(v@[i as int]@));
        i += 1;
    }
    assert(views(v@).take(v@.len() as int) == views(v@));
    r
}

/// The pieces of `s` between occurrences of `sep`; one more than there are separators.
pub open spec fn split(s: Seq<char>, sep: char) -> Seq<Seq<char>>
    decreases s.len(),
{
    if s.len() == 0 {
        seq![Seq::empty()]
    } else {
        let p = split(s.drop_last(), sep);
        if s.last() == sep {
            p.push(Seq::empty())
        } else {
            p.drop_last().push(p.last().push(s.last()))
        }
    }
}

/// The parts with `sep` between each two.
pub open spec fn join(p: Seq<Seq<char>>, sep: Seq<char>) -> Seq<char>
    decreases p.len(),
{
    if p.len() == 0 {
        Seq::empty()
    } else if p.len() == 1 {
        p[0]
    } else {
        join(p.drop_last(), sep) + sep + p.last()
    }
}

pub proof fn lemma_split_nonempty(s: Seq<char>, sep: char)
    ensures
        split(s, sep).len() >= 1,
    decreases s.len(),
{
    if s.len() > 0 {
        lemma_split_nonempty(s.drop_last(), sep);
    }
}

/// Splitting after one more separated piece.
pub proof fn lemma_split_append(a: Seq<char>, sep: char, b: Seq<char>)
    requires
        !b.contains(sep),
    ensures
        split(a + seq![sep] + b, sep) == split(a, sep).push(b),
    decreases b.len(),
{
    let s = a + seq![sep] + b;
    if b.len() == 0 {
        assert(s.drop_last() == a);
        assert(s.last() == sep);
        assert(b == Seq::<char>::empty());
    } else {
        assert(b.last() != sep) by {
            assert(b.contains(b[b.len() - 1]));
        }
        assert(!b.drop_last().contains(sep)) by {
            if b.drop_last().contains(sep) {
                let k = choose|k: int| 0 <= k < b.drop_last().len() && b.drop_last()[k] == sep;
                assert(b[k] == sep);
            }
        }
        lemma_split_append(a, sep, b.drop_last());
        assert(s.drop_last() == a + seq![sep] + b.drop_last());
        assert(s.last() == b.last());
        let p = split(a, sep).push(b.drop_last());
        assert(p.drop_last() == split(a, sep));
        assert(p.last().push(b.last()) == b);
    }
}

pub proof fn lemma_split_single(b: Seq<char>, sep: char)
    requires
        !b.contains(sep),
    ensures
        split(b, sep) == seq![b],
    decreases b.len(),
{
    if b.len() > 0 {
        assert(b.contains(b[b.len() - 1]));
        assert(!b.drop_last().contains(sep)) by {
            if b.drop_last().contains(sep) {
                let k = choose|k: int| 0 <= k < b.drop_last().len() && b.drop_last()[k] == sep;
                assert(b[k] == sep);
            }
        }
        lemma_split_single(b.drop_last(), sep);
        assert(seq![b.drop_last()].drop_last() =~= Seq::<Seq<char>>::empty());
        assert(b.drop_last().push(b.last()) == b);
        assert(split(b, sep) == seq![b]);
    } else {
        assert(b == Seq::<char>::empty());
    }
}

/// Joining, taken apart at the front.
pub proof fn lemma_join_first(p: Seq<Seq<char>>, sep: Seq<char>)
    requires
        p.len() >= 2,
    ensures
        join(p, sep) == p[0] + sep + join(p.skip(1), sep),
    decreases p.len(),
{
    let q = p.drop_last();
    let t = p.skip(1);
    if p.len() == 2 {
        assert(join(q, sep) == p[0]);
        assert(join(t, sep) == p[1]);
    } else {
        lemma_join_first(q, sep);
        assert(q.skip(1) == t.drop_last());
        assert(t.last() == p.last());
        assert(join(p, sep) == p[0] + sep + join(t.drop_last(), sep) + sep + p.last());
        assert(join(t, sep) == join(t.drop_last(), sep) + sep + p.last());
        assert(join(p, sep) == p[0] + sep + (join(t.drop_last(), sep) + sep + p.last()));
    }
}

/// Splitting undoes joining when no part holds the separator.
pub proof fn lemma_split_join(p: Seq<Seq<char>>, sep: char)
    requires
        p.len() >= 1,
        forall|i: int| 0 <= i < p.len() ==> !(#[trigger] p[i]).contains(sep),
    ensures
        split(join(p, seq![sep]), sep) == p,
    decreases p.len(),
{
    if p.len() == 1 {
        lemma_split_single(p[0], sep);
        assert(p == seq![p[0]]);
    } else {
        let q = p.drop_last();
        assert forall|i: int| 0 <= i < q.len() implies !(#[trigger] q[i]).contains(sep) by {
            assert(q[i] == p[i]);
        }
        lemma_split_join(q, sep);
        lemma_split_append(join(q, seq![sep]), sep, p.last());
        assert(q.push(p.last()) == p);
    }
}

/// The pieces of `s` between separators, as strings.
pub fn split_on(s: &str, sep: char) -> (r: Vec<String>)
    ensures
        views(r@) == split(s@, sep),
        r@.len() >= 1,
{
    let v = chars_of(s);
    let mut r: Vec<String> = Vec::new();
    let mut cur = String::new();
    let mut i: usize = 0;
    while i < v.len()
        invariant
            i <= v@.len(),
            v@ == s@,
            views(r@).push(cur@) == split(v@.take(i as int), sep),
        decreases v@.len() - i,
    {
        let ghost before = views(r@).push(cur@);
        assert(v@.take(i + 1).drop_last() == v@.take(i as int));
        assert(v@.take(i + 1).last() == v@[i as int]);
        if v[i] == sep {
            r.push(cur);
            cur = String::new();
            assert(views(r@) == before);
            assert(views(r@).push(cur@) == before.push(Seq::empty()));
        } else {
            cur.push(v[i]);
            assert(before.drop_last() == views(r@));
        }
        i += 1;
    }
    let ghost before = views(r@);
    let ghost last = cur@;
    r.push(cur);
    assert(views(r@) == before.push(last));
    assert(v@.take(v@.len() as int) == s@);
    r
}

/// The strings of `p` with `sep` between each two.
pub fn join_with(p: &Vec<String>, sep: &str) -> (r: String)
    ensures
        r@ == join(views(p@), sep@),
{
    let mut r = String::new();
    let mut i: usize = 0;
    while i < p.len()
        invariant
            i <= p@.len(),
            r@ == join(views(p@).take(i as int), sep@),
        decreases p@.len() - i,
    {
        let ghost t = views(p@).take(i + 1);
        assert(t.drop_last() == views(p@).take(i as int));
        assert(t.last() == p@[i as int]@);
        if i > 0 {
            r.push_str(sep);
        }
        r.push_str(p[i].as_str());
        assert(r@ == join(t, sep@));
        i += 1;
    }
    assert(views(p@).take(p@.len() as int) == views(p@));
    r
}

/// `s` without the occurrences of `c` at its end.
pub open spec fn trim_end(s: Seq<char>, c: char) -> Seq<char>
    decreases s.len(),
{
    if s.len() > 0 && s.last() == c {
        trim_end(s.drop_last(), c)
    } else {
        s
    }
}

/// `s` without the occurrences of `c` at its end, as a string.
pub fn trim_end_of(s: &str, c: char) -> (r: String)
    ensures
        r@ == trim_end(s@, c),
{
    let v = chars_of(s);
    let mut n: usize = v.len();
    assert(v@.take(n as int) == s@);
    while n > 0 && v[n - 1] == c
        invariant
            n <= v@.len(),
            v@ == s@,
            trim_end(s@, c) == trim_end(v@.take(n as int), c),
        decreases n,
    {
        assert(v@.take(n as int).drop_last() == v@.take(n - 1));
        n -= 1;
    }
    assert(v@.subrange(0, n as int) == v@.take(n as int));
    string_of(&v, 0, n)
}

/// The pieces of a text between line feeds; the empty piece after a last line feed is no line.
pub open spec fn raw_lines(s: Seq<char>) -> Seq<Seq<char>> {
    let p = split(s, '\n');
    if p.last().len() == 0 {
        p.drop_last()
    } else {
        p
    }
}

/// The lines of a text, without the carriage returns at their ends.
pub open spec fn lines(s: Seq<char>) -> Seq<Seq<char>> {
    let p = raw_lines(s);
    Seq::new(p.len(), |i: int| trim_end(p[i], '\r'))
}

/// The lines of a text as strings.
pub fn lines_of(s: &str) -> (r: Vec<String>)
    ensures
        views(r@) == lines(s@),
{
    let p = split_on(s, '\n');
    let mut n: usize = p.len();
    if p[n - 1].as_str().is_empty() {
        n -= 1;
    }
    assert(raw_lines(s@) == views(p@).take(n as int));
    let mut r: Vec<String> = Vec::new();
    let mut i: usize = 0;
    while i < n
        invariant
            i <= n <= p@.len(),
            raw_lines(s@) == views(p@).take(n as int),
            views(r@) == lines(s@).take(i as int),
        decreases n - i,
    {
        let t = trim_end_of(p[i].as_str(), '\r');
        let ghost before = views(r@);
        assert(t@ == lines(s@)[i as int]);
        r.push(t);
        assert(views(r@) == before.push(lines(s@)[i as int]));
        i += 1;
    }
    assert(lines(s@).take(n as int) == lines(s@));
    r
}

/// The lines of a text, each without the line feed, or carriage return and line feed, that ends it.
pub open spec fn text_lines(s: Seq<char>) -> Seq<Seq<char>> {
    let p = split(s, '\n');
    let q = raw_lines(s);
    Seq::new(
        q.len(),
        |i: int|
            if i < p.len() - 1 && q[i].len() > 0 && q[i].last() == '\r' {
                q[i].drop_last()
            } else {
                q[i]
            },
    )
}

/// The lines of a text as strings, each without its line ending.
pub fn text_lines_of(s: &str) -> (r: Vec<String>)
    ensures
        views(r@) == text_lines(s@),
{
    let p = split_on(s, '\n');
    let total: usize = p.len();
    let mut n: usize = total;
    if p[n - 1].as_str().is_empty() {
        n -= 1;
    }
    assert(raw_lines(s@) == views(p@).take(n as int));
    let mut r: Vec<String> = Vec::new();
    let mut i: usize = 0;
    while i < n
        invariant
            i <= n <= p@.len(),
            total == p@.len(),
            split(s@, '\n') == views(p@),
            raw_lines(s@) == views(p@).take(n as int),
            views(r@) == text_lines(s@).take(i as int),
        decreases n - i,
    {
        let v = chars_of(p[i].as_str());
        let len: usize = v.len();
        let keep: usize = if i < total - 1 && len > 0 && v[len - 1] == '\r' {
            len - 1
        } else {
            len
        };
        let t = string_of(&v, 0, keep);
        let ghost before = views(r@);
        assert(t@ == text_lines(s@)[i as int]);
        r.push(t);
        assert(views(r@) == before.push(text_lines(s@)[i as int]));
        i += 1;
    }
    assert(text_lines(s@).take(n as int) == text_lines(s@));
    r
}

/// The decimal digits of `n`.
pub open spec fn dec(n: nat) -> Seq<char>
    decreases n,
{
    if n < 10 {
        seq![('0' as u32 + n) as char]
    } else {
        dec(n / 10).push(('0' as u32 + n % 10) as char)
    }
}

/// The character of a digit below ten.
pub fn digit_char(d: u64) -> (c: char)
    requires
        d < 10,
    ensures
        c == ('0' as u32 + d) as char,
{
    (48u8 + d as u8) as char
}

/// `n` in decimal.
pub fn dec_of(n: u64) -> (r: String)
    ensures
        r@ == dec(n as nat),
    decreases n,
{
    if n < 10 {
        let mut r = String::new();
        r.push(digit_char(n));
        assert(r@ == dec(n as nat));
        r
    } else {
        let mut r = dec_of(n / 10);
        r.push(digit_char(n % 10));
        r
    }
}

/// A lowercase hexadecimal digit.
pub open spec fn lower_hex(d: int) -> char {
    if d < 10 {
        (48 + d) as char
    } else {
        (87 + d) as char
    }
}

/// The last `w` hexadecimal digits of `n`.
pub open spec fn hex_text(n: nat, w: nat) -> Seq<char>
    decreases w,
{
    if w == 0 {
        Seq::empty()
    } else {
        hex_text(n / 16, (w - 1) as nat).push(lower_hex((n % 16) as int))
    }
}

fn lower_hex_char(d: u8) -> (c: char)
    requires
        d < 16,
    ensures
        c == lower_hex(d as int),
{
    if d < 10 {
        (48 + d) as char
    } else {
        (87 + d) as char
    }
}

/// The last `w` hexadecimal digits of `n`.
pub fn hex_of(n: u64, w: usize) -> (r: String)
    ensures
        r@ == hex_text(n as nat, w as nat),
    decreases w,
{
    if w == 0 {
        let r = String::new();
        assert(r@ == hex_text(n as nat, 0));
        r
    } else {
        let mut r = hex_of(n / 16, w - 1);
        r.push(lower_hex_char((n % 16) as u8));
        r
    }
}

/// Whether `c` is white space.
pub open spec fn is_white(c: char) -> bool {
    let n = c as u32;
    9 <= n <= 13 || n == 0x20 || n == 0x85 || n == 0xA0 || n == 0x1680 || 0x2000 <= n <= 0x200A || n
        == 0x2028 || n == 0x2029 || n == 0x202F || n == 0x205F || n == 0x3000
}

/// Whether a string is empty or all white space.
pub open spec fn is_blank(s: Seq<char>) -> bool {
    forall|i: int| 0 <= i < s.len() ==> is_white(#[trigger] s[i])
}

/// Whether `c` is white space.
pub fn white(c: char) -> (r: bool)
    ensures
        r == is_white(c),
{
    let n: u32 = c as u32;
    (9 <= n && n <= 13) || n == 0x20 || n == 0x85 || n == 0xA0 || n == 0x1680 || (0x2000 <= n && n
        <= 0x200A) || n == 0x2028 || n == 0x2029 || n == 0x202F || n == 0x205F || n == 0x3000
}

/// Whether a string is empty or all white space.
pub fn blank(s: &str) -> (r: bool)
    ensures
        r == is_blank(s@),
{
    let v = chars_of(s);
    let mut i: usize = 0;
    while i < v.len()
        invariant
            i <= v@.len(),
            v@ == s@,
            forall|k: int| 0 <= k < i ==> is_white(#[trigger] s@[k]),
        decreases v@.len() - i,
    {
        if !white(v[i]) {
            assert(!is_white(s@[i as int]));
            return false;
        }
        i += 1;
    }
    true
}

/// `s` without the white space at its start.
pub open spec fn trim_front(s: Seq<char>) -> Seq<char>
    decreases s.len(),
{
    if s.len() > 0 && is_white(s[0]) {
        trim_front(s.skip(1))
    } else {
        s
    }
}

/// `s` without the white space at its end.
pub open spec fn trim_back(s: Seq<char>) -> Seq<char>
    decreases s.len(),
{
    if s.len() > 0 && is_white(s.last()) {
        trim_back(s.drop_last())
    } else {
        s
    }
}

/// `s` without the white space at its ends.
pub open spec fn trim(s: Seq<char>) -> Seq<char> {
    trim_back(trim_front(s))
}

/// `s` without the white space at its ends, as a string.
pub fn trim_of(s: &str) -> (r: String)
    ensures
        r@ == trim(s@),
{
    let v = chars_of(s);
    let mut i: usize = 0;
    assert(v@.skip(0) == v@);
    while i < v.len() && white(v[i])
        invariant
            i <= v@.len(),
            v@ == s@,
            trim_front(s@) == trim_front(v@.skip(i as int)),
        decreases v@.len() - i,
    {
        assert(v@.skip(i as int).skip(1) == v@.skip(i + 1));
        i += 1;
    }
    let ghost t = v@.skip(i as int);
    let mut n: usize = v.len();
    assert(v@.subrange(i as int, n as int) == t);
    while n > i && white(v[n - 1])
        invariant
            i <= n <= v@.len(),
            trim_back(t) == trim_back(v@.subrange(i as int, n as int)),
        decreases n,
    {
        assert(v@.subrange(i as int, n as int).drop_last() == v@.subrange(i as int, n - 1));
        n -= 1;
    }
    string_of(&v, i, n)
}

/// The number of bytes that encode a character.
pub open spec fn width(c: char) -> nat {
    encode_scalar(c as u32).len()
}

/// The number of bytes that encode a string.
pub open spec fn byte_len(s: Seq<char>) -> nat {
    encode_utf8(s).len()
}

/// The number of bytes that encode `c`.
pub fn width_of(c: char) -> (n: usize)
    ensures
        n == width(c),
        1 <= n <= 4,
{
    let x: u32 = c as u32;
    if x <= 0x7F {
        1
    } else if x <= 0x7FF {
        2
    } else if x <= 0xFFFF {
        3
    } else {
        4
    }
}

/// The first byte of an encoded character tells an ASCII character.
pub proof fn lemma_lead_byte(c: char)
    ensures
        encode_scalar(c as u32).len() >= 1,
        encode_scalar(c as u32)[0] < 0x80 ==> '\0' <= c <= '\u{7f}',
        '\0' <= c <= '\u{7f}' ==> encode_scalar(c as u32) == seq![c as u8],
{
    let x: u32 = c as u32;
    if has_width_1_encoding(x) {
        assert((x & 0x7F) as u8 == x as u8) by (bit_vector)
            requires
                x <= 0x7F,
        ;
        assert(encode_scalar(x) =~= seq![c as u8]);
    } else if has_width_2_encoding(x) {
        assert(0xC0u8 | ((x >> 6) & 0x1F) as u8 >= 0x80) by (bit_vector);
    } else if has_width_3_encoding(x) {
        assert(0xE0u8 | ((x >> 12) & 0x0F) as u8 >= 0x80) by (bit_vector);
    } else {
        assert(0xF0u8 | ((x >> 18) & 0x07) as u8 >= 0x80) by (bit_vector);
    }
}

/// The first byte of a string tells an ASCII first character.
pub proof fn lemma_first_byte(s: Seq<char>, c: char)
    requires
        s.len() > 0,
        c as u32 <= 0x7F,
    ensures
        encode_utf8(s).len() > 0,
        encode_utf8(s)[0] == c as u8 <==> s[0] == c,
{
    lemma_lead_byte(s[0]);
    lemma_lead_byte(c);
    assert(encode_utf8(s) == encode_scalar(s[0] as u32) + encode_utf8(s.drop_first()));
    assert(encode_utf8(s)[0] == encode_scalar(s[0] as u32)[0]);
}

/// The number of bytes that encode `s`.
pub fn byte_len_of(s: &str) -> (n: usize)
    ensures
        n == byte_len(s@),
{
    s.as_bytes().len()
}

pub proof fn lemma_encode_push(s: Seq<char>, c: char)
    ensures
        encode_utf8(s.push(c)) == encode_utf8(s) + encode_scalar(c as u32),
    decreases s.len(),
{
    if s.len() == 0 {
        assert(s.push(c).drop_first() == Seq::<char>::empty());
        assert(encode_utf8(s.push(c)) == encode_scalar(c as u32) + encode_utf8(Seq::<char>::empty()));
    } else {
        lemma_encode_push(s.drop_first(), c);
        assert(s.push(c).drop_first() == s.drop_first().push(c));
        assert(encode_utf8(s.push(c)) == encode_scalar(s[0] as u32) + (encode_utf8(s.drop_first())
            + encode_scalar(c as u32)));
        assert(encode_utf8(s) == encode_scalar(s[0] as u32) + encode_utf8(s.drop_first()));
    }
}

pub proof fn lemma_encode_concat(a: Seq<char>, b: Seq<char>)
    ensures
        encode_utf8(a + b) == encode_utf8(a) + encode_utf8(b),
    decreases b.len(),
{
    if b.len() == 0 {
        assert(a + b == a);
        assert(encode_utf8(b) == Seq::<u8>::empty());
    } else {
        lemma_encode_concat(a, b.drop_last());
        assert((a + b.drop_last()).push(b.last()) == a + b);
        assert(b.drop_last().push(b.last()) == b);
        lemma_encode_push(a + b.drop_last(), b.last());
        lemma_encode_push(b.drop_last(), b.last());
    }
}

/// Whether byte position `n` of `s` lies between two characters.
pub open spec fn splits_at(s: Seq<char>, n: int) -> bool {
    0 <= n && is_char_boundary(encode_utf8(s), n)
}

/// The first `n` bytes of `s`.
pub open spec fn byte_prefix(s: Seq<char>, n: int) -> Seq<char> {
    decode_utf8(encode_utf8(s).subrange(0, n))
}

/// What follows the first `n` bytes of `s`.
pub open spec fn byte_suffix(s: Seq<char>, n: int) -> Seq<char> {
    decode_utf8(encode_utf8(s).subrange(n, encode_utf8(s).len() as int))
}

/// `s` parted at byte `n`, or nothing if that falls inside a character or past the end.
pub fn split_bytes(s: &str, n: usize) -> (r: Option<(&str, &str)>)
    ensures
        r is Some <==> n <= byte_len(s@) && splits_at(s@, n as int),
        r matches Some(p) ==> p.0@ == byte_prefix(s@, n as int) && p.1@ == byte_suffix(s@, n as int)
            && s@ == p.0@ + p.1@ && byte_len(p.0@) == n,
{
    if n <= s.as_bytes().len() && s.is_char_boundary(n) {
        let p = s.split_at(n);
        proof {
            encode_utf8_decode_utf8(p.0@);
            encode_utf8_decode_utf8(p.1@);
            lemma_encode_concat(p.0@, p.1@);
            assert(encode_utf8(s@) == encode_utf8(p.0@) + encode_utf8(p.1@));
            lemma_encode_injective(s@, p.0@ + p.1@);
        }
        Some(p)
    } else {
        None
    }
}

proof fn lemma_boundary_concat(a: Seq<char>, b: Seq<char>)
    ensures
        is_char_boundary(encode_utf8(a + b), byte_len(a) as int),
    decreases a.len(),
{
    encode_utf8_valid_utf8(a + b);
    let e = encode_utf8(a + b);
    if a.len() == 0 {
    } else {
        lemma_encode_concat(a, b);
        encode_utf8_first_scalar(a + b);
        assert((a + b).drop_first() == a.drop_first() + b);
        assert(pop_first_scalar(e) == encode_utf8((a + b).drop_first()));
        lemma_boundary_concat(a.drop_first(), b);
    }
}

/// Parting a string where it was put together gives the two parts.
pub proof fn lemma_split_bytes_concat(a: Seq<char>, b: Seq<char>)
    ensures
        splits_at(a + b, byte_len(a) as int),
        byte_prefix(a + b, byte_len(a) as int) == a,
        byte_suffix(a + b, byte_len(a) as int) == b,
        byte_len(a + b) == byte_len(a) + byte_len(b),
{
    lemma_encode_concat(a, b);
    let e = encode_utf8(a + b);
    let n = byte_len(a) as int;
    assert(e.subrange(0, n) == encode_utf8(a));
    assert(e.subrange(n, e.len() as int) == encode_utf8(b));
    encode_utf8_decode_utf8(a);
    encode_utf8_decode_utf8(b);
    lemma_boundary_concat(a, b);
}

/// The two parts of a string that is parted between two characters.
pub proof fn lemma_bytes_parts(s: Seq<char>, n: int)
    requires
        0 <= n <= byte_len(s),
        splits_at(s, n),
    ensures
        s == byte_prefix(s, n) + byte_suffix(s, n),
        byte_len(byte_prefix(s, n)) == n,
{
    let e = encode_utf8(s);
    let a = e.subrange(0, n);
    let b = e.subrange(n, e.len() as int);
    encode_utf8_valid_utf8(s);
    valid_utf8_split(e, n);
    decode_utf8_encode_utf8(a);
    decode_utf8_encode_utf8(b);
    lemma_encode_concat(byte_prefix(s, n), byte_suffix(s, n));
    assert(e == a + b);
    lemma_encode_injective(s, byte_prefix(s, n) + byte_suffix(s, n));
}

} // verus!
