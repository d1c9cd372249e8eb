//! What a configuration file says, and what the arguments of a call ask for.
use crate::cli::{command_of, CommandView, TargetView};
use crate::config::{
    config_from, config_of, first_of, offset_of, offset_parts, offset_size, setting_of, two_digits,
    Config,
};
use crate::text::{is_white, lines, trim, trim_back, trim_front};
use vstd::prelude::*;

verus! {

/// A decimal digit for `n`.
pub open spec fn figure(c: char, n: int) -> bool {
    0 <= n <= 9 && c as int == '0' as int + n
}

/// Two decimal digits of `s` from `i` on, for `n`.
pub open spec fn figures(s: Seq<char>, i: int, n: int) -> bool {
    0 <= n <= 99 && figure(s[i], n / 10) && figure(s[i + 1], n % 10)
}

/// The hours and minutes that may stand behind a sign: at most a day.
pub open spec fn within_a_day(h: int, m: int) -> bool {
    0 <= h && 0 <= m <= 59 && h * 60 + m <= 1440
}

/// What stands behind the sign of an offset: `HH`, `HHMM` or `HH:MM`.
pub open spec fn says_time(r: Seq<char>, h: int, m: int) -> bool {
    ||| r.len() == 2 && figures(r, 0, h) && m == 0
    ||| r.len() == 4 && figures(r, 0, h) && figures(r, 2, m)
    ||| r.len() == 5 && figures(r, 0, h) && r[2] == ':' && figures(r, 3, m)
}

/// `Z` or `UTC` in letters of either form.
pub open spec fn names_utc(s: Seq<char>) -> bool {
    ||| s == seq!['Z']
    ||| s == seq!['z']
    ||| s.len() == 3 && (s[0] == 'U' || s[0] == 'u') && (s[1] == 'T' || s[1] == 't') && (s[2] == 'C'
        || s[2] == 'c')
}

proof fn lemma_first_of(s: Seq<char>, c: char, i: int)
    requires
        0 <= i <= s.len(),
    ensures
        i <= first_of(s, c, i) <= s.len(),
        first_of(s, c, i) < s.len() ==> s[first_of(s, c, i)] == c,
        forall|k: int| i <= k < first_of(s, c, i) ==> #[trigger] s[k] != c,
    decreases s.len() - i,
{
    if i < s.len() && s[i] != c {
        lemma_first_of(s, c, i + 1);
    }
}

proof fn lemma_two_digits(s: Seq<char>, n: int)
    ensures
        two_digits(s) == Some(n) <==> s.len() == 2 && figures(s, 0, n),
{
    if s.len() == 2 && '0' <= s[0] <= '9' && '0' <= s[1] <= '9' {
        let a = s[0] as int - '0' as int;
        let b = s[1] as int - '0' as int;
        assert(two_digits(s) == Some(a * 10 + b));
        assert((a * 10 + b) / 10 == a && (a * 10 + b) % 10 == b);
    }
}

proof fn lemma_offset_size(r: Seq<char>, h: int, m: int)
    ensures
        says_time(r, h, m) && within_a_day(h, m) ==> offset_size(r) == Some(h * 3600 + m * 60),
        says_time(r, h, m) && !within_a_day(h, m) ==> offset_size(r) is None,
{
    let i = first_of(r, ':', 0);
    lemma_first_of(r, ':', 0);
    if says_time(r, h, m) {
        if r.len() == 2 {
            assert(i == 2) by {
                if i < 2 {
                    assert(i == 0 || i == 1);
                }
            }
            lemma_two_digits(r, h);
        } else if r.len() == 4 {
            assert(i == 4) by {
                if i < 4 {
                    assert(i == 0 || i == 1 || i == 2 || i == 3);
                }
            }
            lemma_two_digits(r.take(2), h);
            lemma_two_digits(r.skip(2), m);
        } else {
            assert(i == 2) by {
                if i < 2 {
                    assert(i == 0 || i == 1);
                } else if i > 2 {
                    assert(r[2] == ':');
                }
            }
            lemma_two_digits(r.take(2), h);
            lemma_two_digits(r.skip(3), m);
        }
    }
}

proof fn lemma_offset_size_form(r: Seq<char>) -> (t: (int, int))
    requires
        offset_size(r) is Some,
    ensures
        says_time(r, t.0, t.1),
        within_a_day(t.0, t.1),
        offset_size(r) == Some(t.0 * 3600 + t.1 * 60),
{
    let i = first_of(r, ':', 0);
    lemma_first_of(r, ':', 0);
    let p = offset_parts(r)->0;
    let h = two_digits(p.0)->0;
    lemma_two_digits(p.0, h);
    if i < r.len() {
        assert(p.0 == r.take(i) && p.1 == r.skip(i + 1));
        let m = two_digits(p.1)->0;
        lemma_two_digits(p.1, m);
        assert(i == 2 && r.len() == 5);
        assert(p.1[0] == r[3] && p.1[1] == r[4]);
        (h, m)
    } else if r.len() == 2 {
        (h, 0)
    } else {
        let m = two_digits(p.1)->0;
        lemma_two_digits(p.1, m);
        assert(p.1[0] == r[2] && p.1[1] == r[3]);
        (h, m)
    }
}

/// The offset in seconds that a text without white space around it says.
pub open spec fn says_offset(t: Seq<char>, n: int) -> bool {
    ||| names_utc(t) && n == 0
    ||| t.len() > 0 && t[0] == '+' && exists|h: int, m: int| #[trigger]
        says_time(t.skip(1), h, m) && within_a_day(h, m) && n == h * 3600 + m * 60
    ||| t.len() > 0 && t[0] == '-' && exists|h: int, m: int| #[trigger]
        says_time(t.skip(1), h, m) && within_a_day(h, m) && n == -(h * 3600 + m * 60)
}

/// Law: an offset is `Z` or `UTC` in letters of either form, or a sign with `HH`, `HHMM` or `HH:MM`
/// behind it, of at most a day and with fewer than sixty minutes; it is that many seconds, east of UTC
/// for `+` and west for `-`. White space around it changes nothing.
pub proof fn law_offset_exactly(s: Seq<char>, n: int)
    ensures
        offset_of(s) == Some(n) <==> says_offset(trim(s), n),
{
    let t = trim(s);
    if says_offset(t, n) {
        if t.len() > 0 && (t[0] == '+' || t[0] == '-') {
            let (h, m) = choose|h: int, m: int| #[trigger]
                says_time(t.skip(1), h, m) && within_a_day(h, m) && n == if t[0] == '+' {
                    h * 3600 + m * 60
                } else {
                    -(h * 3600 + m * 60)
                };
            lemma_offset_size(t.skip(1), h, m);
        }
    }
    if offset_of(s) == Some(n) && t.len() > 0 && (t[0] == '+' || t[0] == '-') {
        let (h, m) = lemma_offset_size_form(t.skip(1));
    }
    if t.len() == 1 {
        assert(t == seq![t[0]]);
    }
}

/// Law: trimming takes away the white space at both ends and nothing else.
pub proof fn law_trim_exactly(s: Seq<char>)
    ensures
        exists|i: int, j: int|
            0 <= i <= j <= s.len() && trim(s) == #[trigger] s.subrange(i, j) && (forall|k: int|
                0 <= k < i || j <= k < s.len() ==> is_white(#[trigger] s[k])),
        trim(s).len() > 0 ==> !is_white(trim(s)[0]) && !is_white(trim(s).last()),
{
    let i = lemma_trim_front(s);
    let t = trim_front(s);
    let j = lemma_trim_back(t);
    assert(trim(s) == s.subrange(i, i + j));
    assert forall|k: int| 0 <= k < i || i + j <= k < s.len() implies is_white(#[trigger] s[k]) by {
        if k >= i {
            assert(t[k - i] == s[k]);
        }
    }
    if trim(s).len() > 0 {
        assert(trim(s)[0] == t[0]);
    }
}

proof fn lemma_trim_front(s: Seq<char>) -> (i: int)
    ensures
        0 <= i <= s.len(),
        trim_front(s) == s.skip(i),
        forall|k: int| 0 <= k < i ==> is_white(#[trigger] s[k]),
        trim_front(s).len() > 0 ==> !is_white(trim_front(s)[0]),
    decreases s.len(),
{
    if s.len() > 0 && is_white(s[0]) {
        let t = s.skip(1);
        let i = lemma_trim_front(t);
        assert(s.skip(i + 1) == t.skip(i));
        assert forall|k: int| 0 <= k < i + 1 implies is_white(#[trigger] s[k]) by {
            if k > 0 {
                assert(t[k - 1] == s[k]);
            }
        }
        i + 1
    } else {
        assert(s.skip(0) == s);
        0
    }
}

proof fn lemma_trim_back(s: Seq<char>) -> (j: int)
    ensures
        0 <= j <= s.len(),
        trim_back(s) == s.take(j),
        forall|k: int| j <= k < s.len() ==> is_white(#[trigger] s[k]),
        trim_back(s).len() > 0 ==> !is_white(trim_back(s).last()),
    decreases s.len(),
{
    if s.len() > 0 && is_white(s.last()) {
        let t = s.drop_last();
        let j = lemma_trim_back(t);
        assert(s.take(j) == t.take(j));
        assert forall|k: int| j <= k < s.len() implies is_white(#[trigger] s[k]) by {
            if k < t.len() {
                assert(t[k] == s[k]);
            }
        }
        j
    } else {
        assert(s.take(s.len() as int) == s);
        s.len() as int
    }
}

/// A line that is neither blank nor a comment.
pub open spec fn says_something(line: Seq<char>) -> bool {
    trim(line).len() > 0 && trim(line)[0] != '#'
}

/// The name of the setting.
pub open spec fn utc_offset() -> Seq<char> {
    seq!['u', 't', 'c', '_', 'o', 'f', 'f', 's', 'e', 't']
}

/// A value, or a value between quotes, that says the offset `n`.
pub open spec fn value_says(v: Seq<char>, n: int) -> bool {
    if v.len() > 0 && v[0] == '"' {
        v.len() >= 2 && v.last() == '"' && says_offset(trim(v.subrange(1, v.len() - 1)), n)
    } else {
        says_offset(trim(v), n)
    }
}

/// A line `utc_offset = value` whose value says `n`; `i` is the place of its first `=`.
pub open spec fn assigns_at(line: Seq<char>, i: int, n: int) -> bool {
    let s = trim(line);
    &&& 0 <= i < s.len()
    &&& s[i] == '='
    &&& forall|k: int| 0 <= k < i ==> #[trigger] s[k] != '='
    &&& trim(s.take(i)) == utc_offset()
    &&& value_says(trim(s.skip(i + 1)), n)
}

/// A line `utc_offset = value` whose value says `n`.
pub open spec fn assigns(line: Seq<char>, n: int) -> bool {
    exists|i: int| #[trigger] assigns_at(line, i, n)
}

proof fn lemma_assigns(line: Seq<char>, number: usize, n: int)
    requires
        says_something(line),
    ensures
        assigns(line, n) <==> (setting_of(trim(line), number) matches Ok((key, value)) && key
            == "utc_offset"@ && offset_of(value) == Some(n)),
{
    reveal_strlit("utc_offset");
    assert("utc_offset"@ == utc_offset());
    let s = trim(line);
    let i = first_of(s, '=', 0);
    lemma_first_of(s, '=', 0);
    if assigns(line, n) {
        let k = choose|k: int| #[trigger] assigns_at(line, k, n);
        assert(k == i) by {
            if i < k {
                assert(s[i] != '=');
            } else if k < i {
                assert(s[k] != '=');
            }
        }
    }
    if i < s.len() {
        let v = trim(s.skip(i + 1));
        if v.len() > 0 && v[0] == '"' {
            if v.len() >= 2 && v.last() == '"' {
                assert(v.skip(1).drop_last() == v.subrange(1, v.len() - 1));
                assert(v.skip(1).last() == '"');
                law_offset_exactly(v.subrange(1, v.len() - 1), n);
            } else if v.len() >= 2 {
                assert(v.skip(1).last() == v.last());
            }
        } else {
            law_offset_exactly(v, n);
        }
        if setting_of(s, number) matches Ok((key, value)) && key == "utc_offset"@ && offset_of(value)
            == Some(n) {
            assert(assigns_at(line, i, n));
        }
    }
}

proof fn lemma_config_from(ls: Seq<Seq<char>>, i: int, c: Config)
    requires
        0 <= i <= ls.len(),
    ensures
        config_from(ls, i, c) is Ok <==> forall|x: int|
            i <= x < ls.len() && says_something(#[trigger] ls[x]) ==> exists|n: int| assigns(ls[x], n),
        config_from(ls, i, c) matches Ok(r) ==> {
            &&& (forall|x: int| i <= x < ls.len() ==> !says_something(#[trigger] ls[x])) ==> r == c
            &&& forall|x: int|
                i <= x < ls.len() && says_something(#[trigger] ls[x]) && (forall|y: int|
                    x < y < ls.len() ==> !says_something(#[trigger] ls[y])) ==> assigns(
                    ls[x],
                    r.utc_offset_secs as int,
                )
        },
    decreases ls.len() - i,
{
    if i < ls.len() {
        let number = (i + 1) as usize;
        if says_something(ls[i]) {
            let got = setting_of(trim(ls[i]), number);
            if got is Ok && got->Ok_0.0 == "utc_offset"@ && offset_of(got->Ok_0.1) is Some {
                let n = offset_of(got->Ok_0.1)->0;
                lemma_assigns(ls[i], number, n);
                law_offset_exactly(got->Ok_0.1, n);
                lemma_says_small(trim(got->Ok_0.1), n);
                lemma_config_from(ls, i + 1, Config { utc_offset_secs: n as i64 });
            } else {
                assert forall|n: int| !assigns(ls[i], n) by {
                    lemma_assigns(ls[i], number, n);
                }
                assert(says_something(ls[i]));
            }
        } else {
            lemma_config_from(ls, i + 1, c);
        }
    }
}

proof fn lemma_says_small(t: Seq<char>, n: int)
    requires
        says_offset(t, n),
    ensures
        -86400 <= n <= 86400,
{
}

/// Law: a configuration is accepted exactly if each of its lines that is neither blank nor a comment
/// assigns an offset to `utc_offset`; the last of these lines counts, and without one the offset is
/// that of UTC.
pub proof fn law_configuration_exactly(text: Seq<char>)
    ensures
        ({
            let ls = lines(text);
            &&& config_of(text) is Ok <==> forall|x: int|
                0 <= x < ls.len() && says_something(#[trigger] ls[x]) ==> exists|n: int|
                    assigns(ls[x], n)
            &&& config_of(text) matches Ok(r) ==> {
                &&& (forall|x: int| 0 <= x < ls.len() ==> !says_something(#[trigger] ls[x]))
                    ==> r.utc_offset_secs == 0
                &&& forall|x: int|
                    0 <= x < ls.len() && says_something(#[trigger] ls[x]) && (forall|y: int|
                        x < y < ls.len() ==> !says_something(#[trigger] ls[y])) ==> assigns(
                        ls[x],
                        r.utc_offset_secs as int,
                    )
            }
        }),
{
    lemma_config_from(lines(text), 0, Config { utc_offset_secs: 0 });
}

/// `--relate`.
pub open spec fn relate_word() -> Seq<char> {
    seq!['-', '-', 'r', 'e', 'l', 'a', 't', 'e']
}

/// `--plane`.
pub open spec fn plane_word() -> Seq<char> {
    seq!['-', '-', 'p', 'l', 'a', 'n', 'e']
}

/// `--compact`.
pub open spec fn compact_word() -> Seq<char> {
    seq!['-', '-', 'c', 'o', 'm', 'p', 'a', 'c', 't']
}

/// `--query`.
pub open spec fn query_word() -> Seq<char> {
    seq!['-', '-', 'q', 'u', 'e', 'r', 'y']
}

/// `--filter`.
pub open spec fn filter_word() -> Seq<char> {
    seq!['-', '-', 'f', 'i', 'l', 't', 'e', 'r']
}

/// `--records`.
pub open spec fn records_word() -> Seq<char> {
    seq!['-', '-', 'r', 'e', 'c', 'o', 'r', 'd', 's']
}

/// `--show`.
pub open spec fn show_word() -> Seq<char> {
    seq!['-', '-', 's', 'h', 'o', 'w']
}

/// `--help` or `-h`.
pub open spec fn asks_help(a: Seq<char>) -> bool {
    a == seq!['-', '-', 'h', 'e', 'l', 'p'] || a == seq!['-', 'h']
}

/// `--version` or `-V`.
pub open spec fn asks_version(a: Seq<char>) -> bool {
    a == seq!['-', '-', 'v', 'e', 'r', 's', 'i', 'o', 'n'] || a == seq!['-', 'V']
}

/// A single `-`.
pub open spec fn dash() -> Seq<char> {
    seq!['-']
}

proof fn lemma_words()
    ensures
        "--relate"@ == relate_word(),
        "--plane"@ == plane_word(),
        "--compact"@ == compact_word(),
        "--query"@ == query_word(),
        "--filter"@ == filter_word(),
        "--records"@ == records_word(),
        "--show"@ == show_word(),
        "-"@ == dash(),
        "--help"@ == seq!['-', '-', 'h', 'e', 'l', 'p'],
        "-h"@ == seq!['-', 'h'],
        "--version"@ == seq!['-', '-', 'v', 'e', 'r', 's', 'i', 'o', 'n'],
        "-V"@ == seq!['-', 'V'],
{
    reveal_strlit("--relate");
    reveal_strlit("--plane");
    reveal_strlit("--compact");
    reveal_strlit("--query");
    reveal_strlit("--filter");
    reveal_strlit("--records");
    reveal_strlit("--show");
    reveal_strlit("-");
    reveal_strlit("--help");
    reveal_strlit("-h");
    reveal_strlit("--version");
    reveal_strlit("-V");
}

/// Law: the calls with no argument, with one and with two: help, the version, one of the options for
/// the database `x`, or the actions `y` for it.
pub proof fn law_short_calls(p: Seq<char>, x: Seq<char>, y: Seq<char>)
    ensures
        command_of(seq![p]) == CommandView::Help,
        asks_help(x) ==> command_of(seq![p, x]) == CommandView::Help,
        asks_version(x) ==> command_of(seq![p, x]) == CommandView::Version,
        !asks_help(x) && !asks_version(x) ==> command_of(seq![p, x]) == CommandView::Usage,
        command_of(seq![p, relate_word(), x]) == (CommandView::Relate { dov: x }),
        command_of(seq![p, plane_word(), x]) == (CommandView::Plane { dov: x }),
        command_of(seq![p, compact_word(), x]) == (CommandView::Compact { dov: x }),
        x != relate_word() && x != plane_word() && x != compact_word() ==> command_of(
            seq![p, x, compact_word()],
        ) == (CommandView::Compact { dov: x }),
        x != relate_word() && x != plane_word() && x != compact_word() && y != compact_word()
            ==> command_of(seq![p, x, y]) == (CommandView::Apply { dov: x, actions: y }),
{
    lemma_words();
    assert(relate_word().len() == 8 && plane_word().len() == 7 && compact_word().len() == 9);
    assert("--help"@.len() == 6 && "-h"@.len() == 2 && "--version"@.len() == 9 && "-V"@.len() == 2);
    assert("-h"@[1] == 'h' && "-V"@[1] == 'V');
}

/// Law: the calls of a query and of a filter, of the criteria `x` and the database `y`, with or without
/// the place where the records are shown.
pub proof fn law_search_calls(p: Seq<char>, x: Seq<char>, y: Seq<char>, z: Seq<char>)
    ensures
        command_of(seq![p, query_word(), x, y]) == (CommandView::Query { qtv: x, dov: y, show: None }),
        command_of(seq![p, filter_word(), x, y]) == (CommandView::Filter { ftv: x, dov: y, show: None }),
        command_of(seq![p, query_word(), x, y, show_word()]) == (CommandView::Query {
            qtv: x,
            dov: y,
            show: Some(TargetView::Stdout),
        }),
        command_of(seq![p, filter_word(), x, y, show_word()]) == (CommandView::Filter {
            ftv: x,
            dov: y,
            show: Some(TargetView::Stdout),
        }),
        command_of(seq![p, query_word(), x, y, show_word(), dash()]) == (CommandView::Query {
            qtv: x,
            dov: y,
            show: Some(TargetView::Stdout),
        }),
        command_of(seq![p, filter_word(), x, y, show_word(), dash()]) == (CommandView::Filter {
            ftv: x,
            dov: y,
            show: Some(TargetView::Stdout),
        }),
        z.len() == 0 || z[0] != '-' ==> command_of(seq![p, query_word(), x, y, show_word(), z]) == (
        CommandView::Query { qtv: x, dov: y, show: Some(TargetView::File(z)) }),
        z.len() == 0 || z[0] != '-' ==> command_of(seq![p, filter_word(), x, y, show_word(), z]) == (
        CommandView::Filter { ftv: x, dov: y, show: Some(TargetView::File(z)) }),
        z.len() > 1 && z[0] == '-' ==> command_of(seq![p, query_word(), x, y, show_word(), z])
            is Refused,
        z.len() > 1 && z[0] == '-' ==> command_of(seq![p, filter_word(), x, y, show_word(), z])
            is Refused,
{
    lemma_words();
    assert(query_word().len() == 7 && filter_word().len() == 8);
    assert(dash().len() == 1 && dash()[0] == '-');
}

/// Law: the call that shows the records of the identifiers of `x`, and what makes no call.
pub proof fn law_other_calls(p: Seq<char>, x: Seq<char>, y: Seq<char>, a: Seq<Seq<char>>)
    ensures
        x.len() <= 1 || x[0] != '-' ==> command_of(seq![p, records_word(), x, y]) == (
        CommandView::Records { input: x, dov: y }),
        x.len() > 1 && x[0] == '-' ==> command_of(seq![p, records_word(), x, y]) is Refused,
        a.len() == 0 || a.len() > 6 ==> command_of(a) == CommandView::Usage,
        a.len() == 4 && a[1] != query_word() && a[1] != filter_word() && a[1] != records_word()
            ==> command_of(a) == CommandView::Usage,
        a.len() == 5 || a.len() == 6 ==> (a[1] != query_word() && a[1] != filter_word() || a[4]
            != show_word()) ==> command_of(a) == CommandView::Usage,
{
    lemma_words();
    assert(query_word().len() == 7 && filter_word().len() == 8 && records_word().len() == 9);
}

} // verus!
