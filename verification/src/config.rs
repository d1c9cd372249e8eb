//! The configuration file: a flat table of `key = value` lines.
//!
//! Blank lines and lines that start with `#` are skipped; a value may stand between double
//! quotes. The one key is `utc_offset`, the offset of written moments from UTC: `Z`, `UTC`, or a
//! signed `+HH:MM`, `+HHMM` or `+HH`. An unknown key, a malformed line or a bad value is an error.
use crate::action::parse_err;
use crate::error::{debug_of, debug_text, outcome, parse_error, ErrorView, Result, TsdbError};
use crate::text::{
    cat2, cat3, cat4, cat5, chars_of, copy_of, dec, dec_of, lines, lines_of, str_eq, string_of, trim, trim_of,
    views,
};
use vstd::prelude::*;

verus! {

/// The name of the configuration file, in the working directory or in the home directory.
pub const CONFIG_FILE_NAME: &'static str = ".tsdb.toml";

/// The settings.
#[derive(Debug, Clone, Copy, PartialEq, Eq, Structural)]
pub struct Config {
    /// Seconds to add to UTC in written moments.
    pub utc_offset_secs: i64,
}

impl View for Config {
    type V = Config;

    open spec fn view(&self) -> Config {
        *self
    }
}

impl Default for Config {
    fn default() -> (r: Self)
        ensures
            r == (Config { utc_offset_secs: 0 }),
    {
        Config { utc_offset_secs: 0 }
    }
}

/// A place where the configuration file may be.
#[derive(Debug)]
pub struct Candidate {
    pub path: String,
    pub is_file: bool,
}

/// The position of the first `c` in `s` from `i` on; the length if there is none.
pub open spec fn first_of(s: Seq<char>, c: char, i: int) -> int
    decreases s.len() - i,
{
    if i >= s.len() || s[i] == c {
        i
    } else {
        first_of(s, c, i + 1)
    }
}

/// The number that two decimal digits make.
pub open spec fn two_digits(s: Seq<char>) -> Option<int> {
    if s.len() == 2 && '0' <= s[0] <= '9' && '0' <= s[1] <= '9' {
        Some((s[0] as int - '0' as int) * 10 + (s[1] as int - '0' as int))
    } else {
        None
    }
}

/// Whether a string names UTC itself.
pub open spec fn is_utc_name(s: Seq<char>) -> bool {
    ||| s.len() == 1 && (s[0] == 'z' || s[0] == 'Z')
    ||| s.len() == 3 && (s[0] == 'u' || s[0] == 'U') && (s[1] == 't' || s[1] == 'T') && (s[2] == 'c'
        || s[2] == 'C')
}

/// The hours and minutes of an offset without its sign.
pub open spec fn offset_parts(r: Seq<char>) -> Option<(Seq<char>, Seq<char>)> {
    let i = first_of(r, ':', 0);
    if i < r.len() {
        if i + 1 < r.len() {
            Some((r.take(i), r.skip(i + 1)))
        } else {
            None
        }
    } else if r.len() == 2 {
        Some((r, Seq::empty()))
    } else if r.len() == 4 {
        Some((r.take(2), r.skip(2)))
    } else {
        None
    }
}

/// The seconds of an offset without its sign: at most a day, with fewer than sixty minutes.
pub open spec fn offset_size(r: Seq<char>) -> Option<int> {
    match offset_parts(r) {
        None => None,
        Some((hh, mm)) => match (two_digits(hh), if mm.len() == 0 { Some(0int) } else { two_digits(mm) }) {
            (Some(h), Some(m)) => if m <= 59 && h * 3600 + m * 60 <= 24 * 3600 {
                Some(h * 3600 + m * 60)
            } else {
                None
            },
            _ => None,
        },
    }
}

/// The seconds east of UTC that a string says.
pub open spec fn offset_of(s: Seq<char>) -> Option<int> {
    let t = trim(s);
    if is_utc_name(t) {
        Some(0)
    } else if t.len() > 0 && t[0] == '+' {
        offset_size(t.skip(1))
    } else if t.len() > 0 && t[0] == '-' {
        match offset_size(t.skip(1)) {
            Some(n) => Some(-n),
            None => None,
        }
    } else {
        None
    }
}

/// The key and the value of a trimmed line.
pub open spec fn setting_of(s: Seq<char>, line: usize) -> core::result::Result<
    (Seq<char>, Seq<char>),
    ErrorView,
> {
    let i = first_of(s, '=', 0);
    if i >= s.len() {
        parse_err(line, "expected `key = value`, found "@ + debug_text(s))
    } else {
        let key = trim(s.take(i));
        let value = trim(s.skip(i + 1));
        if key.len() == 0 {
            parse_err(line, "empty key"@)
        } else if value.len() > 0 && value[0] == '"' {
            let rest = value.skip(1);
            if rest.len() > 0 && rest.last() == '"' {
                Ok((key, rest.drop_last()))
            } else {
                parse_err(line, "unterminated string "@ + debug_text(value))
            }
        } else {
            Ok((key, value))
        }
    }
}

/// The settings after the lines from `i` on.
pub open spec fn config_from(ls: Seq<Seq<char>>, i: int, c: Config) -> core::result::Result<
    Config,
    ErrorView,
>
    decreases ls.len() - i,
{
    if i >= ls.len() {
        Ok(c)
    } else {
        let s = trim(ls[i]);
        let line = (i + 1) as usize;
        if s.len() == 0 || s[0] == '#' {
            config_from(ls, i + 1, c)
        } else {
            match setting_of(s, line) {
                Err(e) => Err(e),
                Ok((key, value)) => if key != "utc_offset"@ {
                    parse_err(line, "unknown key "@ + debug_text(key))
                } else {
                    match offset_of(value) {
                        None => parse_err(
                            line,
                            "invalid utc_offset "@ + debug_text(value)
                                + "; expected Z, UTC, or +HH:MM / -HH:MM"@,
                        ),
                        Some(n) => config_from(ls, i + 1, Config { utc_offset_secs: n as i64 }),
                    }
                },
            }
        }
    }
}

/// The settings that the text of a configuration file says.
pub open spec fn config_of(text: Seq<char>) -> core::result::Result<Config, ErrorView> {
    config_from(lines(text), 0, Config { utc_offset_secs: 0 })
}

/// The configuration file that applies: the one of the project before the one of the user, and
/// only a regular file.
pub fn discover_in(project: Option<Candidate>, home: Option<Candidate>) -> (r: Option<String>)
    ensures
        match r {
            Some(p) => if project is Some && project->0.is_file {
                p@ == project->0.path@
            } else {
                home is Some && home->0.is_file && p@ == home->0.path@
            },
            None => !(project is Some && project->0.is_file) && !(home is Some && home->0.is_file),
        },
{
    if let Some(c) = project {
        if c.is_file {
            return Some(c.path);
        }
    }
    if let Some(c) = home {
        if c.is_file {
            return Some(c.path);
        }
    }
    None
}

fn index_of(v: &Vec<char>, c: char) -> (r: usize)
    ensures
        r == first_of(v@, c, 0),
        r <= v@.len(),
{
    let mut i: usize = 0;
    while i < v.len() && v[i] != c
        invariant
            i <= v@.len(),
            first_of(v@, c, 0) == first_of(v@, c, i as int),
        decreases v@.len() - i,
    {
        i += 1;
    }
    i
}

fn digit_of(c: char) -> (r: Option<i64>)
    ensures
        match r {
            Some(d) => '0' <= c <= '9' && d == c as int - '0' as int && 0 <= d <= 9,
            None => !('0' <= c <= '9'),
        },
{
    if '0' <= c && c <= '9' {
        Some(c as i64 - 48)
    } else {
        None
    }
}

/// The number that `v[from..to]` makes.
fn two_digits_of(v: &Vec<char>, from: usize, to: usize) -> (r: Option<i64>)
    requires
        from <= to <= v@.len(),
    ensures
        match r {
            Some(n) => two_digits(v@.subrange(from as int, to as int)) == Some(n as int) && 0 <= n
                <= 99,
            None => two_digits(v@.subrange(from as int, to as int)) is None,
        },
{
    if to - from != 2 {
        return None;
    }
    match (digit_of(v[from]), digit_of(v[from + 1])) {
        (Some(a), Some(b)) => Some(a * 10 + b),
        _ => None,
    }
}

/// The seconds that the offset `v[1..]` says, without its sign.
fn parse_offset_size(v: &Vec<char>) -> (r: Option<i64>)
    requires
        v@.len() > 0,
    ensures
        match r {
            Some(n) => offset_size(v@.skip(1)) == Some(n as int) && 0 <= n <= 86400,
            None => offset_size(v@.skip(1)) is None,
        },
{
    let n: usize = v.len();
    let mut rest: Vec<char> = Vec::new();
    let mut i: usize = 1;
    while i < n
        invariant
            1 <= i <= n == v@.len(),
            rest@ == v@.subrange(1, i as int),
        decreases n - i,
    {
        rest.push(v[i]);
        i += 1;
    }
    assert(rest@ == v@.skip(1));
    let len: usize = rest.len();
    let colon = index_of(&rest, ':');
    let (h, m): (Option<i64>, Option<i64>) = if colon < len {
        if colon + 1 >= len {
            return None;
        }
        assert(rest@.take(colon as int) == rest@.subrange(0, colon as int));
        assert(rest@.skip(colon + 1) == rest@.subrange(colon + 1, len as int));
        (two_digits_of(&rest, 0, colon), two_digits_of(&rest, colon + 1, len))
    } else if len == 2 {
        assert(rest@.subrange(0, 2) == rest@);
        (two_digits_of(&rest, 0, 2), Some(0))
    } else if len == 4 {
        assert(rest@.take(2) == rest@.subrange(0, 2));
        assert(rest@.skip(2) == rest@.subrange(2, 4));
        (two_digits_of(&rest, 0, 2), two_digits_of(&rest, 2, 4))
    } else {
        return None;
    };
    match (h, m) {
        (Some(h), Some(m)) => {
            if m <= 59 && h * 3600 + m * 60 <= 24 * 3600 {
                Some(h * 3600 + m * 60)
            } else {
                None
            }
        },
        _ => None,
    }
}

/// The seconds east of UTC that a string says.
pub fn parse_utc_offset(s: &str) -> (r: Option<i64>)
    ensures
        match r {
            Some(n) => offset_of(s@) == Some(n as int) && -86400 <= n <= 86400,
            None => offset_of(s@) is None,
        },
{
    let t = trim_of(s);
    let v = chars_of(t.as_str());
    let n: usize = v.len();
    if (n == 1 && (v[0] == 'z' || v[0] == 'Z')) || (n == 3 && (v[0] == 'u' || v[0] == 'U') && (v[1]
        == 't' || v[1] == 'T') && (v[2] == 'c' || v[2] == 'C')) {
        return Some(0);
    }
    if n == 0 {
        return None;
    }
    if v[0] == '+' {
        parse_offset_size(&v)
    } else if v[0] == '-' {
        match parse_offset_size(&v) {
            Some(k) => Some(-k),
            None => None,
        }
    } else {
        None
    }
}

/// Split a trimmed line into key and value.
fn split_key_value(line: &str, line_no: usize) -> (r: Result<(String, String)>)
    ensures
        match r {
            Ok(p) => setting_of(line@, line_no) == Ok::<(Seq<char>, Seq<char>), ErrorView>(
                (p.0@, p.1@),
            ),
            Err(e) => setting_of(line@, line_no) == Err::<(Seq<char>, Seq<char>), ErrorView>(e@),
        },
{
    let v = chars_of(line);
    let eq = index_of(&v, '=');
    if eq >= v.len() {
        return Err(
            parse_error(
                line_no,
                cat2("expected `key = value`, found ", debug_of(line).as_str()),
            ),
        );
    }
    let raw_key = string_of(&v, 0, eq);
    let raw_value = string_of(&v, eq + 1, v.len());
    assert(raw_key@ == line@.take(eq as int));
    assert(raw_value@ == line@.skip(eq + 1));
    let key = trim_of(raw_key.as_str());
    let value = trim_of(raw_value.as_str());
    if key.as_str().is_empty() {
        return Err(parse_error(line_no, copy_of("empty key")));
    }
    let w = chars_of(value.as_str());
    let n: usize = w.len();
    if n > 0 && w[0] == '"' {
        if n > 1 && w[n - 1] == '"' {
            let inner = string_of(&w, 1, n - 1);
            assert(inner@ == value@.skip(1).drop_last());
            return Ok((key, inner));
        }
        return Err(
            parse_error(line_no, cat2("unterminated string ", debug_of(value.as_str()).as_str())),
        );
    }
    Ok((key, value))
}

/// Parse the text of a configuration file.
pub fn parse_config(text: &str) -> (r: Result<Config>)
    ensures
        outcome(r) == config_of(text@),
        r matches Ok(c) ==> -86400 <= c.utc_offset_secs <= 86400,
{
    let ls = lines_of(text);
    let ghost all = lines(text@);
    let mut cfg = Config::default();
    let mut i: usize = 0;
    while i < ls.len()
        invariant
            i <= ls@.len(),
            all == views(ls@),
            all == lines(text@),
            config_of(text@) == config_from(all, i as int, cfg),
            -86400 <= cfg.utc_offset_secs <= 86400,
        decreases ls@.len() - i,
    {
        assert(all[i as int] == ls@[i as int]@);
        let line = trim_of(ls[i].as_str());
        if !crate::action::is_skipped(line.as_str()) {
            let (key, value) = match split_key_value(line.as_str(), i + 1) {
                Ok(p) => p,
                Err(e) => {
                    return Err(e);
                },
            };
            if !str_eq(key.as_str(), "utc_offset") {
                return Err(
                    parse_error(i + 1, cat2("unknown key ", debug_of(key.as_str()).as_str())),
                );
            }
            match parse_utc_offset(value.as_str()) {
                Some(n) => {
                    cfg = Config { utc_offset_secs: n };
                },
                None => {
                    return Err(
                        parse_error(
                            i + 1,
                            cat3(
                                "invalid utc_offset ",
                                debug_of(value.as_str()).as_str(),
                                "; expected Z, UTC, or +HH:MM / -HH:MM",
                            ),
                        ),
                    );
                },
            }
        }
        i += 1;
    }
    Ok(cfg)
}

/// What loading the configuration file at `path` gives, when reading it gave `read`: its text, or
/// the system's description of the failure.
pub open spec fn loaded(
    path: Seq<char>,
    read: core::result::Result<Seq<char>, Seq<char>>,
) -> core::result::Result<Config, ErrorView> {
    match read {
        Err(e) => Err(ErrorView::Other("cannot read config "@ + path + ": "@ + e)),
        Ok(text) => match config_of(text) {
            Ok(c) => Ok(c),
            Err(ErrorView::ParseError { line, message }) => Err(
                ErrorView::Other(
                    "config "@ + path + " line "@ + dec(line as nat) + (": "@ + message),
                ),
            ),
            Err(e) => Err(e),
        },
    }
}

/// Load the configuration file at `path` from what reading it gave.
pub fn load_read(path: &str, read: core::result::Result<String, String>) -> (r: Result<Config>)
    ensures
        outcome(r) == loaded(
            path@,
            match read {
                Ok(t) => Ok(t@),
                Err(e) => Err(e@),
            },
        ),
        r matches Ok(c) ==> -86400 <= c.utc_offset_secs <= 86400,
{
    match read {
        Err(e) => Err(TsdbError::Other(cat4("cannot read config ", path, ": ", e.as_str()))),
        Ok(text) => match parse_config(text.as_str()) {
            Ok(c) => Ok(c),
            Err(TsdbError::ParseError { line, message }) => {
                let tail = cat2(": ", message.as_str());
                Err(
                    TsdbError::Other(
                        cat5("config ", path, " line ", dec_of(line as u64).as_str(), tail.as_str()),
                    ),
                )
            },
            Err(e) => Err(e),
        },
    }
}

/// The settings in force: a configuration that cannot be loaded does not count, and the message
/// about it is handed back.
pub fn active_or_default(loaded: Result<Config>) -> (r: (Config, Option<String>))
    ensures
        match loaded {
            Ok(c) => r.0 == c && r.1 is None,
            Err(e) => r.0 == (Config { utc_offset_secs: 0 }) && (r.1 matches Some(m) && m@
                == "tsdb: "@ + e@.text() + "; using defaults"@),
        },
{
    match loaded {
        Ok(c) => (c, None),
        Err(e) => (
            Config::default(),
            Some(cat3("tsdb: ", e.message().as_str(), "; using defaults")),
        ),
    }
}

/// Law: every offset that is accepted is at most a day, whatever the text around it.
pub proof fn law_offset_within_a_day(s: Seq<char>)
    ensures
        offset_of(s) matches Some(n) ==> -86400 <= n <= 86400,
{
}

/// Law: the last assignment in a configuration file wins.
pub proof fn law_last_assignment_wins(ls: Seq<Seq<char>>, line: Seq<char>, a: Config, b: Config)
    requires
        trim(line).len() > 0,
        trim(line)[0] != '#',
        config_from(ls, 0, a) is Ok,
        config_from(ls, 0, b) is Ok,
        config_from(ls.push(line), 0, a) is Ok,
    ensures
        config_from(ls.push(line), 0, a) == config_from(ls.push(line), 0, b),
{
    lemma_config_push(ls, line, 0, a);
    lemma_config_push(ls, line, 0, b);
}

proof fn lemma_config_push(ls: Seq<Seq<char>>, line: Seq<char>, i: int, c: Config)
    requires
        0 <= i <= ls.len(),
        config_from(ls, i, c) is Ok,
    ensures
        config_from(ls.push(line), i, c) == config_from(
            ls.push(line),
            ls.len() as int,
            config_from(ls, i, c)->Ok_0,
        ),
    decreases ls.len() - i,
{
    if i < ls.len() {
        assert(ls.push(line)[i] == ls[i]);
        let s = trim(ls[i]);
        if s.len() == 0 || s[0] == '#' {
            lemma_config_push(ls, line, i + 1, c);
        } else {
            let p = setting_of(s, (i + 1) as usize)->Ok_0;
            lemma_config_push(ls, line, i + 1, Config { utc_offset_secs: offset_of(p.1)->0 as i64 });
        }
    }
}

} // verus!
