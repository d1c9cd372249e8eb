//! The names of the files beside a database file.
//!
//! Paths are strings with `/` between their components. A path's file name is its last component;
//! separators and `.` components at the end do not count.
use crate::text::{cat2, cat3, chars_of, str_eq, string_of};
use vstd::prelude::*;

verus! {

/// `p` without the separators and `.` components at its end.
pub open spec fn trimmed_path(p: Seq<char>) -> Seq<char>
    decreases p.len(),
{
    if p.len() > 1 && p.last() == '/' {
        trimmed_path(p.drop_last())
    } else if p.len() > 1 && p.last() == '.' && p[p.len() - 2] == '/' {
        trimmed_path(p.drop_last())
    } else {
        p
    }
}

/// Where the last component of `p` starts.
pub open spec fn name_start(p: Seq<char>) -> nat
    decreases p.len(),
{
    if p.len() == 0 || p.last() == '/' {
        p.len()
    } else {
        name_start(p.drop_last())
    }
}

/// The last component of a path without separators at its end.
pub open spec fn last_component(p: Seq<char>) -> Seq<char> {
    p.skip(name_start(p) as int)
}

/// Whether a component names a file.
pub open spec fn is_file_name(name: Seq<char>) -> bool {
    name.len() > 0 && name != "."@ && name != ".."@
}

/// The position of the last dot of `name`, or 0.
pub open spec fn last_dot(name: Seq<char>) -> nat
    decreases name.len(),
{
    if name.len() == 0 {
        0
    } else if name.last() == '.' {
        (name.len() - 1) as nat
    } else {
        last_dot(name.drop_last())
    }
}

/// A file name without its extension; a leading dot starts none.
pub open spec fn stem(name: Seq<char>) -> Seq<char> {
    if last_dot(name) == 0 {
        name
    } else {
        name.take(last_dot(name) as int)
    }
}

/// The path of `name` in the directory `dir`.
pub open spec fn joined_path(dir: Seq<char>, name: Seq<char>) -> Seq<char> {
    if dir.len() == 0 || dir.last() == '/' {
        dir + name
    } else {
        dir + "/"@ + name
    }
}

/// The path of the file beside `p` whose name is the stem of `p`'s with `suffix` behind it.
pub open spec fn companion(p: Seq<char>, suffix: Seq<char>) -> Seq<char> {
    let t = trimmed_path(p);
    let name = last_component(t);
    if is_file_name(name) {
        joined_path(trimmed_path(t.take(name_start(t) as int)), stem(name) + suffix)
    } else {
        joined_path(p, suffix)
    }
}

fn trimmed_len(v: &Vec<char>, len: usize) -> (n: usize)
    requires
        len <= v@.len(),
    ensures
        n <= len,
        trimmed_path(v@.take(len as int)) == v@.take(n as int),
{
    let mut n: usize = len;
    while n > 1 && (v[n - 1] == '/' || (v[n - 1] == '.' && v[n - 2] == '/'))
        invariant
            n <= len <= v@.len(),
            trimmed_path(v@.take(len as int)) == trimmed_path(v@.take(n as int)),
        decreases n,
    {
        assert(v@.take(n as int).drop_last() == v@.take(n - 1));
        n -= 1;
    }
    n
}

fn join_path(dir: &str, name: &str) -> (r: String)
    ensures
        r@ == joined_path(dir@, name@),
{
    let v = chars_of(dir);
    if v.len() == 0 || v[v.len() - 1] == '/' {
        cat2(dir, name)
    } else {
        cat3(dir, "/", name)
    }
}

/// The path of the file beside `path` whose name is the stem of `path`'s with `suffix` behind it.
pub fn companion_path(path: &str, suffix: &str) -> (r: String)
    ensures
        r@ == companion(path@, suffix@),
{
    let v = chars_of(path);
    assert(v@.take(v@.len() as int) == v@);
    let n = trimmed_len(&v, v.len());
    let ghost t = v@.take(n as int);
    let mut at: usize = n;
    while at > 0 && v[at - 1] != '/'
        invariant
            at <= n <= v@.len(),
            t == v@.take(n as int),
            name_start(t) == name_start(v@.take(at as int)),
        decreases at,
    {
        assert(v@.take(at as int).drop_last() == v@.take(at - 1));
        at -= 1;
    }
    let name = string_of(&v, at, n);
    assert(name@ == last_component(t));
    if name.as_str().is_empty() || str_eq(name.as_str(), ".") || str_eq(name.as_str(), "..") {
        return join_path(path, suffix);
    }
    let mut dot: usize = n - at;
    let w = chars_of(name.as_str());
    assert(w@.take(dot as int) == name@);
    while dot > 0 && w[dot - 1] != '.'
        invariant
            dot <= w@.len(),
            w@ == name@,
            last_dot(name@) == last_dot(w@.take(dot as int)),
        decreases dot,
    {
        assert(w@.take(dot as int).drop_last() == w@.take(dot - 1));
        dot -= 1;
    }
    let keep: usize = if dot <= 1 {
        w.len()
    } else {
        dot - 1
    };
    let base = string_of(&w, 0, keep);
    assert(base@ == stem(name@)) by {
        if dot <= 1 {
            assert(base@ == name@);
        } else {
            assert(base@ == name@.take(dot - 1));
        }
    }
    assert(t.take(at as int) == v@.take(at as int));
    let m = trimmed_len(&v, at);
    let dir = string_of(&v, 0, m);
    assert(dir@ == v@.take(m as int));
    join_path(dir.as_str(), cat2(base.as_str(), suffix).as_str())
}

} // verus!
