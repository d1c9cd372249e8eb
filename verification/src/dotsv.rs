//! The database file: a sorted section of records and a pending section of operations.
//!
//! Records stand one per line in the order of their identifiers. A blank line ends that section;
//! the lines behind it are operations that were not merged yet, each with its opcode in front.
//! Lines that start with `#` are comments.
use crate::action::parse_err;
use crate::base62::{uuid_check, validate_uuid};
use crate::error::{debug_of, debug_text, outcome, parse_error, ErrorView, Result, TsdbError};
use crate::text::{
    byte_len, byte_len_of, byte_prefix, cat2, copy_of, lemma_first_byte, lemma_lead_byte,
    lemma_split_bytes_concat, lines, lines_of, split_bytes, splits_at, str_eq, str_less, str_lt,
    views,
};
use vstd::prelude::*;
use vstd::utf8::*;

pub use crate::apply::{apply_actions, validate_actions};
pub use crate::compact::maybe_compact;
pub use crate::record::Record;

verus! {

/// The file is compacted after a write if the number of its pending lines exceeds this.
pub const PENDING_COMPACT_THRESHOLD: usize = 100;

/// A database file in memory.
#[derive(Debug)]
pub struct DotsvFile {
    /// The lines of the sorted section.
    pub sorted: Vec<String>,
    /// The lines of the pending section, with their opcodes.
    pub pending: Vec<String>,
}

/// The lines of a database file.
#[verifier::ext_equal]
pub struct FileView {
    pub sorted: Seq<Seq<char>>,
    pub pending: Seq<Seq<char>>,
}

impl View for DotsvFile {
    type V = FileView;

    open spec fn view(&self) -> FileView {
        FileView { sorted: views(self.sorted@), pending: views(self.pending@) }
    }
}

/// `Ok` if a line can stand in the sorted section.
pub open spec fn sorted_check(line: Seq<char>, n: usize) -> core::result::Result<(), ErrorView> {
    if byte_len(line) < 13 {
        parse_err(n, "sorted section line too short (need >=13 bytes): "@ + debug_text(line))
    } else if !splits_at(line, 12) {
        parse_err(n, "UUID in sorted section ends inside a character: "@ + debug_text(line))
    } else {
        match uuid_check(byte_prefix(line, 12)) {
            Err(e) => parse_err(n, "invalid UUID in sorted section: "@ + e.text()),
            Ok(_) => Ok(()),
        }
    }
}

/// The sections that the lines from `i` on make.
pub open spec fn file_from(ls: Seq<Seq<char>>, i: int, in_pending: bool) -> core::result::Result<
    FileView,
    ErrorView,
>
    decreases ls.len() - i,
{
    if i >= ls.len() {
        Ok(FileView { sorted: Seq::empty(), pending: Seq::empty() })
    } else if ls[i].len() > 0 && ls[i][0] == '#' {
        file_from(ls, i + 1, in_pending)
    } else if ls[i].len() == 0 {
        file_from(ls, i + 1, true)
    } else if in_pending {
        match file_from(ls, i + 1, true) {
            Err(e) => Err(e),
            Ok(f) => Ok(FileView { sorted: f.sorted, pending: seq![ls[i]] + f.pending }),
        }
    } else {
        match sorted_check(ls[i], (i + 1) as usize) {
            Err(e) => Err(e),
            Ok(_) => match file_from(ls, i + 1, false) {
                Err(e) => Err(e),
                Ok(f) => Ok(FileView { sorted: seq![ls[i]] + f.sorted, pending: f.pending }),
            },
        }
    }
}

/// The lines, each with a line feed behind it.
pub open spec fn unlines(ls: Seq<Seq<char>>) -> Seq<char>
    decreases ls.len(),
{
    if ls.len() == 0 {
        Seq::empty()
    } else {
        unlines(ls.drop_last()) + ls.last() + "\n"@
    }
}

/// The comment line that says when a file was written.
pub open spec fn footer(stamp: Seq<char>) -> Seq<char> {
    "# "@ + stamp
}

/// The text of a database file that is written at the moment `stamp`.
pub open spec fn file_text(f: FileView, stamp: Seq<char>) -> Seq<char> {
    if f.pending.len() == 0 {
        unlines(f.sorted + seq![footer(stamp)])
    } else {
        unlines(f.sorted + seq![Seq::<char>::empty()] + f.pending + seq![footer(stamp)])
    }
}

/// Whether a character is an opcode.
pub open spec fn is_op(c: char) -> bool {
    c == '+' || c == '-' || c == '~' || c == '!'
}

/// The greatest position up to `n` that lies between two characters of `s`.
pub open spec fn cut(s: Seq<char>, n: nat) -> nat
    decreases n,
{
    if n == 0 || splits_at(s, n as int) {
        n
    } else {
        cut(s, (n - 1) as nat)
    }
}

/// The first twelve bytes of a line after its opcode; fewer where a character would be cut.
pub open spec fn uuid_part(line: Seq<char>) -> Seq<char> {
    let s = if line.len() > 0 && is_op(line[0]) {
        line.skip(1)
    } else {
        line
    };
    byte_prefix(s, cut(s, if byte_len(s) < 12 { byte_len(s) } else { 12 }) as int)
}

/// The identifiers of the lines.
pub open spec fn uuid_parts(ls: Seq<Seq<char>>) -> Seq<Seq<char>> {
    Seq::new(ls.len(), |i: int| uuid_part(ls[i]))
}

/// Binary search for `uuid` between places `lo` and `hi`: its place, or where it would go.
pub open spec fn search(us: Seq<Seq<char>>, uuid: Seq<char>, lo: int, hi: int) -> core::result::Result<
    int,
    int,
>
    decreases hi - lo,
{
    if lo >= hi {
        Err(lo)
    } else {
        let mid = lo + (hi - lo) / 2;
        if us[mid] == uuid {
            Ok(mid)
        } else if str_lt(us[mid], uuid) {
            search(us, uuid, mid + 1, hi)
        } else {
            search(us, uuid, lo, mid)
        }
    }
}

/// The place of `uuid` in the sorted section, or where it would go.
pub open spec fn sorted_place(f: FileView, uuid: Seq<char>) -> core::result::Result<int, int> {
    search(uuid_parts(f.sorted), uuid, 0, f.sorted.len() as int)
}

/// Whether a pending line is about `uuid`.
pub open spec fn mentions(line: Seq<char>, uuid: Seq<char>) -> bool {
    byte_len(line) >= 13 && encode_utf8(line).subrange(1, 13) == encode_utf8(uuid)
}

/// Whether no pending line is about `u`.
pub open spec fn unmentioned(f: FileView, u: Seq<char>) -> bool {
    forall|k: int| 0 <= k < f.pending.len() ==> !mentions(#[trigger] f.pending[k], u)
}

/// What the last pending line about `uuid` says: that it is there, or that it is deleted.
pub open spec fn pending_state(pending: Seq<Seq<char>>, uuid: Seq<char>) -> Option<bool>
    decreases pending.len(),
{
    if pending.len() == 0 {
        None
    } else if mentions(pending.last(), uuid) {
        Some(pending.last()[0] != '-')
    } else {
        pending_state(pending.drop_last(), uuid)
    }
}

/// Whether the database holds `uuid`.
pub open spec fn holds(f: FileView, uuid: Seq<char>) -> bool {
    match pending_state(f.pending, uuid) {
        Some(there) => there,
        None => sorted_place(f, uuid) is Ok,
    }
}

/// What the check of UTF-8 bytes says of malformed ones.
pub uninterp spec fn utf8_error_text(data: Seq<u8>) -> Seq<char>;

/// `std::str::from_utf8`: the string that the bytes encode, or, for bytes that are no UTF-8, the
/// text of the error. Of the text only its name is stated.
#[verifier::external_body]
fn text_of(data: &[u8]) -> (r: core::result::Result<String, String>)
    ensures
        match r {
            Ok(s) => valid_utf8(data@) && encode_utf8(s@) == data@,
            Err(e) => !valid_utf8(data@) && e@ == utf8_error_text(data@),
        },
{
    match std::str::from_utf8(data) {
        Ok(s) => Ok(s.to_string()),
        Err(e) => Err(format!("{}", e)),
    }
}

fn is_comment(line: &str) -> (r: bool)
    ensures
        r == (line@.len() > 0 && line@[0] == '#'),
{
    let b: &[u8] = line.as_bytes();
    proof {
        if line@.len() > 0 {
            lemma_first_byte(line@, '#');
        } else {
            assert(encode_utf8(line@).len() == 0);
        }
    }
    b.len() > 0 && b[0] == 35
}

/// Check that a line can stand in the sorted section.
fn check_sorted(line: &str, n: usize) -> (r: Result<()>)
    ensures
        outcome(r) == sorted_check(line@, n),
{
    if byte_len_of(line) < 13 {
        return Err(
            parse_error(
                n,
                cat2("sorted section line too short (need >=13 bytes): ", debug_of(line).as_str()),
            ),
        );
    }
    match split_bytes(line, 12) {
        None => Err(
            parse_error(
                n,
                cat2("UUID in sorted section ends inside a character: ", debug_of(line).as_str()),
            ),
        ),
        Some((uuid, rest)) => match validate_uuid(uuid) {
            Err(e) => Err(
                parse_error(n, cat2("invalid UUID in sorted section: ", e.message().as_str())),
            ),
            Ok(_) => Ok(()),
        },
    }
}

/// Append the lines to a text, each with a line feed behind it.
pub(crate) fn push_lines(out: &mut String, ls: &Vec<String>)
    ensures
        final(out)@ == old(out)@ + unlines(views(ls@)),
{
    let mut i: usize = 0;
    assert(old(out)@ + unlines(views(ls@).take(0)) == old(out)@);
    while i < ls.len()
        invariant
            i <= ls@.len(),
            out@ == old(out)@ + unlines(views(ls@).take(i as int)),
        decreases ls@.len() - i,
    {
        let ghost t = views(ls@).take(i + 1);
        assert(t.drop_last() == views(ls@).take(i as int));
        assert(t.last() == ls@[i as int]@);
        out.push_str(ls[i].as_str());
        out.push_str("\n");
        assert(out@ == old(out)@ + (unlines(t.drop_last()) + t.last() + "\n"@));
        i += 1;
    }
    assert(views(ls@).take(ls@.len() as int) == views(ls@));
}

pub proof fn lemma_unlines_concat(a: Seq<Seq<char>>, b: Seq<Seq<char>>)
    ensures
        unlines(a + b) == unlines(a) + unlines(b),
    decreases b.len(),
{
    if b.len() == 0 {
        assert(a + b == a);
        assert(unlines(a) + unlines(b) == unlines(a));
    } else {
        lemma_unlines_concat(a, b.drop_last());
        assert((a + b).drop_last() == a + b.drop_last());
        assert(unlines(a + b) == unlines(a) + (unlines(b.drop_last()) + b.last() + "\n"@));
    }
}

pub proof fn lemma_unlines_one(s: Seq<char>)
    ensures
        unlines(seq![s]) == s + "\n"@,
{
    assert(seq![s].drop_last() == Seq::<Seq<char>>::empty());
    assert(unlines(Seq::<Seq<char>>::empty()) + s == s);
}

impl DotsvFile {
    /// A file with no lines.
    pub fn empty() -> (r: Self)
        ensures
            r@ == (FileView { sorted: Seq::empty(), pending: Seq::empty() }),
    {
        let r = DotsvFile { sorted: Vec::new(), pending: Vec::new() };
        assert(r@.sorted == Seq::<Seq<char>>::empty());
        assert(r@.pending == Seq::<Seq<char>>::empty());
        r
    }

    /// Parse the bytes of a file.
    pub fn from_bytes(data: &[u8]) -> (r: Result<Self>)
        ensures
            outcome(r) == (if valid_utf8(data@) {
                file_from(lines(decode_utf8(data@)), 0, false)
            } else {
                Err(ErrorView::Other("UTF-8 decode error: "@ + utf8_error_text(data@)))
            }),
    {
        match text_of(data) {
            Ok(s) => {
                proof {
                    encode_utf8_decode_utf8(s@);
                }
                DotsvFile::parse_str(s.as_str())
            },
            Err(e) => Err(TsdbError::Other(cat2("UTF-8 decode error: ", e.as_str()))),
        }
    }

    /// Parse the text of a file.
    pub fn parse_str(text: &str) -> (r: Result<Self>)
        ensures
            outcome(r) == file_from(lines(text@), 0, false),
    {
        let ls = lines_of(text);
        let ghost all = lines(text@);
        let mut f = DotsvFile::empty();
        let mut in_pending = false;
        let mut i: usize = 0;
        proof {
            match file_from(all, 0, false) {
                Ok(g) => {
                    assert(f@.sorted + g.sorted == g.sorted);
                    assert(f@.pending + g.pending == g.pending);
                },
                Err(e) => {},
            }
        }
        while i < ls.len()
            invariant
                i <= ls@.len(),
                all == views(ls@),
                all == lines(text@),
                file_from(all, 0, false) == (match file_from(all, i as int, in_pending) {
                    Ok(g) => Ok::<FileView, ErrorView>(
                        FileView { sorted: f@.sorted + g.sorted, pending: f@.pending + g.pending },
                    ),
                    Err(e) => Err(e),
                }),
                in_pending || f@.pending.len() == 0,
            decreases ls@.len() - i,
        {
            let line: &String = &ls[i];
            assert(all[i as int] == line@);
            let ghost before = f@;
            if is_comment(line.as_str()) {
            } else if line.as_str().is_empty() {
                in_pending = true;
            } else if in_pending {
                f.pending.push(copy_of(line.as_str()));
                proof {
                    assert(f@.pending == before.pending.push(line@));
                    assert(f@.sorted == before.sorted);
                    match file_from(all, i + 1, true) {
                        Ok(g) => assert(before.pending + (seq![line@] + g.pending) == f@.pending
                            + g.pending),
                        Err(e) => {},
                    }
                }
            } else {
                match check_sorted(line.as_str(), i + 1) {
                    Err(e) => {
                        return Err(e);
                    },
                    Ok(_) => {},
                }
                f.sorted.push(copy_of(line.as_str()));
                proof {
                    assert(f@.sorted == before.sorted.push(line@));
                    assert(f@.pending == before.pending);
                    match file_from(all, i + 1, false) {
                        Ok(g) => assert(before.sorted + (seq![line@] + g.sorted) == f@.sorted
                            + g.sorted),
                        Err(e) => {},
                    }
                }
            }
            i += 1;
        }
        proof {
            assert(f@.sorted + Seq::<Seq<char>>::empty() == f@.sorted);
            assert(f@.pending + Seq::<Seq<char>>::empty() == f@.pending);
        }
        Ok(f)
    }

    /// The text to write for this file, with the moment of writing as its last line.
    pub fn to_text(&self, stamp: &str) -> (r: String)
        ensures
            r@ == file_text(self@, stamp@),
    {
        let mut out = String::new();
        push_lines(&mut out, &self.sorted);
        assert(out@ == unlines(self@.sorted));
        let ghost empty_line = Seq::<char>::empty();
        if self.pending.len() > 0 {
            out.push_str("\n");
            push_lines(&mut out, &self.pending);
            proof {
                lemma_unlines_one(empty_line);
                lemma_unlines_concat(self@.sorted, seq![empty_line]);
                lemma_unlines_concat(self@.sorted + seq![empty_line], self@.pending);
                assert(unlines(seq![empty_line]) == "\n"@);
                assert(out@ == unlines(self@.sorted + seq![empty_line] + self@.pending));
                lemma_unlines_concat(
                    self@.sorted + seq![empty_line] + self@.pending,
                    seq![footer(stamp@)],
                );
            }
        } else {
            proof {
                lemma_unlines_concat(self@.sorted, seq![footer(stamp@)]);
            }
        }
        let last = cat2("# ", stamp);
        let ghost before = out@;
        out.push_str(last.as_str());
        out.push_str("\n");
        proof {
            lemma_unlines_one(footer(stamp@));
            assert(out@ == before + (footer(stamp@) + "\n"@));
        }
        out
    }

    /// Binary search of the sorted section: the place of `uuid`, or where it would go.
    pub fn binary_search_uuid(&self, uuid: &str) -> (r: core::result::Result<usize, usize>)
        ensures
            match r {
                Ok(i) => sorted_place(self@, uuid@) == Ok::<int, int>(i as int) && i
                    < self.sorted@.len(),
                Err(i) => sorted_place(self@, uuid@) == Err::<int, int>(i as int) && i
                    <= self.sorted@.len(),
            },
    {
        let mut lo: usize = 0;
        let mut hi: usize = self.sorted.len();
        let ghost us = uuid_parts(self@.sorted);
        while lo < hi
            invariant
                lo <= hi <= self.sorted@.len(),
                us == uuid_parts(self@.sorted),
                sorted_place(self@, uuid@) == search(us, uuid@, lo as int, hi as int),
            decreases hi - lo,
        {
            let mid: usize = lo + (hi - lo) / 2;
            let u = line_uuid(self.sorted[mid].as_str());
            assert(us[mid as int] == u@);
            if str_eq(u, uuid) {
                return Ok(mid);
            }
            if str_less(u, uuid) {
                lo = mid + 1;
            } else {
                hi = mid;
            }
        }
        Err(lo)
    }

    /// The first pending line about `uuid`.
    pub fn find_in_pending(&self, uuid: &str) -> (r: Option<usize>)
        ensures
            match r {
                Some(i) => i < self@.pending.len() && mentions(self@.pending[i as int], uuid@)
                    && forall|k: int|
                    0 <= k < i ==> !mentions(#[trigger] self@.pending[k], uuid@),
                None => forall|k: int|
                    0 <= k < self@.pending.len() ==> !mentions(#[trigger] self@.pending[k], uuid@),
            },
    {
        let mut i: usize = 0;
        while i < self.pending.len()
            invariant
                i <= self.pending@.len(),
                forall|k: int| 0 <= k < i ==> !mentions(#[trigger] self@.pending[k], uuid@),
            decreases self.pending@.len() - i,
        {
            assert(self@.pending[i as int] == self.pending@[i as int]@);
            if line_mentions(self.pending[i].as_str(), uuid) {
                return Some(i);
            }
            i += 1;
        }
        None
    }

    /// Whether the database holds `uuid`; the last pending line about it counts.
    pub fn uuid_exists(&self, uuid: &str) -> (r: bool)
        ensures
            r == holds(self@, uuid@),
    {
        let mut n: usize = self.pending.len();
        assert(self@.pending.take(n as int) == self@.pending);
        while n > 0
            invariant
                n <= self.pending@.len(),
                pending_state(self@.pending, uuid@) == pending_state(
                    self@.pending.take(n as int),
                    uuid@,
                ),
            decreases n,
        {
            let line: &String = &self.pending[n - 1];
            assert(self@.pending.take(n as int).last() == line@);
            assert(self@.pending.take(n as int).drop_last() == self@.pending.take(n - 1));
            if line_mentions(line.as_str(), uuid) {
                let b: &[u8] = line.as_str().as_bytes();
                proof {
                    if line@.len() == 0 {
                        assert(encode_utf8(line@).len() == 0);
                    }
                    lemma_first_byte(line@, '-');
                }
                return b[0] != 45;
            }
            n -= 1;
        }
        self.binary_search_uuid(uuid).is_ok()
    }

    /// The number of pending lines.
    pub fn pending_count(&self) -> (r: usize)
        ensures
            r == self@.pending.len(),
    {
        self.pending.len()
    }
}

/// Whether a pending line is about `uuid`.
fn line_mentions(line: &str, uuid: &str) -> (r: bool)
    ensures
        r == mentions(line@, uuid@),
{
    let b: &[u8] = line.as_bytes();
    let u: &[u8] = uuid.as_bytes();
    if b.len() < 13 {
        return false;
    }
    if u.len() != 12 {
        assert(encode_utf8(line@).subrange(1, 13).len() == 12);
        return false;
    }
    let mut i: usize = 0;
    while i < 12
        invariant
            i <= 12,
            b@ == encode_utf8(line@),
            u@ == encode_utf8(uuid@),
            b@.len() >= 13,
            u@.len() == 12,
            forall|k: int| 0 <= k < i ==> b@[k + 1] == u@[k],
        decreases 12 - i,
    {
        if b[i + 1] != u[i] {
            assert(b@.subrange(1, 13)[i as int] != u@[i as int]);
            return false;
        }
        i += 1;
    }
    assert(b@.subrange(1, 13) == u@);
    true
}

fn starts_with_op(line: &str) -> (r: bool)
    ensures
        r == (line@.len() > 0 && is_op(line@[0])),
{
    let b: &[u8] = line.as_bytes();
    proof {
        if line@.len() > 0 {
            lemma_first_byte(line@, '+');
            lemma_first_byte(line@, '-');
            lemma_first_byte(line@, '~');
            lemma_first_byte(line@, '!');
        } else {
            assert(encode_utf8(line@).len() == 0);
        }
    }
    b.len() > 0 && (b[0] == 43 || b[0] == 45 || b[0] == 126 || b[0] == 33)
}

/// The identifier at the start of a sorted or pending line.
pub fn line_uuid(line: &str) -> (r: &str)
    ensures
        r@ == uuid_part(line@),
{
    let s: &str = if starts_with_op(line) {
        proof {
            assert(line@ == seq![line@[0]] + line@.skip(1));
            lemma_split_bytes_concat(seq![line@[0]], line@.skip(1));
            lemma_lead_byte(line@[0]);
            assert(seq![line@[0]].drop_first() == Seq::<char>::empty());
            assert(encode_utf8(seq![line@[0]]) == encode_scalar(line@[0] as u32) + encode_utf8(
                Seq::<char>::empty(),
            ));
        }
        match split_bytes(line, 1) {
            Some((op, rest)) => rest,
            None => line,
        }
    } else {
        line
    };
    let total: usize = byte_len_of(s);
    let mut n: usize = if total < 12 {
        total
    } else {
        12
    };
    let ghost first = n;
    proof {
        encode_utf8_valid_utf8(s@);
    }
    while n > 0 && !s.is_char_boundary(n)
        invariant
            n <= first <= byte_len(s@),
            cut(s@, first as nat) == cut(s@, n as nat),
        decreases n,
    {
        n -= 1;
    }
    proof {
        encode_utf8_valid_utf8(s@);
        is_char_boundary_start_end_of_seq(encode_utf8(s@));
    }
    match split_bytes(s, n) {
        Some((u, rest)) => u,
        None => s,
    }
}

} // verus!
