//! Records as JSON: one object in a line for each identifier of a list.
use crate::base62::{uuid_check, validate_uuid};
use crate::dotsv::{sorted_place, DotsvFile, FileView};
use crate::error::{debug_of, debug_text, parse_error, ErrorView, Result, TsdbError};
use crate::escape::{array_of, decode_array, strings_outcome};
use crate::fields::keys_of;
use crate::index::push_string;
use crate::keytype::{class_of, classify, KtType};
use crate::record::{record_of, Record, RecordView};
use crate::text::{
    byte_len, byte_len_of, cat2, cat4, chars_of, copy_of, dec, dec_of, hex_of, hex_text, split, split_on,
    str_eq, trim, trim_of, views,
};
use vstd::prelude::*;

verus! {

/// The byte order mark, which editors put at the start of a file.
pub const BYTE_ORDER_MARK: char = '\u{FEFF}';

/// Whether a line of an identifier list is not an identifier's: empty, or a comment.
pub open spec fn list_skipped(line: Seq<char>) -> bool {
    line.len() == 0 || line[0] == '#'
}

/// Why line `n` of an identifier list is refused, if it is. `first` says that no identifier came
/// before it.
pub open spec fn list_line_error(line: Seq<char>, n: usize, first: bool) -> Option<ErrorView> {
    if line.len() > 0 && line.last() == '\r' {
        Some(
            ErrorView::ParseError {
                line: n,
                message: "CRLF line endings not supported; convert with dos2unix"@,
            },
        )
    } else if list_skipped(line) {
        None
    } else if first && line[0] == BYTE_ORDER_MARK {
        Some(
            ErrorView::ParseError {
                line: n,
                message: "BOM at file start rejected; .utv must be UTF-8 without BOM"@,
            },
        )
    } else if byte_len(line) != 12 {
        Some(
            ErrorView::ParseError {
                line: n,
                message: "expected 12-char base62-Gu UUID, got "@ + dec(byte_len(line)) + " bytes: "@
                    + debug_text(line),
            },
        )
    } else if line != trim(line) {
        Some(
            ErrorView::ParseError {
                line: n,
                message: "UUID line has leading/trailing whitespace: "@ + debug_text(line),
            },
        )
    } else {
        match uuid_check(line) {
            Ok(_) => None,
            Err(e) => Some(ErrorView::ParseError { line: n, message: e.text() }),
        }
    }
}

/// The identifiers of the lines from `i` on. `first` says that no identifier came before them.
pub open spec fn list_from(ls: Seq<Seq<char>>, i: int, first: bool) -> core::result::Result<
    Seq<Seq<char>>,
    ErrorView,
>
    decreases ls.len() - i,
{
    if i >= ls.len() {
        Ok(Seq::empty())
    } else {
        match list_line_error(ls[i], (i + 1) as usize, first) {
            Some(e) => Err(e),
            None => if list_skipped(ls[i]) {
                list_from(ls, i + 1, first)
            } else {
                behind(seq![ls[i]], list_from(ls, i + 1, false))
            },
        }
    }
}

/// Put identifiers in front of others.
pub open spec fn behind(
    a: Seq<Seq<char>>,
    r: core::result::Result<Seq<Seq<char>>, ErrorView>,
) -> core::result::Result<Seq<Seq<char>>, ErrorView> {
    match r {
        Ok(b) => Ok(a + b),
        Err(e) => Err(e),
    }
}

/// What the text of an identifier list says.
pub open spec fn list_of(text: Seq<char>) -> core::result::Result<Seq<Seq<char>>, ErrorView> {
    list_from(split(text, '\n'), 0, true)
}

/// A character inside a JSON string.
pub open spec fn json_char(c: char) -> Seq<char> {
    if c == '"' {
        seq!['\\', '"']
    } else if c == '\\' {
        seq!['\\', '\\']
    } else if c as u32 == 8 {
        seq!['\\', 'b']
    } else if c as u32 == 12 {
        seq!['\\', 'f']
    } else if c == '\n' {
        seq!['\\', 'n']
    } else if c == '\r' {
        seq!['\\', 'r']
    } else if c == '\t' {
        seq!['\\', 't']
    } else if (c as u32) < 32 {
        seq!['\\', 'u', '0', '0'] + hex_text(c as nat, 2)
    } else {
        seq![c]
    }
}

/// What stands between the quotes of a JSON string.
pub open spec fn json_inner(s: Seq<char>) -> Seq<char>
    decreases s.len(),
{
    if s.len() == 0 {
        Seq::empty()
    } else {
        json_inner(s.drop_last()) + json_char(s.last())
    }
}

/// A JSON string.
pub open spec fn json_string(s: Seq<char>) -> Seq<char> {
    "\""@ + json_inner(s) + "\""@
}

/// The first `n` strings in JSON, with commas between them.
pub open spec fn json_items(v: Seq<Seq<char>>, n: int) -> Seq<char>
    decreases n,
{
    if n <= 0 {
        Seq::empty()
    } else if n == 1 {
        json_string(v[0])
    } else {
        json_items(v, n - 1) + ","@ + json_string(v[n - 1])
    }
}

/// A JSON array of strings.
pub open spec fn json_array(v: Seq<Seq<char>>) -> Seq<char> {
    "["@ + json_items(v, v.len() as int) + "]"@
}

/// A value in JSON.
pub open spec fn json_value(v: Seq<char>) -> core::result::Result<Seq<char>, ErrorView> {
    match class_of(v) {
        KtType::Array => match array_of(v) {
            Ok(es) => Ok(json_array(es)),
            Err(e) => Err(e),
        },
        KtType::Number => Ok(v),
        KtType::Boolean => Ok(v),
        KtType::Timestamp => Ok(json_string(v)),
        KtType::String => Ok(json_string(v)),
    }
}

/// What is written before an error, and the error, if there is one.
#[verifier::ext_equal]
pub struct Written {
    pub text: Seq<char>,
    pub error: Option<ErrorView>,
}

impl Written {
    /// What is written if this comes behind `s`.
    pub open spec fn after(self, s: Seq<char>) -> Written {
        Written { text: s + self.text, error: self.error }
    }

    /// Whether `new` and `r` are what writing this behind `old` gives.
    pub open spec fn describes(self, old: Seq<char>, new: Seq<char>, r: Result<()>) -> bool {
        new == old + self.text && match r {
            Ok(_) => self.error is None,
            Err(e) => self.error == Some(e@),
        }
    }
}

/// The members of a JSON object from key `i` of the increasing order on.
pub open spec fn json_members(m: Map<Seq<char>, Seq<char>>, i: int) -> Written
    decreases keys_of(m).len() - i,
{
    if i >= keys_of(m).len() {
        Written { text: "}\n"@, error: None }
    } else {
        let k = keys_of(m)[i];
        let head = ","@ + json_string(k) + ":"@;
        match json_value(m[k]) {
            Ok(t) => json_members(m, i + 1).after(head + t),
            Err(e) => Written { text: head, error: Some(e) },
        }
    }
}

/// The line of a record.
pub open spec fn jsonl_line(r: RecordView) -> Written {
    json_members(r.fields, 0).after("{\"_uuid\":\""@ + r.uuid + "\""@)
}

/// The line for an identifier without a record.
pub open spec fn missing_line(uuid: Seq<char>) -> Seq<char> {
    "{\"_uuid\":\""@ + uuid + "\",\"_missing\":true}\n"@
}

/// The line for an identifier in a database without pending lines.
#[verifier::opaque]
pub open spec fn uuid_line(f: FileView, uuid: Seq<char>) -> Written {
    match sorted_place(f, uuid) {
        Ok(i) => match record_of(f.sorted[i], (i + 1) as usize) {
            Ok(r) => jsonl_line(r),
            Err(e) => Written { text: Seq::empty(), error: Some(e) },
        },
        Err(_) => Written { text: missing_line(uuid), error: None },
    }
}

/// The lines for the identifiers from `i` on.
pub open spec fn uuid_lines(f: FileView, us: Seq<Seq<char>>, i: int) -> Written
    decreases us.len() - i,
{
    if i >= us.len() {
        Written { text: Seq::empty(), error: None }
    } else {
        let w = uuid_line(f, us[i]);
        if w.error is Some {
            w
        } else {
            uuid_lines(f, us, i + 1).after(w.text)
        }
    }
}

/// The lines for a list of identifiers.
pub open spec fn records_text(f: FileView, us: Seq<Seq<char>>) -> Written {
    if f.pending.len() > 0 {
        Written {
            text: Seq::empty(),
            error: Some(
                ErrorView::Other(
                    "post-compact pending non-empty (internal invariant broken)"@,
                ),
            ),
        }
    } else {
        uuid_lines(f, us, 0)
    }
}

/// Check line `n` of an identifier list.
fn check_list_line(line: &str, n: usize, first: bool) -> (r: Result<()>)
    ensures
        match r {
            Ok(_) => list_line_error(line@, n, first) is None,
            Err(e) => list_line_error(line@, n, first) == Some(e@),
        },
{
    let v = chars_of(line);
    if v.len() > 0 && v[v.len() - 1] == '\r' {
        return Err(
            parse_error(n, copy_of("CRLF line endings not supported; convert with dos2unix")),
        );
    }
    if v.len() == 0 || v[0] == '#' {
        return Ok(());
    }
    if first && v[0] == BYTE_ORDER_MARK {
        return Err(
            parse_error(n, copy_of("BOM at file start rejected; .utv must be UTF-8 without BOM")),
        );
    }
    let width: usize = byte_len_of(line);
    if width != 12 {
        return Err(
            parse_error(
                n,
                cat4(
                    "expected 12-char base62-Gu UUID, got ",
                    dec_of(width as u64).as_str(),
                    " bytes: ",
                    debug_of(line).as_str(),
                ),
            ),
        );
    }
    if !str_eq(line, trim_of(line).as_str()) {
        return Err(
            parse_error(
                n,
                cat2("UUID line has leading/trailing whitespace: ", debug_of(line).as_str()),
            ),
        );
    }
    match validate_uuid(line) {
        Ok(_) => Ok(()),
        Err(e) => Err(parse_error(n, e.message())),
    }
}

/// Parse an identifier list: one identifier in a line, with comments and empty lines between.
/// The order and repetitions are kept.
pub fn parse_uuid_lines(text: &str) -> (r: Result<Vec<String>>)
    ensures
        strings_outcome(r) == list_of(text@),
{
    let ls = split_on(text, '\n');
    let n: usize = ls.len();
    let ghost all = split(text@, '\n');
    let mut out: Vec<String> = Vec::new();
    let mut first = true;
    let mut i: usize = 0;
    assert(views(out@) == Seq::<Seq<char>>::empty());
    assert(behind(views(out@), list_from(all, 0, true)) == list_from(all, 0, true)) by {
        if let Ok(v) = list_from(all, 0, true) {
            assert(Seq::<Seq<char>>::empty() + v == v);
        }
    }
    while i < n
        invariant
            i <= n == ls@.len(),
            all == views(ls@),
            all == split(text@, '\n'),
            list_of(text@) == behind(views(out@), list_from(all, i as int, first)),
        decreases n - i,
    {
        assert(all[i as int] == ls@[i as int]@);
        let line: &str = ls[i].as_str();
        if let Err(e) = check_list_line(line, i + 1, first) {
            return Err(e);
        }
        let blank = match first_char(line) {
            Some(c) => c == '#',
            None => true,
        };
        if !blank {
            let ghost before = views(out@);
            push_string(&mut out, copy_of(line));
            assert(behind(
                before,
                behind(seq![line@], list_from(all, i + 1, false)),
            ) == behind(before.push(line@), list_from(all, i + 1, false))) by {
                if let Ok(v) = list_from(all, i + 1, false) {
                    assert(before + (seq![line@] + v) == before.push(line@) + v);
                }
            }
            first = false;
        }
        i += 1;
    }
    assert(views(out@) + Seq::<Seq<char>>::empty() == views(out@));
    Ok(out)
}

fn first_char(s: &str) -> (r: Option<char>)
    ensures
        r == (if s@.len() == 0 {
            None
        } else {
            Some(s@[0])
        }),
{
    let v = chars_of(s);
    if v.len() == 0 {
        None
    } else {
        Some(v[0])
    }
}

/// Append a JSON string to `out`. A `/` stands for itself, and so does every character beyond
/// ASCII.
pub fn write_json_string(out: &mut String, s: &str)
    ensures
        final(out)@ == old(out)@ + json_string(s@),
{
    let v = chars_of(s);
    let ghost start = out@;
    out.push_str("\"");
    let mut i: usize = 0;
    assert(v@.take(0) == Seq::<char>::empty());
    assert(out@ == start + "\""@ + json_inner(v@.take(0)));
    while i < v.len()
        invariant
            i <= v@.len(),
            out@ == start + "\""@ + json_inner(v@.take(i as int)),
        decreases v@.len() - i,
    {
        let c: char = v[i];
        let ghost before = out@;
        write_json_char(out, c);
        assert(v@.take(i + 1).drop_last() == v@.take(i as int));
        assert(v@.take(i + 1).last() == c);
        assert(out@ == start + "\""@ + json_inner(v@.take(i + 1)));
        i += 1;
    }
    assert(v@.take(v@.len() as int) == v@);
    out.push_str("\"");
    assert(out@ == start + json_string(s@));
}

fn write_json_char(out: &mut String, c: char)
    ensures
        final(out)@ == old(out)@ + json_char(c),
{
    let ghost start = out@;
    let n: u32 = c as u32;
    if c == '"' {
        out.push('\\');
        out.push('"');
    } else if c == '\\' {
        out.push('\\');
        out.push('\\');
    } else if n == 8 {
        out.push('\\');
        out.push('b');
    } else if n == 12 {
        out.push('\\');
        out.push('f');
    } else if c == '\n' {
        out.push('\\');
        out.push('n');
    } else if c == '\r' {
        out.push('\\');
        out.push('r');
    } else if c == '\t' {
        out.push('\\');
        out.push('t');
    } else if n < 32 {
        out.push('\\');
        out.push('u');
        out.push('0');
        out.push('0');
        assert(out@ == start + seq!['\\', 'u', '0', '0']);
        out.push_str(hex_of(n as u64, 2).as_str());
    } else {
        out.push(c);
    }
    assert(out@ == start + json_char(c));
}

/// Append a JSON array of strings to `out`.
pub fn write_json_array(out: &mut String, elements: &[String])
    ensures
        final(out)@ == old(out)@ + json_array(views(elements@)),
{
    let ghost start = out@;
    let ghost all = views(elements@);
    out.push_str("[");
    let n: usize = elements.len();
    let mut i: usize = 0;
    assert(out@ == start + "["@ + json_items(all, 0));
    while i < n
        invariant
            i <= n == elements@.len(),
            all == views(elements@),
            out@ == start + "["@ + json_items(all, i as int),
        decreases n - i,
    {
        let ghost before = out@;
        if i > 0 {
            out.push_str(",");
        }
        write_json_string(out, elements[i].as_str());
        assert(all[i as int] == elements@[i as int]@);
        assert(out@ == start + "["@ + json_items(all, i + 1));
        i += 1;
    }
    out.push_str("]");
    assert(out@ == start + json_array(all));
}

/// Append a value in JSON to `out`, written by its type. Nothing is appended if the value looks
/// like an array and is none.
pub fn encode_value(out: &mut String, raw_value: &str) -> (r: Result<()>)
    ensures
        match r {
            Ok(_) => json_value(raw_value@) matches Ok(t) && final(out)@ == old(out)@ + t,
            Err(e) => json_value(raw_value@) == Err::<Seq<char>, ErrorView>(e@) && final(out)@ == old(
                out,
            )@,
        },
{
    match classify(raw_value) {
        KtType::Array => match decode_array(raw_value) {
            Ok(elements) => {
                write_json_array(out, elements.as_slice());
                Ok(())
            },
            Err(e) => Err(e),
        },
        KtType::Number => {
            out.push_str(raw_value);
            Ok(())
        },
        KtType::Boolean => {
            out.push_str(raw_value);
            Ok(())
        },
        KtType::Timestamp => {
            write_json_string(out, raw_value);
            Ok(())
        },
        KtType::String => {
            write_json_string(out, raw_value);
            Ok(())
        },
    }
}

/// Append the line of a record to `out`: a JSON object with `_uuid` first and the fields in the
/// order of their keys. If a value cannot be written, the line ends before it.
pub fn emit_jsonl_line(out: &mut String, rec: &Record) -> (r: Result<()>)
    ensures
        jsonl_line(rec@).describes(old(out)@, final(out)@, r),
{
    let ghost start = out@;
    let ghost m = rec@.fields;
    out.push_str("{\"_uuid\":\"");
    out.push_str(rec.uuid.as_str());
    out.push_str("\"");
    let ghost head = "{\"_uuid\":\""@ + rec.uuid@ + "\""@;
    let n: usize = rec.fields.len();
    let mut i: usize = 0;
    let ghost done = head;
    assert(out@ == start + done);
    while i < n
        invariant
            i <= n == keys_of(m).len(),
            m == rec@.fields,
            start == old(out)@,
            out@ == start + done,
            jsonl_line(rec@) == json_members(m, i as int).after(done),
        decreases n - i,
    {
        let k: &String = rec.fields.key(i);
        let v: &String = rec.fields.value(i);
        out.push_str(",");
        write_json_string(out, k.as_str());
        out.push_str(":");
        let ghost part = ","@ + json_string(k@) + ":"@;
        assert(out@ == start + (done + part));
        if let Err(e) = encode_value(out, v.as_str()) {
            assert(json_members(m, i as int) == Written { text: part, error: Some(e@) });
            return Err(e);
        }
        proof {
            let t = json_value(v@)->Ok_0;
            let rest = json_members(m, i + 1);
            assert(rest.after(part + t).after(done) == rest.after(done + (part + t))) by {
                assert(done + ((part + t) + rest.text) == (done + (part + t)) + rest.text);
            }
            assert(start + (done + part) + t == start + (done + (part + t)));
            done = done + (part + t);
        }
        i += 1;
    }
    out.push_str("}\n");
    assert(out@ == start + (done + "}\n"@));
    Ok(())
}

/// Append the line for an identifier without a record to `out`.
pub fn emit_missing_line(out: &mut String, uuid: &str)
    ensures
        final(out)@ == old(out)@ + missing_line(uuid@),
{
    let ghost start = out@;
    out.push_str("{\"_uuid\":\"");
    out.push_str(uuid);
    out.push_str("\",\"_missing\":true}\n");
    assert(out@ == start + missing_line(uuid@));
}

/// Append the line for one identifier of a database without pending lines.
fn emit_uuid_line(out: &mut String, uuid: &str, db: &DotsvFile) -> (r: Result<()>)
    ensures
        uuid_line(db@, uuid@).describes(old(out)@, final(out)@, r),
{
    reveal(uuid_line);
    match db.binary_search_uuid(uuid) {
        Ok(i) => {
            let n: usize = db.sorted.len();
            assert(db@.sorted[i as int] == db.sorted@[i as int]@);
            match Record::parse(db.sorted[i].as_str(), i + 1) {
                Ok(rec) => emit_jsonl_line(out, &rec),
                Err(e) => {
                    assert(out@ + Seq::<char>::empty() == out@);
                    Err(e)
                },
            }
        },
        Err(_) => {
            emit_missing_line(out, uuid);
            Ok(())
        },
    }
}

/// Append the lines for a list of identifiers to `out`, in the order of the list. The database
/// must have no pending lines.
pub fn emit_records(out: &mut String, uuids: &[String], db: &DotsvFile) -> (r: Result<()>)
    ensures
        records_text(db@, views(uuids@)).describes(old(out)@, final(out)@, r),
{
    let ghost start = out@;
    let ghost us = views(uuids@);
    assert(start + Seq::<char>::empty() == start);
    assert(db@.pending.len() == db.pending@.len());
    if db.pending.len() > 0 {
        return Err(
            TsdbError::Other(
                copy_of("post-compact pending non-empty (internal invariant broken)"),
            ),
        );
    }
    let n: usize = uuids.len();
    let mut i: usize = 0;
    let ghost done = Seq::<char>::empty();
    proof {
        let w = uuid_lines(db@, us, 0);
        assert(done + w.text == w.text);
        assert(w.after(done) == w);
    }
    while i < n
        invariant
            i <= n == uuids@.len(),
            us == views(uuids@),
            db@.pending.len() == 0,
            start == old(out)@,
            out@ == start + done,
            records_text(db@, us) == uuid_lines(db@, us, i as int).after(done),
        decreases n - i,
    {
        assert(us[i as int] == uuids@[i as int]@);
        let ghost w = uuid_line(db@, us[i as int]);
        let ghost rest = uuid_lines(db@, us, i + 1);
        assert(start + done + w.text == start + (done + w.text));
        assert(rest.after(w.text).after(done) == rest.after(done + w.text)) by {
            assert(done + (w.text + rest.text) == (done + w.text) + rest.text);
        }
        if let Err(e) = emit_uuid_line(out, uuids[i].as_str(), db) {
            return Err(e);
        }
        proof {
            done = done + w.text;
        }
        i += 1;
    }
    assert(done + Seq::<char>::empty() == done);
    Ok(())
}

} // verus!
