//! Records and their lines: an identifier and `key=value` fields, separated by tabs.
use crate::action::{
    equals_from, last_values, pair_of, pairs_from, parse_err, parse_parts, proper, stored_parts,
};
use crate::base62::{is_uuid, lemma_uuid_chars, uuid_check, validate_uuid};
use crate::error::{outcome, parse_error, ErrorView, Result, TsdbError};
use crate::escape::{
    escape, escaped, escaped_char, is_delimiter, law_escaped_has_no_delimiter, law_unescape_escape,
};
use crate::fields::{keys_of, Fields};
use crate::sorted::{lemma_listed_finite, ordered};
use crate::text::{
    cat2, cat3, copy_of, join, join_with, lemma_split_join, split, split_on, str_eq, trim_end,
    trim_end_of, views,
};
use vstd::prelude::*;

verus! {

/// A record: an identifier and its fields.
#[derive(Debug)]
pub struct Record {
    pub uuid: String,
    pub fields: Fields,
}

/// What a record says.
#[verifier::ext_equal]
pub struct RecordView {
    pub uuid: Seq<char>,
    pub fields: Map<Seq<char>, Seq<char>>,
}

impl View for Record {
    type V = RecordView;

    open spec fn view(&self) -> RecordView {
        RecordView { uuid: self.uuid@, fields: self.fields@ }
    }
}

impl Clone for Record {
    fn clone(&self) -> (r: Self)
        ensures
            r@ == self@,
    {
        Record { uuid: copy_of(self.uuid.as_str()), fields: self.fields.clone() }
    }
}

/// A field as it is written.
pub open spec fn field_text(k: Seq<char>, v: Seq<char>) -> Seq<char> {
    escaped(k) + "="@ + escaped(v)
}

/// The fields as they are written, in the order of their keys.
pub open spec fn field_texts(m: Map<Seq<char>, Seq<char>>) -> Seq<Seq<char>> {
    Seq::new(keys_of(m).len(), |i: int| field_text(keys_of(m)[i], m[keys_of(m)[i]]))
}

/// The line of a record.
pub open spec fn record_line(uuid: Seq<char>, m: Map<Seq<char>, Seq<char>>) -> Seq<char> {
    join(seq![uuid] + field_texts(m), "\t"@)
}

/// The parts of a line, the last without the spaces at its end.
pub open spec fn trim_last(parts: Seq<Seq<char>>) -> Seq<Seq<char>> {
    if parts.len() == 0 {
        parts
    } else {
        parts.drop_last().push(trim_end(parts.last(), ' '))
    }
}

/// The record that a line says, or why it is malformed.
pub open spec fn record_of(line: Seq<char>, n: usize) -> core::result::Result<
    RecordView,
    ErrorView,
> {
    let parts = split(line, '\t');
    match uuid_check(parts[0]) {
        Err(e) => parse_err(n, e.text()),
        Ok(_) => match stored_parts(trim_last(parts.skip(1)), n) {
            Err(e) => Err(e),
            Ok(fields) => Ok(RecordView { uuid: parts[0], fields }),
        },
    }
}

/// The value that removes its key in a patch.
pub open spec fn tombstone() -> Seq<char> {
    "\0"@
}

/// The fields `m` after a patch: each patched key has its new value, or is gone.
pub open spec fn patched(
    m: Map<Seq<char>, Seq<char>>,
    patch: Map<Seq<char>, Seq<char>>,
) -> Map<Seq<char>, Seq<char>> {
    Map::new(
        |k: Seq<char>|
            if patch.contains_key(k) {
                patch[k] != tombstone()
            } else {
                m.contains_key(k)
            },
        |k: Seq<char>|
            if patch.contains_key(k) {
                patch[k]
            } else {
                m[k]
            },
    )
}

/// Why a patch that leaves no fields is refused.
pub open spec fn empty_patch_error(uuid: Seq<char>) -> ErrorView {
    ErrorView::Other("patch would remove all fields from record "@ + uuid)
}

/// The fields as they are written, in the order of their keys.
pub(crate) fn write_fields(fields: &Fields) -> (r: Vec<String>)
    ensures
        views(r@) == field_texts(fields@),
{
    let mut r: Vec<String> = Vec::new();
    let n: usize = fields.len();
    let mut i: usize = 0;
    let ghost all = field_texts(fields@);
    while i < n
        invariant
            i <= n == keys_of(fields@).len(),
            all == field_texts(fields@),
            views(r@) == all.take(i as int),
        decreases n - i,
    {
        let k = escape(fields.key(i).as_str());
        let v = escape(fields.value(i).as_str());
        let ghost before = views(r@);
        let t = cat3(k.as_str(), "=", v.as_str());
        assert(t@ == all[i as int]);
        r.push(t);
        assert(views(r@) == before.push(all[i as int]));
        i += 1;
    }
    assert(all.take(all.len() as int) == all);
    r
}

impl Record {
    /// The line of the record, without a line feed.
    pub fn serialize(&self) -> (r: String)
        ensures
            r@ == record_line(self.uuid@, self.fields@),
    {
        let mut parts: Vec<String> = Vec::new();
        parts.push(copy_of(self.uuid.as_str()));
        let mut texts = write_fields(&self.fields);
        let ghost t = views(texts@);
        parts.append(&mut texts);
        assert(views(parts@) == seq![self.uuid@] + t);
        join_with(&parts, "\t")
    }

    /// Parse the line of a record. Spaces at the end of the last field are padding.
    pub fn parse(line: &str, line_no: usize) -> (r: Result<Self>)
        ensures
            outcome(r) == record_of(line@, line_no),
    {
        let mut parts = split_on(line, '\t');
        let ghost all = views(parts@);
        let uuid = parts.remove(0);
        assert(uuid@ == all[0]);
        assert(views(parts@) == all.skip(1));
        if let Err(e) = validate_uuid(uuid.as_str()) {
            return Err(parse_error(line_no, e.message()));
        }
        if parts.len() > 0 {
            let last = match parts.pop() {
                Some(last) => last,
                None => String::new(),
            };
            assert(views(parts@) == all.skip(1).drop_last());
            assert(last@ == all.skip(1).last());
            let t = trim_end_of(last.as_str(), ' ');
            let ghost before = views(parts@);
            parts.push(t);
            assert(views(parts@) == before.push(t@));
        }
        assert(views(parts@) == trim_last(all.skip(1)));
        match parse_parts(&parts, line_no) {
            Ok(fields) => Ok(Record { uuid, fields }),
            Err(e) => Err(e),
        }
    }

    /// Change the fields by a patch, in which the value `\0` removes its key. It is an error if
    /// no field is left.
    pub fn apply_patch(&mut self, fields: &Fields) -> (r: Result<()>)
        ensures
            final(self).uuid@ == old(self).uuid@,
            final(self).fields@ == patched(old(self).fields@, fields@),
            match r {
                Ok(_) => final(self).fields@ != Map::<Seq<char>, Seq<char>>::empty(),
                Err(e) => final(self).fields@ == Map::<Seq<char>, Seq<char>>::empty() && e@
                    == empty_patch_error(old(self).uuid@),
            },
    {
        let n: usize = fields.len();
        let ghost ks = keys_of(fields@);
        let ghost before = self.fields@;
        let mut i: usize = 0;
        while i < n
            invariant
                i <= n == ks.len(),
                ks == keys_of(fields@),
                ordered(ks),
                ks.to_set() == fields@.dom(),
                self.uuid@ == old(self).uuid@,
                forall|k: Seq<char>| #[trigger]
                    self.fields@.contains_key(k) <==> (if ks.take(i as int).contains(k) {
                        fields@[k] != tombstone()
                    } else {
                        before.contains_key(k)
                    }),
                forall|k: Seq<char>| #[trigger]
                    self.fields@.contains_key(k) ==> self.fields@[k] == (if ks.take(
                        i as int,
                    ).contains(k) {
                        fields@[k]
                    } else {
                        before[k]
                    }),
            decreases n - i,
        {
            let k: &String = fields.key(i);
            let v: &String = fields.value(i);
            proof {
                let a = ks.take(i as int);
                let b = ks.take(i + 1);
                assert forall|x: Seq<char>| b.contains(x) <==> a.contains(x) || x == k@ by {
                    if b.contains(x) {
                        let j = choose|j: int| 0 <= j < b.len() && b[j] == x;
                        if j < i {
                            assert(a[j] == x);
                        }
                    }
                    if a.contains(x) {
                        let j = choose|j: int| 0 <= j < a.len() && a[j] == x;
                        assert(b[j] == x);
                    }
                    assert(b[i as int] == k@);
                }
            }
            if str_eq(v.as_str(), "\0") {
                self.fields.remove(k.as_str());
            } else {
                self.fields.insert(copy_of(k.as_str()), copy_of(v.as_str()));
            }
            i += 1;
        }
        proof {
            assert(ks.take(n as int) == ks);
            assert forall|k: Seq<char>| ks.contains(k) <==> fields@.contains_key(k) by {
                assert(ks.to_set().contains(k) <==> ks.contains(k));
            }
            assert(self.fields@ =~= patched(before, fields@));
        }
        if self.fields.is_empty() {
            return Err(
                TsdbError::Other(
                    cat2("patch would remove all fields from record ", self.uuid.as_str()),
                ),
            );
        }
        Ok(())
    }
}

proof fn lemma_equals_after(pre: Seq<char>, k: Seq<char>, t: Seq<char>, line: usize)
    ensures
        equals_from(pre + escaped(k) + seq!['='] + t, pre.len() as int, line) == Ok::<
            Option<int>,
            ErrorView,
        >(Some((pre.len() + escaped(k).len()) as int)),
    decreases k.len(),
{
    reveal_strlit("\\x09");
    reveal_strlit("\\x0A");
    reveal_strlit("\\x0D");
    reveal_strlit("\\x3D");
    reveal_strlit("\\\\");
    let s = pre + escaped(k) + seq!['='] + t;
    let i = pre.len() as int;
    if k.len() == 0 {
        assert(s[i] == '=');
    } else {
        let h = escaped_char(k[0]);
        let pre2 = pre + h;
        lemma_equals_after(pre2, k.skip(1), t, line);
        assert(pre2 + escaped(k.skip(1)) + seq!['='] + t == s);
        assert forall|j: int| 0 <= j < h.len() implies s[i + j] == #[trigger] h[j] by {}
        if k[0] == '\\' {
            assert(s[i] == h[0] && s[i + 1] == h[1]);
        } else if is_delimiter(k[0]) {
            assert(s[i] == h[0] && s[i + 1] == h[1] && s[i + 2] == h[2] && s[i + 3] == h[3]);
        } else {
            assert(s[i] == h[0]);
        }
    }
}

/// Reading a written field gives its key and its value; with `scalar` a value that is closed like
/// an array or an object is refused.
pub proof fn lemma_field_read(k: Seq<char>, v: Seq<char>, line: usize, scalar: bool)
    requires
        k.len() > 0,
    ensures
        ({
            let closed = v.len() > 0 && ((v[0] == '[' && v[v.len() - 1] == ']') || (v[0] == '{' && v[
                v.len() - 1] == '}'));
            if scalar && closed {
                pair_of(field_text(k, v), line, scalar) is Err
            } else {
                pair_of(field_text(k, v), line, scalar) == Ok::<(Seq<char>, Seq<char>), ErrorView>(
                    (k, v),
                )
            }
        }),
{
    reveal_strlit("=");
    let s = field_text(k, v);
    let e = Seq::<char>::empty();
    lemma_equals_after(e, k, escaped(v), line);
    assert("="@ == seq!['=']);
    assert(e + escaped(k) + seq!['='] + escaped(v) == s);
    let n = escaped(k).len() as int;
    assert(s.take(n) == escaped(k));
    assert(s.skip(n + 1) == escaped(v));
    law_unescape_escape(k);
    law_unescape_escape(v);
}

/// A field is read back as its key and its value.
pub proof fn lemma_pair_of_field(k: Seq<char>, v: Seq<char>, line: usize)
    requires
        k.len() > 0,
    ensures
        pair_of(field_text(k, v), line, false) == Ok::<(Seq<char>, Seq<char>), ErrorView>((k, v)),
{
    lemma_field_read(k, v, line, false);
}

/// The pairs of a map from place `i` of the order of its keys on.
pub open spec fn pairs_of_map(m: Map<Seq<char>, Seq<char>>, i: int) -> Seq<
    (Seq<char>, Seq<char>),
> {
    Seq::new((keys_of(m).len() - i) as nat, |j: int| (keys_of(m)[i + j], m[keys_of(m)[i + j]]))
}

proof fn lemma_pairs_of_fields(m: Map<Seq<char>, Seq<char>>, i: int, line: usize)
    requires
        0 <= i <= keys_of(m).len(),
        forall|j: int| 0 <= j < keys_of(m).len() ==> (#[trigger] keys_of(m)[j]).len() > 0,
    ensures
        pairs_from(field_texts(m), i, line, false) == Ok::<
            Seq<(Seq<char>, Seq<char>)>,
            ErrorView,
        >(pairs_of_map(m, i)),
    decreases keys_of(m).len() - i,
{
    let parts = field_texts(m);
    if i == keys_of(m).len() {
        assert(pairs_of_map(m, i) == Seq::<(Seq<char>, Seq<char>)>::empty());
    } else {
        let k = keys_of(m)[i];
        lemma_pairs_of_fields(m, i + 1, line);
        lemma_field_read(k, m[k], line, false);
        reveal_strlit("=");
        assert(parts[i].len() > 0);
        assert(seq![(k, m[k])] + pairs_of_map(m, i + 1) == pairs_of_map(m, i));
    }
}

proof fn lemma_last_values_of_map(m: Map<Seq<char>, Seq<char>>, n: int)
    requires
        ordered(keys_of(m)),
        0 <= n <= keys_of(m).len(),
    ensures
        forall|k: Seq<char>| #[trigger]
            last_values(pairs_of_map(m, 0).take(n)).contains_key(k) <==> keys_of(m).take(
                n,
            ).contains(k),
        forall|k: Seq<char>| #[trigger]
            last_values(pairs_of_map(m, 0).take(n)).contains_key(k) ==> last_values(
                pairs_of_map(m, 0).take(n),
            )[k] == m[k],
    decreases n,
{
    let ks = keys_of(m);
    let p = pairs_of_map(m, 0).take(n);
    if n == 0 {
        assert(p.len() == 0);
    } else {
        lemma_last_values_of_map(m, n - 1);
        assert(p.drop_last() == pairs_of_map(m, 0).take(n - 1));
        assert(p.last() == (ks[n - 1], m[ks[n - 1]]));
        let a = ks.take(n - 1);
        let b = ks.take(n);
        let prev = last_values(p.drop_last());
        assert(last_values(p) == prev.insert(ks[n - 1], m[ks[n - 1]]));
        assert forall|k: Seq<char>| #[trigger] last_values(p).contains_key(k) <==> b.contains(k) by {
            assert(prev.contains_key(k) <==> a.contains(k));
            if b.contains(k) {
                let j = choose|j: int| 0 <= j < b.len() && b[j] == k;
                if j < n - 1 {
                    assert(a[j] == k);
                }
            }
            if a.contains(k) {
                let j = choose|j: int| 0 <= j < a.len() && a[j] == k;
                assert(b[j] == k);
            }
            assert(b[n - 1] == ks[n - 1]);
        }
        assert forall|k: Seq<char>| #[trigger]
            last_values(p).contains_key(k) implies last_values(p)[k] == m[k] by {
            if k != ks[n - 1] {
                assert(prev.contains_key(k));
            }
        }
    }
}

/// Reading written fields gives the map that was written.
pub proof fn lemma_read_fields(m: Map<Seq<char>, Seq<char>>, line: usize)
    requires
        proper(m),
    ensures
        stored_parts(field_texts(m), line) == Ok::<Map<Seq<char>, Seq<char>>, ErrorView>(m),
{
    lemma_listed_finite(m.dom());
    let n = keys_of(m).len() as int;
    assert forall|j: int| 0 <= j < n implies (#[trigger] keys_of(m)[j]).len() > 0 by {
        assert(keys_of(m).to_set().contains(keys_of(m)[j]));
        if keys_of(m)[j].len() == 0 {
            assert(keys_of(m)[j] == Seq::<char>::empty());
        }
    }
    lemma_pairs_of_fields(m, 0, line);
    lemma_last_values_of_map(m, n);
    let p = pairs_of_map(m, 0);
    assert(p.take(n) == p);
    assert(keys_of(m).take(n) == keys_of(m));
    assert forall|k: Seq<char>| #[trigger] last_values(p).contains_key(k) <==> m.contains_key(k) by {
        assert(keys_of(m).contains(k) <==> keys_of(m).to_set().contains(k));
    }
    assert(last_values(p) =~= m);
}

/// `n` spaces.
pub open spec fn spaces(n: nat) -> Seq<char> {
    Seq::new(n, |i: int| ' ')
}

proof fn lemma_trim_spaces(s: Seq<char>, n: nat)
    requires
        s.len() > 0 ==> s.last() != ' ',
    ensures
        trim_end(s + spaces(n), ' ') == s,
    decreases n,
{
    let t = s + spaces(n);
    if n == 0 {
        assert(t == s);
    } else {
        lemma_trim_spaces(s, (n - 1) as nat);
        assert(t.last() == ' ');
        assert(t.drop_last() == s + spaces((n - 1) as nat));
    }
}

pub proof fn lemma_escaped_last(v: Seq<char>)
    requires
        v.len() > 0,
        v.last() != ' ',
    ensures
        escaped(v).len() > 0,
        escaped(v).last() != ' ',
    decreases v.len(),
{
    reveal_strlit("\\x09");
    reveal_strlit("\\x0A");
    reveal_strlit("\\x0D");
    reveal_strlit("\\x3D");
    reveal_strlit("\\\\");
    let t = v.skip(1);
    if v.len() == 1 {
        assert(escaped(t) == Seq::<char>::empty());
        assert(escaped(v) == escaped_char(v[0]));
    } else {
        assert(t.last() == v.last());
        lemma_escaped_last(t);
        assert(escaped(v).last() == escaped(t).last());
    }
}

pub proof fn lemma_field_has_no_tab(k: Seq<char>, v: Seq<char>)
    ensures
        !field_text(k, v).contains('\t'),
{
    reveal_strlit("=");
    law_escaped_has_no_delimiter(k);
    law_escaped_has_no_delimiter(v);
    let s = field_text(k, v);
    if s.contains('\t') {
        let i = choose|i: int| 0 <= i < s.len() && s[i] == '\t';
        let n = escaped(k).len();
        if i < n {
            assert(is_delimiter(escaped(k)[i]));
        } else if i > n {
            assert(is_delimiter(escaped(v)[i - n - 1]));
        }
    }
}

/// Whether the last field of a line would end in a space, which reading takes for padding.
pub open spec fn ends_in_space(m: Map<Seq<char>, Seq<char>>) -> bool {
    let ks = keys_of(m);
    ks.len() > 0 && m[ks.last()].len() > 0 && m[ks.last()].last() == ' '
}

/// Law: the line of a record, with or without padding, reads back as the record. Left out are
/// records with an empty key or whose last value ends in a space, and padding behind a record
/// without fields.
pub proof fn law_parse_serialize(
    uuid: Seq<char>,
    m: Map<Seq<char>, Seq<char>>,
    pad: nat,
    line: usize,
)
    requires
        is_uuid(uuid),
        proper(m),
        !ends_in_space(m),
        pad > 0 ==> m != Map::<Seq<char>, Seq<char>>::empty(),
    ensures
        record_of(record_line(uuid, m) + spaces(pad), line) == Ok::<RecordView, ErrorView>(
            RecordView { uuid, fields: m },
        ),
{
    reveal_strlit("\t");
    reveal_strlit("=");
    assert("\t"@ == seq!['\t']);
    lemma_listed_finite(m.dom());
    let texts = field_texts(m);
    let parts = seq![uuid] + texts;
    let n = texts.len() as int;
    if m != Map::<Seq<char>, Seq<char>>::empty() && n == 0 {
        assert(keys_of(m).to_set() =~= Set::<Seq<char>>::empty());
        assert(m =~= Map::<Seq<char>, Seq<char>>::empty());
    }
    let padded = if n == 0 {
        parts
    } else {
        parts.drop_last().push(parts.last() + spaces(pad))
    };
    assert(join(padded, seq!['\t']) == record_line(uuid, m) + spaces(pad)) by {
        if n > 0 {
            assert(padded.drop_last() == parts.drop_last());
            assert(join(padded, seq!['\t']) == join(parts, seq!['\t']) + spaces(pad));
        }
    }
    assert forall|i: int| 0 <= i < padded.len() implies !(#[trigger] padded[i]).contains('\t') by {
        if i == 0 {
            lemma_uuid_chars(uuid);
            if padded[0].contains('\t') {
                let j = choose|j: int| 0 <= j < uuid.len() && uuid[j] == '\t';
                assert(uuid[j] as u8 == 9);
            }
        } else {
            let k = keys_of(m)[i - 1];
            lemma_field_has_no_tab(k, m[k]);
            assert(parts[i] == field_text(k, m[k]));
            if padded[i].contains('\t') {
                let j = choose|j: int| 0 <= j < padded[i].len() && padded[i][j] == '\t';
                assert(field_text(k, m[k])[j] == '\t');
            }
        }
    }
    lemma_split_join(padded, '\t');
    assert(padded[0] == uuid);
    let rest = padded.skip(1);
    if n == 0 {
        assert(rest == texts);
    } else {
        let k = keys_of(m)[n - 1];
        let t = texts[n - 1];
        assert(t == field_text(k, m[k]));
        assert(t.last() != ' ') by {
            if m[k].len() > 0 {
                lemma_escaped_last(m[k]);
                assert(t.last() == escaped(m[k]).last());
            } else {
                assert(escaped(m[k]) == Seq::<char>::empty());
                assert(t.last() == '=');
            }
        }
        lemma_trim_spaces(t, pad);
        assert(rest.last() == t + spaces(pad));
        assert(trim_last(rest) == texts);
    }
    lemma_read_fields(m, line);
}

} // verus!
