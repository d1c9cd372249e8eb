//! When files are current: a database that was written ends with its footer, index files end with
//! the same line, and what is current is not written again.
use crate::dotsv::{file_text, footer, unlines, DotsvFile, FileView};
use crate::index::index_text;
use crate::lookup::is_comment;
use crate::relate::{is_current, last_filled};
use crate::reload::{is_line, lemma_split_extend};
use crate::text::{chars_of, is_blank, is_white, raw_lines, split, text_lines};
use vstd::prelude::*;

verus! {

/// Whether a database must be compacted and written before its indexes can be made: pending lines
/// wait, or the last line of its file is no footer.
pub open spec fn is_unsettled(f: FileView, last: Option<Seq<char>>) -> bool {
    f.pending.len() > 0 || !(last is Some && is_comment(last->0))
}

/// Whether a database must be compacted and written before its indexes can be made. `last` is the
/// last line of its file that is not blank.
pub fn needs_compaction(db: &DotsvFile, last: Option<&str>) -> (r: bool)
    ensures
        r == is_unsettled(
            db@,
            match last {
                Some(s) => Some(s@),
                None => None,
            },
        ),
{
    assert(db@.pending.len() == db.pending@.len());
    if db.pending.len() > 0 {
        return true;
    }
    match last {
        Some(s) => {
            let v = chars_of(s);
            !(v.len() > 0 && v[0] == '#')
        },
        None => true,
    }
}

proof fn lemma_unlines_end(ls: Seq<Seq<char>>)
    ensures
        unlines(ls).len() == 0 || unlines(ls).last() == '\n',
{
    reveal_strlit("\n");
}

/// Law: the last line of a text that is written line by line is its last line that is not blank.
pub proof fn law_last_line(ls: Seq<Seq<char>>, foot: Seq<char>)
    requires
        is_line(foot),
        !is_blank(foot),
    ensures
        last_filled(text_lines(unlines(ls.push(foot)))) == Some(foot),
{
    reveal_strlit("\n");
    let s = unlines(ls);
    let t = unlines(ls.push(foot));
    assert(ls.push(foot).drop_last() == ls);
    assert(t == s + foot + "\n"@);
    lemma_unlines_end(ls);
    let p = split(s, '\n');
    assert(p.len() > 0 && p.last().len() == 0) by {
        if s.len() == 0 {
            assert(split(s, '\n') == seq![Seq::<char>::empty()]);
        } else {
            assert(split(s, '\n').last() == Seq::<char>::empty());
        }
    }
    lemma_split_extend(s, foot, '\n');
    assert(t.drop_last() == s + foot);
    assert(t.last() == '\n');
    assert(p.last() + foot == foot);
    let q = p.drop_last().push(foot);
    assert(split(t, '\n') == q.push(Seq::empty()));
    assert(q.push(Seq::empty()).drop_last() == q);
    assert(raw_lines(t) == q);
    let r = text_lines(t);
    assert(r.last() == foot);
}

/// Law: the last line of a written database file is its footer.
pub proof fn law_footer_is_last(f: FileView, stamp: Seq<char>)
    requires
        is_line(stamp),
    ensures
        last_filled(text_lines(file_text(f, stamp))) == Some(footer(stamp)),
        is_comment(footer(stamp)),
{
    reveal_strlit("# ");
    let foot = footer(stamp);
    assert(foot[0] == '#');
    assert(!is_white(foot[0]));
    assert(!is_blank(foot));
    assert(is_line(foot)) by {
        if foot.contains('\n') {
            let k = choose|k: int| 0 <= k < foot.len() && foot[k] == '\n';
            assert(stamp[k - 2] == '\n');
        }
        if stamp.len() > 0 {
            assert(foot.last() == stamp.last());
        }
    }
    let ls = if f.pending.len() == 0 {
        f.sorted
    } else {
        f.sorted + seq![Seq::<char>::empty()] + f.pending
    };
    assert(ls.push(foot) == ls + seq![foot]);
    law_last_line(ls, foot);
}

/// Law: a database that was compacted and written needs no compaction for its indexes.
pub proof fn law_written_is_settled(f: FileView, stamp: Seq<char>)
    requires
        f.pending.len() == 0,
        is_line(stamp),
    ensures
        !is_unsettled(f, last_filled(text_lines(file_text(f, stamp)))),
{
    law_footer_is_last(f, stamp);
}

/// Law: an index file that was just made is current: its last line is that of the database file.
/// So making the indexes a second time writes nothing.
pub proof fn law_index_is_current(rows: Seq<Seq<char>>, dov_ts: Seq<char>, last: String)
    requires
        is_line(dov_ts),
        !is_blank(dov_ts),
        last_filled(text_lines(index_text(rows, dov_ts))) == Some(last@),
    ensures
        is_current(Some(last), dov_ts),
{
    law_last_line(rows, dov_ts);
}

} // verus!
