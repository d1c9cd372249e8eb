//! Record identifiers: twelve characters that hold a class, a moment and an order suffix.
//!
//! `{C}G{century}{YY}{M}{D}{h}{m}{s}{XX}`: an uppercase class letter, the marker `G`, the century
//! in the Format-G alphabet, the year in two digits, month, day and hour by their tables, minute
//! and second in the Format-G alphabet, and two letters or digits.
use crate::error::{debug_of, debug_text, outcome, ErrorView, Result, TsdbError};
use crate::escape::byte_char;
use crate::text::{is_white, byte_len, cat2, cat4, dec, dec_of, lemma_lead_byte};
use vstd::prelude::*;
use vstd::utf8::*;

verus! {

/// The Format-G alphabet: digits and letters without `l` and `O`.
pub const FORMAT_G: [u8; 60] = [
    48, 49, 50, 51, 52, 53, 54, 55, 56, 57, 97, 98,
    99, 100, 101, 102, 103, 104, 105, 106, 107, 109, 110, 111,
    112, 113, 114, 115, 116, 117, 118, 119, 120, 121, 122, 65,
    66, 67, 68, 69, 70, 71, 72, 73, 74, 75, 76, 77,
    78, 80, 81, 82, 83, 84, 85, 86, 87, 88, 89, 90,
];

/// The letters of the months; entry 0 is unused.
pub const MONTH_TABLE: [u8; 13] = [
    0, 97, 98, 99, 100, 101, 102, 65, 66, 67, 68, 69,
    70,
];

/// The characters of the days; entry 0 is unused.
pub const DAY_TABLE: [u8; 32] = [
    0, 48, 49, 50, 51, 52, 53, 54, 55, 56, 57, 97,
    98, 99, 100, 101, 102, 103, 104, 105, 106, 107, 65, 66,
    67, 68, 69, 70, 71, 72, 73, 74,
];

/// The characters of the hours.
pub const HOUR_TABLE: [u8; 24] = [
    48, 97, 98, 99, 100, 101, 102, 103, 104, 105, 106, 107,
    108, 65, 66, 67, 68, 69, 70, 71, 72, 73, 74, 75,
];

/// Whether `b` is in the Format-G alphabet.
pub open spec fn is_format_g(b: u8) -> bool {
    exists|i: int| 0 <= i < 60 && #[trigger] FORMAT_G[i] == b
}

/// Whether `b` stands for a month.
pub open spec fn is_month(b: u8) -> bool {
    exists|i: int| 1 <= i < 13 && #[trigger] MONTH_TABLE[i] == b
}

/// Whether `b` stands for a day.
pub open spec fn is_day(b: u8) -> bool {
    exists|i: int| 1 <= i < 32 && #[trigger] DAY_TABLE[i] == b
}

/// Whether `b` stands for an hour.
pub open spec fn is_hour(b: u8) -> bool {
    exists|i: int| 0 <= i < 24 && #[trigger] HOUR_TABLE[i] == b
}

/// Whether `b` is an uppercase letter.
pub open spec fn is_upper(b: u8) -> bool {
    65 <= b <= 90
}

/// Whether `b` is a decimal digit.
pub open spec fn is_digit(b: u8) -> bool {
    48 <= b <= 57
}

/// Whether `b` is a letter or a digit.
pub open spec fn is_alphanumeric(b: u8) -> bool {
    is_upper(b) || is_digit(b) || 97 <= b <= 122
}

/// `Ok` for a well-formed identifier; else the first rule that `s` breaks.
pub open spec fn uuid_check(s: Seq<char>) -> core::result::Result<(), ErrorView> {
    let b = encode_utf8(s);
    if b.len() != 12 {
        uuid_error("UUID must be 12 chars, got "@, dec(b.len()), ": "@, s)
    } else if !is_upper(b[0]) {
        uuid_error("UUID byte 0 must be uppercase letter, got '"@, seq![b[0] as char], "': "@, s)
    } else if b[1] != 71 {
        uuid_error("UUID byte 1 must be 'G', got '"@, seq![b[1] as char], "': "@, s)
    } else if !is_format_g(b[2]) {
        uuid_rule("UUID byte 2 (century) not in Format-G alphabet: "@, s)
    } else if !is_digit(b[3]) || !is_digit(b[4]) {
        uuid_rule("UUID bytes 3-4 (YY) must be decimal digits: "@, s)
    } else if !is_month(b[5]) {
        uuid_error("UUID byte 5 (month) invalid '"@, seq![b[5] as char], "': "@, s)
    } else if !is_day(b[6]) {
        uuid_error("UUID byte 6 (day) invalid '"@, seq![b[6] as char], "': "@, s)
    } else if !is_hour(b[7]) {
        uuid_error("UUID byte 7 (hour) invalid '"@, seq![b[7] as char], "': "@, s)
    } else if !is_format_g(b[8]) {
        uuid_rule("UUID byte 8 (minute) not in Format-G alphabet: "@, s)
    } else if !is_format_g(b[9]) {
        uuid_rule("UUID byte 9 (second) not in Format-G alphabet: "@, s)
    } else if !is_alphanumeric(b[10]) || !is_alphanumeric(b[11]) {
        uuid_rule("UUID bytes 10-11 (order) must be alphanumeric: "@, s)
    } else {
        Ok(())
    }
}

/// A broken rule that shows what stands in its place.
pub open spec fn uuid_error(
    rule: Seq<char>,
    found: Seq<char>,
    sep: Seq<char>,
    s: Seq<char>,
) -> core::result::Result<(), ErrorView> {
    Err(ErrorView::InvalidUuid(rule + found + sep + debug_text(s)))
}

/// A broken rule.
pub open spec fn uuid_rule(rule: Seq<char>, s: Seq<char>) -> core::result::Result<(), ErrorView> {
    Err(ErrorView::InvalidUuid(rule + debug_text(s)))
}

/// Whether `s` is a well-formed identifier.
pub open spec fn is_uuid(s: Seq<char>) -> bool {
    uuid_check(s) is Ok
}

/// The index of a character in the Format-G alphabet.
pub fn fg_decode(ch: u8) -> (r: Option<u8>)
    ensures
        match r {
            Some(i) => i < 60 && FORMAT_G[i as int] == ch && forall|k: int|
                0 <= k < i ==> #[trigger] FORMAT_G[k] != ch,
            None => !is_format_g(ch),
        },
{
    let mut i: u8 = 0;
    while i < 60
        invariant
            i <= 60,
            forall|k: int| 0 <= k < i ==> #[trigger] FORMAT_G[k] != ch,
        decreases 60 - i,
    {
        if FORMAT_G[i as usize] == ch {
            return Some(i);
        }
        i += 1;
    }
    None
}

fn in_months(ch: u8) -> (r: bool)
    ensures
        r == is_month(ch),
{
    let mut i: usize = 1;
    while i < 13
        invariant
            1 <= i <= 13,
            forall|k: int| 1 <= k < i ==> #[trigger] MONTH_TABLE[k] != ch,
        decreases 13 - i,
    {
        if MONTH_TABLE[i] == ch {
            return true;
        }
        i += 1;
    }
    false
}

fn in_days(ch: u8) -> (r: bool)
    ensures
        r == is_day(ch),
{
    let mut i: usize = 1;
    while i < 32
        invariant
            1 <= i <= 32,
            forall|k: int| 1 <= k < i ==> #[trigger] DAY_TABLE[k] != ch,
        decreases 32 - i,
    {
        if DAY_TABLE[i] == ch {
            return true;
        }
        i += 1;
    }
    false
}

fn in_hours(ch: u8) -> (r: bool)
    ensures
        r == is_hour(ch),
{
    let mut i: usize = 0;
    while i < 24
        invariant
            i <= 24,
            forall|k: int| 0 <= k < i ==> #[trigger] HOUR_TABLE[k] != ch,
        decreases 24 - i,
    {
        if HOUR_TABLE[i] == ch {
            return true;
        }
        i += 1;
    }
    false
}

fn digit(b: u8) -> (r: bool)
    ensures
        r == is_digit(b),
{
    48 <= b && b <= 57
}

fn alphanumeric(b: u8) -> (r: bool)
    ensures
        r == is_alphanumeric(b),
{
    (65 <= b && b <= 90) || digit(b) || (97 <= b && b <= 122)
}

fn broken(rule: &str, found: &str, sep: &str, s: &str) -> (r: Result<()>)
    ensures
        outcome(r) == uuid_error(rule@, found@, sep@, s@),
{
    Err(TsdbError::InvalidUuid(cat4(rule, found, sep, debug_of(s).as_str())))
}

fn broken_rule(rule: &str, s: &str) -> (r: Result<()>)
    ensures
        outcome(r) == uuid_rule(rule@, s@),
{
    Err(TsdbError::InvalidUuid(cat2(rule, debug_of(s).as_str())))
}

/// Check that `s` is a well-formed identifier.
pub fn validate_uuid(s: &str) -> (r: Result<()>)
    ensures
        outcome(r) == uuid_check(s@),
{
    let b: &[u8] = s.as_bytes();
    if b.len() != 12 {
        return broken("UUID must be 12 chars, got ", dec_of(b.len() as u64).as_str(), ": ", s);
    }
    if !(65 <= b[0] && b[0] <= 90) {
        return broken(
            "UUID byte 0 must be uppercase letter, got '",
            byte_char(b[0]).as_str(),
            "': ",
            s,
        );
    }
    if b[1] != 71 {
        return broken("UUID byte 1 must be 'G', got '", byte_char(b[1]).as_str(), "': ", s);
    }
    if fg_decode(b[2]).is_none() {
        return broken_rule("UUID byte 2 (century) not in Format-G alphabet: ", s);
    }
    if !digit(b[3]) || !digit(b[4]) {
        return broken_rule("UUID bytes 3-4 (YY) must be decimal digits: ", s);
    }
    if !in_months(b[5]) {
        return broken("UUID byte 5 (month) invalid '", byte_char(b[5]).as_str(), "': ", s);
    }
    if !in_days(b[6]) {
        return broken("UUID byte 6 (day) invalid '", byte_char(b[6]).as_str(), "': ", s);
    }
    if !in_hours(b[7]) {
        return broken("UUID byte 7 (hour) invalid '", byte_char(b[7]).as_str(), "': ", s);
    }
    if fg_decode(b[8]).is_none() {
        return broken_rule("UUID byte 8 (minute) not in Format-G alphabet: ", s);
    }
    if fg_decode(b[9]).is_none() {
        return broken_rule("UUID byte 9 (second) not in Format-G alphabet: ", s);
    }
    if !alphanumeric(b[10]) || !alphanumeric(b[11]) {
        return broken_rule("UUID bytes 10-11 (order) must be alphanumeric: ", s);
    }
    Ok(())
}

proof fn lemma_tables()
    ensures
        forall|i: int| 0 <= i < 60 ==> is_alphanumeric(#[trigger] FORMAT_G[i]),
        forall|i: int| 1 <= i < 13 ==> is_alphanumeric(#[trigger] MONTH_TABLE[i]),
        forall|i: int| 1 <= i < 32 ==> is_alphanumeric(#[trigger] DAY_TABLE[i]),
        forall|i: int| 0 <= i < 24 ==> is_alphanumeric(#[trigger] HOUR_TABLE[i]),
{
}

/// Law: no character occurs twice in the Format-G alphabet, so each of its sixty indices has a
/// character of its own.
pub proof fn law_format_g_distinct(i: int, j: int)
    requires
        0 <= i < 60,
        0 <= j < 60,
        FORMAT_G[i] == FORMAT_G[j],
    ensures
        i == j,
{
}

/// An identifier is made of twelve letters and digits, one byte each.
pub proof fn lemma_uuid_chars(s: Seq<char>)
    requires
        is_uuid(s),
    ensures
        s.len() == 12,
        byte_len(s) == 12,
        forall|i: int| 0 <= i < 12 ==> (#[trigger] s[i] as u32) < 128 && is_alphanumeric(s[i] as u8),
        65 <= s[0] as u32 <= 90,
{
    let b = encode_utf8(s);
    lemma_tables();
    assert forall|i: int| 0 <= i < 12 implies is_alphanumeric(#[trigger] b[i]) by {}
    lemma_ascii_bytes(s);
    is_ascii_chars_encode_utf8(s);
    assert forall|i: int| 0 <= i < 12 implies (#[trigger] s[i] as u32) < 128 && is_alphanumeric(
        s[i] as u8,
    ) by {
        assert(b[i] == s[i] as u8);
    }
    assert(b[0] == s[0] as u8);
}

/// A string all of whose bytes are ASCII is made of ASCII characters.
pub proof fn lemma_ascii_bytes(s: Seq<char>)
    requires
        forall|i: int| 0 <= i < encode_utf8(s).len() ==> #[trigger] encode_utf8(s)[i] < 0x80,
    ensures
        is_ascii_chars(s),
    decreases s.len(),
{
    if s.len() > 0 {
        let h = encode_scalar(s[0] as u32);
        let t = encode_utf8(s.drop_first());
        assert(encode_utf8(s) == h + t);
        lemma_lead_byte(s[0]);
        assert(encode_utf8(s)[0] == h[0]);
        assert forall|i: int| 0 <= i < t.len() implies #[trigger] t[i] < 0x80 by {
            assert(t[i] == encode_utf8(s)[h.len() + i]);
        }
        lemma_ascii_bytes(s.drop_first());
        assert forall|i| 0 <= i < s.len() implies '\0' <= #[trigger] s[i] <= '\u{7f}' by {
            if i > 0 {
                assert(s[i] == s.drop_first()[i - 1]);
            }
        }
    }
}

proof fn lemma_alphanumeric(c: char)
    requires
        (c as u32) < 128,
        is_alphanumeric(c as u8),
    ensures
        48 <= c as u32 <= 122,
        !is_white(c),
{
}

/// The characters of an identifier are letters and digits.
pub proof fn lemma_uuid_plain(uuid: Seq<char>)
    requires
        is_uuid(uuid),
    ensures
        uuid.len() == 12,
        forall|i: int| 0 <= i < 12 ==> 48 <= (#[trigger] uuid[i]) as u32 <= 122 && !is_white(uuid[i]),
{
    lemma_uuid_chars(uuid);
    assert forall|i: int| 0 <= i < 12 implies 48 <= (#[trigger] uuid[i]) as u32 <= 122 && !is_white(
        uuid[i],
    ) by {
        lemma_alphanumeric(uuid[i]);
    }
}

} // verus!
