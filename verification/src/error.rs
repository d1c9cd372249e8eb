//! The errors of the library.
use crate::lock::EntryStatus;
use crate::text::{
    cat2, cat4, cat5, copy_of, dec, dec_of, hex_of, hex_text, join, join_with, views,
};
use vstd::prelude::*;

verus! {

#[derive(Debug)]
pub enum TsdbError {
    /// A failed file operation, with the system's description of it.
    Io(String),
    EscapeError(String),
    InvalidUuid(String),
    ParseError { line: usize, message: String },
    /// An action that adds an identifier which is there, with its line in the action file.
    DuplicateUuid { line: usize, uuid: String },
    /// An action on an identifier which is not there, with its line in the action file.
    MissingUuid { line: usize, uuid: String },
    /// An instance in the queue that writes the same identifiers, and whether it runs.
    LockConflict { pid: u64, status: EntryStatus, uuids: Vec<String> },
    Other(String),
}

pub type Result<T> = core::result::Result<T, TsdbError>;

/// What an error says.
#[verifier::ext_equal]
pub enum ErrorView {
    Io(Seq<char>),
    EscapeError(Seq<char>),
    InvalidUuid(Seq<char>),
    ParseError { line: usize, message: Seq<char> },
    DuplicateUuid { line: usize, uuid: Seq<char> },
    MissingUuid { line: usize, uuid: Seq<char> },
    LockConflict { pid: u64, status: EntryStatus, uuids: Seq<Seq<char>> },
    Other(Seq<char>),
}

impl View for TsdbError {
    type V = ErrorView;

    open spec fn view(&self) -> ErrorView {
        match self {
            TsdbError::Io(s) => ErrorView::Io(s@),
            TsdbError::EscapeError(s) => ErrorView::EscapeError(s@),
            TsdbError::InvalidUuid(s) => ErrorView::InvalidUuid(s@),
            TsdbError::ParseError { line, message } => ErrorView::ParseError {
                line: *line,
                message: message@,
            },
            TsdbError::DuplicateUuid { line, uuid } => ErrorView::DuplicateUuid {
                line: *line,
                uuid: uuid@,
            },
            TsdbError::MissingUuid { line, uuid } => ErrorView::MissingUuid {
                line: *line,
                uuid: uuid@,
            },
            TsdbError::LockConflict { pid, status, uuids } => ErrorView::LockConflict {
                pid: *pid,
                status: *status,
                uuids: views(uuids@),
            },
            TsdbError::Other(s) => ErrorView::Other(s@),
        }
    }
}

/// A result with its value and its error taken by their views.
pub open spec fn outcome<T: View>(r: Result<T>) -> core::result::Result<T::V, ErrorView> {
    match r {
        Ok(t) => Ok(t@),
        Err(e) => Err(e@),
    }
}

impl ErrorView {
    /// The sentence shown to the user.
    pub open spec fn text(self) -> Seq<char> {
        match self {
            ErrorView::Io(s) => "I/O error: "@ + s,
            ErrorView::EscapeError(s) => "Escape error: "@ + s,
            ErrorView::InvalidUuid(s) => "Invalid UUID: "@ + s,
            ErrorView::ParseError { line, message } => "Parse error at line "@ + dec(line as nat)
                + ": "@ + message,
            ErrorView::DuplicateUuid { line, uuid } => "Duplicate UUID at line "@ + dec(line as nat)
                + ": "@ + uuid,
            ErrorView::MissingUuid { line, uuid } => "Missing UUID at line "@ + dec(line as nat)
                + ": "@ + uuid,
            ErrorView::LockConflict { pid, status, uuids } => "conflict with process "@ + hex_text(
                pid as nat,
                16,
            ) + "\n  overlapping UUIDs: "@ + join(uuids, ", "@) + match status {
                EntryStatus::Exec => "\n  status: EXEC (running)\n  action: aborted, not queued"@,
                EntryStatus::Wait => "\n  status: WAIT (waiting)\n  action: aborted, not queued"@,
            },
            ErrorView::Other(s) => s,
        }
    }
}

impl TsdbError {
    /// The sentence shown to the user.
    pub fn message(&self) -> (r: String)
        ensures
            r@ == self@.text(),
    {
        match self {
            TsdbError::Io(s) => cat2("I/O error: ", s.as_str()),
            TsdbError::EscapeError(s) => cat2("Escape error: ", s.as_str()),
            TsdbError::InvalidUuid(s) => cat2("Invalid UUID: ", s.as_str()),
            TsdbError::ParseError { line, message } => cat4(
                "Parse error at line ",
                dec_of(*line as u64).as_str(),
                ": ",
                message.as_str(),
            ),
            TsdbError::DuplicateUuid { line, uuid } => cat4(
                "Duplicate UUID at line ",
                dec_of(*line as u64).as_str(),
                ": ",
                uuid.as_str(),
            ),
            TsdbError::MissingUuid { line, uuid } => cat4(
                "Missing UUID at line ",
                dec_of(*line as u64).as_str(),
                ": ",
                uuid.as_str(),
            ),
            TsdbError::LockConflict { pid, status, uuids } => {
                let end: &str = match status {
                    EntryStatus::Exec => "\n  status: EXEC (running)\n  action: aborted, not queued",
                    EntryStatus::Wait => "\n  status: WAIT (waiting)\n  action: aborted, not queued",
                };
                cat5(
                    "conflict with process ",
                    hex_of(*pid, 16).as_str(),
                    "\n  overlapping UUIDs: ",
                    join_with(uuids, ", ").as_str(),
                    end,
                )
            },
            TsdbError::Other(s) => copy_of(s.as_str()),
        }
    }
}

/// A parse error at a line.
pub fn parse_error(line: usize, message: String) -> (e: TsdbError)
    ensures
        e@ == (ErrorView::ParseError { line, message: message@ }),
{
    TsdbError::ParseError { line, message }
}

/// How `{:?}` shows a string: between double quotes, with escapes for the characters that are
/// not printable.
pub uninterp spec fn debug_text(s: Seq<char>) -> Seq<char>;

/// The `Debug` form of a `str`, by `format!` with `{:?}`. Its contract names the result and says
/// nothing more of it.
#[verifier::external_body]
pub(crate) fn debug_of(s: &str) -> (r: String)
    ensures
        r@ == debug_text(s@),
{
    format!("{:?}", s)
}

} // verus!
