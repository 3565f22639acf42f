//! What can go wrong, and how a malformed record is reported.

use crate::decimal::{append_decimal, decimal};
use vstd::prelude::*;

verus! {

/// Why a line of text is no record.
#[derive(Clone, Copy, Debug, PartialEq, Eq, Structural)]
pub enum Reason {
    /// The line has no comma, so it has fewer than two fields.
    InsufficientValues,
    /// The second field of the line is no timestamp.
    InvalidValue,
}

/// A line of the text that could not be read as a record.
#[derive(Clone, Copy, Debug, PartialEq, Eq, Structural)]
pub struct MalformedRecord {
    /// The number of the line, the first line being line 1.
    pub line: usize,
    /// What is wrong with the line.
    pub reason: Reason,
}

/// What can be wrong with the clock.
#[derive(Clone, Copy, Debug, PartialEq, Eq, Structural)]
pub enum ClockError {
    /// The system clock stands before the Unix epoch.
    BeforeEpoch,
    /// A stored timestamp lies after the current time.
    TimestampInFuture,
}

/// What can be wrong with the arguments of an invocation.
#[derive(Clone, Copy, Debug, PartialEq, Eq, Structural)]
pub enum UsageError {
    /// No argument follows the program's name.
    NoArguments,
    /// `did` was given without a label.
    MissingLabel,
}

/// The words for a reason.
pub open spec fn reason_text(reason: Reason) -> Seq<char> {
    match reason {
        Reason::InsufficientValues => "insufficient values"@,
        Reason::InvalidValue => "invalid value"@,
    }
}

/// The report of a malformed line: the file's name, the line's number and
/// what is wrong with it.
pub open spec fn error_text(fname: Seq<char>, line: nat, msg: Seq<char>) -> Seq<char> {
    "Error in "@ + fname + " at "@ + decimal(line) + ": "@ + msg
}

impl Reason {
    /// The words for the reason.
    pub fn describe(&self) -> (text: &'static str)
        ensures
            text@ == reason_text(*self),
    {
        match self {
            Reason::InsufficientValues => "insufficient values",
            Reason::InvalidValue => "invalid value",
        }
    }
}

/// The report of what is wrong (`msg`) at line `lc` of the file `fname`:
/// `Error in <fname> at <lc>: <msg>`.
pub fn invalid_content_error(msg: &str, lc: usize, fname: &String) -> (text: String)
    ensures
        text@ == error_text(fname@, lc as nat, msg@),
{
    let mut text = String::new();
    text.append("Error in ");
    text.append(fname.as_str());
    text.append(" at ");
    append_decimal(&mut text, lc as u128);
    text.append(": ");
    text.append(msg);
    assert(text@ =~= error_text(fname@, lc as nat, msg@));
    text
}

impl MalformedRecord {
    /// The report of this malformed line of the file `fname`.
    pub fn message(&self, fname: &String) -> (text: String)
        ensures
            text@ == error_text(fname@, self.line as nat, reason_text(self.reason)),
    {
        invalid_content_error(self.reason.describe(), self.line, fname)
    }
}

} // verus!
