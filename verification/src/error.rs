//! The error of this library: a message, optionally tagged with the file
//! and the line it arose at.

use crate::text::{decimal, push_decimal};
use vstd::prelude::*;

verus! {

/// A failure, described by its message.
#[derive(Clone, Debug)]
pub struct Error {
    pub text: String,
}

impl View for Error {
    type V = Seq<char>;

    open spec fn view(&self) -> Seq<char> {
        self.text@
    }
}

/// `cause`, tagged with the file it arose in: `path: cause`.
pub open spec fn with_file(path: Seq<char>, cause: Seq<char>) -> Seq<char> {
    path + ": "@ + cause
}

/// `cause`, tagged with the file and the line it arose at. `line` counts
/// from zero, the tag from one: `path:line+1: cause`.
pub open spec fn with_file_and_line(path: Seq<char>, line: nat, cause: Seq<char>) -> Seq<char> {
    path + ":"@ + decimal(line + 1) + ": "@ + cause
}

impl Error {
    /// The message of this error.
    pub fn message(&self) -> (r: String)
        ensures
            r@ == self@,
    {
        self.text.clone()
    }
}

/// An error with the message `text`.
pub fn error(text: String) -> (e: Error)
    ensures
        e@ == text@,
{
    Error { text }
}

/// Tags `err` with the file it arose in.
pub fn error_with_file(path: &str, err: Error) -> (e: Error)
    ensures
        e@ == with_file(path@, err@),
{
    let mut text = String::from_str(path);
    text.append(": ");
    text.append(err.text.as_str());
    assert(text@ =~= with_file(path@, err@));
    Error { text }
}

/// Tags `err` with the file and the line it arose at; `line` counts from
/// zero.
pub fn error_with_file_and_line(path: &str, line: usize, err: Error) -> (e: Error)
    ensures
        e@ == with_file_and_line(path@, line as nat, err@),
{
    let mut text = String::from_str(path);
    text.append(":");
    let number: u128 = line as u128 + 1;
    push_decimal(&mut text, number);
    text.append(": ");
    text.append(err.text.as_str());
    assert(text@ =~= with_file_and_line(path@, line as nat, err@));
    Error { text }
}

} // verus!
