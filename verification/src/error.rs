//! The failures of compiling and evaluating a roll.
//!
//! An [`Error`] carries the message shown to the user. What the message says
//! is fixed by [`ErrorKind`], the closed list of things that can go wrong.

use vstd::prelude::*;
use vstd::string::StringExecFns;

verus! {

/// The text that `{:?}` prints for a string: the string between double
/// quotes, with quotes, backslashes and unprintable characters escaped.
pub uninterp spec fn debug_text(text: Seq<char>) -> Seq<char>;

/// Everything that can go wrong, with the pieces of input a message quotes.
pub enum ErrorKind {
    /// Checked arithmetic left the range of `i64`.
    Overflow,
    /// A division whose right operand is zero.
    DivideByZero,
    /// A dice roll with a negative number of dice.
    RollMinTimes,
    /// A dice roll with a negative number of sides.
    RollMinSides,
    /// A dice roll with more dice than the caller allows.
    TooManyRolls,
    /// The input ended where an operand had to follow.
    UnexpectedEof,
    /// The quoted text cannot stand where it was found.
    UnexpectedInput(Seq<char>),
    /// The first text was required; the second was found, or the end of the
    /// input where it is `None`.
    ExpectedInput(Seq<char>, Option<Seq<char>>),
    /// The quoted digits do not make an `i64`, for the given reason.
    InvalidInteger(Seq<char>, Seq<char>),
}

impl ErrorKind {
    /// The message of an error of this kind.
    pub open spec fn message(self) -> Seq<char> {
        match self {
            ErrorKind::Overflow => "integer overflow"@,
            ErrorKind::DivideByZero => "can't divide by zero"@,
            ErrorKind::RollMinTimes => "can't roll less than 0 times"@,
            ErrorKind::RollMinSides => "can't roll a less than 0-sided die"@,
            ErrorKind::TooManyRolls => "too many rolls"@,
            ErrorKind::UnexpectedEof => "unexpected end of input"@,
            ErrorKind::UnexpectedInput(text) => "unexpected input: "@ + debug_text(text),
            ErrorKind::ExpectedInput(expected, Some(got)) => "expected "@ + debug_text(expected)
                + ", got "@ + debug_text(got),
            ErrorKind::ExpectedInput(expected, None) => "expected "@ + debug_text(expected)
                + ", got end of input"@,
            ErrorKind::InvalidInteger(text, cause) => "invalid integer "@ + debug_text(text) + ": "@
                + cause,
        }
    }
}

/// A failure, as the message to show.
#[derive(Debug, PartialEq, Eq)]
pub struct Error {
    pub message: String,
}

/// Formats `text` with `{:?}`, which for a string is `<str as Debug>::fmt`.
/// Not proved: that the result is the text named by [`debug_text`], which
/// says only that equal strings are printed alike.
#[verifier::external_body]
fn debug_quote(text: &str) -> (quoted: String)
    ensures
        quoted@ == debug_text(text@),
{
    format!("{:?}", text)
}

/// Whether `result` is what `expected` describes: the same value, or an
/// error with the message of the expected kind.
pub open spec fn agrees<T>(result: Result<T, Error>, expected: Result<T, ErrorKind>) -> bool {
    match expected {
        Ok(value) => result == Ok::<T, Error>(value),
        Err(kind) => result matches Err(e) && e.is_kind(kind),
    }
}

impl Error {
    /// Whether this error carries the message of `kind`.
    pub open spec fn is_kind(&self, kind: ErrorKind) -> bool {
        self.message@ == kind.message()
    }

    /// An error with `message`.
    pub fn new(message: &str) -> (e: Error)
        ensures
            e.message@ == message@,
    {
        Error { message: String::from_str(message) }
    }

    /// The error as a program prints it: the message after `error: `.
    pub fn to_string(&self) -> (text: String)
        ensures
            text@ == "error: "@ + self.message@,
    {
        String::from_str("error: ").concat(self.message.as_str())
    }

    pub fn overflow() -> (e: Error)
        ensures
            e.is_kind(ErrorKind::Overflow),
    {
        Error::new("integer overflow")
    }

    pub fn divide_by_zero() -> (e: Error)
        ensures
            e.is_kind(ErrorKind::DivideByZero),
    {
        Error::new("can't divide by zero")
    }

    pub fn roll_min_times() -> (e: Error)
        ensures
            e.is_kind(ErrorKind::RollMinTimes),
    {
        Error::new("can't roll less than 0 times")
    }

    pub fn roll_min_sides() -> (e: Error)
        ensures
            e.is_kind(ErrorKind::RollMinSides),
    {
        Error::new("can't roll a less than 0-sided die")
    }

    pub fn too_many_rolls() -> (e: Error)
        ensures
            e.is_kind(ErrorKind::TooManyRolls),
    {
        Error::new("too many rolls")
    }

    pub fn unexpected_eof() -> (e: Error)
        ensures
            e.is_kind(ErrorKind::UnexpectedEof),
    {
        Error::new("unexpected end of input")
    }

    pub fn unexpected_input(input: &str) -> (e: Error)
        ensures
            e.is_kind(ErrorKind::UnexpectedInput(input@)),
    {
        let quoted = debug_quote(input);
        Error { message: String::from_str("unexpected input: ").concat(quoted.as_str()) }
    }

    pub fn expected_input(expected: &str, got: &str) -> (e: Error)
        ensures
            e.is_kind(ErrorKind::ExpectedInput(expected@, Some(got@))),
    {
        let wanted = debug_quote(expected);
        let found = debug_quote(got);
        let message = String::from_str("expected ").concat(wanted.as_str()).concat(", got ").concat(
            found.as_str(),
        );
        Error { message }
    }

    /// `expected` was required and the input ended instead.
    pub fn expected_before_end(expected: &str) -> (e: Error)
        ensures
            e.is_kind(ErrorKind::ExpectedInput(expected@, None)),
    {
        let wanted = debug_quote(expected);
        let message = String::from_str("expected ").concat(wanted.as_str()).concat(
            ", got end of input",
        );
        Error { message }
    }

    pub fn invalid_integer(v: &str, cause: &str) -> (e: Error)
        ensures
            e.is_kind(ErrorKind::InvalidInteger(v@, cause@)),
    {
        let quoted = debug_quote(v);
        let message = String::from_str("invalid integer ").concat(quoted.as_str()).concat(
            ": ",
        ).concat(cause);
        Error { message }
    }
}

} // verus!
