//! Compile and match errors.

use vstd::prelude::*;
use crate::text::push_decimal;

verus! {

/// Discriminated error kind (Oniguruma codes mapped to Rust).
#[derive(Clone, Copy, Debug, PartialEq, Eq, Structural)]
pub enum ErrorKind {
    Compile,
    InvalidEncoding,
    InvalidArgument,
    MatchStackLimit,
    RetryLimitMatch,
    RetryLimitSearch,
    SubexpCallLimit,
    ParseDepthLimit,
    Mismatch,
    NeverEndingRecursion,
}

/// Engine error. The pattern position is set for compile failures.
#[derive(Clone, Debug)]
pub struct Error {
    pub kind: ErrorKind,
    pub position: Option<usize>,
    pub message: String,
}

impl Error {
    /// The message text.
    pub open spec fn msg(self) -> Seq<char> {
        self.message@
    }

    /// A compile error at `position`.
    pub fn compile(position: usize, msg: &str) -> (e: Error)
        ensures
            e.kind == ErrorKind::Compile,
            e.position == Some(position),
            e.msg() == msg@,
    {
        Error { kind: ErrorKind::Compile, position: Some(position), message: String::from_str(msg) }
    }

    /// An error of `kind` with no pattern position.
    pub fn kind_msg(kind: ErrorKind, msg: &str) -> (e: Error)
        ensures
            e.kind == kind,
            e.position is None,
            e.msg() == msg@,
    {
        Error { kind, position: None, message: String::from_str(msg) }
    }

    /// Human-readable message.
    pub fn message(&self) -> (r: &str)
        ensures
            r@ == self.msg(),
    {
        self.message.as_str()
    }

    /// `"<kind> at byte <p>: <message>"`, or `"<kind>: <message>"` without a
    /// position.
    pub fn render(&self) -> (r: String)
        ensures
            r@ == kind_name_spec(self.kind) + (match self.position {
                Some(p) => " at byte "@ + crate::text::decimal(p as nat),
                None => Seq::empty(),
            }) + ": "@ + self.msg(),
    {
        let mut s = String::from_str(kind_name(self.kind));
        match self.position {
            Some(p) => {
                s.append(" at byte ");
                push_decimal(&mut s, p);
            },
            None => {},
        }
        s.append(": ");
        s.append(self.message.as_str());
        s
    }
}

pub open spec fn kind_name_spec(k: ErrorKind) -> Seq<char> {
    match k {
        ErrorKind::Compile => "compile error"@,
        ErrorKind::InvalidEncoding => "invalid encoding"@,
        ErrorKind::InvalidArgument => "invalid argument"@,
        ErrorKind::MatchStackLimit => "match stack limit"@,
        ErrorKind::RetryLimitMatch => "retry limit in match"@,
        ErrorKind::RetryLimitSearch => "retry limit in search"@,
        ErrorKind::SubexpCallLimit => "subexp-call limit"@,
        ErrorKind::ParseDepthLimit => "parse depth limit"@,
        ErrorKind::Mismatch => "mismatch"@,
        ErrorKind::NeverEndingRecursion => "never-ending recursion"@,
    }
}

fn kind_name(k: ErrorKind) -> (r: &'static str)
    ensures
        r@ == kind_name_spec(k),
{
    match k {
        ErrorKind::Compile => "compile error",
        ErrorKind::InvalidEncoding => "invalid encoding",
        ErrorKind::InvalidArgument => "invalid argument",
        ErrorKind::MatchStackLimit => "match stack limit",
        ErrorKind::RetryLimitMatch => "retry limit in match",
        ErrorKind::RetryLimitSearch => "retry limit in search",
        ErrorKind::SubexpCallLimit => "subexp-call limit",
        ErrorKind::ParseDepthLimit => "parse depth limit",
        ErrorKind::Mismatch => "mismatch",
        ErrorKind::NeverEndingRecursion => "never-ending recursion",
    }
}

} // verus!
