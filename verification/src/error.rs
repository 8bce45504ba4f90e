//! The error cases of the engine, and the exit status each one maps to.

use vstd::prelude::*;

verus! {

/// Everything that can go wrong while building a configuration or checking
/// a line against it. Evaluation is fail-fast: the first error aborts the
/// line's evaluation and is handed back unchanged. Each variant carries the
/// message text of the failure it reports.
#[derive(Debug, Clone)]
pub enum Error {
    /// A regular-expression pattern failed to compile; surfaces only when
    /// the rule holding the pattern is actually reached.
    RegexError(String),
    /// A source could not be opened or read; raised by callers that do I/O,
    /// never by the engine itself.
    IOError(String),
    /// A structured configuration document could not be read or written by
    /// serde_json; raised by callers that use it, never by the engine itself.
    SerdeJsonError(String),
    /// A structured configuration document was rejected by the engine's own
    /// decoder; the text says where and why.
    MalformedConfig(String),
}

/// Relies on exitcode::DATAERR: the sysexits code for malformed data, 65.
#[verifier::external_body]
fn dataerr_code() -> (c: i32)
    ensures
        c == 65,
{
    exitcode::DATAERR
}

/// Relies on exitcode::IOERR: the sysexits code for an input/output failure, 74.
#[verifier::external_body]
fn ioerr_code() -> (c: i32)
    ensures
        c == 74,
{
    exitcode::IOERR
}

impl Error {
    /// The process exit status that stands for this error kind: 74 for an
    /// I/O failure, 65 for every kind of malformed data.
    pub fn exit_code(&self) -> (c: i32)
        ensures
            self is IOError ==> c == 74,
            !(self is IOError) ==> c == 65,
    {
        match self {
            Error::IOError(_) => ioerr_code(),
            _ => dataerr_code(),
        }
    }

    /// The message text carried by the error.
    pub fn message(&self) -> (s: &String)
        ensures
            s@ == error_message(*self),
    {
        match self {
            Error::RegexError(m) => m,
            Error::IOError(m) => m,
            Error::SerdeJsonError(m) => m,
            Error::MalformedConfig(m) => m,
        }
    }
}

/// The message text carried by an error value.
pub open spec fn error_message(e: Error) -> Seq<char> {
    match e {
        Error::RegexError(m) => m@,
        Error::IOError(m) => m@,
        Error::SerdeJsonError(m) => m@,
        Error::MalformedConfig(m) => m@,
    }
}

} // verus!
