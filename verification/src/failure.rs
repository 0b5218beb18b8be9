//! Failures that can arise while running a parsed command.

use vstd::prelude::*;

verus! {

/// An execution failure.  Every variant aborts the whole run at once; a
/// failure is distinct from a test assertion that did not pass, which is
/// a `Fail` verdict, not an error.
#[derive(Debug, Clone, Copy, PartialEq, Eq, Structural)]
pub enum Failure {
    /// Opening a redirection file, spawning the program, or another
    /// operating-system level operation went wrong.
    IO,
    /// The command names a builtin that is recognized but deliberately
    /// not implemented (`umask`).
    UnsupportedBuiltin,
    /// A builtin was given the wrong number of arguments (`cd` takes
    /// exactly one).
    BadArgumentCount,
    /// A builtin argument has the wrong shape (`export` takes only
    /// `NAME=VALUE` pairs).
    BadArgumentSyntax,
    /// Captured output was not valid UTF-8 text.
    TextDecodingFailure,
}

impl Failure {
    /// A short human-readable description of the failure.
    pub fn message(&self) -> (r: &'static str)
        ensures
            r@ == self.spec_message(),
    {
        match self {
            Failure::IO => "input/output failure",
            Failure::UnsupportedBuiltin => "\"umask\" is not available",
            Failure::BadArgumentCount => "expected exactly one argument",
            Failure::BadArgumentSyntax => "expected \"ARG=VALUE\"",
            Failure::TextDecodingFailure => "captured output is not valid text",
        }
    }

    /// What `message` returns, for use in contracts.
    pub open spec fn spec_message(self) -> Seq<char> {
        match self {
            Failure::IO => "input/output failure"@,
            Failure::UnsupportedBuiltin => "\"umask\" is not available"@,
            Failure::BadArgumentCount => "expected exactly one argument"@,
            Failure::BadArgumentSyntax => "expected \"ARG=VALUE\""@,
            Failure::TextDecodingFailure => "captured output is not valid text"@,
        }
    }
}

} // verus!
