//! Errors that can arise while parsing a script or a command line.

use vstd::prelude::*;

verus! {

/// A parse error.  Every variant is fatal to the whole parse: no command
/// is ever run from a script that did not parse.
#[derive(Debug, Clone, Copy, PartialEq, Eq, Structural)]
pub enum Error {
    /// A command line word-split to zero tokens.
    EmptyCommand,
    /// A command line could not be word-split at all (unbalanced quoting).
    MalformedSyntax,
    /// A `<` or `>` token was not followed by a file path.
    MissingRedirectionTarget,
    /// A `?` line held something other than a signed machine integer.
    MalformedErrorCode,
}

impl Error {
    /// A short human-readable description of the error.
    pub fn message(&self) -> (r: &'static str)
        ensures
            r@ == self.spec_message(),
    {
        match self {
            Error::EmptyCommand => "empty command line",
            Error::MalformedSyntax => "poorly formed command line",
            Error::MissingRedirectionTarget => "expected a redirection file path",
            Error::MalformedErrorCode => "malformed error code",
        }
    }

    /// What `message` returns, for use in contracts.
    pub open spec fn spec_message(self) -> Seq<char> {
        match self {
            Error::EmptyCommand => "empty command line"@,
            Error::MalformedSyntax => "poorly formed command line"@,
            Error::MissingRedirectionTarget => "expected a redirection file path"@,
            Error::MalformedErrorCode => "malformed error code"@,
        }
    }
}

} // verus!
