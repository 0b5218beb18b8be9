//! A golden-script test runner library.
//!
//! A script is a text file that describes a shell session: each `$` line
//! holds a command, and the `?`, `!` and `>` lines that follow it declare
//! the exit code, standard error and standard output the command is
//! expected to produce.  The library tokenizes command lines, parses a
//! script into an ordered sequence of command blocks, and decides, block
//! by block, whether the actual outcomes match the expected ones,
//! stopping at the first divergence.
//!
//! Running the commands themselves (spawning processes, changing the
//! working directory, setting environment variables) is left to the
//! caller, who feeds each actual outcome back in; the library's own
//! functions are pure and verified.

pub mod command;
pub mod error;
pub mod failure;
pub mod script;
pub mod text;
