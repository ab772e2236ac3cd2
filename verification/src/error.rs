//! The failures of context resolution.

use vstd::prelude::*;

verus! {

/// An I/O failure of the operating system, carried through unread.
#[verifier::external_type_specification]
#[verifier::external_body]
pub struct ExIoError(std::io::Error);

/// Why no activation context or home directory could be had.
#[derive(Debug)]
pub enum Error {
    /// Neither the working directory nor any directory above it holds an
    /// activation file.
    NoEnvrc,
    /// Reading a file failed.
    Io(std::io::Error),
    /// The environment names no home directory for the tool.
    NoQuickenvHome,
    /// The working directory could not be determined.
    CurrentDir(std::io::Error),
}

/// `std::io::Error` as text, as its `Display` writes it. Nothing is claimed
/// of the text.
#[verifier::external_body]
fn io_error_text(error: &std::io::Error) -> (text: String) {
    format!("{}", error)
}

impl Error {
    /// The message of a failure, where the tool words it itself.
    pub open spec fn spec_message(&self) -> Option<Seq<char>> {
        match self {
            Error::NoEnvrc => Some("failed to find .envrc in current or any parent directory"@),
            Error::NoQuickenvHome => Some("failed to find QUICKENV_HOME or HOME"@),
            Error::CurrentDir(_) => Some("failed to get current directory"@),
            Error::Io(_) => None,
        }
    }

    /// The message for the user. An I/O failure speaks for itself: its
    /// message is the one that the system gave.
    pub fn message(&self) -> (text: String)
        ensures
            self.spec_message() matches Some(message) ==> text@ == message,
    {
        match self {
            Error::NoEnvrc => "failed to find .envrc in current or any parent directory".to_owned(),
            Error::Io(error) => io_error_text(error),
            Error::NoQuickenvHome => "failed to find QUICKENV_HOME or HOME".to_owned(),
            Error::CurrentDir(_) => "failed to get current directory".to_owned(),
        }
    }
}

} // verus!
