//! Error kinds reported by the store and launcher operations.

use vstd::prelude::*;

verus! {

/// Everything that can go wrong while resolving, storing, loading or
/// launching an environment.
#[derive(Clone, Copy, Debug, PartialEq, Eq, Structural)]
pub enum Error {
    /// The base configuration directory could not be determined or created.
    DirectoryUnavailable,
    /// The source file handed to an install does not exist.
    SourceNotFound,
    /// No stored environment file exists under the requested name.
    EnvironmentNotFound,
    /// A stored file does not parse as key/value lines.
    DecodeError,
    /// The program to launch could not be located.
    ProgramNotFound,
    /// The child process could not be started for another reason.
    SpawnFailed,
}

impl Error {
    /// A short human-readable description of the error kind.
    pub fn message(&self) -> (r: &'static str)
        ensures
            r@ == match *self {
                Error::DirectoryUnavailable => "config directory unavailable"@,
                Error::SourceNotFound => "source file not found"@,
                Error::EnvironmentNotFound => "environment not found"@,
                Error::DecodeError => "environment file is malformed"@,
                Error::ProgramNotFound => "program not found"@,
                Error::SpawnFailed => "failed to spawn process"@,
            },
    {
        match *self {
            Error::DirectoryUnavailable => "config directory unavailable",
            Error::SourceNotFound => "source file not found",
            Error::EnvironmentNotFound => "environment not found",
            Error::DecodeError => "environment file is malformed",
            Error::ProgramNotFound => "program not found",
            Error::SpawnFailed => "failed to spawn process",
        }
    }
}

} // verus!
