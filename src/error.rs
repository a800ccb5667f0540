//! Failures that end the shell, each with what was being done and why it
//! failed.
use vstd::prelude::*;

verus! {

/// A fatal failure of the driver itself. Failures of the commands a user
/// types are exit codes, never one of these.
pub enum DriverError {
    /// The working directory could not be read.
    NoWorkingDirectory(String),
    /// There is no home directory.
    NoHomeDirectory,
    /// The home directory's path is not UTF-8.
    HomeNotUtf8,
    /// The history file could not be read.
    HistoryRead(String),
    /// The history file could not be written.
    HistoryWrite(String),
    /// Sourcing `~/.shellrc` failed.
    RcFailed(String),
    /// The script file could not be read.
    ScriptRead(String),
    /// The interpreter failed on a line.
    ExecuteFailed(String),
}

/// What was being done.
pub open spec fn context_of(e: DriverError) -> Seq<char> {
    match e {
        DriverError::NoWorkingDirectory(_) => "Couldn't get the current directory"@,
        DriverError::NoHomeDirectory => "Couldn't get home directory"@,
        DriverError::HomeNotUtf8 => "Couldn't convert home directory path to UTF-8 string"@,
        DriverError::HistoryRead(_) => "Failed to read the command history"@,
        DriverError::HistoryWrite(_) => "Failed to write the command history"@,
        DriverError::RcFailed(_) => "Failed to source ~/.shellrc"@,
        DriverError::ScriptRead(_) => "Failed to read script file"@,
        DriverError::ExecuteFailed(_) => "Failed to execute"@,
    }
}

/// The message shown: the context, then `: ` and the cause where there is
/// one.
pub open spec fn message_of(e: DriverError) -> Seq<char> {
    match e {
        DriverError::NoHomeDirectory | DriverError::HomeNotUtf8 => context_of(e),
        DriverError::NoWorkingDirectory(c) | DriverError::HistoryRead(c)
        | DriverError::HistoryWrite(c) | DriverError::RcFailed(c) | DriverError::ScriptRead(c)
        | DriverError::ExecuteFailed(c) => context_of(e) + ": "@ + c@,
    }
}

impl DriverError {
    /// The context alone (see `context_of`).
    pub fn context(&self) -> (r: String)
        ensures
            r@ == context_of(*self),
    {
        match self {
            DriverError::NoWorkingDirectory(_) => String::from_str(
                "Couldn't get the current directory",
            ),
            DriverError::NoHomeDirectory => String::from_str("Couldn't get home directory"),
            DriverError::HomeNotUtf8 => String::from_str(
                "Couldn't convert home directory path to UTF-8 string",
            ),
            DriverError::HistoryRead(_) => String::from_str("Failed to read the command history"),
            DriverError::HistoryWrite(_) => String::from_str("Failed to write the command history"),
            DriverError::RcFailed(_) => String::from_str("Failed to source ~/.shellrc"),
            DriverError::ScriptRead(_) => String::from_str("Failed to read script file"),
            DriverError::ExecuteFailed(_) => String::from_str("Failed to execute"),
        }
    }

    /// The full message (see `message_of`).
    pub fn message(&self) -> (r: String)
        ensures
            r@ == message_of(*self),
    {
        let mut r = self.context();
        match self {
            DriverError::NoHomeDirectory | DriverError::HomeNotUtf8 => {},
            DriverError::NoWorkingDirectory(c) | DriverError::HistoryRead(c)
            | DriverError::HistoryWrite(c) | DriverError::RcFailed(c) | DriverError::ScriptRead(c)
            | DriverError::ExecuteFailed(c) => {
                r.append(": ");
                r.append(c.as_str());
            },
        }
        r
    }
}

} // verus!
