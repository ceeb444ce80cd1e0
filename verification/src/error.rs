//! Error and logging types shared across the library.

use vstd::prelude::*;

verus! {

/// Errors of dictionary loading, graph building and path search.
#[derive(Debug)]
pub enum GraphError {
    /// Building a passphrase graph failed.
    BuildError(String),
    /// Searching the graph found no usable path.
    SearchError(String),
    /// Loading a dictionary asset failed.
    LoadError(String),
    /// Saving failed.
    SaveError(String),
}

impl GraphError {
    /// A short human-readable description of the error.
    pub fn message(&self) -> (m: &String)
        ensures
            m@ == self.spec_message(),
    {
        match self {
            GraphError::BuildError(m) => m,
            GraphError::SearchError(m) => m,
            GraphError::LoadError(m) => m,
            GraphError::SaveError(m) => m,
        }
    }

    /// The description carried by the error.
    pub open spec fn spec_message(&self) -> Seq<char> {
        match self {
            GraphError::BuildError(m) => m@,
            GraphError::SearchError(m) => m@,
            GraphError::LoadError(m) => m@,
            GraphError::SaveError(m) => m@,
        }
    }
}

/// Log level for the library.
#[derive(Debug, Clone, Copy, PartialEq, Eq, Structural)]
pub enum LogLevel {
    Error,
    Warn,
    Info,
    Debug,
    Trace,
}

impl LogLevel {
    /// The level's conventional upper-case name.
    pub fn label(&self) -> (s: &'static str)
        ensures
            s@ == self.spec_label(),
    {
        match self {
            LogLevel::Error => "ERROR",
            LogLevel::Warn => "WARN",
            LogLevel::Info => "INFO",
            LogLevel::Debug => "DEBUG",
            LogLevel::Trace => "TRACE",
        }
    }

    /// The name `label` returns for each level.
    pub open spec fn spec_label(&self) -> Seq<char> {
        match self {
            LogLevel::Error => "ERROR"@,
            LogLevel::Warn => "WARN"@,
            LogLevel::Info => "INFO"@,
            LogLevel::Debug => "DEBUG"@,
            LogLevel::Trace => "TRACE"@,
        }
    }
}

} // verus!
