//! The error type of the library and what each kind of error means for the
//! process that reports it.

use vstd::prelude::*;

verus! {

/// What went wrong. Errors that outside code reports (I/O, git, JSON)
/// carry that code's own message.
#[derive(Debug, Clone, PartialEq)]
pub enum AppError {
    Io(String),
    Parse(String),
    Git(String),
    Serde(String),
    Config(String),
    Cli(String),
}

/// The kind of an [`AppError`].
#[derive(Debug, Clone, Copy, PartialEq, Eq, Structural)]
pub enum ErrorKind {
    Io,
    Parse,
    Git,
    Serde,
    Config,
    Cli,
}

impl View for AppError {
    type V = (ErrorKind, Seq<char>);

    open spec fn view(&self) -> (ErrorKind, Seq<char>) {
        match self {
            AppError::Io(m) => (ErrorKind::Io, m@),
            AppError::Parse(m) => (ErrorKind::Parse, m@),
            AppError::Git(m) => (ErrorKind::Git, m@),
            AppError::Serde(m) => (ErrorKind::Serde, m@),
            AppError::Config(m) => (ErrorKind::Config, m@),
            AppError::Cli(m) => (ErrorKind::Cli, m@),
        }
    }
}

/// The prefix that names a kind of error in messages.
pub open spec fn kind_prefix(k: ErrorKind) -> Seq<char> {
    match k {
        ErrorKind::Io => "io: "@,
        ErrorKind::Parse => "parse: "@,
        ErrorKind::Git => "git: "@,
        ErrorKind::Serde => "serde: "@,
        ErrorKind::Config => "config: "@,
        ErrorKind::Cli => "cli: "@,
    }
}

/// The process exit status for a kind of error: user input errors are 1,
/// internal errors are 2.
pub open spec fn exit_status(k: ErrorKind) -> u8 {
    match k {
        ErrorKind::Cli | ErrorKind::Io | ErrorKind::Config => 1,
        ErrorKind::Parse | ErrorKind::Git | ErrorKind::Serde => 2,
    }
}

impl AppError {
    /// The human-readable message: the kind's prefix, then the detail.
    pub fn message(&self) -> (s: String)
        ensures
            s@ == kind_prefix(self@.0) + self@.1,
    {
        let (prefix, detail) = match self {
            AppError::Io(m) => ("io: ", m),
            AppError::Parse(m) => ("parse: ", m),
            AppError::Git(m) => ("git: ", m),
            AppError::Serde(m) => ("serde: ", m),
            AppError::Config(m) => ("config: ", m),
            AppError::Cli(m) => ("cli: ", m),
        };
        let mut s = prefix.to_owned();
        s.append(detail.as_str());
        s
    }
}

/// Exit status for a failed run.
pub fn exit_code_for(err: &AppError) -> (code: u8)
    ensures
        code == exit_status(err@.0),
{
    match err {
        AppError::Cli(_) => 1,
        AppError::Io(_) | AppError::Config(_) => 1,
        AppError::Parse(_) | AppError::Git(_) | AppError::Serde(_) => 2,
    }
}

} // verus!
