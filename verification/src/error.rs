//! The library's errors and their messages.
use vstd::prelude::*;
use crate::text::{join, join_strings};

verus! {

/// What can go wrong in SAM. The I/O, YAML and JSON variants carry the
/// message of the underlying error.
#[derive(Debug, Clone)]
pub enum SamError {
    GitError(String),
    ProfileNotFound { name: String, available: Vec<String> },
    NoRepoFound,
    WorkspaceError(String),
    MonoGraphError(String),
    IoError(String),
    YamlError(String),
    JsonError(String),
}

/// The message of an error, as the program prints it.
pub open spec fn error_message(e: SamError) -> Seq<char> {
    match e {
        SamError::GitError(m) => "git error: "@ + m@,
        SamError::ProfileNotFound { name, available } => "profile '"@ + name@
            + "' not found. Available: "@ + join(available.deep_view(), ", "@),
        SamError::NoRepoFound => "no SAM repository found (looked for .sam/ directory walking up from cwd)"@,
        SamError::WorkspaceError(m) => "workspace error: "@ + m@,
        SamError::MonoGraphError(m) => "monograph error: "@ + m@,
        SamError::IoError(m) => m@,
        SamError::YamlError(m) => m@,
        SamError::JsonError(m) => m@,
    }
}

impl SamError {
    /// The message of this error.
    pub fn message(&self) -> (r: String)
        ensures
            r@ == error_message(*self),
    {
        let mut r = String::new();
        match self {
            SamError::GitError(m) => {
                r.append("git error: ");
                r.append(m.as_str());
            },
            SamError::ProfileNotFound { name, available } => {
                r.append("profile '");
                r.append(name.as_str());
                r.append("' not found. Available: ");
                let list = join_strings(available, ", ");
                r.append(list.as_str());
            },
            SamError::NoRepoFound => {
                r.append(
                    "no SAM repository found (looked for .sam/ directory walking up from cwd)",
                );
            },
            SamError::WorkspaceError(m) => {
                r.append("workspace error: ");
                r.append(m.as_str());
            },
            SamError::MonoGraphError(m) => {
                r.append("monograph error: ");
                r.append(m.as_str());
            },
            SamError::IoError(m) => {
                r.append(m.as_str());
            },
            SamError::YamlError(m) => {
                r.append(m.as_str());
            },
            SamError::JsonError(m) => {
                r.append(m.as_str());
            },
        }
        r
    }
}

} // verus!
