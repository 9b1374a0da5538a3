//! What can go wrong while a credential store is built.

use vstd::prelude::*;
use vstd::string::StringExecFns;

verus! {

/// Makes `std::io::Error` of the standard library known as a type. A value
/// of it is the cause of a failed read and is carried through unopened:
/// nothing is claimed of what it holds.
#[verifier::external_type_specification]
#[verifier::external_body]
pub struct ExIoError(std::io::Error);

/// The reasons for which building a credential store fails.
#[derive(Debug)]
pub enum AuthConfigError {
    /// The credential directory could not be opened or listed.
    ReadDir { path: String, err: std::io::Error },
    /// One step of walking the directory failed.
    DirEntry(std::io::Error),
    /// A listed file could not be read.
    OpenFile { path: String, err: std::io::Error },
    /// A line that is no comment lacks the named field, or ends right after
    /// the field's key.
    MissingEntry(&'static str),
}

/// The mathematical value of an `AuthConfigError`.
pub ghost enum Failure {
    ReadDir { path: Seq<char>, err: std::io::Error },
    DirEntry(std::io::Error),
    OpenFile { path: Seq<char>, err: std::io::Error },
    MissingEntry(Seq<char>),
}

impl View for AuthConfigError {
    type V = Failure;

    open spec fn view(&self) -> Failure {
        match *self {
            AuthConfigError::ReadDir { path, err } => Failure::ReadDir { path: path@, err },
            AuthConfigError::DirEntry(err) => Failure::DirEntry(err),
            AuthConfigError::OpenFile { path, err } => Failure::OpenFile { path: path@, err },
            AuthConfigError::MissingEntry(field) => Failure::MissingEntry(field@),
        }
    }
}

/// The text that describes a failure to a reader.
pub open spec fn message_of(e: Failure) -> Seq<char> {
    match e {
        Failure::ReadDir { path, err } => "Failed to read dir: "@ + path,
        Failure::DirEntry(err) => "Failed to read dir entry"@,
        Failure::OpenFile { path, err } => "Failed to open file: "@ + path,
        Failure::MissingEntry(field) => "Auth config file missing entry: "@ + field,
    }
}

impl AuthConfigError {
    /// A one-line description of the failure.
    pub fn message(&self) -> (s: String)
        ensures
            s@ == message_of(self@),
    {
        match self {
            AuthConfigError::ReadDir { path, err } => {
                String::from_str("Failed to read dir: ").concat(path.as_str())
            },
            AuthConfigError::DirEntry(err) => String::from_str("Failed to read dir entry"),
            AuthConfigError::OpenFile { path, err } => {
                String::from_str("Failed to open file: ").concat(path.as_str())
            },
            AuthConfigError::MissingEntry(field) => {
                String::from_str("Auth config file missing entry: ").concat(field)
            },
        }
    }
}

} // verus!
