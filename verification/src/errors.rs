//! Structured errors raised around parsing and project loading.
//!
//! These carry the facts of each failure as plain values; turning them into
//! user-facing reports is the concern of the external reporting interface,
//! not of this crate.

use vstd::prelude::*;

verus! {

/// A half-open byte range in a source file.
#[derive(Clone, Copy, PartialEq, Eq, Structural, Debug)]
pub struct FileLocation {
    pub start: usize,
    pub end: usize,
}

/// Identifier of a source file within a project.
pub type FileID = usize;

/// A language version, as the three numbers of a version pragma.
#[derive(Clone, Copy, PartialEq, Eq, Structural, Debug)]
pub struct Version {
    pub major: usize,
    pub minor: usize,
    pub patch: usize,
}

/// A comment that is opened but never closed.
#[derive(Clone, Copy, PartialEq, Eq, Structural, Debug)]
pub struct UnclosedCommentError {
    pub location: FileLocation,
    pub file_id: FileID,
}

/// A token that is invalid or unexpected where it stands.
#[derive(Debug)]
pub struct ParsingError {
    pub location: FileLocation,
    pub file_id: FileID,
    pub message: String,
}

/// A file that cannot be opened.
#[derive(Debug)]
pub struct FileOsError {
    pub path: String,
}

/// An include of a file that cannot be opened.
#[derive(Debug)]
pub struct IncludeError {
    pub path: String,
    pub file_id: Option<FileID>,
    pub file_location: FileLocation,
}

/// More than one main component in the project.
#[derive(Clone, Copy, PartialEq, Eq, Structural, Debug)]
pub struct MultipleMainError;

/// A file that requires a compiler version this tool does not support.
#[derive(Debug)]
pub struct CompilerVersionError {
    pub path: String,
    pub required_version: Version,
    pub version: Version,
}

/// A file without a version pragma.
#[derive(Debug)]
pub struct NoCompilerVersionWarning {
    pub path: String,
    pub version: Version,
}

} // verus!
