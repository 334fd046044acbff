//! The ways in which processing a document fails.

use vstd::prelude::*;

verus! {

/// `std::io::Error`, carried through unopened.
#[verifier::external_type_specification]
#[verifier::external_body]
pub struct ExIoError(std::io::Error);

/// A failure of a document pass. Each one ends the pass; no partial document
/// comes with it.
#[derive(Debug)]
pub enum CorgError {
    /// The document holds no block, and the caller asked to be told.
    NoBlocksDetected,
    /// The operating system refused to read, to write or to start a command.
    IOError(std::io::Error),
    /// A command ended unsuccessfully; this is what it wrote to its error stream.
    BlockExecutionError(String),
    /// In check-only mode the assembled document differs from the given one:
    /// the given text, then the assembled text.
    CheckFailed((String, String)),
    /// The digest written in the document differs from the digest of the fresh
    /// output: the written digest, then the fresh one.
    ChecksumMismatch((String, String)),
}

/// What a [`CorgError`] says, with texts as character sequences.
pub enum Failure {
    NoBlocksDetected,
    IOError(std::io::Error),
    BlockExecutionError(Seq<char>),
    CheckFailed(Seq<char>, Seq<char>),
    ChecksumMismatch(Seq<char>, Seq<char>),
}

impl View for CorgError {
    type V = Failure;

    open spec fn view(&self) -> Failure {
        match *self {
            CorgError::NoBlocksDetected => Failure::NoBlocksDetected,
            CorgError::IOError(e) => Failure::IOError(e),
            CorgError::BlockExecutionError(text) => Failure::BlockExecutionError(text@),
            CorgError::CheckFailed(pair) => Failure::CheckFailed(pair.0@, pair.1@),
            CorgError::ChecksumMismatch(pair) => Failure::ChecksumMismatch(pair.0@, pair.1@),
        }
    }
}

/// The exit status that a failure asks of a command-line program.
pub open spec fn status_of(failure: Failure) -> i32 {
    match failure {
        Failure::NoBlocksDetected => 0,
        Failure::IOError(_) => 1,
        Failure::BlockExecutionError(_) => 3,
        Failure::CheckFailed(_, _) => 5,
        Failure::ChecksumMismatch(_, _) => 7,
    }
}

impl CorgError {
    /// The exit status for this failure: the advisory "no blocks" is not fatal.
    pub fn exit_code(&self) -> (code: i32)
        ensures
            code == status_of(self@),
    {
        match self {
            CorgError::NoBlocksDetected => 0,
            CorgError::IOError(_) => 1,
            CorgError::BlockExecutionError(_) => 3,
            CorgError::CheckFailed(_) => 5,
            CorgError::ChecksumMismatch(_) => 7,
        }
    }
}

} // verus!
