//! What can go wrong in a dedup run.

use vstd::prelude::*;
use vstd::string::*;

verus! {

/// An error of a dedup run.
#[derive(Debug, Clone, PartialEq, Eq)]
pub enum DedupError {
    /// Whoever read the output went away. Not a failure of the run.
    ClosedPipe,
    /// The command line could not be understood; the text says why.
    ArgumentParseError(String),
    /// Reading or writing failed; the text is the system's message.
    IO(String),
    /// A worker died; the text is what is known of it.
    UnknownError(String),
}

impl DedupError {
    /// The error for a failed read or write: a closed pipe when
    /// `broken_pipe` says so, else an I/O error with the given message.
    pub fn from_io(broken_pipe: bool, message: String) -> (r: DedupError)
        ensures
            broken_pipe ==> r == DedupError::ClosedPipe,
            !broken_pipe ==> r == DedupError::IO(message),
    {
        if broken_pipe {
            DedupError::ClosedPipe
        } else {
            DedupError::IO(message)
        }
    }

    /// The text shown for this error.
    pub open spec fn spec_message(&self) -> Seq<char> {
        match self {
            DedupError::ClosedPipe => "A closed pipe was encountered"@,
            DedupError::IO(i) => i@,
            DedupError::ArgumentParseError(s) => s@,
            DedupError::UnknownError(e) => e@,
        }
    }

    /// The text shown for this error.
    pub fn message(&self) -> (text: String)
        ensures
            text@ == self.spec_message(),
    {
        match self {
            DedupError::ClosedPipe => String::from_str("A closed pipe was encountered"),
            DedupError::IO(i) => i.clone(),
            DedupError::ArgumentParseError(s) => s.clone(),
            DedupError::UnknownError(e) => e.clone(),
        }
    }

    /// The text shown for this error.
    pub fn to_string(&self) -> (text: String)
        ensures
            text@ == self.spec_message(),
    {
        self.message()
    }

    /// The status the program ends with after this error: 0 for a closed
    /// pipe, 1 for every other error.
    pub fn exit_code(&self) -> (code: i32)
        ensures
            code == (if self is ClosedPipe {
                0i32
            } else {
                1i32
            }),
    {
        match self {
            DedupError::ClosedPipe => 0,
            _ => 1,
        }
    }
}

/// The status the program ends with: 0 after a run without error, else the
/// status of the error.
pub fn exit_code(outcome: &Result<u64, DedupError>) -> (code: i32)
    ensures
        code == (match outcome {
            Ok(_) => 0i32,
            Err(DedupError::ClosedPipe) => 0i32,
            Err(_) => 1i32,
        }),
{
    match outcome {
        Ok(_) => 0,
        Err(e) => e.exit_code(),
    }
}

} // verus!
