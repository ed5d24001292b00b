//! Errors reported by the command-line interface.

use vstd::prelude::*;

use crate::error::{parser_error_message, Error};

verus! {

/// An error of the command-line interface.
#[derive(Debug)]
pub enum CliError {
    /// An error found while checking or elaborating a proof.
    CarcaraError(Error),
    /// The problem file could not be inferred from the proof file, whose path is given.
    CantInferProblemFile(String),
    /// The given step id does not designate a step that can be sliced.
    InvalidSliceId(String),
    /// Both the problem and the proof were to be read from standard input.
    BothFilesStdin,
}

/// The result of a command of the command-line interface.
pub type CliResult<T> = Result<T, CliError>;

/// The message that reports an error of the command-line interface, for those whose message is
/// plain text: an error found while reading the input, or one of the interface's own errors.
pub open spec fn cli_error_message(e: CliError) -> Option<Seq<char>> {
    match e {
        CliError::CarcaraError(Error::Parser(p, _, _)) => Some(parser_error_message(p@)),
        CliError::CarcaraError(_) => None,
        CliError::CantInferProblemFile(p) => Some("can't infer problem file: "@ + p@),
        CliError::InvalidSliceId(id) => Some("invalid id for slice: "@ + id@),
        CliError::BothFilesStdin => Some("problem and proof files can't both be `-`"@),
    }
}

impl CliError {
    /// The message of this error, where it is plain text (see [`cli_error_message`]).
    pub fn message(&self) -> (m: Option<String>)
        ensures
            m matches Some(s) ==> cli_error_message(*self) == Some(s@),
            m is None ==> cli_error_message(*self) is None,
    {
        match self {
            CliError::CarcaraError(Error::Parser(p, _, _)) => Some(p.message()),
            CliError::CarcaraError(_) => None,
            CliError::CantInferProblemFile(p) => {
                let mut s = String::from_str("can't infer problem file: ");
                s.append(p.as_str());
                Some(s)
            },
            CliError::InvalidSliceId(id) => {
                let mut s = String::from_str("invalid id for slice: ");
                s.append(id.as_str());
                Some(s)
            },
            CliError::BothFilesStdin => Some(String::from_str("problem and proof files can't both be `-`")),
        }
    }
}

} // verus!
