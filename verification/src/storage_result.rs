use vstd::prelude::*;

verus! {

/// Why the store refused a command.
#[derive(Debug, PartialEq, Eq)]
pub enum StorageError {
    IncorrectRequest,
    CommandNotAvailable(String),
    CommandSyntaxError(String),
    CommandInternalError(String),
}

/// The result of an operation on the store.
pub type StorageResult<T> = Result<T, StorageError>;

/// The text with which an error is reported to a client.
pub open spec fn error_message(e: StorageError) -> Seq<char> {
    match e {
        StorageError::IncorrectRequest => "The client sent an incorrect request!"@,
        StorageError::CommandNotAvailable(c) => "The requested command "@ + c@
            + " is not available!"@,
        StorageError::CommandSyntaxError(s) => "Syntax error while processing "@ + s@ + "!"@,
        StorageError::CommandInternalError(s) => "Syntax error while processing "@ + s@ + "!"@,
    }
}

impl StorageError {
    /// The human-readable description of the error.
    pub fn message(&self) -> (m: String)
        ensures
            m@ == error_message(*self),
    {
        match self {
            StorageError::IncorrectRequest => String::from_str("The client sent an incorrect request!"),
            StorageError::CommandNotAvailable(c) => {
                let mut m = String::from_str("The requested command ");
                m.append(c.as_str());
                m.append(" is not available!");
                m
            },
            StorageError::CommandSyntaxError(s) => {
                let mut m = String::from_str("Syntax error while processing ");
                m.append(s.as_str());
                m.append("!");
                m
            },
            StorageError::CommandInternalError(s) => {
                let mut m = String::from_str("Syntax error while processing ");
                m.append(s.as_str());
                m.append("!");
                m
            },
        }
    }
}

} // verus!
