use vstd::prelude::*;

verus! {

/// A fatal error of the pipeline: either phase rejects a bad configuration
/// before it starts work.
#[derive(Debug)]
pub enum ThesisError {
    /// The creation phase was asked to do something impossible.
    CreateError(String),
    /// The merge phase was asked to do something impossible.
    MergeError(String),
}

pub type ThesisResult<T> = Result<T, ThesisError>;

impl ThesisError {
    /// The human-readable message carried by this error.
    pub fn message(&self) -> (m: &str)
        ensures
            m@ == match self {
                ThesisError::CreateError(s) => s@,
                ThesisError::MergeError(s) => s@,
            },
    {
        match self {
            ThesisError::CreateError(s) => s.as_str(),
            ThesisError::MergeError(s) => s.as_str(),
        }
    }
}

/// A plain error value holding nothing but a message.
#[derive(Debug)]
pub struct GeneralError {
    msg: String,
}

impl GeneralError {
    /// The message this error was built from.
    pub closed spec fn msg_spec(&self) -> Seq<char> {
        self.msg@
    }

    pub fn new(msg: String) -> (e: GeneralError)
        ensures
            e.msg_spec() == msg@,
    {
        GeneralError { msg }
    }

    /// The human-readable message carried by this error.
    pub fn message(&self) -> (m: &str)
        ensures
            m@ == self.msg_spec(),
    {
        self.msg.as_str()
    }
}

} // verus!
