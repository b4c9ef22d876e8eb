//! Status codes and the error value that fallible operations return.

use vstd::prelude::*;

verus! {

/// What kind of failure an error reports.
#[derive(Clone, Copy, Debug, PartialEq, Eq, Structural)]
pub enum CenStatus {
    /// The input text or bytes do not follow the expected grammar.
    ErrSyntax,
    /// Stored bytes are not what they should be.
    ErrCorrupt,
    /// The operation is not supported or failed internally.
    ErrInternal,
    /// Reading or writing failed.
    ErrIo,
    /// A rule on the data or on the order of calls is broken.
    ErrConstraint,
}

/// An error: a status code and a message for people.
#[derive(Debug, PartialEq, Eq)]
pub struct CenError {
    pub status: CenStatus,
    pub message: String,
}

/// The mathematical value of a [`CenError`].
pub struct ErrorView {
    pub status: CenStatus,
    pub message: Seq<char>,
}

impl View for CenError {
    type V = ErrorView;

    open spec fn view(&self) -> ErrorView {
        ErrorView { status: self.status, message: self.message@ }
    }
}

impl Clone for CenError {
    fn clone(&self) -> (res: Self)
        ensures
            res@ == self@,
    {
        CenError { status: self.status, message: self.message.clone() }
    }
}

/// The result of a fallible operation.
pub type CenResult<T> = Result<T, CenError>;

/// The mathematical value of a result.
pub open spec fn outcome<T: View>(r: CenResult<T>) -> Result<T::V, ErrorView> {
    match r {
        Ok(x) => Ok(x@),
        Err(e) => Err(e@),
    }
}

impl CenError {
    /// An error with the given status and message.
    pub fn new(status: CenStatus, message: &str) -> (res: Self)
        ensures
            res@ == (ErrorView { status, message: message@ }),
    {
        CenError { status, message: message.to_owned() }
    }

    /// A syntax error with the given message.
    pub fn syntax(message: &str) -> (res: Self)
        ensures
            res@ == syntax_error(message@),
    {
        CenError::new(CenStatus::ErrSyntax, message)
    }

    /// An error about stored bytes with the given message.
    pub fn corrupt(message: &str) -> (res: Self)
        ensures
            res@ == corrupt_error(message@),
    {
        CenError::new(CenStatus::ErrCorrupt, message)
    }

    /// An internal error with the given message.
    pub fn internal(message: &str) -> (res: Self)
        ensures
            res@ == internal_error(message@),
    {
        CenError::new(CenStatus::ErrInternal, message)
    }

    /// An error about a broken rule with the given message.
    pub fn constraint(message: &str) -> (res: Self)
        ensures
            res@ == constraint_error(message@),
    {
        CenError::new(CenStatus::ErrConstraint, message)
    }
}

/// The value of a syntax error with the given message.
pub open spec fn syntax_error(message: Seq<char>) -> ErrorView {
    ErrorView { status: CenStatus::ErrSyntax, message }
}

/// The value of an error about stored bytes with the given message.
pub open spec fn corrupt_error(message: Seq<char>) -> ErrorView {
    ErrorView { status: CenStatus::ErrCorrupt, message }
}

/// The value of an internal error with the given message.
pub open spec fn internal_error(message: Seq<char>) -> ErrorView {
    ErrorView { status: CenStatus::ErrInternal, message }
}

/// The value of an error about a broken rule with the given message.
pub open spec fn constraint_error(message: Seq<char>) -> ErrorView {
    ErrorView { status: CenStatus::ErrConstraint, message }
}

} // verus!
