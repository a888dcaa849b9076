//! What a request is refused with.

use vstd::prelude::*;

verus! {

/// Why a request is refused.
#[derive(Debug, PartialEq, Eq)]
pub enum ApiError {
    /// The request itself is wrong.
    BadRequest(String),
    /// What the request names does not exist.
    NotFound,
    /// The server found itself in a state that it cannot serve from.
    Internal(String),
    /// The storage layer failed with this message.
    Storage(String),
    /// Work on behalf of the request failed with this message.
    Failure(String),
    /// Work on behalf of the request failed: what was being done, and what went wrong.
    Context { doing: String, cause: String },
}

/// The contents of an `ApiError`.
pub enum ErrorView {
    BadRequest(Seq<char>),
    NotFound,
    Internal(Seq<char>),
    Storage(Seq<char>),
    Failure(Seq<char>),
    Context { doing: Seq<char>, cause: Seq<char> },
}

impl View for ApiError {
    type V = ErrorView;

    open spec fn view(&self) -> ErrorView {
        match self {
            ApiError::BadRequest(message) => ErrorView::BadRequest(message@),
            ApiError::NotFound => ErrorView::NotFound,
            ApiError::Internal(message) => ErrorView::Internal(message@),
            ApiError::Storage(message) => ErrorView::Storage(message@),
            ApiError::Failure(message) => ErrorView::Failure(message@),
            ApiError::Context { doing, cause } => ErrorView::Context {
                doing: doing@,
                cause: cause@,
            },
        }
    }
}

/// The HTTP status that an error is answered with. Two are fixed by what the error is: 400 for a
/// wrong request, and 404 for what does not exist. That all others, which the request is not to
/// blame for, are answered with 500 is a decision of this library.
pub open spec fn status_of(error: ErrorView) -> u16 {
    match error {
        ErrorView::BadRequest(_) => 400,
        ErrorView::NotFound => 404,
        _ => 500,
    }
}

impl ApiError {
    /// The HTTP status that the error is answered with: 400 for a wrong request, 404 for what does
    /// not exist and, by this library's decision, 500 for all else.
    pub fn status(&self) -> (status: u16)
        ensures
            status == status_of(self@),
            status == 400 <==> self is BadRequest,
            status == 404 <==> self is NotFound,
            !(self is BadRequest) && !(self is NotFound) ==> status == 500,
    {
        match self {
            ApiError::BadRequest(_) => 400,
            ApiError::NotFound => 404,
            _ => 500,
        }
    }
}

/// The contents of what came of a piece of work that gives nothing back or a reason why it failed.
pub open spec fn done(result: Result<(), String>) -> Result<(), Seq<char>> {
    match result {
        Ok(()) => Ok(()),
        Err(reason) => Err(reason@),
    }
}

/// The contents of an outcome, whichever way it went.
pub open spec fn outcome<T: View>(result: Result<T, ApiError>) -> Result<T::V, ErrorView> {
    match result {
        Ok(value) => Ok(value@),
        Err(error) => Err(error@),
    }
}

/// A wrong request is answered with 400 and what does not exist with 404, whatever the message;
/// and nothing else is.
pub proof fn law_status_tells_the_kind(error: ErrorView)
    ensures
        status_of(error) == 400 <==> error is BadRequest,
        status_of(error) == 404 <==> error is NotFound,
        status_of(error) != 400 && status_of(error) != 404 ==> status_of(error) == 500,
{
}

/// Nothing of an outcome is lost: its value and its error are those of the result, with their
/// texts as they are.
pub proof fn law_outcome_is_whole<T: View>(result: Result<T, ApiError>)
    ensures
        result matches Ok(value) ==> outcome(result) == Ok::<T::V, ErrorView>(value@),
        result matches Err(error) ==> outcome(result) == Err::<T::V, ErrorView>(
            match error {
                ApiError::BadRequest(message) => ErrorView::BadRequest(message@),
                ApiError::NotFound => ErrorView::NotFound,
                ApiError::Internal(message) => ErrorView::Internal(message@),
                ApiError::Storage(message) => ErrorView::Storage(message@),
                ApiError::Failure(message) => ErrorView::Failure(message@),
                ApiError::Context { doing, cause } => ErrorView::Context {
                    doing: doing@,
                    cause: cause@,
                },
            },
        ),
{
}

} // verus!
