//! The errors of the host calls, and the codes that a guest sees for them.

use vstd::prelude::*;

verus! {

/// Number by which a guest refers to an open response.
pub type WasiHttpHandle = u32;

/// What can go wrong in a host call.
#[derive(Debug, PartialEq, Eq)]
pub enum HttpError {
    /// No response is open under this handle.
    InvalidHandle(WasiHttpHandle),
    /// The guest exports no memory.
    MemoryNotFound,
    /// The guest's memory could not be accessed.
    MemoryError,
    /// A range does not fit the guest's memory, or a value its buffer.
    BufferTooSmall,
    /// The response has no such header.
    HeaderNotFound,
    /// A string in the guest's memory is not UTF-8.
    Utf8Error,
    /// The guest may not send requests to this URL.
    DestinationNotAllowed(String),
    /// The method is not an HTTP method.
    InvalidMethod,
    /// The serialized request headers cannot be decoded.
    InvalidEncoding,
    /// The URL cannot be parsed, or has no host.
    InvalidUrl,
    /// The request could not be sent.
    RequestError,
    /// The host failed.
    RuntimeError,
    /// No further response can be kept open.
    TooManySessions,
    /// A header name in the guest's memory is not UTF-8.
    FromUtf8Error,
}

/// An [`HttpError`] as contracts speak of it: with its text as characters.
pub enum HttpErrorView {
    InvalidHandle(WasiHttpHandle),
    MemoryNotFound,
    MemoryError,
    BufferTooSmall,
    HeaderNotFound,
    Utf8Error,
    DestinationNotAllowed(Seq<char>),
    InvalidMethod,
    InvalidEncoding,
    InvalidUrl,
    RequestError,
    RuntimeError,
    TooManySessions,
    FromUtf8Error,
}

impl View for HttpError {
    type V = HttpErrorView;

    open spec fn view(&self) -> HttpErrorView {
        match *self {
            HttpError::InvalidHandle(handle) => HttpErrorView::InvalidHandle(handle),
            HttpError::MemoryNotFound => HttpErrorView::MemoryNotFound,
            HttpError::MemoryError => HttpErrorView::MemoryError,
            HttpError::BufferTooSmall => HttpErrorView::BufferTooSmall,
            HttpError::HeaderNotFound => HttpErrorView::HeaderNotFound,
            HttpError::Utf8Error => HttpErrorView::Utf8Error,
            HttpError::DestinationNotAllowed(url) => HttpErrorView::DestinationNotAllowed(url@),
            HttpError::InvalidMethod => HttpErrorView::InvalidMethod,
            HttpError::InvalidEncoding => HttpErrorView::InvalidEncoding,
            HttpError::InvalidUrl => HttpErrorView::InvalidUrl,
            HttpError::RequestError => HttpErrorView::RequestError,
            HttpError::RuntimeError => HttpErrorView::RuntimeError,
            HttpError::TooManySessions => HttpErrorView::TooManySessions,
            HttpError::FromUtf8Error => HttpErrorView::FromUtf8Error,
        }
    }
}

/// The code under which a guest sees an error.
pub open spec fn error_code(error: HttpErrorView) -> u32 {
    match error {
        HttpErrorView::InvalidHandle(_) => 1,
        HttpErrorView::MemoryNotFound => 2,
        HttpErrorView::MemoryError => 3,
        HttpErrorView::BufferTooSmall => 4,
        HttpErrorView::HeaderNotFound => 5,
        HttpErrorView::Utf8Error => 6,
        HttpErrorView::DestinationNotAllowed(_) => 7,
        HttpErrorView::InvalidMethod => 8,
        HttpErrorView::InvalidEncoding => 9,
        HttpErrorView::InvalidUrl => 10,
        HttpErrorView::RequestError => 11,
        HttpErrorView::RuntimeError => 12,
        HttpErrorView::TooManySessions => 13,
        HttpErrorView::FromUtf8Error => 14,
    }
}

impl From<HttpError> for u32 {
    fn from(e: HttpError) -> (code: u32) {
        match e {
            HttpError::InvalidHandle(_) => 1,
            HttpError::MemoryNotFound => 2,
            HttpError::MemoryError => 3,
            HttpError::BufferTooSmall => 4,
            HttpError::HeaderNotFound => 5,
            HttpError::Utf8Error => 6,
            HttpError::DestinationNotAllowed(_) => 7,
            HttpError::InvalidMethod => 8,
            HttpError::InvalidEncoding => 9,
            HttpError::InvalidUrl => 10,
            HttpError::RequestError => 11,
            HttpError::RuntimeError => 12,
            HttpError::TooManySessions => 13,
            HttpError::FromUtf8Error => 14,
        }
    }
}

impl vstd::std_specs::convert::FromSpecImpl<HttpError> for u32 {
    open spec fn obeys_from_spec() -> bool {
        true
    }

    open spec fn from_spec(e: HttpError) -> u32 {
        error_code(e@)
    }
}

/// The error of `std`'s locks when a thread panicked while holding one.
#[verifier::external_type_specification]
#[verifier::external_body]
#[verifier::reject_recursive_types(T)]
pub struct ExPoisonError<T>(std::sync::PoisonError<T>);

impl<T> From<std::sync::PoisonError<T>> for HttpError {
    fn from(_e: std::sync::PoisonError<T>) -> (error: HttpError) {
        HttpError::RuntimeError
    }
}

impl<T> vstd::std_specs::convert::FromSpecImpl<std::sync::PoisonError<T>> for HttpError {
    open spec fn obeys_from_spec() -> bool {
        true
    }

    open spec fn from_spec(_e: std::sync::PoisonError<T>) -> HttpError {
        HttpError::RuntimeError
    }
}

/// Whether two errors are of one kind, whatever they carry.
pub open spec fn same_kind(a: HttpErrorView, b: HttpErrorView) -> bool {
    match (a, b) {
        (HttpErrorView::InvalidHandle(_), HttpErrorView::InvalidHandle(_)) => true,
        (
            HttpErrorView::DestinationNotAllowed(_),
            HttpErrorView::DestinationNotAllowed(_),
        ) => true,
        _ => a == b,
    }
}

/// A guest can tell every kind of error from every other, and from success:
/// no error has the code 0, and two errors share a code exactly when they are
/// of one kind.
pub proof fn law_codes_tell_kinds_apart(a: HttpErrorView, b: HttpErrorView)
    ensures
        error_code(a) != 0,
        error_code(a) == error_code(b) <==> same_kind(a, b),
{
}

/// The code of an outcome: 0 for success, otherwise the code of the error.
pub open spec fn outcome_code<T>(outcome: Result<T, HttpErrorView>) -> u32 {
    match outcome {
        Ok(_) => 0,
        Err(error) => error_code(error),
    }
}

/// The outcome of a host call with its error as contracts speak of it.
pub open spec fn outcome_view<T>(outcome: Result<T, HttpError>) -> Result<T, HttpErrorView> {
    match outcome {
        Ok(value) => Ok(value),
        Err(error) => Err(error@),
    }
}

/// Turns the outcome of a host call into the code that the guest receives.
pub fn binding_code(outcome: Result<(), HttpError>) -> (code: u32)
    ensures
        code == outcome_code(outcome_view(outcome)),
{
    match outcome {
        Ok(()) => 0,
        Err(err) => u32::from(err),
    }
}

/// The codes that guests are built against: 0 for success, and a fixed number
/// for each kind of error, whatever the error carries.
pub proof fn law_codes(handle: WasiHttpHandle, url: Seq<char>, error: HttpErrorView)
    ensures
        outcome_code(Ok::<(), HttpErrorView>(())) == 0,
        outcome_code(Err::<(), HttpErrorView>(error)) == error_code(error),
        error_code(HttpErrorView::InvalidHandle(handle)) == 1,
        error_code(HttpErrorView::MemoryNotFound) == 2,
        error_code(HttpErrorView::MemoryError) == 3,
        error_code(HttpErrorView::BufferTooSmall) == 4,
        error_code(HttpErrorView::HeaderNotFound) == 5,
        error_code(HttpErrorView::Utf8Error) == 6,
        error_code(HttpErrorView::DestinationNotAllowed(url)) == 7,
        error_code(HttpErrorView::InvalidMethod) == 8,
        error_code(HttpErrorView::InvalidEncoding) == 9,
        error_code(HttpErrorView::InvalidUrl) == 10,
        error_code(HttpErrorView::RequestError) == 11,
        error_code(HttpErrorView::RuntimeError) == 12,
        error_code(HttpErrorView::TooManySessions) == 13,
        error_code(HttpErrorView::FromUtf8Error) == 14,
{
}

/// The outcome of a call that found something has the code of success, whatever
/// was found, and that of a failed call the code of its error.
pub proof fn law_outcome_tells_success<T>(outcome: Result<T, HttpErrorView>)
    ensures
        outcome_code(outcome) == 0 <==> outcome is Ok,
        outcome matches Err(error) ==> outcome_code(outcome) == error_code(error),
{
    if let Err(error) = outcome {
        law_codes_tell_kinds_apart(error, error);
    }
}

/// Contracts see an error as it is: its kind, and the handle or the whole text
/// of the URL that it carries.
pub proof fn law_errors_are_seen_whole(
    error: HttpError,
    handle: WasiHttpHandle,
    url: String,
    outcome: Result<bool, HttpError>,
)
    ensures
        error == HttpError::InvalidHandle(handle) ==> error@ == HttpErrorView::InvalidHandle(
            handle,
        ),
        error == HttpError::DestinationNotAllowed(url) ==> error@
            == HttpErrorView::DestinationNotAllowed(url@),
        error is MemoryNotFound <==> error@ is MemoryNotFound,
        error is MemoryError <==> error@ is MemoryError,
        error is BufferTooSmall <==> error@ is BufferTooSmall,
        error is HeaderNotFound <==> error@ is HeaderNotFound,
        error is Utf8Error <==> error@ is Utf8Error,
        error is DestinationNotAllowed <==> error@ is DestinationNotAllowed,
        error is InvalidMethod <==> error@ is InvalidMethod,
        error is InvalidEncoding <==> error@ is InvalidEncoding,
        error is InvalidUrl <==> error@ is InvalidUrl,
        error is RequestError <==> error@ is RequestError,
        error is RuntimeError <==> error@ is RuntimeError,
        error is TooManySessions <==> error@ is TooManySessions,
        error is FromUtf8Error <==> error@ is FromUtf8Error,
        error is InvalidHandle <==> error@ is InvalidHandle,
        outcome matches Ok(value) ==> outcome_view(outcome) == Ok::<bool, HttpErrorView>(value),
        outcome matches Err(error) ==> outcome_view(outcome) == Err::<bool, HttpErrorView>(error@),
{
}

/// Converting an error to a number gives its code, and a poisoned lock is a
/// failure of the host.
pub proof fn law_conversion_gives_the_code<T>(error: HttpError, poison: std::sync::PoisonError<T>)
    ensures
        <u32 as vstd::std_specs::convert::FromSpec<HttpError>>::obeys_from_spec(),
        <u32 as vstd::std_specs::convert::FromSpec<HttpError>>::from_spec(error) == error_code(
            error@,
        ),
        <HttpError as vstd::std_specs::convert::FromSpec<
            std::sync::PoisonError<T>,
        >>::obeys_from_spec(),
        <HttpError as vstd::std_specs::convert::FromSpec<std::sync::PoisonError<T>>>::from_spec(
            poison,
        ) == HttpError::RuntimeError,
{
}

} // verus!
