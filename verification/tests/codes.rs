use std::sync::PoisonError;
use wasi_experimental_http_wasmer::error::binding_code;
use wasi_experimental_http_wasmer::{HttpCtx, HttpError};

#[test]
fn every_error_has_its_code() {
    let errors = vec![
        HttpError::InvalidHandle(7),
        HttpError::MemoryNotFound,
        HttpError::MemoryError,
        HttpError::BufferTooSmall,
        HttpError::HeaderNotFound,
        HttpError::Utf8Error,
        HttpError::DestinationNotAllowed("http://x".to_string()),
        HttpError::InvalidMethod,
        HttpError::InvalidEncoding,
        HttpError::InvalidUrl,
        HttpError::RequestError,
        HttpError::RuntimeError,
        HttpError::TooManySessions,
        HttpError::FromUtf8Error,
    ];
    let mut expected: u32 = 0;
    for error in errors {
        expected += 1;
        assert_eq!(u32::from(error), expected);
    }
    assert_eq!(expected, 14);
}

#[test]
fn success_has_code_zero() {
    assert_eq!(binding_code(Ok(())), 0);
    assert_eq!(binding_code(Err(HttpError::HeaderNotFound)), 5);
}

#[test]
fn poisoned_lock_is_a_runtime_error() {
    assert_eq!(HttpError::from(PoisonError::new(1u8)), HttpError::RuntimeError);
}

#[test]
fn new_context_is_empty() {
    let ctx = HttpCtx::new(Some(vec!["https://example.com".to_string()]), Some(3)).unwrap();
    assert!(ctx.state.responses.is_empty());
    assert_eq!(ctx.state.current_handle, 0);
    assert_eq!(ctx.allowed_hosts, Some(vec!["https://example.com".to_string()]));
    assert_eq!(ctx.max_concurrent_requests, Some(3));
    assert_eq!(HttpCtx::MODULE, "wasi_experimental_http");
}
