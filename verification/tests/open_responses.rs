use bytes::Bytes;
use http::header::HeaderValue;
use http::HeaderMap;
use wasi_experimental_http_wasmer::headers::string_to_header_map;
use wasi_experimental_http_wasmer::{Body, HostCalls, HttpError, Response, State};

fn state_with(handle: u32, headers: HeaderMap, body: &'static str) -> State {
    let mut state = State::default();
    let bytes = Bytes::from_static(body.as_bytes());
    state.responses.insert(handle, Response { headers, body: Body { bytes, pos: 0 } });
    state
}

fn some_headers() -> HeaderMap {
    let mut headers = HeaderMap::new();
    headers.append("content-type", HeaderValue::from_static("text/plain"));
    headers.append("x-twice", HeaderValue::from_static("first"));
    headers.append("x-twice", HeaderValue::from_static("second"));
    headers.append("x-empty", HeaderValue::from_static(""));
    headers
}

#[test]
fn body_is_read_in_portions() {
    let mut state = state_with(3, HeaderMap::new(), "hello world");
    let mut memory = vec![0xeeu8; 16];
    assert_eq!(HostCalls::body_read(&mut state, &mut memory, 3, 4, 5, 0), Ok(()));
    assert_eq!(memory[..4], 5u32.to_le_bytes());
    assert_eq!(&memory[4..9], b"hello");
    assert_eq!(memory[9..], [0xee; 7]);
    assert_eq!(state.responses[&3].body.pos, 5);
    assert_eq!(HostCalls::body_read_binding(&mut state, &mut memory, 3, 4, 10, 0), 0);
    assert_eq!(memory[..4], 6u32.to_le_bytes());
    assert_eq!(&memory[4..10], b" world");
    // Nothing is left: no byte is written but the count, wherever the buffer is.
    assert_eq!(HostCalls::body_read_checked(&mut state, &mut memory, 3, 1000, 10, 0), Some(0));
    assert_eq!(memory[..4], 0u32.to_le_bytes());
    assert_eq!(&memory[4..10], b" world");
    assert_eq!(state.responses[&3].body.pos, 11);
}

#[test]
fn count_is_written_after_the_bytes() {
    let mut state = state_with(0, HeaderMap::new(), "abcdef");
    let mut memory = vec![0u8; 6];
    assert_eq!(HostCalls::body_read(&mut state, &mut memory, 0, 0, 6, 1), Ok(()));
    assert_eq!(memory, [b'a', 6, 0, 0, 0, b'f']);
}

#[test]
fn divided_reads_give_the_whole_body() {
    for step in 1u32..6 {
        let mut state = state_with(0, HeaderMap::new(), "0123456789");
        let mut got: Vec<u8> = Vec::new();
        loop {
            let mut memory = vec![0u8; 16];
            assert_eq!(HostCalls::body_read_checked(&mut state, &mut memory, 0, 8, step, 0), Some(0));
            let count = memory[0] as usize;
            if count == 0 {
                break;
            }
            got.extend_from_slice(&memory[8..8 + count]);
        }
        assert_eq!(got, b"0123456789");
    }
}

#[test]
fn read_leaves_other_responses_alone() {
    let mut state = state_with(1, HeaderMap::new(), "one");
    let other = Body { bytes: Bytes::from_static(b"two"), pos: 1 };
    state.responses.insert(2, Response { headers: HeaderMap::new(), body: other });
    let mut memory = vec![0u8; 8];
    assert_eq!(HostCalls::body_read(&mut state, &mut memory, 1, 4, 2, 0), Ok(()));
    assert_eq!(state.responses[&1].body.pos, 2);
    assert_eq!(state.responses[&2].body.pos, 1);
    assert_eq!(state.responses.len(), 2);
}

#[test]
fn unservable_reads_change_nothing() {
    let mut state = state_with(1, HeaderMap::new(), "one");
    let mut memory = vec![7u8; 8];
    // The handle is not open.
    assert_eq!(HostCalls::body_read_checked(&mut state, &mut memory, 2, 0, 1, 4), None);
    // The buffer, or the place of the count, lies beyond the memory.
    assert_eq!(HostCalls::body_read_checked(&mut state, &mut memory, 1, 6, 3, 0), None);
    assert_eq!(HostCalls::body_read_checked(&mut state, &mut memory, 1, 0, 3, 5), None);
    assert_eq!(memory, [7; 8]);
    assert_eq!(state.responses[&1].body.pos, 0);
    // The read position lies beyond the body.
    state.responses.get_mut(&1).unwrap().body.pos = 4;
    assert_eq!(HostCalls::body_read_checked(&mut state, &mut memory, 1, 0, 1, 4), None);
    assert_eq!(memory, [7; 8]);
    // Another response is served all the same.
    let other = Body { bytes: Bytes::from_static(b"two"), pos: 3 };
    state.responses.insert(2, Response { headers: HeaderMap::new(), body: other });
    assert_eq!(HostCalls::body_read_checked(&mut state, &mut memory, 2, 0, 1, 4), Some(0));
    assert_eq!(memory, [7, 7, 7, 7, 0, 0, 0, 0]);
}

#[test]
fn header_is_found_in_any_case() {
    let state = state_with(9, some_headers(), "");
    let mut memory = vec![0u8; 64];
    memory[..12].copy_from_slice(b"Content-TYPE");
    assert_eq!(HostCalls::header_get(&state, &mut memory, 9, 0, 12, 20, 10, 40), Ok(()));
    assert_eq!(&memory[20..30], b"text/plain");
    assert_eq!(memory[40..44], 10u32.to_le_bytes());
    assert_eq!(memory[30..40], [0; 10]);
}

#[test]
fn first_value_of_a_header_is_given() {
    let state = state_with(9, some_headers(), "");
    let mut memory = vec![0u8; 64];
    memory[..7].copy_from_slice(b"x-twice");
    assert_eq!(HostCalls::header_get_binding(&state, &mut memory, 9, 0, 7, 20, 64, 40), 0);
    assert_eq!(&memory[20..25], b"first");
}

#[test]
fn empty_value_needs_no_buffer() {
    let state = state_with(9, some_headers(), "");
    let mut memory = vec![1u8; 12];
    memory[..7].copy_from_slice(b"x-empty");
    assert_eq!(HostCalls::header_get_checked(&state, &mut memory, 9, 0, 7, 999, 0, 8), Some(0));
    assert_eq!(memory[8..], [0; 4]);
}

#[test]
fn header_errors() {
    let state = state_with(9, some_headers(), "");
    let mut memory = vec![0u8; 64];
    memory[..12].copy_from_slice(b"content-type");
    memory[12] = 0xff;
    let before = memory.clone();
    assert_eq!(
        HostCalls::header_get(&state, &mut memory, 8, 0, 12, 20, 10, 40),
        Err(HttpError::InvalidHandle(8))
    );
    assert_eq!(
        HostCalls::header_get(&state, &mut memory, 9, 12, 1, 20, 10, 40),
        Err(HttpError::FromUtf8Error)
    );
    assert_eq!(
        HostCalls::header_get(&state, &mut memory, 9, 0, 11, 20, 10, 40),
        Err(HttpError::HeaderNotFound)
    );
    // Neither the empty text nor a text that is no header name names a header.
    assert_eq!(
        HostCalls::header_get(&state, &mut memory, 9, 0, 0, 20, 10, 40),
        Err(HttpError::HeaderNotFound)
    );
    assert_eq!(
        HostCalls::header_get(&state, &mut memory, 9, 13, 3, 20, 10, 40),
        Err(HttpError::HeaderNotFound)
    );
    assert_eq!(
        HostCalls::header_get(&state, &mut memory, 9, 0, 12, 20, 9, 40),
        Err(HttpError::BufferTooSmall)
    );
    assert_eq!(HostCalls::header_get_binding(&state, &mut memory, 8, 0, 12, 20, 10, 40), 1);
    assert_eq!(HostCalls::header_get_binding(&state, &mut memory, 9, 12, 1, 20, 10, 40), 14);
    assert_eq!(HostCalls::header_get_binding(&state, &mut memory, 9, 0, 11, 20, 10, 40), 5);
    assert_eq!(HostCalls::header_get_checked(&state, &mut memory, 9, 0, 12, 20, 9, 40), Some(4));
    assert_eq!(memory, before);
}

#[test]
fn unservable_headers_change_nothing() {
    let state = state_with(9, some_headers(), "");
    let mut memory = vec![0u8; 32];
    memory[..12].copy_from_slice(b"content-type");
    let before = memory.clone();
    assert_eq!(HostCalls::header_get_checked(&state, &mut memory, 9, 30, 3, 12, 10, 28), None);
    assert_eq!(HostCalls::header_get_checked(&state, &mut memory, 9, 0, 12, 23, 10, 28), None);
    assert_eq!(HostCalls::header_get_checked(&state, &mut memory, 9, 0, 12, 12, 10, 29), None);
    // With a handle that is not open the name is not looked at.
    assert_eq!(HostCalls::header_get_checked(&state, &mut memory, 1, 30, 3, 12, 10, 28), Some(1));
    // A value that does not fit its buffer is not written.
    assert_eq!(HostCalls::header_get_checked(&state, &mut memory, 9, 0, 12, 99, 1, 99), Some(4));
    assert_eq!(memory, before);
}

#[test]
fn all_headers_as_a_string() {
    let state = state_with(9, some_headers(), "");
    let text = b"content-type:text/plain\nx-twice:first\nx-twice:second\nx-empty:\n";
    let len = text.len() as u32;
    let mut memory = vec![0u8; 80];
    assert_eq!(HostCalls::headers_get_all(&state, &mut memory, 9, 4, len, 0), Ok(()));
    assert_eq!(memory[..4], len.to_le_bytes());
    assert_eq!(memory[4..4 + text.len()], text[..]);
    assert_eq!(
        HostCalls::headers_get_all(&state, &mut memory, 9, 4, len - 1, 0),
        Err(HttpError::BufferTooSmall)
    );
    assert_eq!(
        HostCalls::headers_get_all(&state, &mut memory, 5, 4, len, 0),
        Err(HttpError::InvalidHandle(5))
    );
    assert_eq!(HostCalls::headers_get_all_binding(&state, &mut memory, 9, 4, len, 0), 0);
    assert_eq!(HostCalls::headers_get_all_checked(&state, &mut memory, 9, 30, len, 0), None);
    assert_eq!(HostCalls::headers_get_all_checked(&state, &mut memory, 9, 4, len, 77), None);
    assert_eq!(HostCalls::headers_get_all_checked(&state, &mut memory, 5, 4, len, 77), Some(1));
}

#[test]
fn all_headers_decode_to_the_headers() {
    let mut headers = HeaderMap::new();
    headers.insert("x-a", HeaderValue::from_static("1: 2"));
    headers.insert("x-b", HeaderValue::from_static(""));
    let state = state_with(9, headers.clone(), "");
    let mut memory = vec![0u8; 64];
    assert_eq!(HostCalls::headers_get_all_binding(&state, &mut memory, 9, 4, 60, 0), 0);
    let text = String::from_utf8(memory[4..4 + memory[0] as usize].to_vec()).unwrap();
    assert_eq!(string_to_header_map(&text).unwrap(), headers);
}

#[test]
fn headers_without_text_are_a_runtime_error() {
    let mut headers = HeaderMap::new();
    headers.insert("a", HeaderValue::from_bytes(&[0xff]).unwrap());
    let state = state_with(0, headers, "");
    let mut memory = vec![3u8; 8];
    assert_eq!(
        HostCalls::headers_get_all(&state, &mut memory, 0, 0, 8, 4),
        Err(HttpError::RuntimeError)
    );
    assert_eq!(HostCalls::headers_get_all_binding(&state, &mut memory, 0, 0, 8, 4), 12);
    assert_eq!(memory, [3; 8]);
}

#[test]
fn closed_handle_is_invalid() {
    let mut state = state_with(4, some_headers(), "body");
    let other = Body { bytes: Bytes::from_static(b"x"), pos: 0 };
    state.responses.insert(5, Response { headers: HeaderMap::new(), body: other });
    let mut memory = vec![0u8; 16];
    assert_eq!(HostCalls::close(&mut state, 4), Ok(()));
    assert_eq!(HostCalls::headers_get_all_binding(&state, &mut memory, 4, 0, 8, 8), 1);
    assert_eq!(HostCalls::header_get_binding(&state, &mut memory, 4, 0, 8, 8, 4, 12), 1);
    assert_eq!(HostCalls::body_read_checked(&mut state, &mut memory, 4, 0, 1, 8), None);
    // Closing again changes nothing.
    assert_eq!(HostCalls::close_binding(&mut state, 4), 0);
    assert_eq!(state.responses.len(), 1);
    assert!(state.responses.contains_key(&5));
}
