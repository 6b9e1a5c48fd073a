use bytes::Bytes;
use http::header::HeaderValue;
use http::HeaderMap;
use wasi_experimental_http_wasmer::{
    Body, HostCalls, HttpError, Reply, Request, Response, State,
};

/// A guest's memory with the parts of a request, and where they lie.
struct Guest {
    memory: Vec<u8>,
    places: [u32; 8],
}

fn guest(url: &[u8], method: &[u8], headers: &[u8], body: &[u8]) -> Guest {
    let mut memory: Vec<u8> = vec![0; 3];
    let mut places = [0u32; 8];
    for (i, part) in [url, method, headers, body].iter().enumerate() {
        places[2 * i] = memory.len() as u32;
        places[2 * i + 1] = part.len() as u32;
        memory.extend_from_slice(part);
    }
    Guest { memory, places }
}

fn start(
    guest: &Guest,
    state: &State,
    allowed: Option<&Vec<String>>,
    max: Option<u32>,
) -> Option<Result<Request, HttpError>> {
    let p = guest.places;
    HostCalls::req_start(
        state,
        &guest.memory,
        allowed,
        max,
        p[0],
        p[1],
        p[2],
        p[3],
        p[4],
        p[5],
        p[6],
        p[7],
    )
}

fn refusal(guest: &Guest, allowed: Option<&Vec<String>>) -> HttpError {
    match start(guest, &State::default(), allowed, None) {
        Some(Err(error)) => error,
        Some(Ok(_)) => panic!("the request is sent"),
        None => panic!("no result"),
    }
}

fn example() -> Vec<String> {
    vec!["https://example.com".to_string()]
}

fn reply(status: u16, body: &'static str) -> Reply {
    let mut headers = HeaderMap::new();
    headers.insert("x-status", HeaderValue::from(status));
    Reply { status, headers, body: Bytes::from_static(body.as_bytes()) }
}

fn blank() -> Response {
    Response { headers: HeaderMap::new(), body: Body { bytes: Bytes::new(), pos: 0 } }
}

fn one_open() -> State {
    let mut state = State::default();
    state.responses.insert(0, blank());
    state
}

#[test]
fn allowed_request_is_sent() {
    let guest = guest(b"https://example.com/x", b"POST", b"X-A:1\nx-b: 2", b"\x00\xffbody");
    let request = start(&guest, &State::default(), Some(&example()), None).unwrap().unwrap();
    assert_eq!(request.url, "https://example.com/x");
    assert_eq!(request.method, "POST");
    assert_eq!(request.body, b"\x00\xffbody");
    assert_eq!(request.headers.len(), 2);
    assert_eq!(request.headers["x-a"], "1");
    assert_eq!(request.headers["x-b"], " 2");
}

#[test]
fn request_without_headers_and_body() {
    let guest = guest(b"https://example.com", b"M-SEARCH", b"", b"");
    let request = start(&guest, &State::default(), Some(&example()), Some(1)).unwrap().unwrap();
    assert_eq!(request.method, "M-SEARCH");
    assert!(request.headers.is_empty());
    assert!(request.body.is_empty());
}

#[test]
fn destination_must_be_allowed() {
    let asked = guest(b"https://example.org/x", b"GET", b"", b"");
    let error = HttpError::DestinationNotAllowed("https://example.org/x".to_string());
    assert_eq!(refusal(&asked, Some(&example())), error);
    assert_eq!(refusal(&asked, None), error);
    assert_eq!(u32::from(error), 7);
    let asked = guest(b"https://example.com", b"GET", b"", b"");
    assert_eq!(
        refusal(&asked, None),
        HttpError::DestinationNotAllowed("https://example.com".to_string())
    );
}

#[test]
fn bad_urls_are_refused() {
    assert_eq!(refusal(&guest(b"x", b"GET", b"", b""), Some(&example())), HttpError::InvalidUrl);
    assert_eq!(
        refusal(&guest(b"https://example.com", b"GET", b"", b""), Some(&vec!["x".to_string()])),
        HttpError::InvalidUrl
    );
    assert_eq!(refusal(&guest(b"\xff", b"GET", b"", b""), None), HttpError::Utf8Error);
}

#[test]
fn bad_methods_are_refused() {
    for method in [&b""[..], b"G T", b"GET#", b"\"", "M\u{e9}".as_bytes()] {
        let asked = guest(b"https://example.com", method, b"", b"");
        assert_eq!(refusal(&asked, Some(&example())), HttpError::InvalidMethod);
    }
    let asked = guest(b"https://example.com", b"\xff", b"", b"");
    assert_eq!(refusal(&asked, Some(&example())), HttpError::Utf8Error);
}

#[test]
fn every_method_byte_is_judged_alike() {
    for b in 0u8..128 {
        let c = b as char;
        let allowed = c.is_ascii_alphanumeric() || "!*+-.^_`|~".contains(c);
        for len in [1, 7, 20] {
            let method = vec![b; len];
            let asked = guest(b"https://example.com", &method, b"", b"");
            let r = start(&asked, &State::default(), Some(&example()), None).unwrap();
            assert_eq!(r.is_ok(), allowed, "byte {}", b);
            if let Ok(request) = r {
                assert_eq!(request.method.as_bytes(), &method[..]);
            }
        }
    }
}

#[test]
fn bad_headers_are_refused() {
    let asked = guest(b"https://example.com", b"GET", b"a b:1", b"");
    assert_eq!(refusal(&asked, Some(&example())), HttpError::InvalidEncoding);
    let asked = guest(b"https://example.com", b"GET", b"a:\x01", b"");
    assert_eq!(refusal(&asked, Some(&example())), HttpError::InvalidEncoding);
    let asked = guest(b"https://example.com", b"GET", b"a:\xff", b"");
    assert_eq!(refusal(&asked, Some(&example())), HttpError::Utf8Error);
}

#[test]
fn parts_beyond_the_memory_are_refused() {
    for part in 0..4 {
        let mut asked = guest(b"https://example.com", b"GET", b"", b"");
        asked.places[2 * part] = u32::MAX;
        asked.places[2 * part + 1] = 1;
        assert_eq!(refusal(&asked, Some(&example())), HttpError::BufferTooSmall);
        asked.places[2 * part] = asked.memory.len() as u32;
        assert_eq!(refusal(&asked, Some(&example())), HttpError::BufferTooSmall);
    }
}

#[test]
fn requests_without_meaning() {
    let asked = guest(b"https://example.com", b"GET", b"no colon", b"");
    assert!(start(&asked, &State::default(), Some(&example()), None).is_none());
    let asked = guest(b"https://example.com", b"GET", b"", b"");
    let hostless = vec!["mailto:a@example.com".to_string()];
    assert!(start(&asked, &State::default(), Some(&hostless), None).is_none());
}

#[test]
fn limit_on_open_responses() {
    let asked = guest(b"https://example.com", b"GET", b"", b"");
    let mut state = State::default();
    state.responses.insert(1, blank());
    state.responses.insert(2, blank());
    let full = start(&asked, &state, Some(&example()), Some(2)).unwrap();
    assert!(matches!(full, Err(HttpError::TooManySessions)));
    let fuller = start(&asked, &state, Some(&example()), Some(1)).unwrap();
    assert!(matches!(fuller, Err(HttpError::TooManySessions)));
    assert!(start(&asked, &state, Some(&example()), Some(3)).unwrap().is_ok());
    assert!(start(&asked, &state, Some(&example()), None).unwrap().is_ok());
    // The limit is checked before anything else.
    let nonsense = guest(b"\xff", b"", b"", b"");
    let none = start(&nonsense, &state, None, Some(2)).unwrap();
    assert!(matches!(none, Err(HttpError::TooManySessions)));
}

#[test]
fn limit_of_zero_lets_nothing_be_sent() {
    let asked = guest(b"https://example.com", b"GET", b"", b"");
    for state in [State::default(), one_open()] {
        let r = start(&asked, &state, Some(&example()), Some(0)).unwrap();
        assert!(matches!(r, Err(HttpError::TooManySessions)));
        // Every other answer is as without a limit.
        let denied = HttpError::DestinationNotAllowed("https://example.com".to_string());
        assert_eq!(start(&asked, &state, None, Some(0)).unwrap().err(), Some(denied));
        for (other, error) in [
            (guest(b"\xff", b"", b"", b""), HttpError::Utf8Error),
            (guest(b"x", b"", b"", b""), HttpError::InvalidUrl),
            (guest(b"https://example.com", b"", b"", b""), HttpError::InvalidMethod),
            (guest(b"https://example.com", b"GET", b":", b""), HttpError::InvalidEncoding),
        ] {
            let r = start(&other, &state, Some(&example()), Some(0)).unwrap();
            assert_eq!(r.err(), Some(error));
        }
        let other = guest(b"https://example.com", b"GET", b"no colon", b"");
        assert!(start(&other, &state, Some(&example()), Some(0)).is_none());
    }
}

#[test]
fn no_list_denies_every_url_under_every_limit() {
    let url = "https://example.com/x";
    let asked = guest(url.as_bytes(), b"\xff", b"no colon", b"");
    for limit in [None, Some(0), Some(1), Some(u32::MAX)] {
        let r = start(&asked, &State::default(), None, limit).unwrap();
        assert_eq!(r.err(), Some(HttpError::DestinationNotAllowed(url.to_string())));
    }
}

#[test]
fn other_errors_come_before_too_many_headers() {
    let mut headers = String::new();
    for i in 0..40000 {
        headers.push_str(&format!("h{}:\n", i));
    }
    let h = headers.as_bytes();
    let denied = HttpError::DestinationNotAllowed("https://example.org".to_string());
    let list = example();
    let mut far = guest(b"https://example.com", b"GET", h, b"");
    far.places[7] = u32::MAX;
    for (asked, error) in [
        (guest(b"\xff", b"GET", h, b""), HttpError::Utf8Error),
        (guest(b"x", b"GET", h, b""), HttpError::InvalidUrl),
        (guest(b"https://example.org", b"GET", h, b""), denied),
        (guest(b"https://example.com", b"G T", h, b""), HttpError::InvalidMethod),
        (far, HttpError::BufferTooSmall),
    ] {
        assert_eq!(refusal(&asked, Some(&list)), error);
    }
    let asked = guest(b"https://example.com", b"GET", h, b"");
    let full = start(&asked, &one_open(), Some(&list), Some(1)).unwrap();
    assert!(matches!(full, Err(HttpError::TooManySessions)));
    assert!(start(&asked, &State::default(), Some(&list), None).is_none());
}

#[test]
fn limit_is_kept_by_answered_requests() {
    let asked = guest(b"https://example.com", b"GET", b"", b"");
    let mut state = State::default();
    let mut memory = vec![0u8; 8];
    let mut sent = 0;
    for _ in 0..5 {
        match start(&asked, &state, Some(&example()), Some(3)).unwrap() {
            Ok(_) => {
                sent += 1;
                let code =
                    HostCalls::req_finish_binding(&mut state, &mut memory, Ok(reply(200, "")), 0, 4);
                assert_eq!(code, 0);
            }
            Err(error) => assert_eq!(error, HttpError::TooManySessions),
        }
        assert!(state.responses.len() <= 3);
    }
    assert_eq!(sent, 3);
}

#[test]
fn answer_on_the_url_decides_first() {
    let asked = guest(b"", b"PUT", b"x-a:1", b"body");
    let p = asked.places;
    let answered = |answer: Result<bool, HttpError>| {
        let url = "not a url".to_string();
        HostCalls::req_answered(url, answer, &asked.memory, p[2], p[3], p[4], p[5], p[6], p[7])
    };
    let request = answered(Ok(true)).unwrap().unwrap();
    assert_eq!(request.url, "not a url");
    assert_eq!(request.method, "PUT");
    assert_eq!(request.headers["x-a"], "1");
    assert_eq!(request.body, b"body");
    assert!(matches!(
        answered(Ok(false)),
        Some(Err(HttpError::DestinationNotAllowed(url))) if url == "not a url"
    ));
    assert!(matches!(answered(Err(HttpError::InvalidUrl)), Some(Err(HttpError::InvalidUrl))));
}

#[test]
fn reply_is_kept_and_read_back() {
    let mut state = State::default();
    let mut memory = vec![0xaau8; 32];
    assert_eq!(HostCalls::req_finish(&mut state, &mut memory, Ok(reply(404, "gone")), 0, 4), Ok(()));
    assert_eq!(memory[..8], [0x94, 0x01, 0xaa, 0xaa, 0, 0, 0, 0]);
    assert_eq!(state.current_handle, 0);
    assert_eq!(state.responses[&0].body.pos, 0);
    assert_eq!(state.responses[&0].headers["x-status"], "404");
    assert_eq!(HostCalls::body_read_binding(&mut state, &mut memory, 0, 8, 9, 16), 0);
    assert_eq!(&memory[8..12], b"gone");
}

#[test]
fn handles_are_fresh() {
    let mut state = State::default();
    let mut memory = vec![0u8; 8];
    for expected in 0u32..3 {
        let r = HostCalls::req_finish_checked(&mut state, &mut memory, Ok(reply(200, "")), 0, 4);
        assert_eq!(r, Some(0));
        assert_eq!(memory[4..], expected.to_le_bytes());
    }
    // A handle before the current one is not given out, though it is closed.
    assert_eq!(HostCalls::close_binding(&mut state, 0), 0);
    assert_eq!(HostCalls::req_finish_binding(&mut state, &mut memory, Ok(reply(200, "")), 0, 4), 0);
    assert_eq!(memory[4..], 3u32.to_le_bytes());
    // The current one is, once it is closed.
    assert_eq!(HostCalls::close_binding(&mut state, 3), 0);
    assert_eq!(HostCalls::req_finish_binding(&mut state, &mut memory, Ok(reply(200, "")), 0, 4), 0);
    assert_eq!(memory[4..], 3u32.to_le_bytes());
}

#[test]
fn handles_count_around() {
    let mut state = State::default();
    state.current_handle = u32::MAX - 1;
    state.responses.insert(u32::MAX - 1, blank());
    state.responses.insert(u32::MAX, blank());
    state.responses.insert(0, blank());
    let mut memory = vec![0u8; 8];
    assert_eq!(HostCalls::req_finish(&mut state, &mut memory, Ok(reply(200, "")), 0, 4), Ok(()));
    assert_eq!(memory[4..], 1u32.to_le_bytes());
    assert_eq!(state.current_handle, 1);
    assert_eq!(state.responses.len(), 4);
}

#[test]
fn failed_request_changes_nothing() {
    let mut state = State::default();
    let mut memory = vec![5u8; 8];
    let failed = Err(HttpError::RequestError);
    assert_eq!(
        HostCalls::req_finish(&mut state, &mut memory, failed, 999, 999),
        Err(HttpError::RequestError)
    );
    let failed = Err(HttpError::RuntimeError);
    assert_eq!(HostCalls::req_finish_checked(&mut state, &mut memory, failed, 999, 999), Some(12));
    assert_eq!(memory, [5; 8]);
    assert!(state.responses.is_empty());
}

#[test]
fn unservable_replies_change_nothing() {
    let mut state = State::default();
    let mut memory = vec![5u8; 8];
    let r = HostCalls::req_finish_checked(&mut state, &mut memory, Ok(reply(200, "")), 7, 0);
    assert_eq!(r, None);
    let r = HostCalls::req_finish_checked(&mut state, &mut memory, Ok(reply(200, "")), 0, 5);
    assert_eq!(r, None);
    assert_eq!(memory, [5; 8]);
    assert!(state.responses.is_empty());
}
