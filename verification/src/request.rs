//! Requests of a guest: from its memory to what is sent, and from the reply to
//! an open response.

use vstd::prelude::*;
use vstd::string::*;
use vstd::utf8::*;

use bytes::Bytes;
use http::header::HeaderValue;
use http::method::{InvalidMethod, Method};
use http::HeaderMap;
use std::str::FromStr;

use crate::access::{answers, is_allowed_checked, listed, permission, url_host, url_hosts};
use crate::error::{binding_code, outcome_code, outcome_view};
use crate::error::{HttpError, HttpErrorView, WasiHttpHandle};
use crate::headers::{decode_headers, header_entries, overfull, string_to_header_map_checked};
use crate::headers::{law_too_many_headers_are_many, Decoded};
use crate::access::{law_allowed_by_host, law_no_list_allows_nothing};
use crate::host_calls::{law_reads_give_the_body, read_all, total, HostCalls};
use crate::memory::{can_write, le_u16, le_u32, read_bytes, read_string, slice_from_memory};
use crate::memory::{string_from_memory, writable, write_u16, write_u32, written};
use crate::memory::{law_bytes_weigh_up, law_read_is_exact, law_write_is_exact};
use crate::memory::law_string_is_what_its_bytes_say;
use crate::state::{byte_contents, Body, Response, ResponseView, State, StateView};
use crate::text::lines;

verus! {

broadcast use vstd::std_specs::hash::group_hash_axioms;

/// The error for a text that is no HTTP method.
#[verifier::external_type_specification]
#[verifier::external_body]
pub struct ExInvalidMethod(InvalidMethod);

/// Whether a byte can stand in an HTTP method.
pub open spec fn is_method_byte(b: u8) -> bool {
    ||| b == 33 || b == 42 || b == 43 || b == 45 || b == 46
    ||| 48 <= b <= 57 || 65 <= b <= 90 || 94 <= b <= 122
    ||| b == 124 || b == 126
}

/// Whether a text is an HTTP method.
pub open spec fn is_method(text: Seq<char>) -> bool {
    let bytes = encode_utf8(text);
    &&& bytes.len() > 0
    &&& forall|i: int| 0 <= i < bytes.len() ==> is_method_byte(#[trigger] bytes[i])
}

/// Calls `Method::from_str`, which accepts exactly the HTTP methods, and keeps
/// their text.
#[verifier::external_body]
fn parse_method(text: &str) -> (r: Result<String, InvalidMethod>)
    ensures
        r is Ok <==> is_method(text@),
        r matches Ok(method) ==> method@ == text@,
{
    Method::from_str(text).map(|method| method.as_str().to_owned())
}

/// A request that is to be sent.
pub struct Request {
    /// The absolute URL.
    pub url: String,
    /// The HTTP method.
    pub method: String,
    /// The request's headers.
    pub headers: HeaderMap<HeaderValue>,
    /// The request's body.
    pub body: Vec<u8>,
}

/// A [`Request`] as contracts speak of it.
#[verifier::ext_equal]
pub struct RequestView {
    pub url: Seq<char>,
    pub method: Seq<char>,
    pub headers: Seq<(Seq<u8>, Seq<u8>)>,
    pub body: Seq<u8>,
}

impl View for Request {
    type V = RequestView;

    open spec fn view(&self) -> RequestView {
        RequestView {
            url: self.url@,
            method: self.method@,
            headers: header_entries(self.headers),
            body: self.body@,
        }
    }
}

/// What came back for a request.
pub struct Reply {
    /// The status code.
    pub status: u16,
    /// The response's headers.
    pub headers: HeaderMap<HeaderValue>,
    /// The response's body.
    pub body: Bytes,
}

/// A [`Reply`] as contracts speak of it.
#[verifier::ext_equal]
pub struct ReplyView {
    pub status: u16,
    pub headers: Seq<(Seq<u8>, Seq<u8>)>,
    pub body: Seq<u8>,
}

impl View for Reply {
    type V = ReplyView;

    open spec fn view(&self) -> ReplyView {
        ReplyView {
            status: self.status,
            headers: header_entries(self.headers),
            body: byte_contents(self.body),
        }
    }
}

/// What the host makes of a guest's wish to send a request.
pub enum Plan {
    /// No meaning is given: the list of allowed hosts does not answer, or a
    /// line of the headers holds no colon.
    Undefined,
    /// The request is refused.
    Refused(HttpErrorView),
    /// The request is to be sent.
    Send(RequestView),
}

/// Whether as many responses are open as may be. A limit of 0 is not met by
/// open responses: it lets nothing be sent (see [`req_plan`]).
pub open spec fn sessions_full(state: StateView, max_concurrent_requests: Option<u32>) -> bool {
    max_concurrent_requests matches Some(max) && 0 < max <= state.responses.len()
}

/// What becomes of a request to a URL that is allowed.
pub open spec fn parts_plan(
    url: Seq<char>,
    memory: Seq<u8>,
    method_ptr: u32,
    method_len: u32,
    req_headers_ptr: u32,
    req_headers_len: u32,
    req_body_ptr: u32,
    req_body_len: u32,
) -> Plan {
    match read_string(memory, method_ptr, method_len) {
        Err(error) => Plan::Refused(error),
        Ok(method) => if !is_method(method) {
            Plan::Refused(HttpErrorView::InvalidMethod)
        } else {
            match read_bytes(memory, req_body_ptr, req_body_len) {
                Err(error) => Plan::Refused(error),
                Ok(body) => match read_string(memory, req_headers_ptr, req_headers_len) {
                    Err(error) => Plan::Refused(error),
                    Ok(text) => match decode_headers(encode_utf8(text)) {
                        Decoded::NoColon => Plan::Undefined,
                        Decoded::Refused(_) => Plan::Refused(HttpErrorView::InvalidEncoding),
                        Decoded::Value(headers) => Plan::Send(
                            RequestView { url, method, headers, body },
                        ),
                    },
                },
            }
        },
    }
}

/// What becomes of a request to a URL, given the answer on whether the URL is
/// allowed.
pub open spec fn answered_plan(
    url: Seq<char>,
    allowed: Result<bool, HttpErrorView>,
    memory: Seq<u8>,
    method_ptr: u32,
    method_len: u32,
    req_headers_ptr: u32,
    req_headers_len: u32,
    req_body_ptr: u32,
    req_body_len: u32,
) -> Plan {
    match allowed {
        Err(error) => Plan::Refused(error),
        Ok(false) => Plan::Refused(HttpErrorView::DestinationNotAllowed(url)),
        Ok(true) => parts_plan(
            url,
            memory,
            method_ptr,
            method_len,
            req_headers_ptr,
            req_headers_len,
            req_body_ptr,
            req_body_len,
        ),
    }
}

/// What becomes of a request, given where its parts lie in the guest's memory,
/// and the limit on open responses aside.
pub open spec fn unlimited_plan(
    memory: Seq<u8>,
    allowed_hosts: Option<Seq<String>>,
    url_ptr: u32,
    url_len: u32,
    method_ptr: u32,
    method_len: u32,
    req_headers_ptr: u32,
    req_headers_len: u32,
    req_body_ptr: u32,
    req_body_len: u32,
) -> Plan {
    match read_string(memory, url_ptr, url_len) {
        Err(error) => Plan::Refused(error),
        Ok(url) => if !answers(url_host(url), url_hosts(allowed_hosts)) {
            Plan::Undefined
        } else {
            answered_plan(
                url,
                permission(url_host(url), url_hosts(allowed_hosts)),
                memory,
                method_ptr,
                method_len,
                req_headers_ptr,
                req_headers_len,
                req_body_ptr,
                req_body_len,
            )
        },
    }
}

/// What becomes of a request. If as many responses are open as may be, it is
/// refused whatever it holds; under a limit of 0 it is refused if it would
/// otherwise be sent.
pub open spec fn req_plan(
    state: StateView,
    memory: Seq<u8>,
    allowed_hosts: Option<Seq<String>>,
    max_concurrent_requests: Option<u32>,
    url_ptr: u32,
    url_len: u32,
    method_ptr: u32,
    method_len: u32,
    req_headers_ptr: u32,
    req_headers_len: u32,
    req_body_ptr: u32,
    req_body_len: u32,
) -> Plan {
    let plan = unlimited_plan(
        memory,
        allowed_hosts,
        url_ptr,
        url_len,
        method_ptr,
        method_len,
        req_headers_ptr,
        req_headers_len,
        req_body_ptr,
        req_body_len,
    );
    if sessions_full(state, max_concurrent_requests) {
        Plan::Refused(HttpErrorView::TooManySessions)
    } else if max_concurrent_requests == Some(0u32) && plan is Send {
        Plan::Refused(HttpErrorView::TooManySessions)
    } else {
        plan
    }
}

/// Whether a plan for an allowed URL comes from the text of the headers: all
/// other parts of the request were in order.
pub open spec fn from_headers(plan: Plan) -> bool {
    plan is Send || plan == Plan::Refused(HttpErrorView::InvalidEncoding)
}

/// Whether the text of a request's headers names more headers than a map is
/// sure to hold.
pub open spec fn headers_overfull(
    memory: Seq<u8>,
    req_headers_ptr: u32,
    req_headers_len: u32,
) -> bool {
    read_string(memory, req_headers_ptr, req_headers_len) matches Ok(text) && overfull(
        encode_utf8(text),
    )
}

/// How many handles there are.
pub const HANDLES: u64 = 0x1_0000_0000;

/// The handle that follows another. After the last comes the first.
pub open spec fn next_handle(handle: WasiHttpHandle) -> WasiHttpHandle {
    if handle == u32::MAX {
        0
    } else {
        (handle + 1) as u32
    }
}

/// The first of `count` handles, starting with `from`, that is not open.
pub open spec fn first_free(
    responses: Map<WasiHttpHandle, ResponseView>,
    from: WasiHttpHandle,
    count: nat,
) -> Option<WasiHttpHandle>
    decreases count,
{
    if count == 0 {
        None
    } else if !responses.contains_key(from) {
        Some(from)
    } else {
        first_free(responses, next_handle(from), (count - 1) as nat)
    }
}

/// The handle under which the next response is kept.
pub open spec fn free_handle(state: StateView) -> Option<WasiHttpHandle> {
    first_free(state.responses, state.current_handle, HANDLES as nat)
}

/// The handle that a reply gets, or the error that answers the guest.
pub open spec fn reply_outcome(
    state: StateView,
    reply: Result<ReplyView, HttpErrorView>,
) -> Result<WasiHttpHandle, HttpErrorView> {
    match reply {
        Err(error) => Err(error),
        Ok(_) => match free_handle(state) {
            Some(handle) => Ok(handle),
            None => Err(HttpErrorView::TooManySessions),
        },
    }
}

/// The state after a reply was taken in.
pub open spec fn reply_kept(state: StateView, reply: Result<ReplyView, HttpErrorView>) -> StateView {
    match (reply, reply_outcome(state, reply)) {
        (Ok(reply), Ok(handle)) => StateView {
            responses: state.responses.insert(
                handle,
                ResponseView { headers: reply.headers, body: reply.body, pos: 0 },
            ),
            current_handle: handle,
        },
        _ => state,
    }
}

/// The memory after a reply was taken in: the status, and then the handle if
/// there is one.
pub open spec fn reply_written(
    state: StateView,
    memory: Seq<u8>,
    reply: Result<ReplyView, HttpErrorView>,
    status_code_ptr: u32,
    res_handle_ptr: u32,
) -> Seq<u8> {
    match reply {
        Err(_) => memory,
        Ok(view) => {
            let with_status = written(memory, status_code_ptr as int, le_u16(view.status));
            match reply_outcome(state, reply) {
                Ok(handle) => written(with_status, res_handle_ptr as int, le_u32(handle)),
                Err(_) => with_status,
            }
        },
    }
}

/// Whether a reply can be taken in: what is written lies within the memory.
pub open spec fn reply_ready(
    state: StateView,
    memory: Seq<u8>,
    reply: Result<ReplyView, HttpErrorView>,
    status_code_ptr: u32,
    res_handle_ptr: u32,
) -> bool {
    reply is Ok ==> {
        &&& writable(memory, status_code_ptr as int, 2)
        &&& reply_outcome(state, reply) is Ok ==> writable(memory, res_handle_ptr as int, 4)
    }
}

/// A reply with its error as contracts speak of it.
pub open spec fn reply_view(reply: Result<Reply, HttpError>) -> Result<ReplyView, HttpErrorView> {
    match reply {
        Ok(reply) => Ok(reply@),
        Err(error) => Err(error@),
    }
}

impl HostCalls {
    /// Reads a request from the guest's memory, and decides whether it is sent:
    /// checks that a further response may be opened, and that the guest is
    /// allowed to make a request to the given URL. There is no result if the
    /// list of allowed hosts does not answer, or, once all else is in order, if
    /// a line of the headers holds no colon or there are too many headers for a
    /// map.
    pub fn req_start(
        state: &State,
        memory: &[u8],
        allowed_hosts: Option<&Vec<String>>,
        max_concurrent_requests: Option<u32>,
        url_ptr: u32,
        url_len: u32,
        method_ptr: u32,
        method_len: u32,
        req_headers_ptr: u32,
        req_headers_len: u32,
        req_body_ptr: u32,
        req_body_len: u32,
    ) -> (r: Option<Result<Request, HttpError>>)
        ensures
            ({
                let plan = req_plan(
                    state@,
                    memory@,
                    listed(allowed_hosts),
                    max_concurrent_requests,
                    url_ptr,
                    url_len,
                    method_ptr,
                    method_len,
                    req_headers_ptr,
                    req_headers_len,
                    req_body_ptr,
                    req_body_len,
                );
                &&& match r {
                    Some(Ok(request)) => plan == Plan::Send(request@),
                    Some(Err(error)) => plan == Plan::Refused(error@),
                    None => plan is Undefined || (!sessions_full(state@, max_concurrent_requests)
                        && from_headers(
                        unlimited_plan(
                            memory@,
                            listed(allowed_hosts),
                            url_ptr,
                            url_len,
                            method_ptr,
                            method_len,
                            req_headers_ptr,
                            req_headers_len,
                            req_body_ptr,
                            req_body_len,
                        ),
                    ) && headers_overfull(memory@, req_headers_ptr, req_headers_len)),
                }
                &&& plan is Undefined ==> r is None
            }),
    {
        if let Some(max) = max_concurrent_requests {
            assert(state@.responses.dom() =~= state.responses@.dom());
            if max > 0 && state.responses.len() >= max as usize {
                return Some(Err(HttpError::TooManySessions));
            }
        }
        // Read the request parts from the guest's memory and check early if the
        // guest is allowed to make a request to the given URL.
        let url = match string_from_memory(memory, url_ptr, url_len) {
            Ok(url) => url,
            Err(error) => return Some(Err(error)),
        };
        let started = match is_allowed_checked(url.as_str(), allowed_hosts) {
            None => return None,
            Some(allowed) => Self::req_answered(
                url,
                allowed,
                memory,
                method_ptr,
                method_len,
                req_headers_ptr,
                req_headers_len,
                req_body_ptr,
                req_body_len,
            ),
        };
        match (started, max_concurrent_requests) {
            (Some(Ok(_)), Some(0)) => Some(Err(HttpError::TooManySessions)),
            (started, _) => started,
        }
    }

    /// Reads the other parts of a request to a URL from the guest's memory,
    /// given the answer on whether the URL is allowed. There is no result if,
    /// once all else is in order, a line of the headers holds no colon or there
    /// are too many headers for a map.
    pub fn req_answered(
        url: String,
        allowed: Result<bool, HttpError>,
        memory: &[u8],
        method_ptr: u32,
        method_len: u32,
        req_headers_ptr: u32,
        req_headers_len: u32,
        req_body_ptr: u32,
        req_body_len: u32,
    ) -> (r: Option<Result<Request, HttpError>>)
        ensures
            ({
                let plan = answered_plan(
                    url@,
                    outcome_view(allowed),
                    memory@,
                    method_ptr,
                    method_len,
                    req_headers_ptr,
                    req_headers_len,
                    req_body_ptr,
                    req_body_len,
                );
                &&& match r {
                    Some(Ok(request)) => plan == Plan::Send(request@),
                    Some(Err(error)) => plan == Plan::Refused(error@),
                    None => plan is Undefined || (allowed == Ok::<bool, HttpError>(true)
                        && from_headers(plan) && headers_overfull(
                        memory@,
                        req_headers_ptr,
                        req_headers_len,
                    )),
                }
                &&& plan is Undefined ==> r is None
            }),
    {
        match allowed {
            Ok(true) => {},
            Ok(false) => return Some(Err(HttpError::DestinationNotAllowed(url))),
            Err(error) => return Some(Err(error)),
        }
        let method = match string_from_memory(memory, method_ptr, method_len) {
            Ok(method) => method,
            Err(error) => return Some(Err(error)),
        };
        let method = match parse_method(method.as_str()) {
            Ok(method) => method,
            Err(_) => return Some(Err(HttpError::InvalidMethod)),
        };
        let body = match slice_from_memory(memory, req_body_ptr, req_body_len) {
            Ok(body) => body,
            Err(error) => return Some(Err(error)),
        };
        let headers = match string_from_memory(memory, req_headers_ptr, req_headers_len) {
            Ok(headers) => headers,
            Err(error) => return Some(Err(error)),
        };
        match string_to_header_map_checked(headers.as_str()) {
            None => None,
            Some(Err(_)) => Some(Err(HttpError::InvalidEncoding)),
            Some(Ok(headers)) => Some(Ok(Request { url, method, headers, body })),
        }
    }

    /// Finds the handle under which the next response is kept.
    fn find_free(state: &State) -> (r: Option<WasiHttpHandle>)
        ensures
            r == free_handle(state@),
    {
        let initial_handle: u32 = state.current_handle;
        let mut handle: u32 = initial_handle;
        let ghost mut tried: int = 0;
        while state.responses.contains_key(&handle)
            invariant
                initial_handle == state.current_handle,
                0 <= tried < HANDLES,
                handle == (if initial_handle + tried < HANDLES {
                    initial_handle + tried
                } else {
                    initial_handle + tried - HANDLES
                }),
                first_free(state@.responses, handle, (HANDLES - tried) as nat) == free_handle(
                    state@,
                ),
            decreases HANDLES - tried,
        {
            handle = handle.wrapping_add(1);
            proof {
                tried = tried + 1;
            }
            if handle == initial_handle {
                return None;
            }
        }
        Some(handle)
    }

    /// Takes in the reply to a request: writes the status code to
    /// `status_code_ptr`, keeps the response under a free handle, and writes
    /// the handle to `res_handle_ptr`.
    pub fn req_finish(
        state: &mut State,
        memory: &mut [u8],
        reply: Result<Reply, HttpError>,
        status_code_ptr: u32,
        res_handle_ptr: u32,
    ) -> (r: Result<(), HttpError>)
        requires
            reply_ready(
                old(state)@,
                old(memory)@,
                reply_view(reply),
                status_code_ptr,
                res_handle_ptr,
            ),
        ensures
            match reply_outcome(old(state)@, reply_view(reply)) {
                Ok(_) => r is Ok,
                Err(error) => r matches Err(e) && e@ == error,
            },
            final(state)@ == reply_kept(old(state)@, reply_view(reply)),
            final(memory)@ == reply_written(
                old(state)@,
                old(memory)@,
                reply_view(reply),
                status_code_ptr,
                res_handle_ptr,
            ),
            old(state)@.well_formed() ==> final(state)@.well_formed(),
    {
        let reply = match reply {
            Ok(reply) => reply,
            Err(error) => return Err(error),
        };
        // Write the status code to the guest.
        write_u16(memory, status_code_ptr, reply.status);
        // Construct the response, add it to the current state, and write the
        // handle to the guest.
        let handle: u32 = match Self::find_free(state) {
            Some(handle) => handle,
            None => return Err(HttpError::TooManySessions),
        };
        let response = Response {
            headers: reply.headers,
            body: Body { bytes: reply.body, pos: 0 },
        };
        state.current_handle = handle;
        state.responses.insert(handle, response);
        assert(state@.responses == old(state)@.responses.insert(handle, response@));
        write_u32(memory, res_handle_ptr, handle);
        Ok(())
    }

    /// [`HostCalls::req_finish`] with its outcome as a code.
    pub fn req_finish_binding(
        state: &mut State,
        memory: &mut [u8],
        reply: Result<Reply, HttpError>,
        status_code_ptr: u32,
        res_handle_ptr: u32,
    ) -> (code: u32)
        requires
            reply_ready(
                old(state)@,
                old(memory)@,
                reply_view(reply),
                status_code_ptr,
                res_handle_ptr,
            ),
        ensures
            code == outcome_code(reply_outcome(old(state)@, reply_view(reply))),
            final(state)@ == reply_kept(old(state)@, reply_view(reply)),
            final(memory)@ == reply_written(
                old(state)@,
                old(memory)@,
                reply_view(reply),
                status_code_ptr,
                res_handle_ptr,
            ),
            old(state)@.well_formed() ==> final(state)@.well_formed(),
    {
        binding_code(Self::req_finish(state, memory, reply, status_code_ptr, res_handle_ptr))
    }

    /// [`HostCalls::req_finish_binding`] for every argument: without a code, and
    /// without a change, where the reply cannot be taken in.
    pub fn req_finish_checked(
        state: &mut State,
        memory: &mut [u8],
        reply: Result<Reply, HttpError>,
        status_code_ptr: u32,
        res_handle_ptr: u32,
    ) -> (code: Option<u32>)
        ensures
            if reply_ready(
                old(state)@,
                old(memory)@,
                reply_view(reply),
                status_code_ptr,
                res_handle_ptr,
            ) {
                &&& code == Some(outcome_code(reply_outcome(old(state)@, reply_view(reply))))
                &&& final(state)@ == reply_kept(old(state)@, reply_view(reply))
                &&& final(memory)@ == reply_written(
                    old(state)@,
                    old(memory)@,
                    reply_view(reply),
                    status_code_ptr,
                    res_handle_ptr,
                )
            } else {
                &&& code is None
                &&& final(state)@ == old(state)@
                &&& final(memory)@ == old(memory)@
            },
            old(state)@.well_formed() ==> final(state)@.well_formed(),
    {
        let ready: bool = match &reply {
            Ok(_) => can_write(memory, status_code_ptr, 2) && (can_write(memory, res_handle_ptr, 4)
                || Self::find_free(state).is_none()),
            Err(_) => true,
        };
        if ready {
            Some(
                Self::req_finish_binding(state, memory, reply, status_code_ptr, res_handle_ptr),
            )
        } else {
            None
        }
    }
}

/// The handle `count` places after another.
pub open spec fn handle_after(handle: WasiHttpHandle, count: int) -> int {
    (handle + count) % (HANDLES as int)
}

proof fn lemma_first_free(
    responses: Map<WasiHttpHandle, ResponseView>,
    from: WasiHttpHandle,
    count: nat,
)
    ensures
        match first_free(responses, from, count) {
            Some(handle) => !responses.contains_key(handle) && exists|k: int|
                0 <= k < count && handle == #[trigger] handle_after(from, k) && forall|j: int|
                    0 <= j < k ==> responses.contains_key(#[trigger] handle_after(from, j) as u32),
            None => forall|j: int|
                0 <= j < count ==> responses.contains_key(#[trigger] handle_after(from, j) as u32),
        },
    decreases count,
{
    if count > 0 {
        assert(handle_after(from, 0) == from);
        if responses.contains_key(from) {
            let next = next_handle(from);
            lemma_first_free(responses, next, (count - 1) as nat);
            assert forall|j: int| 0 < j implies #[trigger] handle_after(from, j) == handle_after(
                next,
                j - 1,
            ) by {
                if from == u32::MAX {
                    assert((from + j) % 0x1_0000_0000 == (j - 1) % 0x1_0000_0000);
                }
            }
            match first_free(responses, next, (count - 1) as nat) {
                Some(handle) => {
                    let k = choose|k: int|
                        0 <= k < count - 1 && handle == #[trigger] handle_after(next, k)
                            && forall|j: int|
                            0 <= j < k ==> responses.contains_key(
                                #[trigger] handle_after(next, j) as u32,
                            );
                    assert(handle_after(from, k + 1) == handle);
                    assert forall|j: int| 0 <= j < k + 1 implies responses.contains_key(
                        #[trigger] handle_after(from, j) as u32,
                    ) by {
                        if j > 0 {
                            assert(handle_after(from, j) == handle_after(next, j - 1));
                        }
                    }
                },
                None => {
                    assert forall|j: int| 0 <= j < count implies responses.contains_key(
                        #[trigger] handle_after(from, j) as u32,
                    ) by {
                        if j > 0 {
                            assert(handle_after(from, j) == handle_after(next, j - 1));
                        }
                    }
                },
            }
        } else {
            assert(from == handle_after(from, 0));
        }
    }
}

/// A new response gets a handle that is not open: the first one from the
/// current handle on, counting around. There is none only if every handle is
/// open.
pub proof fn law_handles_are_fresh(state: StateView)
    ensures
        match free_handle(state) {
            Some(handle) => !state.responses.contains_key(handle) && exists|k: int|
                0 <= k < HANDLES && handle == #[trigger] handle_after(state.current_handle, k)
                    && forall|j: int|
                    0 <= j < k ==> state.responses.contains_key(
                        #[trigger] handle_after(state.current_handle, j) as u32,
                    ),
            None => forall|handle: WasiHttpHandle| #[trigger]
                state.responses.contains_key(handle),
        },
{
    let from = state.current_handle;
    lemma_first_free(state.responses, from, HANDLES as nat);
    if free_handle(state) is None {
        assert forall|handle: WasiHttpHandle| #[trigger]
            state.responses.contains_key(handle) by {
            let j: int = if handle >= from {
                handle - from
            } else {
                handle - from + HANDLES
            };
            assert(handle_after(from, j) == handle);
        }
    }
}

/// A response that was kept is open under its handle, unread, with the headers
/// and the body of the reply; all other responses are as before.
pub proof fn law_reply_is_kept(
    state: StateView,
    reply: ReplyView,
    handle: WasiHttpHandle,
    other: WasiHttpHandle,
)
    requires
        reply_outcome(state, Ok(reply)) == Ok::<WasiHttpHandle, HttpErrorView>(handle),
    ensures
        !state.responses.contains_key(handle),
        ({
            let after = reply_kept(state, Ok(reply));
            &&& after.responses.contains_key(handle)
            &&& after.responses[handle] == (ResponseView {
                headers: reply.headers,
                body: reply.body,
                pos: 0,
            })
            &&& other != handle ==> after.responses.contains_key(other)
                == state.responses.contains_key(other)
            &&& other != handle && state.responses.contains_key(other)
                ==> after.responses[other] == state.responses[other]
        }),
{
    law_handles_are_fresh(state);
}

/// A guest that sends a request and then reads, in whatever portions, gets the
/// body of the reply from its start.
pub proof fn law_read_gives_back_reply(
    state: StateView,
    reply: ReplyView,
    handle: WasiHttpHandle,
    lens: Seq<u32>,
)
    requires
        reply_outcome(state, Ok(reply)) == Ok::<WasiHttpHandle, HttpErrorView>(handle),
        total(lens) >= reply.body.len(),
    ensures
        read_all(reply_kept(state, Ok(reply)).responses[handle], lens) == reply.body,
{
    let response = reply_kept(state, Ok(reply)).responses[handle];
    law_reads_give_the_body(response, lens);
    assert(reply.body.skip(0) == reply.body);
}

/// A reply that gets no handle, or an error in place of a reply, leaves the
/// responses as they are; an error leaves the memory as it is, too.
pub proof fn law_failed_request_keeps_state(
    state: StateView,
    memory: Seq<u8>,
    reply: Result<ReplyView, HttpErrorView>,
    status_code_ptr: u32,
    res_handle_ptr: u32,
)
    requires
        outcome_code(reply_outcome(state, reply)) != 0,
    ensures
        reply_kept(state, reply) == state,
        reply is Err ==> reply_written(state, memory, reply, status_code_ptr, res_handle_ptr)
            == memory,
{
}

/// With a limit on open responses, a request that is sent and answered leaves
/// no more responses open than the limit.
pub proof fn law_limit_is_kept(
    state: StateView,
    memory: Seq<u8>,
    allowed_hosts: Option<Seq<String>>,
    max: u32,
    url_ptr: u32,
    url_len: u32,
    method_ptr: u32,
    method_len: u32,
    req_headers_ptr: u32,
    req_headers_len: u32,
    req_body_ptr: u32,
    req_body_len: u32,
    reply: Result<ReplyView, HttpErrorView>,
)
    requires
        state.responses.dom().finite(),
        req_plan(
            state,
            memory,
            allowed_hosts,
            Some(max),
            url_ptr,
            url_len,
            method_ptr,
            method_len,
            req_headers_ptr,
            req_headers_len,
            req_body_ptr,
            req_body_len,
        ) is Send,
    ensures
        reply_kept(state, reply).responses.len() <= max,
{
    law_handles_are_fresh(state);
}

/// Nothing is sent without a list of allowed hosts, nor to a URL whose host is
/// not that of a URL on the list, nor if as many responses are open as may be.
pub proof fn law_only_allowed_is_sent(
    state: StateView,
    memory: Seq<u8>,
    allowed_hosts: Option<Seq<String>>,
    max_concurrent_requests: Option<u32>,
    url_ptr: u32,
    url_len: u32,
    method_ptr: u32,
    method_len: u32,
    req_headers_ptr: u32,
    req_headers_len: u32,
    req_body_ptr: u32,
    req_body_len: u32,
    request: RequestView,
)
    requires
        req_plan(
            state,
            memory,
            allowed_hosts,
            max_concurrent_requests,
            url_ptr,
            url_len,
            method_ptr,
            method_len,
            req_headers_ptr,
            req_headers_len,
            req_body_ptr,
            req_body_len,
        ) == Plan::Send(request),
    ensures
        max_concurrent_requests matches Some(max) ==> state.responses.len() < max,
        is_method(request.method),
        allowed_hosts matches Some(urls) && exists|i: int|
            0 <= i < urls.len() && url_host((#[trigger] urls[i])@) == url_host(request.url),
{
    match allowed_hosts {
        Some(urls) => {
            law_allowed_by_host(request.url, urls);
        },
        None => {
            law_no_list_allows_nothing(request.url);
        },
    }
}

/// A request to a URL that is not allowed is refused with the guest's own text
/// of the URL, whatever its other parts are, and whatever the limit, as long as
/// that is not reached.
pub proof fn law_denied_url_is_named(
    state: StateView,
    memory: Seq<u8>,
    allowed_hosts: Option<Seq<String>>,
    max_concurrent_requests: Option<u32>,
    url_ptr: u32,
    url_len: u32,
    method_ptr: u32,
    method_len: u32,
    req_headers_ptr: u32,
    req_headers_len: u32,
    req_body_ptr: u32,
    req_body_len: u32,
    url: Seq<char>,
)
    requires
        !sessions_full(state, max_concurrent_requests),
        read_string(memory, url_ptr, url_len) == Ok::<Seq<char>, HttpErrorView>(url),
        answers(url_host(url), url_hosts(allowed_hosts)),
        permission(url_host(url), url_hosts(allowed_hosts)) == Ok::<bool, HttpErrorView>(false),
    ensures
        req_plan(
            state,
            memory,
            allowed_hosts,
            max_concurrent_requests,
            url_ptr,
            url_len,
            method_ptr,
            method_len,
            req_headers_ptr,
            req_headers_len,
            req_body_ptr,
            req_body_len,
        ) == Plan::Refused(HttpErrorView::DestinationNotAllowed(url)),
{
}

/// Without a list of allowed hosts, and so without an open response, a request
/// to any URL with a host is refused as one that is not allowed, under every
/// limit.
pub proof fn law_no_list_denies_every_url(
    state: StateView,
    memory: Seq<u8>,
    max_concurrent_requests: Option<u32>,
    url_ptr: u32,
    url_len: u32,
    method_ptr: u32,
    method_len: u32,
    req_headers_ptr: u32,
    req_headers_len: u32,
    req_body_ptr: u32,
    req_body_len: u32,
    url: Seq<char>,
)
    requires
        state.responses.len() == 0,
        read_string(memory, url_ptr, url_len) == Ok::<Seq<char>, HttpErrorView>(url),
        url_host(url) matches Some(Some(_)),
    ensures
        req_plan(
            state,
            memory,
            None,
            max_concurrent_requests,
            url_ptr,
            url_len,
            method_ptr,
            method_len,
            req_headers_ptr,
            req_headers_len,
            req_body_ptr,
            req_body_len,
        ) == Plan::Refused(HttpErrorView::DestinationNotAllowed(url)),
{
}

/// What is wrong with the URL is answered before any look at the method, the
/// headers or the body: that it lies outside of the memory, that it is not
/// UTF-8, that it cannot be parsed, or that it has no host.
pub proof fn law_url_errors_come_first(
    state: StateView,
    memory: Seq<u8>,
    allowed_hosts: Option<Seq<String>>,
    max_concurrent_requests: Option<u32>,
    url_ptr: u32,
    url_len: u32,
    method_ptr: u32,
    method_len: u32,
    req_headers_ptr: u32,
    req_headers_len: u32,
    req_body_ptr: u32,
    req_body_len: u32,
)
    requires
        !sessions_full(state, max_concurrent_requests),
    ensures
        match read_string(memory, url_ptr, url_len) {
            Err(error) => req_plan(
                state,
                memory,
                allowed_hosts,
                max_concurrent_requests,
                url_ptr,
                url_len,
                method_ptr,
                method_len,
                req_headers_ptr,
                req_headers_len,
                req_body_ptr,
                req_body_len,
            ) == Plan::Refused(error),
            Ok(url) => !(url_host(url) matches Some(Some(_))) ==> req_plan(
                state,
                memory,
                allowed_hosts,
                max_concurrent_requests,
                url_ptr,
                url_len,
                method_ptr,
                method_len,
                req_headers_ptr,
                req_headers_len,
                req_body_ptr,
                req_body_len,
            ) == Plan::Refused(HttpErrorView::InvalidUrl),
        },
{
}

/// A limit of 0 lets nothing be sent, and changes no other answer.
pub proof fn law_limit_of_zero(
    state: StateView,
    memory: Seq<u8>,
    allowed_hosts: Option<Seq<String>>,
    url_ptr: u32,
    url_len: u32,
    method_ptr: u32,
    method_len: u32,
    req_headers_ptr: u32,
    req_headers_len: u32,
    req_body_ptr: u32,
    req_body_len: u32,
)
    ensures
        ({
            let without = req_plan(
                    state,
                    memory,
                    allowed_hosts,
                    None,
                    url_ptr,
                    url_len,
                    method_ptr,
                    method_len,
                    req_headers_ptr,
                    req_headers_len,
                    req_body_ptr,
                    req_body_len,
                );
            let with = req_plan(
                    state,
                    memory,
                    allowed_hosts,
                    Some(0),
                    url_ptr,
                    url_len,
                    method_ptr,
                    method_len,
                    req_headers_ptr,
                    req_headers_len,
                    req_body_ptr,
                    req_body_len,
                );
            with == (if without is Send {
                Plan::Refused(HttpErrorView::TooManySessions)
            } else {
                without
            })
        }),
{
}

/// A method is made of ASCII letters, digits, and ten marks, and is not empty.
pub proof fn law_method_characters(text: Seq<char>)
    ensures
        is_method(text) <==> encode_utf8(text).len() > 0 && forall|i: int|
            0 <= i < encode_utf8(text).len() ==> {
                let b = #[trigger] encode_utf8(text)[i];
                65 <= b <= 90 || 97 <= b <= 122 || 48 <= b <= 57 || b == 33 || b == 42 || b == 43
                    || b == 45 || b == 46 || b == 94 || b == 95 || b == 96 || b == 124 || b == 126
            },
{
    let bytes = encode_utf8(text);
    assert forall|i: int| 0 <= i < bytes.len() implies (is_method_byte(#[trigger] bytes[i]) <==> {
        let b = bytes[i];
        65 <= b <= 90 || 97 <= b <= 122 || 48 <= b <= 57 || b == 33 || b == 42 || b == 43 || b == 45
            || b == 46 || b == 94 || b == 95 || b == 96 || b == 124 || b == 126
    }) by {}
}

/// What is sent for an allowed URL is what the guest wrote: every byte of the
/// body at its place, the method at its place, and the headers that the text at
/// its place decodes to. The URL is the one that was asked about.
pub proof fn law_parts_are_sent_whole(
    url: Seq<char>,
    allowed: Result<bool, HttpErrorView>,
    memory: Seq<u8>,
    method_ptr: u32,
    method_len: u32,
    req_headers_ptr: u32,
    req_headers_len: u32,
    req_body_ptr: u32,
    req_body_len: u32,
    request: RequestView,
)
    requires
        answered_plan(
            url,
            allowed,
            memory,
            method_ptr,
            method_len,
            req_headers_ptr,
            req_headers_len,
            req_body_ptr,
            req_body_len,
        ) == Plan::Send(request),
    ensures
        allowed == Ok::<bool, HttpErrorView>(true),
        request.url == url,
        req_body_ptr + req_body_len <= memory.len(),
        request.body == memory.subrange(req_body_ptr as int, req_body_ptr + req_body_len),
        method_ptr + method_len <= memory.len(),
        encode_utf8(request.method) == memory.subrange(
            method_ptr as int,
            method_ptr + method_len,
        ),
        is_method(request.method),
        req_headers_ptr + req_headers_len <= memory.len(),
        decode_headers(
            memory.subrange(req_headers_ptr as int, req_headers_ptr + req_headers_len),
        ) == Decoded::Value(request.headers),
{
    lemma_read_string(memory, method_ptr, method_len);
    lemma_read_string(memory, req_headers_ptr, req_headers_len);
    law_read_is_exact(memory, req_body_ptr, req_body_len);
    let body = read_bytes(memory, req_body_ptr, req_body_len)->Ok_0;
    assert(body == memory.subrange(req_body_ptr as int, req_body_ptr + req_body_len));
}

proof fn lemma_read_string(memory: Seq<u8>, offset: u32, len: u32)
    ensures
        read_string(memory, offset, len) matches Ok(text) ==> offset + len <= memory.len()
            && encode_utf8(text) == memory.subrange(offset as int, offset + len),
{
    if let Ok(text) = read_string(memory, offset, len) {
        law_string_is_what_its_bytes_say(memory, offset, len, text);
        law_read_is_exact(memory, offset, len);
        assert(encode_utf8(text) == memory.subrange(offset as int, offset + len));
    }
}

/// A request that is sent is the guest's own: its URL, its method and its body
/// are, byte for byte, what lies at their places in the memory, and its headers
/// are those that the text at its place decodes to.
pub proof fn law_request_is_sent_whole(
    state: StateView,
    memory: Seq<u8>,
    allowed_hosts: Option<Seq<String>>,
    max_concurrent_requests: Option<u32>,
    url_ptr: u32,
    url_len: u32,
    method_ptr: u32,
    method_len: u32,
    req_headers_ptr: u32,
    req_headers_len: u32,
    req_body_ptr: u32,
    req_body_len: u32,
    request: RequestView,
)
    requires
        req_plan(
            state,
            memory,
            allowed_hosts,
            max_concurrent_requests,
            url_ptr,
            url_len,
            method_ptr,
            method_len,
            req_headers_ptr,
            req_headers_len,
            req_body_ptr,
            req_body_len,
        ) == Plan::Send(request),
    ensures
        url_ptr + url_len <= memory.len(),
        encode_utf8(request.url) == memory.subrange(url_ptr as int, url_ptr + url_len),
        req_body_ptr + req_body_len <= memory.len(),
        request.body == memory.subrange(req_body_ptr as int, req_body_ptr + req_body_len),
        method_ptr + method_len <= memory.len(),
        encode_utf8(request.method) == memory.subrange(
            method_ptr as int,
            method_ptr + method_len,
        ),
        req_headers_ptr + req_headers_len <= memory.len(),
        decode_headers(
            memory.subrange(req_headers_ptr as int, req_headers_ptr + req_headers_len),
        ) == Decoded::Value(request.headers),
{
    lemma_read_string(memory, url_ptr, url_len);
    let url = read_string(memory, url_ptr, url_len)->Ok_0;
    law_parts_are_sent_whole(
        url,
        permission(url_host(url), url_hosts(allowed_hosts)),
        memory,
        method_ptr,
        method_len,
        req_headers_ptr,
        req_headers_len,
        req_body_ptr,
        req_body_len,
        request,
    );
}

/// A request to an allowed URL is sent if its parts are in order: each lies
/// within the memory, the method is one, and the headers can be decoded.
pub proof fn law_proper_request_is_sent(
    url: Seq<char>,
    memory: Seq<u8>,
    method_ptr: u32,
    method_len: u32,
    req_headers_ptr: u32,
    req_headers_len: u32,
    req_body_ptr: u32,
    req_body_len: u32,
    method: Seq<char>,
    text: Seq<char>,
    headers: Seq<(Seq<u8>, Seq<u8>)>,
)
    requires
        method_ptr + method_len <= memory.len(),
        method_ptr + method_len <= 0xffff_ffff,
        memory.subrange(method_ptr as int, method_ptr + method_len) == encode_utf8(method),
        is_method(method),
        req_body_ptr + req_body_len <= memory.len(),
        req_body_ptr + req_body_len <= 0xffff_ffff,
        req_headers_ptr + req_headers_len <= memory.len(),
        req_headers_ptr + req_headers_len <= 0xffff_ffff,
        memory.subrange(req_headers_ptr as int, req_headers_ptr + req_headers_len) == encode_utf8(
            text,
        ),
        decode_headers(encode_utf8(text)) == Decoded::Value(headers),
    ensures
        answered_plan(
            url,
            Ok(true),
            memory,
            method_ptr,
            method_len,
            req_headers_ptr,
            req_headers_len,
            req_body_ptr,
            req_body_len,
        ) == Plan::Send(
            RequestView {
                url,
                method,
                headers,
                body: memory.subrange(req_body_ptr as int, req_body_ptr + req_body_len),
            },
        ),
{
    law_read_is_exact(memory, method_ptr, method_len);
    law_read_is_exact(memory, req_headers_ptr, req_headers_len);
    law_read_is_exact(memory, req_body_ptr, req_body_len);
    let name = read_bytes(memory, method_ptr, method_len)->Ok_0;
    let written_headers = read_bytes(memory, req_headers_ptr, req_headers_len)->Ok_0;
    let body = read_bytes(memory, req_body_ptr, req_body_len)->Ok_0;
    assert(name == memory.subrange(method_ptr as int, method_ptr + method_len));
    assert(written_headers == memory.subrange(
        req_headers_ptr as int,
        req_headers_ptr + req_headers_len,
    ));
    assert(body == memory.subrange(req_body_ptr as int, req_body_ptr + req_body_len));
    law_string_is_what_its_bytes_say(memory, method_ptr, method_len, method);
    law_string_is_what_its_bytes_say(memory, req_headers_ptr, req_headers_len, text);
}

/// The first thing that is wrong with a request is what it is refused for: the
/// answer on the URL, then the method, then the place of the body, then the
/// text of the headers.
pub proof fn law_first_fault_is_named(
    url: Seq<char>,
    allowed: Result<bool, HttpErrorView>,
    memory: Seq<u8>,
    method_ptr: u32,
    method_len: u32,
    req_headers_ptr: u32,
    req_headers_len: u32,
    req_body_ptr: u32,
    req_body_len: u32,
)
    ensures
        ({
            let plan = answered_plan(
                url,
                allowed,
                memory,
                method_ptr,
                method_len,
                req_headers_ptr,
                req_headers_len,
                req_body_ptr,
                req_body_len,
            );
            let method = read_string(memory, method_ptr, method_len);
            let body = read_bytes(memory, req_body_ptr, req_body_len);
            let headers = read_string(memory, req_headers_ptr, req_headers_len);
            let yes = allowed == Ok::<bool, HttpErrorView>(true);
            let method_fits = method matches Ok(text) && is_method(text);
            &&& allowed matches Err(error) ==> plan == Plan::Refused(error)
            &&& allowed == Ok::<bool, HttpErrorView>(false) ==> plan == Plan::Refused(
                HttpErrorView::DestinationNotAllowed(url),
            )
            &&& yes && method is Err ==> plan == Plan::Refused(method->Err_0)
            &&& yes && method is Ok && !method_fits ==> plan == Plan::Refused(
                HttpErrorView::InvalidMethod,
            )
            &&& yes && method_fits && body is Err ==> plan == Plan::Refused(
                HttpErrorView::BufferTooSmall,
            )
            &&& yes && method_fits && body is Ok && headers is Err ==> plan == Plan::Refused(
                headers->Err_0,
            )
            &&& yes && method_fits && body is Ok && headers is Ok ==> {
                let decoded = decode_headers(encode_utf8(headers->Ok_0));
                &&& decoded is NoColon ==> plan is Undefined
                &&& decoded is Refused ==> plan == Plan::Refused(HttpErrorView::InvalidEncoding)
                &&& decoded is Value ==> plan is Send
            }
        }),
{
    law_read_is_exact(memory, req_body_ptr, req_body_len);
}

/// Past the limit, what becomes of a request is decided by its URL and then by
/// its other parts; without a limit that is all there is.
pub proof fn law_url_decides_before_parts(
    state: StateView,
    memory: Seq<u8>,
    allowed_hosts: Option<Seq<String>>,
    max_concurrent_requests: Option<u32>,
    url_ptr: u32,
    url_len: u32,
    method_ptr: u32,
    method_len: u32,
    req_headers_ptr: u32,
    req_headers_len: u32,
    req_body_ptr: u32,
    req_body_len: u32,
)
    requires
        max_concurrent_requests matches Some(max) ==> state.responses.len() < max,
    ensures
        ({
            let plan = req_plan(
                state,
                memory,
                allowed_hosts,
                max_concurrent_requests,
                url_ptr,
                url_len,
                method_ptr,
                method_len,
                req_headers_ptr,
                req_headers_len,
                req_body_ptr,
                req_body_len,
            );
            &&& read_string(memory, url_ptr, url_len) matches Err(error) ==> plan == Plan::Refused(
                error,
            )
            &&& read_string(memory, url_ptr, url_len) matches Ok(url) ==> {
                &&& !answers(url_host(url), url_hosts(allowed_hosts)) ==> plan is Undefined
                &&& answers(url_host(url), url_hosts(allowed_hosts)) ==> plan == answered_plan(
                    url,
                    permission(url_host(url), url_hosts(allowed_hosts)),
                    memory,
                    method_ptr,
                    method_len,
                    req_headers_ptr,
                    req_headers_len,
                    req_body_ptr,
                    req_body_len,
                )
            }
            &&& plan == unlimited_plan(
                memory,
                allowed_hosts,
                url_ptr,
                url_len,
                method_ptr,
                method_len,
                req_headers_ptr,
                req_headers_len,
                req_body_ptr,
                req_body_len,
            )
        }),
{
}

/// A request is refused for want of room exactly if as many responses are open
/// as the limit allows, or if the limit is 0 and nothing else is wrong.
pub proof fn law_when_there_is_no_room(
    state: StateView,
    memory: Seq<u8>,
    allowed_hosts: Option<Seq<String>>,
    max_concurrent_requests: Option<u32>,
    url_ptr: u32,
    url_len: u32,
    method_ptr: u32,
    method_len: u32,
    req_headers_ptr: u32,
    req_headers_len: u32,
    req_body_ptr: u32,
    req_body_len: u32,
)
    ensures
        req_plan(
            state,
            memory,
            allowed_hosts,
            max_concurrent_requests,
            url_ptr,
            url_len,
            method_ptr,
            method_len,
            req_headers_ptr,
            req_headers_len,
            req_body_ptr,
            req_body_len,
        ) == Plan::Refused(HttpErrorView::TooManySessions) <==> (
        max_concurrent_requests matches Some(max) && state.responses.len() >= max && (max > 0
            || req_plan(
            state,
            memory,
            allowed_hosts,
            None,
            url_ptr,
            url_len,
            method_ptr,
            method_len,
            req_headers_ptr,
            req_headers_len,
            req_body_ptr,
            req_body_len,
        ) is Send)),
        sessions_full(state, max_concurrent_requests) <==> (max_concurrent_requests matches Some(
            max,
        ) && max > 0 && state.responses.len() >= max),
{
    lemma_room_is_no_fault(
        memory,
        allowed_hosts,
        url_ptr,
        url_len,
        method_ptr,
        method_len,
        req_headers_ptr,
        req_headers_len,
        req_body_ptr,
        req_body_len,
    );
}

proof fn lemma_room_is_no_fault(
    memory: Seq<u8>,
    allowed_hosts: Option<Seq<String>>,
    url_ptr: u32,
    url_len: u32,
    method_ptr: u32,
    method_len: u32,
    req_headers_ptr: u32,
    req_headers_len: u32,
    req_body_ptr: u32,
    req_body_len: u32,
)
    ensures
        unlimited_plan(
            memory,
            allowed_hosts,
            url_ptr,
            url_len,
            method_ptr,
            method_len,
            req_headers_ptr,
            req_headers_len,
            req_body_ptr,
            req_body_len,
        ) != Plan::Refused(HttpErrorView::TooManySessions),
{
}

/// A request goes without an answer for the number of its headers only if all
/// else is in order, and the text of its headers has more than 6553 lines.
pub proof fn law_only_many_headers_go_unanswered(
    plan: Plan,
    memory: Seq<u8>,
    req_headers_ptr: u32,
    req_headers_len: u32,
)
    requires
        from_headers(plan),
        headers_overfull(memory, req_headers_ptr, req_headers_len),
    ensures
        plan is Send || plan == Plan::Refused(HttpErrorView::InvalidEncoding),
        req_headers_ptr + req_headers_len <= memory.len(),
        lines(memory.subrange(req_headers_ptr as int, req_headers_ptr + req_headers_len)).len()
            > 6553,
        overfull(memory.subrange(req_headers_ptr as int, req_headers_ptr + req_headers_len)),
{
    lemma_read_string(memory, req_headers_ptr, req_headers_len);
    let text = read_string(memory, req_headers_ptr, req_headers_len)->Ok_0;
    law_too_many_headers_are_many(encode_utf8(text));
}

/// A reply that gets a handle reaches the guest as it is: the two bytes for the
/// status weigh up to the status of the reply, the four bytes for the handle to
/// the handle under which the response is kept, and no other byte changes.
pub proof fn law_reply_reaches_the_guest(
    state: StateView,
    memory: Seq<u8>,
    reply: ReplyView,
    status_code_ptr: u32,
    res_handle_ptr: u32,
    handle: WasiHttpHandle,
    i: int,
)
    requires
        reply_outcome(state, Ok(reply)) == Ok::<WasiHttpHandle, HttpErrorView>(handle),
        status_code_ptr + 2 <= memory.len(),
        res_handle_ptr + 4 <= memory.len(),
        0 <= i < memory.len(),
    ensures
        ({
            let after = reply_written(state, memory, Ok(reply), status_code_ptr, res_handle_ptr);
            let kept = reply_kept(state, Ok(reply));
            &&& after.len() == memory.len()
            &&& after[res_handle_ptr as int] + 256 * after[res_handle_ptr + 1] + 65536
                * after[res_handle_ptr + 2] + 16777216 * after[res_handle_ptr + 3] == handle
            &&& status_code_ptr + 2 <= res_handle_ptr || res_handle_ptr + 4 <= status_code_ptr
                ==> after[status_code_ptr as int] + 256 * after[status_code_ptr + 1]
                == reply.status
            &&& !(status_code_ptr <= i < status_code_ptr + 2) && !(res_handle_ptr <= i
                < res_handle_ptr + 4) ==> after[i] == memory[i]
            &&& i == status_code_ptr && !(res_handle_ptr <= i < res_handle_ptr + 4) ==> after[i]
                == reply.status % 256
            &&& i == status_code_ptr + 1 && !(res_handle_ptr <= i < res_handle_ptr + 4) ==> after[i]
                == reply.status / 256
            &&& kept.responses.contains_key(handle)
            &&& kept.responses[handle].headers == reply.headers
            &&& kept.responses[handle].body == reply.body
            &&& kept.responses[handle].pos == 0
            &&& kept.current_handle == handle
        }),
{
    lemma_status_written(memory, reply.status, status_code_ptr, i);
    lemma_status_written(memory, reply.status, status_code_ptr, status_code_ptr as int);
    lemma_status_written(memory, reply.status, status_code_ptr, status_code_ptr + 1);
    let first = written(memory, status_code_ptr as int, le_u16(reply.status));
    let bytes = le_u32(handle);
    law_bytes_weigh_up(handle, reply.status);
    law_write_is_exact(first, res_handle_ptr as int, bytes, i);
    law_write_is_exact(first, res_handle_ptr as int, bytes, res_handle_ptr as int);
    law_write_is_exact(first, res_handle_ptr as int, bytes, res_handle_ptr + 1);
    law_write_is_exact(first, res_handle_ptr as int, bytes, res_handle_ptr + 2);
    law_write_is_exact(first, res_handle_ptr as int, bytes, res_handle_ptr + 3);
    law_write_is_exact(first, res_handle_ptr as int, bytes, status_code_ptr as int);
    law_write_is_exact(first, res_handle_ptr as int, bytes, status_code_ptr + 1);
}

proof fn lemma_status_written(memory: Seq<u8>, status: u16, ptr: u32, i: int)
    requires
        ptr + 2 <= memory.len(),
        0 <= i < memory.len(),
    ensures
        ({
            let after = written(memory, ptr as int, le_u16(status));
            &&& after.len() == memory.len()
            &&& i == ptr ==> after[i] == status % 256
            &&& i == ptr + 1 ==> after[i] == status / 256
            &&& i < ptr || ptr + 2 <= i ==> after[i] == memory[i]
        }),
{
    law_bytes_weigh_up(0, status);
    law_write_is_exact(memory, ptr as int, le_u16(status), i);
}

/// A reply for which every handle is taken is answered as one too many; the
/// guest still gets its status, and nothing else changes. An error in place of
/// a reply is passed on as it is, and changes nothing.
pub proof fn law_reply_without_handle(
    state: StateView,
    memory: Seq<u8>,
    reply: Result<ReplyView, HttpErrorView>,
    status_code_ptr: u32,
    res_handle_ptr: u32,
    i: int,
)
    requires
        0 <= i < memory.len(),
        reply is Ok ==> status_code_ptr + 2 <= memory.len(),
    ensures
        ({
            let after = reply_written(state, memory, reply, status_code_ptr, res_handle_ptr);
            let outcome = reply_outcome(state, reply);
            let all_taken = forall|handle: WasiHttpHandle| #[trigger]
                state.responses.contains_key(handle);
            &&& reply matches Err(error) ==> outcome == Err::<WasiHttpHandle, HttpErrorView>(error)
                && after == memory && reply_kept(state, reply) == state
            &&& reply matches Ok(view) ==> all_taken ==> {
                &&& outcome == Err::<WasiHttpHandle, HttpErrorView>(HttpErrorView::TooManySessions)
                &&& reply_kept(state, reply) == state
                &&& after.len() == memory.len()
                &&& i == status_code_ptr ==> after[i] == view.status % 256
                &&& i == status_code_ptr + 1 ==> after[i] == view.status / 256
                &&& i < status_code_ptr || status_code_ptr + 2 <= i ==> after[i] == memory[i]
            }
            &&& reply is Ok && !all_taken ==> outcome is Ok
        }),
{
    law_handles_are_fresh(state);
    if let Ok(view) = reply {
        lemma_status_written(memory, view.status, status_code_ptr, i);
    }
}

/// The handle of a new response is the nearest one, counting up from the
/// current handle and on from 0 behind the last, that is not open.
pub proof fn law_nearest_free_handle(
    state: StateView,
    reply: ReplyView,
    handle: WasiHttpHandle,
    nearer: WasiHttpHandle,
)
    requires
        reply_outcome(state, Ok(reply)) == Ok::<WasiHttpHandle, HttpErrorView>(handle),
    ensures
        !state.responses.contains_key(handle),
        ({
            let from = state.current_handle;
            let steps = if handle >= from {
                handle - from
            } else {
                handle - from + 0x1_0000_0000
            };
            let fewer = if nearer >= from {
                nearer - from
            } else {
                nearer - from + 0x1_0000_0000
            };
            fewer < steps ==> state.responses.contains_key(nearer)
        }),
{
    law_handles_are_fresh(state);
    let from = state.current_handle;
    let k = choose|k: int|
        0 <= k < HANDLES && handle == #[trigger] handle_after(from, k) && forall|j: int|
            0 <= j < k ==> state.responses.contains_key(#[trigger] handle_after(from, j) as u32);
    let steps = if handle >= from {
        handle - from
    } else {
        handle - from + 0x1_0000_0000
    };
    let fewer = if nearer >= from {
        nearer - from
    } else {
        nearer - from + 0x1_0000_0000
    };
    assert(steps == k);
    assert(handle_after(from, fewer) == nearer);
}

/// A reply can be taken in exactly if there is a place in the memory for the
/// two bytes of its status and, if it gets a handle, for the four bytes of that.
pub proof fn law_which_replies_are_taken_in(
    state: StateView,
    memory: Seq<u8>,
    reply: Result<ReplyView, HttpErrorView>,
    status_code_ptr: u32,
    res_handle_ptr: u32,
)
    ensures
        reply_ready(state, memory, reply, status_code_ptr, res_handle_ptr) <==> (reply is Ok ==> {
            &&& status_code_ptr + 2 <= memory.len()
            &&& reply_outcome(state, reply) is Ok ==> res_handle_ptr + 4 <= memory.len()
        }),
{
}

/// Contracts see requests and replies as they are, with each part whole.
pub proof fn law_parts_are_seen_whole(request: Request, reply: Reply, error: HttpError)
    ensures
        request@.url == request.url@,
        request@.method == request.method@,
        request@.headers == header_entries(request.headers),
        request@.body == request.body@,
        reply@.status == reply.status,
        reply@.headers == header_entries(reply.headers),
        reply@.body == byte_contents(reply.body),
        reply_view(Ok(reply)) == Ok::<ReplyView, HttpErrorView>(reply@),
        reply_view(Err(error)) == Err::<ReplyView, HttpErrorView>(error@),
{
}

} // verus!
