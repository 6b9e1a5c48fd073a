//! The responses that an instance has open, under their handles.

use vstd::prelude::*;

use bytes::Bytes;
use http::header::HeaderValue;
use http::HeaderMap;
use std::collections::HashMap;

use crate::error::WasiHttpHandle;
use crate::headers::header_entries;

verus! {

/// A run of bytes, shared with the transport that received it.
#[verifier::external_type_specification]
#[verifier::external_body]
pub struct ExBytes(Bytes);

/// The bytes that a run holds.
pub uninterp spec fn byte_contents(bytes: Bytes) -> Seq<u8>;

/// Calls `Bytes::as_ref`, which gives the bytes as a slice.
#[verifier::external_body]
pub(crate) fn byte_slice(bytes: &Bytes) -> (slice: &[u8])
    ensures
        slice@ == byte_contents(*bytes),
{
    bytes.as_ref()
}

/// Response body for HTTP requests, consumed by guest modules.
pub struct Body {
    /// The whole body.
    pub bytes: Bytes,
    /// How much of it the guest has read.
    pub pos: usize,
}

/// An HTTP response that is kept across host calls.
pub struct Response {
    /// The response's headers.
    pub headers: HeaderMap<HeaderValue>,
    /// The response's body.
    pub body: Body,
}

/// Host state for the responses of an instance.
pub struct State {
    /// The open responses.
    pub responses: HashMap<WasiHttpHandle, Response>,
    /// The handle from which the search for a free one starts.
    pub current_handle: WasiHttpHandle,
}

/// A [`Response`] as contracts speak of it.
#[verifier::ext_equal]
pub struct ResponseView {
    pub headers: Seq<(Seq<u8>, Seq<u8>)>,
    pub body: Seq<u8>,
    pub pos: int,
}

/// A [`State`] as contracts speak of it.
#[verifier::ext_equal]
pub struct StateView {
    pub responses: Map<WasiHttpHandle, ResponseView>,
    pub current_handle: WasiHttpHandle,
}

impl View for Response {
    type V = ResponseView;

    open spec fn view(&self) -> ResponseView {
        ResponseView {
            headers: header_entries(self.headers),
            body: byte_contents(self.body.bytes),
            pos: self.body.pos as int,
        }
    }
}

impl View for State {
    type V = StateView;

    open spec fn view(&self) -> StateView {
        StateView {
            responses: self.responses@.map_values(|response: Response| response@),
            current_handle: self.current_handle,
        }
    }
}

impl StateView {
    /// Every read position lies within its body.
    pub open spec fn well_formed(self) -> bool {
        forall|handle: WasiHttpHandle| #[trigger]
            self.responses.contains_key(handle) ==> 0 <= self.responses[handle].pos
                <= self.responses[handle].body.len()
    }
}

impl Default for State {
    fn default() -> (state: State)
        ensures
            state@.responses == Map::<WasiHttpHandle, ResponseView>::empty(),
            state@.current_handle == 0,
            state@.well_formed(),
    {
        let state = State { responses: HashMap::new(), current_handle: 0 };
        assert(state@.responses == Map::<WasiHttpHandle, ResponseView>::empty());
        state
    }
}

/// Contracts see the open responses as they are: each under its handle, with
/// all of its headers, its whole body and its read position.
pub proof fn law_responses_are_seen_whole(state: State, handle: WasiHttpHandle)
    ensures
        state@.current_handle == state.current_handle,
        state@.responses.contains_key(handle) <==> state.responses@.contains_key(handle),
        state.responses@.contains_key(handle) ==> {
            let response = state.responses@[handle];
            &&& state@.responses[handle].headers == header_entries(response.headers)
            &&& state@.responses[handle].body == byte_contents(response.body.bytes)
            &&& state@.responses[handle].pos == response.body.pos
        },
{
}

} // verus!
