//! The calls that a guest makes to its host about open responses.

use vstd::prelude::*;
use vstd::utf8::*;

use crate::error::{binding_code, outcome_code};
use crate::error::{HttpError, HttpErrorView, WasiHttpHandle};
use crate::headers::{encode_headers, get_header, header_key, header_map_to_string, lookup};
use crate::headers::{collapsed, decode_headers, distinct_names, stored_names, Decoded};
use crate::headers::{law_decoding_undoes_encoding, law_lookup_gives_the_first};
use crate::memory::{can_write, le_u32, le_value, read_bytes, write_bytes, write_u32};
use crate::memory::{law_disjoint_write_is_not_read, law_little_endian, law_read_gives_back_write};
use crate::memory::{law_bytes_weigh_up, law_write_is_exact, writable, written};
use crate::state::{byte_slice, ResponseView, State, StateView};
use crate::text::bytes_to_str;

verus! {

broadcast use vstd::std_specs::hash::group_hash_axioms;

/// The host calls.
pub struct HostCalls;

/// The state after a response was closed.
pub open spec fn closed(state: StateView, handle: WasiHttpHandle) -> StateView {
    StateView { responses: state.responses.remove(handle), ..state }
}

/// How many bytes a read of up to `buf_len` bytes takes from a response.
pub open spec fn read_len(response: ResponseView, buf_len: int) -> int {
    if buf_len <= response.body.len() - response.pos {
        buf_len
    } else {
        response.body.len() - response.pos
    }
}

/// The bytes that a read of up to `buf_len` bytes takes from a response.
pub open spec fn read_chunk(response: ResponseView, buf_len: int) -> Seq<u8> {
    response.body.subrange(response.pos, response.pos + read_len(response, buf_len))
}

/// A response after a read of up to `buf_len` bytes.
pub open spec fn read_past(response: ResponseView, buf_len: int) -> ResponseView {
    ResponseView { pos: response.pos + read_len(response, buf_len), ..response }
}

/// The state after a read of up to `buf_len` bytes from a response.
pub open spec fn consumed(state: StateView, handle: WasiHttpHandle, buf_len: u32) -> StateView {
    StateView {
        responses: state.responses.insert(
            handle,
            read_past(state.responses[handle], buf_len as int),
        ),
        ..state
    }
}

/// Whether a read of a body can be served: its handle is open, the read
/// position lies within the body, and what is written within the memory.
pub open spec fn body_read_ready(
    state: StateView,
    memory: Seq<u8>,
    handle: WasiHttpHandle,
    buf_ptr: u32,
    buf_len: u32,
    buf_read_ptr: u32,
) -> bool {
    &&& state.responses.contains_key(handle)
    &&& 0 <= state.responses[handle].pos <= state.responses[handle].body.len()
    &&& writable(memory, buf_ptr as int, read_len(state.responses[handle], buf_len as int))
    &&& writable(memory, buf_read_ptr as int, 4)
}

/// What the host finds for a header that a guest asks for: the header's value,
/// if it fits into `value_len` bytes.
pub open spec fn header_found(
    state: StateView,
    memory: Seq<u8>,
    handle: WasiHttpHandle,
    name_ptr: u32,
    name_len: u32,
    value_len: u32,
) -> Result<Seq<u8>, HttpErrorView> {
    let name = memory.subrange(name_ptr as int, name_ptr + name_len);
    if !state.responses.contains_key(handle) {
        Err(HttpErrorView::InvalidHandle(handle))
    } else if !valid_utf8(name) {
        Err(HttpErrorView::FromUtf8Error)
    } else {
        match lookup(state.responses[handle].headers, header_key(name)) {
            Some(value) => if value.len() > value_len {
                Err(HttpErrorView::BufferTooSmall)
            } else {
                Ok(value)
            },
            None => Err(HttpErrorView::HeaderNotFound),
        }
    }
}

/// Whether a header can be looked up: the name lies within the memory, where
/// the handle is open.
pub open spec fn header_name_ready(
    state: StateView,
    memory: Seq<u8>,
    handle: WasiHttpHandle,
    name_ptr: u32,
    name_len: u32,
) -> bool {
    state.responses.contains_key(handle) ==> name_ptr + name_len <= memory.len()
}

/// Whether a header can be served: its name lies within the memory, and so does
/// what is written.
pub open spec fn header_get_ready(
    state: StateView,
    memory: Seq<u8>,
    handle: WasiHttpHandle,
    name_ptr: u32,
    name_len: u32,
    value_ptr: u32,
    value_len: u32,
    value_written_ptr: u32,
) -> bool {
    &&& header_name_ready(state, memory, handle, name_ptr, name_len)
    &&& match header_found(state, memory, handle, name_ptr, name_len, value_len) {
        Ok(value) => {
            &&& writable(memory, value_ptr as int, value.len() as int)
            &&& writable(memory, value_written_ptr as int, 4)
        },
        Err(_) => true,
    }
}

/// What the host finds for all headers of a response: their text, if it fits
/// into `buf_len` bytes.
pub open spec fn headers_found(state: StateView, handle: WasiHttpHandle, buf_len: u32) -> Result<
    Seq<u8>,
    HttpErrorView,
> {
    if !state.responses.contains_key(handle) {
        Err(HttpErrorView::InvalidHandle(handle))
    } else {
        match encode_headers(state.responses[handle].headers) {
            Ok(text) => if text.len() > buf_len {
                Err(HttpErrorView::BufferTooSmall)
            } else {
                Ok(text)
            },
            Err(_) => Err(HttpErrorView::RuntimeError),
        }
    }
}

/// Whether all headers can be served: what is written lies within the memory.
pub open spec fn headers_get_all_ready(
    state: StateView,
    memory: Seq<u8>,
    handle: WasiHttpHandle,
    buf_ptr: u32,
    buf_len: u32,
    buf_written_ptr: u32,
) -> bool {
    match headers_found(state, handle, buf_len) {
        Ok(text) => {
            &&& writable(memory, buf_ptr as int, text.len() as int)
            &&& writable(memory, buf_written_ptr as int, 4)
        },
        Err(_) => true,
    }
}

/// Whether the text of all headers of a response, if there is one, decodes to
/// the headers. Where a name has several values, the last of them takes the
/// place of the first.
pub open spec fn headers_come_back(state: StateView, handle: WasiHttpHandle, buf_len: u32) -> bool {
    headers_found(state, handle, buf_len) matches Ok(text) ==> decode_headers(text)
        == Decoded::Value(collapsed(state.responses[handle].headers))
}

/// The memory after a host call delivered what it found: the bytes at `ptr` and
/// then their number at `len_ptr`. Nothing is written for an error.
pub open spec fn delivered(
    memory: Seq<u8>,
    found: Result<Seq<u8>, HttpErrorView>,
    ptr: u32,
    len_ptr: u32,
) -> Seq<u8> {
    match found {
        Ok(bytes) => written(
            written(memory, ptr as int, bytes),
            len_ptr as int,
            le_u32(bytes.len() as u32),
        ),
        Err(_) => memory,
    }
}

impl HostCalls {
    /// Closes a response. Closing a handle that is not open changes nothing.
    pub fn close(state: &mut State, handle: WasiHttpHandle) -> (r: Result<(), HttpError>)
        ensures
            r == Ok::<(), HttpError>(()),
            final(state)@ == closed(old(state)@, handle),
            old(state)@.well_formed() ==> final(state)@.well_formed(),
    {
        state.responses.remove(&handle);
        assert(state@.responses == old(state)@.responses.remove(handle));
        Ok(())
    }

    /// [`HostCalls::close`] with its outcome as a code.
    pub fn close_binding(state: &mut State, handle: WasiHttpHandle) -> (code: u32)
        ensures
            code == 0,
            final(state)@ == closed(old(state)@, handle),
            old(state)@.well_formed() ==> final(state)@.well_formed(),
    {
        binding_code(Self::close(state, handle))
    }

    /// Reads up to `buf_len` bytes from the response of `handle`, writes them
    /// to `buf_ptr`, and writes their number to `buf_read_ptr`.
    pub fn body_read(
        state: &mut State,
        memory: &mut [u8],
        handle: WasiHttpHandle,
        buf_ptr: u32,
        buf_len: u32,
        buf_read_ptr: u32,
    ) -> (r: Result<(), HttpError>)
        requires
            body_read_ready(old(state)@, old(memory)@, handle, buf_ptr, buf_len, buf_read_ptr),
        ensures
            r == Ok::<(), HttpError>(()),
            final(state)@ == consumed(old(state)@, handle, buf_len),
            final(memory)@ == delivered(
                old(memory)@,
                Ok(read_chunk(old(state)@.responses[handle], buf_len as int)),
                buf_ptr,
                buf_read_ptr,
            ),
            old(state)@.well_formed() ==> final(state)@.well_formed(),
    {
        assert(state@.responses.contains_key(handle));
        let mut response = match state.responses.remove(&handle) {
            Some(response) => response,
            None => vstd::pervasive::unreached(),
        };
        let bytes = byte_slice(&response.body.bytes);
        let pos: usize = response.body.pos;
        let remaining: usize = bytes.len() - pos;
        // At most either the rest of the body, or the length that the guest asked for.
        let available: usize = if buf_len as usize <= remaining {
            buf_len as usize
        } else {
            remaining
        };
        let chunk = vstd::slice::slice_subrange(bytes, pos, pos + available);
        write_bytes(memory, buf_ptr, chunk);
        write_u32(memory, buf_read_ptr, available as u32);
        response.body.pos = pos + available;
        state.responses.insert(handle, response);
        assert(state@.responses == old(state)@.responses.insert(
            handle,
            read_past(old(state)@.responses[handle], buf_len as int),
        ));
        Ok(())
    }

    /// [`HostCalls::body_read`] with its outcome as a code.
    pub fn body_read_binding(
        state: &mut State,
        memory: &mut [u8],
        handle: WasiHttpHandle,
        buf_ptr: u32,
        buf_len: u32,
        buf_read_ptr: u32,
    ) -> (code: u32)
        requires
            body_read_ready(old(state)@, old(memory)@, handle, buf_ptr, buf_len, buf_read_ptr),
        ensures
            code == 0,
            final(state)@ == consumed(old(state)@, handle, buf_len),
            final(memory)@ == delivered(
                old(memory)@,
                Ok(read_chunk(old(state)@.responses[handle], buf_len as int)),
                buf_ptr,
                buf_read_ptr,
            ),
            old(state)@.well_formed() ==> final(state)@.well_formed(),
    {
        binding_code(Self::body_read(state, memory, handle, buf_ptr, buf_len, buf_read_ptr))
    }

    /// [`HostCalls::body_read_binding`] for every argument: without a code, and
    /// without a change, where the read cannot be served.
    pub fn body_read_checked(
        state: &mut State,
        memory: &mut [u8],
        handle: WasiHttpHandle,
        buf_ptr: u32,
        buf_len: u32,
        buf_read_ptr: u32,
    ) -> (code: Option<u32>)
        ensures
            if body_read_ready(old(state)@, old(memory)@, handle, buf_ptr, buf_len, buf_read_ptr) {
                &&& code == Some(0u32)
                &&& final(state)@ == consumed(old(state)@, handle, buf_len)
                &&& final(memory)@ == delivered(
                    old(memory)@,
                    Ok(read_chunk(old(state)@.responses[handle], buf_len as int)),
                    buf_ptr,
                    buf_read_ptr,
                )
            } else {
                &&& code is None
                &&& final(state)@ == old(state)@
                &&& final(memory)@ == old(memory)@
            },
            old(state)@.well_formed() ==> final(state)@.well_formed(),
    {
        let ready: bool = match state.responses.get(&handle) {
            Some(response) => {
                assert(state@.responses.contains_key(handle));
                let len: usize = byte_slice(&response.body.bytes).len();
                if response.body.pos > len {
                    false
                } else {
                    let remaining: usize = len - response.body.pos;
                    let available: usize = if buf_len as usize <= remaining {
                        buf_len as usize
                    } else {
                        remaining
                    };
                    can_write(memory, buf_ptr, available) && can_write(memory, buf_read_ptr, 4)
                }
            },
            None => false,
        };
        if ready {
            Some(Self::body_read_binding(state, memory, handle, buf_ptr, buf_len, buf_read_ptr))
        } else {
            None
        }
    }

    /// Finds the value of a response header, given the place of its name in the
    /// memory.
    fn find_header(
        state: &State,
        memory: &[u8],
        handle: WasiHttpHandle,
        name_ptr: u32,
        name_len: u32,
        value_len: u32,
    ) -> (r: Result<Vec<u8>, HttpError>)
        requires
            header_name_ready(state@, memory@, handle, name_ptr, name_len),
        ensures
            match r {
                Ok(value) => header_found(
                    state@,
                    memory@,
                    handle,
                    name_ptr,
                    name_len,
                    value_len,
                ) == Ok::<Seq<u8>, HttpErrorView>(value@),
                Err(error) => header_found(
                    state@,
                    memory@,
                    handle,
                    name_ptr,
                    name_len,
                    value_len,
                ) == Err::<Seq<u8>, HttpErrorView>(error@),
            },
    {
        // Get the current response headers.
        let headers = match state.responses.get(&handle) {
            Some(response) => &response.headers,
            None => return Err(HttpError::InvalidHandle(handle)),
        };
        assert(state@.responses.contains_key(handle));
        // Read the header key from the guest's memory.
        assert(memory.len() == memory@.len());
        let name = vstd::slice::slice_subrange(
            memory,
            name_ptr as usize,
            name_ptr as usize + name_len as usize,
        );
        let key = match bytes_to_str(name) {
            Ok(key) => key,
            Err(_) => return Err(HttpError::FromUtf8Error),
        };
        proof {
            decode_utf8_encode_utf8(name@);
        }
        // Attempt to get the corresponding value from the response headers.
        match get_header(headers, key) {
            Some(value) => {
                if value.len() > value_len as usize {
                    Err(HttpError::BufferTooSmall)
                } else {
                    Ok(vstd::slice::slice_to_vec(value))
                }
            },
            None => Err(HttpError::HeaderNotFound),
        }
    }

    /// Gets a response header value given a key: writes the value to
    /// `value_ptr` and its length to `value_written_ptr`.
    pub fn header_get(
        state: &State,
        memory: &mut [u8],
        handle: WasiHttpHandle,
        name_ptr: u32,
        name_len: u32,
        value_ptr: u32,
        value_len: u32,
        value_written_ptr: u32,
    ) -> (r: Result<(), HttpError>)
        requires
            header_get_ready(
                state@,
                old(memory)@,
                handle,
                name_ptr,
                name_len,
                value_ptr,
                value_len,
                value_written_ptr,
            ),
        ensures
            match header_found(state@, old(memory)@, handle, name_ptr, name_len, value_len) {
                Ok(_) => r is Ok,
                Err(error) => r matches Err(e) && e@ == error,
            },
            final(memory)@ == delivered(
                old(memory)@,
                header_found(state@, old(memory)@, handle, name_ptr, name_len, value_len),
                value_ptr,
                value_written_ptr,
            ),
    {
        match Self::find_header(state, memory, handle, name_ptr, name_len, value_len) {
            Ok(value) => {
                write_bytes(memory, value_ptr, &value);
                write_u32(memory, value_written_ptr, value.len() as u32);
                Ok(())
            },
            Err(error) => Err(error),
        }
    }

    /// [`HostCalls::header_get`] with its outcome as a code.
    pub fn header_get_binding(
        state: &State,
        memory: &mut [u8],
        handle: WasiHttpHandle,
        name_ptr: u32,
        name_len: u32,
        value_ptr: u32,
        value_len: u32,
        value_written_ptr: u32,
    ) -> (code: u32)
        requires
            header_get_ready(
                state@,
                old(memory)@,
                handle,
                name_ptr,
                name_len,
                value_ptr,
                value_len,
                value_written_ptr,
            ),
        ensures
            code == outcome_code(
                header_found(state@, old(memory)@, handle, name_ptr, name_len, value_len),
            ),
            final(memory)@ == delivered(
                old(memory)@,
                header_found(state@, old(memory)@, handle, name_ptr, name_len, value_len),
                value_ptr,
                value_written_ptr,
            ),
    {
        binding_code(
            Self::header_get(
                state,
                memory,
                handle,
                name_ptr,
                name_len,
                value_ptr,
                value_len,
                value_written_ptr,
            ),
        )
    }

    /// [`HostCalls::header_get_binding`] for every argument: without a code, and
    /// without a change, where the header cannot be served.
    pub fn header_get_checked(
        state: &State,
        memory: &mut [u8],
        handle: WasiHttpHandle,
        name_ptr: u32,
        name_len: u32,
        value_ptr: u32,
        value_len: u32,
        value_written_ptr: u32,
    ) -> (code: Option<u32>)
        ensures
            if header_get_ready(
                state@,
                old(memory)@,
                handle,
                name_ptr,
                name_len,
                value_ptr,
                value_len,
                value_written_ptr,
            ) {
                &&& code == Some(
                    outcome_code(
                        header_found(state@, old(memory)@, handle, name_ptr, name_len, value_len),
                    ),
                )
                &&& final(memory)@ == delivered(
                    old(memory)@,
                    header_found(state@, old(memory)@, handle, name_ptr, name_len, value_len),
                    value_ptr,
                    value_written_ptr,
                )
            } else {
                &&& code is None
                &&& final(memory)@ == old(memory)@
            },
    {
        let size: usize = memory.len();
        if state.responses.contains_key(&handle) && (name_ptr as usize > size || name_len as usize
            > size - name_ptr as usize) {
            assert(state@.responses.contains_key(handle));
            return None;
        }
        let ready: bool = match Self::find_header(
            state,
            memory,
            handle,
            name_ptr,
            name_len,
            value_len,
        ) {
            Ok(value) => can_write(memory, value_ptr, value.len()) && can_write(
                memory,
                value_written_ptr,
                4,
            ),
            Err(_) => true,
        };
        if ready {
            Some(
                Self::header_get_binding(
                    state,
                    memory,
                    handle,
                    name_ptr,
                    name_len,
                    value_ptr,
                    value_len,
                    value_written_ptr,
                ),
            )
        } else {
            None
        }
    }

    /// Finds the text of all headers of a response.
    fn find_headers(state: &State, handle: WasiHttpHandle, buf_len: u32) -> (r: Result<
        String,
        HttpError,
    >)
        ensures
            match r {
                Ok(text) => headers_found(state@, handle, buf_len) == Ok::<Seq<u8>, HttpErrorView>(
                    encode_utf8(text@),
                ),
                Err(error) => headers_found(state@, handle, buf_len) == Err::<
                    Seq<u8>,
                    HttpErrorView,
                >(error@),
            },
            headers_come_back(state@, handle, buf_len),
    {
        let headers = match state.responses.get(&handle) {
            Some(response) => &response.headers,
            None => return Err(HttpError::InvalidHandle(handle)),
        };
        assert(state@.responses.contains_key(handle));
        let headers = match header_map_to_string(headers) {
            Ok(res) => res,
            Err(_) => return Err(HttpError::RuntimeError),
        };
        if headers.as_str().as_bytes().len() > buf_len as usize {
            return Err(HttpError::BufferTooSmall);
        }
        Ok(headers)
    }

    /// Gets all headers of a response, encoded as a string: writes the string
    /// to `buf_ptr` and its length to `buf_written_ptr`.
    pub fn headers_get_all(
        state: &State,
        memory: &mut [u8],
        handle: WasiHttpHandle,
        buf_ptr: u32,
        buf_len: u32,
        buf_written_ptr: u32,
    ) -> (r: Result<(), HttpError>)
        requires
            headers_get_all_ready(
                state@,
                old(memory)@,
                handle,
                buf_ptr,
                buf_len,
                buf_written_ptr,
            ),
        ensures
            match headers_found(state@, handle, buf_len) {
                Ok(_) => r is Ok,
                Err(error) => r matches Err(e) && e@ == error,
            },
            final(memory)@ == delivered(
                old(memory)@,
                headers_found(state@, handle, buf_len),
                buf_ptr,
                buf_written_ptr,
            ),
            headers_come_back(state@, handle, buf_len),
    {
        match Self::find_headers(state, handle, buf_len) {
            Ok(headers) => {
                let bytes = headers.as_str().as_bytes();
                write_bytes(memory, buf_ptr, bytes);
                write_u32(memory, buf_written_ptr, bytes.len() as u32);
                Ok(())
            },
            Err(error) => Err(error),
        }
    }

    /// [`HostCalls::headers_get_all`] with its outcome as a code.
    pub fn headers_get_all_binding(
        state: &State,
        memory: &mut [u8],
        handle: WasiHttpHandle,
        buf_ptr: u32,
        buf_len: u32,
        buf_written_ptr: u32,
    ) -> (code: u32)
        requires
            headers_get_all_ready(
                state@,
                old(memory)@,
                handle,
                buf_ptr,
                buf_len,
                buf_written_ptr,
            ),
        ensures
            code == outcome_code(headers_found(state@, handle, buf_len)),
            final(memory)@ == delivered(
                old(memory)@,
                headers_found(state@, handle, buf_len),
                buf_ptr,
                buf_written_ptr,
            ),
            headers_come_back(state@, handle, buf_len),
    {
        binding_code(
            Self::headers_get_all(state, memory, handle, buf_ptr, buf_len, buf_written_ptr),
        )
    }

    /// [`HostCalls::headers_get_all_binding`] for every argument: without a
    /// code, and without a change, where the headers cannot be served.
    pub fn headers_get_all_checked(
        state: &State,
        memory: &mut [u8],
        handle: WasiHttpHandle,
        buf_ptr: u32,
        buf_len: u32,
        buf_written_ptr: u32,
    ) -> (code: Option<u32>)
        ensures
            if headers_get_all_ready(
                state@,
                old(memory)@,
                handle,
                buf_ptr,
                buf_len,
                buf_written_ptr,
            ) {
                &&& code == Some(outcome_code(headers_found(state@, handle, buf_len)))
                &&& final(memory)@ == delivered(
                    old(memory)@,
                    headers_found(state@, handle, buf_len),
                    buf_ptr,
                    buf_written_ptr,
                )
            } else {
                &&& code is None
                &&& final(memory)@ == old(memory)@
            },
            headers_come_back(state@, handle, buf_len),
    {
        let ready: bool = match Self::find_headers(state, handle, buf_len) {
            Ok(headers) => can_write(memory, buf_ptr, headers.as_str().as_bytes().len())
                && can_write(memory, buf_written_ptr, 4),
            Err(_) => true,
        };
        if ready {
            Some(
                Self::headers_get_all_binding(
                    state,
                    memory,
                    handle,
                    buf_ptr,
                    buf_len,
                    buf_written_ptr,
                ),
            )
        } else {
            None
        }
    }
}

/// Two reads one after the other take what one read of both lengths takes, and
/// leave the response as that one does.
pub proof fn law_reads_join(response: ResponseView, first: int, second: int)
    requires
        0 <= response.pos <= response.body.len(),
        0 <= first,
        0 <= second,
    ensures
        read_chunk(response, first) + read_chunk(read_past(response, first), second) == read_chunk(
            response,
            first + second,
        ),
        read_past(read_past(response, first), second) == read_past(response, first + second),
{
    assert(read_chunk(response, first) + read_chunk(read_past(response, first), second)
        == read_chunk(response, first + second));
}

/// The bytes that reads of the given lengths take, one after the other.
pub open spec fn read_all(response: ResponseView, lens: Seq<u32>) -> Seq<u8>
    decreases lens.len(),
{
    if lens.len() == 0 {
        Seq::empty()
    } else {
        read_chunk(response, lens[0] as int) + read_all(
            read_past(response, lens[0] as int),
            lens.drop_first(),
        )
    }
}

/// The sum of the given lengths.
pub open spec fn total(lens: Seq<u32>) -> int
    decreases lens.len(),
{
    if lens.len() == 0 {
        0
    } else {
        lens[0] + total(lens.drop_first())
    }
}

/// However a guest divides its reads, it gets the body from the start to the
/// end, each byte once and in order. Once the lengths add up to the rest of the
/// body, it has all of it.
pub proof fn law_reads_give_the_body(response: ResponseView, lens: Seq<u32>)
    requires
        0 <= response.pos <= response.body.len(),
    ensures
        read_all(response, lens) == read_chunk(response, total(lens)),
        total(lens) >= response.body.len() - response.pos ==> read_all(response, lens)
            == response.body.skip(response.pos),
    decreases lens.len(),
{
    lemma_total_positive(lens);
    if lens.len() == 0 {
        assert(read_all(response, lens) == read_chunk(response, 0));
    } else {
        lemma_total_positive(lens.drop_first());
        law_reads_give_the_body(read_past(response, lens[0] as int), lens.drop_first());
        law_reads_join(response, lens[0] as int, total(lens.drop_first()));
    }
    if total(lens) >= response.body.len() - response.pos {
        assert(read_chunk(response, total(lens)) == response.body.skip(response.pos));
    }
}

proof fn lemma_total_positive(lens: Seq<u32>)
    ensures
        total(lens) >= 0,
    decreases lens.len(),
{
    if lens.len() > 0 {
        lemma_total_positive(lens.drop_first());
    }
}

/// At the end of a body a read takes nothing.
pub proof fn law_nothing_after_the_end(response: ResponseView, buf_len: u32)
    requires
        response.pos == response.body.len(),
    ensures
        read_len(response, buf_len as int) == 0,
        read_past(response, buf_len as int) == response,
{
}

/// A read of one response leaves all others alone, and no handle is opened or
/// closed by it.
pub proof fn law_read_leaves_others(
    state: StateView,
    handle: WasiHttpHandle,
    buf_len: u32,
    other: WasiHttpHandle,
)
    requires
        state.responses.contains_key(handle),
        other != handle,
    ensures
        consumed(state, handle, buf_len).responses.contains_key(other)
            == state.responses.contains_key(other),
        state.responses.contains_key(other) ==> consumed(state, handle, buf_len).responses[other]
            == state.responses[other],
        consumed(state, handle, buf_len).responses.dom() == state.responses.dom(),
        consumed(state, handle, buf_len).responses[handle].headers
            == state.responses[handle].headers,
{
    assert(consumed(state, handle, buf_len).responses.dom() == state.responses.dom());
}

/// A closed handle is invalid to every later call, until it is given out again:
/// no body can be read, and there is no header to be found.
pub proof fn law_closed_is_invalid(
    state: StateView,
    memory: Seq<u8>,
    handle: WasiHttpHandle,
    name_ptr: u32,
    name_len: u32,
    ptr: u32,
    len: u32,
    count_ptr: u32,
)
    ensures
        !body_read_ready(closed(state, handle), memory, handle, ptr, len, count_ptr),
        header_found(closed(state, handle), memory, handle, name_ptr, name_len, len) == Err::<
            Seq<u8>,
            HttpErrorView,
        >(HttpErrorView::InvalidHandle(handle)),
        headers_found(closed(state, handle), handle, len) == Err::<Seq<u8>, HttpErrorView>(
            HttpErrorView::InvalidHandle(handle),
        ),
{
}

/// Closing a handle again, or one that is not open, changes nothing, and
/// closing touches no other response.
pub proof fn law_close_is_local(
    state: StateView,
    handle: WasiHttpHandle,
    other: WasiHttpHandle,
)
    ensures
        closed(closed(state, handle), handle) == closed(state, handle),
        !state.responses.contains_key(handle) ==> closed(state, handle) == state,
        other != handle ==> closed(state, handle).responses.contains_key(other)
            == state.responses.contains_key(other),
        other != handle && state.responses.contains_key(other) ==> closed(
            state,
            handle,
        ).responses[other] == state.responses[other],
{
    assert(closed(closed(state, handle), handle) =~= closed(state, handle));
    if !state.responses.contains_key(handle) {
        assert(closed(state, handle) =~= state);
    }
}

/// A host call that answers with an error writes nothing to the guest's memory.
pub proof fn law_errors_write_nothing(
    memory: Seq<u8>,
    found: Result<Seq<u8>, HttpErrorView>,
    ptr: u32,
    len_ptr: u32,
)
    requires
        outcome_code(found) != 0,
    ensures
        delivered(memory, found, ptr, len_ptr) == memory,
{
}

/// A guest that gave places that do not overlap reads back what was found, and
/// its length.
pub proof fn law_delivered_is_read_back(memory: Seq<u8>, bytes: Seq<u8>, ptr: u32, len_ptr: u32)
    requires
        ptr + bytes.len() <= u32::MAX,
        len_ptr + 4 <= u32::MAX,
        ptr + bytes.len() <= memory.len(),
        len_ptr + 4 <= memory.len(),
        ptr + bytes.len() <= len_ptr || len_ptr + 4 <= ptr,
    ensures
        read_bytes(delivered(memory, Ok(bytes), ptr, len_ptr), ptr, bytes.len() as u32) == Ok::<
            Seq<u8>,
            HttpErrorView,
        >(bytes),
        read_bytes(delivered(memory, Ok(bytes), ptr, len_ptr), len_ptr, 4) == Ok::<
            Seq<u8>,
            HttpErrorView,
        >(le_u32(bytes.len() as u32)),
        le_value(le_u32(bytes.len() as u32)) == bytes.len(),
{
    let first = written(memory, ptr as int, bytes);
    let count = le_u32(bytes.len() as u32);
    law_read_gives_back_write(memory, ptr, bytes);
    law_disjoint_write_is_not_read(first, len_ptr as int, count, ptr, bytes.len() as u32);
    law_read_gives_back_write(first, len_ptr, count);
    law_little_endian(bytes.len() as u32, 0);
}

/// The headers that a guest receives as a string are those of the response: the
/// string decodes to them, where no name has several values.
pub proof fn law_all_headers_can_be_decoded(
    state: StateView,
    handle: WasiHttpHandle,
    buf_len: u32,
)
    requires
        headers_found(state, handle, buf_len) is Ok,
        stored_names(state.responses[handle].headers),
    ensures
        decode_headers(headers_found(state, handle, buf_len)->Ok_0) == Decoded::Value(
            collapsed(state.responses[handle].headers),
        ),
        distinct_names(state.responses[handle].headers) ==> decode_headers(
            headers_found(state, handle, buf_len)->Ok_0,
        ) == Decoded::Value(state.responses[handle].headers),
{
    law_decoding_undoes_encoding(state.responses[handle].headers);
}

/// A call that delivers bytes puts each of them in its place, then their number
/// in its place, lowest byte first, and changes no other byte of the memory.
pub proof fn law_delivery_is_exact(
    memory: Seq<u8>,
    bytes: Seq<u8>,
    ptr: u32,
    len_ptr: u32,
    i: int,
)
    requires
        bytes.len() <= 0xffff_ffff,
        len_ptr + 4 <= memory.len(),
        0 <= i < memory.len(),
    ensures
        ({
            let after = delivered(memory, Ok(bytes), ptr, len_ptr);
            &&& after.len() == memory.len()
            &&& after[len_ptr as int] + 256 * after[len_ptr + 1] + 65536 * after[len_ptr + 2]
                + 16777216 * after[len_ptr + 3] == bytes.len()
            &&& !(len_ptr <= i < len_ptr + 4) && ptr <= i < ptr + bytes.len() ==> after[i]
                == bytes[i - ptr]
            &&& !(len_ptr <= i < len_ptr + 4) && !(ptr <= i < ptr + bytes.len()) ==> after[i]
                == memory[i]
        }),
{
    let count = le_u32(bytes.len() as u32);
    law_bytes_weigh_up(bytes.len() as u32, 0);
    let first = written(memory, ptr as int, bytes);
    law_write_is_exact(memory, ptr as int, bytes, i);
    law_write_is_exact(first, len_ptr as int, count, i);
    law_write_is_exact(first, len_ptr as int, count, len_ptr as int);
    law_write_is_exact(first, len_ptr as int, count, len_ptr + 1);
    law_write_is_exact(first, len_ptr as int, count, len_ptr + 2);
    law_write_is_exact(first, len_ptr as int, count, len_ptr + 3);
}

/// A read takes as many bytes as it asks for, or all that are left if these are
/// fewer: those that stand at the read position, in order.
pub proof fn law_read_takes_what_is_next(response: ResponseView, buf_len: u32)
    requires
        0 <= response.pos <= response.body.len(),
    ensures
        read_chunk(response, buf_len as int).len() <= buf_len,
        response.pos + read_chunk(response, buf_len as int).len() <= response.body.len(),
        read_chunk(response, buf_len as int).len() == buf_len || response.pos + read_chunk(
            response,
            buf_len as int,
        ).len() == response.body.len(),
        forall|i: int|
            0 <= i < read_chunk(response, buf_len as int).len() ==> #[trigger] read_chunk(
                response,
                buf_len as int,
            )[i] == response.body[response.pos + i],
        read_len(response, buf_len as int) == read_chunk(response, buf_len as int).len(),
{
}

/// A read moves the response forward by exactly the number of bytes that it
/// delivers, and changes nothing else of the state: not its headers, not its
/// body, no other response, and not where the search for a handle starts.
pub proof fn law_read_moves_forward(
    state: StateView,
    handle: WasiHttpHandle,
    buf_len: u32,
    other: WasiHttpHandle,
)
    requires
        state.responses.contains_key(handle),
        0 <= state.responses[handle].pos <= state.responses[handle].body.len(),
    ensures
        ({
            let before = state.responses[handle];
            let after = consumed(state, handle, buf_len);
            &&& after.responses.contains_key(handle)
            &&& after.responses[handle].pos == before.pos + read_chunk(before, buf_len as int).len()
            &&& after.responses[handle].body == before.body
            &&& after.responses[handle].headers == before.headers
            &&& after.responses.contains_key(other) == state.responses.contains_key(other)
            &&& other != handle && state.responses.contains_key(other) ==> after.responses[other]
                == state.responses[other]
            &&& after.current_handle == state.current_handle
        }),
{
    law_read_takes_what_is_next(state.responses[handle], buf_len);
}

/// Two reads one after the other deliver adjoining parts of the body: the second
/// starts with the byte behind the last one of the first.
pub proof fn law_next_read_adjoins(
    state: StateView,
    handle: WasiHttpHandle,
    first: u32,
    second: u32,
)
    requires
        state.responses.contains_key(handle),
        0 <= state.responses[handle].pos <= state.responses[handle].body.len(),
    ensures
        ({
            let response = state.responses[handle];
            let a = read_chunk(response, first as int);
            let between = consumed(state, handle, first);
            let b = read_chunk(between.responses[handle], second as int);
            &&& a + b == response.body.subrange(
                response.pos,
                response.pos + a.len() + b.len(),
            )
            &&& consumed(between, handle, second).responses[handle].pos == response.pos + a.len()
                + b.len()
        }),
{
    let response = state.responses[handle];
    let between = consumed(state, handle, first);
    law_read_moves_forward(state, handle, first, handle);
    law_read_moves_forward(between, handle, second, handle);
    law_read_takes_what_is_next(response, first);
    law_read_takes_what_is_next(between.responses[handle], second);
    let a = read_chunk(response, first as int);
    let b = read_chunk(between.responses[handle], second as int);
    assert(a + b == response.body.subrange(response.pos, response.pos + a.len() + b.len()));
}

/// What reads of the given lengths deliver, one call after the other.
pub open spec fn bytes_of_calls(state: StateView, handle: WasiHttpHandle, lens: Seq<u32>) -> Seq<u8>
    decreases lens.len(),
{
    if lens.len() == 0 {
        Seq::empty()
    } else {
        read_chunk(state.responses[handle], lens[0] as int) + bytes_of_calls(
            consumed(state, handle, lens[0]),
            handle,
            lens.drop_first(),
        )
    }
}

/// Calls one after the other deliver the body from the read position on, without
/// a gap and without a repeat, and all of it once enough was asked for.
pub proof fn law_calls_deliver_the_body(state: StateView, handle: WasiHttpHandle, lens: Seq<u32>)
    requires
        state.responses.contains_key(handle),
        0 <= state.responses[handle].pos <= state.responses[handle].body.len(),
    ensures
        ({
            let response = state.responses[handle];
            let left = response.body.len() - response.pos;
            let asked = lens.fold_right(|len: u32, sum: int| len + sum, 0);
            let got = bytes_of_calls(state, handle, lens);
            &&& got.len() == (if asked < left {
                asked
            } else {
                left
            })
            &&& got == response.body.subrange(response.pos, response.pos + got.len())
        }),
    decreases lens.len(),
{
    let response = state.responses[handle];
    lemma_sum_positive(lens);
    if lens.len() == 0 {
        assert(bytes_of_calls(state, handle, lens) == response.body.subrange(
            response.pos,
            response.pos,
        ));
    } else {
        let rest = lens.drop_first();
        let after = consumed(state, handle, lens[0]);
        law_read_moves_forward(state, handle, lens[0], handle);
        law_read_takes_what_is_next(response, lens[0]);
        law_calls_deliver_the_body(after, handle, rest);
        lemma_sum_first(lens);
        lemma_sum_positive(rest);
        let a = read_chunk(response, lens[0] as int);
        let b = bytes_of_calls(after, handle, rest);
        assert(a + b == response.body.subrange(response.pos, response.pos + (a + b).len()));
    }
}

proof fn lemma_sum_first(lens: Seq<u32>)
    requires
        lens.len() > 0,
    ensures
        lens.fold_right(|len: u32, sum: int| len + sum, 0) == lens[0]
            + lens.drop_first().fold_right(|len: u32, sum: int| len + sum, 0),
{
    let sum = |len: u32, sum: int| len + sum;
    lens.lemma_fold_right_alt(sum, 0);
    lens.drop_first().lemma_fold_right_alt(sum, 0);
    reveal_with_fuel(Seq::fold_right_alt, 2);
    assert(lens.subrange(1, lens.len() as int) == lens.drop_first());
}

proof fn lemma_sum_positive(lens: Seq<u32>)
    ensures
        lens.fold_right(|len: u32, sum: int| len + sum, 0) >= 0,
    decreases lens.len(),
{
    if lens.len() > 0 {
        lemma_sum_first(lens);
        lemma_sum_positive(lens.drop_first());
    } else {
        reveal(Seq::fold_right);
    }
}

/// A read can be served exactly if its handle is open, the position lies within
/// the body, and there is a place in the memory for every byte that is due and
/// for the four bytes of their number.
pub proof fn law_which_reads_are_served(
    state: StateView,
    memory: Seq<u8>,
    handle: WasiHttpHandle,
    buf_ptr: u32,
    buf_len: u32,
    buf_read_ptr: u32,
)
    ensures
        body_read_ready(state, memory, handle, buf_ptr, buf_len, buf_read_ptr) <==> {
            &&& state.responses.contains_key(handle)
            &&& 0 <= state.responses[handle].pos <= state.responses[handle].body.len()
            &&& buf_read_ptr + 4 <= memory.len()
            &&& buf_len == 0 || state.responses[handle].pos == state.responses[handle].body.len()
                || buf_ptr + buf_len <= memory.len() || buf_ptr + (
            state.responses[handle].body.len() - state.responses[handle].pos) <= memory.len()
        },
{
}

/// The guest that asks for a header reads the whole value of the first header
/// of that name, in whatever case it wrote the name, and the value's length.
pub proof fn law_header_is_delivered_whole(
    state: StateView,
    memory: Seq<u8>,
    handle: WasiHttpHandle,
    name_ptr: u32,
    name_len: u32,
    value_ptr: u32,
    value_len: u32,
    value_written_ptr: u32,
    k: int,
    i: int,
)
    requires
        state.responses.contains_key(handle),
        name_ptr + name_len <= memory.len(),
        valid_utf8(memory.subrange(name_ptr as int, name_ptr + name_len)),
        0 <= k < state.responses[handle].headers.len(),
        state.responses[handle].headers[k].0 == header_key(
            memory.subrange(name_ptr as int, name_ptr + name_len),
        ),
        forall|j: int|
            0 <= j < k ==> (#[trigger] state.responses[handle].headers[j]).0 != header_key(
                memory.subrange(name_ptr as int, name_ptr + name_len),
            ),
        state.responses[handle].headers[k].1.len() <= value_len,
        value_written_ptr + 4 <= memory.len(),
        0 <= i < memory.len(),
    ensures
        ({
            let value = state.responses[handle].headers[k].1;
            let found = header_found(state, memory, handle, name_ptr, name_len, value_len);
            let after = delivered(memory, found, value_ptr, value_written_ptr);
            &&& found == Ok::<Seq<u8>, HttpErrorView>(value)
            &&& outcome_code(found) == 0
            &&& after.len() == memory.len()
            &&& after[value_written_ptr as int] + 256 * after[value_written_ptr + 1] + 65536
                * after[value_written_ptr + 2] + 16777216 * after[value_written_ptr + 3]
                == value.len()
            &&& !(value_written_ptr <= i < value_written_ptr + 4) && value_ptr <= i < value_ptr
                + value.len() ==> after[i] == value[i - value_ptr]
            &&& !(value_written_ptr <= i < value_written_ptr + 4) && !(value_ptr <= i < value_ptr
                + value.len()) ==> after[i] == memory[i]
        }),
{
    let headers = state.responses[handle].headers;
    let key = header_key(memory.subrange(name_ptr as int, name_ptr + name_len));
    law_lookup_gives_the_first(headers, key, k);
    law_delivery_is_exact(memory, headers[k].1, value_ptr, value_written_ptr, i);
}

/// A guest that asks for a header and gets none learns why: the handle is not
/// open, the name is not UTF-8, no header has the name, or the value of the
/// first one that has it does not fit.
pub proof fn law_why_no_header(
    state: StateView,
    memory: Seq<u8>,
    handle: WasiHttpHandle,
    name_ptr: u32,
    name_len: u32,
    value_len: u32,
    k: int,
)
    ensures
        ({
            let name = memory.subrange(name_ptr as int, name_ptr + name_len);
            let headers = state.responses[handle].headers;
            let found = header_found(state, memory, handle, name_ptr, name_len, value_len);
            let open = state.responses.contains_key(handle);
            &&& !open ==> found == Err::<Seq<u8>, HttpErrorView>(
                HttpErrorView::InvalidHandle(handle),
            )
            &&& open && !valid_utf8(name) ==> found == Err::<Seq<u8>, HttpErrorView>(
                HttpErrorView::FromUtf8Error,
            )
            &&& open && valid_utf8(name) && (forall|j: int|
                0 <= j < headers.len() ==> (#[trigger] headers[j]).0 != header_key(name)) ==> found
                == Err::<Seq<u8>, HttpErrorView>(HttpErrorView::HeaderNotFound)
            &&& open && valid_utf8(name) && 0 <= k < headers.len() && headers[k].0 == header_key(
                name,
            ) && (forall|j: int| 0 <= j < k ==> (#[trigger] headers[j]).0 != header_key(name))
                && headers[k].1.len() > value_len ==> found == Err::<Seq<u8>, HttpErrorView>(
                HttpErrorView::BufferTooSmall,
            )
        }),
{
    let name = memory.subrange(name_ptr as int, name_ptr + name_len);
    law_lookup_gives_the_first(state.responses[handle].headers, header_key(name), k);
}

/// A header can be served exactly if its name lies within the memory, where the
/// handle is open, and so does every byte that is written for what was found.
pub proof fn law_which_headers_are_served(
    state: StateView,
    memory: Seq<u8>,
    handle: WasiHttpHandle,
    name_ptr: u32,
    name_len: u32,
    value_ptr: u32,
    value_len: u32,
    value_written_ptr: u32,
)
    ensures
        header_name_ready(state, memory, handle, name_ptr, name_len) <==> (
        state.responses.contains_key(handle) ==> name_ptr + name_len <= memory.len()),
        header_get_ready(
            state,
            memory,
            handle,
            name_ptr,
            name_len,
            value_ptr,
            value_len,
            value_written_ptr,
        ) <==> {
            &&& state.responses.contains_key(handle) ==> name_ptr + name_len <= memory.len()
            &&& header_found(state, memory, handle, name_ptr, name_len, value_len) matches Ok(
                value,
            ) ==> value_written_ptr + 4 <= memory.len() && (value.len() == 0 || value_ptr
                + value.len() <= memory.len())
        },
{
}

/// The guest that asks for all headers reads the whole text of them and its
/// length, if it fits; otherwise it learns that the handle is not open, that
/// there is no text, or that the text does not fit.
pub proof fn law_all_headers_are_delivered_whole(
    state: StateView,
    memory: Seq<u8>,
    handle: WasiHttpHandle,
    buf_ptr: u32,
    buf_len: u32,
    buf_written_ptr: u32,
    i: int,
)
    requires
        buf_written_ptr + 4 <= memory.len(),
        0 <= i < memory.len(),
    ensures
        ({
            let found = headers_found(state, handle, buf_len);
            let after = delivered(memory, found, buf_ptr, buf_written_ptr);
            &&& !state.responses.contains_key(handle) ==> found == Err::<Seq<u8>, HttpErrorView>(
                HttpErrorView::InvalidHandle(handle),
            )
            &&& state.responses.contains_key(handle) ==> match encode_headers(
                state.responses[handle].headers,
            ) {
                Err(_) => found == Err::<Seq<u8>, HttpErrorView>(HttpErrorView::RuntimeError),
                Ok(text) => if text.len() > buf_len {
                    found == Err::<Seq<u8>, HttpErrorView>(HttpErrorView::BufferTooSmall)
                } else {
                    &&& found == Ok::<Seq<u8>, HttpErrorView>(text)
                    &&& after[buf_written_ptr as int] + 256 * after[buf_written_ptr + 1] + 65536
                        * after[buf_written_ptr + 2] + 16777216 * after[buf_written_ptr + 3]
                        == text.len()
                    &&& !(buf_written_ptr <= i < buf_written_ptr + 4) && buf_ptr <= i < buf_ptr
                        + text.len() ==> after[i] == text[i - buf_ptr]
                    &&& !(buf_written_ptr <= i < buf_written_ptr + 4) && !(buf_ptr <= i < buf_ptr
                        + text.len()) ==> after[i] == memory[i]
                },
            }
            &&& found is Err ==> after == memory
        }),
{
    if let Ok(text) = headers_found(state, handle, buf_len) {
        law_delivery_is_exact(memory, text, buf_ptr, buf_written_ptr, i);
    }
}

/// All headers can be served exactly if every byte that is written for what was
/// found lies within the memory.
pub proof fn law_when_all_headers_are_served(
    state: StateView,
    memory: Seq<u8>,
    handle: WasiHttpHandle,
    buf_ptr: u32,
    buf_len: u32,
    buf_written_ptr: u32,
)
    ensures
        headers_get_all_ready(state, memory, handle, buf_ptr, buf_len, buf_written_ptr) <==> (
        headers_found(state, handle, buf_len) matches Ok(text) ==> buf_written_ptr + 4
            <= memory.len() && (text.len() == 0 || buf_ptr + text.len() <= memory.len())),
{
}

/// After a close the handle is not open, every other response is as before, and
/// so is the handle from which the search for a free one starts.
pub proof fn law_close_removes_one(state: StateView, handle: WasiHttpHandle, other: WasiHttpHandle)
    ensures
        !closed(state, handle).responses.contains_key(handle),
        other != handle ==> closed(state, handle).responses.contains_key(other)
            == state.responses.contains_key(other),
        other != handle && state.responses.contains_key(other) ==> closed(
            state,
            handle,
        ).responses[other] == state.responses[other],
        closed(state, handle).current_handle == state.current_handle,
{
}

} // verus!
