//! The HTTP extension of one instance: its open responses and its limits.

use vstd::prelude::*;

use crate::error::{HttpError, WasiHttpHandle};
use crate::state::{ResponseView, State};

verus! {

/// Experimental HTTP extension object.
pub struct HttpCtx {
    /// The open responses.
    pub state: State,
    /// The URLs whose hosts the guest may send requests to. Without a list no
    /// outbound connection is allowed.
    pub allowed_hosts: Option<Vec<String>>,
    /// How many responses may be open at once. With 0 nothing is sent; without
    /// a number there is no limit.
    pub max_concurrent_requests: Option<u32>,
}

impl HttpCtx {
    /// Module the HTTP extension is going to be defined as.
    pub const MODULE: &'static str = "wasi_experimental_http";

    /// Creates a new HTTP extension object.
    /// `allowed_hosts` may be `None` (no outbound connections allowed)
    /// or a list of allowed hosts, each given as a URL.
    pub fn new(
        allowed_hosts: Option<Vec<String>>,
        max_concurrent_requests: Option<u32>,
    ) -> (r: Result<HttpCtx, HttpError>)
        ensures
            r matches Ok(ctx) && {
                &&& ctx.state@.responses == Map::<WasiHttpHandle, ResponseView>::empty()
                &&& ctx.state@.current_handle == 0
                &&& ctx.state@.well_formed()
                &&& ctx.allowed_hosts == allowed_hosts
                &&& ctx.max_concurrent_requests == max_concurrent_requests
            },
    {
        let state = State::default();
        Ok(HttpCtx { state, allowed_hosts, max_concurrent_requests })
    }
}

} // verus!
