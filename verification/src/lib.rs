//! Host side of the experimental outbound HTTP extension for WebAssembly
//! guests running under Wasmer.
//!
//! A guest asks its host to send requests, and reads the replies back through
//! numbered handles. The modules here hold what the host decides and computes:
//! the error codes, the access to the guest's linear memory, the text form of
//! header maps, the list of allowed hosts, the table of open responses and the
//! host calls over them. Sending a request is left to the embedder.

pub mod access;
pub mod context;
pub mod error;
pub mod headers;
pub mod host_calls;
pub mod memory;
pub mod request;
pub mod state;
pub mod text;

pub use context::HttpCtx;
pub use error::{HttpError, WasiHttpHandle};
pub use host_calls::HostCalls;
pub use request::{Reply, Request};
pub use state::{Body, Response, State};
