//! Connection-level engine of an HTTP/1.1 server.
//!
//! The crate turns a raw, non-blocking byte stream into a sequence of parsed
//! requests, drives a pluggable handler to produce responses, and serializes
//! those responses back onto the stream, supporting pipelined requests on one
//! connection without blocking the calling thread.
//!
//! The per-connection state machine is built from:
//! a growable [`ByteBuffer`] with partial-read/partial-write semantics,
//! a request-head parser ([`parse`]) that yields offset pairs into that buffer,
//! a [`Response`] builder with a two-phase headers-then-body discipline, and a
//! [`PipelineDispatcher`] that sequences read, parse, handler hand-off,
//! serialize and write across repeated poll cycles.

use vstd::prelude::*;

mod buffer;
mod error;
pub mod grammar;
pub mod parser;
pub mod request;
pub mod response;
pub mod server;

pub use buffer::ByteBuffer;
pub use error::Error;
pub use error::ParseReason;
pub use parser::State;
pub use request::Header;
pub use request::Method;
pub use request::Request;
pub use response::Response;
pub use server::DispatchState;
pub use server::HandlerPoll;
pub use server::HttpHandler;
pub use server::NewHandler;
pub use server::PipelineDispatcher;
pub use server::Progress;

verus! {

/// Hard cap on the number of headers accepted in one request head.
pub const MAX_HEADERS: usize = 16;

/// Default upper bound on the size of a request head, in bytes; a head that
/// cannot complete within this many bytes is rejected as oversized.
pub const MAX_HEAD_SIZE: usize = 8192;

} // verus!
