//! A minimal HTTP/1.1 client engine: it serializes requests, resolves the
//! target a URL names, and decodes responses — status line, header block,
//! and a body framed by `Content-Length`, chunked transfer coding, or the
//! close of the connection.
//!
//! The engine works on plain values: the serializer produces the request
//! bytes, and the decoder consumes the bytes a transport delivered. What
//! touches the network (sockets, TLS) lives outside; URL parsing is
//! delegated to the `url` crate behind one trusted wrapper. Each request
//! is carried on its own connection and announces `Connection: close`.

pub mod headers;
pub mod http_request;
pub mod http_response;
pub mod text;

use vstd::prelude::*;

verus! {

/// Errors the client can report. Every error is terminal for the call that
/// produced it: nothing here retries.
#[derive(Clone, Copy, Debug, PartialEq, Eq, Structural)]
pub enum HttpError {
    /// The URL could not be parsed, or its scheme is not `http`/`https`;
    /// no I/O is attempted.
    ConfigurationError,
    /// The transport could not be established (connect or TLS handshake).
    ConnectError,
    /// A read or write exceeded its configured bound.
    TimeoutError,
    /// The status line did not start with `HTTP/1.1`.
    ProtocolMismatch,
    /// A header line is missing the `": "` separator.
    MalformedHeader,
    /// A chunk-size line is not valid hexadecimal.
    MalformedChunk,
    /// The stream ended before the framed body was complete.
    TruncatedBody,
}

} // verus!
