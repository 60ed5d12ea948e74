//! Error values of the multiplexer core.
//!
//! Parsing a single message, framing a byte stream, and interpreting a reply
//! from another agent each fail in their own small set of ways, so each gets
//! its own enum. None of these values carries key material.

use vstd::prelude::*;

verus! {

/// Why a single well-framed message failed to parse.
#[derive(Clone, Copy, Debug, PartialEq, Eq, Structural)]
pub enum ParseFault {
    /// The payload ended before a field was complete.
    Insufficient,
    /// Bytes remained after the last field of the variant.
    Trailing,
    /// A boolean octet held a value other than 0 or 1.
    InvalidBool,
    /// A string field did not hold valid UTF-8.
    InvalidUtf8,
}

/// Why the frame decoder returned no message.
///
/// Every variant leaves the decoder poisoned: after a decode failure the next
/// message boundary is unknown, so the connection must be closed.
#[derive(Clone, Copy, Debug, PartialEq, Eq, Structural)]
pub enum DecodeError {
    /// A previous call already failed; no further input is accepted.
    FramingLost,
    /// A frame announced length zero, which cannot even hold the type byte.
    ZeroLength,
    /// The frame was well-formed but its payload did not parse.
    Malformed(ParseFault),
}

/// Why a write into the outgoing buffer was refused.
#[derive(Clone, Copy, Debug, PartialEq, Eq, Structural)]
pub enum EncodeFault {
    /// A length did not fit in the 32-bit field that carries it.
    Oversize,
    /// The buffer cannot grow any further.
    NoSpace,
}

/// Why a reply from another agent could not be used.
#[derive(Clone, Debug, PartialEq, Eq)]
pub enum AgentError {
    /// The agent answered `FAILURE` to an extension request it does not know.
    ExtensionNotUnderstood,
    /// The agent answered with a variant the request cannot be answered by.
    UnexpectedResponse,
    /// The agent answered a plain `FAILURE` where a value was required.
    ServerFailure,
    /// The agent sent `EXTENSION_FAILURE` but its error body did not decode.
    MalformedError,
    /// The agent sent a decodable error chain, root cause first.
    RemoteFailure { messages: Vec<String> },
    /// No registered upstream is marked to receive identity mutations.
    NoForwarderConfigured,
}

} // verus!
