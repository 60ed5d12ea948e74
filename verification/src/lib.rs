//! A verified core for an SSH authentication-agent multiplexer.
//!
//! The library covers the agent wire codec (length-prefixed framing and the
//! typed message algebra), the ordered registry of upstream agents, and the
//! request dispatcher. Socket I/O and the async event loop live outside the
//! library and drive it through plain values.

pub mod client;
pub mod codec;
pub mod dispatch;
pub mod errors;
pub mod extension;
pub mod extresp;
pub mod imap;
pub mod registry;
pub mod request;
pub mod response;
pub mod wire;
