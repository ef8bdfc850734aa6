//! Binary wire codec for validator peer-to-peer messages.
//!
//! Every message has a canonical little-endian encoding and a decoder that
//! is total over untrusted input: it returns an error for every malformed
//! buffer and never panics.

pub mod wire;
pub mod addr;
pub mod peer_response;
pub mod payload;
pub mod primary_ping;
pub mod block_request;
pub mod ping;
