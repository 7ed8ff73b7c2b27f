//! Runtime support for protocol-checked message passing between two
//! endpoints that share a single packet.
//!
//! - `packet`: the state cell and payload slot of one packet, and the
//!   reference count of the buffer packets live in.
//! - `pipe`: the table of packets and buffers, and the endpoint handles.
//! - `select`: waiting on several receive endpoints at once.
//! - `stream`: unbounded streams built by chaining packets, and port sets.
//! - `laws`: properties of the handshake across several operations.
pub mod atomics;
pub mod packet;
pub mod pipe;
pub mod select;
pub mod laws;
pub mod stream;
