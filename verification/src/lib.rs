//! Server-side transport for a length-prefixed request/response protocol.
//!
//! A frame on the wire is a four-byte big-endian length followed by exactly
//! that many bytes of opaque payload.  This crate proves the framing codec
//! and the per-connection dispatch logic: reassembly of frames split across
//! arbitrary read boundaries, draining of several frames buffered at once,
//! and in-order dispatch of each decoded payload to a user-supplied handler.
//! Socket I/O and task spawning live outside the library.

pub mod agent;
pub mod buffer;
pub mod codec;
pub mod error;
pub mod frame;
