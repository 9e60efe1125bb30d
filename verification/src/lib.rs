//! Incremental, non-blocking parser for `multipart/form-data` request bodies
//! (RFC 7578), consumed as a sequence of byte chunks of arbitrary, non-aligned
//! chunking rather than a fully buffered body.
//!
//! The crate is organised as a set of small state machines that share one byte
//! cursor: a boundary scanner that locates multipart delimiters across chunk
//! edges, a header reader that accumulates and parses per-field headers, a
//! field lifecycle controller that exposes exactly one live field at a time,
//! and a text folder that reassembles UTF-8 sequences split across chunks
//! while enforcing a size bound.
//!
//! All transport concerns (sockets, executors, files) live outside this crate:
//! callers push raw byte chunks in and drive the machines by polling, so the
//! parsing logic is independent of any I/O framework.

pub mod error;
pub mod helpers;
pub mod mock;
pub mod search;
pub mod server;
