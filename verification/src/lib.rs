//! An in-memory key-value cache served over a line-oriented text protocol.
//!
//! The crate holds the parts of the server that decide: the request grammar,
//! the store and its dispatch, the per-connection state machine, the table of
//! live connections and the reactor that ties them together. Sockets and the
//! readiness multiplexer stay with the caller, which performs the I/O that the
//! reactor asks for and reports back what came of it.

pub mod connection;
pub mod framing;
pub mod proto;
pub mod server;
pub mod store;
pub mod table;
