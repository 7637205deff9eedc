//! The core of a small in-memory key-value server that speaks a Redis-like
//! wire protocol: the codec for protocol values, the frame reader of a
//! connection, the command model and the store with its deadlines, each with
//! a machine-checked contract.
//!
//! - [`wire`] is the wire format as mathematics: values, their encoding, and
//!   what decoding makes of a buffer. [`wire_laws`] proves what holds of it.
//! - [`resp`] encodes and decodes values in memory and holds the receive
//!   buffer of a connection; [`decimal`] reads and writes the numbers of
//!   length and count lines.
//! - [`cmd`] reads a decoded request as a command.
//! - [`store`] keeps the entries; [`session`] carries a command out and takes
//!   one connection's turn after a read; [`clock`] tells the time.
//! - [`buffer`] declares what is used of the `bytes` crate.

pub mod buffer;
pub mod clock;
pub mod cmd;
pub mod decimal;
pub mod resp;
pub mod session;
pub mod store;
pub mod wire;
pub mod wire_laws;
