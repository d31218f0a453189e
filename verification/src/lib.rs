//! Client-side core of the MikroTik RouterOS API: the wire codec, the command
//! builder, the response parser and the state machine that multiplexes tagged
//! commands over one connection.
//!
//! Everything here is pure: the caller owns the socket and the channels and
//! drives [`actor::DeviceConnectionActor`] with what it reads and writes.
//!
//! - [`protocol::length`], [`protocol::sentence`], [`protocol::splitter`]: the
//!   framing, from length prefixes to sentences cut from a byte stream;
//! - [`protocol::word`], [`protocol::response`]: what the words of a sentence
//!   mean, and the response that they make up;
//! - [`protocol::command`], [`protocol::string`], [`macros`]: building the
//!   bytes of a command;
//! - [`actor`]: routing responses to the commands that wait for them;
//! - [`error`], [`protocol::error`]: what can go wrong.

pub mod actor;
pub mod error;
pub mod macros;
pub mod protocol;
