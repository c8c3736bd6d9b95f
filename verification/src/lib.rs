//! Terminal multiplexer core: a sanitized, replayable buffer of terminal
//! output, the wire protocol between daemon and client, and the decisions of
//! the session daemon. Everything here is free of I/O.

pub mod action;
pub mod args;
pub mod bytes;
pub mod connection;
pub mod daemon;
pub mod effects;
pub mod engine;
pub mod idle;
pub mod palette;
pub mod protocol;
pub mod pty;
pub mod registry;
pub mod rendition;
pub mod replay;
pub mod restore;
pub mod ring;
pub mod scanner;
pub mod server;
pub mod session;
pub mod shown;
pub mod sink;
pub mod socket;
pub mod status;
pub mod sticky;
pub mod stream;
pub mod unit;

pub use engine::ReplayEngine;
pub use status::StatusSnapshot;
