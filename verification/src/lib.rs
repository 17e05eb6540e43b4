//! Core of a clipboard coordination daemon: several terminal clients share
//! two collections of file paths ("copied" and "cut") through a small
//! request/response protocol spoken over a local socket.
//!
//! This crate holds the verified logic: the wire codec, the length-prefix
//! framing, the selection store, the per-connection request handler, the
//! startup singleton guard and the client-side helpers.  The surrounding
//! process (socket accept loop, blocking client calls) lives outside and
//! only moves bytes between a socket and these functions.

pub mod client;
pub mod config;
pub mod framing;
pub mod guard;
pub mod handler;
pub mod proto;
pub mod store;
