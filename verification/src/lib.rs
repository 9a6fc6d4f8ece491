//! A best-effort quorum-agreement library for cluster-manager peers.
//!
//! A node that wants to perform a scaling action asks its manager peers for
//! agreement over an unreliable datagram channel. This crate holds the whole
//! decision logic: the wire-message codec, `host:port` address handling,
//! membership filtering, and the per-cycle quorum state machine. The
//! surrounding binary only performs I/O (the membership query, the datagram
//! socket) and feeds plain values in and out.

pub mod addr;
pub mod bytes;
pub mod coordinator;
pub mod membership;
pub mod message;
