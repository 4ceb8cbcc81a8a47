//! A per-host log-shipping daemon's verified core: the line-based
//! configuration grammar, the append-only binary segment format with its
//! rotation state machine, and the topic-prefix fan-out model of the
//! publish/subscribe bus.
//!
//! The surrounding daemon (socket handling, file I/O, worker threads) lives
//! outside this library and drives it with plain values: the library decides
//! what bytes are written and when a segment rotates; the daemon performs the
//! writes.

pub mod bytes;
pub mod config;
pub mod log;
pub mod bus;
