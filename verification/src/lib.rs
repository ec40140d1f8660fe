//! A user-space TCP stack: per-connection state machine over a 32-bit
//! wrapping sequence space, a connection table with passive open, and the
//! byte-stream operations that a blocking front end drives.
pub mod codec;
pub mod manager;
pub mod tcp;
pub mod wrap;
