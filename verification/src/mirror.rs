//! Mirroring of whole maps.
//!
//! The plain way to bring a map to another machine: every update sends all of
//! it, as one LZ4 block behind its length, in fragments with a 20-byte header.
//! There are no heartbeats, partial frames or resync packets.

pub mod codec;
pub mod protocol;
pub mod session;
pub mod stats;
