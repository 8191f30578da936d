//! A reliable byte-oriented transport over an unreliable, half-duplex,
//! byte-at-a-time serial channel, plus a small request/response command
//! layer on top of it.
//!
//! The layers, from the wire upward:
//! - [`packet`]: framing, byte-stuffing and checksum for a single packet;
//! - [`uart`]: the channel capability, single-packet send/receive, the
//!   acknowledged-retry send, and fragmentation/reassembly of long buffers;
//! - [`sbt_client`] and [`sbt_server`]: the command substrate, a
//!   request/response structure with per-command handlers;
//! - [`mocks`]: an in-memory channel for tests.

pub mod error;
pub mod mocks;
pub mod packet;
pub mod sbt_client;
pub mod sbt_server;
pub mod uart;
