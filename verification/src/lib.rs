//! Verified core of a distributed ray-tracing coordinator.
//!
//! Worker clients repeatedly ask the coordinator for a rectangular tile of
//! rays to trace; the coordinator hands tiles out, enforces a per-tile
//! deadline, composites returned pixels into a shared BGRx framebuffer, keeps
//! per-client statistics, and rotates a metadata side-channel in lockstep
//! with the video segments an external encoder produces.
//!
//! This crate holds the decision logic: tile scheduling, frame accounting,
//! the version-1 wire codec, the playlist rewriter and the connection
//! session. Sockets, threads, the video pipeline and all floating-point
//! geometry live with the caller.

pub mod accumulator;
pub mod assoc;
pub mod client_id;
pub mod codec;
pub mod http;
pub mod playlist;
pub mod playlist_time;
pub mod protocol;
pub mod scheduler;
pub mod session;
pub mod tile;
