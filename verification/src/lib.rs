//! A reliable-delivery session layer for a game client that talks to its
//! server over an unordered, lossy datagram link.
//!
//! The library provides ordered, gap-free delivery of server responses
//! despite reordering and loss, acknowledgment-driven retransmission of
//! client requests, session establishment via a server-issued cookie,
//! liveness detection via heartbeats, and best-effort-ordered delivery of
//! chat broadcasts piggybacked on periodic update packets.

pub mod input;
pub mod laws;
pub mod manager;
pub mod packet;
pub mod queue;
pub mod session;
