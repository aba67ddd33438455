//! Core state machines of a peer-to-peer networking library: a
//! request-response protocol engine, a notification-connection driver,
//! Kademlia message framing, and the address model shared by transports.
//!
//! The asynchronous plumbing (sockets, channels, timers) lives outside this
//! crate; everything here is plain data and verified transition logic.

pub mod address;
pub mod kademlia;
pub mod laws;
pub mod notification;
pub mod request_response;
pub mod store;
pub mod types;
