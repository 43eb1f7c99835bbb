//! Copernica: an information-centric networking substrate.
//!
//! Content is requested by identifier rather than by host address. This
//! crate holds the forwarding core: content identifiers, the wire format,
//! the pending-interest table, the content store and the broker and
//! requestor state machines.

pub mod address;
pub mod broker;
pub mod constants;
pub mod content_store;
pub mod faces;
pub mod hash;
pub mod hbfi;
pub mod hex;
pub mod link;
pub mod links;
pub mod named;
pub mod packet_map;
pub mod packets;
pub mod pit;
pub mod requestor;
pub mod table;
pub mod wire;
