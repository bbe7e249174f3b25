//! A relay core: rooms, groups, membership, and message fan-out.
//!
//! Clients address a named room, optionally scoped to a group within it.
//! The library resolves addresses against a room configuration, tracks
//! which clients belong to which room/groups, decides admission, and
//! fans payloads out to the members of a room/group.

pub mod assoc;
pub mod channel;
pub mod config;
pub mod message;
pub mod model;
pub mod registry;
pub mod remote;
pub mod resolve;
pub mod text;
