//! Collaboration engine for raid-strategy documents.
//!
//! The library holds the verified core of a real-time strategy editor: the
//! in-memory replica of a strategy (players, damage options, timeline
//! entries), the validation pipeline for batched entry mutations with its
//! cooldown-occupancy check, the session roster with peer elevation, and the
//! event stream that keeps client replicas convergent with the server's.
//! Identifiers are 128-bit values; the transport layer converts them from
//! their textual form at the edge.

pub mod types;

pub mod feasibility;

pub mod catalog;

pub mod entries;

pub mod mutation;

pub mod auth;

pub mod session;

pub mod events;

pub mod ids;

pub mod jobs;

pub mod registry;
