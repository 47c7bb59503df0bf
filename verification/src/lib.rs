//! LAN discovery protocol pair: a beacon answers UDP broadcast probes that
//! carry a shared signature with a JSON description of the host, and a scanner
//! broadcasts probes and aggregates the answers into a last-write-wins table.
//!
//! This crate holds the verified protocol engine: the wire codec with its
//! defensive rendering, signature matching, per-source rate limiting, the
//! inventory key/value parsing and JSON encoding that build a beacon's answer,
//! and the scanner's aggregation logic. Sockets, subprocess execution and the
//! terminal front end live outside the library and hand it plain values.

pub mod addr;
pub mod answers;
pub mod beacons;
pub mod bytes;
pub mod conf;
pub mod inventory;
pub mod json;
pub mod server;
pub mod signature;
pub mod ui;
