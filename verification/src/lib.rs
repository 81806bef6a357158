//! An authoritative, container-aware DNS resolver library.
//!
//! The crate holds the verified core of a small DNS server that answers
//! name and address queries for containers attached to user-defined
//! networks: the in-memory backend, the configuration and resolver-file
//! parsers, the byte-level DNS message handling, and the pure decision
//! logic of the supervisor's reload loop.

pub mod backend;
pub mod bytes;
pub mod commands;
pub mod config;
pub mod dns;
pub mod error;
pub mod ip;
pub mod reconcile;
pub mod resolv;
pub mod vrf;

pub use ip::IpAddr;
