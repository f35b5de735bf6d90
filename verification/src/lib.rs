//! TLS SNI passthrough proxy (sniproxy-style routing without termination).
//!
//! Peeks at the TLS `ClientHello`, extracts the SNI hostname, selects a backend
//! from the configured routes, and forwards the raw TLS stream unchanged.
//!
//! This crate holds the decisions: the ClientHello parser, the buffering state
//! machine, the route table and the configuration model, each with a contract
//! proved by Verus. Sockets, timers and file reading live with the program
//! that uses it.

pub mod client_hello;
pub mod config;
pub mod error;
pub mod pattern;
pub mod peek;
pub mod router;
pub mod text;

pub use config::Config;
pub use error::SniProxyError;
pub use router::RouteTable;
