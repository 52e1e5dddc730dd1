//! Stellwerk: per-client egress gateway control for a Linux router.
//!
//! The library holds the verified decision logic of the daemon: the data
//! model and its store operations, ruleset and command generation for
//! nftables and iproute2, parsers for kernel tables, traffic accounting,
//! failover decisions, Mullvad helpers and session handling.

pub mod api;
pub mod auth;
pub mod clock;
pub mod config;
pub mod discovery;
pub mod homeassistant;
pub mod interfaces;
pub mod lookup;
pub mod model;
pub mod monitor;
pub mod mullvad;
pub mod nftables;
pub mod order;
pub mod routing;
pub mod sort;
pub mod store;
pub mod text;
pub mod traffic;
