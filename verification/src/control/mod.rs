//! The channel between the daemon and its frontends.
pub mod access;
pub mod client;
pub mod server;
pub mod status;
