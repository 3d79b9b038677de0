//! The network.

pub mod dns;
pub mod dns_laws;
pub mod ping;
pub mod resolve;
pub mod socket;
