//! The link between the machines: its network adapter, its addresses, and the
//! peers that are found on it.

pub mod ip_config;
pub mod mdns;
pub mod nic;
