//! Connection statistics of a router, read from its conntrack table.

pub mod address;
pub mod address_laws;
pub mod conntrack;
pub mod conntrack_laws;
pub mod device_laws;
pub mod devices;
pub mod entry;
pub mod entry_laws;
pub mod flow_laws;
pub mod flows;
pub mod laws;
pub mod monitor;
pub mod network;
pub mod network_laws;
pub mod number;
pub mod stats;
pub mod stats_laws;
pub mod text;
pub mod text_laws;
