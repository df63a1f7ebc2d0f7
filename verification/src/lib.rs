//! A parallel scanner of DPI-circumvention strategies: each worker gets a slot of its own
//! (a netfilter queue and a range of source ports), so that many strategies can be tried at
//! once without interfering with one another.
pub mod config;
pub mod error;
pub mod firewall;
pub mod network;
pub mod pipeline;
pub mod text;
pub mod worker;
