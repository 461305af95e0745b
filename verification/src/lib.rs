//! Reachability and latency monitoring for a fixed list of hosts: what a probe
//! reported, the bounded history kept for each host, the table of all hosts,
//! and the text shown for it.

pub mod state;
pub mod store;
pub mod clock;
pub mod hosts;
pub mod output;
pub mod ping;
pub mod reading;
pub mod schedule;
pub mod text;
