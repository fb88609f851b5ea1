//! TailNAT: forwards public TCP/UDP ports of a gateway to services on
//! Tailscale peers, through iptables chains that it owns.
//!
//! The library holds the logic: the configuration and its rules (`model`),
//! the plan of iptables commands that rebuilds the managed chains and the
//! machine that walks it (`firewall`), the reading of live DNAT rules
//! (`live`), the reading of the Tailscale CLI's answers (`tailscale`), the
//! HTTP API's decisions (`api`) and the command line (`cli`). Running
//! commands, serving HTTP and saving files is left to the program around it.
use vstd::prelude::*;

pub mod text;
pub mod order;
pub mod ipv4;
pub mod model;
pub mod firewall;
pub mod live;
pub mod tailscale;
pub mod api;
pub mod cli;

verus! {

} // verus!
