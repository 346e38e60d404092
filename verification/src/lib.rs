//! A BGP and OSPF control-plane simulator: configurations, route-maps, forwarding state,
//! event queues, and the export of route-maps into router configurations.

use vstd::prelude::*;

pub mod assoc;
pub mod bgp;
pub mod components;
pub mod config;
pub mod draw;
pub mod event;
pub mod export;
pub mod external_router;
pub mod formatter;
pub mod forwarding_state;
pub mod route_map;
pub mod text;
pub mod topology_zoo;
pub mod types;

verus! {

} // verus!
