//! A drone node for a simulated source-routed packet network.
//!
//! The drone relays source-routed fragments hop by hop, takes part in a
//! network-discovery flood protocol, drops fragments at a configurable
//! packet-drop rate, answers delivery failures with negative
//! acknowledgements, and supports a graceful crash shutdown that keeps
//! serving teardown traffic from its neighbours.

pub mod channels;
pub mod checks;
pub mod controller;
pub mod drone;
pub mod error;
pub mod packet;
