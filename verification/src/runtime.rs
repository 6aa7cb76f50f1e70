//! The deterministic part of the node runtime: metrics, message labels,
//! the decisions of the node event loop, and the timer's random draw.
pub mod label;
pub mod metrics;
pub mod node;
pub mod state_machine;
pub mod timer;
pub mod transport;
