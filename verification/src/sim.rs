//! The deterministic core of the cluster simulator: a virtual clock, the
//! key-value state machine, the network's fault table and routing decision,
//! and the terminal UI's state, key decoding, command planning and views.
pub mod clock;
pub mod network;
pub mod state_machine;
pub mod ui;
