//! A Raft consensus core written as a pure state machine, together with the
//! deterministic pieces of its runtime and of a terminal cluster simulator.
//!
//! The core (`Raft::step`) consumes an `Event` and returns the list of
//! `Action`s the surrounding runtime has to perform.  Every handler carries
//! a functional contract over the abstract view `RaftView`.
pub mod protocol;
pub mod raft;
pub mod runtime;
pub mod sim;

pub use raft::{CandidateState, LeaderState, PersistentState, Raft, Role, VolatileState};
