//! Wire-level vocabulary shared by the core and the runtime.
pub mod action;
pub mod command;
pub mod event;
pub mod log;
pub mod message;
pub mod types;
