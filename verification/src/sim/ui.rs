//! Terminal UI logic, apart from drawing and terminal I/O.
pub mod app;
pub mod control;
pub mod input;
pub mod widgets;
