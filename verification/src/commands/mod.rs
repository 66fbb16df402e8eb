//! The commands of the program, and what their arguments ask for.

pub mod log;
pub mod submit;
pub mod ui;
