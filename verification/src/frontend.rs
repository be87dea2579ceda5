//! What the terminal front end knows of: the arguments of the program and
//! the state of its menu.

pub mod cli;
pub mod config;
pub mod tui;
