//! Stacked pull requests inside a fork.

pub mod bytes;
pub mod commands;
pub mod dict;
pub mod integrations;
pub mod number;
pub mod order;
pub mod path_laws;
pub mod paths;
pub mod split;
pub mod stack;
pub mod text;
pub mod text_laws;
pub mod ui;
