//! Nalias Lite: a minimal companion that embeds commands directly in wrappers.

pub mod args;
pub mod commands;
pub mod paths;
pub mod platform;
mod portable;
pub mod wrapper;
