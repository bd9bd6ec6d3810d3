//! Verified core of Nalias, a persistent command-alias manager.

pub mod alias;
pub mod app;
pub mod cli;
pub mod config;
pub mod error;
pub mod executor;
pub mod lite;
pub mod paths;
pub mod platform;
pub mod text;
pub mod wrapper;
