//! Reclaim disk space from the build artifacts of stale projects.

pub mod order;
pub mod text;
pub mod path;
pub mod clock;
pub mod places;
pub mod humantime;
pub mod fmt;
pub mod glob;
pub mod size;
pub mod project;
pub mod config;
pub mod gitignore;
pub mod clean;
pub mod scan;
pub mod engine;
pub mod pipeline;
pub mod store;
pub mod cli;
pub mod report;
pub mod tui;
pub mod safety;
