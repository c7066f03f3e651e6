//! The interactive front-end.

pub mod app;
pub mod ui;
