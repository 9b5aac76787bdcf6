//! The state behind the user interfaces.

pub mod app;
pub mod events;
pub mod incoming;
pub mod laws;
pub mod sending;
pub mod settings;
pub mod settings_laws;
pub mod ui;
