pub mod text;
pub mod names;
pub mod picker;
pub mod aerospace;
pub mod dialog;
pub mod json;
pub mod watch;
pub mod store;
pub mod theme;
pub mod aeroconf;
pub mod lined;
pub mod herdr;
pub mod config;
pub mod panel;
pub mod app;
pub mod stats;
