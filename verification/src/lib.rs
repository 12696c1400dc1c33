//! Quota availability logic for the Antigravity menu bar tray: log parsing,
//! quota selection, LaunchAgent generation and display formatting.

pub mod text;
pub mod quota;
pub mod launch_agent;
pub mod settings;
pub mod display;
pub mod cli;
pub mod refresh;
