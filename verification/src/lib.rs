//! A live markdown workspace: the rules that decide what is served, tracked and shown.
pub mod api;
pub mod cli;
pub mod config;
pub mod desktop;
pub mod host;
pub mod order;
pub mod pages;
pub mod paths;
pub mod state;
pub mod static_files;
pub mod template;
pub mod text;
pub mod tree;
pub mod watcher;
pub mod workspace;

pub use config::{AppConfig, RecentWorkspace};
pub use state::ServerMessage;
