//! Choosing a host of a tailnet by category.
//!
//! A status text of the network is read into servers (`tailscale`), the
//! servers are held against the categories of a configuration
//! (`config_loader`), and a choice in two stages, first of a category and then
//! of a server, leads to a remote-shell session (`selection`, `navigation`,
//! `session`). The library decides and computes; asking the user and running
//! commands is left to its caller.

pub mod config_loader;
pub mod navigation;
pub mod order;
pub mod selection;
pub mod server;
pub mod session;
pub mod tailscale;
pub mod text;

pub use server::Server;
