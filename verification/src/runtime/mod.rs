//! The daemon and the processes that are connected to it.
pub mod daemon;
pub mod listing;
pub mod mapping;
pub mod metadata;
pub mod registry;
pub mod server;
