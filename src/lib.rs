//! Write buffering and block reads for a chunked, object-backed filesystem,
//! together with the configuration logic that surrounds it.

pub mod span;
pub mod buf;
pub mod page;
pub mod cache;
pub mod blockstore;
pub mod text;
pub mod auth;
pub mod image;
pub mod config_cli;
pub mod meta_config;
pub mod sqlite_config;
pub mod sqlite_keys;
