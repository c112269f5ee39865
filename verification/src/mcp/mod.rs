//! Model Context Protocol server configuration, catalogs, projection,
//! exposure and the decisions taken while preparing servers.

pub mod binding_cache;
pub mod catalog;
pub mod config;
pub mod digest;
pub mod exposure;
pub mod lifecycle;
pub mod placeholder;
pub mod preflight;
pub mod projection;
pub mod registry;
pub mod remote;
pub mod run_events;
pub mod runtime;
pub mod tool_registry;
