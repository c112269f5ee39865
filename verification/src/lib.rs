//! Verified core of an agent runtime: MCP server configuration, catalogs,
//! authority-aware projection and tool exposure, and sandbox bindings.

pub mod text;
pub mod urls;
pub mod tools;
pub mod mcp;
pub mod normalized;
pub mod ids;
pub mod policy;
pub mod sandbox;
pub mod server;
pub mod anthropic;
