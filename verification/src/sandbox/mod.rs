//! Sandboxed code execution: request and configuration types, host bindings,
//! session bookkeeping, operation phases and the sandbox tools' requests.

pub mod bindings;
pub mod execution;
pub mod mcp_tools;
pub mod platform;
pub mod runner;
pub mod session_manager;
pub mod supervisor;
pub mod types;
pub mod wasmtime_runner;
