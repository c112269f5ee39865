//! The process-based local backend. It runs ordinary host processes and
//! therefore does not enforce isolation.

use vstd::prelude::*;

use crate::sandbox::runner::{RunnerCapabilities, RunnerType, SandboxRunner};

verus! {

/// Local process runner.
#[derive(Debug)]
pub struct WasmtimeRunner;

impl WasmtimeRunner {
    pub fn new() -> (r: WasmtimeRunner) {
        WasmtimeRunner
    }

    /// Short-lived executions without networking, at most 300 seconds.
    pub fn runner_capabilities(&self) -> (r: RunnerCapabilities)
        ensures
            !r.supports_long_running,
            !r.supports_networking,
            r.max_execution_seconds == Some(300u64),
            r.runner_type == RunnerType::Wasmtime,
    {
        RunnerCapabilities {
            supports_long_running: false,
            supports_networking: false,
            max_execution_seconds: Some(300),
            runner_type: RunnerType::Wasmtime,
        }
    }
}

impl SandboxRunner for WasmtimeRunner {
    open spec fn reports_isolation(&self) -> bool {
        false
    }

    open spec fn reported_capabilities(&self) -> RunnerCapabilities {
        RunnerCapabilities {
            supports_long_running: false,
            supports_networking: false,
            max_execution_seconds: Some(300u64),
            runner_type: RunnerType::Wasmtime,
        }
    }

    /// Local processes run on the host: no isolation is enforced.
    fn enforces_isolation(&self) -> (r: bool)
        ensures
            !r,
    {
        false
    }

    /// Short-lived executions without networking, at most 300 seconds.
    fn capabilities(&self) -> (r: RunnerCapabilities)
        ensures
            r == (RunnerCapabilities {
                supports_long_running: false,
                supports_networking: false,
                max_execution_seconds: Some(300u64),
                runner_type: RunnerType::Wasmtime,
            }),
    {
        self.runner_capabilities()
    }
}

} // verus!
