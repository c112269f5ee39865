//! What the host knows of an execution backend.

use vstd::prelude::*;

verus! {

/// The kind of backend.
#[derive(Clone, Copy, PartialEq, Eq, Structural, Debug)]
pub enum RunnerType {
    MicroVm,
    Wasmtime,
    Remote,
}

/// What a backend can do.
#[derive(Clone, Copy, PartialEq, Eq, Structural, Debug)]
pub struct RunnerCapabilities {
    pub supports_long_running: bool,
    pub supports_networking: bool,
    pub max_execution_seconds: Option<u64>,
    pub runner_type: RunnerType,
}

/// The synchronous part of a sandbox backend: whether it enforces an
/// execution boundary, and its capabilities. Capability labels alone are not
/// isolation; a backend must say explicitly that it enforces isolation.
pub trait SandboxRunner {
    /// Whether this backend reports that it enforces isolation.
    spec fn reports_isolation(&self) -> bool;

    /// The capabilities this backend reports.
    spec fn reported_capabilities(&self) -> RunnerCapabilities;

    fn enforces_isolation(&self) -> (r: bool)
        ensures
            r == self.reports_isolation(),
    ;

    fn capabilities(&self) -> (r: RunnerCapabilities)
        ensures
            r == self.reported_capabilities(),
    ;
}

/// A backend as bindings refer to it: a host-assigned identity (two
/// profiles name the same backend exactly when their identities agree) and
/// what the backend reported of itself.
#[derive(Clone, Copy, PartialEq, Eq, Structural, Debug)]
pub struct RunnerProfile {
    pub id: u64,
    pub enforces_isolation: bool,
    pub capabilities: RunnerCapabilities,
}

/// Record what a backend reports, under the identity the host assigned it.
pub fn profile<R: SandboxRunner>(runner: &R, id: u64) -> (r: RunnerProfile)
    ensures
        r.id == id,
        r.enforces_isolation == runner.reports_isolation(),
        r.capabilities == runner.reported_capabilities(),
{
    RunnerProfile { id, enforces_isolation: runner.enforces_isolation(), capabilities: runner.capabilities() }
}

} // verus!
