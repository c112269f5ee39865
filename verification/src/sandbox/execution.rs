//! Host-owned ephemeral sandbox operations: their content-free phases, the
//! transitions the owning task makes, and model-safe failures. Unknown
//! create/destroy outcomes are retained; mutations are never replayed.

use std::sync::Arc;
use vstd::prelude::*;

use crate::sandbox::runner::RunnerType;
use crate::sandbox::types::{ExecutionResult, Language, SandboxError};
use crate::text::{concat, owned};

verus! {

/// Content-free lifecycle state for an operation owned by the host.
#[derive(Clone, Copy, PartialEq, Eq, Structural, Debug)]
pub enum SandboxOperationPhase {
    Pending,
    Creating,
    Executing,
    Destroying,
    Released,
    CreationUnconfirmed,
    CleanupUnconfirmed,
}

/// Host diagnostics contain identities and state, never code, env or output.
pub struct SandboxOperationSnapshot {
    pub run_id: String,
    pub operation_id: String,
    pub sandbox_id: Option<String>,
    pub phase: SandboxOperationPhase,
    pub runner_type: RunnerType,
}

/// Model-safe failure. Backend errors are retained, not displayed.
pub enum SandboxExecutionError {
    Unavailable,
    Cancelled,
    DeadlineExceeded,
    Backend(Arc<SandboxError>),
    Unconfirmed { operation_id: String, stage: &'static str, source: Option<Arc<SandboxError>> },
}

pub open spec fn execution_error_text(e: SandboxExecutionError) -> Seq<char> {
    match e {
        SandboxExecutionError::Unavailable => "Sandbox execution is unavailable or its run has closed"@,
        SandboxExecutionError::Cancelled => "Sandbox execution cancelled"@,
        SandboxExecutionError::DeadlineExceeded => "Sandbox execution deadline exceeded"@,
        SandboxExecutionError::Backend(_) => "Sandbox backend execution failed"@,
        SandboxExecutionError::Unconfirmed { operation_id, stage, .. } => "Sandbox "@ + stage@ + " outcome is unconfirmed (operation "@
            + operation_id@ + ")"@,
    }
}

impl SandboxExecutionError {
    /// The model-visible description.
    pub fn message(&self) -> (r: String)
        ensures
            r@ == execution_error_text(*self),
    {
        match self {
            SandboxExecutionError::Unavailable => owned("Sandbox execution is unavailable or its run has closed"),
            SandboxExecutionError::Cancelled => owned("Sandbox execution cancelled"),
            SandboxExecutionError::DeadlineExceeded => owned("Sandbox execution deadline exceeded"),
            SandboxExecutionError::Backend(_) => owned("Sandbox backend execution failed"),
            SandboxExecutionError::Unconfirmed { operation_id, stage, .. } => {
                let a = concat("Sandbox ", stage);
                let b = concat(a.as_str(), " outcome is unconfirmed (operation ");
                let c = concat(b.as_str(), operation_id.as_str());
                concat(c.as_str(), ")")
            },
        }
    }
}

/// The failure for a stage whose outcome is unknown.
pub fn unconfirmed(id: &str, stage: &'static str, source: Option<SandboxError>) -> (r: SandboxExecutionError)
    ensures
        r matches SandboxExecutionError::Unconfirmed { operation_id, stage: s, source: src } && operation_id@ == id@ && s == stage
            && src.is_some() == source.is_some(),
{
    SandboxExecutionError::Unconfirmed {
        operation_id: owned(id),
        stage,
        source: match source {
            Some(e) => Some(Arc::new(e)),
            None => None,
        },
    }
}

/// What an operation reports once its sandbox's destruction has answered:
/// the execution's own result when destruction was confirmed; otherwise an
/// unconfirmed cleanup, carrying the backend's error when it answered with
/// one. The flag tells whether cleanup was confirmed.
pub fn destroy_outcome(
    id: &str,
    executed: Result<ExecutionResult, SandboxExecutionError>,
    destroyed: Result<(), Option<SandboxError>>,
) -> (r: (Result<ExecutionResult, SandboxExecutionError>, bool))
    ensures
        match destroyed {
            Ok(()) => r.1 && r.0 == executed,
            Err(src) => !r.1 && (r.0 matches Err(SandboxExecutionError::Unconfirmed { operation_id, stage, source })
                && operation_id@ == id@ && stage@ == "cleanup"@ && source.is_some() == src.is_some()),
        },
{
    match destroyed {
        Ok(()) => (executed, true),
        Err(source) => {
            proof {
                reveal_strlit("cleanup");
            }
            (Err(unconfirmed(id, "cleanup", source)), false)
        },
    }
}

/// The execution limit: the request's own limit when it is lower than the
/// configured one, else the configured one.
pub fn effective_timeout(requested: Option<u64>, configured: u64) -> (r: u64)
    ensures
        r == match requested {
            Some(t) => if t < configured { t } else { configured },
            None => configured,
        },
{
    match requested {
        Some(t) => if t < configured { t } else { configured },
        None => configured,
    }
}

/// What happens to an operation, as its owning task observes it.
#[derive(Clone, Copy, PartialEq, Eq, Structural, Debug)]
pub enum OperationEvent {
    /// The task starts: whether the operation was already cancelled, whether
    /// its local deadline is representable on the clock, and whether the
    /// effective deadline has already passed.
    Start { cancelled: bool, deadline_representable: bool, deadline_passed: bool },
    /// Creation returned a handle.
    Created,
    /// Creation returned an error or never answered.
    CreationFailed,
    /// Execution finished, was cancelled or timed out.
    Executed,
    /// Destruction was confirmed.
    Destroyed,
    /// Destruction returned an error or never answered.
    DestructionFailed,
    /// The owning task itself failed.
    WorkerFailed,
}

/// The phase after a failed worker: nothing started or everything was
/// released stays released; an unanswered creation stays unconfirmed; any
/// other state leaves cleanup unconfirmed.
pub open spec fn after_worker_failure(p: SandboxOperationPhase) -> SandboxOperationPhase {
    match p {
        SandboxOperationPhase::Pending | SandboxOperationPhase::Released => SandboxOperationPhase::Released,
        SandboxOperationPhase::Creating | SandboxOperationPhase::CreationUnconfirmed => SandboxOperationPhase::CreationUnconfirmed,
        _ => SandboxOperationPhase::CleanupUnconfirmed,
    }
}

/// The phase an event leads to; events that do not apply leave it unchanged.
pub open spec fn phase_after(p: SandboxOperationPhase, e: OperationEvent) -> SandboxOperationPhase {
    match (p, e) {
        (SandboxOperationPhase::Pending, OperationEvent::Start { cancelled, deadline_representable, deadline_passed }) => if cancelled
            || !deadline_representable || deadline_passed {
            SandboxOperationPhase::Released
        } else {
            SandboxOperationPhase::Creating
        },
        (SandboxOperationPhase::Creating, OperationEvent::Created) => SandboxOperationPhase::Executing,
        (SandboxOperationPhase::Creating, OperationEvent::CreationFailed) => SandboxOperationPhase::CreationUnconfirmed,
        (SandboxOperationPhase::Executing, OperationEvent::Executed) => SandboxOperationPhase::Destroying,
        (SandboxOperationPhase::Destroying, OperationEvent::Destroyed) => SandboxOperationPhase::Released,
        (SandboxOperationPhase::Destroying, OperationEvent::DestructionFailed) => SandboxOperationPhase::CleanupUnconfirmed,
        (_, OperationEvent::WorkerFailed) => after_worker_failure(p),
        _ => p,
    }
}

/// The phase an event leads to.
pub fn next_phase(phase: SandboxOperationPhase, event: OperationEvent) -> (r: SandboxOperationPhase)
    ensures
        r == phase_after(phase, event),
{
    match (phase, event) {
        (SandboxOperationPhase::Pending, OperationEvent::Start { cancelled, deadline_representable, deadline_passed }) => {
            if cancelled || !deadline_representable || deadline_passed {
                SandboxOperationPhase::Released
            } else {
                SandboxOperationPhase::Creating
            }
        },
        (SandboxOperationPhase::Creating, OperationEvent::Created) => SandboxOperationPhase::Executing,
        (SandboxOperationPhase::Creating, OperationEvent::CreationFailed) => SandboxOperationPhase::CreationUnconfirmed,
        (SandboxOperationPhase::Executing, OperationEvent::Executed) => SandboxOperationPhase::Destroying,
        (SandboxOperationPhase::Destroying, OperationEvent::Destroyed) => SandboxOperationPhase::Released,
        (SandboxOperationPhase::Destroying, OperationEvent::DestructionFailed) => SandboxOperationPhase::CleanupUnconfirmed,
        (_, OperationEvent::WorkerFailed) => match phase {
            SandboxOperationPhase::Pending | SandboxOperationPhase::Released => SandboxOperationPhase::Released,
            SandboxOperationPhase::Creating | SandboxOperationPhase::CreationUnconfirmed => SandboxOperationPhase::CreationUnconfirmed,
            _ => SandboxOperationPhase::CleanupUnconfirmed,
        },
        _ => phase,
    }
}

/// Whether the sandbox of an operation is known to be gone (or never existed).
pub fn cleanup_confirmed(phase: SandboxOperationPhase) -> (r: bool)
    ensures
        r == (phase == SandboxOperationPhase::Pending || phase == SandboxOperationPhase::Released),
{
    phase == SandboxOperationPhase::Pending || phase == SandboxOperationPhase::Released
}

/// Why an operation ends before creation, if it does: cancellation first,
/// then an unrepresentable deadline, then an expired one.
pub fn start_failure(cancelled: bool, deadline_representable: bool, deadline_passed: bool) -> (r: Option<SandboxExecutionError>)
    ensures
        match r {
            Some(SandboxExecutionError::Cancelled) => cancelled,
            Some(SandboxExecutionError::Unavailable) => !cancelled && !deadline_representable,
            Some(SandboxExecutionError::DeadlineExceeded) => !cancelled && deadline_representable && deadline_passed,
            Some(_) => false,
            None => !cancelled && deadline_representable && !deadline_passed,
        },
{
    if cancelled {
        Some(SandboxExecutionError::Cancelled)
    } else if !deadline_representable {
        Some(SandboxExecutionError::Unavailable)
    } else if deadline_passed {
        Some(SandboxExecutionError::DeadlineExceeded)
    } else {
        None
    }
}

/// Uncertainty is never resolved into success: once creation or cleanup is
/// unconfirmed, no event confirms it, and a released operation stays released.
pub proof fn law_unconfirmed_phases_are_retained(p: SandboxOperationPhase, e: OperationEvent)
    ensures
        p == SandboxOperationPhase::CreationUnconfirmed ==> phase_after(p, e) == SandboxOperationPhase::CreationUnconfirmed,
        p == SandboxOperationPhase::CleanupUnconfirmed ==> phase_after(p, e) == SandboxOperationPhase::CleanupUnconfirmed,
        p == SandboxOperationPhase::Released ==> phase_after(p, e) == SandboxOperationPhase::Released,
{
}

/// Creation is attempted at most once: only a pending operation can enter
/// the creating phase.
pub proof fn law_creation_is_not_replayed(p: SandboxOperationPhase, e: OperationEvent)
    ensures
        phase_after(p, e) == SandboxOperationPhase::Creating ==> p == SandboxOperationPhase::Pending || p == SandboxOperationPhase::Creating,
        p != SandboxOperationPhase::Pending && p != SandboxOperationPhase::Creating ==> phase_after(p, e) != SandboxOperationPhase::Creating,
{
}

pub open spec fn language_label(l: Language) -> Seq<char> {
    match l {
        Language::Bash => "bash"@,
        Language::Python => "python"@,
        Language::Node => "node"@,
        Language::Rust => "rust"@,
    }
}

/// The metrics label of a language.
pub fn sandbox_language_label(language: &Language) -> (r: &'static str)
    ensures
        r@ == language_label(*language),
{
    match language {
        Language::Bash => "bash",
        Language::Python => "python",
        Language::Node => "node",
        Language::Rust => "rust",
    }
}

pub open spec fn runner_type_label(t: RunnerType) -> Seq<char> {
    match t {
        RunnerType::MicroVm => "microsandbox"@,
        RunnerType::Wasmtime => "wasmtime"@,
        RunnerType::Remote => "remote"@,
    }
}

/// The metrics label of a backend kind.
pub fn sandbox_runner_type_label(runner: RunnerType) -> (r: &'static str)
    ensures
        r@ == runner_type_label(runner),
{
    match runner {
        RunnerType::MicroVm => "microsandbox",
        RunnerType::Wasmtime => "wasmtime",
        RunnerType::Remote => "remote",
    }
}

pub open spec fn error_type_label(e: SandboxError) -> Seq<char> {
    match e {
        SandboxError::CreationFailed(_) => "creation_failed"@,
        SandboxError::ExecutionFailed(_) => "execution_failed"@,
        SandboxError::FileError(_) => "file_error"@,
        SandboxError::NotFound(_) => "not_found"@,
        SandboxError::CapacityExceeded(_) => "capacity_exceeded"@,
        SandboxError::Timeout(_) => "timeout"@,
        SandboxError::RunnerUnavailable(_) => "runner_unavailable"@,
    }
}

/// The metrics label of a backend error.
pub fn sandbox_error_type(error: &SandboxError) -> (r: &'static str)
    ensures
        r@ == error_type_label(*error),
{
    match error {
        SandboxError::CreationFailed(_) => "creation_failed",
        SandboxError::ExecutionFailed(_) => "execution_failed",
        SandboxError::FileError(_) => "file_error",
        SandboxError::NotFound(_) => "not_found",
        SandboxError::CapacityExceeded(_) => "capacity_exceeded",
        SandboxError::Timeout(_) => "timeout",
        SandboxError::RunnerUnavailable(_) => "runner_unavailable",
    }
}

} // verus!
