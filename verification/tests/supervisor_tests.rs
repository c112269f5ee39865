use universal_agent_runtime::sandbox::execution::{destroy_outcome, OperationEvent, SandboxExecutionError, SandboxOperationPhase};
use universal_agent_runtime::sandbox::types::{ExecutionResult, SandboxError};
use universal_agent_runtime::sandbox::runner::RunnerType;
use universal_agent_runtime::sandbox::supervisor::SandboxSupervisor;

fn start() -> OperationEvent {
    OperationEvent::Start { cancelled: false, deadline_representable: true, deadline_passed: false }
}

#[test]
fn runs_are_unique_and_refused_when_cancelled_late_or_closed() {
    let mut s = SandboxSupervisor::new();
    assert!(s.open_run("run-1", false, false).is_ok());
    assert!(matches!(s.open_run("run-1", false, false), Err(SandboxExecutionError::Unavailable)));
    assert!(matches!(s.open_run("run-2", true, false), Err(SandboxExecutionError::Unavailable)));
    assert!(matches!(s.open_run("run-2", false, true), Err(SandboxExecutionError::DeadlineExceeded)));
    let runs = s.shutdown();
    assert_eq!(runs.len(), 1);
    assert!(matches!(s.open_run("run-3", false, false), Err(SandboxExecutionError::Unavailable)));
}

#[test]
fn a_released_operation_is_forgotten() {
    let mut s = SandboxSupervisor::new();
    let run = s.open_run("run", false, false).ok().unwrap();
    let (op, id) = s.admit_operation(run, false, false, RunnerType::Remote).ok().unwrap();
    assert_eq!(id.len(), 36);
    assert_eq!(s.advance_operation(run, op, start(), None), Some(SandboxOperationPhase::Creating));
    assert_eq!(s.advance_operation(run, op, OperationEvent::Created, Some("sbx-1".to_string())), Some(SandboxOperationPhase::Executing));
    let snaps = s.operations();
    assert_eq!(snaps.len(), 1);
    assert_eq!(snaps[0].run_id, "run");
    assert_eq!(snaps[0].operation_id, id);
    assert_eq!(snaps[0].sandbox_id.as_deref(), Some("sbx-1"));
    assert_eq!(snaps[0].phase, SandboxOperationPhase::Executing);
    assert_eq!(s.advance_operation(run, op, OperationEvent::Executed, None), Some(SandboxOperationPhase::Destroying));
    assert_eq!(s.advance_operation(run, op, OperationEvent::Destroyed, None), Some(SandboxOperationPhase::Released));
    assert_eq!(s.operations()[0].sandbox_id, None);
    assert_eq!(s.finish_operation(run, op), Some(true));
    assert!(s.operations().is_empty());
    assert!(s.admit_operation(run, false, false, RunnerType::Remote).is_ok());
}

#[test]
fn an_unconfirmed_cleanup_is_retained_and_cancels_its_run() {
    let mut s = SandboxSupervisor::new();
    let run = s.open_run("run", false, false).ok().unwrap();
    let (op, _) = s.admit_operation(run, false, false, RunnerType::MicroVm).ok().unwrap();
    s.advance_operation(run, op, start(), None);
    s.advance_operation(run, op, OperationEvent::Created, Some("vm".to_string()));
    s.advance_operation(run, op, OperationEvent::Executed, None);
    assert_eq!(s.advance_operation(run, op, OperationEvent::DestructionFailed, None), Some(SandboxOperationPhase::CleanupUnconfirmed));
    assert_eq!(s.finish_operation(run, op), Some(false));
    assert_eq!(s.operations().len(), 1);
    assert!(matches!(s.admit_operation(run, false, false, RunnerType::MicroVm), Err(SandboxExecutionError::Unavailable)));
    let pending = s.drain(run).expect("run is registered");
    assert_eq!(pending, vec![op]);
    assert_eq!(s.settle_operation(run, op), Some(false));
    assert_eq!(s.operations().len(), 1);
    assert_eq!(s.operations()[0].phase, SandboxOperationPhase::CleanupUnconfirmed);
}

#[test]
fn a_worker_failure_before_creation_releases_the_operation() {
    let mut s = SandboxSupervisor::new();
    let run = s.open_run("run", false, false).ok().unwrap();
    let (op, _) = s.admit_operation(run, false, false, RunnerType::Wasmtime).ok().unwrap();
    assert_eq!(s.advance_operation(run, op, OperationEvent::WorkerFailed, None), Some(SandboxOperationPhase::Released));
    assert_eq!(s.settle_operation(run, op), Some(true));
    assert!(s.finish_run(run));
    assert!(!s.finish_run(run));
    assert_eq!(s.drain(run), None);
}

#[test]
fn admission_respects_cancellation_deadlines_and_drains() {
    let mut s = SandboxSupervisor::new();
    let run = s.open_run("run", false, false).ok().unwrap();
    assert!(matches!(s.admit_operation(run, true, false, RunnerType::Remote), Err(SandboxExecutionError::Unavailable)));
    assert!(matches!(s.admit_operation(run, false, true, RunnerType::Remote), Err(SandboxExecutionError::DeadlineExceeded)));
    assert_eq!(s.drain(run), Some(Vec::new()));
    assert!(matches!(s.admit_operation(run, false, false, RunnerType::Remote), Err(SandboxExecutionError::Unavailable)));
    assert!(matches!(s.admit_operation(999, false, false, RunnerType::Remote), Err(SandboxExecutionError::Unavailable)));
}

#[test]
fn destruction_decides_whether_the_result_stands() {
    let ok = || Ok(ExecutionResult { exit_code: 0, stdout: "hi".to_string(), stderr: String::new(), execution_time_ms: 3 });
    let (result, confirmed) = destroy_outcome("op-1", ok(), Ok(()));
    assert!(confirmed);
    assert_eq!(result.ok().map(|r| r.stdout), Some("hi".to_string()));
    let (result, confirmed) = destroy_outcome("op-1", ok(), Err(Some(SandboxError::NotFound("gone".to_string()))));
    assert!(!confirmed);
    match result {
        Err(SandboxExecutionError::Unconfirmed { operation_id, stage, source }) => {
            assert_eq!(operation_id, "op-1");
            assert_eq!(stage, "cleanup");
            assert!(source.is_some());
        },
        _ => panic!("an unanswered cleanup is unconfirmed"),
    }
    let (_, confirmed) = destroy_outcome("op-2", Err(SandboxExecutionError::Cancelled), Err(None));
    assert!(!confirmed);
}

#[test]
fn operations_are_listed_in_run_id_order() {
    let mut s = SandboxSupervisor::new();
    let late = s.open_run("run-b", false, false).ok().unwrap();
    let early = s.open_run("run-a", false, false).ok().unwrap();
    let middle = s.open_run("run-ab", false, false).ok().unwrap();
    assert!(s.admit_operation(late, false, false, RunnerType::Remote).is_ok());
    assert!(s.admit_operation(middle, false, false, RunnerType::Remote).is_ok());
    assert!(s.admit_operation(early, false, false, RunnerType::Remote).is_ok());
    let runs: Vec<String> = s.operations().into_iter().map(|o| o.run_id).collect();
    assert_eq!(runs, vec!["run-a".to_string(), "run-ab".to_string(), "run-b".to_string()]);
}
