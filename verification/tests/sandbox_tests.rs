use universal_agent_runtime::sandbox::bindings::{SandboxBinding, SandboxBindingError, SandboxPermissions};
use universal_agent_runtime::sandbox::execution::{
    cleanup_confirmed, effective_timeout, next_phase, sandbox_error_type, sandbox_language_label,
    sandbox_runner_type_label, start_failure, unconfirmed, OperationEvent, SandboxExecutionError,
    SandboxOperationPhase,
};
use universal_agent_runtime::sandbox::mcp_tools::{
    parse_language, SandboxCodeExecTool, SandboxFileReadTool, SandboxFileWriteTool, SandboxShellExecTool,
};
use universal_agent_runtime::sandbox::runner::{profile, RunnerCapabilities, RunnerProfile, RunnerType, SandboxRunner};
use universal_agent_runtime::sandbox::session_manager::{SessionLookup, SessionManager};
use universal_agent_runtime::sandbox::types::{
    default_config, ExecutionMode, ExecutionRequest, Language, SandboxError, SandboxHandle,
};
use universal_agent_runtime::sandbox::wasmtime_runner::WasmtimeRunner;

fn remote(id: u64, networking: bool) -> RunnerProfile {
    RunnerProfile {
        id,
        enforces_isolation: true,
        capabilities: RunnerCapabilities {
            supports_long_running: true,
            supports_networking: networking,
            max_execution_seconds: None,
            runner_type: RunnerType::Remote,
        },
    }
}

fn handle(id: &str) -> SandboxHandle {
    SandboxHandle { id: id.to_string(), session_id: None }
}

fn ephemeral(env: Vec<(String, String)>) -> ExecutionRequest {
    ExecutionRequest {
        language: Language::Python,
        code: "print(1)".to_string(),
        stdin: None,
        env,
        cwd: None,
        timeout_seconds: None,
        mode: ExecutionMode::Ephemeral,
    }
}

#[test]
fn languages_run_with_their_interpreters() {
    assert_eq!(Language::Bash.command(), "bash");
    assert_eq!(Language::Python.command(), "python3");
    assert_eq!(Language::Rust.command(), "rustc");
    assert_eq!(Language::Node.command(), "node");
    assert_eq!(Language::Python.exec_args("x=1"), vec!["-c".to_string(), "x=1".to_string()]);
    assert_eq!(Language::Node.exec_args("x"), vec!["-e".to_string(), "x".to_string()]);
    assert_eq!(Language::Rust.exec_args("fn main(){}"), vec!["--edition=2021".to_string(), "-".to_string()]);
}

#[test]
fn language_names_are_case_insensitive_with_aliases() {
    assert_eq!(parse_language("PY").ok(), Some(Language::Python));
    assert_eq!(parse_language("sh").ok(), Some(Language::Bash));
    assert_eq!(parse_language("JavaScript").ok(), Some(Language::Node));
    assert_eq!(parse_language("rs").ok(), Some(Language::Rust));
    assert_eq!(parse_language("COBOL").err().unwrap().message(), "unsupported language: cobol");
}

#[test]
fn the_default_config_is_closed_and_short_lived() {
    let c = default_config();
    assert_eq!(c.image, "ubuntu:22.04");
    assert_eq!(c.memory_mib, 512);
    assert_eq!(c.cpus, 1);
    assert!(!c.network_enabled);
    assert!(c.volumes.is_empty() && c.env_vars.is_empty());
    assert_eq!(c.timeout_secs, 300);
}

#[test]
fn sandbox_error_messages() {
    assert_eq!(SandboxError::CapacityExceeded(4).message(), "Max concurrent sandboxes reached (4)");
    assert_eq!(SandboxError::Timeout(30).message(), "Execution timed out after 30s");
    assert_eq!(SandboxError::NotFound("s1".to_string()).message(), "Sandbox not found: s1");
    assert_eq!(sandbox_error_type(&SandboxError::FileError(String::new())), "file_error");
    assert_eq!(sandbox_language_label(&Language::Python), "python");
    assert_eq!(sandbox_runner_type_label(RunnerType::MicroVm), "microsandbox");
}

#[test]
fn the_local_runner_does_not_isolate() {
    let runner = WasmtimeRunner::new();
    assert!(!runner.enforces_isolation());
    let caps = runner.capabilities();
    assert!(!caps.supports_networking);
    assert_eq!(caps.max_execution_seconds, Some(300));
    let p = profile(&runner, 7);
    assert_eq!(p.id, 7);
    assert!(!p.enforces_isolation);
    assert!(matches!(SandboxBinding::capture(p, default_config()).err(), Some(SandboxBindingError::NotIsolating)));
}

#[test]
fn capture_rejects_mounts_and_unsupported_networks() {
    let mut config = default_config();
    config.volumes.push(("/host".to_string(), "/data".to_string()));
    assert!(matches!(SandboxBinding::capture(remote(1, true), config).err(), Some(SandboxBindingError::MountsUnsupported)));
    let mut config = default_config();
    config.network_enabled = true;
    assert!(matches!(SandboxBinding::capture(remote(1, false), config).err(), Some(SandboxBindingError::NetworkUnsupported)));
    assert_eq!(
        SandboxBindingError::NetworkUnsupported.message(),
        "Sandbox backend cannot enforce the requested network configuration"
    );
}

#[test]
fn children_receive_only_narrowed_grants() {
    let mut config = default_config();
    config.network_enabled = true;
    config.env_vars = vec![("A".to_string(), "1".to_string()), ("B".to_string(), "2".to_string())];
    let binding = SandboxBinding::capture(remote(1, true), config).ok().unwrap();
    let grants = binding.permissions(());
    assert!(grants.network_enabled);
    assert!(grants.filesystem.is_empty());
    assert_eq!(grants.environment.len(), 2);

    let child = SandboxPermissions { execution_mode: (), network_enabled: false, filesystem: Vec::new(), environment: vec![grants.environment[0].clone()] };
    let narrowed = binding.for_permissions(&child).ok().unwrap();
    let narrowed_grants = narrowed.permissions(());
    assert!(!narrowed_grants.network_enabled);
    assert_eq!(narrowed_grants.environment, vec![grants.environment[0].clone()]);

    let config = narrowed.execution_config(&remote(1, true), &ephemeral(Vec::new())).ok().unwrap();
    assert!(!config.network_enabled);
    assert_eq!(config.env_vars.len(), 1);

    let widen = SandboxPermissions { execution_mode: (), network_enabled: true, filesystem: Vec::new(), environment: Vec::new() };
    assert!(matches!(narrowed.for_permissions(&widen).err(), Some(SandboxBindingError::NetworkWidened)));
    let unknown = SandboxPermissions { execution_mode: (), network_enabled: false, filesystem: Vec::new(), environment: vec!["nope".to_string()] };
    assert!(matches!(binding.for_permissions(&unknown).err(), Some(SandboxBindingError::EnvironmentNotInherited)));
    let files = SandboxPermissions { execution_mode: (), network_enabled: false, filesystem: vec!["/tmp".to_string()], environment: Vec::new() };
    assert!(matches!(binding.for_permissions(&files).err(), Some(SandboxBindingError::FilesystemUnsupported)));
}

#[test]
fn execution_config_guards_backend_mode_and_host_variables() {
    let mut config = default_config();
    config.env_vars = vec![("TOKEN".to_string(), "x".to_string())];
    let binding = SandboxBinding::capture(remote(3, false), config).ok().unwrap();
    assert!(matches!(binding.execution_config(&remote(4, false), &ephemeral(Vec::new())).err(), Some(SandboxBindingError::OtherBackend)));
    let mut session = ephemeral(Vec::new());
    session.mode = ExecutionMode::Session { session_id: "s".to_string() };
    assert!(matches!(binding.execution_config(&remote(3, false), &session).err(), Some(SandboxBindingError::NotEphemeral)));
    let overriding = ephemeral(vec![("TOKEN".to_string(), "y".to_string())]);
    assert!(matches!(binding.execution_config(&remote(3, false), &overriding).err(), Some(SandboxBindingError::ProtectedEnvironment)));
    let fine = ephemeral(vec![("OTHER".to_string(), "y".to_string())]);
    assert_eq!(binding.execution_config(&remote(3, false), &fine).ok().unwrap().env_vars.len(), 1);
}

#[test]
fn sessions_are_reused_bounded_and_expired() {
    let mut manager = SessionManager::new(remote(1, false), 10, 1);
    assert_eq!(manager.active_count(), 0);
    assert!(matches!(manager.lookup("a", 0), SessionLookup::Create));
    manager.record("a", handle("h-a"), default_config(), 0);
    assert_eq!(manager.active_count(), 1);
    match manager.lookup("a", 5_000_000_000) {
        SessionLookup::Existing(h) => assert_eq!(h.id, "h-a"),
        _ => panic!("expected the existing session"),
    }
    match manager.lookup("b", 6_000_000_000) {
        SessionLookup::Full(e) => assert_eq!(e.message(), "Max concurrent sandboxes reached (1)"),
        _ => panic!("expected capacity to be exceeded"),
    }
    assert!(manager.expired(15_000_000_000).is_empty());
    let expired = manager.expired(15_000_000_001);
    assert_eq!(expired.len(), 1);
    assert_eq!(expired[0].0, "a");
    assert_eq!(manager.remove("a").map(|h| h.id), Some("h-a".to_string()));
    assert!(manager.remove("a").is_none());
    assert_eq!(manager.active_count(), 0);
    assert_eq!(manager.runner().id, 1);
}

#[test]
fn operations_move_through_their_phases() {
    let start = OperationEvent::Start { cancelled: false, deadline_representable: true, deadline_passed: false };
    let mut phase = next_phase(SandboxOperationPhase::Pending, start);
    assert_eq!(phase, SandboxOperationPhase::Creating);
    phase = next_phase(phase, OperationEvent::Created);
    assert_eq!(phase, SandboxOperationPhase::Executing);
    phase = next_phase(phase, OperationEvent::Executed);
    assert_eq!(phase, SandboxOperationPhase::Destroying);
    assert!(!cleanup_confirmed(phase));
    phase = next_phase(phase, OperationEvent::Destroyed);
    assert_eq!(phase, SandboxOperationPhase::Released);
    assert!(cleanup_confirmed(phase));

    let failed = next_phase(SandboxOperationPhase::Creating, OperationEvent::CreationFailed);
    assert_eq!(failed, SandboxOperationPhase::CreationUnconfirmed);
    assert_eq!(next_phase(failed, OperationEvent::Created), SandboxOperationPhase::CreationUnconfirmed);
    assert_eq!(next_phase(SandboxOperationPhase::Executing, OperationEvent::WorkerFailed), SandboxOperationPhase::CleanupUnconfirmed);
    assert_eq!(next_phase(SandboxOperationPhase::Pending, OperationEvent::WorkerFailed), SandboxOperationPhase::Released);
    let cancelled = OperationEvent::Start { cancelled: true, deadline_representable: true, deadline_passed: false };
    assert_eq!(next_phase(SandboxOperationPhase::Pending, cancelled), SandboxOperationPhase::Released);
}

#[test]
fn start_failures_and_timeouts() {
    assert!(matches!(start_failure(true, false, true), Some(SandboxExecutionError::Cancelled)));
    assert!(matches!(start_failure(false, false, true), Some(SandboxExecutionError::Unavailable)));
    assert!(matches!(start_failure(false, true, true), Some(SandboxExecutionError::DeadlineExceeded)));
    assert!(start_failure(false, true, false).is_none());
    assert_eq!(effective_timeout(Some(10), 300), 10);
    assert_eq!(effective_timeout(Some(900), 300), 300);
    assert_eq!(effective_timeout(None, 300), 300);
    assert_eq!(
        unconfirmed("op-1", "cleanup", None).message(),
        "Sandbox cleanup outcome is unconfirmed (operation op-1)"
    );
    assert_eq!(SandboxExecutionError::Cancelled.message(), "Sandbox execution cancelled");
}

#[test]
fn tools_build_session_requests() {
    let mut config = default_config();
    config.timeout_secs = 60;
    let code = SandboxCodeExecTool::new(config);
    assert_eq!(code.name(), "code_exec");
    let (c, r) = code.request("Python", "print(2)", "s1", Some(5)).ok().unwrap();
    assert_eq!(c.timeout_secs, 5);
    assert_eq!(r.language, Language::Python);
    assert_eq!(r.timeout_seconds, Some(5));
    assert!(matches!(r.mode, ExecutionMode::Session { ref session_id } if session_id == "s1"));
    assert!(code.request("cobol", "", "s1", None).is_err());
    let (c, _) = code.request("bash", "ls", "s1", None).ok().unwrap();
    assert_eq!(c.timeout_secs, 60);

    let shell = SandboxShellExecTool::new(default_config());
    let (_, r) = shell.request("ls -la", "s2", None);
    assert_eq!(r.language, Language::Bash);
    assert_eq!(r.code, "ls -la");
    assert_eq!(shell.name(), "shell_exec");
    assert_eq!(SandboxFileReadTool::new(default_config()).name(), "file_read");
    assert_eq!(SandboxFileWriteTool::new(default_config()).config().timeout_secs, 300);
}

#[test]
fn expired_sessions_carry_their_own_handles() {
    let mut manager = SessionManager::new(remote(1, false), 1, 4);
    manager.record("a", SandboxHandle { id: "h-a".to_string(), session_id: Some("a".to_string()) }, default_config(), 0);
    manager.record("b", SandboxHandle { id: "h-b".to_string(), session_id: Some("b".to_string()) }, default_config(), 0);
    manager.record("c", SandboxHandle { id: "h-c".to_string(), session_id: Some("c".to_string()) }, default_config(), 5_000_000_000);
    let expired = manager.expired(3_000_000_000);
    assert_eq!(expired.len(), 2);
    assert_eq!(expired[1].0, "b");
    assert_eq!(expired[1].1.id, "h-b");
    assert_eq!(expired[1].1.session_id.as_deref(), Some("b"));
    match manager.lookup("c", 5_500_000_000) {
        SessionLookup::Existing(h) => assert_eq!(h.session_id.as_deref(), Some("c")),
        _ => panic!("expected the existing session"),
    }
}

#[test]
fn capture_grants_one_identity_per_variable_name() {
    let mut config = default_config();
    config.env_vars = vec![
        ("A".to_string(), "1".to_string()),
        ("B".to_string(), "2".to_string()),
        ("A".to_string(), "3".to_string()),
    ];
    let binding = SandboxBinding::capture(remote(1, false), config).ok().unwrap();
    let ids = binding.permissions(()).environment;
    assert_eq!(ids.len(), 2);
    assert_ne!(ids[0], ids[1]);
    assert_eq!(ids[0].len(), 36);
}
