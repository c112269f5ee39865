//! Sandbox configuration, requests, results and errors.

use vstd::prelude::*;

use crate::normalized::{decimal, decimal_text};
use crate::text::{concat, owned};

verus! {

/// Resources and limits of one sandbox. `volumes` and `env_vars` are
/// name/value pairs with distinct names.
pub struct SandboxConfig {
    pub image: String,
    pub memory_mib: u32,
    pub cpus: u32,
    pub network_enabled: bool,
    pub volumes: Vec<(String, String)>,
    pub env_vars: Vec<(String, String)>,
    pub timeout_secs: u64,
}

/// The default sandbox: Ubuntu 22.04, 512 MiB, one CPU, no network, no
/// volumes or variables, and a 300 second limit.
pub fn default_config() -> (r: SandboxConfig)
    ensures
        r.image@ == "ubuntu:22.04"@,
        r.memory_mib == 512,
        r.cpus == 1,
        !r.network_enabled,
        r.volumes@.len() == 0,
        r.env_vars@.len() == 0,
        r.timeout_secs == 300,
{
    SandboxConfig {
        image: owned("ubuntu:22.04"),
        memory_mib: 512,
        cpus: 1,
        network_enabled: false,
        volumes: Vec::new(),
        env_vars: Vec::new(),
        timeout_secs: 300,
    }
}

/// Copy of a list of name/value pairs.
pub fn copy_pairs(v: &Vec<(String, String)>) -> (r: Vec<(String, String)>)
    ensures
        pair_views(r@) == pair_views(v@),
{
    let mut r: Vec<(String, String)> = Vec::new();
    let mut i: usize = 0;
    while i < v.len()
        invariant
            i <= v@.len(),
            pair_views(r@) == pair_views(v@).subrange(0, i as int),
        decreases v.len() - i,
    {
        let ghost before = r@;
        r.push((owned(v[i].0.as_str()), owned(v[i].1.as_str())));
        assert(pair_views(r@) =~= pair_views(before).push((v@[i as int].0@, v@[i as int].1@)));
        assert(pair_views(v@).subrange(0, i + 1) =~= pair_views(v@).subrange(0, i as int).push(pair_views(v@)[i as int]));
        i = i + 1;
    }
    assert(pair_views(v@).subrange(0, v@.len() as int) =~= pair_views(v@));
    r
}

pub open spec fn pair_views(v: Seq<(String, String)>) -> Seq<(Seq<char>, Seq<char>)> {
    v.map_values(|p: (String, String)| (p.0@, p.1@))
}

pub struct ConfigView {
    pub image: Seq<char>,
    pub memory_mib: u32,
    pub cpus: u32,
    pub network_enabled: bool,
    pub volumes: Seq<(Seq<char>, Seq<char>)>,
    pub env_vars: Seq<(Seq<char>, Seq<char>)>,
    pub timeout_secs: u64,
}

impl SandboxConfig {
    pub open spec fn view(&self) -> ConfigView {
        ConfigView {
            image: self.image@,
            memory_mib: self.memory_mib,
            cpus: self.cpus,
            network_enabled: self.network_enabled,
            volumes: pair_views(self.volumes@),
            env_vars: pair_views(self.env_vars@),
            timeout_secs: self.timeout_secs,
        }
    }

    /// An identical copy.
    pub fn duplicate(&self) -> (r: SandboxConfig)
        ensures
            r.view() == self.view(),
    {
        SandboxConfig {
            image: owned(self.image.as_str()),
            memory_mib: self.memory_mib,
            cpus: self.cpus,
            network_enabled: self.network_enabled,
            volumes: copy_pairs(&self.volumes),
            env_vars: copy_pairs(&self.env_vars),
            timeout_secs: self.timeout_secs,
        }
    }
}

/// A created sandbox.
pub struct SandboxHandle {
    pub id: String,
    pub session_id: Option<String>,
}

/// A sandbox handle's identity and the session it belongs to, if any.
pub struct HandleView {
    pub id: Seq<char>,
    pub session_id: Option<Seq<char>>,
}

impl SandboxHandle {
    pub open spec fn view(&self) -> HandleView {
        HandleView {
            id: self.id@,
            session_id: match self.session_id {
                Some(s) => Some(s@),
                None => None,
            },
        }
    }

    /// An identical copy.
    pub fn duplicate(&self) -> (r: SandboxHandle)
        ensures
            r.view() == self.view(),
            r.id@ == self.id@,
            match (r.session_id, self.session_id) {
                (Some(a), Some(b)) => a@ == b@,
                (None, None) => true,
                _ => false,
            },
    {
        SandboxHandle {
            id: owned(self.id.as_str()),
            session_id: match &self.session_id {
                Some(s) => Some(owned(s.as_str())),
                None => None,
            },
        }
    }
}

/// The languages a sandbox can run.
#[derive(Clone, Copy, PartialEq, Eq, Structural, Debug)]
pub enum Language {
    Bash,
    Python,
    Rust,
    Node,
}

pub open spec fn command_of(l: Language) -> Seq<char> {
    match l {
        Language::Bash => "bash"@,
        Language::Python => "python3"@,
        Language::Rust => "rustc"@,
        Language::Node => "node"@,
    }
}

/// The arguments that run `code`: inline for interpreters, standard input
/// for the Rust compiler.
pub open spec fn exec_args_of(l: Language, code: Seq<char>) -> Seq<Seq<char>> {
    match l {
        Language::Bash => seq!["-c"@, code],
        Language::Python => seq!["-c"@, code],
        Language::Node => seq!["-e"@, code],
        Language::Rust => seq!["--edition=2021"@, "-"@],
    }
}

impl Language {
    /// The program that runs this language.
    pub fn command(&self) -> (r: &'static str)
        ensures
            r@ == command_of(*self),
    {
        match self {
            Language::Bash => "bash",
            Language::Python => "python3",
            Language::Rust => "rustc",
            Language::Node => "node",
        }
    }

    /// The program arguments that run `code`.
    pub fn exec_args(&self, code: &str) -> (r: Vec<String>)
        ensures
            crate::text::views(r@) == exec_args_of(*self, code@),
    {
        let r = match self {
            Language::Bash => vec![owned("-c"), owned(code)],
            Language::Python => vec![owned("-c"), owned(code)],
            Language::Node => vec![owned("-e"), owned(code)],
            Language::Rust => vec![owned("--edition=2021"), owned("-")],
        };
        assert(crate::text::views(r@) =~= exec_args_of(*self, code@));
        r
    }
}

/// Whether an execution lives only for one request or in a named session.
pub enum ExecutionMode {
    Ephemeral,
    Session { session_id: String },
    Project { session_id: String, repo_url: Option<String> },
}

/// One code execution.
pub struct ExecutionRequest {
    pub language: Language,
    pub code: String,
    pub stdin: Option<String>,
    pub env: Vec<(String, String)>,
    pub cwd: Option<String>,
    pub timeout_seconds: Option<u64>,
    pub mode: ExecutionMode,
}

/// What an execution produced.
pub struct ExecutionResult {
    pub exit_code: i32,
    pub stdout: String,
    pub stderr: String,
    pub execution_time_ms: u64,
}

/// Backend failures.
pub enum SandboxError {
    CreationFailed(String),
    ExecutionFailed(String),
    FileError(String),
    NotFound(String),
    CapacityExceeded(usize),
    Timeout(u64),
    RunnerUnavailable(String),
}

pub open spec fn sandbox_error_text(e: SandboxError) -> Seq<char> {
    match e {
        SandboxError::CreationFailed(s) => "Sandbox creation failed: "@ + s@,
        SandboxError::ExecutionFailed(s) => "Execution failed: "@ + s@,
        SandboxError::FileError(s) => "File I/O error: "@ + s@,
        SandboxError::NotFound(s) => "Sandbox not found: "@ + s@,
        SandboxError::CapacityExceeded(n) => "Max concurrent sandboxes reached ("@ + decimal_text(n as nat) + ")"@,
        SandboxError::Timeout(t) => "Execution timed out after "@ + decimal_text(t as nat) + "s"@,
        SandboxError::RunnerUnavailable(s) => "Runner not available: "@ + s@,
    }
}

impl SandboxError {
    /// The human-readable description.
    pub fn message(&self) -> (r: String)
        ensures
            r@ == sandbox_error_text(*self),
    {
        match self {
            SandboxError::CreationFailed(s) => concat("Sandbox creation failed: ", s.as_str()),
            SandboxError::ExecutionFailed(s) => concat("Execution failed: ", s.as_str()),
            SandboxError::FileError(s) => concat("File I/O error: ", s.as_str()),
            SandboxError::NotFound(s) => concat("Sandbox not found: ", s.as_str()),
            SandboxError::CapacityExceeded(n) => {
                let a = concat("Max concurrent sandboxes reached (", decimal(*n as u64).as_str());
                concat(a.as_str(), ")")
            },
            SandboxError::Timeout(t) => {
                let a = concat("Execution timed out after ", decimal(*t).as_str());
                concat(a.as_str(), "s")
            },
            SandboxError::RunnerUnavailable(s) => concat("Runner not available: ", s.as_str()),
        }
    }
}


/// The interpreters run the code text itself: bash and python take it after
/// `-c`, node after `-e`; only the Rust compiler reads it from standard input.
pub proof fn law_interpreters_run_the_code_inline(l: Language, code: Seq<char>)
    ensures
        (l == Language::Bash || l == Language::Python) ==> exec_args_of(l, code) == seq!["-c"@, code],
        l == Language::Node ==> exec_args_of(l, code) == seq!["-e"@, code],
        l != Language::Rust ==> exec_args_of(l, code).len() == 2 && exec_args_of(l, code)[1] == code,
{
}

} // verus!
