//! Sandbox execution tools: the requests they make of a session's sandbox.
//! Argument extraction, session creation, execution and the JSON replies
//! are the host's part.

use vstd::prelude::*;

use crate::ids::fresh_id;
use crate::sandbox::types::{ConfigView, ExecutionMode, ExecutionRequest, Language, SandboxConfig};
use crate::text::{concat, lowercase, owned, str_eq, to_lowercase};

verus! {

/// A language name the tools do not run.
pub struct UnsupportedLanguage {
    /// The name as matched, lowercased.
    pub name: String,
}

impl UnsupportedLanguage {
    /// `unsupported language: <name>`.
    pub fn message(&self) -> (r: String)
        ensures
            r@ == "unsupported language: "@ + self.name@,
    {
        concat("unsupported language: ", self.name.as_str())
    }
}

/// The language a lowercased name denotes, with its common aliases.
pub open spec fn language_named(s: Seq<char>) -> Option<Language> {
    if s == "bash"@ || s == "sh"@ {
        Some(Language::Bash)
    } else if s == "python"@ || s == "py"@ {
        Some(Language::Python)
    } else if s == "rust"@ || s == "rs"@ {
        Some(Language::Rust)
    } else if s == "node"@ || s == "nodejs"@ || s == "javascript"@ || s == "js"@ {
        Some(Language::Node)
    } else {
        None
    }
}

/// Parse a language name, case-insensitively.
pub fn parse_language(s: &str) -> (r: Result<Language, UnsupportedLanguage>)
    ensures
        match r {
            Ok(l) => language_named(lowercase(s@)) == Some(l),
            Err(e) => language_named(lowercase(s@)) is None && e.name@ == lowercase(s@),
        },
{
    let lowered = to_lowercase(s);
    let l = lowered.as_str();
    if str_eq(l, "bash") || str_eq(l, "sh") {
        Ok(Language::Bash)
    } else if str_eq(l, "python") || str_eq(l, "py") {
        Ok(Language::Python)
    } else if str_eq(l, "rust") || str_eq(l, "rs") {
        Ok(Language::Rust)
    } else if str_eq(l, "node") || str_eq(l, "nodejs") || str_eq(l, "javascript") || str_eq(l, "js") {
        Ok(Language::Node)
    } else {
        Err(UnsupportedLanguage { name: lowered })
    }
}

/// A session identity for a call that names none: fresh and random.
pub fn default_session_id() -> (r: String)
    ensures
        exists|b: Seq<u8>| crate::ids::v4_bytes(b) && r@ == crate::ids::hyphenated(b),
{
    fresh_id()
}

/// The default configuration with the caller's timeout, if given.
pub open spec fn with_timeout(c: ConfigView, timeout_seconds: Option<u64>) -> ConfigView {
    match timeout_seconds {
        Some(t) => ConfigView { timeout_secs: t, ..c },
        None => c,
    }
}

fn configured(default: &SandboxConfig, timeout_seconds: Option<u64>) -> (r: SandboxConfig)
    ensures
        r.view() == with_timeout(default.view(), timeout_seconds),
{
    let mut config = default.duplicate();
    match timeout_seconds {
        Some(t) => config.timeout_secs = t,
        None => {},
    }
    config
}

/// A request that runs `code` in the named session.
pub open spec fn session_request(r: ExecutionRequest, language: Language, code: Seq<char>, session_id: Seq<char>, timeout_seconds: Option<u64>) -> bool {
    &&& r.language == language
    &&& r.code@ == code
    &&& r.stdin is None
    &&& r.env@.len() == 0
    &&& r.cwd is None
    &&& r.timeout_seconds == timeout_seconds
    &&& r.mode matches ExecutionMode::Session { session_id: s } && s@ == session_id
}

fn make_request(language: Language, code: &str, session_id: &str, timeout_seconds: Option<u64>) -> (r: ExecutionRequest)
    ensures
        session_request(r, language, code@, session_id@, timeout_seconds),
{
    ExecutionRequest {
        language,
        code: owned(code),
        stdin: None,
        env: Vec::new(),
        cwd: None,
        timeout_seconds,
        mode: ExecutionMode::Session { session_id: owned(session_id) },
    }
}

/// Execute code in a sandboxed environment.
pub struct SandboxCodeExecTool {
    default_config: SandboxConfig,
}

impl SandboxCodeExecTool {
    pub closed spec fn config_view(&self) -> ConfigView {
        self.default_config.view()
    }

    pub fn new(default_config: SandboxConfig) -> (r: SandboxCodeExecTool)
        ensures
            r.config_view() == default_config.view(),
    {
        SandboxCodeExecTool { default_config }
    }

    pub fn name(&self) -> (r: &'static str)
        ensures
            r@ == "code_exec"@,
    {
        "code_exec"
    }

    pub fn description(&self) -> (r: &'static str)
        ensures
            r@ == "Execute code in a sandboxed environment"@,
    {
        "Execute code in a sandboxed environment"
    }

    /// The session configuration and request for one call.
    pub fn request(&self, language: &str, code: &str, session_id: &str, timeout_seconds: Option<u64>) -> (r: Result<(SandboxConfig, ExecutionRequest), UnsupportedLanguage>)
        ensures
            match r {
                Ok((c, q)) => language_named(lowercase(language@)) matches Some(l) && c.view() == with_timeout(self.config_view(), timeout_seconds)
                    && session_request(q, l, code@, session_id@, timeout_seconds),
                Err(e) => language_named(lowercase(language@)) is None && e.name@ == lowercase(language@),
            },
    {
        let l = match parse_language(language) {
            Ok(l) => l,
            Err(e) => return Err(e),
        };
        let config = configured(&self.default_config, timeout_seconds);
        Ok((config, make_request(l, code, session_id, timeout_seconds)))
    }
}

/// Execute a shell command in a sandboxed environment.
pub struct SandboxShellExecTool {
    default_config: SandboxConfig,
}

impl SandboxShellExecTool {
    pub closed spec fn config_view(&self) -> ConfigView {
        self.default_config.view()
    }

    pub fn new(default_config: SandboxConfig) -> (r: SandboxShellExecTool)
        ensures
            r.config_view() == default_config.view(),
    {
        SandboxShellExecTool { default_config }
    }

    pub fn name(&self) -> (r: &'static str)
        ensures
            r@ == "shell_exec"@,
    {
        "shell_exec"
    }

    pub fn description(&self) -> (r: &'static str)
        ensures
            r@ == "Execute a shell command in a sandboxed environment"@,
    {
        "Execute a shell command in a sandboxed environment"
    }

    /// The session configuration and a Bash request running `command`.
    pub fn request(&self, command: &str, session_id: &str, timeout_seconds: Option<u64>) -> (r: (SandboxConfig, ExecutionRequest))
        ensures
            r.0.view() == with_timeout(self.config_view(), timeout_seconds),
            session_request(r.1, Language::Bash, command@, session_id@, timeout_seconds),
    {
        (configured(&self.default_config, timeout_seconds), make_request(Language::Bash, command, session_id, timeout_seconds))
    }
}

/// Read a file from a sandbox workspace.
pub struct SandboxFileReadTool {
    default_config: SandboxConfig,
}

impl SandboxFileReadTool {
    pub closed spec fn config_view(&self) -> ConfigView {
        self.default_config.view()
    }

    pub fn new(default_config: SandboxConfig) -> (r: SandboxFileReadTool)
        ensures
            r.config_view() == default_config.view(),
    {
        SandboxFileReadTool { default_config }
    }

    pub fn name(&self) -> (r: &'static str)
        ensures
            r@ == "file_read"@,
    {
        "file_read"
    }

    pub fn description(&self) -> (r: &'static str)
        ensures
            r@ == "Read a file from a sandbox workspace"@,
    {
        "Read a file from a sandbox workspace"
    }

    /// The configuration for the session the file is read from.
    pub fn config(&self) -> (r: SandboxConfig)
        ensures
            r.view() == self.config_view(),
    {
        self.default_config.duplicate()
    }
}

/// Write a file to a sandbox workspace.
pub struct SandboxFileWriteTool {
    default_config: SandboxConfig,
}

impl SandboxFileWriteTool {
    pub closed spec fn config_view(&self) -> ConfigView {
        self.default_config.view()
    }

    pub fn new(default_config: SandboxConfig) -> (r: SandboxFileWriteTool)
        ensures
            r.config_view() == default_config.view(),
    {
        SandboxFileWriteTool { default_config }
    }

    pub fn name(&self) -> (r: &'static str)
        ensures
            r@ == "file_write"@,
    {
        "file_write"
    }

    pub fn description(&self) -> (r: &'static str)
        ensures
            r@ == "Write a file to a sandbox workspace"@,
    {
        "Write a file to a sandbox workspace"
    }

    /// The configuration for the session the file is written to.
    pub fn config(&self) -> (r: SandboxConfig)
        ensures
            r.view() == self.config_view(),
    {
        self.default_config.duplicate()
    }
}


/// Every language name the code-execution tool advertises (`bash`,
/// `python`, `rust`, `node`) parses to its language, and so does each alias.
pub proof fn law_advertised_language_names_parse(l: Language)
    ensures
        language_named(crate::sandbox::execution::language_label(l)) == Some(l),
        language_named("node"@) == Some(Language::Node),
        language_named("nodejs"@) == Some(Language::Node),
        language_named("javascript"@) == Some(Language::Node),
        language_named("js"@) == Some(Language::Node),
        language_named("bash"@) == Some(Language::Bash),
        language_named("sh"@) == Some(Language::Bash),
        language_named("python"@) == Some(Language::Python),
        language_named("py"@) == Some(Language::Python),
        language_named("rust"@) == Some(Language::Rust),
        language_named("rs"@) == Some(Language::Rust),
{
    reveal_strlit("bash");
    reveal_strlit("sh");
    reveal_strlit("python");
    reveal_strlit("py");
    reveal_strlit("rust");
    reveal_strlit("rs");
    reveal_strlit("node");
    reveal_strlit("nodejs");
    reveal_strlit("javascript");
    reveal_strlit("js");
    assert("bash"@.len() == 4 && "bash"@[0] == 'b' && "bash"@[1] == 'a');
    assert("sh"@.len() == 2 && "sh"@[0] == 's' && "sh"@[1] == 'h');
    assert("python"@.len() == 6 && "python"@[0] == 'p' && "python"@[1] == 'y');
    assert("py"@.len() == 2 && "py"@[0] == 'p' && "py"@[1] == 'y');
    assert("rust"@.len() == 4 && "rust"@[0] == 'r' && "rust"@[1] == 'u');
    assert("rs"@.len() == 2 && "rs"@[0] == 'r' && "rs"@[1] == 's');
    assert("node"@.len() == 4 && "node"@[0] == 'n' && "node"@[1] == 'o');
    assert("nodejs"@.len() == 6 && "nodejs"@[0] == 'n' && "nodejs"@[1] == 'o');
    assert("javascript"@.len() == 10 && "javascript"@[0] == 'j' && "javascript"@[1] == 'a');
    assert("js"@.len() == 2 && "js"@[0] == 'j' && "js"@[1] == 's');
}


/// A caller's timeout replaces only the timeout of the tool's configuration;
/// without one the configuration is the tool's own.
pub proof fn law_caller_timeout_replaces_only_the_timeout(c: ConfigView, t: u64)
    ensures
        with_timeout(c, None) == c,
        with_timeout(c, Some(t)).timeout_secs == t,
        with_timeout(c, Some(t)).image == c.image && with_timeout(c, Some(t)).memory_mib == c.memory_mib
            && with_timeout(c, Some(t)).cpus == c.cpus && with_timeout(c, Some(t)).network_enabled == c.network_enabled
            && with_timeout(c, Some(t)).volumes == c.volumes && with_timeout(c, Some(t)).env_vars == c.env_vars,
{
}

/// A tool request runs exactly the given code in the named session, with no
/// input, environment or working directory of its own and the caller's
/// timeout.
pub proof fn law_tool_requests_run_in_their_session(
    r: ExecutionRequest,
    language: Language,
    code: Seq<char>,
    session_id: Seq<char>,
    timeout_seconds: Option<u64>,
)
    requires
        session_request(r, language, code, session_id, timeout_seconds),
    ensures
        r.language == language,
        r.code@ == code,
        r.stdin is None,
        r.env@.len() == 0,
        r.cwd is None,
        r.timeout_seconds == timeout_seconds,
        r.mode matches ExecutionMode::Session { session_id: s } && s@ == session_id,
{
}

} // verus!
