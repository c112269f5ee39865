//! MCP server declarations and their admission rules, plus placeholder
//! expansion against a host-supplied environment snapshot.

use vstd::prelude::*;
use vstd::string::*;

use crate::mcp::placeholder::{env_view, expanded, placeholders, substitute, unresolved_names};
use crate::text::{chars_of, is_blank, owned, str_eq, str_is_blank, views};

verus! {

/// A header value in a remote server's configuration.
pub enum McpHttpHeaderValue {
    /// A non-secret header value. Credential-bearing headers must use SecretRef.
    Literal(String),
    /// Resolve an environment-backed secret without serializing its bytes.
    SecretRef {
        /// Currently supported form: `env:VARIABLE_NAME`.
        secret_ref: String,
        /// Opaque non-secret identity changed whenever the credential changes.
        credential_revision: String,
    },
}

pub enum HeaderValueView {
    Literal(Seq<char>),
    SecretRef { secret_ref: Seq<char>, credential_revision: Seq<char> },
}

impl McpHttpHeaderValue {
    pub open spec fn view(&self) -> HeaderValueView {
        match self {
            McpHttpHeaderValue::Literal(v) => HeaderValueView::Literal(v@),
            McpHttpHeaderValue::SecretRef { secret_ref, credential_revision } => HeaderValueView::SecretRef {
                secret_ref: secret_ref@,
                credential_revision: credential_revision@,
            },
        }
    }
}

/// Administrator policy allowing verified embedding hosts to attach a
/// run-owned downstream credential to one exact destination.
pub struct RemoteHttpGrantPolicy {
    /// Authenticated host instance IDs allowed to delegate run credentials.
    pub trusted_hosts: Vec<String>,
    /// Every scope named here must be present in the run grant.
    pub required_scopes: Vec<String>,
    /// Permit plain HTTP only for loopback or literal private development IPs.
    pub allow_private_http: bool,
}

pub struct GrantPolicyView {
    pub trusted_hosts: Seq<Seq<char>>,
    pub required_scopes: Seq<Seq<char>>,
    pub allow_private_http: bool,
}

impl RemoteHttpGrantPolicy {
    pub open spec fn view(&self) -> GrantPolicyView {
        GrantPolicyView {
            trusted_hosts: views(self.trusted_hosts@),
            required_scopes: views(self.required_scopes@),
            allow_private_http: self.allow_private_http,
        }
    }
}

/// One configured server: a local stdio process or a remote HTTP endpoint.
/// Maps from the configuration file are held as lists of entries.
pub enum McpServerEntry {
    Stdio {
        command: String,
        args: Vec<String>,
        env: Vec<(String, String)>,
        /// Requires an OS sandbox. Rejected until a stdio sandbox backend exists.
        sandboxed: bool,
    },
    RemoteHttp {
        url: String,
        env: Vec<(String, String)>,
        /// Non-secret literals and protected environment references applied to
        /// every request in this server's HTTP session.
        headers: Vec<(String, McpHttpHeaderValue)>,
        /// Optional policy for delegating run-owned credentials.
        grant_policy: Option<RemoteHttpGrantPolicy>,
    },
}

pub enum EntryView {
    Stdio {
        command: Seq<char>,
        args: Seq<Seq<char>>,
        env: Seq<(Seq<char>, Seq<char>)>,
        sandboxed: bool,
    },
    RemoteHttp {
        url: Seq<char>,
        env: Seq<(Seq<char>, Seq<char>)>,
        headers: Seq<(Seq<char>, HeaderValueView)>,
        grant_policy: Option<GrantPolicyView>,
    },
}

pub open spec fn header_views(h: Seq<(String, McpHttpHeaderValue)>) -> Seq<(Seq<char>, HeaderValueView)> {
    h.map_values(|e: (String, McpHttpHeaderValue)| (e.0@, e.1.view()))
}

impl McpServerEntry {
    pub open spec fn view(&self) -> EntryView {
        match self {
            McpServerEntry::Stdio { command, args, env, sandboxed } => EntryView::Stdio {
                command: command@,
                args: views(args@),
                env: env_view(env@),
                sandboxed: *sandboxed,
            },
            McpServerEntry::RemoteHttp { url, env, headers, grant_policy } => EntryView::RemoteHttp {
                url: url@,
                env: env_view(env@),
                headers: header_views(headers@),
                grant_policy: match grant_policy {
                    Some(p) => Some(p.view()),
                    None => None,
                },
            },
        }
    }
}

/// Why a server declaration cannot be admitted.
#[derive(Clone, Copy, PartialEq, Eq, Structural, Debug)]
pub enum McpConfigIssue {
    /// `sandboxed: true`, but no OS-backed stdio sandbox backend exists.
    SandboxUnavailable,
    /// A remote server has a blank URL.
    MissingUrl,
    /// A header name is not a valid HTTP header name.
    InvalidHeaderName,
    /// The transport owns `host` and `mcp-session-id`.
    TransportOwnedHeader,
    /// Two header names normalize to the same header.
    DuplicateHeader,
    /// A credential header carries a literal instead of a secret reference.
    CredentialLiteral,
    /// A literal header value holds bytes that HTTP forbids.
    InvalidHeaderValue,
    /// A secret reference is not `env:` followed by `[A-Za-z0-9_]+`.
    InvalidSecretReference,
    /// A secret reference has a blank credential revision.
    MissingCredentialRevision,
    /// A grant policy names no trusted host, or a blank one.
    MissingTrustedHosts,
    /// A grant policy names a blank scope.
    EmptyScope,
}

/// A rejected server declaration and the reason.
pub struct McpConfigError {
    pub server: String,
    pub issue: McpConfigIssue,
}

/// A character `http` accepts in a header name: an ASCII letter or digit,
/// or one of the token symbols.
pub open spec fn header_name_char(c: char) -> bool {
    ('a' <= c && c <= 'z') || ('A' <= c && c <= 'Z') || ('0' <= c && c <= '9') || c == '!' || c == '#' || c == '$'
        || c == '%' || c == '&' || c == '\'' || c == '*' || c == '+' || c == '-' || c == '.' || c == '^' || c == '_'
        || c == '`' || c == '|' || c == '~'
}

/// The normalized form of a header name, or `None` where it is not a valid
/// header name, as `http::HeaderName::from_bytes` decides: 1 to 65535 header
/// name characters, with ASCII letters lowercased.
pub open spec fn header_name(raw: Seq<char>) -> Option<Seq<char>> {
    if 1 <= raw.len() && raw.len() <= 65535 && forall|k: int| 0 <= k < raw.len() ==> #[trigger] header_name_char(raw[k]) {
        Some(raw.map_values(|c: char| crate::ids::ascii_lower(c)))
    } else {
        None
    }
}

/// Calls `HeaderName::from_bytes` (re-exported by reqwest) on the name's UTF-8
/// bytes and returns the normalized name, as `header_name` states it.
#[verifier::external_body]
pub(crate) fn parse_header_name(raw: &str) -> (r: Option<String>)
    ensures
        match r {
            Some(h) => header_name(raw@) == Some(h@),
            None => header_name(raw@) is None,
        },
{
    match reqwest::header::HeaderName::from_bytes(raw.as_bytes()) {
        Ok(name) => Some(name.as_str().to_owned()),
        Err(_) => None,
    }
}

/// A byte that `http::HeaderValue` accepts: visible ASCII, tab or obs-text.
pub open spec fn header_value_byte(b: u8) -> bool {
    (b >= 32 && b != 127) || b == 9
}

/// Every UTF-8 byte of the value is accepted in an HTTP header value.
pub open spec fn header_value_ok(v: Seq<char>) -> bool {
    forall|i: int| 0 <= i < vstd::utf8::encode_utf8(v).len() ==> header_value_byte(#[trigger] vstd::utf8::encode_utf8(v)[i])
}

/// Calls `HeaderValue::from_bytes` (re-exported by reqwest), which accepts a
/// value exactly when every byte is visible ASCII, a tab, or at least 0x80.
#[verifier::external_body]
pub(crate) fn header_value_accepted(value: &str) -> (r: bool)
    ensures
        r == header_value_ok(value@),
{
    reqwest::header::HeaderValue::from_bytes(value.as_bytes()).is_ok()
}

/// Headers whose values are credentials and must come from secret references.
pub open spec fn sensitive_header(h: Seq<char>) -> bool {
    h == "authorization"@ || h == "proxy-authorization"@ || h == "cookie"@ || h == "set-cookie"@
        || h == "x-api-key"@ || h == "api-key"@
}

/// Whether a normalized header name carries credentials.
pub fn is_sensitive_header(name: &str) -> (r: bool)
    ensures
        r == sensitive_header(name@),
{
    str_eq(name, "authorization") || str_eq(name, "proxy-authorization") || str_eq(name, "cookie")
        || str_eq(name, "set-cookie") || str_eq(name, "x-api-key") || str_eq(name, "api-key")
}

/// A character allowed in an environment variable name of a secret reference.
pub open spec fn variable_char(c: char) -> bool {
    ('a' <= c && c <= 'z') || ('A' <= c && c <= 'Z') || ('0' <= c && c <= '9') || c == '_'
}

/// `env:` followed by one or more `[A-Za-z0-9_]`.
pub open spec fn valid_secret_ref(r: Seq<char>) -> bool {
    &&& r.len() > 4
    &&& r.subrange(0, 4) == "env:"@
    &&& forall|i: int| 4 <= i < r.len() ==> variable_char(#[trigger] r[i])
}

/// Normalized names of the headers before position `i`.
pub open spec fn names_before(headers: Seq<(Seq<char>, HeaderValueView)>, i: int) -> Set<Seq<char>> {
    Set::new(|h: Seq<char>| exists|j: int| 0 <= j < i && header_name(#[trigger] headers[j].0) == Some(h))
}

/// The problem with one header, given the names already configured.
pub open spec fn header_issue(raw: Seq<char>, value: HeaderValueView, seen: Set<Seq<char>>) -> Option<McpConfigIssue> {
    match header_name(raw) {
        None => Some(McpConfigIssue::InvalidHeaderName),
        Some(h) => if h == "host"@ || h == "mcp-session-id"@ {
            Some(McpConfigIssue::TransportOwnedHeader)
        } else if seen.contains(h) {
            Some(McpConfigIssue::DuplicateHeader)
        } else {
            match value {
                HeaderValueView::Literal(v) => if sensitive_header(h) {
                    Some(McpConfigIssue::CredentialLiteral)
                } else if !header_value_ok(v) {
                    Some(McpConfigIssue::InvalidHeaderValue)
                } else {
                    None
                },
                HeaderValueView::SecretRef { secret_ref, credential_revision } => if !valid_secret_ref(secret_ref) {
                    Some(McpConfigIssue::InvalidSecretReference)
                } else if is_blank(credential_revision) {
                    Some(McpConfigIssue::MissingCredentialRevision)
                } else {
                    None
                },
            }
        },
    }
}

/// The first problem among the headers from position `i`, in order.
pub open spec fn headers_issue_from(headers: Seq<(Seq<char>, HeaderValueView)>, i: int) -> Option<McpConfigIssue>
    decreases headers.len() - i,
{
    if i < 0 || i >= headers.len() {
        None
    } else {
        match header_issue(headers[i].0, headers[i].1, names_before(headers, i)) {
            Some(issue) => Some(issue),
            None => headers_issue_from(headers, i + 1),
        }
    }
}

/// Some entry is blank.
pub open spec fn has_blank(s: Seq<Seq<char>>) -> bool {
    exists|i: int| 0 <= i < s.len() && is_blank(#[trigger] s[i])
}

/// The problem with a grant policy, if any.
pub open spec fn grant_issue(policy: Option<GrantPolicyView>) -> Option<McpConfigIssue> {
    match policy {
        None => None,
        Some(p) => if p.trusted_hosts.len() == 0 || has_blank(p.trusted_hosts) {
            Some(McpConfigIssue::MissingTrustedHosts)
        } else if has_blank(p.required_scopes) {
            Some(McpConfigIssue::EmptyScope)
        } else {
            None
        },
    }
}

/// The first reason a declaration cannot be admitted, checked in the order
/// sandbox, URL, headers (in order), grant policy.
pub open spec fn entry_issue(e: EntryView) -> Option<McpConfigIssue> {
    match e {
        EntryView::Stdio { sandboxed, .. } => if sandboxed {
            Some(McpConfigIssue::SandboxUnavailable)
        } else {
            None
        },
        EntryView::RemoteHttp { url, headers, grant_policy, .. } => if is_blank(url) {
            Some(McpConfigIssue::MissingUrl)
        } else {
            match headers_issue_from(headers, 0) {
                Some(issue) => Some(issue),
                None => grant_issue(grant_policy),
            }
        },
    }
}

fn contains_string(v: &Vec<String>, s: &String) -> (r: bool)
    ensures
        r == exists|j: int| 0 <= j < v@.len() && #[trigger] v@[j]@ == s@,
{
    let mut i: usize = 0;
    while i < v.len()
        invariant
            i <= v@.len(),
            forall|j: int| 0 <= j < i ==> #[trigger] v@[j]@ != s@,
        decreases v.len() - i,
    {
        if v[i] == *s {
            return true;
        }
        i = i + 1;
    }
    false
}

fn secret_ref_valid(r: &str) -> (ok: bool)
    ensures
        ok == valid_secret_ref(r@),
{
    let v = chars_of(r);
    if v.len() <= 4 || v[0] != 'e' || v[1] != 'n' || v[2] != 'v' || v[3] != ':' {
        proof {
            reveal_strlit("env:");
            if v@.len() > 4 {
                assert(r@.subrange(0, 4)[0] == r@[0]);
                assert(r@.subrange(0, 4)[1] == r@[1]);
                assert(r@.subrange(0, 4)[2] == r@[2]);
                assert(r@.subrange(0, 4)[3] == r@[3]);
            }
        }
        return false;
    }
    proof {
        reveal_strlit("env:");
        assert(r@.subrange(0, 4) =~= "env:"@);
    }
    let mut i: usize = 4;
    while i < v.len()
        invariant
            v@ == r@,
            4 <= i <= v@.len(),
            forall|j: int| 4 <= j < i ==> variable_char(#[trigger] v@[j]),
        decreases v.len() - i,
    {
        let c = v[i];
        if !(('a' <= c && c <= 'z') || ('A' <= c && c <= 'Z') || ('0' <= c && c <= '9') || c == '_') {
            return false;
        }
        i = i + 1;
    }
    true
}

fn any_blank(v: &Vec<String>) -> (r: bool)
    ensures
        r == has_blank(views(v@)),
{
    let mut i: usize = 0;
    while i < v.len()
        invariant
            i <= v@.len(),
            forall|j: int| 0 <= j < i ==> !is_blank(#[trigger] views(v@)[j]),
        decreases v.len() - i,
    {
        if str_is_blank(v[i].as_str()) {
            assert(views(v@)[i as int] == v@[i as int]@);
            assert(is_blank(views(v@)[i as int]));
            return true;
        }
        i = i + 1;
    }
    false
}

impl McpServerEntry {
    /// Reject unsupported sandbox requests before process or settings side effects.
    pub fn validate_sandbox_policy(&self, name: &str) -> (r: Result<(), McpConfigError>)
        ensures
            match r {
                Ok(()) => entry_issue(self.view()) is None,
                Err(e) => e.server@ == name@ && entry_issue(self.view()) == Some(e.issue),
            },
    {
        let issue = self.admission_issue();
        match issue {
            None => Ok(()),
            Some(issue) => Err(McpConfigError { server: owned(name), issue }),
        }
    }

    fn admission_issue(&self) -> (r: Option<McpConfigIssue>)
        ensures
            r == entry_issue(self.view()),
    {
        match self {
            McpServerEntry::Stdio { sandboxed, .. } => if *sandboxed {
                Some(McpConfigIssue::SandboxUnavailable)
            } else {
                None
            },
            McpServerEntry::RemoteHttp { url, headers, grant_policy, .. } => {
                if str_is_blank(url.as_str()) {
                    return Some(McpConfigIssue::MissingUrl);
                }
                let h = headers_issue(headers);
                if h.is_some() {
                    return h;
                }
                match grant_policy {
                    None => None,
                    Some(p) => {
                        assert(p.view().trusted_hosts.len() == p.trusted_hosts@.len());
                        if p.trusted_hosts.len() == 0 || any_blank(&p.trusted_hosts) {
                            Some(McpConfigIssue::MissingTrustedHosts)
                        } else if any_blank(&p.required_scopes) {
                            Some(McpConfigIssue::EmptyScope)
                        } else {
                            None
                        }
                    },
                }
            },
        }
    }
}

fn one_header_issue(
    raw: &String,
    value: &McpHttpHeaderValue,
    seen: &Vec<String>,
    Ghost(seen_set): Ghost<Set<Seq<char>>>,
) -> (r: (Option<McpConfigIssue>, Option<String>))
    requires
        forall|h: Seq<char>| #[trigger] seen_set.contains(h) <==> exists|j: int| 0 <= j < seen@.len() && #[trigger] seen@[j]@ == h,
    ensures
        r.0 == header_issue(raw@, value.view(), seen_set),
        r.0 is None ==> r.1 is Some && header_name(raw@) == Some(r.1->0@),
{
    match parse_header_name(raw.as_str()) {
        None => {
            assert(header_issue(raw@, value.view(), seen_set) == Some(McpConfigIssue::InvalidHeaderName));
            (Some(McpConfigIssue::InvalidHeaderName), None)
        },
        Some(h) => {
            if str_eq(h.as_str(), "host") || str_eq(h.as_str(), "mcp-session-id") {
                assert(header_issue(raw@, value.view(), seen_set) == Some(McpConfigIssue::TransportOwnedHeader));
                return (Some(McpConfigIssue::TransportOwnedHeader), None);
            }
            if contains_string(seen, &h) {
                assert(header_issue(raw@, value.view(), seen_set) == Some(McpConfigIssue::DuplicateHeader));
                return (Some(McpConfigIssue::DuplicateHeader), None);
            }
            let issue = match value {
                McpHttpHeaderValue::Literal(v) => {
                    if is_sensitive_header(h.as_str()) {
                        Some(McpConfigIssue::CredentialLiteral)
                    } else if !header_value_accepted(v.as_str()) {
                        Some(McpConfigIssue::InvalidHeaderValue)
                    } else {
                        None
                    }
                },
                McpHttpHeaderValue::SecretRef { secret_ref, credential_revision } => {
                    if !secret_ref_valid(secret_ref.as_str()) {
                        Some(McpConfigIssue::InvalidSecretReference)
                    } else if str_is_blank(credential_revision.as_str()) {
                        Some(McpConfigIssue::MissingCredentialRevision)
                    } else {
                        None
                    }
                },
            };
            assert(!seen_set.contains(h@));
            assert(!(h@ == "host"@ || h@ == "mcp-session-id"@));
            assert(header_name(raw@) == Some(h@));
            match value {
                McpHttpHeaderValue::Literal(v) => {
                    assert(value.view() == HeaderValueView::Literal(v@));
                    assert(header_issue(raw@, value.view(), seen_set) == issue);
                },
                McpHttpHeaderValue::SecretRef { .. } => {
                    assert(header_issue(raw@, value.view(), seen_set) == issue);
                },
            }
            (issue, Some(h))
        },
    }
}

fn headers_issue(headers: &Vec<(String, McpHttpHeaderValue)>) -> (r: Option<McpConfigIssue>)
    ensures
        r == headers_issue_from(header_views(headers@), 0),
{
    let ghost hv = header_views(headers@);
    let mut seen: Vec<String> = Vec::new();
    let mut i: usize = 0;
    while i < headers.len()
        invariant
            hv == header_views(headers@),
            i <= headers@.len(),
            headers_issue_from(hv, 0) == headers_issue_from(hv, i as int),
            forall|h: Seq<char>| #[trigger] names_before(hv, i as int).contains(h) <==> exists|j: int| 0 <= j < seen@.len() && #[trigger] seen@[j]@ == h,
        decreases headers.len() - i,
    {
        let raw = &headers[i].0;
        let value = &headers[i].1;
        assert(hv[i as int] == (raw@, value.view()));
        let (issue, name) = one_header_issue(raw, value, &seen, Ghost(names_before(hv, i as int)));
        if issue.is_some() {
            return issue;
        }
        let h = name.unwrap();
        let ghost before = seen@;
        seen.push(h);
        proof {
            assert forall|x: Seq<char>| #[trigger] names_before(hv, i + 1).contains(x) <==> exists|j: int| 0 <= j < seen@.len() && #[trigger] seen@[j]@ == x by {
                if names_before(hv, i + 1).contains(x) {
                    let j = choose|j: int| 0 <= j < i + 1 && header_name(#[trigger] hv[j].0) == Some(x);
                    if j < i {
                        assert(names_before(hv, i as int).contains(x));
                        let k = choose|k: int| 0 <= k < before.len() && #[trigger] before[k]@ == x;
                        assert(seen@[k] == before[k]);
                    } else {
                        assert(seen@[before.len() as int]@ == x);
                    }
                }
                if exists|j: int| 0 <= j < seen@.len() && #[trigger] seen@[j]@ == x {
                    let k = choose|k: int| 0 <= k < seen@.len() && #[trigger] seen@[k]@ == x;
                    if k < before.len() {
                        assert(before[k]@ == x);
                        assert(names_before(hv, i as int).contains(x));
                        let j = choose|j: int| 0 <= j < i && header_name(#[trigger] hv[j].0) == Some(x);
                        assert(0 <= j < i + 1 && header_name(hv[j].0) == Some(x));
                    } else {
                        assert(header_name(hv[i as int].0) == Some(x));
                    }
                }
            }
        }
        i = i + 1;
    }
    None
}


/// A configuration file's servers, by name.
pub struct McpConfig {
    pub mcp_servers: Vec<(String, McpServerEntry)>,
}

/// The first server, in order, whose declaration cannot be admitted.
pub open spec fn first_config_issue(servers: Seq<(String, McpServerEntry)>, i: int) -> Option<(Seq<char>, McpConfigIssue)>
    decreases servers.len() - i,
{
    if i < 0 || i >= servers.len() {
        None
    } else {
        match entry_issue(servers[i].1.view()) {
            Some(issue) => Some((servers[i].0@, issue)),
            None => first_config_issue(servers, i + 1),
        }
    }
}

impl McpConfig {
    /// Validate the whole configuration before any server is connected.
    pub fn validate_sandbox_policy(&self) -> (r: Result<(), McpConfigError>)
        ensures
            match r {
                Ok(()) => first_config_issue(self.mcp_servers@, 0) is None,
                Err(e) => first_config_issue(self.mcp_servers@, 0) == Some((e.server@, e.issue)),
            },
    {
        let mut i: usize = 0;
        while i < self.mcp_servers.len()
            invariant
                i <= self.mcp_servers@.len(),
                first_config_issue(self.mcp_servers@, 0) == first_config_issue(self.mcp_servers@, i as int),
            decreases self.mcp_servers.len() - i,
        {
            let (name, entry) = (&self.mcp_servers[i].0, &self.mcp_servers[i].1);
            match entry.validate_sandbox_policy(name.as_str()) {
                Ok(()) => {},
                Err(e) => {
                    return Err(e);
                },
            }
            i = i + 1;
        }
        Ok(())
    }
}

/// A desktop sidecar binary that stands in for a configured command.
pub open spec fn tauri_sidecar(command: Seq<char>) -> Option<Seq<char>> {
    if command == "mcp-server-dummy-test"@ {
        Some("/usr/bin/true"@)
    } else {
        None
    }
}

/// Resolve a stdio command to a bundled sidecar path, where one is known.
pub fn resolve_tauri_sidecar(command: &str) -> (r: Option<String>)
    ensures
        match r {
            Some(p) => tauri_sidecar(command@) == Some(p@),
            None => tauri_sidecar(command@) is None,
        },
{
    if str_eq(command, "mcp-server-dummy-test") {
        Some(owned("/usr/bin/true"))
    } else {
        None
    }
}

/// A placeholder that cannot be expanded.
pub enum PlaceholderError {
    /// Strict expansion: every placeholder with neither a non-empty variable
    /// nor a default, in order, and the value that holds them.
    Unresolved { names: Vec<String>, input: String },
}

/// `names` joined by `sep`.
pub open spec fn joined(names: Seq<Seq<char>>, sep: Seq<char>) -> Seq<char>
    decreases names.len(),
{
    if names.len() == 0 {
        Seq::empty()
    } else if names.len() == 1 {
        names[0]
    } else {
        joined(names.drop_last(), sep) + sep + names.last()
    }
}

fn join_strings(names: &Vec<String>, sep: &str) -> (r: String)
    ensures
        r@ == joined(views(names@), sep@),
{
    let mut out = String::new();
    let mut i: usize = 0;
    while i < names.len()
        invariant
            i <= names@.len(),
            out@ == joined(views(names@).subrange(0, i as int), sep@),
        decreases names.len() - i,
    {
        let ghost prefix = views(names@).subrange(0, i + 1);
        assert(prefix.drop_last() =~= views(names@).subrange(0, i as int));
        if i > 0 {
            out.append(sep);
        }
        out.append(names[i].as_str());
        i = i + 1;
    }
    assert(views(names@).subrange(0, names@.len() as int) =~= views(names@));
    out
}

impl PlaceholderError {
    /// The text of the error, as the runtime reports it.
    pub fn message(&self) -> (r: String)
        ensures
            match self {
                PlaceholderError::Unresolved { names, input } => r@ == "unresolved placeholder(s) "@
                    + joined(views(names@), ", "@) + " in '"@ + input@
                    + "' \u{2014} set the variable(s) or give a default with ${VAR:-default}"@,
            },
    {
        match self {
            PlaceholderError::Unresolved { names, input } => {
                let mut out = String::new();
                out.append("unresolved placeholder(s) ");
                let list = join_strings(names, ", ");
                out.append(list.as_str());
                out.append(" in '");
                out.append(input.as_str());
                out.append("' \u{2014} set the variable(s) or give a default with ${VAR:-default}");
                out
            },
        }
    }
}

/// Expand `${VAR}` and `${VAR:-default}` placeholders from the environment
/// snapshot, leaving unresolvable placeholders untouched.
///
/// A variable set to the empty string counts as unset. This lenient form is
/// for values resolved in a later stage, such as a remote entry's `env` map.
pub fn expand_env_placeholders(input: &str, environment: &[(String, String)]) -> (r: String)
    ensures
        r@ == expanded(input@, env_view(environment@)),
{
    let (out, _) = substitute(input, environment);
    out
}

/// Expand placeholders, failing when one resolves to nothing.
///
/// The error names every placeholder that had neither a non-empty
/// environment variable nor a `:-` default.
pub fn expand_env_placeholders_strict(input: &str, environment: &[(String, String)]) -> (r: Result<String, PlaceholderError>)
    ensures
        match r {
            Ok(out) => unresolved_names(placeholders(input@), env_view(environment@)).len() == 0
                && out@ == expanded(input@, env_view(environment@)),
            Err(PlaceholderError::Unresolved { names, input: held }) => views(names@) == unresolved_names(
                placeholders(input@),
                env_view(environment@),
            ) && views(names@).len() > 0 && held@ == input@,
        },
{
    let (out, unresolved) = substitute(input, environment);
    if unresolved.len() > 0 {
        return Err(PlaceholderError::Unresolved { names: unresolved, input: owned(input) });
    }
    Ok(out)
}

/// A placeholder without value or default, while resolving against host
/// captured inputs. The input itself is not retained: it may hold secrets.
pub struct UnresolvedPlaceholder {
    pub name: String,
}

/// Resolve placeholders only against host-captured inputs, failing at the
/// first placeholder that has neither a non-empty variable nor a default.
pub fn expand_from_environment(input: &str, environment: &[(String, String)]) -> (r: Result<String, UnresolvedPlaceholder>)
    ensures
        match r {
            Ok(out) => unresolved_names(placeholders(input@), env_view(environment@)).len() == 0
                && out@ == expanded(input@, env_view(environment@)),
            Err(e) => unresolved_names(placeholders(input@), env_view(environment@)).len() > 0
                && e.name@ == unresolved_names(placeholders(input@), env_view(environment@))[0],
        },
{
    let (out, unresolved) = substitute(input, environment);
    if unresolved.len() > 0 {
        assert(views(unresolved@)[0] == unresolved@[0]@);
        return Err(UnresolvedPlaceholder { name: unresolved[0].clone() });
    }
    Ok(out)
}

/// Expand every value of a map, keeping its keys.
pub fn expand_env_map(map: &Vec<(String, String)>, environment: &[(String, String)]) -> (r: Vec<(String, String)>)
    ensures
        r@.len() == map@.len(),
        forall|i: int| 0 <= i < map@.len() ==> (#[trigger] r@[i]).0@ == map@[i].0@ && r@[i].1@ == expanded(
            map@[i].1@,
            env_view(environment@),
        ),
{
    let mut r: Vec<(String, String)> = Vec::new();
    let mut i: usize = 0;
    while i < map.len()
        invariant
            i <= map@.len(),
            r@.len() == i,
            forall|j: int| 0 <= j < i ==> (#[trigger] r@[j]).0@ == map@[j].0@ && r@[j].1@ == expanded(
                map@[j].1@,
                env_view(environment@),
            ),
        decreases map.len() - i,
    {
        let key = map[i].0.clone();
        let value = expand_env_placeholders(map[i].1.as_str(), environment);
        r.push((key, value));
        i = i + 1;
    }
    r
}


/// A valid header name is normalized letter for letter: it keeps its length,
/// loses every uppercase ASCII letter, and differs from the given name only
/// in letter case.
pub proof fn law_header_names_are_lowercased(raw: Seq<char>)
    ensures
        header_name(raw) matches Some(h) ==> h.len() == raw.len() && (forall|k: int|
            0 <= k < h.len() ==> !('A' <= #[trigger] h[k] && h[k] <= 'Z') && (h[k] == raw[k] || (h[k] as int) == (raw[k] as int) + 32)),
{
}

} // verus!
