//! Prepared MCP servers on the call path: their failures, the checks a
//! binding and a projected call must pass, request-scoped headers, and the
//! run's revocable credential leases.

use vstd::prelude::*;

use crate::mcp::binding_cache::{BindingFailure, McpBindingEnvironment, McpBindingError};
use crate::mcp::projection::{ProjectedMcpTool, ServerToolCatalog};
use crate::tools::{tool_named, tool_views, ToolView};
use crate::mcp::catalog::{equivalent, ServerDefinition};
use crate::mcp::config::{
    expand_from_environment, header_name, header_value_ok, header_value_accepted, parse_header_name, EntryView,
    HeaderValueView, McpHttpHeaderValue, McpServerEntry,
};
use crate::mcp::digest::{sort_env, sorted_env};
use crate::mcp::placeholder::{env_value, env_view, expanded, lookup, placeholders, unresolved_names};
use crate::text::{owned, str_eq, strip, strip_prefix};

verus! {

/// Why a prepared server could not serve a call.
pub enum McpRuntimeError {
    /// Invalidated, unauthenticated, failed or closed binding.
    Binding(McpBindingError),
    /// Newly discovered metadata differs from the step's prepared catalog.
    CatalogChanged { server: String },
    /// The supplied call target is not the exact projected descriptor.
    ToolNotProjected { server: String, tool: String },
    /// One total budget covers readiness plus execution on the call path.
    TimedOut { server: String, operation: &'static str },
    /// The transport call failed; no automatic replay is authorized here.
    ToolFailed { server: String, tool: String },
}

/// A binding serves the expected declaration only when name, source,
/// digest, requirement and authentication all match.
pub fn same_definition(expected: &ServerDefinition, actual: &ServerDefinition) -> (r: bool)
    ensures
        r == equivalent(expected.view(), actual.view()),
{
    expected.equivalent_to(actual)
}

/// Why request-scoped HTTP headers were refused.
pub enum HeaderError {
    InvalidName,
    TransportOwned,
    NotBearer,
    EmptyBearer,
    DuplicateAuthorization,
    InvalidValue,
    Duplicate,
    NotRemote,
    InvalidSecretReference,
    UnresolvedSecret,
    /// A literal header value has a placeholder without value or default.
    Unresolved { name: String },
    ConfiguredTwice,
}

pub enum HeaderErrorView {
    InvalidName,
    TransportOwned,
    NotBearer,
    EmptyBearer,
    DuplicateAuthorization,
    InvalidValue,
    Duplicate,
    NotRemote,
    InvalidSecretReference,
    UnresolvedSecret,
    Unresolved(Seq<char>),
    ConfiguredTwice,
}

impl HeaderError {
    pub open spec fn view(&self) -> HeaderErrorView {
        match self {
            HeaderError::InvalidName => HeaderErrorView::InvalidName,
            HeaderError::TransportOwned => HeaderErrorView::TransportOwned,
            HeaderError::NotBearer => HeaderErrorView::NotBearer,
            HeaderError::EmptyBearer => HeaderErrorView::EmptyBearer,
            HeaderError::DuplicateAuthorization => HeaderErrorView::DuplicateAuthorization,
            HeaderError::InvalidValue => HeaderErrorView::InvalidValue,
            HeaderError::Duplicate => HeaderErrorView::Duplicate,
            HeaderError::NotRemote => HeaderErrorView::NotRemote,
            HeaderError::InvalidSecretReference => HeaderErrorView::InvalidSecretReference,
            HeaderError::UnresolvedSecret => HeaderErrorView::UnresolvedSecret,
            HeaderError::Unresolved { name } => HeaderErrorView::Unresolved(name@),
            HeaderError::ConfiguredTwice => HeaderErrorView::ConfiguredTwice,
        }
    }

    /// The description of a refusal that names no placeholder.
    pub fn message(&self) -> (r: Option<&'static str>)
        ensures
            r is None <==> self is Unresolved,
            r matches Some(m) ==> m@ == header_error_text(self.view()),
    {
        match self {
            HeaderError::InvalidName => Some("MCP header name is invalid"),
            HeaderError::TransportOwned => Some("MCP transport-owned header is forbidden"),
            HeaderError::NotBearer => Some("MCP authorization must use Bearer scheme"),
            HeaderError::EmptyBearer => Some("MCP bearer token is empty"),
            HeaderError::DuplicateAuthorization => Some("MCP authorization header is duplicated"),
            HeaderError::InvalidValue => Some("MCP header value is invalid"),
            HeaderError::Duplicate => Some("MCP header is duplicated"),
            HeaderError::NotRemote => Some("MCP HTTP headers require a remote HTTP server"),
            HeaderError::InvalidSecretReference => Some("MCP header secret reference is invalid"),
            HeaderError::UnresolvedSecret => Some("MCP header secret reference is unresolved"),
            HeaderError::Unresolved { .. } => None,
            HeaderError::ConfiguredTwice => Some("MCP header is configured by both the destination and run grant"),
        }
    }
}

pub open spec fn header_error_text(e: HeaderErrorView) -> Seq<char> {
    match e {
        HeaderErrorView::InvalidName => "MCP header name is invalid"@,
        HeaderErrorView::TransportOwned => "MCP transport-owned header is forbidden"@,
        HeaderErrorView::NotBearer => "MCP authorization must use Bearer scheme"@,
        HeaderErrorView::EmptyBearer => "MCP bearer token is empty"@,
        HeaderErrorView::DuplicateAuthorization => "MCP authorization header is duplicated"@,
        HeaderErrorView::InvalidValue => "MCP header value is invalid"@,
        HeaderErrorView::Duplicate => "MCP header is duplicated"@,
        HeaderErrorView::NotRemote => "MCP HTTP headers require a remote HTTP server"@,
        HeaderErrorView::InvalidSecretReference => "MCP header secret reference is invalid"@,
        HeaderErrorView::UnresolvedSecret => "MCP header secret reference is unresolved"@,
        HeaderErrorView::Unresolved(_) => Seq::empty(),
        HeaderErrorView::ConfiguredTwice => "MCP header is configured by both the destination and run grant"@,
    }
}

/// Parsed request-scoped HTTP headers: a bearer token, and other headers by
/// normalized name.
pub struct RunHttpHeaders {
    bearer: Option<String>,
    custom: Vec<(String, String)>,
}

pub struct HeadersView {
    pub bearer: Option<Seq<char>>,
    pub custom: Seq<(Seq<char>, Seq<char>)>,
}

/// Some entry already has this name.
pub open spec fn named(custom: Seq<(Seq<char>, Seq<char>)>, n: Seq<char>) -> bool {
    exists|j: int| 0 <= j < custom.len() && #[trigger] custom[j].0 == n
}

/// Parse header values from position `i`, given the bearer token and
/// headers parsed so far.
pub open spec fn parse_from(values: Seq<(Seq<char>, Seq<char>)>, i: int, bearer: Option<Seq<char>>, custom: Seq<(Seq<char>, Seq<char>)>) -> Result<HeadersView, HeaderErrorView>
    decreases values.len() - i,
{
    if i < 0 || i >= values.len() {
        Ok(HeadersView { bearer, custom })
    } else {
        match header_name(values[i].0) {
            None => Err(HeaderErrorView::InvalidName),
            Some(n) => if n == "host"@ || n == "mcp-session-id"@ {
                Err(HeaderErrorView::TransportOwned)
            } else if n == "authorization"@ {
                match strip(values[i].1, "Bearer "@) {
                    None => Err(HeaderErrorView::NotBearer),
                    Some(token) => if token.len() == 0 {
                        Err(HeaderErrorView::EmptyBearer)
                    } else if bearer is Some {
                        Err(HeaderErrorView::DuplicateAuthorization)
                    } else {
                        parse_from(values, i + 1, Some(token), custom)
                    },
                }
            } else if !header_value_ok(values[i].1) {
                Err(HeaderErrorView::InvalidValue)
            } else if named(custom, n) {
                Err(HeaderErrorView::Duplicate)
            } else {
                parse_from(values, i + 1, bearer, custom.push((n, values[i].1)))
            },
        }
    }
}

fn has_name(custom: &Vec<(String, String)>, n: &str) -> (r: bool)
    ensures
        r == named(env_view(custom@), n@),
{
    let mut j: usize = 0;
    while j < custom.len()
        invariant
            j <= custom@.len(),
            forall|k: int| 0 <= k < j ==> #[trigger] env_view(custom@)[k].0 != n@,
        decreases custom.len() - j,
    {
        assert(env_view(custom@)[j as int].0 == custom@[j as int].0@);
        if str_eq(custom[j].0.as_str(), n) {
            return true;
        }
        j = j + 1;
    }
    false
}

impl RunHttpHeaders {
    pub closed spec fn view(&self) -> HeadersView {
        HeadersView {
            bearer: match self.bearer {
                Some(b) => Some(b@),
                None => None,
            },
            custom: env_view(self.custom@),
        }
    }

    /// The bearer token the transport sends as its authorization.
    pub fn bearer(&self) -> (r: Option<&str>)
        ensures
            match r {
                Some(b) => self.view().bearer == Some(b@),
                None => self.view().bearer is None,
            },
    {
        match &self.bearer {
            Some(b) => Some(b.as_str()),
            None => None,
        }
    }

    /// The other headers, by normalized name.
    pub fn custom(&self) -> (r: &Vec<(String, String)>)
        ensures
            env_view(r@) == self.view().custom,
    {
        &self.custom
    }

    /// Parse request-scoped header values, in the order given.
    pub fn parse(values: &Vec<(String, String)>) -> (r: Result<RunHttpHeaders, HeaderError>)
        ensures
            match r {
                Ok(h) => parse_from(env_view(values@), 0, None, Seq::empty()) == Ok::<HeadersView, HeaderErrorView>(h.view()),
                Err(e) => parse_from(env_view(values@), 0, None, Seq::empty()) == Err::<HeadersView, HeaderErrorView>(e.view()),
            },
    {
        let ghost vs = env_view(values@);
        let mut bearer: Option<String> = None;
        let mut custom: Vec<(String, String)> = Vec::new();
        let mut i: usize = 0;
        assert(env_view(custom@) =~= Seq::<(Seq<char>, Seq<char>)>::empty());
        while i < values.len()
            invariant
                vs == env_view(values@),
                i <= vs.len(),
                parse_from(vs, 0, None, Seq::empty()) == parse_from(
                    vs,
                    i as int,
                    match bearer {
                        Some(b) => Some(b@),
                        None => None,
                    },
                    env_view(custom@),
                ),
            decreases values.len() - i,
        {
            assert(vs[i as int] == (values@[i as int].0@, values@[i as int].1@));
            let n = match parse_header_name(values[i].0.as_str()) {
                Some(n) => n,
                None => return Err(HeaderError::InvalidName),
            };
            if str_eq(n.as_str(), "host") || str_eq(n.as_str(), "mcp-session-id") {
                return Err(HeaderError::TransportOwned);
            }
            if str_eq(n.as_str(), "authorization") {
                let token = match strip_prefix(values[i].1.as_str(), "Bearer ") {
                    Some(t) => t,
                    None => return Err(HeaderError::NotBearer),
                };
                if crate::text::chars_of(token.as_str()).len() == 0 {
                    return Err(HeaderError::EmptyBearer);
                }
                if bearer.is_some() {
                    return Err(HeaderError::DuplicateAuthorization);
                }
                bearer = Some(token);
            } else {
                if !header_value_accepted(values[i].1.as_str()) {
                    return Err(HeaderError::InvalidValue);
                }
                if has_name(&custom, n.as_str()) {
                    return Err(HeaderError::Duplicate);
                }
                let ghost before = env_view(custom@);
                custom.push((n, owned(values[i].1.as_str())));
                assert(env_view(custom@) =~= before.push((header_name(vs[i as int].0)->0, vs[i as int].1)));
            }
            i = i + 1;
        }
        Ok(RunHttpHeaders { bearer, custom })
    }
}

/// What a configured header value resolves to against the launch variables.
pub open spec fn resolve_header(value: HeaderValueView, vars: Seq<(Seq<char>, Seq<char>)>) -> Result<Seq<char>, HeaderErrorView> {
    match value {
        HeaderValueView::Literal(v) => if unresolved_names(placeholders(v), vars).len() > 0 {
            Err(HeaderErrorView::Unresolved(unresolved_names(placeholders(v), vars)[0]))
        } else {
            Ok(expanded(v, vars))
        },
        HeaderValueView::SecretRef { secret_ref, .. } => match strip(secret_ref, "env:"@) {
            None => Err(HeaderErrorView::InvalidSecretReference),
            Some(var) => match env_value(vars, var) {
                Some(x) => Ok(x),
                None => Err(HeaderErrorView::UnresolvedSecret),
            },
        },
    }
}

/// A map of names after setting `k` to `v`.
pub open spec fn put(m: Seq<(Seq<char>, Seq<char>)>, k: Seq<char>, v: Seq<char>) -> Seq<(Seq<char>, Seq<char>)> {
    m.filter(|p: (Seq<char>, Seq<char>)| p.0 != k).push((k, v))
}

/// Resolve configured headers from position `i` into the map `m`.
pub open spec fn resolve_headers(hs: Seq<(Seq<char>, HeaderValueView)>, i: int, m: Seq<(Seq<char>, Seq<char>)>, vars: Seq<(Seq<char>, Seq<char>)>) -> Result<Seq<(Seq<char>, Seq<char>)>, HeaderErrorView>
    decreases hs.len() - i,
{
    if i < 0 || i >= hs.len() {
        Ok(m)
    } else {
        match resolve_header(hs[i].1, vars) {
            Err(e) => Err(e),
            Ok(v) => resolve_headers(hs, i + 1, put(m, hs[i].0, v), vars),
        }
    }
}

/// ASCII letters compared without case.
pub open spec fn ascii_fold(c: char) -> char {
    if 'A' <= c && c <= 'Z' { ((c as int) + 32) as char } else { c }
}

pub open spec fn same_ignoring_ascii_case(a: Seq<char>, b: Seq<char>) -> bool {
    a.len() == b.len() && forall|i: int| 0 <= i < a.len() ==> ascii_fold(#[trigger] a[i]) == ascii_fold(b[i])
}

pub open spec fn clashes(m: Seq<(Seq<char>, Seq<char>)>, name: Seq<char>) -> bool {
    exists|k: int| 0 <= k < m.len() && same_ignoring_ascii_case(#[trigger] m[k].0, name)
}

/// Add run-grant headers from position `i`; none may repeat a configured
/// name, ignoring ASCII case.
pub open spec fn add_overlay(ov: Seq<(Seq<char>, Seq<char>)>, i: int, m: Seq<(Seq<char>, Seq<char>)>) -> Result<Seq<(Seq<char>, Seq<char>)>, HeaderErrorView>
    decreases ov.len() - i,
{
    if i < 0 || i >= ov.len() {
        Ok(m)
    } else if clashes(m, ov[i].0) {
        Err(HeaderErrorView::ConfiguredTwice)
    } else {
        add_overlay(ov, i + 1, put(m, ov[i].0, ov[i].1))
    }
}

/// The request headers of a remote server: its configured headers resolved
/// against the launch variables, the run grant's headers added, then parsed
/// in name order.
pub open spec fn configured_headers(e: EntryView, vars: Seq<(Seq<char>, Seq<char>)>, overlay: Option<Seq<(Seq<char>, Seq<char>)>>) -> Result<HeadersView, HeaderErrorView> {
    match e {
        EntryView::Stdio { .. } => Err(HeaderErrorView::NotRemote),
        EntryView::RemoteHttp { headers, .. } => match resolve_headers(headers, 0, Seq::empty(), vars) {
            Err(x) => Err(x),
            Ok(m) => match (match overlay {
                None => Ok(m),
                Some(ov) => add_overlay(ov, 0, m),
            }) {
                Err(x) => Err(x),
                Ok(m2) => parse_from(sorted_env(m2), 0, None, Seq::empty()),
            },
        },
    }
}

fn fold_char(c: char) -> (r: char)
    ensures
        r == ascii_fold(c),
{
    if 'A' <= c && c <= 'Z' {
        ((c as u32 + 32) as u8) as char
    } else {
        c
    }
}

fn eq_ignore_ascii_case(a: &str, b: &str) -> (r: bool)
    ensures
        r == same_ignoring_ascii_case(a@, b@),
{
    let x = crate::text::chars_of(a);
    let y = crate::text::chars_of(b);
    if x.len() != y.len() {
        return false;
    }
    let mut i: usize = 0;
    while i < x.len()
        invariant
            x@ == a@,
            y@ == b@,
            x@.len() == y@.len(),
            i <= x@.len(),
            forall|k: int| 0 <= k < i ==> ascii_fold(#[trigger] a@[k]) == ascii_fold(b@[k]),
        decreases x.len() - i,
    {
        if fold_char(x[i]) != fold_char(y[i]) {
            return false;
        }
        i = i + 1;
    }
    true
}

/// Set `k` to `v` in a list of names and values.
fn put_pair(m: &mut Vec<(String, String)>, k: String, v: String)
    ensures
        env_view(final(m)@) == put(env_view(old(m)@), k@, v@),
{
    let ghost before = env_view(m@);
    let ghost pred = |p: (Seq<char>, Seq<char>)| p.0 != k@;
    let mut kept: Vec<(String, String)> = Vec::new();
    let mut i: usize = 0;
    while i < m.len()
        invariant
            before == env_view(m@),
            pred == (|p: (Seq<char>, Seq<char>)| p.0 != k@),
            i <= before.len(),
            env_view(kept@) == before.subrange(0, i as int).filter(pred),
        decreases m.len() - i,
    {
        let ghost pre = before.subrange(0, i + 1);
        assert(pre.drop_last() =~= before.subrange(0, i as int));
        assert(pre.last() == (m@[i as int].0@, m@[i as int].1@));
        proof {
            reveal(Seq::filter);
        }
        if !str_eq(m[i].0.as_str(), k.as_str()) {
            let ghost kb = kept@;
            kept.push((owned(m[i].0.as_str()), owned(m[i].1.as_str())));
            assert(env_view(kept@) =~= env_view(kb).push(pre.last()));
        }
        i = i + 1;
    }
    assert(before.subrange(0, before.len() as int) =~= before);
    let ghost kb = kept@;
    kept.push((k, v));
    assert(env_view(kept@) =~= env_view(kb).push((k@, v@)));
    *m = kept;
}

/// Resolve one configured header value against the launch variables.
fn resolve_value(value: &McpHttpHeaderValue, vars: &Vec<(String, String)>) -> (r: Result<String, HeaderError>)
    ensures
        match r {
            Ok(s) => resolve_header(value.view(), env_view(vars@)) == Ok::<Seq<char>, HeaderErrorView>(s@),
            Err(e) => resolve_header(value.view(), env_view(vars@)) == Err::<Seq<char>, HeaderErrorView>(e.view()),
        },
{
    match value {
        McpHttpHeaderValue::Literal(v) => match expand_from_environment(v.as_str(), vars.as_slice()) {
            Ok(x) => Ok(x),
            Err(u) => Err(HeaderError::Unresolved { name: u.name }),
        },
        McpHttpHeaderValue::SecretRef { secret_ref, .. } => {
            let var = match strip_prefix(secret_ref.as_str(), "env:") {
                Some(var) => var,
                None => return Err(HeaderError::InvalidSecretReference),
            };
            match lookup(vars.as_slice(), &var) {
                Some(x) => if crate::text::chars_of(x.as_str()).len() > 0 {
                    Ok(owned(x.as_str()))
                } else {
                    Err(HeaderError::UnresolvedSecret)
                },
                None => Err(HeaderError::UnresolvedSecret),
            }
        },
    }
}

impl RunHttpHeaders {
    /// Build a remote server's request headers from its configuration, the
    /// launch environment and an optional run-grant overlay.
    pub fn from_configuration(configuration: &McpServerEntry, environment: &McpBindingEnvironment, overlay: Option<&Vec<(String, String)>>) -> (r: Result<RunHttpHeaders, HeaderError>)
        ensures
            ({
                let expected = configured_headers(
                    configuration.view(),
                    environment.view().variables,
                    match overlay {
                        Some(o) => Some(env_view(o@)),
                        None => None,
                    },
                );
                match r {
                    Ok(h) => expected == Ok::<HeadersView, HeaderErrorView>(h.view()),
                    Err(e) => expected == Err::<HeadersView, HeaderErrorView>(e.view()),
                }
            }),
    {
        let headers = match configuration {
            McpServerEntry::RemoteHttp { headers, .. } => headers,
            McpServerEntry::Stdio { .. } => return Err(HeaderError::NotRemote),
        };
        let vars = environment.variables();
        let ghost vv = env_view(vars@);
        let ghost hs = crate::mcp::config::header_views(headers@);
        let mut resolved: Vec<(String, String)> = Vec::new();
        let mut i: usize = 0;
        assert(env_view(resolved@) =~= Seq::<(Seq<char>, Seq<char>)>::empty());
        while i < headers.len()
            invariant
                vv == env_view(vars@),
                vv == environment.view().variables,
                configuration.view() is RemoteHttp,
                configuration.view()->headers == hs,
                hs == crate::mcp::config::header_views(headers@),
                i <= hs.len(),
                resolve_headers(hs, 0, Seq::empty(), vv) == resolve_headers(hs, i as int, env_view(resolved@), vv),
            decreases headers.len() - i,
        {
            assert(hs[i as int] == (headers@[i as int].0@, headers@[i as int].1.view()));
            let value = match resolve_value(&headers[i].1, vars) {
                Ok(v) => v,
                Err(e) => return Err(e),
            };
            put_pair(&mut resolved, owned(headers[i].0.as_str()), value);
            i = i + 1;
        }
        let ghost after_headers = env_view(resolved@);
        assert(resolve_headers(hs, 0, Seq::empty(), vv) == Ok::<Seq<(Seq<char>, Seq<char>)>, HeaderErrorView>(after_headers));
        match overlay {
            None => {},
            Some(ov) => {
                let ghost ovv = env_view(ov@);
                let mut j: usize = 0;
                while j < ov.len()
                    invariant
                        ovv == env_view(ov@),
                        vv == environment.view().variables,
                        configuration.view() is RemoteHttp,
                        configuration.view()->headers == hs,
                        resolve_headers(hs, 0, Seq::empty(), vv) == Ok::<Seq<(Seq<char>, Seq<char>)>, HeaderErrorView>(after_headers),
                        overlay == Some(ov),
                        j <= ovv.len(),
                        add_overlay(ovv, 0, after_headers) == add_overlay(ovv, j as int, env_view(resolved@)),
                    decreases ov.len() - j,
                {
                    assert(ovv[j as int] == (ov@[j as int].0@, ov@[j as int].1@));
                    let mut k: usize = 0;
                    while k < resolved.len()
                        invariant
                            k <= resolved@.len(),
                            forall|q: int| 0 <= q < k ==> !same_ignoring_ascii_case(#[trigger] env_view(resolved@)[q].0, ovv[j as int].0),
                            ovv == env_view(ov@),
                            j < ovv.len(),
                            vv == environment.view().variables,
                            configuration.view() is RemoteHttp,
                            configuration.view()->headers == hs,
                            resolve_headers(hs, 0, Seq::empty(), vv) == Ok::<Seq<(Seq<char>, Seq<char>)>, HeaderErrorView>(after_headers),
                            overlay == Some(ov),
                            add_overlay(ovv, 0, after_headers) == add_overlay(ovv, j as int, env_view(resolved@)),
                        decreases resolved.len() - k,
                    {
                        assert(env_view(resolved@)[k as int].0 == resolved@[k as int].0@);
                        if eq_ignore_ascii_case(resolved[k].0.as_str(), ov[j].0.as_str()) {
                            assert(clashes(env_view(resolved@), ovv[j as int].0));
                            return Err(HeaderError::ConfiguredTwice);
                        }
                        k = k + 1;
                    }
                    put_pair(&mut resolved, owned(ov[j].0.as_str()), owned(ov[j].1.as_str()));
                    j = j + 1;
                }
            },
        }
        let sorted = sort_env(&resolved);
        RunHttpHeaders::parse(&sorted)
    }
}

/// One run credential's lease: valid until its expiry, unless revoked.
pub struct RunMcpCredentialLease {
    expires_at_unix: u64,
    revoked: bool,
}

pub struct LeaseView {
    pub expires_at_unix: u64,
    pub revoked: bool,
}

impl RunMcpCredentialLease {
    pub closed spec fn view(&self) -> LeaseView {
        LeaseView { expires_at_unix: self.expires_at_unix, revoked: self.revoked }
    }

    /// A lease valid until `expires_at_unix` seconds.
    pub fn new(expires_at_unix: u64) -> (r: RunMcpCredentialLease)
        ensures
            r.view() == (LeaseView { expires_at_unix, revoked: false }),
    {
        RunMcpCredentialLease { expires_at_unix, revoked: false }
    }

    /// Admit a use of the credential at `now_unix` seconds: a revoked or
    /// expired lease asks for authentication, and stays revoked.
    pub fn authorize(&mut self, server: &str, now_unix: u64) -> (r: Result<(), McpBindingError>)
        ensures
            if old(self).view().revoked || now_unix >= old(self).view().expires_at_unix {
                r matches Err(e) && e.view() == BindingFailure::AuthenticationRequired(server@)
                    && final(self).view() == (LeaseView { revoked: true, ..old(self).view() })
            } else {
                r is Ok && final(self).view() == old(self).view()
            },
    {
        if self.revoked || now_unix >= self.expires_at_unix {
            self.revoked = true;
            return Err(McpBindingError::AuthenticationRequired { server: owned(server) });
        }
        Ok(())
    }

    /// Revoke the lease for good.
    pub fn revoke(&mut self)
        ensures
            final(self).view() == (LeaseView { revoked: true, ..old(self).view() }),
    {
        self.revoked = true;
    }
}

/// The revocation handle of an authenticated run: the leases of the servers
/// it admitted, by server. It can revoke them, never add or renew one.
pub struct RunMcpGrantControl {
    credentials: Vec<(String, RunMcpCredentialLease)>,
}

pub open spec fn lease_views(v: Seq<(String, RunMcpCredentialLease)>) -> Seq<(Seq<char>, LeaseView)> {
    v.map_values(|p: (String, RunMcpCredentialLease)| (p.0@, p.1.view()))
}

/// The servers of connections that carry a credential, with its expiry.
pub open spec fn credentialed(connections: Seq<(Seq<char>, Option<u64>)>) -> Seq<(Seq<char>, LeaseView)> {
    connections.filter(|c: (Seq<char>, Option<u64>)| c.1 is Some).map_values(
        |c: (Seq<char>, Option<u64>)| (c.0, LeaseView { expires_at_unix: c.1.unwrap(), revoked: false }),
    )
}

pub open spec fn connection_views(v: Seq<(String, Option<u64>)>) -> Seq<(Seq<char>, Option<u64>)> {
    v.map_values(|c: (String, Option<u64>)| (c.0@, c.1))
}

impl RunMcpGrantControl {
    pub closed spec fn view(&self) -> Seq<(Seq<char>, LeaseView)> {
        lease_views(self.credentials@)
    }

    /// Leases for the connections that carry a credential, given as server
    /// and credential expiry.
    pub fn from_connections(connections: &Vec<(String, Option<u64>)>) -> (r: RunMcpGrantControl)
        ensures
            r.view() == credentialed(connection_views(connections@)),
    {
        let ghost cv = connection_views(connections@);
        let ghost p = |c: (Seq<char>, Option<u64>)| c.1 is Some;
        let ghost f = |c: (Seq<char>, Option<u64>)| (c.0, LeaseView { expires_at_unix: c.1.unwrap(), revoked: false });
        let mut credentials: Vec<(String, RunMcpCredentialLease)> = Vec::new();
        let mut i: usize = 0;
        assert(cv.take(0).filter(p).map_values(f) =~= Seq::<(Seq<char>, LeaseView)>::empty()) by {
            reveal(Seq::filter);
        }
        assert(lease_views(credentials@) =~= Seq::<(Seq<char>, LeaseView)>::empty());
        while i < connections.len()
            invariant
                cv == connection_views(connections@),
                p == (|c: (Seq<char>, Option<u64>)| c.1 is Some),
                f == (|c: (Seq<char>, Option<u64>)| (c.0, LeaseView { expires_at_unix: c.1.unwrap(), revoked: false })),
                i <= cv.len(),
                lease_views(credentials@) == cv.take(i as int).filter(p).map_values(f),
            decreases connections.len() - i,
        {
            proof {
                crate::mcp::binding_cache::lemma_step_filter_map(cv, i as int, p, f);
            }
            assert(cv[i as int] == (connections@[i as int].0@, connections@[i as int].1));
            if let Some(expiry) = connections[i].1 {
                let ghost before = credentials@;
                credentials.push((owned(connections[i].0.as_str()), RunMcpCredentialLease::new(expiry)));
                assert(lease_views(credentials@) =~= lease_views(before).push(f(cv[i as int])));
            }
            i = i + 1;
        }
        assert(cv.take(cv.len() as int) =~= cv);
        RunMcpGrantControl { credentials }
    }

    /// Revoke the first lease of a server. Returns whether there was one.
    pub fn revoke(&mut self, server: &str) -> (r: bool)
        ensures
            match first_lease(old(self).view(), server@) {
                Some(k) => r && final(self).view() == old(self).view().update(k, (server@, LeaseView { revoked: true, ..old(self).view()[k].1 })),
                None => !r && final(self).view() == old(self).view(),
            },
    {
        let ghost v = self.view();
        let mut i: usize = 0;
        while i < self.credentials.len()
            invariant
                v == lease_views(self.credentials@),
                v == old(self).view(),
                i <= v.len(),
                first_lease(v, server@) == first_lease_from(v, server@, i as int),
            decreases self.credentials.len() - i,
        {
            assert(v[i as int] == (self.credentials@[i as int].0@, self.credentials@[i as int].1.view()));
            if str_eq(self.credentials[i].0.as_str(), server) {
                assert(first_lease_from(v, server@, i as int) == Some(i as int));
                let mut credentials = Vec::new();
                std::mem::swap(&mut credentials, &mut self.credentials);
                let (name, mut lease) = credentials.remove(i);
                lease.revoke();
                credentials.insert(i, (name, lease));
                assert(lease_views(credentials@) =~= v.update(i as int, (server@, LeaseView { revoked: true, ..v[i as int].1 })));
                self.credentials = credentials;
                return true;
            }
            i = i + 1;
        }
        false
    }

    /// The lease of a server, if the run admitted one.
    pub fn lease(&self, server: &str) -> (r: Option<&RunMcpCredentialLease>)
        ensures
            match first_lease(self.view(), server@) {
                Some(k) => r matches Some(l) && l.view() == self.view()[k].1,
                None => r is None,
            },
    {
        let ghost v = self.view();
        let mut i: usize = 0;
        while i < self.credentials.len()
            invariant
                v == lease_views(self.credentials@),
                i <= v.len(),
                first_lease(v, server@) == first_lease_from(v, server@, i as int),
            decreases self.credentials.len() - i,
        {
            assert(v[i as int] == (self.credentials@[i as int].0@, self.credentials@[i as int].1.view()));
            if str_eq(self.credentials[i].0.as_str(), server) {
                assert(first_lease_from(v, server@, i as int) == Some(i as int));
                return Some(&self.credentials[i].1);
            }
            i = i + 1;
        }
        None
    }
}

/// The position of a server's first lease at or after `i`.
pub open spec fn first_lease_from(v: Seq<(Seq<char>, LeaseView)>, server: Seq<char>, i: int) -> Option<int>
    decreases v.len() - i,
{
    if i < 0 || i >= v.len() {
        None
    } else if v[i].0 == server {
        Some(i)
    } else {
        first_lease_from(v, server, i + 1)
    }
}

pub open spec fn first_lease(v: Seq<(Seq<char>, LeaseView)>, server: Seq<char>) -> Option<int> {
    first_lease_from(v, server, 0)
}

/// Whether newly discovered descriptors are exactly the prepared ones: as
/// many, and each prepared descriptor found unchanged under its name.
pub open spec fn catalog_unchanged(prepared: Seq<ToolView>, discovered: Seq<ToolView>) -> bool {
    prepared.len() == discovered.len() && forall|k: int| 0 <= k < prepared.len() ==> tool_named(discovered, #[trigger] prepared[k].provider_name)
        == Some(prepared[k])
}

/// Check that a binding still serves the catalog a step was prepared with.
pub fn check_ready_catalog(server: &str, prepared: &ServerToolCatalog, discovered: &ServerToolCatalog) -> (r: Result<(), McpRuntimeError>)
    ensures
        match r {
            Ok(()) => catalog_unchanged(prepared.view().tools, discovered.view().tools),
            Err(McpRuntimeError::CatalogChanged { server: s }) => !catalog_unchanged(prepared.view().tools, discovered.view().tools)
                && s@ == server@,
            Err(_) => false,
        },
{
    let p = prepared.tools();
    let d = discovered.tools();
    if p.len() != d.len() {
        return Err(McpRuntimeError::CatalogChanged { server: owned(server) });
    }
    let entries = p.entries();
    let ghost pv = prepared.view().tools;
    let mut i: usize = 0;
    while i < entries.len()
        invariant
            tool_views(entries@) == pv,
            pv == prepared.view().tools,
            d.view() == discovered.view().tools,
            i <= pv.len(),
            forall|k: int| 0 <= k < i ==> tool_named(d.view(), #[trigger] pv[k].provider_name) == Some(pv[k]),
        decreases entries.len() - i,
    {
        assert(pv[i as int] == entries@[i as int].view());
        match d.get(entries[i].provider_name.as_str()) {
            Some(actual) => {
                if !entries[i].equivalent_to(actual) {
                    assert(tool_named(d.view(), pv[i as int].provider_name) != Some(pv[i as int]));
                    return Err(McpRuntimeError::CatalogChanged { server: owned(server) });
                }
            },
            None => {
                assert(tool_named(d.view(), pv[i as int].provider_name) != Some(pv[i as int]));
                return Err(McpRuntimeError::CatalogChanged { server: owned(server) });
            },
        }
        i = i + 1;
    }
    Ok(())
}

/// Check that a call targets exactly what was projected for this step: the
/// prepared declaration and an unchanged prepared descriptor.
pub fn check_projected(definition: &ServerDefinition, catalog: &ServerToolCatalog, tool: &ProjectedMcpTool) -> (r: Result<(), McpRuntimeError>)
    ensures
        ({
            let ok = equivalent(definition.view(), tool.view().server)
                && tool_named(catalog.view().tools, tool.view().descriptor.provider_name) == Some(tool.view().descriptor);
            match r {
                Ok(()) => ok,
                Err(McpRuntimeError::ToolNotProjected { server, tool: t }) => !ok && server@ == definition.view().name
                    && t@ == tool.view().descriptor.provider_name,
                Err(_) => false,
            }
        }),
{
    let name = tool.descriptor().provider_name.as_str();
    let matches = same_definition(definition, tool.server()) && match catalog.tools().get(name) {
        Some(cached) => cached.equivalent_to(tool.descriptor()),
        None => false,
    };
    if !matches {
        return Err(McpRuntimeError::ToolNotProjected { server: owned(definition.name()), tool: owned(name) });
    }
    Ok(())
}

} // verus!
