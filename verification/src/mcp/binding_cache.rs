//! Owner-isolated MCP bindings: their reuse identities, the generation a
//! prepared step pins, the single-flight connection attempts, invalidation
//! and shutdown, and the lifecycle state each failure publishes. Connecting,
//! joining transports and notifying waiters are the host's; bindings and
//! attempts are named here by host-held identities.

use std::sync::Arc;
use vstd::prelude::*;

use crate::mcp::catalog::{
    admissible_digest, binding_identity_blank, skill_identity_blank, AuthenticationView, DefinitionView, ServerAuthentication,
    ServerConfigHash, ServerDefinition, ServerSource, SourceView,
};
use crate::mcp::config::entry_issue;
use crate::mcp::digest::config_digest;
use crate::mcp::tool_registry::{McpRegistry, RegistryView};
use crate::tools::{all_cached, all_from_server, each_cached, each_from_server};
use crate::text::{is_blank, str_eq};
use crate::mcp::lifecycle::{advance, initial_record, next_record, transition, transition_publishes, LifecycleRecord};
use crate::mcp::projection::{CatalogView, ServerToolCatalog};

use crate::mcp::config::{expand_from_environment, EntryView, McpServerEntry, UnresolvedPlaceholder};
use crate::mcp::lifecycle::{McpServerState, McpStateReason};
use crate::mcp::placeholder::{env_lookup, env_view, expanded, placeholders, unresolved_names};
use crate::text::{contains_str, owned, views};

verus! {

/// Why a cached binding could not be obtained or kept.
pub enum McpBindingError {
    /// Authentication must complete before connection reuse or startup.
    AuthenticationRequired { server: String },
    /// The host connector failed. Raw errors may contain credential-bearing URLs.
    ConnectionFailed { server: String },
    /// The connector returned a missing, foreign or differently configured server.
    InvalidBinding { server: String },
    /// Partial discovery cannot justify lazy startup or a step's tool inventory.
    IncompleteCatalog { server: String },
    /// A newer generation superseded the attempt; the caller must re-project.
    Invalidated { server: String },
    /// The caller owning the refresh dropped its future; retry starts fresh.
    Cancelled { server: String },
    /// Shutdown revokes both cached bindings and outstanding refreshes.
    ShuttingDown,
}

/// The lifecycle state and reason a binding failure publishes.
pub open spec fn failure_state(error: McpBindingError) -> (McpServerState, Option<McpStateReason>) {
    match error {
        McpBindingError::AuthenticationRequired { .. } => (McpServerState::AuthRequired, Some(McpStateReason::AuthenticationRequired)),
        McpBindingError::ConnectionFailed { .. } => (McpServerState::Failed, Some(McpStateReason::ConnectionFailed)),
        McpBindingError::IncompleteCatalog { .. } => (McpServerState::Failed, Some(McpStateReason::IncompleteCatalog)),
        McpBindingError::InvalidBinding { .. } => (McpServerState::Failed, Some(McpStateReason::InvalidBinding)),
        McpBindingError::Invalidated { .. } => (McpServerState::Failed, Some(McpStateReason::Invalidated)),
        McpBindingError::Cancelled { .. } => (McpServerState::Failed, Some(McpStateReason::Cancelled)),
        McpBindingError::ShuttingDown => (McpServerState::ShuttingDown, None),
    }
}

/// The lifecycle state and reason a binding failure publishes.
pub fn lifecycle_failure(error: &McpBindingError) -> (r: (McpServerState, Option<McpStateReason>))
    ensures
        r == failure_state(*error),
{
    let reason = match error {
        McpBindingError::AuthenticationRequired { .. } => {
            return (McpServerState::AuthRequired, Some(McpStateReason::AuthenticationRequired));
        },
        McpBindingError::ConnectionFailed { .. } => McpStateReason::ConnectionFailed,
        McpBindingError::IncompleteCatalog { .. } => McpStateReason::IncompleteCatalog,
        McpBindingError::InvalidBinding { .. } => McpStateReason::InvalidBinding,
        McpBindingError::Invalidated { .. } => McpStateReason::Invalidated,
        McpBindingError::Cancelled { .. } => McpStateReason::Cancelled,
        McpBindingError::ShuttingDown => return (McpServerState::ShuttingDown, None),
    };
    (McpServerState::Failed, Some(reason))
}

/// A directory path that starts at the file-system root.
pub open spec fn absolute(d: Seq<char>) -> bool {
    d.len() > 0 && d[0] == '/'
}

/// Why a launch environment could not be captured.
pub enum EnvironmentError {
    /// The working directory is relative; its meaning could change before spawn.
    RelativeDirectory,
    /// A declared override has a placeholder without value or default.
    Unresolved(UnresolvedPlaceholder),
}

/// Exact host-selected launch environment: working directory and variables.
pub struct McpBindingEnvironment {
    directory: String,
    variables: Vec<(String, String)>,
}

pub struct EnvironmentView {
    pub directory: Seq<char>,
    pub variables: Seq<(Seq<char>, Seq<char>)>,
}

/// The environment an entry declares.
pub open spec fn entry_env(e: EntryView) -> Seq<(Seq<char>, Seq<char>)> {
    match e {
        EntryView::Stdio { env, .. } => env,
        EntryView::RemoteHttp { env, .. } => env,
    }
}

/// An override value that resolves against the inherited variables.
pub open spec fn resolvable(value: Seq<char>, inherited: Seq<(Seq<char>, Seq<char>)>) -> bool {
    unresolved_names(placeholders(value), inherited).len() == 0
}

/// Each override expanded against the inherited variables alone, never
/// against another override.
pub open spec fn resolved_overrides(env: Seq<(Seq<char>, Seq<char>)>, inherited: Seq<(Seq<char>, Seq<char>)>) -> Seq<(Seq<char>, Seq<char>)> {
    env.map_values(|p: (Seq<char>, Seq<char>)| (p.0, expanded(p.1, inherited)))
}

pub open spec fn keys_of(env: Seq<(Seq<char>, Seq<char>)>) -> Seq<Seq<char>> {
    env.map_values(|p: (Seq<char>, Seq<char>)| p.0)
}

/// The launch variables: the resolved overrides, then every inherited
/// variable that no override replaces.
pub open spec fn launch_variables(env: Seq<(Seq<char>, Seq<char>)>, inherited: Seq<(Seq<char>, Seq<char>)>) -> Seq<(Seq<char>, Seq<char>)> {
    resolved_overrides(env, inherited) + inherited.filter(|p: (Seq<char>, Seq<char>)| !keys_of(env).contains(p.0))
}

impl McpBindingEnvironment {
    pub closed spec fn view(&self) -> EnvironmentView {
        EnvironmentView { directory: self.directory@, variables: env_view(self.variables@) }
    }

    /// Capture resolved launch inputs; a relative directory is rejected.
    pub fn new(directory: String, variables: Vec<(String, String)>) -> (r: Result<McpBindingEnvironment, EnvironmentError>)
        ensures
            match r {
                Ok(e) => absolute(directory@) && e.view().directory == directory@ && e.view().variables == env_view(variables@),
                Err(EnvironmentError::RelativeDirectory) => !absolute(directory@),
                Err(_) => false,
            },
    {
        let chars = crate::text::chars_of(directory.as_str());
        if chars.len() == 0 || chars[0] != '/' {
            return Err(EnvironmentError::RelativeDirectory);
        }
        Ok(McpBindingEnvironment { directory, variables })
    }

    /// Apply an entry's declared overrides against one captured parent
    /// environment. Each override resolves against the parent only, so
    /// sibling overrides do not depend on their order; the first override
    /// that cannot resolve is reported before the directory is checked.
    pub fn resolve(directory: String, inherited: Vec<(String, String)>, configuration: &McpServerEntry) -> (r: Result<McpBindingEnvironment, EnvironmentError>)
        ensures
            ({
                let env = entry_env(configuration.view());
                let inh = env_view(inherited@);
                match r {
                    Ok(e) => (forall|k: int| 0 <= k < env.len() ==> resolvable(#[trigger] env[k].1, inh)) && absolute(directory@)
                        && e.view().directory == directory@ && e.view().variables == launch_variables(env, inh),
                    Err(EnvironmentError::Unresolved(u)) => exists|k: int| 0 <= k < env.len() && !resolvable(#[trigger] env[k].1, inh)
                        && (forall|j: int| 0 <= j < k ==> resolvable(#[trigger] env[j].1, inh))
                        && u.name@ == unresolved_names(placeholders(env[k].1), inh)[0],
                    Err(EnvironmentError::RelativeDirectory) => (forall|k: int| 0 <= k < env.len() ==> resolvable(#[trigger] env[k].1, inh))
                        && !absolute(directory@),
                }
            }),
    {
        let declared = match configuration {
            McpServerEntry::Stdio { env, .. } => env,
            McpServerEntry::RemoteHttp { env, .. } => env,
        };
        let ghost env = entry_env(configuration.view());
        let ghost inh = env_view(inherited@);
        assert(env == env_view(declared@));
        let mut variables: Vec<(String, String)> = Vec::new();
        let mut keys: Vec<String> = Vec::new();
        let mut i: usize = 0;
        while i < declared.len()
            invariant
                env == env_view(declared@),
                env == entry_env(configuration.view()),
                inh == env_view(inherited@),
                i <= env.len(),
                env_view(variables@) == resolved_overrides(env.subrange(0, i as int), inh),
                views(keys@) == keys_of(env.subrange(0, i as int)),
                forall|j: int| 0 <= j < i ==> resolvable(#[trigger] env[j].1, inh),
            decreases declared.len() - i,
        {
            assert(env[i as int] == (declared@[i as int].0@, declared@[i as int].1@));
            let value = match expand_from_environment(declared[i].1.as_str(), inherited.as_slice()) {
                Ok(v) => v,
                Err(u) => {
                    assert(!resolvable(env[i as int].1, inh));
                    assert(u.name@ == unresolved_names(placeholders(env[i as int].1), inh)[0]);
                    return Err(EnvironmentError::Unresolved(u));
                },
            };
            let ghost vb = variables@;
            let ghost kb = keys@;
            variables.push((owned(declared[i].0.as_str()), value));
            keys.push(owned(declared[i].0.as_str()));
            assert(env.subrange(0, i + 1) =~= env.subrange(0, i as int).push(env[i as int]));
            assert(env_view(variables@) =~= env_view(vb).push((env[i as int].0, expanded(env[i as int].1, inh))));
            assert(resolved_overrides(env.subrange(0, i + 1), inh) =~= resolved_overrides(env.subrange(0, i as int), inh).push(
                (env[i as int].0, expanded(env[i as int].1, inh)),
            ));
            assert(views(keys@) =~= views(kb).push(env[i as int].0));
            assert(keys_of(env.subrange(0, i + 1)) =~= keys_of(env.subrange(0, i as int)).push(env[i as int].0));
            i = i + 1;
        }
        assert(env.subrange(0, env.len() as int) =~= env);
        let ghost pred = |p: (Seq<char>, Seq<char>)| !keys_of(env).contains(p.0);
        let ghost start = env_view(variables@);
        let mut j: usize = 0;
        while j < inherited.len()
            invariant
                inh == env_view(inherited@),
                env == entry_env(configuration.view()),
                forall|k: int| 0 <= k < env.len() ==> resolvable(#[trigger] env[k].1, inh),
                views(keys@) == keys_of(env),
                pred == (|p: (Seq<char>, Seq<char>)| !keys_of(env).contains(p.0)),
                j <= inh.len(),
                env_view(variables@) == start + inh.subrange(0, j as int).filter(pred),
            decreases inherited.len() - j,
        {
            let ghost pre = inh.subrange(0, j + 1);
            assert(pre.drop_last() =~= inh.subrange(0, j as int));
            assert(pre.last() == (inherited@[j as int].0@, inherited@[j as int].1@));
            proof {
                reveal(Seq::filter);
            }
            if !contains_str(&keys, inherited[j].0.as_str()) {
                let ghost vb = variables@;
                variables.push((owned(inherited[j].0.as_str()), owned(inherited[j].1.as_str())));
                assert(env_view(variables@) =~= env_view(vb).push(pre.last()));
            }
            j = j + 1;
        }
        assert(inh.subrange(0, inh.len() as int) =~= inh);
        McpBindingEnvironment::new(directory, variables)
    }

    /// Host-resolved working directory; not a file-system permission grant.
    pub fn directory(&self) -> (r: &str)
        ensures
            r@ == self.view().directory,
    {
        self.directory.as_str()
    }

    /// Full launch environment, including secrets.
    pub fn variables(&self) -> (r: &Vec<(String, String)>)
        ensures
            env_view(r@) == self.view().variables,
    {
        &self.variables
    }
}

proof fn lemma_lookup_concat(a: Seq<(Seq<char>, Seq<char>)>, b: Seq<(Seq<char>, Seq<char>)>, n: Seq<char>)
    ensures
        env_lookup(a + b, n) == if env_lookup(a, n) is Some { env_lookup(a, n) } else { env_lookup(b, n) },
    decreases a.len(),
{
    if a.len() > 0 {
        assert((a + b).drop_first() =~= a.drop_first() + b);
        assert((a + b)[0] == a[0]);
        lemma_lookup_concat(a.drop_first(), b, n);
    } else {
        assert(a + b =~= b);
    }
}

proof fn lemma_lookup_overrides(env: Seq<(Seq<char>, Seq<char>)>, inh: Seq<(Seq<char>, Seq<char>)>, n: Seq<char>)
    ensures
        env_lookup(resolved_overrides(env, inh), n) == match env_lookup(env, n) {
            Some(v) => Some(expanded(v, inh)),
            None => None,
        },
        env_lookup(env, n) is Some <==> keys_of(env).contains(n),
    decreases env.len(),
{
    if env.len() > 0 {
        assert(resolved_overrides(env, inh).drop_first() =~= resolved_overrides(env.drop_first(), inh));
        assert(keys_of(env).drop_first() =~= keys_of(env.drop_first()));
        lemma_lookup_overrides(env.drop_first(), inh, n);
        assert(keys_of(env)[0] == env[0].0);
        if keys_of(env.drop_first()).contains(n) {
            let k = choose|k: int| 0 <= k < keys_of(env.drop_first()).len() && keys_of(env.drop_first())[k] == n;
            assert(keys_of(env)[k + 1] == n);
        }
        if keys_of(env).contains(n) && env[0].0 != n {
            let k = choose|k: int| 0 <= k < keys_of(env).len() && keys_of(env)[k] == n;
            assert(keys_of(env.drop_first())[k - 1] == n);
        }
    }
}

proof fn lemma_lookup_filtered(inh: Seq<(Seq<char>, Seq<char>)>, keys: Seq<Seq<char>>, n: Seq<char>)
    requires
        !keys.contains(n),
    ensures
        env_lookup(inh.filter(|p: (Seq<char>, Seq<char>)| !keys.contains(p.0)), n) == env_lookup(inh, n),
    decreases inh.len(),
{
    let pred = |p: (Seq<char>, Seq<char>)| !keys.contains(p.0);
    if inh.len() > 0 {
        lemma_lookup_filtered(inh.drop_first(), keys, n);
        lemma_filter_first(inh, pred);
        let rest = inh.drop_first().filter(pred);
        if pred(inh[0]) {
            let f = seq![inh[0]] + rest;
            assert(f[0] == inh[0]);
            assert(f.drop_first() =~= rest);
            assert(env_lookup(f, n) == env_lookup(inh, n));
        } else {
            assert(inh[0].0 != n) by {
                if inh[0].0 == n {
                    assert(!keys.contains(inh[0].0));
                }
            }
        }
    } else {
        assert(inh.filter(pred) =~= inh) by {
            reveal(Seq::filter);
        }
    }
}

proof fn lemma_filter_first(s: Seq<(Seq<char>, Seq<char>)>, pred: spec_fn((Seq<char>, Seq<char>)) -> bool)
    requires
        s.len() > 0,
    ensures
        s.filter(pred) == if pred(s[0]) { seq![s[0]] + s.drop_first().filter(pred) } else { s.drop_first().filter(pred) },
    decreases s.len(),
{
    reveal(Seq::filter);
    if s.len() == 1 {
        assert(s.drop_first() =~= Seq::<(Seq<char>, Seq<char>)>::empty());
        assert(s.drop_last() =~= Seq::<(Seq<char>, Seq<char>)>::empty());
        assert(s.drop_first().filter(pred) =~= Seq::<(Seq<char>, Seq<char>)>::empty());
        assert(s.drop_last().filter(pred) =~= Seq::<(Seq<char>, Seq<char>)>::empty());
        if pred(s[0]) {
            assert(s.filter(pred) =~= seq![s[0]]);
            assert(seq![s[0]] + s.drop_first().filter(pred) =~= seq![s[0]]);
        }
    } else {
        lemma_filter_first(s.drop_last(), pred);
        assert(s.drop_last().drop_first() =~= s.drop_first().drop_last());
        assert(s.drop_first().last() == s.last());
        if pred(s[0]) {
            assert(s.filter(pred) =~= seq![s[0]] + s.drop_first().filter(pred));
        } else {
            assert(s.filter(pred) =~= s.drop_first().filter(pred));
        }
    }
}

/// What a launched process sees for a variable: the override declared for
/// it, resolved against the parent environment, or else the inherited value.
pub proof fn law_overrides_replace_inherited_values(env: Seq<(Seq<char>, Seq<char>)>, inh: Seq<(Seq<char>, Seq<char>)>, name: Seq<char>)
    ensures
        env_lookup(launch_variables(env, inh), name) == match env_lookup(env, name) {
            Some(v) => Some(expanded(v, inh)),
            None => env_lookup(inh, name),
        },
{
    lemma_lookup_overrides(env, inh, name);
    lemma_lookup_concat(resolved_overrides(env, inh), inh.filter(|p: (Seq<char>, Seq<char>)| !keys_of(env).contains(p.0)), name);
    if env_lookup(env, name) is None {
        lemma_lookup_filtered(inh, keys_of(env), name);
    }
}

/// Whether two launch environments are the same.
pub fn same_environment(a: &McpBindingEnvironment, b: &McpBindingEnvironment) -> (r: bool)
    ensures
        r == (a.view() == b.view()),
{
    if !crate::text::str_eq(a.directory.as_str(), b.directory.as_str()) {
        return false;
    }
    if a.variables.len() != b.variables.len() {
        assert(a.view().variables.len() != b.view().variables.len());
        return false;
    }
    let ghost av = env_view(a.variables@);
    let ghost bv = env_view(b.variables@);
    let mut i: usize = 0;
    while i < a.variables.len()
        invariant
            av == env_view(a.variables@),
            bv == env_view(b.variables@),
            a.variables@.len() == b.variables@.len(),
            i <= a.variables@.len(),
            forall|j: int| 0 <= j < i ==> av[j] == bv[j],
        decreases a.variables.len() - i,
    {
        if !crate::text::str_eq(a.variables[i].0.as_str(), b.variables[i].0.as_str())
            || !crate::text::str_eq(a.variables[i].1.as_str(), b.variables[i].1.as_str()) {
            assert(av[i as int] != bv[i as int]);
            return false;
        }
        i = i + 1;
    }
    assert(av =~= bv);
    true
}

/// Exact reuse identity: owner, server, provenance, configuration,
/// requiredness, authentication revision and launch environment.
pub struct McpBindingKey {
    owner: String,
    server: String,
    source: ServerSource,
    config: ServerConfigHash,
    required: bool,
    authentication: ServerAuthentication,
    environment: Arc<McpBindingEnvironment>,
}

pub struct KeyView {
    pub owner: Seq<char>,
    pub server: Seq<char>,
    pub source: SourceView,
    pub config: Seq<char>,
    pub required: bool,
    pub authentication: AuthenticationView,
    pub environment: EnvironmentView,
}

/// Whether a cached binding still matches its request: the catalog was
/// discovered for the request's exact declaration and is complete; the
/// registry serves exactly that catalog's tools, from this one server,
/// without frozen bindings; and its only configuration entry is the
/// server's, admissible and with the request's digest.
pub open spec fn binding_consistent(
    key: KeyView,
    catalog: CatalogView,
    registry: RegistryView,
    entries: Seq<(String, McpServerEntry)>,
) -> bool {
    &&& request_key(key.owner, catalog.definition, key.environment) == key
    &&& catalog.complete
    &&& registry.descriptors.len() == catalog.tools.len()
    &&& all_cached(registry.descriptors, catalog.tools)
    &&& entries.len() == 1
    &&& !registry.frozen
    &&& registry.servers == seq![key.server]
    &&& all_from_server(registry.descriptors, key.server)
    &&& entries[0].0@ == key.server
    &&& !is_blank(key.server) && !skill_identity_blank(key.source) && !binding_identity_blank(key.authentication)
    &&& entry_issue(entries[0].1.view()) is None
    &&& config_digest(entries[0].1.view()) == key.config
}

/// Whether the registry serves exactly a complete catalog's tools.
fn serves_catalog(registry: &McpRegistry, catalog: &ServerToolCatalog) -> (r: bool)
    ensures
        r == (catalog.view().complete && registry.view().descriptors.len() == catalog.view().tools.len() && all_cached(
            registry.view().descriptors,
            catalog.view().tools,
        )),
{
    let descriptors = registry.descriptors();
    let tools = catalog.tools();
    if !catalog.is_complete() || descriptors.len() != tools.len() {
        return false;
    }
    each_cached(&descriptors, tools)
}

/// Whether the registry holds the one server `server` and only its tools.
fn serves_only(registry: &McpRegistry, server: &str) -> (r: bool)
    ensures
        r == (registry.view().servers == seq![server@] && all_from_server(registry.view().descriptors, server@)),
{
    let names = registry.server_names();
    if names.len() != 1 || !str_eq(names[0].as_str(), server) {
        assert(crate::mcp::tool_registry::string_views(names@).len() == names@.len());
        proof {
            if names@.len() == 1 {
                assert(crate::mcp::tool_registry::string_views(names@)[0] == names@[0]@);
            }
        }
        return false;
    }
    assert(crate::mcp::tool_registry::string_views(names@) =~= seq![server@]);
    let descriptors = registry.descriptors();
    each_from_server(&descriptors, server)
}

/// Check a cached binding against its request before reusing it. `entries`
/// are the registry's configuration entries.
pub fn registry_matches(
    request: &McpBindingRequest,
    catalog: &ServerToolCatalog,
    registry: &McpRegistry,
    entries: &Vec<(String, McpServerEntry)>,
) -> (r: bool)
    ensures
        r == binding_consistent(request.view().0, catalog.view(), registry.view(), entries@),
{
    let key = request.key();
    if !key.declared_by(catalog.definition()) {
        return false;
    }
    if !serves_catalog(registry, catalog) {
        return false;
    }
    if entries.len() != 1 || registry.has_frozen_bindings() {
        return false;
    }
    if !serves_only(registry, key.server.as_str()) {
        return false;
    }
    if !str_eq(entries[0].0.as_str(), key.server.as_str()) {
        return false;
    }
    match admissible_digest(key.server.as_str(), &key.source, &entries[0].1, &key.authentication) {
        Some(digest) => digest.same_as(&key.config),
        None => false,
    }
}

/// A binding that cannot be used until authentication completes.
pub open spec fn needs_authentication(a: AuthenticationView) -> bool {
    a == AuthenticationView::Unknown || a == AuthenticationView::Required
}

impl McpBindingKey {
    pub closed spec fn view(&self) -> KeyView {
        KeyView {
            owner: self.owner@,
            server: self.server@,
            source: self.source.view(),
            config: self.config.view(),
            required: self.required,
            authentication: self.authentication.view(),
            environment: self.environment.view(),
        }
    }

    /// Whether this key is the one a request for `definition` would have:
    /// same server, source, digest, requirement and authentication.
    pub fn declared_by(&self, definition: &ServerDefinition) -> (r: bool)
        ensures
            r == (request_key(self.view().owner, definition.view(), self.view().environment) == self.view()),
    {
        str_eq(definition.name(), self.server.as_str()) && definition.source().same_as(&self.source)
            && definition.config_hash().same_as(&self.config) && definition.is_required() == self.required
            && definition.authentication().same_as(&self.authentication)
    }

    /// Whether two keys name the same binding.
    pub fn same_as(&self, other: &McpBindingKey) -> (r: bool)
        ensures
            r == (self.view() == other.view()),
    {
        crate::text::str_eq(self.owner.as_str(), other.owner.as_str()) && crate::text::str_eq(self.server.as_str(), other.server.as_str())
            && self.source.same_as(&other.source) && self.config.same_as(&other.config) && self.required == other.required
            && self.authentication.same_as(&other.authentication) && same_environment(&self.environment, &other.environment)
    }

    /// An equal copy.
    pub fn duplicate(&self) -> (r: McpBindingKey)
        ensures
            r.view() == self.view(),
    {
        McpBindingKey {
            owner: owned(self.owner.as_str()),
            server: owned(self.server.as_str()),
            source: self.source.duplicate(),
            config: self.config.duplicate(),
            required: self.required,
            authentication: self.authentication.duplicate(),
            environment: crate::text::share(&self.environment),
        }
    }

    /// The server this key binds.
    pub fn server(&self) -> (r: &str)
        ensures
            r@ == self.view().server,
    {
        self.server.as_str()
    }

    /// The verified owner this key belongs to.
    pub fn owner(&self) -> (r: &str)
        ensures
            r@ == self.view().owner,
    {
        self.owner.as_str()
    }

    /// Whether authentication must complete before the binding is used.
    pub fn authentication_required(&self) -> (r: bool)
        ensures
            r == needs_authentication(self.view().authentication),
    {
        match self.authentication {
            ServerAuthentication::Unknown | ServerAuthentication::Required => true,
            _ => false,
        }
    }
}

/// The key of a selected definition for a verified owner and environment.
pub open spec fn request_key(owner: Seq<char>, d: DefinitionView, environment: EnvironmentView) -> KeyView {
    KeyView {
        owner,
        server: d.name,
        source: d.source,
        config: d.config_hash,
        required: d.required,
        authentication: d.authentication,
        environment,
    }
}

/// One immutable connection request, created after policy projection.
pub struct McpBindingRequest {
    key: McpBindingKey,
    definition: Arc<ServerDefinition>,
}

impl McpBindingRequest {
    pub closed spec fn view(&self) -> (KeyView, DefinitionView) {
        (self.key.view(), self.definition.view())
    }

    /// Associate a selected definition with a verified owner identity.
    /// Authentication revisions come from the definition.
    pub fn new(owner: String, definition: Arc<ServerDefinition>, environment: Arc<McpBindingEnvironment>) -> (r: McpBindingRequest)
        ensures
            r.view().0 == request_key(owner@, definition.view(), environment.view()),
            r.view().1 == definition.view(),
    {
        let key = McpBindingKey {
            owner,
            server: owned(definition.name()),
            source: definition.source().duplicate(),
            config: definition.config_hash().duplicate(),
            required: definition.is_required(),
            authentication: definition.authentication().duplicate(),
            environment,
        };
        McpBindingRequest { key, definition }
    }

    /// Identity used for lookup and explicit invalidation.
    pub fn key(&self) -> (r: &McpBindingKey)
        ensures
            r.view() == self.view().0,
    {
        &self.key
    }

    /// Exact declaration the connector must establish.
    pub fn definition(&self) -> (r: &Arc<ServerDefinition>)
        ensures
            r.view() == self.view().1,
    {
        &self.definition
    }

    /// Snapshot the connector must use, without ambient fallback.
    pub fn environment(&self) -> (r: &McpBindingEnvironment)
        ensures
            r.view() == self.view().0.environment,
    {
        &self.key.environment
    }

    /// Verified owner; never supplied by model arguments.
    pub fn owner(&self) -> (r: &str)
        ensures
            r@ == self.view().0.owner,
    {
        self.key.owner()
    }
}

/// What a binding failure says, as plain values.
pub enum BindingFailure {
    AuthenticationRequired(Seq<char>),
    ConnectionFailed(Seq<char>),
    InvalidBinding(Seq<char>),
    IncompleteCatalog(Seq<char>),
    Invalidated(Seq<char>),
    Cancelled(Seq<char>),
    ShuttingDown,
}

impl McpBindingError {
    pub open spec fn view(&self) -> BindingFailure {
        match self {
            McpBindingError::AuthenticationRequired { server } => BindingFailure::AuthenticationRequired(server@),
            McpBindingError::ConnectionFailed { server } => BindingFailure::ConnectionFailed(server@),
            McpBindingError::InvalidBinding { server } => BindingFailure::InvalidBinding(server@),
            McpBindingError::IncompleteCatalog { server } => BindingFailure::IncompleteCatalog(server@),
            McpBindingError::Invalidated { server } => BindingFailure::Invalidated(server@),
            McpBindingError::Cancelled { server } => BindingFailure::Cancelled(server@),
            McpBindingError::ShuttingDown => BindingFailure::ShuttingDown,
        }
    }
}

/// The lifecycle state and reason a binding failure publishes.
pub open spec fn failure_publishes(f: BindingFailure) -> (McpServerState, Option<McpStateReason>) {
    match f {
        BindingFailure::AuthenticationRequired(_) => (McpServerState::AuthRequired, Some(McpStateReason::AuthenticationRequired)),
        BindingFailure::ConnectionFailed(_) => (McpServerState::Failed, Some(McpStateReason::ConnectionFailed)),
        BindingFailure::IncompleteCatalog(_) => (McpServerState::Failed, Some(McpStateReason::IncompleteCatalog)),
        BindingFailure::InvalidBinding(_) => (McpServerState::Failed, Some(McpStateReason::InvalidBinding)),
        BindingFailure::Invalidated(_) => (McpServerState::Failed, Some(McpStateReason::Invalidated)),
        BindingFailure::Cancelled(_) => (McpServerState::Failed, Some(McpStateReason::Cancelled)),
        BindingFailure::ShuttingDown => (McpServerState::ShuttingDown, None),
    }
}

/// The generation pinned during preflight. An old step cannot revive a
/// revoked binding by presenting the same key after invalidation.
pub struct McpBindingTicket {
    key: McpBindingKey,
    generation: u128,
}

pub struct TicketView {
    pub key: KeyView,
    pub generation: u128,
}

impl McpBindingTicket {
    pub closed spec fn view(&self) -> TicketView {
        TicketView { key: self.key.view(), generation: self.generation }
    }

    /// The key this ticket pins.
    pub fn key(&self) -> (r: &McpBindingKey)
        ensures
            r.view() == self.view().key,
    {
        &self.key
    }
}

/// One binding identity in the cache, as plain values: its generation, the
/// published lifecycle, the ready binding and the attempt in flight (each
/// named by the host's identity), and the last complete catalog.
pub struct EntryState {
    pub key: KeyView,
    pub generation: u128,
    pub lifecycle: LifecycleRecord,
    pub ready: Option<u64>,
    /// The attempt in flight and the generation it started in.
    pub refresh: Option<(u64, u128)>,
    pub catalog: Option<CatalogView>,
}

pub struct CacheView {
    pub closed: bool,
    pub entries: Seq<EntryState>,
    /// Revoked bindings whose transports the host has not yet joined.
    pub retired: Seq<u64>,
    /// The last generation handed out; every generation so far is at most this.
    pub last_generation: u128,
    /// The last attempt identity handed out.
    pub last_refresh: u64,
}

struct CacheEntry {
    key: McpBindingKey,
    generation: u128,
    lifecycle: LifecycleRecord,
    ready: Option<u64>,
    refresh: Option<(u64, u128)>,
    catalog: Option<ServerToolCatalog>,
}

impl CacheEntry {
    spec fn view(&self) -> EntryState {
        EntryState {
            key: self.key.view(),
            generation: self.generation,
            lifecycle: self.lifecycle,
            ready: self.ready,
            refresh: self.refresh,
            catalog: match self.catalog {
                Some(c) => Some(c.view()),
                None => None,
            },
        }
    }
}

spec fn cache_entries(v: Seq<CacheEntry>) -> Seq<EntryState> {
    v.map_values(|e: CacheEntry| e.view())
}

/// The position of a key's entry, or -1.
pub open spec fn key_index(es: Seq<EntryState>, key: KeyView) -> int
    decreases es.len(),
{
    if es.len() == 0 {
        -1
    } else if es.last().key == key {
        es.len() - 1
    } else {
        key_index(es.drop_last(), key)
    }
}

/// No key has two entries, and no generation or attempt identity exceeds
/// the last one handed out.
pub open spec fn cache_well_formed(v: CacheView) -> bool {
    &&& forall|a: int, b: int| 0 <= a < b < v.entries.len() ==> #[trigger] v.entries[a].key != #[trigger] v.entries[b].key
    &&& forall|k: int| 0 <= k < v.entries.len() ==> (#[trigger] v.entries[k]).generation <= v.last_generation
    &&& forall|k: int| 0 <= k < v.entries.len() ==> ((#[trigger] v.entries[k]).refresh matches Some(r) ==> r.0 <= v.last_refresh && r.1 <= v.last_generation)
}

pub proof fn lemma_key_index(es: Seq<EntryState>, key: KeyView)
    ensures
        -1 <= key_index(es, key) < es.len(),
        key_index(es, key) >= 0 ==> es[key_index(es, key)].key == key,
        key_index(es, key) == -1 ==> forall|k: int| 0 <= k < es.len() ==> #[trigger] es[k].key != key,
        (forall|a: int, b: int| 0 <= a < b < es.len() ==> #[trigger] es[a].key != #[trigger] es[b].key) ==> forall|k: int|
            0 <= k < es.len() && #[trigger] es[k].key == key ==> key_index(es, key) == k,
    decreases es.len(),
{
    if es.len() > 0 {
        lemma_key_index(es.drop_last(), key);
        if key_index(es, key) == -1 {
            assert forall|k: int| 0 <= k < es.len() implies #[trigger] es[k].key != key by {
                if k < es.len() - 1 {
                    assert(es.drop_last()[k] == es[k]);
                }
            }
        }
        if key_index(es, key) >= 0 && es.last().key != key {
            assert(es.drop_last()[key_index(es, key)] == es[key_index(es, key)]);
        }
        if forall|a: int, b: int| 0 <= a < b < es.len() ==> #[trigger] es[a].key != #[trigger] es[b].key {
            assert forall|k: int| 0 <= k < es.len() && #[trigger] es[k].key == key implies key_index(es, key) == k by {
                if k < es.len() - 1 {
                    assert(es[k].key != es[es.len() - 1].key);
                    assert(es.drop_last()[k] == es[k]);
                }
            }
        }
    }
}

/// Whether a ticket still pins the current generation of its key.
pub open spec fn ticket_current(v: CacheView, t: TicketView) -> bool {
    !v.closed && key_index(v.entries, t.key) >= 0 && v.entries[key_index(v.entries, t.key)].generation == t.generation
}

/// What checking a ticket gives: refused after shutdown, or once its
/// generation is superseded.
pub open spec fn ticket_check(v: CacheView, t: TicketView) -> Option<BindingFailure> {
    if v.closed {
        Some(BindingFailure::ShuttingDown)
    } else if !ticket_current(v, t) {
        Some(BindingFailure::Invalidated(t.key.server))
    } else {
        None
    }
}

/// The first lifecycle record of a binding.
pub open spec fn first_record(generation: u128, authentication_required: bool) -> LifecycleRecord {
    LifecycleRecord {
        generation,
        sequence: 0,
        state: if authentication_required { McpServerState::AuthRequired } else { McpServerState::Disabled },
        reason: if authentication_required { Some(McpStateReason::AuthenticationRequired) } else { None },
    }
}

/// A fresh entry for a key.
pub open spec fn fresh_entry(key: KeyView, generation: u128) -> EntryState {
    EntryState {
        key,
        generation,
        lifecycle: first_record(generation, needs_authentication(key.authentication)),
        ready: None,
        refresh: None,
        catalog: None,
    }
}

/// A lifecycle record after a requested transition, published or not.
pub open spec fn applied(latest: LifecycleRecord, generation: u128, next: McpServerState, reason: Option<McpStateReason>) -> LifecycleRecord {
    if transition_publishes(latest, generation, next, reason) {
        next_record(latest, generation, next, reason)
    } else {
        latest
    }
}

fn apply(latest: LifecycleRecord, generation: u128, next: McpServerState, reason: Option<McpStateReason>) -> (r: LifecycleRecord)
    ensures
        r == applied(latest, generation, next, reason),
{
    match transition(latest, generation, next, reason) {
        Some(rec) => rec,
        None => latest,
    }
}

/// Shared across runs, but never across distinct binding identities.
pub struct McpBindingCache {
    closed: bool,
    entries: Vec<CacheEntry>,
    retired: Vec<u64>,
    last_generation: u128,
    last_refresh: u64,
}

impl McpBindingCache {
    pub closed spec fn view(&self) -> CacheView {
        CacheView {
            closed: self.closed,
            entries: cache_entries(self.entries@),
            retired: self.retired@,
            last_generation: self.last_generation,
            last_refresh: self.last_refresh,
        }
    }

    #[verifier::type_invariant]
    spec fn well_formed(&self) -> bool {
        cache_well_formed(self.view())
    }

    /// An open cache without entries.
    pub fn new() -> (r: McpBindingCache)
        ensures
            r.view() == (CacheView { closed: false, entries: Seq::empty(), retired: Seq::empty(), last_generation: 0, last_refresh: 0 }),
    {
        let r = McpBindingCache { closed: false, entries: Vec::new(), retired: Vec::new(), last_generation: 0, last_refresh: 0 };
        assert(cache_entries(r.entries@) =~= Seq::<EntryState>::empty());
        r
    }

    fn position(&self, key: &McpBindingKey) -> (r: Option<usize>)
        ensures
            match r {
                Some(i) => i as int == key_index(self.view().entries, key.view()) && i < self.view().entries.len(),
                None => key_index(self.view().entries, key.view()) == -1,
            },
    {
        proof {
            use_type_invariant(self);
            lemma_key_index(self.view().entries, key.view());
        }
        let ghost es = self.view().entries;
        let mut i: usize = 0;
        while i < self.entries.len()
            invariant
                es == cache_entries(self.entries@),
                es == self.view().entries,
                -1 <= key_index(es, key.view()) < es.len(),
                key_index(es, key.view()) >= 0 ==> es[key_index(es, key.view())].key == key.view(),
                forall|k: int| 0 <= k < es.len() && #[trigger] es[k].key == key.view() ==> key_index(es, key.view()) == k,
                i <= es.len(),
                forall|k: int| 0 <= k < i ==> #[trigger] es[k].key != key.view(),
            decreases self.entries.len() - i,
        {
            assert(es[i as int] == self.entries@[i as int].view());
            if self.entries[i].key.same_as(key) {
                assert(es[i as int].key == key.view());
                return Some(i);
            }
            i = i + 1;
        }
        None
    }

    fn check(&self, ticket: &McpBindingTicket) -> (r: Result<usize, McpBindingError>)
        ensures
            match ticket_check(self.view(), ticket.view()) {
                Some(f) => r matches Err(e) && e.view() == f,
                None => r matches Ok(i) && i as int == key_index(self.view().entries, ticket.view().key),
            },
    {
        if self.closed {
            return Err(McpBindingError::ShuttingDown);
        }
        match self.position(&ticket.key) {
            Some(i) => {
                if self.entries[i].generation == ticket.generation {
                    Ok(i)
                } else {
                    Err(McpBindingError::Invalidated { server: owned(ticket.key.server()) })
                }
            },
            None => Err(McpBindingError::Invalidated { server: owned(ticket.key.server()) }),
        }
    }

    /// Check that a ticket still pins its key's current generation.
    pub fn check_ticket(&self, ticket: &McpBindingTicket) -> (r: Result<(), McpBindingError>)
        ensures
            match ticket_check(self.view(), ticket.view()) {
                Some(f) => r matches Err(e) && e.view() == f,
                None => r is Ok,
            },
    {
        match self.check(ticket) {
            Ok(_) => Ok(()),
            Err(e) => Err(e),
        }
    }

    /// Pin the generation of a key before inspecting its catalog or preparing
    /// a step, creating a dormant entry for a new key. Refused after
    /// shutdown, and once the generations are exhausted.
    pub fn pin(&mut self, key: &McpBindingKey) -> (r: Result<McpBindingTicket, McpBindingError>)
        ensures
            ({
                let v = old(self).view();
                let i = key_index(v.entries, key.view());
                if v.closed {
                    r matches Err(e) && e.view() == BindingFailure::ShuttingDown && final(self).view() == v
                } else if i >= 0 {
                    r matches Ok(t) && t.view() == (TicketView { key: key.view(), generation: v.entries[i].generation })
                        && final(self).view() == v
                } else if v.last_generation == u128::MAX {
                    r matches Err(e) && e.view() == BindingFailure::ShuttingDown && final(self).view() == v
                } else {
                    let g = (v.last_generation + 1) as u128;
                    r matches Ok(t) && t.view() == (TicketView { key: key.view(), generation: g })
                        && final(self).view() == (CacheView { entries: v.entries.push(fresh_entry(key.view(), g)), last_generation: g, ..v })
                }
            }),
    {
        proof {
            use_type_invariant(&*self);
        }
        if self.closed {
            return Err(McpBindingError::ShuttingDown);
        }
        match self.position(key) {
            Some(i) => Ok(McpBindingTicket { key: key.duplicate(), generation: self.entries[i].generation }),
            None => {
                if self.last_generation == u128::MAX {
                    return Err(McpBindingError::ShuttingDown);
                }
                let g = self.last_generation + 1;
                let ghost v = self.view();
                proof {
                    lemma_key_index(v.entries, key.view());
                }
                let entry = CacheEntry {
                    key: key.duplicate(),
                    generation: g,
                    lifecycle: initial_record(g, key.authentication_required()),
                    ready: None,
                    refresh: None,
                    catalog: None,
                };
                let mut entries = Vec::new();
                std::mem::swap(&mut entries, &mut self.entries);
                entries.push(entry);
                assert(cache_entries(entries@) =~= v.entries.push(fresh_entry(key.view(), g)));
                self.last_generation = g;
                self.entries = entries;
                Ok(McpBindingTicket { key: key.duplicate(), generation: g })
            },
        }
    }

    /// The complete catalog of exactly the pinned generation, if one is known.
    pub fn catalog(&self, ticket: &McpBindingTicket) -> (r: Result<Option<&ServerToolCatalog>, McpBindingError>)
        ensures
            match ticket_check(self.view(), ticket.view()) {
                Some(f) => r matches Err(e) && e.view() == f,
                None => r matches Ok(c) && match c {
                    Some(c) => self.view().entries[key_index(self.view().entries, ticket.view().key)].catalog == Some(c.view()),
                    None => self.view().entries[key_index(self.view().entries, ticket.view().key)].catalog is None,
                },
            },
    {
        let i = match self.check(ticket) {
            Ok(i) => i,
            Err(e) => return Err(e),
        };
        proof {
            lemma_key_index(self.view().entries, ticket.view().key);
            assert(self.view().entries[i as int] == self.entries@[i as int].view());
        }
        match &self.entries[i].catalog {
            Some(c) => Ok(Some(c)),
            None => Ok(None),
        }
    }

    /// The latest published lifecycle of exactly the pinned generation.
    pub fn lifecycle(&self, ticket: &McpBindingTicket) -> (r: Result<LifecycleRecord, McpBindingError>)
        ensures
            match ticket_check(self.view(), ticket.view()) {
                Some(f) => r matches Err(e) && e.view() == f,
                None => r matches Ok(l) && l == self.view().entries[key_index(self.view().entries, ticket.view().key)].lifecycle,
            },
    {
        let i = match self.check(ticket) {
            Ok(i) => i,
            Err(e) => return Err(e),
        };
        proof {
            lemma_key_index(self.view().entries, ticket.view().key);
            assert(self.view().entries[i as int] == self.entries@[i as int].view());
        }
        Ok(self.entries[i].lifecycle)
    }

    /// Observe one exact binding identity: pin it, creating a dormant or
    /// authentication-required entry, and report its latest lifecycle.
    /// Never starts a server.
    pub fn observe(&mut self, key: &McpBindingKey) -> (r: Result<LifecycleRecord, McpBindingError>)
        ensures
            match r {
                Ok(l) => !final(self).view().closed && key_index(final(self).view().entries, key.view()) >= 0
                    && l == final(self).view().entries[key_index(final(self).view().entries, key.view())].lifecycle,
                Err(e) => e.view() == BindingFailure::ShuttingDown,
            },
    {
        let ticket = match self.pin(key) {
            Ok(t) => t,
            Err(e) => return Err(e),
        };
        proof {
            lemma_key_index(old(self).view().entries, key.view());
            lemma_key_index(self.view().entries, key.view());
            if key_index(old(self).view().entries, key.view()) == -1 {
                let es = self.view().entries;
                assert(es[es.len() - 1].key == key.view());
                use_type_invariant(&*self);
            }
        }
        self.lifecycle(&ticket)
    }
}

/// What a caller of `get_or_connect` does next.
pub enum ConnectStep {
    /// Use this ready binding.
    Ready(u64),
    /// Another caller leads this attempt; wait for its result.
    Wait(u64),
    /// Lead this new attempt: connect, then report through `finish_refresh`.
    Lead(u64),
}

/// The entry after an attempt starts.
pub open spec fn leading(e: EntryState, refresh: u64) -> EntryState {
    EntryState {
        refresh: Some((refresh, e.generation)),
        lifecycle: applied(e.lifecycle, e.generation, McpServerState::Connecting, None),
        ..e
    }
}

/// Whether an attempt is still the current one of its key's entry.
pub open spec fn refresh_current(v: CacheView, key: KeyView, refresh: u64) -> bool {
    let i = key_index(v.entries, key);
    !v.closed && i >= 0 && v.entries[i].refresh == Some((refresh, v.entries[i].generation))
}

/// Whether the entry of a key still records this attempt.
pub open spec fn refresh_recorded(v: CacheView, key: KeyView, refresh: u64) -> bool {
    let i = key_index(v.entries, key);
    &&& i >= 0
    &&& v.entries[i].refresh matches Some(r) && r.0 == refresh
}

/// The outcome of an attempt as its waiters see it: a stale attempt fails.
pub open spec fn refresh_outcome(v: CacheView, key: KeyView, refresh: u64, outcome: Result<u64, BindingFailure>) -> Result<u64, BindingFailure> {
    if refresh_current(v, key, refresh) {
        outcome
    } else if v.closed {
        Err(BindingFailure::ShuttingDown)
    } else {
        Err(BindingFailure::Invalidated(key.server))
    }
}

/// The lifecycle state and reason an attempt's result publishes.
pub open spec fn outcome_publishes(o: Result<u64, BindingFailure>) -> (McpServerState, Option<McpStateReason>) {
    match o {
        Ok(_) => (McpServerState::Ready, None),
        Err(f) => failure_publishes(f),
    }
}

/// The entry after its attempt finishes.
pub open spec fn finished(e: EntryState, current: bool, result: Result<u64, BindingFailure>, catalog: Option<CatalogView>) -> EntryState {
    EntryState {
        refresh: None,
        lifecycle: if current {
            applied(e.lifecycle, e.generation, outcome_publishes(result).0, outcome_publishes(result).1)
        } else {
            e.lifecycle
        },
        ready: match result {
            Ok(b) => Some(b),
            Err(_) => e.ready,
        },
        catalog: match result {
            Ok(_) => catalog,
            Err(_) => e.catalog,
        },
        ..e
    }
}

pub open spec fn plain_outcome(o: Result<(u64, ServerToolCatalog), McpBindingError>) -> Result<u64, BindingFailure> {
    match o {
        Ok(p) => Ok(p.0),
        Err(e) => Err(e.view()),
    }
}

pub open spec fn outcome_catalog(o: Result<(u64, ServerToolCatalog), McpBindingError>) -> Option<CatalogView> {
    match o {
        Ok(p) => Some(p.1.view()),
        Err(_) => None,
    }
}

/// What `begin_connect` decides for a ticket and key, and the cache after it.
pub open spec fn connect_step(v: CacheView, t: TicketView, key: KeyView) -> (Result<ConnectStep, BindingFailure>, CacheView) {
    let i = key_index(v.entries, key);
    if t.key != key {
        (Err(BindingFailure::InvalidBinding(key.server)), v)
    } else if needs_authentication(key.authentication) {
        (Err(BindingFailure::AuthenticationRequired(key.server)), v)
    } else if ticket_check(v, t) is Some {
        (Err(ticket_check(v, t).unwrap()), v)
    } else if v.entries[i].ready is Some {
        (Ok(ConnectStep::Ready(v.entries[i].ready.unwrap())), v)
    } else if v.entries[i].refresh is Some {
        (Ok(ConnectStep::Wait(v.entries[i].refresh.unwrap().0)), v)
    } else if v.last_refresh == u64::MAX {
        (Err(BindingFailure::ShuttingDown), v)
    } else {
        let id = (v.last_refresh + 1) as u64;
        (Ok(ConnectStep::Lead(id)), CacheView { entries: v.entries.update(i, leading(v.entries[i], id)), last_refresh: id, ..v })
    }
}

/// The cache after an attempt reports its outcome, as `finish_refresh`
/// leaves it.
pub open spec fn after_finish(
    v: CacheView,
    key: KeyView,
    refresh: u64,
    outcome: Result<u64, BindingFailure>,
    catalog: Option<CatalogView>,
) -> CacheView {
    let i = key_index(v.entries, key);
    let current = refresh_current(v, key, refresh);
    let result = refresh_outcome(v, key, refresh, outcome);
    CacheView {
        entries: if refresh_recorded(v, key, refresh) {
            v.entries.update(i, finished(v.entries[i], current, result, catalog))
        } else {
            v.entries
        },
        retired: if !current && outcome is Ok {
            v.retired.push(outcome->Ok_0)
        } else {
            v.retired
        },
        ..v
    }
}

impl McpBindingCache {
    /// Reuse a ready binding or share one caller-owned connection attempt.
    /// The ticket must pin this key, and authentication must be settled.
    pub fn begin_connect(&mut self, ticket: &McpBindingTicket, key: &McpBindingKey) -> (r: Result<ConnectStep, McpBindingError>)
        ensures
            match r {
                Ok(step) => connect_step(old(self).view(), ticket.view(), key.view()).0 == Ok::<ConnectStep, BindingFailure>(step),
                Err(e) => connect_step(old(self).view(), ticket.view(), key.view()).0 == Err::<ConnectStep, BindingFailure>(e.view()),
            },
            final(self).view() == connect_step(old(self).view(), ticket.view(), key.view()).1,
    {
        proof {
            use_type_invariant(&*self);
        }
        if !ticket.key.same_as(key) {
            return Err(McpBindingError::InvalidBinding { server: owned(key.server()) });
        }
        if key.authentication_required() {
            return Err(McpBindingError::AuthenticationRequired { server: owned(key.server()) });
        }
        let i = match self.check(ticket) {
            Ok(i) => i,
            Err(e) => return Err(e),
        };
        let ghost v = self.view();
        proof {
            lemma_key_index(v.entries, key.view());
            assert(v.entries[i as int] == self.entries@[i as int].view());
        }
        if let Some(b) = self.entries[i].ready {
            return Ok(ConnectStep::Ready(b));
        }
        if let Some(r) = self.entries[i].refresh {
            return Ok(ConnectStep::Wait(r.0));
        }
        if self.last_refresh == u64::MAX {
            return Err(McpBindingError::ShuttingDown);
        }
        let id = self.last_refresh + 1;
        let mut entries = Vec::new();
        std::mem::swap(&mut entries, &mut self.entries);
        let mut e = entries.remove(i);
        let g = e.generation;
        e.refresh = Some((id, g));
        e.lifecycle = apply(e.lifecycle, g, McpServerState::Connecting, None);
        entries.insert(i, e);
        assert(cache_entries(entries@) =~= v.entries.update(i as int, leading(v.entries[i as int], id)));
        self.last_refresh = id;
        self.entries = entries;
        Ok(ConnectStep::Lead(id))
    }

    /// Publish the result of an attempt. A stale attempt (superseded by
    /// invalidation, or overtaken by shutdown) fails, and a binding it
    /// produced is retired rather than installed. The entry's record of the
    /// attempt is cleared either way; a current result becomes its published
    /// state and, on success, its ready binding and catalog.
    pub fn finish_refresh(&mut self, key: &McpBindingKey, refresh: u64, outcome: Result<(u64, ServerToolCatalog), McpBindingError>) -> (r: Result<u64, McpBindingError>)
        ensures
            ({
                let v = old(self).view();
                let result = refresh_outcome(v, key.view(), refresh, plain_outcome(outcome));
                &&& match r {
                    Ok(b) => result == Ok::<u64, BindingFailure>(b),
                    Err(e) => result == Err::<u64, BindingFailure>(e.view()),
                }
                &&& final(self).view() == after_finish(v, key.view(), refresh, plain_outcome(outcome), outcome_catalog(outcome))
            }),
    {
        proof {
            use_type_invariant(&*self);
        }
        let ghost v = self.view();
        let pos = self.position(key);
        proof {
            lemma_key_index(v.entries, key.view());
            if let Some(i) = pos {
                assert(v.entries[i as int] == self.entries@[i as int].view());
            }
        }
        let (current, recorded) = match pos {
            Some(i) => match self.entries[i].refresh {
                Some(rf) => (!self.closed && rf.0 == refresh && rf.1 == self.entries[i].generation, rf.0 == refresh),
                None => (false, false),
            },
            None => (false, false),
        };
        assert(current == refresh_current(v, key.view(), refresh));
        assert(recorded == refresh_recorded(v, key.view(), refresh));
        let result: Result<(u64, Option<ServerToolCatalog>), McpBindingError> = if current {
            match outcome {
                Ok((b, c)) => Ok((b, Some(c))),
                Err(e) => Err(e),
            }
        } else {
            if let Ok((b, _)) = outcome {
                let mut retired = Vec::new();
                std::mem::swap(&mut retired, &mut self.retired);
                retired.push(b);
                self.retired = retired;
            }
            if self.closed {
                Err(McpBindingError::ShuttingDown)
            } else {
                Err(McpBindingError::Invalidated { server: owned(key.server()) })
            }
        };
        let ghost res = refresh_outcome(v, key.view(), refresh, plain_outcome(outcome));
        if recorded {
            let i = pos.unwrap();
            let mut entries = Vec::new();
            std::mem::swap(&mut entries, &mut self.entries);
            let mut e = entries.remove(i);
            e.refresh = None;
            if current {
                let (next, reason) = match &result {
                    Ok(_) => (McpServerState::Ready, None),
                    Err(err) => lifecycle_failure(err),
                };
                e.lifecycle = apply(e.lifecycle, e.generation, next, reason);
            }
            let out = match result {
                Ok((b, c)) => {
                    e.ready = Some(b);
                    e.catalog = c;
                    Ok(b)
                },
                Err(err) => Err(err),
            };
            entries.insert(i, e);
            assert(cache_entries(entries@) =~= v.entries.update(
                i as int,
                finished(v.entries[i as int], current, res, outcome_catalog(outcome)),
            ));
            self.entries = entries;
            out
        } else {
            match result {
                Ok((b, _)) => Ok(b),
                Err(err) => Err(err),
            }
        }
    }

    /// Revoked bindings whose transports the host must still join.
    pub fn retired(&self) -> (r: &Vec<u64>)
        ensures
            r@ == self.view().retired,
    {
        &self.retired
    }

    /// Retire a binding the connector produced but the host refused, so that
    /// its transport is joined later.
    pub fn retire_binding(&mut self, binding: u64)
        ensures
            final(self).view() == (CacheView { retired: old(self).view().retired.push(binding), ..old(self).view() }),
    {
        proof {
            use_type_invariant(&*self);
        }
        let mut retired = Vec::new();
        std::mem::swap(&mut retired, &mut self.retired);
        retired.push(binding);
        self.retired = retired;
    }
}

/// Which binding identities an invalidation revokes.
pub enum KeySelection {
    Key(KeyView),
    Owner(Seq<char>),
    Server(Seq<char>),
}

pub open spec fn selects_key(s: KeySelection, k: KeyView) -> bool {
    match s {
        KeySelection::Key(key) => k == key,
        KeySelection::Owner(o) => k.owner == o,
        KeySelection::Server(n) => k.server == n,
    }
}

enum Selector {
    Key(McpBindingKey),
    Owner(String),
    Server(String),
}

impl Selector {
    spec fn view(&self) -> KeySelection {
        match self {
            Selector::Key(k) => KeySelection::Key(k.view()),
            Selector::Owner(o) => KeySelection::Owner(o@),
            Selector::Server(n) => KeySelection::Server(n@),
        }
    }

    fn selects(&self, key: &McpBindingKey) -> (r: bool)
        ensures
            r == selects_key(self.view(), key.view()),
    {
        match self {
            Selector::Key(k) => k.same_as(key),
            Selector::Owner(o) => crate::text::str_eq(key.owner(), o.as_str()),
            Selector::Server(n) => crate::text::str_eq(key.server(), n.as_str()),
        }
    }
}

/// An entry moved to a new generation: its shutdown is published in the old
/// generation, the new one starts disabled for the same reason, its ready
/// binding is revoked, and its catalog is kept only when asked.
pub open spec fn invalidated_entry(e: EntryState, g: u128, reason: McpStateReason, keep_catalog: bool) -> EntryState {
    EntryState {
        generation: g,
        lifecycle: next_record(
            applied(e.lifecycle, e.generation, McpServerState::ShuttingDown, Some(reason)),
            g,
            McpServerState::Disabled,
            Some(reason),
        ),
        ready: None,
        catalog: if keep_catalog {
            e.catalog
        } else {
            None
        },
        ..e
    }
}

/// An entry at shutdown: shutdown is published, and its binding and catalog
/// are dropped.
pub open spec fn shut_entry(e: EntryState) -> EntryState {
    EntryState {
        lifecycle: applied(e.lifecycle, e.generation, McpServerState::ShuttingDown, None),
        ready: None,
        catalog: None,
        ..e
    }
}

/// The ready bindings of entries, in order.
pub open spec fn readies(es: Seq<EntryState>) -> Seq<u64> {
    es.filter(|e: EntryState| e.ready is Some).map_values(|e: EntryState| e.ready.unwrap())
}

/// The attempts in flight of entries, in order.
pub open spec fn refreshes(es: Seq<EntryState>) -> Seq<u64> {
    es.filter(|e: EntryState| e.refresh is Some).map_values(|e: EntryState| e.refresh.unwrap().0)
}

/// The cache after shutdown: closed, every ready binding retired.
pub open spec fn shut_down(v: CacheView) -> CacheView {
    CacheView {
        closed: true,
        entries: v.entries.map_values(|e: EntryState| shut_entry(e)),
        retired: v.retired + readies(v.entries),
        ..v
    }
}

/// The cache after the selected identities move to generation `g`.
pub open spec fn invalidated_view(v: CacheView, sel: KeySelection, g: u128) -> CacheView {
    CacheView {
        entries: v.entries.map_values(|e: EntryState| if selects_key(sel, e.key) {
            invalidated_entry(e, g, McpStateReason::Invalidated, false)
        } else {
            e
        }),
        retired: v.retired + readies(v.entries.filter(|e: EntryState| selects_key(sel, e.key))),
        last_generation: g,
        ..v
    }
}

pub proof fn lemma_step_filter_map<A, B>(s: Seq<A>, i: int, p: spec_fn(A) -> bool, f: spec_fn(A) -> B)
    requires
        0 <= i < s.len(),
    ensures
        s.take(i + 1).filter(p).map_values(f) == if p(s[i]) {
            s.take(i).filter(p).map_values(f).push(f(s[i]))
        } else {
            s.take(i).filter(p).map_values(f)
        },
{
    reveal(Seq::filter);
    assert(s.take(i + 1).drop_last() =~= s.take(i));
    assert(s.take(i + 1).last() == s[i]);
    if p(s[i]) {
        assert(s.take(i + 1).filter(p) == s.take(i).filter(p).push(s[i]));
        assert(s.take(i + 1).filter(p).map_values(f) =~= s.take(i).filter(p).map_values(f).push(f(s[i])));
    } else {
        assert(s.take(i + 1).filter(p) == s.take(i).filter(p));
    }
}

impl McpBindingCache {
    fn shutdown_entries(&mut self) -> (r: Vec<u64>)
        ensures
            final(self).view() == shut_down(old(self).view()),
            r@ == refreshes(old(self).view().entries),
    {
        proof {
            use_type_invariant(&*self);
        }
        let ghost v = self.view();
        let ghost es = v.entries;
        let mut rest = Vec::new();
        std::mem::swap(&mut rest, &mut self.entries);
        let n = rest.len();
        assert(es.len() == n);
        assert(es.skip(0) =~= es);
        let mut done: Vec<CacheEntry> = Vec::new();
        let mut retired = Vec::new();
        std::mem::swap(&mut retired, &mut self.retired);
        let mut cancel: Vec<u64> = Vec::new();
        let ghost rp = |e: EntryState| e.ready is Some;
        let ghost rf = |e: EntryState| e.ready.unwrap();
        let ghost fp = |e: EntryState| e.refresh is Some;
        let ghost ff = |e: EntryState| e.refresh.unwrap().0;
        let mut i: usize = 0;
        assert(es.take(0).filter(rp).map_values(rf) =~= Seq::<u64>::empty()) by {
            reveal(Seq::filter);
        }
        assert(es.take(0).filter(fp).map_values(ff) =~= Seq::<u64>::empty()) by {
            reveal(Seq::filter);
        }
        assert(v.retired + es.take(0).filter(rp).map_values(rf) =~= v.retired);
        while rest.len() > 0
            invariant
                es == v.entries,
                rp == (|e: EntryState| e.ready is Some),
                rf == (|e: EntryState| e.ready.unwrap()),
                fp == (|e: EntryState| e.refresh is Some),
                ff == (|e: EntryState| e.refresh.unwrap().0),
                i <= es.len(),
                es.len() <= usize::MAX,
                cache_entries(rest@) == es.skip(i as int),
                cache_entries(done@) == es.take(i as int).map_values(|e: EntryState| shut_entry(e)),
                retired@ == v.retired + es.take(i as int).filter(rp).map_values(rf),
                cancel@ == es.take(i as int).filter(fp).map_values(ff),
            decreases rest.len(),
        {
            assert(es.skip(i as int).len() == rest@.len());
            assert(es[i as int] == cache_entries(rest@)[0]);
            let ghost rb = rest@;
            let mut e = rest.remove(0);
            assert(rest@ == rb.remove(0));
            assert(cache_entries(rest@) =~= cache_entries(rb).drop_first());
            assert(es.skip(i as int).drop_first() =~= es.skip(i + 1));
            assert(cache_entries(rest@) =~= es.skip(i + 1));
            proof {
                lemma_step_filter_map(es, i as int, rp, rf);
                lemma_step_filter_map(es, i as int, fp, ff);
            }
            if let Some(b) = e.ready {
                retired.push(b);
            }
            if let Some(r) = e.refresh {
                cancel.push(r.0);
            }
            assert(retired@ =~= v.retired + es.take(i + 1).filter(rp).map_values(rf));
            e.lifecycle = apply(e.lifecycle, e.generation, McpServerState::ShuttingDown, None);
            e.ready = None;
            e.catalog = None;
            let ghost before = done@;
            done.push(e);
            assert(cache_entries(done@) =~= cache_entries(before).push(shut_entry(es[i as int])));
            assert(es.take(i + 1).map_values(|e: EntryState| shut_entry(e)) =~= es.take(i as int).map_values(|e: EntryState| shut_entry(e)).push(
                shut_entry(es[i as int]),
            ));
            i = i + 1;
        }
        assert(es.take(es.len() as int) =~= es);
        self.closed = true;
        self.entries = done;
        self.retired = retired;
        cancel
    }

    /// Permanently close admission: publish shutdown, revoke every ready
    /// binding, and return the attempts in flight, which the host cancels
    /// and awaits before joining the retired transports.
    pub fn shutdown(&mut self) -> (r: Vec<u64>)
        ensures
            final(self).view() == shut_down(old(self).view()),
            r@ == refreshes(old(self).view().entries),
    {
        self.shutdown_entries()
    }

    fn invalidate_where(&mut self, sel: &Selector) -> (r: Vec<u64>)
        ensures
            ({
                let v = old(self).view();
                if v.last_generation == u128::MAX {
                    final(self).view() == shut_down(v) && r@ == refreshes(v.entries)
                } else {
                    final(self).view() == invalidated_view(v, sel.view(), (v.last_generation + 1) as u128)
                        && r@ == refreshes(v.entries.filter(|e: EntryState| selects_key(sel.view(), e.key)))
                }
            }),
    {
        proof {
            use_type_invariant(&*self);
        }
        if self.last_generation == u128::MAX {
            return self.shutdown_entries();
        }
        let g = self.last_generation + 1;
        let ghost v = self.view();
        let ghost es = v.entries;
        let ghost sp = |e: EntryState| selects_key(sel.view(), e.key);
        let ghost tf = |e: EntryState| if selects_key(sel.view(), e.key) {
            invalidated_entry(e, g, McpStateReason::Invalidated, false)
        } else {
            e
        };
        let ghost chosen = es.filter(sp);
        let mut rest = Vec::new();
        std::mem::swap(&mut rest, &mut self.entries);
        let n = rest.len();
        assert(es.len() == n);
        assert(es.skip(0) =~= es);
        let mut done: Vec<CacheEntry> = Vec::new();
        let mut retired = Vec::new();
        std::mem::swap(&mut retired, &mut self.retired);
        let mut cancel: Vec<u64> = Vec::new();
        let ghost rsp = |e: EntryState| selects_key(sel.view(), e.key) && e.ready is Some;
        let ghost fsp = |e: EntryState| selects_key(sel.view(), e.key) && e.refresh is Some;
        let ghost rf = |e: EntryState| e.ready.unwrap();
        let ghost ff = |e: EntryState| e.refresh.unwrap().0;
        let mut i: usize = 0;
        assert(es.take(0).filter(rsp).map_values(rf) =~= Seq::<u64>::empty()) by {
            reveal(Seq::filter);
        }
        assert(es.take(0).filter(fsp).map_values(ff) =~= Seq::<u64>::empty()) by {
            reveal(Seq::filter);
        }
        assert(v.retired + es.take(0).filter(rsp).map_values(rf) =~= v.retired);
        while rest.len() > 0
            invariant
                es == v.entries,
                g == v.last_generation + 1,
                rsp == (|e: EntryState| selects_key(sel.view(), e.key) && e.ready is Some),
                fsp == (|e: EntryState| selects_key(sel.view(), e.key) && e.refresh is Some),
                rf == (|e: EntryState| e.ready.unwrap()),
                ff == (|e: EntryState| e.refresh.unwrap().0),
                tf == (|e: EntryState| if selects_key(sel.view(), e.key) {
                    invalidated_entry(e, g, McpStateReason::Invalidated, false)
                } else {
                    e
                }),
                i <= es.len(),
                es.len() <= usize::MAX,
                cache_entries(rest@) == es.skip(i as int),
                cache_entries(done@) == es.take(i as int).map_values(tf),
                retired@ == v.retired + es.take(i as int).filter(rsp).map_values(rf),
                cancel@ == es.take(i as int).filter(fsp).map_values(ff),
            decreases rest.len(),
        {
            assert(es.skip(i as int).len() == rest@.len());
            assert(es[i as int] == cache_entries(rest@)[0]);
            let ghost rb = rest@;
            let mut e = rest.remove(0);
            assert(rest@ == rb.remove(0));
            assert(cache_entries(rest@) =~= cache_entries(rb).drop_first());
            assert(es.skip(i as int).drop_first() =~= es.skip(i + 1));
            assert(cache_entries(rest@) =~= es.skip(i + 1));
            proof {
                lemma_step_filter_map(es, i as int, rsp, rf);
                lemma_step_filter_map(es, i as int, fsp, ff);
            }
            if sel.selects(&e.key) {
                if let Some(b) = e.ready {
                    retired.push(b);
                }
                if let Some(r) = e.refresh {
                    cancel.push(r.0);
                }
                let shut = apply(e.lifecycle, e.generation, McpServerState::ShuttingDown, Some(McpStateReason::Invalidated));
                e.lifecycle = advance(shut, g, McpStateReason::Invalidated);
                e.generation = g;
                e.ready = None;
                e.catalog = None;
            }
            assert(retired@ =~= v.retired + es.take(i + 1).filter(rsp).map_values(rf));
            let ghost before = done@;
            done.push(e);
            assert(cache_entries(done@) =~= cache_entries(before).push(tf(es[i as int])));
            assert(es.take(i + 1).map_values(tf) =~= es.take(i as int).map_values(tf).push(tf(es[i as int])));
            i = i + 1;
        }
        assert(es.take(es.len() as int) =~= es);
        proof {
            lemma_filter_filter_map(es, sp, |e: EntryState| e.ready is Some, rsp, rf);
            lemma_filter_filter_map(es, sp, |e: EntryState| e.refresh is Some, fsp, ff);
            assert(es.map_values(tf) =~= es.map_values(|e: EntryState| if selects_key(sel.view(), e.key) {
                invalidated_entry(e, g, McpStateReason::Invalidated, false)
            } else {
                e
            }));
        }
        self.last_generation = g;
        self.entries = done;
        self.retired = retired;
        cancel
    }

    /// Revoke one identity, including retained views, and advance its
    /// generation; returns the attempts in flight for the host to cancel.
    pub fn invalidate(&mut self, key: &McpBindingKey) -> (r: Vec<u64>)
        ensures
            ({
                let v = old(self).view();
                let sel = KeySelection::Key(key.view());
                if v.last_generation == u128::MAX {
                    final(self).view() == shut_down(v) && r@ == refreshes(v.entries)
                } else {
                    final(self).view() == invalidated_view(v, sel, (v.last_generation + 1) as u128)
                        && r@ == refreshes(v.entries.filter(|e: EntryState| selects_key(sel, e.key)))
                }
            }),
    {
        self.invalidate_where(&Selector::Key(key.duplicate()))
    }

    /// Revoke every revision of one owner's bindings.
    pub fn invalidate_owner(&mut self, owner: &str) -> (r: Vec<u64>)
        ensures
            ({
                let v = old(self).view();
                let sel = KeySelection::Owner(owner@);
                if v.last_generation == u128::MAX {
                    final(self).view() == shut_down(v) && r@ == refreshes(v.entries)
                } else {
                    final(self).view() == invalidated_view(v, sel, (v.last_generation + 1) as u128)
                        && r@ == refreshes(v.entries.filter(|e: EntryState| selects_key(sel, e.key)))
                }
            }),
    {
        self.invalidate_where(&Selector::Owner(owned(owner)))
    }

    /// Revoke every owner's bindings of one server.
    pub fn invalidate_server(&mut self, server: &str) -> (r: Vec<u64>)
        ensures
            ({
                let v = old(self).view();
                let sel = KeySelection::Server(server@);
                if v.last_generation == u128::MAX {
                    final(self).view() == shut_down(v) && r@ == refreshes(v.entries)
                } else {
                    final(self).view() == invalidated_view(v, sel, (v.last_generation + 1) as u128)
                        && r@ == refreshes(v.entries.filter(|e: EntryState| selects_key(sel, e.key)))
                }
            }),
    {
        self.invalidate_where(&Selector::Server(owned(server)))
    }

    /// Join-side cleanup: forget the retired bindings whose transports the
    /// host has joined; bindings retired meanwhile stay queued.
    pub fn reap_retired(&mut self, joined: &Vec<u64>)
        ensures
            final(self).view() == (CacheView {
                retired: old(self).view().retired.filter(|b: u64| !joined@.contains(b)),
                ..old(self).view()
            }),
    {
        proof {
            use_type_invariant(&*self);
        }
        let ghost rv = self.retired@;
        let ghost p = |b: u64| !joined@.contains(b);
        let mut kept: Vec<u64> = Vec::new();
        let mut i: usize = 0;
        while i < self.retired.len()
            invariant
                rv == self.retired@,
                p == (|b: u64| !joined@.contains(b)),
                i <= rv.len(),
                kept@ == rv.take(i as int).filter(p),
            decreases self.retired.len() - i,
        {
            assert(rv.take(i + 1).drop_last() =~= rv.take(i as int));
            proof {
                reveal(Seq::filter);
            }
            let b = self.retired[i];
            let mut found = false;
            let mut j: usize = 0;
            while j < joined.len()
                invariant
                    j <= joined@.len(),
                    found == (exists|k: int| 0 <= k < j && #[trigger] joined@[k] == b),
                decreases joined.len() - j,
            {
                if joined[j] == b {
                    found = true;
                }
                j = j + 1;
            }
            assert(found == joined@.contains(b));
            if !found {
                kept.push(b);
            }
            i = i + 1;
        }
        assert(rv.take(rv.len() as int) =~= rv);
        self.retired = kept;
    }
}

proof fn lemma_filter_filter_map<A, B>(s: Seq<A>, p: spec_fn(A) -> bool, q: spec_fn(A) -> bool, pq: spec_fn(A) -> bool, f: spec_fn(A) -> B)
    requires
        forall|x: A| #[trigger] pq(x) == (p(x) && q(x)),
    ensures
        s.filter(p).filter(q).map_values(f) == s.filter(pq).map_values(f),
    decreases s.len(),
{
    reveal(Seq::filter);
    if s.len() > 0 {
        lemma_filter_filter_map(s.drop_last(), p, q, pq, f);
        let x = s.last();
        assert(pq(x) == (p(x) && q(x)));
        if p(x) {
            assert(s.filter(p) == s.drop_last().filter(p).push(x));
            assert(s.filter(p).drop_last() =~= s.drop_last().filter(p));
            if q(x) {
                assert(s.filter(p).filter(q) == s.drop_last().filter(p).filter(q).push(x));
                assert(s.filter(p).filter(q).map_values(f) =~= s.drop_last().filter(p).filter(q).map_values(f).push(f(x)));
                assert(s.filter(pq).map_values(f) =~= s.drop_last().filter(pq).map_values(f).push(f(x)));
            } else {
                assert(s.filter(p).filter(q) == s.drop_last().filter(p).filter(q));
            }
        }
    } else {
        assert(s.filter(p).filter(q) =~= Seq::<A>::empty());
        assert(s.filter(pq) =~= Seq::<A>::empty());
    }
}

impl McpBindingCache {
    /// Retire a disconnected transport but keep its complete catalog for a
    /// later lazy start; prepared steps are invalidated, not retargeted.
    /// Returns the attempt in flight, for the host to cancel. Refused for a
    /// stale ticket or after shutdown; once the generations are exhausted
    /// the cache shuts down instead.
    pub fn retire_connection(&mut self, ticket: &McpBindingTicket) -> (r: Result<Option<u64>, McpBindingError>)
        ensures
            ({
                let v = old(self).view();
                let i = key_index(v.entries, ticket.view().key);
                if ticket_check(v, ticket.view()) is Some {
                    r matches Err(e) && Some(e.view()) == ticket_check(v, ticket.view()) && final(self).view() == v
                } else if v.last_generation == u128::MAX {
                    r matches Err(e) && e.view() == BindingFailure::ShuttingDown && final(self).view() == shut_down(v)
                } else {
                    let e = v.entries[i];
                    let g = (v.last_generation + 1) as u128;
                    r == Ok::<Option<u64>, McpBindingError>(match e.refresh {
                        Some(rf) => Some(rf.0),
                        None => None,
                    }) && final(self).view() == (CacheView {
                        entries: v.entries.update(i, invalidated_entry(e, g, McpStateReason::Retired, true)),
                        retired: match e.ready {
                            Some(b) => v.retired.push(b),
                            None => v.retired,
                        },
                        last_generation: g,
                        ..v
                    })
                }
            }),
    {
        proof {
            use_type_invariant(&*self);
        }
        let i = match self.check(ticket) {
            Ok(i) => i,
            Err(e) => return Err(e),
        };
        if self.last_generation == u128::MAX {
            let _ = self.shutdown_entries();
            return Err(McpBindingError::ShuttingDown);
        }
        let g = self.last_generation + 1;
        let ghost v = self.view();
        proof {
            lemma_key_index(v.entries, ticket.view().key);
            assert(v.entries[i as int] == self.entries@[i as int].view());
        }
        let mut entries = Vec::new();
        std::mem::swap(&mut entries, &mut self.entries);
        let mut e = entries.remove(i);
        if let Some(b) = e.ready {
            let mut retired = Vec::new();
            std::mem::swap(&mut retired, &mut self.retired);
            retired.push(b);
            self.retired = retired;
        }
        let cancel = match e.refresh {
            Some(rf) => Some(rf.0),
            None => None,
        };
        let shut = apply(e.lifecycle, e.generation, McpServerState::ShuttingDown, Some(McpStateReason::Retired));
        e.lifecycle = advance(shut, g, McpStateReason::Retired);
        e.generation = g;
        e.ready = None;
        entries.insert(i, e);
        assert(cache_entries(entries@) =~= v.entries.update(i as int, invalidated_entry(v.entries[i as int], g, McpStateReason::Retired, true)));
        self.last_generation = g;
        self.entries = entries;
        Ok(cancel)
    }
}

/// A ticket pinned before an invalidation that selects its key is refused
/// afterwards: the identity moved to a newer generation, or the cache shut
/// down.
pub proof fn law_invalidated_tickets_are_refused(v: CacheView, sel: KeySelection, t: TicketView)
    requires
        cache_well_formed(v),
        ticket_current(v, t),
        selects_key(sel, t.key),
    ensures
        v.last_generation < u128::MAX ==> ticket_check(invalidated_view(v, sel, (v.last_generation + 1) as u128), t) is Some,
        ticket_check(shut_down(v), t) == Some(BindingFailure::ShuttingDown),
{
    if v.last_generation < u128::MAX {
        let g = (v.last_generation + 1) as u128;
        let w = invalidated_view(v, sel, g);
        lemma_key_index(v.entries, t.key);
        lemma_key_index(w.entries, t.key);
        let i = key_index(v.entries, t.key);
        assert(w.entries[i].key == t.key);
        assert(forall|a: int, b: int| 0 <= a < b < w.entries.len() ==> #[trigger] w.entries[a].key != #[trigger] w.entries[b].key) by {
            assert forall|a: int, b: int| 0 <= a < b < w.entries.len() implies #[trigger] w.entries[a].key != #[trigger] w.entries[b].key by {
                assert(w.entries[a].key == v.entries[a].key);
                assert(w.entries[b].key == v.entries[b].key);
            }
        }
        assert(key_index(w.entries, t.key) == i);
        assert(w.entries[i].generation == g);
        assert(v.entries[i].generation <= v.last_generation);
    }
}

/// A stale attempt never installs a binding: when the attempt is no longer
/// current, its caller gets an error, every entry keeps its ready binding,
/// and a binding it produced is retired.
pub proof fn law_stale_attempts_never_install(v: CacheView, key: KeyView, refresh: u64, outcome: Result<u64, BindingFailure>, catalog: Option<CatalogView>)
    requires
        !refresh_current(v, key, refresh),
    ensures
        refresh_outcome(v, key, refresh, outcome) is Err,
        refresh_recorded(v, key, refresh) ==> finished(
            v.entries[key_index(v.entries, key)],
            false,
            refresh_outcome(v, key, refresh, outcome),
            catalog,
        ).ready == v.entries[key_index(v.entries, key)].ready,
{
}

/// Shutdown refuses every ticket, and every ready binding is retired.
pub proof fn law_shutdown_revokes_everything(v: CacheView, t: TicketView)
    ensures
        ticket_check(shut_down(v), t) == Some(BindingFailure::ShuttingDown),
        forall|k: int| 0 <= k < shut_down(v).entries.len() ==> (#[trigger] shut_down(v).entries[k]).ready is None,
        forall|k: int| 0 <= k < v.entries.len() && (#[trigger] v.entries[k]).ready is Some ==> shut_down(v).retired.contains(v.entries[k].ready.unwrap()),
{
    let rp = |e: EntryState| e.ready is Some;
    let rf = |e: EntryState| e.ready.unwrap();
    assert forall|k: int| 0 <= k < v.entries.len() && (#[trigger] v.entries[k]).ready is Some implies shut_down(v).retired.contains(v.entries[k].ready.unwrap()) by {
        crate::mcp::tool_registry::lemma_filter_members(v.entries, rp);
        assert(v.entries.filter(rp).contains(v.entries[k]));
        let j = choose|j: int| 0 <= j < v.entries.filter(rp).len() && v.entries.filter(rp)[j] == v.entries[k];
        assert(readies(v.entries)[j] == rf(v.entries[k]));
        assert(shut_down(v).retired[v.retired.len() + j] == v.entries[k].ready.unwrap());
    }
}

impl McpBindingCache {
    /// Prepare a step's server: pin its generation and refuse it until
    /// authentication completes. A skill's server may start lazily from a
    /// complete catalog of the same generation (`true`); a global server,
    /// or one without such a catalog, must connect now (`false`).
    pub fn prepare(&mut self, key: &McpBindingKey) -> (r: Result<(McpBindingTicket, bool), McpBindingError>)
        ensures
            ({
                let v = old(self).view();
                let pinnable = !v.closed && (key_index(v.entries, key.view()) >= 0 || v.last_generation < u128::MAX);
                match r {
                    Ok(p) => pinnable && !needs_authentication(key.view().authentication) && p.0.view().key == key.view()
                        && ticket_current(final(self).view(), p.0.view())
                        && p.1 == (final(self).view().entries[key_index(final(self).view().entries, key.view())].catalog is Some
                            && key.view().source != SourceView::Global),
                    Err(e) => if !pinnable {
                        e.view() == BindingFailure::ShuttingDown
                    } else {
                        needs_authentication(key.view().authentication) && e.view() == BindingFailure::AuthenticationRequired(key.view().server)
                    },
                }
            }),
    {
        proof {
            use_type_invariant(&*self);
            lemma_key_index(self.view().entries, key.view());
        }
        let ticket = match self.pin(key) {
            Ok(t) => t,
            Err(e) => return Err(e),
        };
        proof {
            use_type_invariant(&*self);
            lemma_key_index(self.view().entries, key.view());
            if key_index(old(self).view().entries, key.view()) == -1 {
                let es = self.view().entries;
                assert(es[es.len() - 1].key == key.view());
            }
        }
        if key.authentication_required() {
            return Err(McpBindingError::AuthenticationRequired { server: owned(key.server()) });
        }
        let i = match self.check(&ticket) {
            Ok(i) => i,
            Err(e) => return Err(e),
        };
        assert(self.view().entries[i as int] == self.entries@[i as int].view());
        let global = match &key.source {
            ServerSource::Global => true,
            _ => false,
        };
        let cached = self.entries[i].catalog.is_some() && !global;
        Ok((ticket, cached))
    }
}

/// Variables a child process needs to launch at all.
pub open spec fn launch_key(k: Seq<char>) -> bool {
    k == "PATH"@ || k == "PATHEXT"@ || k == "SYSTEMROOT"@ || k == "WINDIR"@ || k == "COMSPEC"@ || k == "TMPDIR"@ || k == "TEMP"@
        || k == "TMP"@
}

fn is_launch_key(k: &str) -> (r: bool)
    ensures
        r == launch_key(k@),
{
    proof {
        reveal_strlit("PATH");
        reveal_strlit("PATHEXT");
        reveal_strlit("SYSTEMROOT");
        reveal_strlit("WINDIR");
        reveal_strlit("COMSPEC");
        reveal_strlit("TMPDIR");
        reveal_strlit("TEMP");
        reveal_strlit("TMP");
    }
    crate::text::str_eq(k, "PATH") || crate::text::str_eq(k, "PATHEXT") || crate::text::str_eq(k, "SYSTEMROOT") || crate::text::str_eq(
        k,
        "WINDIR",
    ) || crate::text::str_eq(k, "COMSPEC") || crate::text::str_eq(k, "TMPDIR") || crate::text::str_eq(k, "TEMP") || crate::text::str_eq(
        k,
        "TMP",
    )
}

/// The captured variables a child may see, in capture order: launch
/// variables and the ones its configuration declares, each once.
pub open spec fn child_selection(captured: Seq<(Seq<char>, Seq<char>)>, declared: Seq<Seq<char>>, n: int) -> Seq<(Seq<char>, Seq<char>)>
    decreases n,
{
    if n <= 0 || n > captured.len() {
        Seq::empty()
    } else {
        let p = child_selection(captured, declared, n - 1);
        let e = captured[n - 1];
        if (launch_key(e.0) || declared.contains(e.0)) && env_lookup(p, e.0) is None {
            p.push(e)
        } else {
            p
        }
    }
}

/// The environment a stdio child starts with: only the launch variables
/// and the declared ones, taken from the captured snapshot, in key order.
/// Nothing else of the host's environment reaches the child.
pub fn child_environment(captured: &Vec<(String, String)>, declared: &Vec<String>) -> (r: Vec<(String, String)>)
    ensures
        env_view(r@) == crate::mcp::digest::sorted_env(child_selection(env_view(captured@), views(declared@), captured@.len() as int)),
{
    let ghost cv = env_view(captured@);
    let mut selected: Vec<(String, String)> = Vec::new();
    let mut i: usize = 0;
    assert(env_view(selected@) =~= child_selection(cv, views(declared@), 0));
    while i < captured.len()
        invariant
            cv == env_view(captured@),
            i <= cv.len(),
            env_view(selected@) == child_selection(cv, views(declared@), i as int),
        decreases captured.len() - i,
    {
        let key = captured[i].0.as_str();
        assert(cv[i as int] == (captured@[i as int].0@, captured@[i as int].1@));
        let wanted = is_launch_key(key) || contains_str(declared, key);
        let present = crate::mcp::placeholder::lookup(selected.as_slice(), &captured[i].0).is_some();
        if wanted && !present {
            let ghost before = selected@;
            selected.push((owned(key), owned(captured[i].1.as_str())));
            assert(env_view(selected@) =~= env_view(before).push(cv[i as int]));
        }
        i = i + 1;
    }
    crate::mcp::digest::sort_env(&selected)
}

/// Replacing an entry by one with the same key keeps every key's index.
proof fn lemma_key_index_update(es: Seq<EntryState>, i: int, e: EntryState, key: KeyView)
    requires
        0 <= i < es.len(),
        e.key == es[i].key,
    ensures
        key_index(es.update(i, e), key) == key_index(es, key),
    decreases es.len(),
{
    let u = es.update(i, e);
    if i < es.len() - 1 {
        assert(u.drop_last() =~= es.drop_last().update(i, e));
        lemma_key_index_update(es.drop_last(), i, e, key);
        assert(u.last() == es.last());
    } else {
        assert(u.drop_last() =~= es.drop_last());
    }
}

/// One connection attempt per key is shared: once a caller leads it, every
/// other caller holding a current ticket for the key is told to wait for
/// that same attempt and changes nothing; the attempt's own outcome is what
/// they all receive; and after a success every later caller reuses the
/// binding instead of connecting again.
pub proof fn law_attempts_are_shared(
    v: CacheView,
    t: TicketView,
    other: TicketView,
    key: KeyView,
    outcome: Result<u64, BindingFailure>,
    catalog: Option<CatalogView>,
)
    requires
        connect_step(v, t, key).0 matches Ok(ConnectStep::Lead(_)),
        other.key == key,
        ticket_check(connect_step(v, t, key).1, other) is None,
    ensures
        ({
            let id = connect_step(v, t, key).0->Ok_0->Lead_0;
            let v1 = connect_step(v, t, key).1;
            &&& connect_step(v1, other, key) == (Ok::<ConnectStep, BindingFailure>(ConnectStep::Wait(id)), v1)
            &&& refresh_current(v1, key, id)
            &&& refresh_outcome(v1, key, id, outcome) == outcome
            &&& (outcome matches Ok(b) ==> connect_step(after_finish(v1, key, id, outcome, catalog), other, key)
                == (Ok::<ConnectStep, BindingFailure>(ConnectStep::Ready(b)), after_finish(v1, key, id, outcome, catalog)))
        }),
{
    let i = key_index(v.entries, key);
    let id = (v.last_refresh + 1) as u64;
    lemma_key_index(v.entries, key);
    let v1 = connect_step(v, t, key).1;
    lemma_key_index_update(v.entries, i, leading(v.entries[i], id), key);
    assert(key_index(v1.entries, key) == i);
    let v2 = after_finish(v1, key, id, outcome, catalog);
    lemma_key_index_update(v1.entries, i, finished(v1.entries[i], true, outcome, catalog), key);
    assert(key_index(v2.entries, key) == i);
}

} // verus!
