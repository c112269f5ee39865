//! Immutable host-owned MCP definitions, separate from executable connections.
//!
//! The host assigns source and authentication metadata; neither is accepted
//! from a server's tool annotations. Multiple sources may declare one name.
//! A projection must resolve those candidates by authority before binding any
//! connection. Catalog construction never connects, expands environment
//! variables, provisions a command, or grants access to a server.

use std::sync::Arc;
use vstd::prelude::*;

use crate::mcp::config::{entry_issue, EntryView, McpConfigError, McpServerEntry};
use crate::mcp::digest::{config_digest, hash_configuration};
use crate::text::{chars_less, chars_lt, chars_of, is_blank, owned, share, str_is_blank};

verus! {

/// Trust order for server declarations, from lowest to highest.
#[derive(Clone, Copy, PartialEq, Eq, Structural, PartialOrd, Ord, Hash, Debug)]
pub enum ServerAuthority {
    /// A declaration contributed by an activated skill.
    Skill,
    /// Operator configuration owned by the runtime host.
    Global,
}

/// Position of an authority in the trust order.
pub open spec fn authority_rank(a: ServerAuthority) -> int {
    match a {
        ServerAuthority::Skill => 0,
        ServerAuthority::Global => 1,
    }
}

/// Provenance assigned by the host, not a declaration's self-reported rank.
#[derive(Debug, Clone, PartialEq, Eq, PartialOrd, Ord, Hash)]
pub enum ServerSource {
    /// The operator's global configuration, including persisted administration.
    Global,
    /// A declaration from this skill's installed configuration.
    Skill { skill_id: String },
}

pub enum SourceView {
    Global,
    Skill(Seq<char>),
}

/// Authority follows from provenance.
pub open spec fn source_authority(s: SourceView) -> ServerAuthority {
    match s {
        SourceView::Global => ServerAuthority::Global,
        SourceView::Skill(_) => ServerAuthority::Skill,
    }
}

/// Source order: the global source first, then skills by identity.
pub open spec fn source_lt(a: SourceView, b: SourceView) -> bool {
    match (a, b) {
        (SourceView::Global, SourceView::Skill(_)) => true,
        (SourceView::Skill(x), SourceView::Skill(y)) => chars_lt(x, y),
        _ => false,
    }
}

impl ServerSource {
    pub open spec fn view(&self) -> SourceView {
        match self {
            ServerSource::Global => SourceView::Global,
            ServerSource::Skill { skill_id } => SourceView::Skill(skill_id@),
        }
    }

    /// Derive authority from provenance so the two cannot contradict each other.
    pub fn authority(&self) -> (r: ServerAuthority)
        ensures
            r == source_authority(self.view()),
    {
        match self {
            ServerSource::Global => ServerAuthority::Global,
            ServerSource::Skill { .. } => ServerAuthority::Skill,
        }
    }

    /// Whether two sources are the same provenance.
    pub fn same_as(&self, other: &ServerSource) -> (r: bool)
        ensures
            r == (self.view() == other.view()),
    {
        match (self, other) {
            (ServerSource::Global, ServerSource::Global) => true,
            (ServerSource::Skill { skill_id: a }, ServerSource::Skill { skill_id: b }) => *a == *b,
            _ => false,
        }
    }

    /// Whether this source precedes another in source order.
    pub fn precedes(&self, other: &ServerSource) -> (r: bool)
        ensures
            r == source_lt(self.view(), other.view()),
    {
        match (self, other) {
            (ServerSource::Global, ServerSource::Skill { .. }) => true,
            (ServerSource::Skill { skill_id: a }, ServerSource::Skill { skill_id: b }) => {
                let x = chars_of(a.as_str());
                let y = chars_of(b.as_str());
                chars_less(x.as_slice(), y.as_slice())
            },
            _ => false,
        }
    }

    /// An equal copy.
    pub fn duplicate(&self) -> (r: ServerSource)
        ensures
            r.view() == self.view(),
    {
        match self {
            ServerSource::Global => ServerSource::Global,
            ServerSource::Skill { skill_id } => ServerSource::Skill { skill_id: skill_id.clone() },
        }
    }
}

/// Host-observed authentication metadata, never a credential or access token.
pub enum ServerAuthentication {
    /// No authentication result is available yet; do not assume anonymous access.
    Unknown,
    /// The host has established that this binding requires no credentials.
    NotRequired,
    /// Authentication must complete before this server can be used.
    Required,
    /// An opaque host credential-revision identity, not its secret material.
    Authenticated { binding_id: String },
}

pub enum AuthenticationView {
    Unknown,
    NotRequired,
    Required,
    Authenticated(Seq<char>),
}

impl ServerAuthentication {
    pub open spec fn view(&self) -> AuthenticationView {
        match self {
            ServerAuthentication::Unknown => AuthenticationView::Unknown,
            ServerAuthentication::NotRequired => AuthenticationView::NotRequired,
            ServerAuthentication::Required => AuthenticationView::Required,
            ServerAuthentication::Authenticated { binding_id } => AuthenticationView::Authenticated(binding_id@),
        }
    }

    /// An equal copy.
    pub fn duplicate(&self) -> (r: ServerAuthentication)
        ensures
            r.view() == self.view(),
    {
        match self {
            ServerAuthentication::Unknown => ServerAuthentication::Unknown,
            ServerAuthentication::NotRequired => ServerAuthentication::NotRequired,
            ServerAuthentication::Required => ServerAuthentication::Required,
            ServerAuthentication::Authenticated { binding_id } => ServerAuthentication::Authenticated { binding_id: binding_id.clone() },
        }
    }

    /// Whether two observations are the same.
    pub fn same_as(&self, other: &ServerAuthentication) -> (r: bool)
        ensures
            r == (self.view() == other.view()),
    {
        match (self, other) {
            (ServerAuthentication::Unknown, ServerAuthentication::Unknown) => true,
            (ServerAuthentication::NotRequired, ServerAuthentication::NotRequired) => true,
            (ServerAuthentication::Required, ServerAuthentication::Required) => true,
            (
                ServerAuthentication::Authenticated { binding_id: a },
                ServerAuthentication::Authenticated { binding_id: b },
            ) => *a == *b,
            _ => false,
        }
    }
}

/// Sandbox requirement derived from the launch configuration.
#[derive(Clone, Copy, PartialEq, Eq, Structural, Debug)]
pub enum ServerSandboxPolicy {
    /// Remote HTTP has no local child process to sandbox.
    NotApplicable,
    /// The operator did not request isolation for the stdio process.
    Unrestricted,
    /// An OS-backed launcher is required; currently rejected at admission.
    Required,
}

/// The sandbox requirement of a launch configuration.
pub open spec fn entry_sandbox_policy(e: EntryView) -> ServerSandboxPolicy {
    match e {
        EntryView::Stdio { sandboxed, .. } => if sandboxed {
            ServerSandboxPolicy::Required
        } else {
            ServerSandboxPolicy::Unrestricted
        },
        EntryView::RemoteHttp { .. } => ServerSandboxPolicy::NotApplicable,
    }
}

/// Opaque identity of the declared transport and launch inputs.
///
/// This is not an environment snapshot or an authentication identity. The
/// digest covers configured secret values, so it has no printable form.
pub struct ServerConfigHash(String);

impl ServerConfigHash {
    pub closed spec fn view(&self) -> Seq<char> {
        self.0@
    }

    /// An equal copy.
    pub fn duplicate(&self) -> (r: ServerConfigHash)
        ensures
            r.view() == self.view(),
    {
        ServerConfigHash(self.0.clone())
    }

    /// Whether two digests are equal.
    pub fn same_as(&self, other: &ServerConfigHash) -> (r: bool)
        ensures
            r == (self.view() == other.view()),
    {
        self.0 == other.0
    }
}

/// One immutable declaration; its configuration is available only by reference.
pub struct ServerDefinition {
    name: String,
    source: ServerSource,
    configuration: McpServerEntry,
    config_hash: ServerConfigHash,
    required: bool,
    authentication: ServerAuthentication,
}

pub struct DefinitionView {
    pub name: Seq<char>,
    pub source: SourceView,
    pub configuration: EntryView,
    pub config_hash: Seq<char>,
    pub required: bool,
    pub authentication: AuthenticationView,
}

/// Why a declaration or a catalog is rejected.
pub enum CatalogError {
    /// The server name is empty or whitespace.
    MissingName,
    /// A skill source has a blank skill identity.
    MissingSkillIdentity { server: String },
    /// An authenticated observation has a blank binding identity.
    MissingBindingIdentity { server: String },
    /// The launch configuration cannot be admitted.
    Configuration(McpConfigError),
    /// One source declared one name twice with different settings.
    ConflictingDefinitions { server: String, source: ServerSource },
}

/// A skill source whose identity is blank.
pub open spec fn skill_identity_blank(s: SourceView) -> bool {
    match s {
        SourceView::Skill(id) => is_blank(id),
        SourceView::Global => false,
    }
}

/// An authenticated observation whose binding identity is blank.
pub open spec fn binding_identity_blank(a: AuthenticationView) -> bool {
    match a {
        AuthenticationView::Authenticated(b) => is_blank(b),
        _ => false,
    }
}

/// Whether a definition with these fields can exist: identities are present,
/// the configuration is admissible and the digest is the configuration's.
#[verifier::opaque]
pub open spec fn definition_valid(d: DefinitionView) -> bool {
    &&& !is_blank(d.name)
    &&& !skill_identity_blank(d.source)
    &&& !binding_identity_blank(d.authentication)
    &&& entry_issue(d.configuration) is None
    &&& d.config_hash == config_digest(d.configuration)
}

/// The digest of a configuration, if a definition with this name, source,
/// configuration and authentication can be made: what `ServerDefinition::new`
/// accepts, without taking the configuration.
pub fn admissible_digest(
    name: &str,
    source: &ServerSource,
    configuration: &McpServerEntry,
    authentication: &ServerAuthentication,
) -> (r: Option<ServerConfigHash>)
    ensures
        ({
            let admissible = !is_blank(name@) && !skill_identity_blank(source.view()) && !binding_identity_blank(
                authentication.view(),
            ) && entry_issue(configuration.view()) is None;
            match r {
                Some(h) => admissible && h.view() == config_digest(configuration.view()),
                None => !admissible,
            }
        }),
{
    if str_is_blank(name) {
        return None;
    }
    if let ServerSource::Skill { skill_id } = source {
        if str_is_blank(skill_id.as_str()) {
            return None;
        }
    }
    if let ServerAuthentication::Authenticated { binding_id } = authentication {
        if str_is_blank(binding_id.as_str()) {
            return None;
        }
    }
    match configuration.validate_sandbox_policy(name) {
        Ok(()) => {},
        Err(_) => {
            return None;
        },
    }
    Some(ServerConfigHash(hash_configuration(configuration)))
}

/// Same name, source, configuration digest, requirement and authentication.
pub open spec fn equivalent(a: DefinitionView, b: DefinitionView) -> bool {
    a.name == b.name && a.source == b.source && a.config_hash == b.config_hash && a.required == b.required
        && a.authentication == b.authentication
}

impl ServerDefinition {
    pub closed spec fn view(&self) -> DefinitionView {
        DefinitionView {
            name: self.name@,
            source: self.source.view(),
            configuration: self.configuration.view(),
            config_hash: self.config_hash.view(),
            required: self.required,
            authentication: self.authentication.view(),
        }
    }

    #[verifier::type_invariant]
    spec fn well_formed(&self) -> bool {
        definition_valid(self.view())
    }

    /// Capture a declaration and its host-assigned metadata without doing I/O.
    ///
    /// Rejects empty identities and unsupported sandbox requests, in that
    /// order. A disabled or not-yet-connected declaration cannot hide an inert
    /// sandbox.
    pub fn new(
        name: String,
        source: ServerSource,
        configuration: McpServerEntry,
        required: bool,
        authentication: ServerAuthentication,
    ) -> (r: Result<ServerDefinition, CatalogError>)
        ensures
            match r {
                Ok(d) => d.view() == (DefinitionView {
                    name: name@,
                    source: source.view(),
                    configuration: configuration.view(),
                    config_hash: config_digest(configuration.view()),
                    required,
                    authentication: authentication.view(),
                }) && definition_valid(d.view()),
                Err(CatalogError::MissingName) => is_blank(name@),
                Err(CatalogError::MissingSkillIdentity { server }) => !is_blank(name@) && server@ == name@
                    && skill_identity_blank(source.view()),
                Err(CatalogError::MissingBindingIdentity { server }) => !is_blank(name@) && server@ == name@
                    && !skill_identity_blank(source.view()) && binding_identity_blank(authentication.view()),
                Err(CatalogError::Configuration(e)) => !is_blank(name@) && !skill_identity_blank(source.view())
                    && !binding_identity_blank(authentication.view()) && e.server@ == name@ && entry_issue(configuration.view()) == Some(e.issue),
                Err(CatalogError::ConflictingDefinitions { .. }) => false,
            },
    {
        if str_is_blank(name.as_str()) {
            return Err(CatalogError::MissingName);
        }
        if let ServerSource::Skill { skill_id } = &source {
            if str_is_blank(skill_id.as_str()) {
                return Err(CatalogError::MissingSkillIdentity { server: name });
            }
        }
        if let ServerAuthentication::Authenticated { binding_id } = &authentication {
            if str_is_blank(binding_id.as_str()) {
                return Err(CatalogError::MissingBindingIdentity { server: name });
            }
        }
        match configuration.validate_sandbox_policy(name.as_str()) {
            Ok(()) => {},
            Err(e) => {
                return Err(CatalogError::Configuration(e));
            },
        }
        let config_hash = ServerConfigHash(hash_configuration(&configuration));
        proof {
            reveal(definition_valid);
        }
        Ok(ServerDefinition { name, source, configuration, config_hash, required, authentication })
    }

    /// Source-local server name, before provider tool namespacing.
    pub fn name(&self) -> (r: &str)
        ensures
            r@ == self.view().name,
    {
        self.name.as_str()
    }

    /// Host-assigned origin of this declaration.
    pub fn source(&self) -> (r: &ServerSource)
        ensures
            r.view() == self.view().source,
    {
        &self.source
    }

    /// Authority is always derived from the captured source.
    pub fn authority(&self) -> (r: ServerAuthority)
        ensures
            r == source_authority(self.view().source),
    {
        self.source.authority()
    }

    /// Trusted launch input; may contain secrets and must not enter telemetry.
    pub fn configuration(&self) -> (r: &McpServerEntry)
        ensures
            r.view() == self.view().configuration,
    {
        &self.configuration
    }

    /// Stable declared-input identity, independent of source.
    pub fn config_hash(&self) -> (r: &ServerConfigHash)
        ensures
            r.view() == self.view().config_hash,
            r.view() == config_digest(self.view().configuration),
    {
        proof {
            use_type_invariant(self);
            reveal(definition_valid);
        }
        &self.config_hash
    }

    /// Whether failure to bind this server must abort the requesting preflight.
    pub fn is_required(&self) -> (r: bool)
        ensures
            r == self.view().required,
    {
        self.required
    }

    /// Host authentication observation captured with this definition.
    pub fn authentication(&self) -> (r: &ServerAuthentication)
        ensures
            r.view() == self.view().authentication,
    {
        &self.authentication
    }

    /// Derive the policy from the same configuration that supplies the hash.
    pub fn sandbox_policy(&self) -> (r: ServerSandboxPolicy)
        ensures
            r == entry_sandbox_policy(self.view().configuration),
    {
        match &self.configuration {
            McpServerEntry::Stdio { sandboxed, .. } => if *sandboxed {
                ServerSandboxPolicy::Required
            } else {
                ServerSandboxPolicy::Unrestricted
            },
            McpServerEntry::RemoteHttp { .. } => ServerSandboxPolicy::NotApplicable,
        }
    }

    /// Same name, source, digest, requirement and authentication.
    pub fn equivalent_to(&self, other: &ServerDefinition) -> (r: bool)
        ensures
            r == equivalent(self.view(), other.view()),
    {
        self.name == other.name && self.source.same_as(&other.source) && self.config_hash.same_as(
            &other.config_hash,
        ) && self.required == other.required && self.authentication.same_as(&other.authentication)
    }

    /// Every definition satisfies its construction rules.
    pub fn valid(&self)
        ensures
            definition_valid(self.view()),
    {
        proof {
            use_type_invariant(self);
        }
    }
}


/// Same server name and same source.
pub open spec fn same_key(a: DefinitionView, b: DefinitionView) -> bool {
    a.name == b.name && a.source == b.source
}

/// Catalog order: by server name, then by source.
pub open spec fn key_lt(a: DefinitionView, b: DefinitionView) -> bool {
    chars_lt(a.name, b.name) || (a.name == b.name && source_lt(a.source, b.source))
}

pub proof fn lemma_key_lt_irreflexive(a: DefinitionView, b: DefinitionView)
    ensures
        same_key(a, b) ==> !key_lt(a, b),
{
    crate::text::lemma_chars_lt_irreflexive(a.name);
    if let SourceView::Skill(x) = a.source {
        crate::text::lemma_chars_lt_irreflexive(x);
    }
}

pub proof fn lemma_key_lt_transitive(a: DefinitionView, b: DefinitionView, c: DefinitionView)
    requires
        key_lt(a, b),
        key_lt(b, c),
    ensures
        key_lt(a, c),
{
    if chars_lt(a.name, b.name) && chars_lt(b.name, c.name) {
        crate::text::lemma_chars_lt_transitive(a.name, b.name, c.name);
    }
    if let (SourceView::Skill(x), SourceView::Skill(y), SourceView::Skill(z)) = (a.source, b.source, c.source) {
        if chars_lt(x, y) && chars_lt(y, z) {
            crate::text::lemma_chars_lt_transitive(x, y, z);
        }
    }
}

pub proof fn lemma_key_lt_total(a: DefinitionView, b: DefinitionView)
    ensures
        same_key(a, b) || key_lt(a, b) || key_lt(b, a),
{
    crate::text::lemma_chars_lt_total(a.name, b.name);
    if let (SourceView::Skill(x), SourceView::Skill(y)) = (a.source, b.source) {
        crate::text::lemma_chars_lt_total(x, y);
    }
}

pub open spec fn arc_views(v: Seq<Arc<ServerDefinition>>) -> Seq<DefinitionView> {
    v.map_values(|d: Arc<ServerDefinition>| d.view())
}

pub open spec fn plain_views(v: Seq<ServerDefinition>) -> Seq<DefinitionView> {
    v.map_values(|d: ServerDefinition| d.view())
}

/// Some entry has the declaration's name and source.
pub open spec fn has_key(ev: Seq<DefinitionView>, d: DefinitionView) -> bool {
    exists|k: int| 0 <= k < ev.len() && #[trigger] same_key(ev[k], d)
}

/// Strictly increasing names.
pub open spec fn names_sorted(v: Seq<Seq<char>>) -> bool {
    forall|a: int, b: int| 0 <= a < b < v.len() ==> chars_lt(#[trigger] v[a], #[trigger] v[b])
}

/// The declarations of one server name, in catalog order.
pub open spec fn with_name(ev: Seq<DefinitionView>, name: Seq<char>) -> Seq<DefinitionView> {
    ev.filter(|d: DefinitionView| d.name == name)
}

/// Strictly increasing in catalog order, so no key occurs twice.
pub open spec fn strictly_sorted(s: Seq<DefinitionView>) -> bool {
    forall|a: int, b: int| 0 <= a < b < s.len() ==> key_lt(#[trigger] s[a], #[trigger] s[b])
}

/// The earliest declaration of its name and source.
pub open spec fn first_of_key(ds: Seq<DefinitionView>, i: int) -> bool {
    forall|m: int| 0 <= m < i ==> !same_key(#[trigger] ds[m], ds[i])
}

/// A later declaration that disagrees with the first one of its key.
pub open spec fn conflict_at(ds: Seq<DefinitionView>, j: int) -> bool {
    exists|i: int| 0 <= i < j && first_of_key(ds, i) && #[trigger] same_key(ds[i], ds[j]) && !equivalent(ds[i], ds[j])
}

/// `d` is the first declaration of its key among the first `n`.
pub open spec fn first_declared(ds: Seq<DefinitionView>, n: int, d: DefinitionView) -> bool {
    exists|i: int| 0 <= i < n && first_of_key(ds, i) && #[trigger] ds[i] == d
}

/// The entries that a catalog of the first `n` declarations holds: the first
/// declaration of each name and source.
pub open spec fn holds_first_declarations(entries: Seq<DefinitionView>, ds: Seq<DefinitionView>, n: int) -> bool {
    &&& forall|i: int| 0 <= i < n && first_of_key(ds, i) ==> #[trigger] entries.contains(ds[i])
    &&& forall|k: int| 0 <= k < entries.len() ==> first_declared(ds, n, #[trigger] entries[k])
}

/// What a catalog built from the first `j` declarations satisfies.
#[verifier::opaque]
pub open spec fn catalog_step(ev: Seq<DefinitionView>, ds: Seq<DefinitionView>, j: int) -> bool {
    &&& strictly_sorted(ev)
    &&& forall|k: int| 0 <= k < ev.len() ==> definition_valid(#[trigger] ev[k])
    &&& forall|i: int| 0 <= i < j ==> has_key(ev, #[trigger] ds[i])
    &&& forall|k: int| 0 <= k < ev.len() ==> first_declared(ds, j, #[trigger] ev[k])
    &&& forall|m: int| 0 <= m < j ==> !#[trigger] conflict_at(ds, m)
}

/// Two first declarations of one key are the same declaration.
proof fn lemma_first_unique(ds: Seq<DefinitionView>, i: int, i2: int)
    requires
        0 <= i < ds.len(),
        0 <= i2 < ds.len(),
        first_of_key(ds, i),
        first_of_key(ds, i2),
        same_key(ds[i], ds[i2]),
    ensures
        i == i2,
{
    if i2 < i {
        assert(same_key(ds[i2], ds[i]));
    } else if i < i2 {
        assert(same_key(ds[i], ds[i2]));
    }
}

/// The declaration's key is already in the catalog, at `p`.
proof fn lemma_step_present(ev: Seq<DefinitionView>, ds: Seq<DefinitionView>, j: int, p: int)
    requires
        0 <= j < ds.len(),
        0 <= p < ev.len(),
        catalog_step(ev, ds, j),
        same_key(ev[p], ds[j]),
    ensures
        conflict_at(ds, j) == !equivalent(ev[p], ds[j]),
        !equivalent(ev[p], ds[j]) ==> forall|m: int| 0 <= m < j ==> !#[trigger] conflict_at(ds, m),
        equivalent(ev[p], ds[j]) ==> catalog_step(ev, ds, j + 1),
{
    reveal(catalog_step);
    assert(first_declared(ds, j, ev[p]));
    let i = choose|i: int| 0 <= i < j && first_of_key(ds, i) && #[trigger] ds[i] == ev[p];
    assert(same_key(ds[i], ds[j]));
    if conflict_at(ds, j) {
        let i2 = choose|i2: int| 0 <= i2 < j && first_of_key(ds, i2) && #[trigger] same_key(ds[i2], ds[j]) && !equivalent(ds[i2], ds[j]);
        lemma_first_unique(ds, i, i2);
    }
    if !equivalent(ev[p], ds[j]) {
        assert(0 <= i < j && first_of_key(ds, i) && same_key(ds[i], ds[j]) && !equivalent(ds[i], ds[j]));
        assert(conflict_at(ds, j));
    }
    if equivalent(ev[p], ds[j]) {
        assert forall|i3: int| 0 <= i3 < j + 1 implies has_key(ev, #[trigger] ds[i3]) by {
            if i3 == j {
                assert(same_key(ev[p], ds[i3]));
            }
        }
        assert forall|k: int| 0 <= k < ev.len() implies first_declared(ds, j + 1, #[trigger] ev[k]) by {
            assert(first_declared(ds, j, ev[k]));
            let i4 = choose|i4: int| 0 <= i4 < j && first_of_key(ds, i4) && #[trigger] ds[i4] == ev[k];
        }
        assert forall|m: int| 0 <= m < j + 1 implies !#[trigger] conflict_at(ds, m) by {}
    }
}

/// Inserting after every smaller key and before every larger one keeps a
/// strictly sorted sequence strictly sorted.
proof fn lemma_insert_sorted(ev: Seq<DefinitionView>, p: int, dv: DefinitionView)
    requires
        0 <= p <= ev.len(),
        strictly_sorted(ev),
        forall|a: int| 0 <= a < p ==> key_lt(#[trigger] ev[a], dv),
        forall|b: int| p <= b < ev.len() ==> key_lt(dv, #[trigger] ev[b]),
    ensures
        strictly_sorted(ev.insert(p, dv)),
{
    let ev2 = ev.insert(p, dv);
    assert forall|a: int, b: int| 0 <= a < b < ev2.len() implies key_lt(#[trigger] ev2[a], #[trigger] ev2[b]) by {
        if b < p {
            assert(ev2[a] == ev[a] && ev2[b] == ev[b]);
        } else if b == p {
            assert(ev2[a] == ev[a]);
        } else if a < p {
            assert(ev2[a] == ev[a]);
            assert(ev2[b] == ev[b - 1]);
            lemma_key_lt_transitive(ev[a], dv, ev[b - 1]);
        } else if a == p {
            assert(ev2[b] == ev[b - 1]);
        } else {
            assert(ev2[a] == ev[a - 1]);
            assert(ev2[b] == ev[b - 1]);
        }
    }
}

/// Where the scan stops short of an equal key, the key is absent and every
/// later entry is larger.
proof fn lemma_absent_key(ev: Seq<DefinitionView>, p: int, dv: DefinitionView)
    requires
        0 <= p <= ev.len(),
        strictly_sorted(ev),
        forall|a: int| 0 <= a < p ==> key_lt(#[trigger] ev[a], dv),
        p < ev.len() ==> !key_lt(ev[p], dv) && !same_key(ev[p], dv),
    ensures
        forall|b: int| p <= b < ev.len() ==> key_lt(dv, #[trigger] ev[b]),
        forall|k: int| 0 <= k < ev.len() ==> !#[trigger] same_key(ev[k], dv),
{
    assert forall|k: int| p <= k < ev.len() implies key_lt(dv, #[trigger] ev[k]) by {
        lemma_key_lt_total(ev[p], dv);
        if k > p {
            assert(key_lt(ev[p], ev[k]));
            lemma_key_lt_transitive(dv, ev[p], ev[k]);
        }
    }
    assert forall|k: int| 0 <= k < ev.len() implies !#[trigger] same_key(ev[k], dv) by {
        if k < p {
            lemma_key_lt_irreflexive(ev[k], dv);
        } else {
            lemma_key_lt_total(ev[p], dv);
            if k > p {
                assert(key_lt(ev[p], ev[k]));
                lemma_key_lt_transitive(dv, ev[p], ev[k]);
            }
            lemma_key_lt_irreflexive(dv, ev[k]);
        }
    }
}

proof fn lemma_insert_keeps_valid(ev: Seq<DefinitionView>, p: int, dv: DefinitionView)
    requires
        0 <= p <= ev.len(),
        definition_valid(dv),
        forall|k: int| 0 <= k < ev.len() ==> definition_valid(#[trigger] ev[k]),
    ensures
        forall|k: int| 0 <= k < ev.len() + 1 ==> definition_valid(#[trigger] ev.insert(p, dv)[k]),
{
    let ev2 = ev.insert(p, dv);
    assert forall|k: int| 0 <= k < ev2.len() implies definition_valid(#[trigger] ev2[k]) by {
        if k < p {
            assert(ev2[k] == ev[k]);
        } else if k > p {
            assert(ev2[k] == ev[k - 1]);
        }
    }
}

proof fn lemma_insert_keeps_keys(ev: Seq<DefinitionView>, ds: Seq<DefinitionView>, j: int, p: int)
    requires
        0 <= j < ds.len(),
        0 <= p <= ev.len(),
        forall|i: int| 0 <= i < j ==> has_key(ev, #[trigger] ds[i]),
    ensures
        forall|i: int| 0 <= i < j + 1 ==> has_key(ev.insert(p, ds[j]), #[trigger] ds[i]),
{
    let ev2 = ev.insert(p, ds[j]);
    assert forall|i2: int| 0 <= i2 < j + 1 implies has_key(ev2, #[trigger] ds[i2]) by {
        if i2 == j {
            assert(same_key(ev2[p], ds[i2]));
        } else {
            assert(has_key(ev, ds[i2]));
            let k = choose|k: int| 0 <= k < ev.len() && #[trigger] same_key(ev[k], ds[i2]);
            if k < p {
                assert(ev2[k] == ev[k]);
                assert(same_key(ev2[k], ds[i2]));
            } else {
                assert(ev2[k + 1] == ev[k]);
                assert(same_key(ev2[k + 1], ds[i2]));
            }
        }
    }
}

proof fn lemma_insert_keeps_first(ev: Seq<DefinitionView>, ds: Seq<DefinitionView>, j: int, p: int)
    requires
        0 <= j < ds.len(),
        0 <= p <= ev.len(),
        first_of_key(ds, j),
        forall|k: int| 0 <= k < ev.len() ==> first_declared(ds, j, #[trigger] ev[k]),
    ensures
        forall|k: int| 0 <= k < ev.len() + 1 ==> first_declared(ds, j + 1, #[trigger] ev.insert(p, ds[j])[k]),
{
    let ev2 = ev.insert(p, ds[j]);
    assert forall|k: int| 0 <= k < ev2.len() implies first_declared(ds, j + 1, #[trigger] ev2[k]) by {
        if k == p {
            assert(ev2[k] == ds[j]);
        } else if k < p {
            assert(ev2[k] == ev[k]);
            assert(first_declared(ds, j, ev[k]));
            let i = choose|i: int| 0 <= i < j && first_of_key(ds, i) && #[trigger] ds[i] == ev[k];
        } else {
            assert(ev2[k] == ev[k - 1]);
            assert(first_declared(ds, j, ev[k - 1]));
            let i = choose|i: int| 0 <= i < j && first_of_key(ds, i) && #[trigger] ds[i] == ev[k - 1];
        }
    }
}

/// A key that no entry has was not declared before.
proof fn lemma_absent_first(ev: Seq<DefinitionView>, ds: Seq<DefinitionView>, j: int)
    requires
        0 <= j < ds.len(),
        forall|i: int| 0 <= i < j ==> has_key(ev, #[trigger] ds[i]),
        forall|k: int| 0 <= k < ev.len() ==> !#[trigger] same_key(ev[k], ds[j]),
    ensures
        first_of_key(ds, j),
        !conflict_at(ds, j),
{
    assert forall|m: int| 0 <= m < j implies !#[trigger] same_key(ds[m], ds[j]) by {
        assert(has_key(ev, ds[m]));
        let k = choose|k: int| 0 <= k < ev.len() && #[trigger] same_key(ev[k], ds[m]);
        if same_key(ds[m], ds[j]) {
            assert(same_key(ev[k], ds[j]));
        }
    }
}

/// The declaration's key is not in the catalog; inserting it at `p`, after
/// every smaller key, keeps the catalog ordered and complete.
proof fn lemma_step_absent(ev: Seq<DefinitionView>, ds: Seq<DefinitionView>, j: int, p: int)
    requires
        0 <= j < ds.len(),
        0 <= p <= ev.len(),
        catalog_step(ev, ds, j),
        definition_valid(ds[j]),
        forall|a: int| 0 <= a < p ==> key_lt(#[trigger] ev[a], ds[j]),
        p < ev.len() ==> !key_lt(ev[p], ds[j]) && !same_key(ev[p], ds[j]),
    ensures
        catalog_step(ev.insert(p, ds[j]), ds, j + 1),
        first_of_key(ds, j),
{
    let dv = ds[j];
    lemma_catalog_step_elim(ev, ds, j);
    lemma_absent_key(ev, p, dv);
    lemma_absent_first(ev, ds, j);
    lemma_insert_sorted(ev, p, dv);
    lemma_insert_keeps_valid(ev, p, dv);
    lemma_insert_keeps_keys(ev, ds, j, p);
    lemma_insert_keeps_first(ev, ds, j, p);
    lemma_catalog_step_intro(ev.insert(p, dv), ds, j + 1);
}

proof fn lemma_catalog_step_elim(ev: Seq<DefinitionView>, ds: Seq<DefinitionView>, j: int)
    requires
        catalog_step(ev, ds, j),
    ensures
        strictly_sorted(ev),
        forall|k: int| 0 <= k < ev.len() ==> definition_valid(#[trigger] ev[k]),
        forall|i: int| 0 <= i < j ==> has_key(ev, #[trigger] ds[i]),
        forall|k: int| 0 <= k < ev.len() ==> first_declared(ds, j, #[trigger] ev[k]),
        forall|m: int| 0 <= m < j ==> !#[trigger] conflict_at(ds, m),
{
    reveal(catalog_step);
}

proof fn lemma_catalog_step_intro(ev: Seq<DefinitionView>, ds: Seq<DefinitionView>, j: int)
    requires
        strictly_sorted(ev),
        forall|k: int| 0 <= k < ev.len() ==> definition_valid(#[trigger] ev[k]),
        forall|i: int| 0 <= i < j ==> has_key(ev, #[trigger] ds[i]),
        forall|k: int| 0 <= k < ev.len() ==> first_declared(ds, j, #[trigger] ev[k]),
        forall|m: int| 0 <= m < j ==> !#[trigger] conflict_at(ds, m),
    ensures
        catalog_step(ev, ds, j),
{
    reveal(catalog_step);
}

/// After every declaration, the catalog holds exactly the first ones.
proof fn lemma_catalog_complete(ev: Seq<DefinitionView>, ds: Seq<DefinitionView>)
    requires
        catalog_step(ev, ds, ds.len() as int),
    ensures
        holds_first_declarations(ev, ds, ds.len() as int),
{
    reveal(catalog_step);
    assert forall|i: int| 0 <= i < ds.len() && first_of_key(ds, i) implies #[trigger] ev.contains(ds[i]) by {
        assert(has_key(ev, ds[i]));
        let k = choose|k: int| 0 <= k < ev.len() && #[trigger] same_key(ev[k], ds[i]);
        assert(first_declared(ds, ds.len() as int, ev[k]));
        let i2 = choose|i2: int| 0 <= i2 < ds.len() && first_of_key(ds, i2) && #[trigger] ds[i2] == ev[k];
        assert(same_key(ds[i2], ds[i]));
        lemma_first_unique(ds, i2, i);
        assert(ev[k] == ds[i]);
    }
}

fn insertion_point(entries: &Vec<Arc<ServerDefinition>>, d: &ServerDefinition) -> (p: usize)
    ensures
        p <= entries@.len(),
        forall|a: int| 0 <= a < p ==> key_lt(#[trigger] arc_views(entries@)[a], d.view()),
        p < entries@.len() ==> !key_lt(arc_views(entries@)[p as int], d.view()),
{
    let ghost ev = arc_views(entries@);
    let mut p: usize = 0;
    let mut done = false;
    while !done && p < entries.len()
        invariant
            ev == arc_views(entries@),
            p <= entries@.len(),
            forall|a: int| 0 <= a < p ==> key_lt(#[trigger] ev[a], d.view()),
            done ==> p < entries@.len() && !key_lt(ev[p as int], d.view()),
        decreases (entries.len() - p) * 2 + (if done { 0usize } else { 1usize }),
    {
        let e: &ServerDefinition = &entries[p];
        assert(ev[p as int] == e.view());
        if key_less(e, d) {
            p = p + 1;
        } else {
            done = true;
        }
    }
    p
}

fn same_key_exec(a: &ServerDefinition, b: &ServerDefinition) -> (r: bool)
    ensures
        r == same_key(a.view(), b.view()),
{
    str_eq_owned(a.name(), b.name()) && a.source().same_as(b.source())
}

fn key_less(a: &ServerDefinition, b: &ServerDefinition) -> (r: bool)
    ensures
        r == key_lt(a.view(), b.view()),
{
    let x = chars_of(a.name());
    let y = chars_of(b.name());
    if chars_less(x.as_slice(), y.as_slice()) {
        return true;
    }
    crate::text::chars_eq(x.as_slice(), y.as_slice()) && a.source().precedes(b.source())
}

fn str_eq_owned(a: &str, b: &str) -> (r: bool)
    ensures
        r == (a@ == b@),
{
    crate::text::str_eq(a, b)
}

/// Immutable, deterministically ordered candidates, without connection state.
///
/// Construct global and skill definitions with their actual host provenance,
/// then pass them to `from_definitions`. Use `candidates` during projection;
/// their presence alone is not permission to start or invoke a server.
pub struct McpCatalog {
    definitions: Vec<Arc<ServerDefinition>>,
}

impl McpCatalog {
    /// Declarations ordered by server name, then source.
    pub closed spec fn view(&self) -> Seq<DefinitionView> {
        arc_views(self.definitions@)
    }

    #[verifier::type_invariant]
    spec fn is_ordered(&self) -> bool {
        &&& strictly_sorted(self.view())
        &&& forall|k: int| 0 <= k < self.view().len() ==> definition_valid(#[trigger] self.view()[k])
    }

    /// The catalog with no declarations.
    pub fn empty() -> (r: McpCatalog)
        ensures
            r.view() == Seq::<DefinitionView>::empty(),
    {
        McpCatalog { definitions: Vec::new() }
    }

    /// Freeze all declarations, coalescing identical repeats from one source.
    ///
    /// Conflicting declarations for one name from the same source are rejected
    /// instead of choosing a winner based on arrival order. Distinct sources
    /// remain separate candidates for authority-aware projection.
    pub fn from_definitions(definitions: Vec<ServerDefinition>) -> (r: Result<McpCatalog, CatalogError>)
        ensures
            match r {
                Ok(c) => (forall|j: int| 0 <= j < definitions@.len() ==> !#[trigger] conflict_at(plain_views(definitions@), j))
                    && strictly_sorted(c.view())
                    && holds_first_declarations(c.view(), plain_views(definitions@), definitions@.len() as int),
                Err(CatalogError::ConflictingDefinitions { server, source }) => exists|j: int|
                    0 <= j < definitions@.len() && #[trigger] conflict_at(plain_views(definitions@), j)
                    && (forall|m: int| 0 <= m < j ==> !#[trigger] conflict_at(plain_views(definitions@), m))
                    && server@ == plain_views(definitions@)[j].name && source.view() == plain_views(definitions@)[j].source,
                Err(_) => false,
            },
    {
        let ghost ds = plain_views(definitions@);
        assert(ds.len() == definitions@.len());
        let mut entries: Vec<Arc<ServerDefinition>> = Vec::new();
        let total = definitions.len();
        let mut rest = definitions;
        let ghost n = ds.len() as int;
        let mut j: usize = 0;
        assert(plain_views(rest@) =~= ds.subrange(0, n));
        proof {
            reveal(catalog_step);
        }
        while rest.len() > 0
            invariant
                ds == plain_views(definitions@),
                n == ds.len(),
                n == total,
                j <= n,
                plain_views(rest@) == ds.subrange(j as int, n),
                catalog_step(arc_views(entries@), ds, j as int),
            decreases rest.len(),
        {
            let ghost ev = arc_views(entries@);
            let ghost before = rest@;
            let d = rest.remove(0);
            proof {
                assert(rest@ == before.remove(0));
                assert(plain_views(before).len() == before.len());
                assert(before.len() == n - j);
                assert forall|k: int| 0 <= k < rest@.len() implies #[trigger] plain_views(rest@)[k] == ds.subrange(j + 1, n)[k] by {
                    assert(before.remove(0)[k] == before[k + 1]);
                    assert(plain_views(before)[k + 1] == ds.subrange(j as int, n)[k + 1]);
                }
                assert(plain_views(rest@) =~= ds.subrange(j + 1, n));
                assert(plain_views(before)[0] == ds.subrange(j as int, n)[0]);
            }
            let ghost dv = d.view();
            assert(dv == ds[j as int]);
            d.valid();
            let p = insertion_point(&entries, &d);
            let present = p < entries.len() && same_key_exec(&entries[p], &d);
            if present {
                proof {
                    assert(ev[p as int] == entries@[p as int].view());
                    lemma_step_present(ev, ds, j as int, p as int);
                }
                let same = entries[p].equivalent_to(&d);
                assert(ev[p as int] == entries@[p as int].view());
                if !same {
                    proof {
                        assert(!equivalent(ev[p as int], ds[j as int]));
                        assert(conflict_at(ds, j as int));
                        assert(forall|m: int| 0 <= m < j ==> !#[trigger] conflict_at(ds, m));
                    }
                    let server = owned(d.name());
                    let source = d.source().duplicate();
                    assert(server@ == ds[j as int].name);
                    assert(source.view() == ds[j as int].source);
                    assert(0 <= j < definitions@.len());
                    assert(conflict_at(plain_views(definitions@), j as int));
                    assert(forall|m: int| 0 <= m < j ==> !#[trigger] conflict_at(plain_views(definitions@), m));
                    assert(server@ == plain_views(definitions@)[j as int].name);
                    return Err(CatalogError::ConflictingDefinitions { server, source });
                }
            } else {
                proof {
                    lemma_step_absent(ev, ds, j as int, p as int);
                }
                entries.insert(p, Arc::new(d));
                proof {
                    assert(arc_views(entries@) =~= ev.insert(p as int, dv));
                }
            }
            j = j + 1;
        }
        proof {
            lemma_catalog_complete(arc_views(entries@), ds);
        }
        Ok(McpCatalog { definitions: entries })
    }

    /// Every declaration ordered by server name, then source identity.
    pub fn definitions(&self) -> (r: &Vec<Arc<ServerDefinition>>)
        ensures
            arc_views(r@) == self.view(),
    {
        &self.definitions
    }

    /// The catalog is ordered by name and source, and every entry is valid.
    pub fn well_ordered(&self)
        ensures
            strictly_sorted(self.view()),
            forall|k: int| 0 <= k < self.view().len() ==> definition_valid(#[trigger] self.view()[k]),
    {
        proof {
            use_type_invariant(self);
        }
    }

    /// Distinct server names in stable order, without selecting a declaration.
    pub fn server_names(&self) -> (r: Vec<String>)
        ensures
            names_sorted(crate::text::views(r@)),
            forall|x: Seq<char>| crate::text::views(r@).contains(x) <==> exists|k: int| 0 <= k < self.view().len() && #[trigger] self.view()[k].name == x,
    {
        proof {
            use_type_invariant(self);
        }
        let ghost ev = self.view();
        let mut r: Vec<String> = Vec::new();
        let mut i: usize = 0;
        while i < self.definitions.len()
            invariant
                ev == self.view(),
                ev == arc_views(self.definitions@),
                strictly_sorted(ev),
                i <= ev.len(),
                names_sorted(crate::text::views(r@)),
                i > 0 ==> r@.len() > 0 && r@.last()@ == ev[i - 1].name,
                i == 0 ==> r@.len() == 0,
                forall|x: Seq<char>| crate::text::views(r@).contains(x) <==> exists|k: int| 0 <= k < i && #[trigger] ev[k].name == x,
            decreases self.definitions.len() - i,
        {
            let name = self.definitions[i].name();
            assert(name@ == ev[i as int].name);
            let fresh = r.len() == 0 || !crate::text::str_eq(r[r.len() - 1].as_str(), name);
            let ghost before = crate::text::views(r@);
            if fresh {
                r.push(owned(name));
                proof {
                    let after = crate::text::views(r@);
                    assert(after =~= before.push(name@));
                    if i > 0 {
                        assert(key_lt(ev[i - 1], ev[i as int]));
                        assert(chars_lt(before.last(), name@));
                        assert forall|a: int, b: int| 0 <= a < b < after.len() implies chars_lt(#[trigger] after[a], #[trigger] after[b]) by {
                            if b == after.len() - 1 && a < b - 1 {
                                assert(chars_lt(before[a], before.last()));
                                crate::text::lemma_chars_lt_transitive(before[a], before.last(), name@);
                            }
                        }
                    }
                    assert forall|x: Seq<char>| after.contains(x) <==> exists|k: int| 0 <= k < i + 1 && #[trigger] ev[k].name == x by {
                        if after.contains(x) {
                            let m = choose|m: int| 0 <= m < after.len() && after[m] == x;
                            if m < before.len() {
                                assert(before[m] == x);
                                assert(before.contains(x));
                            } else {
                                assert(ev[i as int].name == x);
                            }
                        }
                        if exists|k: int| 0 <= k < i + 1 && #[trigger] ev[k].name == x {
                            let k = choose|k: int| 0 <= k < i + 1 && #[trigger] ev[k].name == x;
                            if k < i {
                                assert(before.contains(x));
                                let m = choose|m: int| 0 <= m < before.len() && before[m] == x;
                                assert(after[m] == x);
                            } else {
                                assert(after[before.len() as int] == x);
                            }
                        }
                    }
                }
            } else {
                proof {
                    assert forall|x: Seq<char>| before.contains(x) <==> exists|k: int| 0 <= k < i + 1 && #[trigger] ev[k].name == x by {
                        if exists|k: int| 0 <= k < i + 1 && #[trigger] ev[k].name == x {
                            let k = choose|k: int| 0 <= k < i + 1 && #[trigger] ev[k].name == x;
                            if k == i {
                                assert(before[before.len() - 1] == x);
                            }
                        }
                    }
                }
            }
            i = i + 1;
        }
        r
    }

    /// All origins for a name, in source order; the caller must apply
    /// authority and run policy.
    pub fn candidates(&self, name: &str) -> (r: Vec<Arc<ServerDefinition>>)
        ensures
            arc_views(r@) == with_name(self.view(), name@),
    {
        let ghost ev = self.view();
        let mut r: Vec<Arc<ServerDefinition>> = Vec::new();
        let mut i: usize = 0;
        while i < self.definitions.len()
            invariant
                ev == arc_views(self.definitions@),
                i <= ev.len(),
                arc_views(r@) == with_name(ev.subrange(0, i as int), name@),
            decreases self.definitions.len() - i,
        {
            let ghost pre = ev.subrange(0, i + 1);
            assert(pre.drop_last() =~= ev.subrange(0, i as int));
            assert(pre.last() == self.definitions@[i as int].view());
            proof {
                reveal(Seq::filter);
            }
            if crate::text::str_eq(self.definitions[i].name(), name) {
                let shared = share(&self.definitions[i]);
                let ghost before = r@;
                r.push(shared);
                assert(arc_views(r@) =~= arc_views(before).push(pre.last()));
            }
            i = i + 1;
        }
        assert(ev.subrange(0, ev.len() as int) =~= ev);
        r
    }
}

} // verus!