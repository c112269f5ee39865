//! Immutable host configuration for sandbox execution. Child policies select
//! opaque grants from this capture; they never resolve environment variables,
//! mount paths, endpoints or credentials again.

use vstd::prelude::*;

use crate::sandbox::runner::RunnerProfile;
use crate::ids::{fresh_id, hyphenated, v4_bytes};
use crate::mcp::exposure::distinct;
use crate::sandbox::types::{pair_views, ConfigView, ExecutionMode, ExecutionRequest, SandboxConfig};
use crate::text::{contains_str, owned, str_eq, views};

verus! {

/// Authority a child may receive. `execution_mode` is carried unchanged;
/// `filesystem` lists requested filesystem grants, which no backend supports;
/// `environment` lists environment grant identities.
pub struct SandboxPermissions<M> {
    pub execution_mode: M,
    pub network_enabled: bool,
    pub filesystem: Vec<String>,
    pub environment: Vec<String>,
}

/// Why a binding could not be captured, narrowed or used.
#[derive(Clone, Copy, PartialEq, Eq, Structural, Debug)]
pub enum SandboxBindingError {
    NotIsolating,
    MountsUnsupported,
    NetworkUnsupported,
    NetworkWidened,
    FilesystemUnsupported,
    EnvironmentNotInherited,
    OtherBackend,
    NotEphemeral,
    ProtectedEnvironment,
}

pub open spec fn binding_error_text(e: SandboxBindingError) -> Seq<char> {
    match e {
        SandboxBindingError::NotIsolating => "Sandbox backend does not enforce isolation"@,
        SandboxBindingError::MountsUnsupported => "Sandbox mount permission bindings are unsupported"@,
        SandboxBindingError::NetworkUnsupported => "Sandbox backend cannot enforce the requested network configuration"@,
        SandboxBindingError::NetworkWidened => "Child sandbox network permission exceeds the captured host binding"@,
        SandboxBindingError::FilesystemUnsupported => "Sandbox filesystem grants are unsupported"@,
        SandboxBindingError::EnvironmentNotInherited => "Child sandbox environment grant is not inherited"@,
        SandboxBindingError::OtherBackend => "Sandbox operation selected another backend"@,
        SandboxBindingError::NotEphemeral => "Owned sandbox execution requires an ephemeral operation"@,
        SandboxBindingError::ProtectedEnvironment => "Sandbox request cannot replace a host environment binding"@,
    }
}

impl SandboxBindingError {
    /// The human-readable reason.
    pub fn message(&self) -> (r: String)
        ensures
            r@ == binding_error_text(*self),
    {
        match self {
            SandboxBindingError::NotIsolating => owned("Sandbox backend does not enforce isolation"),
            SandboxBindingError::MountsUnsupported => owned("Sandbox mount permission bindings are unsupported"),
            SandboxBindingError::NetworkUnsupported => owned("Sandbox backend cannot enforce the requested network configuration"),
            SandboxBindingError::NetworkWidened => owned("Child sandbox network permission exceeds the captured host binding"),
            SandboxBindingError::FilesystemUnsupported => owned("Sandbox filesystem grants are unsupported"),
            SandboxBindingError::EnvironmentNotInherited => owned("Child sandbox environment grant is not inherited"),
            SandboxBindingError::OtherBackend => owned("Sandbox operation selected another backend"),
            SandboxBindingError::NotEphemeral => owned("Owned sandbox execution requires an ephemeral operation"),
            SandboxBindingError::ProtectedEnvironment => owned("Sandbox request cannot replace a host environment binding"),
        }
    }
}

/// The first components of a list of pairs.
pub open spec fn firsts(g: Seq<(Seq<char>, Seq<char>)>) -> Seq<Seq<char>> {
    g.map_values(|p: (Seq<char>, Seq<char>)| p.0)
}

/// The second components of a list of pairs.
pub open spec fn seconds(g: Seq<(Seq<char>, Seq<char>)>) -> Seq<Seq<char>> {
    g.map_values(|p: (Seq<char>, Seq<char>)| p.1)
}

pub open spec fn distinct_firsts(g: Seq<(Seq<char>, Seq<char>)>) -> bool {
    forall|a: int, b: int| 0 <= a < b < g.len() ==> #[trigger] g[a].0 != #[trigger] g[b].0
}

/// Exact backend and host environment values retained across a delegation
/// tree: environment grants map opaque identities to variable names, and
/// every captured variable name stays protected from tool overrides.
pub struct SandboxBinding {
    runner: RunnerProfile,
    config: SandboxConfig,
    environment: Vec<(String, String)>,
    protected_environment: Vec<String>,
}

pub struct BindingView {
    pub runner: RunnerProfile,
    pub config: ConfigView,
    pub grants: Seq<(Seq<char>, Seq<char>)>,
    pub protected: Seq<Seq<char>>,
}

/// The narrowed capture for a child with these network and environment
/// permissions.
pub open spec fn narrowed(b: BindingView, network: bool, env: Seq<Seq<char>>) -> BindingView {
    let grants = kept_grants(b.grants, env);
    BindingView {
        runner: b.runner,
        config: ConfigView { network_enabled: network, env_vars: kept_vars(b.config.env_vars, grants), ..b.config },
        grants,
        protected: b.protected,
    }
}

proof fn lemma_filter_distinct(g: Seq<(Seq<char>, Seq<char>)>, pred: spec_fn((Seq<char>, Seq<char>)) -> bool)
    requires
        distinct_firsts(g),
    ensures
        distinct_firsts(g.filter(pred)),
    decreases g.len(),
{
    reveal(Seq::filter);
    if g.len() > 0 {
        let p = g.drop_last();
        assert(distinct_firsts(p));
        lemma_filter_distinct(p, pred);
        if pred(g.last()) {
            let f = p.filter(pred);
            let f2 = f.push(g.last());
            assert forall|a: int, b: int| 0 <= a < b < f2.len() implies #[trigger] f2[a].0 != #[trigger] f2[b].0 by {
                if b == f.len() {
                    assert(f2[a] == f[a]);
                    assert(f.contains(f[a]));
                    p.lemma_filter_contains_rev(pred, f[a]);
                    let j = choose|j: int| 0 <= j < p.len() && p[j] == f[a];
                    assert(g[j] == p[j]);
                } else {
                    assert(f2[a] == f[a] && f2[b] == f[b]);
                }
            }
        }
    }
}

/// The grants whose identities the child receives.
pub open spec fn kept_grants(g: Seq<(Seq<char>, Seq<char>)>, env: Seq<Seq<char>>) -> Seq<(Seq<char>, Seq<char>)> {
    g.filter(|p: (Seq<char>, Seq<char>)| env.contains(p.0))
}

/// The variables whose names some kept grant binds.
pub open spec fn kept_vars(vars: Seq<(Seq<char>, Seq<char>)>, grants: Seq<(Seq<char>, Seq<char>)>) -> Seq<(Seq<char>, Seq<char>)> {
    vars.filter(|p: (Seq<char>, Seq<char>)| seconds(grants).contains(p.0))
}

/// A fresh random identity in hyphenated form.
pub open spec fn fresh_id_text(id: Seq<char>) -> bool {
    exists|b: Seq<u8>| v4_bytes(b) && id == hyphenated(b)
}

/// The grants made by binding each name to the identity at the same
/// position, in order; a later binding of an identity replaces an earlier one.
pub open spec fn grants_from(ids: Seq<Seq<char>>, names: Seq<Seq<char>>) -> Seq<(Seq<char>, Seq<char>)>
    decreases names.len(),
{
    if names.len() == 0 || ids.len() == 0 {
        Seq::empty()
    } else {
        with_grant(grants_from(ids.drop_last(), names.drop_last()), ids.last(), names.last())
    }
}

impl SandboxBinding {
    pub closed spec fn view(&self) -> BindingView {
        BindingView {
            runner: self.runner,
            config: self.config.view(),
            grants: pair_views(self.environment@),
            protected: views(self.protected_environment@),
        }
    }

    #[verifier::type_invariant]
    spec fn grants_distinct(&self) -> bool {
        distinct_firsts(pair_views(self.environment@))
    }

    /// Capture the actual host configuration without starting a sandbox.
    /// Environment grants identify these values, not later host lookups.
    ///
    /// Rejects non-isolating runners, mount configurations (their read/write
    /// semantics are not represented by the sandbox wire contract) and a
    /// network the backend cannot enforce, in that order.
    pub fn capture(runner: RunnerProfile, config: SandboxConfig) -> (r: Result<SandboxBinding, SandboxBindingError>)
        ensures
            match r {
                Ok(b) => runner.enforces_isolation && config.volumes@.len() == 0
                    && (!config.network_enabled || runner.capabilities.supports_networking)
                    && b.view().runner == runner && b.view().config == config.view()
                    && (forall|x: Seq<char>| #[trigger] b.view().protected.contains(x) <==> firsts(config.view().env_vars).contains(x))
                    && (forall|k: int| 0 <= k < b.view().grants.len() ==> firsts(config.view().env_vars).contains(#[trigger] b.view().grants[k].1))
                    && exists|ids: Seq<Seq<char>>| {
                        &&& ids.len() == distinct(firsts(config.view().env_vars)).len()
                        &&& forall|k: int| 0 <= k < ids.len() ==> #[trigger] fresh_id_text(ids[k])
                        &&& b.view().grants == grants_from(ids, distinct(firsts(config.view().env_vars)))
                    },
                Err(e) => e == (if !runner.enforces_isolation {
                    SandboxBindingError::NotIsolating
                } else if config.volumes@.len() != 0 {
                    SandboxBindingError::MountsUnsupported
                } else {
                    SandboxBindingError::NetworkUnsupported
                }) && !(runner.enforces_isolation && config.volumes@.len() == 0
                    && (!config.network_enabled || runner.capabilities.supports_networking)),
            },
    {
        if !runner.enforces_isolation {
            return Err(SandboxBindingError::NotIsolating);
        }
        if config.volumes.len() != 0 {
            return Err(SandboxBindingError::MountsUnsupported);
        }
        if config.network_enabled && !runner.capabilities.supports_networking {
            return Err(SandboxBindingError::NetworkUnsupported);
        }
        let ghost ev = pair_views(config.env_vars@);
        let mut names: Vec<String> = Vec::new();
        let mut environment: Vec<(String, String)> = Vec::new();
        let ghost mut ids: Seq<Seq<char>> = Seq::empty();
        let mut i: usize = 0;
        assert(firsts(ev.subrange(0, 0)) =~= Seq::<Seq<char>>::empty());
        assert(views(names@) =~= Seq::<Seq<char>>::empty());
        while i < config.env_vars.len()
            invariant
                ev == pair_views(config.env_vars@),
                i <= ev.len(),
                views(names@) == distinct(firsts(ev.subrange(0, i as int))),
                ids.len() == names@.len(),
                forall|k: int| 0 <= k < ids.len() ==> #[trigger] fresh_id_text(ids[k]),
                pair_views(environment@) == grants_from(ids, views(names@)),
                views(names@).to_set() == firsts(ev.subrange(0, i as int)).to_set(),
                distinct_firsts(pair_views(environment@)),
                forall|k: int| 0 <= k < environment@.len() ==> firsts(ev).contains(#[trigger] pair_views(environment@)[k].1),
            decreases config.env_vars.len() - i,
        {
            let name = config.env_vars[i].0.as_str();
            assert(ev[i as int].0 == name@);
            assert(firsts(ev)[i as int] == name@);
            assert(firsts(ev.subrange(0, i + 1)) =~= firsts(ev.subrange(0, i as int)).push(name@));
            assert(firsts(ev.subrange(0, i + 1)).drop_last() =~= firsts(ev.subrange(0, i as int)));
            assert(firsts(ev.subrange(0, i + 1)).last() == name@);
            if !contains_str(&names, name) {
                let ghost before = names@;
                let ghost ids_before = ids;
                names.push(owned(name));
                assert(views(names@) =~= views(before).push(name@));
                proof {
                    crate::mcp::projection::lemma_push_to_set(views(before), name@);
                }
                let id = fresh_id();
                proof {
                    ids = ids.push(id@);
                    assert(ids.drop_last() =~= ids_before);
                    assert(views(names@).drop_last() =~= views(before));
                    assert(fresh_id_text(id@));
                }
                bind_grant(&mut environment, id, owned(name), Ghost(firsts(ev)));
            } else {
                proof {
                    assert(views(names@).to_set().contains(name@));
                    assert(firsts(ev.subrange(0, i as int)).to_set().insert(name@) =~= firsts(ev.subrange(0, i as int)).to_set());
                }
            }
            proof {
                let pa = firsts(ev.subrange(0, i as int));
                crate::mcp::projection::lemma_push_to_set(pa, name@);
            }
            i = i + 1;
        }
        assert(ev.subrange(0, ev.len() as int) =~= ev);
        assert(firsts(ev) == firsts(config.view().env_vars));
        assert(forall|x: Seq<char>| #[trigger] views(names@).contains(x) <==> views(names@).to_set().contains(x));
        assert(forall|x: Seq<char>| #[trigger] firsts(ev).contains(x) <==> firsts(ev).to_set().contains(x));
        Ok(SandboxBinding { runner, config, environment, protected_environment: names })
    }

    /// Report only authority physically represented by the captured config:
    /// its network setting, no filesystem grants, and its environment grants.
    pub fn permissions<M>(&self, execution_mode: M) -> (r: SandboxPermissions<M>)
        ensures
            r.execution_mode == execution_mode,
            r.network_enabled == self.view().config.network_enabled,
            r.filesystem@.len() == 0,
            views(r.environment@) == firsts(self.view().grants),
    {
        let mut ids: Vec<String> = Vec::new();
        let mut i: usize = 0;
        while i < self.environment.len()
            invariant
                i <= self.environment@.len(),
                views(ids@) == firsts(pair_views(self.environment@)).subrange(0, i as int),
            decreases self.environment.len() - i,
        {
            let ghost before = ids@;
            ids.push(owned(self.environment[i].0.as_str()));
            assert(views(ids@) =~= views(before).push(self.environment@[i as int].0@));
            assert(firsts(pair_views(self.environment@)).subrange(0, i + 1) =~= firsts(pair_views(self.environment@)).subrange(0, i as int).push(
                self.environment@[i as int].0@,
            ));
            i = i + 1;
        }
        assert(firsts(pair_views(self.environment@)).subrange(0, self.environment@.len() as int) =~= firsts(pair_views(self.environment@)));
        SandboxPermissions { execution_mode, network_enabled: self.config.network_enabled, filesystem: Vec::new(), environment: ids }
    }

    /// Narrow the configuration, retaining exact backend and environment values.
    ///
    /// Rejects network widening, filesystem grants and unknown environment
    /// grants, in that order, before a child can create or execute a sandbox.
    pub fn for_permissions<M>(&self, permissions: &SandboxPermissions<M>) -> (r: Result<SandboxBinding, SandboxBindingError>)
        ensures
            match r {
                Ok(b) => b.view() == narrowed(self.view(), permissions.network_enabled, views(permissions.environment@))
                    && (!permissions.network_enabled || self.view().config.network_enabled)
                    && permissions.filesystem@.len() == 0
                    && forall|k: int| 0 <= k < permissions.environment@.len() ==> firsts(self.view().grants).contains(
                        #[trigger] views(permissions.environment@)[k],
                    ),
                Err(SandboxBindingError::NetworkWidened) => permissions.network_enabled && !self.view().config.network_enabled,
                Err(SandboxBindingError::FilesystemUnsupported) => (!permissions.network_enabled || self.view().config.network_enabled)
                    && permissions.filesystem@.len() != 0,
                Err(SandboxBindingError::EnvironmentNotInherited) => (!permissions.network_enabled || self.view().config.network_enabled)
                    && permissions.filesystem@.len() == 0 && exists|k: int| 0 <= k < permissions.environment@.len()
                    && !firsts(self.view().grants).contains(#[trigger] views(permissions.environment@)[k]),
                Err(_) => false,
            },
    {
        proof {
            use_type_invariant(self);
        }
        if permissions.network_enabled && !self.config.network_enabled {
            return Err(SandboxBindingError::NetworkWidened);
        }
        if permissions.filesystem.len() != 0 {
            return Err(SandboxBindingError::FilesystemUnsupported);
        }
        let ghost gv = pair_views(self.environment@);
        let ids = self.permissions(());
        let mut k: usize = 0;
        while k < permissions.environment.len()
            invariant
                gv == pair_views(self.environment@),
                gv == self.view().grants,
                !permissions.network_enabled || self.view().config.network_enabled,
                permissions.filesystem@.len() == 0,
                views(ids.environment@) == firsts(gv),
                k <= permissions.environment@.len(),
                forall|j: int| 0 <= j < k ==> firsts(gv).contains(#[trigger] views(permissions.environment@)[j]),
            decreases permissions.environment.len() - k,
        {
            assert(views(permissions.environment@)[k as int] == permissions.environment@[k as int]@);
            if !contains_str(&ids.environment, permissions.environment[k].as_str()) {
                return Err(SandboxBindingError::EnvironmentNotInherited);
            }
            k = k + 1;
        }
        let ghost env = views(permissions.environment@);
        let mut environment: Vec<(String, String)> = Vec::new();
        let mut retained: Vec<String> = Vec::new();
        let mut i: usize = 0;
        while i < self.environment.len()
            invariant
                gv == pair_views(self.environment@),
                env == views(permissions.environment@),
                i <= gv.len(),
                pair_views(environment@) == kept_grants(gv.subrange(0, i as int), env),
                views(retained@) == seconds(pair_views(environment@)),
            decreases self.environment.len() - i,
        {
            let ghost pre = gv.subrange(0, i + 1);
            assert(pre.drop_last() =~= gv.subrange(0, i as int));
            assert(pre.last() == (self.environment@[i as int].0@, self.environment@[i as int].1@));
            proof {
                reveal(Seq::filter);
            }
            if contains_str(&permissions.environment, self.environment[i].0.as_str()) {
                let ghost before = environment@;
                let ghost before_r = retained@;
                environment.push((owned(self.environment[i].0.as_str()), owned(self.environment[i].1.as_str())));
                retained.push(owned(self.environment[i].1.as_str()));
                assert(pair_views(environment@) =~= pair_views(before).push(pre.last()));
                assert(views(retained@) =~= views(before_r).push(pre.last().1));
                assert(seconds(pair_views(environment@)) =~= seconds(pair_views(before)).push(pre.last().1));
            }
            i = i + 1;
        }
        assert(gv.subrange(0, gv.len() as int) =~= gv);
        let ghost cv = pair_views(self.config.env_vars@);
        let ghost grants = kept_grants(gv, env);
        let mut env_vars: Vec<(String, String)> = Vec::new();
        let mut j: usize = 0;
        while j < self.config.env_vars.len()
            invariant
                cv == pair_views(self.config.env_vars@),
                grants == kept_grants(gv, env),
                views(retained@) == seconds(grants),
                j <= cv.len(),
                pair_views(env_vars@) == kept_vars(cv.subrange(0, j as int), grants),
            decreases self.config.env_vars.len() - j,
        {
            let ghost pre = cv.subrange(0, j + 1);
            assert(pre.drop_last() =~= cv.subrange(0, j as int));
            assert(pre.last() == (self.config.env_vars@[j as int].0@, self.config.env_vars@[j as int].1@));
            proof {
                reveal(Seq::filter);
            }
            if contains_str(&retained, self.config.env_vars[j].0.as_str()) {
                let ghost before = env_vars@;
                env_vars.push((owned(self.config.env_vars[j].0.as_str()), owned(self.config.env_vars[j].1.as_str())));
                assert(pair_views(env_vars@) =~= pair_views(before).push(pre.last()));
            }
            j = j + 1;
        }
        assert(cv.subrange(0, cv.len() as int) =~= cv);
        proof {
            lemma_filter_distinct(gv, |p: (Seq<char>, Seq<char>)| env.contains(p.0));
        }
        let mut config = self.config.duplicate();
        config.network_enabled = permissions.network_enabled;
        config.env_vars = env_vars;
        let protected_environment = crate::text::copy_strings(&self.protected_environment);
        let r = SandboxBinding { runner: self.runner, config, environment, protected_environment };
        assert(r.view().grants == kept_grants(self.view().grants, env));
        assert(r.view().config.env_vars == kept_vars(self.view().config.env_vars, kept_grants(self.view().grants, env)));
        assert(r.view().config == narrowed(self.view(), permissions.network_enabled, env).config);
        assert(r.view().protected == self.view().protected);
        Ok(r)
    }

    /// The backend this binding captured.
    pub fn runner(&self) -> (r: RunnerProfile)
        ensures
            r == self.view().runner,
    {
        self.runner
    }

    /// The configuration for one owned ephemeral execution on this binding's
    /// backend. Tool-authored variables may not override a captured host
    /// variable or reintroduce one removed for a child.
    pub fn execution_config(&self, runner: &RunnerProfile, request: &ExecutionRequest) -> (r: Result<SandboxConfig, SandboxBindingError>)
        ensures
            match r {
                Ok(c) => runner.id == self.view().runner.id && request.mode is Ephemeral
                    && (forall|k: int| 0 <= k < request.env@.len() ==> !self.view().protected.contains(#[trigger] request.env@[k].0@))
                    && c.view() == self.view().config,
                Err(SandboxBindingError::OtherBackend) => runner.id != self.view().runner.id,
                Err(SandboxBindingError::NotEphemeral) => runner.id == self.view().runner.id && !(request.mode is Ephemeral),
                Err(SandboxBindingError::ProtectedEnvironment) => runner.id == self.view().runner.id && request.mode is Ephemeral
                    && exists|k: int| 0 <= k < request.env@.len() && self.view().protected.contains(#[trigger] request.env@[k].0@),
                Err(_) => false,
            },
    {
        if runner.id != self.runner.id {
            return Err(SandboxBindingError::OtherBackend);
        }
        match request.mode {
            ExecutionMode::Ephemeral => {},
            _ => return Err(SandboxBindingError::NotEphemeral),
        }
        let mut k: usize = 0;
        while k < request.env.len()
            invariant
                runner.id == self.view().runner.id,
                request.mode is Ephemeral,
                views(self.protected_environment@) == self.view().protected,
                k <= request.env@.len(),
                forall|j: int| 0 <= j < k ==> !views(self.protected_environment@).contains(#[trigger] request.env@[j].0@),
            decreases request.env.len() - k,
        {
            if contains_str(&self.protected_environment, request.env[k].0.as_str()) {
                return Err(SandboxBindingError::ProtectedEnvironment);
            }
            k = k + 1;
        }
        Ok(self.config.duplicate())
    }
}

/// The grants after binding `id` to `name`: the binding of `id` is replaced
/// in place where there is one, else the new binding comes last.
pub open spec fn with_grant(g: Seq<(Seq<char>, Seq<char>)>, id: Seq<char>, name: Seq<char>) -> Seq<(Seq<char>, Seq<char>)> {
    if exists|i: int| 0 <= i < g.len() && #[trigger] g[i].0 == id {
        g.update(choose|i: int| 0 <= i < g.len() && #[trigger] g[i].0 == id, (id, name))
    } else {
        g.push((id, name))
    }
}

/// Bind a grant identity to a variable name, replacing an earlier binding
/// of the same identity.
fn bind_grant(environment: &mut Vec<(String, String)>, id: String, name: String, Ghost(allowed): Ghost<Seq<Seq<char>>>)
    requires
        distinct_firsts(pair_views(old(environment)@)),
        allowed.contains(name@),
        forall|k: int| 0 <= k < old(environment)@.len() ==> allowed.contains(#[trigger] pair_views(old(environment)@)[k].1),
    ensures
        pair_views(final(environment)@) == with_grant(pair_views(old(environment)@), id@, name@),
        distinct_firsts(pair_views(final(environment)@)),
        forall|k: int| 0 <= k < final(environment)@.len() ==> allowed.contains(#[trigger] pair_views(final(environment)@)[k].1),
{
    let ghost before = pair_views(environment@);
    let mut i: usize = 0;
    while i < environment.len()
        invariant
            before == pair_views(environment@),
            before == pair_views(old(environment)@),
            distinct_firsts(before),
            allowed.contains(name@),
            forall|k: int| 0 <= k < before.len() ==> allowed.contains(#[trigger] before[k].1),
            i <= before.len(),
            forall|k: int| 0 <= k < i ==> #[trigger] before[k].0 != id@,
        decreases environment.len() - i,
    {
        assert(before[i as int].0 == environment@[i as int].0@);
        if str_eq(environment[i].0.as_str(), id.as_str()) {
            let mut v = Vec::new();
            std::mem::swap(&mut v, environment);
            v.remove(i);
            v.insert(i, (id, name));
            assert(pair_views(v@) =~= before.update(i as int, (id@, name@)));
            proof {
                let after = before.update(i as int, (id@, name@));
                let j = choose|j: int| 0 <= j < before.len() && #[trigger] before[j].0 == id@;
                if j != i as int {
                    if j < i {
                        assert(before[j].0 != before[i as int].0);
                    } else {
                        assert(before[i as int].0 != before[j].0);
                    }
                }
                assert(with_grant(before, id@, name@) == after);
                assert forall|a: int, b: int| 0 <= a < b < after.len() implies #[trigger] after[a].0 != #[trigger] after[b].0 by {
                    assert(before[a].0 != before[b].0);
                }
                assert forall|k: int| 0 <= k < after.len() implies allowed.contains(#[trigger] after[k].1) by {
                    if k != i {
                        assert(after[k] == before[k]);
                    }
                }
            }
            *environment = v;
            return;
        }
        i = i + 1;
    }
    let ghost pushed = before.push((id@, name@));
    assert(!(exists|j: int| 0 <= j < before.len() && #[trigger] before[j].0 == id@));
    assert(with_grant(before, id@, name@) == pushed);
    environment.push((id, name));
    assert(pair_views(environment@) =~= pushed);
    assert forall|a: int, b: int| 0 <= a < b < pushed.len() implies #[trigger] pushed[a].0 != #[trigger] pushed[b].0 by {
        if b < before.len() {
            assert(before[a].0 != before[b].0);
        }
    }
    assert forall|k: int| 0 <= k < pushed.len() implies allowed.contains(#[trigger] pushed[k].1) by {
        if k < before.len() {
            assert(pushed[k] == before[k]);
        }
    }
}

/// Narrowing never widens: a child keeps only grants, variables and network
/// access that its parent binding already had, on the same backend.
pub proof fn law_narrowing_never_widens(b: BindingView, network: bool, env: Seq<Seq<char>>)
    requires
        !network || b.config.network_enabled,
    ensures
        narrowed(b, network, env).runner == b.runner,
        narrowed(b, network, env).config.network_enabled ==> b.config.network_enabled,
        forall|g: (Seq<char>, Seq<char>)| #[trigger] narrowed(b, network, env).grants.contains(g) ==> b.grants.contains(g) && env.contains(g.0),
        forall|v: (Seq<char>, Seq<char>)| #[trigger] narrowed(b, network, env).config.env_vars.contains(v) ==> b.config.env_vars.contains(v),
        narrowed(b, network, env).protected == b.protected,
{
    broadcast use vstd::seq_lib::group_filter_ensures;
    let gp = |p: (Seq<char>, Seq<char>)| env.contains(p.0);
    let grants = kept_grants(b.grants, env);
    let vp = |p: (Seq<char>, Seq<char>)| seconds(grants).contains(p.0);
    assert forall|g: (Seq<char>, Seq<char>)| #[trigger] narrowed(b, network, env).grants.contains(g) implies b.grants.contains(g) && env.contains(g.0) by {
        b.grants.lemma_filter_contains_rev(gp, g);
        let k = choose|k: int| 0 <= k < grants.len() && grants[k] == g;
        assert(gp(grants[k]));
    }
    assert forall|v: (Seq<char>, Seq<char>)| #[trigger] narrowed(b, network, env).config.env_vars.contains(v) implies b.config.env_vars.contains(v) by {
        b.config.env_vars.lemma_filter_contains_rev(vp, v);
    }
}

/// Filtering with a predicate that holds of every element keeps the sequence.
proof fn lemma_filter_keeps_all(g: Seq<(Seq<char>, Seq<char>)>, pred: spec_fn((Seq<char>, Seq<char>)) -> bool)
    requires
        forall|k: int| 0 <= k < g.len() ==> #[trigger] pred(g[k]),
    ensures
        g.filter(pred) == g,
    decreases g.len(),
{
    reveal(Seq::filter);
    if g.len() > 0 {
        lemma_filter_keeps_all(g.drop_last(), pred);
        assert(pred(g[g.len() - 1]));
        assert(g.drop_last().push(g.last()) =~= g);
    } else {
        assert(g.filter(pred) =~= g);
    }
}

/// Permissions round-trip through narrowing. Narrowing a binding to its own
/// permissions (its network setting and every grant identity) keeps its
/// grants and network setting; and a child narrowed to requested
/// permissions whose identities the binding holds reports exactly the
/// requested network setting and the requested identities.
pub proof fn law_permissions_round_trip(b: BindingView, network: bool, env: Seq<Seq<char>>)
    ensures
        narrowed(b, b.config.network_enabled, firsts(b.grants)).grants == b.grants,
        narrowed(b, b.config.network_enabled, firsts(b.grants)).config.network_enabled == b.config.network_enabled,
        narrowed(b, network, env).config.network_enabled == network,
        (forall|k: int| 0 <= k < env.len() ==> firsts(b.grants).contains(#[trigger] env[k])) ==> firsts(
            narrowed(b, network, env).grants,
        ).to_set() == env.to_set(),
{
    let own = firsts(b.grants);
    let pred = |p: (Seq<char>, Seq<char>)| own.contains(p.0);
    assert forall|k: int| 0 <= k < b.grants.len() implies #[trigger] pred(b.grants[k]) by {
        assert(own[k] == b.grants[k].0);
    }
    lemma_filter_keeps_all(b.grants, pred);
    assert(kept_grants(b.grants, own) == b.grants.filter(pred));
    if forall|k: int| 0 <= k < env.len() ==> firsts(b.grants).contains(#[trigger] env[k]) {
        let q = |p: (Seq<char>, Seq<char>)| env.contains(p.0);
        let kept = b.grants.filter(q);
        assert(kept_grants(b.grants, env) == kept);
        assert forall|x: Seq<char>| firsts(kept).to_set().contains(x) <==> env.to_set().contains(x) by {
            if firsts(kept).contains(x) {
                let j = choose|j: int| 0 <= j < firsts(kept).len() && firsts(kept)[j] == x;
                b.grants.lemma_filter_pred(q, j);
            }
            if env.contains(x) {
                let k = choose|k: int| 0 <= k < env.len() && env[k] == x;
                assert(own.contains(env[k]));
                let i = choose|i: int| 0 <= i < own.len() && own[i] == x;
                b.grants.lemma_filter_contains(q, i);
                let m = choose|m: int| 0 <= m < kept.len() && kept[m] == b.grants[i];
                assert(firsts(kept)[m] == x);
            }
        }
        assert(firsts(kept).to_set() =~= env.to_set());
    }
}

/// Removing repeats keeps every name once.
proof fn lemma_distinct_names(s: Seq<Seq<char>>)
    ensures
        forall|a: int, b: int| 0 <= a < b < distinct(s).len() ==> #[trigger] distinct(s)[a] != #[trigger] distinct(s)[b],
        forall|x: Seq<char>| #[trigger] distinct(s).contains(x) <==> s.contains(x),
    decreases s.len(),
{
    if s.len() > 0 {
        let p = s.drop_last();
        lemma_distinct_names(p);
        let d = distinct(p);
        assert forall|x: Seq<char>| #[trigger] distinct(s).contains(x) <==> s.contains(x) by {
            if s.contains(x) && x != s.last() {
                let j = choose|j: int| 0 <= j < s.len() && s[j] == x;
                assert(p[j] == x);
            }
            if d.contains(x) {
                let j = choose|j: int| 0 <= j < p.len() && p[j] == x;
                assert(s[j] == x);
            }
            if !d.contains(s.last()) {
                assert(d.push(s.last())[d.len() as int] == s.last());
                if d.push(s.last()).contains(x) {
                    let j = choose|j: int| 0 <= j < d.len() + 1 && d.push(s.last())[j] == x;
                    if j < d.len() {
                        assert(d[j] == x);
                    }
                }
                if d.contains(x) {
                    let j = choose|j: int| 0 <= j < d.len() && d[j] == x;
                    assert(d.push(s.last())[j] == x);
                }
            }
            assert(s[s.len() - 1] == s.last());
        }
        if !d.contains(s.last()) {
            let e = d.push(s.last());
            assert forall|a: int, b: int| 0 <= a < b < e.len() implies #[trigger] e[a] != #[trigger] e[b] by {
                if b == d.len() {
                    assert(e[a] == d[a]);
                } else {
                    assert(e[a] == d[a] && e[b] == d[b]);
                }
            }
        }
    }
}

/// The grants made from pairwise distinct identities are exactly the
/// identity and name at each position.
proof fn lemma_grants_from_distinct_ids(ids: Seq<Seq<char>>, names: Seq<Seq<char>>)
    requires
        ids.len() == names.len(),
        forall|a: int, b: int| 0 <= a < b < ids.len() ==> #[trigger] ids[a] != #[trigger] ids[b],
    ensures
        grants_from(ids, names).len() == names.len(),
        forall|k: int| 0 <= k < names.len() ==> #[trigger] grants_from(ids, names)[k] == (ids[k], names[k]),
    decreases names.len(),
{
    if names.len() > 0 {
        let pi = ids.drop_last();
        let pn = names.drop_last();
        assert forall|a: int, b: int| 0 <= a < b < pi.len() implies #[trigger] pi[a] != #[trigger] pi[b] by {
            assert(pi[a] == ids[a] && pi[b] == ids[b]);
        }
        lemma_grants_from_distinct_ids(pi, pn);
        let g = grants_from(pi, pn);
        assert(!(exists|i: int| 0 <= i < g.len() && #[trigger] g[i].0 == ids.last())) by {
            if exists|i: int| 0 <= i < g.len() && #[trigger] g[i].0 == ids.last() {
                let i = choose|i: int| 0 <= i < g.len() && #[trigger] g[i].0 == ids.last();
                assert(g[i] == (pi[i], pn[i]));
                assert(ids[i] != ids[ids.len() - 1]);
            }
        }
        assert(grants_from(ids, names) == g.push((ids.last(), names.last())));
        assert forall|k: int| 0 <= k < names.len() implies #[trigger] grants_from(ids, names)[k] == (ids[k], names[k]) by {
            if k < names.len() - 1 {
                assert(g[k] == (pi[k], pn[k]));
            }
        }
    }
}

/// One grant per captured variable name: when the fresh identities a
/// capture drew are pairwise distinct, its grants bind each distinct name
/// of the configuration exactly once, each to its own identity, and the
/// identities the binding reports are those identities.
pub proof fn law_one_grant_per_name(ids: Seq<Seq<char>>, env_vars: Seq<(Seq<char>, Seq<char>)>)
    requires
        ids.len() == distinct(firsts(env_vars)).len(),
        forall|a: int, b: int| 0 <= a < b < ids.len() ==> #[trigger] ids[a] != #[trigger] ids[b],
    ensures
        forall|x: Seq<char>| #[trigger] seconds(grants_from(ids, distinct(firsts(env_vars)))).contains(x) <==> firsts(
            env_vars,
        ).contains(x),
        forall|a: int, b: int|
            0 <= a < b < grants_from(ids, distinct(firsts(env_vars))).len() ==> #[trigger] grants_from(ids, distinct(firsts(env_vars)))[a].1
                != #[trigger] grants_from(ids, distinct(firsts(env_vars)))[b].1,
        firsts(grants_from(ids, distinct(firsts(env_vars)))) == ids,
{
    let names = distinct(firsts(env_vars));
    lemma_distinct_names(firsts(env_vars));
    lemma_grants_from_distinct_ids(ids, names);
    let g = grants_from(ids, names);
    assert(seconds(g) =~= names);
    assert(firsts(g) =~= ids);
}

} // verus!
