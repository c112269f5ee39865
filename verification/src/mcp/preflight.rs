//! Required/optional MCP preparation after authority and policy selection:
//! the decision taken on each server's preparation outcome, and the final
//! projection once failed optional servers are omitted.

use vstd::prelude::*;

use crate::mcp::binding_cache::McpBindingError;
use crate::mcp::projection::{
    catalog_views, optional_server, step_tools, McpProjectionError, McpServerProjection, McpStepProjection,
    ServerToolCatalog,
};
use crate::mcp::runtime::McpRuntimeError;
use crate::mcp::catalog::DefinitionView;
use crate::text::{owned, views};
use crate::tools::ToolView;

verus! {

/// Availability failures safe to report without launch inputs or credentials.
#[derive(Clone, Copy, PartialEq, Eq, Structural, Debug)]
pub enum McpServerFailure {
    /// A declared override could not resolve against the captured environment.
    Environment,
    /// The host requires a new authenticated binding before using this server.
    Authentication,
    /// The selected transport could not establish a service connection.
    Connection,
    /// Discovery did not yield a complete, valid descriptor catalog.
    Discovery,
    /// Readiness exceeded the configured deadline.
    Timeout,
}

pub open spec fn failure_message(f: McpServerFailure) -> Seq<char> {
    match f {
        McpServerFailure::Environment => "environment resolution failed; check the server's declared environment variables"@,
        McpServerFailure::Authentication => "authentication is required; authenticate the server and prepare a new run"@,
        McpServerFailure::Connection => "connection failed; check the configured server command or endpoint"@,
        McpServerFailure::Discovery => "tool discovery failed; check the server's tools/list response and schemas"@,
        McpServerFailure::Timeout => "readiness timed out; check server responsiveness and the readiness timeout"@,
    }
}

pub open spec fn failure_code(f: McpServerFailure) -> Seq<char> {
    match f {
        McpServerFailure::Environment => "environment"@,
        McpServerFailure::Authentication => "authentication"@,
        McpServerFailure::Connection => "connection"@,
        McpServerFailure::Discovery => "discovery"@,
        McpServerFailure::Timeout => "timeout"@,
    }
}

impl McpServerFailure {
    /// The actionable description of the failure.
    pub fn message(&self) -> (r: String)
        ensures
            r@ == failure_message(*self),
    {
        match self {
            McpServerFailure::Environment => owned("environment resolution failed; check the server's declared environment variables"),
            McpServerFailure::Authentication => owned("authentication is required; authenticate the server and prepare a new run"),
            McpServerFailure::Connection => owned("connection failed; check the configured server command or endpoint"),
            McpServerFailure::Discovery => owned("tool discovery failed; check the server's tools/list response and schemas"),
            McpServerFailure::Timeout => owned("readiness timed out; check server responsiveness and the readiness timeout"),
        }
    }

    /// The snake_case name under which the failure is reported.
    pub fn code(&self) -> (r: &'static str)
        ensures
            r@ == failure_code(*self),
    {
        match self {
            McpServerFailure::Environment => "environment",
            McpServerFailure::Authentication => "authentication",
            McpServerFailure::Connection => "connection",
            McpServerFailure::Discovery => "discovery",
            McpServerFailure::Timeout => "timeout",
        }
    }
}

/// One omitted optional server. Contains no raw transport errors or secrets.
pub struct McpPreflightWarning {
    server: String,
    reason: McpServerFailure,
}

impl McpPreflightWarning {
    pub closed spec fn server_view(&self) -> Seq<char> {
        self.server@
    }

    pub closed spec fn reason_view(&self) -> McpServerFailure {
        self.reason
    }

    /// Selected server whose tools were omitted; no lower origin replaced it.
    pub fn server(&self) -> (r: &str)
        ensures
            r@ == self.server_view(),
    {
        self.server.as_str()
    }

    /// Bounded, actionable failure classification.
    pub fn reason(&self) -> (r: McpServerFailure)
        ensures
            r == self.reason_view(),
    {
        self.reason
    }
}

/// Failure that prevents returning a usable MCP preflight result.
pub enum McpPreflightError {
    /// The requesting run ended; no further dependency startup is admitted.
    Cancelled,
    /// Required declarations cannot be silently omitted.
    RequiredServer { server: String, reason: McpServerFailure },
    /// Revocation, cancellation, shutdown or a violated binding invariant.
    Interrupted { server: String, source: McpRuntimeError },
    /// Exact tool projection failed after availability filtering.
    Projection(McpProjectionError),
}

/// The availability failure a runtime error stands for, if any. Stale
/// generations, identity violations and call failures are never treated as
/// mere unavailability.
pub open spec fn availability_of(error: McpRuntimeError) -> Option<McpServerFailure> {
    match error {
        McpRuntimeError::Binding(McpBindingError::AuthenticationRequired { .. }) => Some(McpServerFailure::Authentication),
        McpRuntimeError::Binding(McpBindingError::ConnectionFailed { .. }) => Some(McpServerFailure::Connection),
        McpRuntimeError::Binding(McpBindingError::IncompleteCatalog { .. }) => Some(McpServerFailure::Discovery),
        McpRuntimeError::TimedOut { .. } => Some(McpServerFailure::Timeout),
        _ => None,
    }
}

/// The availability failure a runtime error stands for, if any.
pub fn availability_failure(error: &McpRuntimeError) -> (r: Option<McpServerFailure>)
    ensures
        r == availability_of(*error),
{
    match error {
        McpRuntimeError::Binding(McpBindingError::AuthenticationRequired { .. }) => Some(McpServerFailure::Authentication),
        McpRuntimeError::Binding(McpBindingError::ConnectionFailed { .. }) => Some(McpServerFailure::Connection),
        McpRuntimeError::Binding(McpBindingError::IncompleteCatalog { .. }) => Some(McpServerFailure::Discovery),
        McpRuntimeError::TimedOut { .. } => Some(McpServerFailure::Timeout),
        McpRuntimeError::Binding(
            McpBindingError::InvalidBinding { .. }
            | McpBindingError::Invalidated { .. }
            | McpBindingError::Cancelled { .. }
            | McpBindingError::ShuttingDown,
        )
        | McpRuntimeError::CatalogChanged { .. }
        | McpRuntimeError::ToolNotProjected { .. }
        | McpRuntimeError::ToolFailed { .. } => None,
    }
}

/// How preparing one selected server ended.
pub enum PreparationOutcome {
    /// The server is bound and its catalog is available.
    Prepared,
    /// Its declared environment overrides could not be resolved.
    EnvironmentFailed,
    /// The runtime reported an error.
    Failed(McpRuntimeError),
}

/// What preflight does next with one server.
pub enum PreflightStep {
    /// Keep the prepared server.
    Keep,
    /// Omit an unavailable optional server, with a warning.
    Omit(McpPreflightWarning),
    /// Abandon preflight.
    Stop(McpPreflightError),
}

/// The failure reason behind an outcome, before the required/optional rule.
pub open spec fn outcome_failure(outcome: PreparationOutcome) -> Option<McpServerFailure> {
    match outcome {
        PreparationOutcome::Prepared => None,
        PreparationOutcome::EnvironmentFailed => Some(McpServerFailure::Environment),
        PreparationOutcome::Failed(e) => availability_of(e),
    }
}

/// Decide what preflight does with one server's preparation outcome.
///
/// A runtime failure while the run is cancelled stops with `Cancelled`; one
/// that is not an availability failure stops as interrupted. A required
/// server's availability failure stops preflight; an optional one is omitted
/// with a warning naming it.
pub fn preflight_step(name: &str, required: bool, cancelled: bool, outcome: PreparationOutcome) -> (r: PreflightStep)
    ensures
        match outcome {
            PreparationOutcome::Prepared => r is Keep,
            PreparationOutcome::Failed(e) if cancelled => r matches PreflightStep::Stop(McpPreflightError::Cancelled),
            PreparationOutcome::Failed(e) if availability_of(e) is None => r matches PreflightStep::Stop(
                McpPreflightError::Interrupted { server, source },
            ) && server@ == name@ && source == e,
            _ => if required {
                r matches PreflightStep::Stop(McpPreflightError::RequiredServer { server, reason }) && server@ == name@
                    && Some(reason) == outcome_failure(outcome)
            } else {
                r matches PreflightStep::Omit(w) && w.server_view() == name@ && Some(w.reason_view()) == outcome_failure(outcome)
            },
        },
{
    let reason = match outcome {
        PreparationOutcome::Prepared => return PreflightStep::Keep,
        PreparationOutcome::EnvironmentFailed => McpServerFailure::Environment,
        PreparationOutcome::Failed(error) => {
            if cancelled {
                return PreflightStep::Stop(McpPreflightError::Cancelled);
            }
            match availability_failure(&error) {
                Some(reason) => reason,
                None => return PreflightStep::Stop(McpPreflightError::Interrupted { server: owned(name), source: error }),
            }
        },
    };
    if required {
        PreflightStep::Stop(McpPreflightError::RequiredServer { server: owned(name), reason })
    } else {
        PreflightStep::Omit(McpPreflightWarning { server: owned(name), reason })
    }
}

pub open spec fn warning_servers(w: Seq<McpPreflightWarning>) -> Seq<Seq<char>> {
    w.map_values(|x: McpPreflightWarning| x.server_view())
}

/// The selected servers that no warning omitted.
pub open spec fn kept_servers(servers: Seq<DefinitionView>, warnings: Seq<McpPreflightWarning>) -> Seq<DefinitionView> {
    servers.filter(|d: DefinitionView| !warning_servers(warnings).contains(d.name))
}

/// The step projection once the warned optional servers are omitted: the
/// narrowed selection, frozen with the prepared servers' catalogs, holding
/// exactly the admitted tools of the kept servers.
pub fn finish_preflight(projection: &McpServerProjection, warnings: &Vec<McpPreflightWarning>, catalogs: Vec<ServerToolCatalog>) -> (r: Result<McpStepProjection, McpPreflightError>)
    ensures
        match r {
            Ok(p) => {
                &&& forall|k: int| 0 <= k < warnings@.len() ==> optional_server(projection.view().servers, #[trigger] warning_servers(warnings@)[k])
                &&& step_tools(kept_servers(projection.view().servers, warnings@), catalog_views(catalogs@), projection.view().eligible_tools) matches Ok(ts)
                &&& p.view().servers == kept_servers(projection.view().servers, warnings@)
                &&& crate::mcp::projection::projected_descriptors(p.view().tools).to_set() == ts.to_set()
                &&& crate::tools::tools_sorted(crate::mcp::projection::projected_descriptors(p.view().tools))
                &&& forall|k: int| 0 <= k < p.view().tools.len() ==> crate::mcp::projection::tool_paired(
                    kept_servers(projection.view().servers, warnings@),
                    #[trigger] p.view().tools[k],
                )
            },
            Err(McpPreflightError::Projection(e)) => if forall|k: int| 0 <= k < warnings@.len() ==> optional_server(projection.view().servers, #[trigger] warning_servers(warnings@)[k]) {
                step_tools(kept_servers(projection.view().servers, warnings@), catalog_views(catalogs@), projection.view().eligible_tools) == Err::<Seq<crate::tools::ToolView>, crate::mcp::projection::ProjectionErrorView>(e.view())
            } else {
                e is InvalidOptionalOmission
            },
            Err(_) => false,
        },
{
    let mut omitted: Vec<String> = Vec::new();
    let mut i: usize = 0;
    while i < warnings.len()
        invariant
            i <= warnings@.len(),
            views(omitted@) == warning_servers(warnings@).subrange(0, i as int),
        decreases warnings.len() - i,
    {
        let ghost before = omitted@;
        omitted.push(owned(warnings[i].server()));
        assert(views(omitted@) =~= views(before).push(warning_servers(warnings@)[i as int]));
        assert(warning_servers(warnings@).subrange(0, i + 1) =~= warning_servers(warnings@).subrange(0, i as int).push(
            warning_servers(warnings@)[i as int],
        ));
        i = i + 1;
    }
    assert(warning_servers(warnings@).subrange(0, warnings@.len() as int) =~= warning_servers(warnings@));
    let narrowed = match projection.without_unavailable_optional_servers(&omitted) {
        Ok(p) => p,
        Err(e) => {
            proof {
                if e is InvalidOptionalOmission {
                    let server = e->InvalidOptionalOmission_server;
                    let k = choose|k: int| 0 <= k < omitted@.len() && #[trigger] views(omitted@)[k] == server@
                        && !optional_server(projection.view().servers, server@);
                    assert(!optional_server(projection.view().servers, warning_servers(warnings@)[k]));
                }
            }
            return Err(McpPreflightError::Projection(e));
        },
    };
    match narrowed.with_tools(catalogs) {
        Ok(p) => Ok(p),
        Err(e) => Err(McpPreflightError::Projection(e)),
    }
}

/// Failed optional servers contribute no descriptors: when the step is
/// frozen over the selection without the omitted servers, every tool it
/// admits names a server that was not omitted.
pub proof fn law_omitted_servers_contribute_no_tools(
    servers: Seq<DefinitionView>,
    omitted: Seq<Seq<char>>,
    cs: Seq<crate::mcp::projection::CatalogView>,
    sel: crate::policy::SelectionView,
)
    requires
        crate::mcp::projection::catalogs_valid(cs),
    ensures
        step_tools(servers.filter(|d: DefinitionView| !omitted.contains(d.name)), cs, sel) matches Ok(ts) ==> forall|x: ToolView|
            #[trigger] ts.contains(x) ==> (x.server matches Some(n) && !omitted.contains(n)),
{
    let pred = |d: DefinitionView| !omitted.contains(d.name);
    let kept = servers.filter(pred);
    crate::mcp::projection::law_step_tools_are_admitted(kept, cs, sel);
    if let Ok(ts) = step_tools(kept, cs, sel) {
        assert forall|x: ToolView| #[trigger] ts.contains(x) implies (x.server matches Some(n) && !omitted.contains(n)) by {
            assert(crate::mcp::projection::tool_owned(kept, x));
            let n = x.server->0;
            crate::mcp::projection::lemma_def_named(kept, n);
            let d = crate::mcp::projection::def_named(kept, n)->0;
            servers.lemma_filter_contains_rev(pred, d);
            let k = choose|k: int| 0 <= k < kept.len() && kept[k] == d;
            broadcast use vstd::seq_lib::group_filter_ensures;
            assert(pred(kept[k]));
        }
    }
}

/// A finished step holds no tool of a server that failed preflight: every
/// tool of the step frozen by `finish_preflight` names a server that no
/// warning omitted.
pub proof fn law_failed_optional_servers_leave_no_tools(
    servers: Seq<DefinitionView>,
    warnings: Seq<McpPreflightWarning>,
    cs: Seq<crate::mcp::projection::CatalogView>,
    sel: crate::policy::SelectionView,
    tools: Seq<crate::mcp::projection::ProjectedView>,
)
    requires
        crate::mcp::projection::catalogs_valid(cs),
        step_tools(kept_servers(servers, warnings), cs, sel) matches Ok(ts)
            && crate::mcp::projection::projected_descriptors(tools).to_set() == ts.to_set(),
    ensures
        forall|k: int| 0 <= k < tools.len() ==> ((#[trigger] tools[k]).descriptor.server matches Some(n) && !warning_servers(warnings).contains(n)),
{
    let omitted = warning_servers(warnings);
    law_omitted_servers_contribute_no_tools(servers, omitted, cs, sel);
    assert(kept_servers(servers, warnings) == servers.filter(|d: DefinitionView| !omitted.contains(d.name)));
    let ts = step_tools(kept_servers(servers, warnings), cs, sel)->Ok_0;
    let ds = crate::mcp::projection::projected_descriptors(tools);
    assert forall|k: int| 0 <= k < tools.len() implies ((#[trigger] tools[k]).descriptor.server matches Some(n) && !omitted.contains(n)) by {
        assert(ds[k] == tools[k].descriptor);
        assert(ds.to_set().contains(ds[k]));
        assert(ts.contains(ds[k]));
    }
}

} // verus!
