//! Pure, authority-aware MCP selection for one model step.
//!
//! Resolve definitions before the host obtains their tool catalogs, then freeze
//! the exact descriptors against those same definitions. This module does no
//! connection or credential lookup. A projection is not an execution grant:
//! binding, authentication and sandbox enforcement remain in the host.

use std::sync::Arc;
use vstd::prelude::*;

use crate::mcp::exposure::{
    chosen_names, deferred_part, kept_selection, model_exposed, names_of, projected, visible_part, ExposureView,
    McpExposureSnapshot, McpToolExposure, SnapshotView, MCP_EAGER_TOOL_LIMIT,
};
use crate::mcp::catalog::{
    arc_views, authority_rank, names_sorted, source_authority, with_name, DefinitionView, McpCatalog, ServerAuthority,
    ServerDefinition, ServerSource, SourceView,
};
use crate::policy::{eligible, selects, EffectiveResourceSelection, EffectiveRunPolicy, SelectionView};
use crate::text::{chars_lt, contains_str, is_blank, owned, share, share_all, str_eq, str_is_blank, views};
use crate::tools::{
    insert_descriptor, tool_named, tool_views, tools_sorted, Exposure, ToolCollision, ToolDescriptor, ToolMap,
    ToolSource, ToolView,
};

verus! {

/// Host-resolved activation scope, not fields accepted from MCP annotations.
pub struct McpProjectionScope {
    /// Only active, policy-eligible skills may contribute declarations.
    pub active_skills: Vec<String>,
}

/// A projection could not preserve exact server or tool identity.
pub enum McpProjectionError {
    /// An activated skill is not in the resolved policy's eligible set.
    SkillOutsidePolicy { skill_id: String },
    /// Equally authoritative origins disagree about one server's definition.
    AmbiguousServer { server: String },
    /// A supplied descriptor is not an identified MCP tool from this server.
    InvalidTool { server: String, provider_name: String },
    /// A catalog belongs to another configuration or authentication revision.
    DefinitionChanged { server: String },
    /// The host has not supplied a tool catalog for a selected definition.
    MissingCatalog { server: String },
    /// Partial discovery cannot masquerade as a complete, possibly empty catalog.
    IncompleteCatalog { server: String },
    /// Merging two different snapshots would resurrect removed tools.
    ConflictingCatalog { server: String },
    /// Availability filtering cannot omit a required or unselected declaration.
    InvalidOptionalOmission { server: String },
    /// Distinct tools must not share a provider-visible call target.
    ToolCollision(ToolCollision),
}

pub enum ProjectionErrorView {
    SkillOutsidePolicy(Seq<char>),
    AmbiguousServer(Seq<char>),
    InvalidTool(Seq<char>, Seq<char>),
    DefinitionChanged(Seq<char>),
    MissingCatalog(Seq<char>),
    IncompleteCatalog(Seq<char>),
    ConflictingCatalog(Seq<char>),
    InvalidOptionalOmission(Seq<char>),
    ToolCollision(Seq<char>),
}

impl McpProjectionError {
    pub open spec fn view(&self) -> ProjectionErrorView {
        match self {
            McpProjectionError::SkillOutsidePolicy { skill_id } => ProjectionErrorView::SkillOutsidePolicy(skill_id@),
            McpProjectionError::AmbiguousServer { server } => ProjectionErrorView::AmbiguousServer(server@),
            McpProjectionError::InvalidTool { server, provider_name } => ProjectionErrorView::InvalidTool(
                server@,
                provider_name@,
            ),
            McpProjectionError::DefinitionChanged { server } => ProjectionErrorView::DefinitionChanged(server@),
            McpProjectionError::MissingCatalog { server } => ProjectionErrorView::MissingCatalog(server@),
            McpProjectionError::IncompleteCatalog { server } => ProjectionErrorView::IncompleteCatalog(server@),
            McpProjectionError::ConflictingCatalog { server } => ProjectionErrorView::ConflictingCatalog(server@),
            McpProjectionError::InvalidOptionalOmission { server } => ProjectionErrorView::InvalidOptionalOmission(
                server@,
            ),
            McpProjectionError::ToolCollision(c) => ProjectionErrorView::ToolCollision(c.provider_name@),
        }
    }
}

/// An identified MCP tool of the named server.
pub open spec fn tool_belongs(t: ToolView, server: Seq<char>) -> bool {
    t.source == ToolSource::Mcp && t.server == Some(server) && !is_blank(t.id) && !is_blank(t.provider_name)
}

/// The descriptor at `i` is invalid, or another earlier descriptor of the same
/// provider name differs from it.
pub open spec fn descriptor_rejected(ts: Seq<ToolView>, server: Seq<char>, i: int) -> bool {
    !tool_belongs(ts[i], server) || exists|m: int| 0 <= m < i && #[trigger] ts[m].provider_name == ts[i].provider_name && ts[m] != ts[i]
}

/// A host-supplied discovery snapshot associated with one exact declaration.
///
/// The host must obtain these descriptors from the matching binding or cache
/// entry, including its owner, authentication and environment identity. This
/// association is not a claim an untrusted server may supply about itself.
pub struct ServerToolCatalog {
    definition: Arc<ServerDefinition>,
    tools: ToolMap,
    complete: bool,
}

pub struct CatalogView {
    pub definition: DefinitionView,
    pub tools: Seq<ToolView>,
    pub complete: bool,
}

impl ServerToolCatalog {
    pub closed spec fn view(&self) -> CatalogView {
        CatalogView { definition: self.definition.view(), tools: self.tools.view(), complete: self.complete }
    }

    #[verifier::type_invariant]
    spec fn consistent(&self) -> bool {
        &&& tools_sorted(self.tools.view())
        &&& forall|k: int| 0 <= k < self.tools.view().len() ==> tool_belongs(#[trigger] self.tools.view()[k], self.definition.view().name)
    }

    /// Capture already-compiled descriptors without modifying their semantics.
    ///
    /// Rejects missing identities, non-MCP tools, wrong server associations and
    /// conflicting provider-visible names, at the first offending descriptor.
    /// Identical repeats are coalesced.
    pub fn new(definition: Arc<ServerDefinition>, tools: Vec<Arc<ToolDescriptor>>, complete: bool) -> (r: Result<ServerToolCatalog, McpProjectionError>)
        ensures
            match r {
                Ok(c) => c.view().definition == definition.view() && c.view().complete == complete
                    && tools_sorted(c.view().tools) && c.view().tools.to_set() == tool_views(tools@).to_set()
                    && forall|i: int| 0 <= i < tools@.len() ==> !#[trigger] descriptor_rejected(tool_views(tools@), definition.view().name, i),
                Err(e) => exists|i: int| 0 <= i < tools@.len() && #[trigger] descriptor_rejected(tool_views(tools@), definition.view().name, i)
                    && (forall|m: int| 0 <= m < i ==> !#[trigger] descriptor_rejected(tool_views(tools@), definition.view().name, m))
                    && e.view() == (if !tool_belongs(tool_views(tools@)[i], definition.view().name) {
                        ProjectionErrorView::InvalidTool(definition.view().name, tool_views(tools@)[i].provider_name)
                    } else {
                        ProjectionErrorView::ToolCollision(tool_views(tools@)[i].provider_name)
                    }),
            },
    {
        let ghost ts = tool_views(tools@);
        let ghost server = definition.view().name;
        let mut indexed = ToolMap::new();
        let mut i: usize = 0;
        while i < tools.len()
            invariant
                ts == tool_views(tools@),
                server == definition.view().name,
                i <= ts.len(),
                tools_sorted(indexed.view()),
                indexed.view().to_set() == ts.subrange(0, i as int).to_set(),
                forall|m: int| 0 <= m < i ==> !#[trigger] descriptor_rejected(ts, server, m),
                forall|k: int| 0 <= k < indexed.view().len() ==> tool_belongs(#[trigger] indexed.view()[k], server),
            decreases tools.len() - i,
        {
            let descriptor = &tools[i];
            assert(ts[i as int] == descriptor.view());
            let belongs = match &descriptor.server {
                Some(s) => str_eq(s.as_str(), definition.name()),
                None => false,
            } && descriptor.source == ToolSource::Mcp && !str_is_blank(descriptor.id.as_str())
                && !str_is_blank(descriptor.provider_name.as_str());
            assert(belongs == tool_belongs(ts[i as int], server));
            if !belongs {
                assert(descriptor_rejected(ts, server, i as int));
                return Err(McpProjectionError::InvalidTool {
                    server: owned(definition.name()),
                    provider_name: descriptor.provider_name.clone(),
                });
            }
            let ghost before = indexed.view();
            proof {
                crate::tools::lemma_tool_named(before, ts[i as int].provider_name);
            }
            match insert_descriptor(&mut indexed, share(descriptor)) {
                Ok(()) => {},
                Err(c) => {
                    proof {
                        let e = tool_named(before, ts[i as int].provider_name)->0;
                        assert(ts.subrange(0, i as int).to_set().contains(e));
                        let m = choose|m: int| 0 <= m < i && ts.subrange(0, i as int)[m] == e;
                        assert(ts[m] == e);
                        assert(descriptor_rejected(ts, server, i as int));
                    }
                    return Err(McpProjectionError::ToolCollision(c));
                },
            }
            proof {
                lemma_catalog_insert_step(before, indexed.view(), ts, server, i as int);
            }
            i = i + 1;
        }
        assert(ts.subrange(0, ts.len() as int) =~= ts);
        Ok(ServerToolCatalog { definition, tools: indexed, complete })
    }

    /// Declaration whose matching binding supplied the discovery snapshot.
    pub fn definition(&self) -> (r: &Arc<ServerDefinition>)
        ensures
            r.view() == self.view().definition,
    {
        &self.definition
    }

    /// False means discovery must finish before this catalog can define a step.
    pub fn is_complete(&self) -> (r: bool)
        ensures
            r == self.view().complete,
    {
        self.complete
    }

    /// Unchanged, source-qualified descriptors, including non-visible entries.
    pub fn tools(&self) -> (r: &ToolMap)
        ensures
            r.view() == self.view().tools,
            tools_sorted(self.view().tools),
            forall|k: int| 0 <= k < self.view().tools.len() ==> tool_belongs(#[trigger] self.view().tools[k], self.view().definition.name),
    {
        proof {
            use_type_invariant(self);
        }
        &self.tools
    }

    /// Same completeness and the same descriptors.
    pub fn equivalent_tools(&self, other: &ServerToolCatalog) -> (r: bool)
        ensures
            r == (self.view().complete == other.view().complete && self.view().tools == other.view().tools),
    {
        if self.complete != other.complete || self.tools.len() != other.tools.len() {
            return false;
        }
        let a = self.tools.entries();
        let b = other.tools.entries();
        let mut i: usize = 0;
        while i < a.len()
            invariant
                a@.len() == b@.len(),
                tool_views(a@) == self.view().tools,
                tool_views(b@) == other.view().tools,
                i <= a@.len(),
                forall|k: int| 0 <= k < i ==> #[trigger] tool_views(a@)[k] == tool_views(b@)[k],
            decreases a.len() - i,
        {
            if !a[i].equivalent_to(&b[i]) {
                assert(tool_views(a@)[i as int] != tool_views(b@)[i as int]);
                return false;
            }
            i = i + 1;
        }
        assert(tool_views(a@) =~= tool_views(b@));
        true
    }
}

/// Appending an element adds it to the set of elements.
pub proof fn lemma_push_to_set<T>(s: Seq<T>, x: T)
    ensures
        s.push(x).to_set() == s.to_set().insert(x),
{
    assert forall|y: T| #[trigger] s.push(x).to_set().contains(y) <==> s.to_set().insert(x).contains(y) by {
        if s.push(x).contains(y) {
            let k = choose|k: int| 0 <= k < s.push(x).len() && #[trigger] s.push(x)[k] == y;
            if k < s.len() {
                assert(s[k] == y);
            }
        }
        if s.contains(y) {
            let k = choose|k: int| 0 <= k < s.len() && #[trigger] s[k] == y;
            assert(s.push(x)[k] == y);
        }
        if y == x {
            assert(s.push(x)[s.len() as int] == y);
        }
    }
    assert(s.push(x).to_set() =~= s.to_set().insert(x));
}

proof fn lemma_catalog_insert_step(before: Seq<ToolView>, after: Seq<ToolView>, ts: Seq<ToolView>, server: Seq<char>, i: int)
    requires
        0 <= i < ts.len(),
        tools_sorted(before),
        tools_sorted(after),
        tool_belongs(ts[i], server),
        before.to_set() == ts.subrange(0, i).to_set(),
        forall|k: int| 0 <= k < before.len() ==> tool_belongs(#[trigger] before[k], server),
        match tool_named(before, ts[i].provider_name) {
            Some(e) => e == ts[i] && after == before,
            None => after.to_set() == before.to_set().insert(ts[i]),
        },
    ensures
        after.to_set() == ts.subrange(0, i + 1).to_set(),
        !descriptor_rejected(ts, server, i),
        forall|k: int| 0 <= k < after.len() ==> tool_belongs(#[trigger] after[k], server),
{
    crate::tools::lemma_tool_named(before, ts[i].provider_name);
    assert(ts.subrange(0, i + 1) =~= ts.subrange(0, i).push(ts[i]));
    lemma_push_to_set(ts.subrange(0, i), ts[i]);
    assert forall|m: int| 0 <= m < i && #[trigger] ts[m].provider_name == ts[i].provider_name implies ts[m] == ts[i] by {
        assert(ts.subrange(0, i)[m] == ts[m]);
        assert(ts.subrange(0, i).contains(ts[m]));
        assert(before.to_set().contains(ts[m]));
        let k = choose|k: int| 0 <= k < before.len() && #[trigger] before[k] == ts[m];
        assert(tool_named(before, ts[i].provider_name) == Some(before[k]));
    }
    if tool_named(before, ts[i].provider_name) is None {
        assert forall|k: int| 0 <= k < after.len() implies tool_belongs(#[trigger] after[k], server) by {
            assert(after.to_set().contains(after[k]));
            if after[k] != ts[i] {
                assert(before.to_set().contains(after[k]));
                let k2 = choose|k2: int| 0 <= k2 < before.len() && #[trigger] before[k2] == after[k];
            }
        }
    } else {
        assert(ts.subrange(0, i).to_set().insert(ts[i]) =~= ts.subrange(0, i).to_set()) by {
            let e = tool_named(before, ts[i].provider_name)->0;
            assert(before.to_set().contains(e));
        }
    }
}


/// A candidate whose source may contribute in this scope: the global
/// configuration, or an active skill.
pub open spec fn candidate_active(c: DefinitionView, skills: Seq<Seq<char>>) -> bool {
    match c.source {
        SourceView::Global => true,
        SourceView::Skill(id) => skills.contains(id),
    }
}

/// The candidates whose sources may contribute, in order.
pub open spec fn active_candidates(cs: Seq<DefinitionView>, skills: Seq<Seq<char>>) -> Seq<DefinitionView> {
    cs.filter(|c: DefinitionView| candidate_active(c, skills))
}

/// Some candidate comes from the global configuration.
pub open spec fn has_global(cs: Seq<DefinitionView>) -> bool {
    exists|k: int| 0 <= k < cs.len() && #[trigger] cs[k].source == SourceView::Global
}

/// The highest authority among the candidates.
pub open spec fn top_authority(cs: Seq<DefinitionView>) -> ServerAuthority {
    if has_global(cs) {
        ServerAuthority::Global
    } else {
        ServerAuthority::Skill
    }
}

/// The candidates of one authority, in order.
pub open spec fn of_authority(cs: Seq<DefinitionView>, a: ServerAuthority) -> Seq<DefinitionView> {
    cs.filter(|c: DefinitionView| source_authority(c.source) == a)
}

/// The candidates of the highest authority present.
pub open spec fn highest(cs: Seq<DefinitionView>) -> Seq<DefinitionView> {
    of_authority(cs, top_authority(cs))
}

/// Same configuration digest, requirement and authentication.
pub open spec fn same_settings(a: DefinitionView, b: DefinitionView) -> bool {
    a.config_hash == b.config_hash && a.required == b.required && a.authentication == b.authentication
}

/// The first contender disagrees with another.
pub open spec fn ambiguous(h: Seq<DefinitionView>) -> bool {
    exists|k: int| 0 < k < h.len() && !same_settings(h[0], #[trigger] h[k])
}

/// The active candidates of the highest authority declaring `name`.
pub open spec fn contenders(cat: Seq<DefinitionView>, skills: Seq<Seq<char>>, name: Seq<char>) -> Seq<DefinitionView> {
    highest(active_candidates(with_name(cat, name), skills))
}

/// The declaration a projection selects for `name`, if any: the first
/// active candidate of the highest authority, for a server the policy allows.
pub open spec fn chosen(cat: Seq<DefinitionView>, servers: SelectionView, skills: Seq<Seq<char>>, name: Seq<char>) -> Option<DefinitionView> {
    let h = contenders(cat, skills, name);
    if selects(servers, name) && h.len() > 0 {
        Some(h[0])
    } else {
        None
    }
}

/// The definition stored under a server name.
pub open spec fn def_named(s: Seq<DefinitionView>, name: Seq<char>) -> Option<DefinitionView>
    decreases s.len(),
{
    if s.len() == 0 {
        None
    } else if s.last().name == name {
        Some(s.last())
    } else {
        def_named(s.drop_last(), name)
    }
}

/// Strictly increasing server names.
pub open spec fn servers_sorted(s: Seq<DefinitionView>) -> bool {
    forall|a: int, b: int| 0 <= a < b < s.len() ==> chars_lt(#[trigger] s[a].name, #[trigger] s[b].name)
}

/// Filtering keeps a subsequence.
proof fn lemma_active_subset(cs: Seq<DefinitionView>, skills: Seq<Seq<char>>)
    ensures
        forall|x: DefinitionView| active_candidates(cs, skills).contains(x) ==> cs.contains(x) && candidate_active(x, skills),
        active_candidates(cs, skills).len() <= cs.len(),
{
    broadcast use vstd::seq_lib::group_filter_ensures;
    let pred = |c: DefinitionView| candidate_active(c, skills);
    assert forall|x: DefinitionView| active_candidates(cs, skills).contains(x) implies cs.contains(x) && candidate_active(x, skills) by {
        cs.lemma_filter_contains_rev(pred, x);
        let k = choose|k: int| 0 <= k < cs.filter(pred).len() && cs.filter(pred)[k] == x;
        assert(pred(cs.filter(pred)[k]));
    }
}

proof fn lemma_of_authority(cs: Seq<DefinitionView>, a: ServerAuthority)
    ensures
        forall|x: DefinitionView| of_authority(cs, a).contains(x) <==> cs.contains(x) && source_authority(x.source) == a,
{
    broadcast use vstd::seq_lib::group_filter_ensures;
    let pred = |c: DefinitionView| source_authority(c.source) == a;
    assert forall|x: DefinitionView| of_authority(cs, a).contains(x) <==> cs.contains(x) && source_authority(x.source) == a by {
        if cs.filter(pred).contains(x) {
            cs.lemma_filter_contains_rev(pred, x);
            let k = choose|k: int| 0 <= k < cs.filter(pred).len() && cs.filter(pred)[k] == x;
            assert(pred(cs.filter(pred)[k]));
        }
        if cs.contains(x) && source_authority(x.source) == a {
            let k = choose|k: int| 0 <= k < cs.len() && cs[k] == x;
            cs.lemma_filter_contains(pred, k);
        }
    }
}

/// The contenders are non-empty exactly when some candidate is active.
proof fn lemma_highest_nonempty(cs: Seq<DefinitionView>)
    ensures
        (highest(cs).len() > 0) == (cs.len() > 0),
        forall|x: DefinitionView| highest(cs).contains(x) ==> cs.contains(x),
{
    lemma_of_authority(cs, top_authority(cs));
    if cs.len() > 0 {
        if has_global(cs) {
            let k = choose|k: int| 0 <= k < cs.len() && #[trigger] cs[k].source == SourceView::Global;
            assert(highest(cs).contains(cs[k]));
        } else {
            assert(source_authority(cs[0].source) == ServerAuthority::Skill);
            assert(highest(cs).contains(cs[0]));
        }
    }
    if highest(cs).len() > 0 {
        assert(highest(cs).contains(highest(cs)[0]));
    }
}

proof fn lemma_with_name_members(ev: Seq<DefinitionView>, name: Seq<char>)
    ensures
        forall|x: DefinitionView| with_name(ev, name).contains(x) ==> ev.contains(x) && x.name == name,
{
    broadcast use vstd::seq_lib::group_filter_ensures;
    let pred = |d: DefinitionView| d.name == name;
    assert forall|x: DefinitionView| with_name(ev, name).contains(x) implies ev.contains(x) && x.name == name by {
        ev.lemma_filter_contains_rev(pred, x);
        let k = choose|k: int| 0 <= k < ev.filter(pred).len() && ev.filter(pred)[k] == x;
        assert(pred(ev.filter(pred)[k]));
    }
}

/// Every contender declares the name and is in the catalog.
proof fn lemma_contenders_named(cat: Seq<DefinitionView>, skills: Seq<Seq<char>>, name: Seq<char>)
    ensures
        forall|x: DefinitionView| #[trigger] contenders(cat, skills, name).contains(x) ==> x.name == name && cat.contains(x)
            && candidate_active(x, skills),
{
    let w = with_name(cat, name);
    let a = active_candidates(w, skills);
    lemma_highest_nonempty(a);
    lemma_active_subset(w, skills);
    lemma_with_name_members(cat, name);
    assert forall|x: DefinitionView| #[trigger] contenders(cat, skills, name).contains(x) implies x.name == name && cat.contains(x)
        && candidate_active(x, skills) by {
        assert(highest(a).contains(x));
        assert(a.contains(x));
        assert(w.contains(x));
    }
}

/// A name some catalog entry declares, when it has contenders.
proof fn lemma_contenders_declared(cat: Seq<DefinitionView>, skills: Seq<Seq<char>>, name: Seq<char>)
    requires
        contenders(cat, skills, name).len() > 0,
    ensures
        exists|k: int| 0 <= k < cat.len() && #[trigger] cat[k].name == name,
{
    let w = with_name(cat, name);
    let a = active_candidates(w, skills);
    lemma_highest_nonempty(a);
    lemma_active_subset(w, skills);
    lemma_with_name_members(cat, name);
    assert(a.contains(a[0]));
    assert(w.contains(a[0]));
    assert(cat.contains(a[0]));
    let k = choose|k: int| 0 <= k < cat.len() && cat[k] == a[0];
    assert(cat[k].name == name);
}

fn candidate_is_active(c: &ServerDefinition, skills: &Vec<String>) -> (r: bool)
    ensures
        r == candidate_active(c.view(), views(skills@)),
{
    match c.source() {
        ServerSource::Global => true,
        ServerSource::Skill { skill_id } => {
            let ghost src = c.view().source;
            assert(src == SourceView::Skill(skill_id@));
            let mut i: usize = 0;
            while i < skills.len()
                invariant
                    src == c.view().source,
                    src == SourceView::Skill(skill_id@),
                    i <= skills@.len(),
                    forall|k: int| 0 <= k < i ==> #[trigger] views(skills@)[k] != skill_id@,
                decreases skills.len() - i,
            {
                if skills[i] == *skill_id {
                    assert(views(skills@)[i as int] == skill_id@);
                    assert(views(skills@).contains(skill_id@));
                    return true;
                }
                i = i + 1;
            }
            false
        },
    }
}

fn filter_active(cands: &Vec<Arc<ServerDefinition>>, skills: &Vec<String>) -> (r: Vec<Arc<ServerDefinition>>)
    ensures
        arc_views(r@) == active_candidates(arc_views(cands@), views(skills@)),
{
    let ghost cv = arc_views(cands@);
    let mut r: Vec<Arc<ServerDefinition>> = Vec::new();
    let mut i: usize = 0;
    while i < cands.len()
        invariant
            cv == arc_views(cands@),
            i <= cv.len(),
            arc_views(r@) == active_candidates(cv.subrange(0, i as int), views(skills@)),
        decreases cands.len() - i,
    {
        let ghost pre = cv.subrange(0, i + 1);
        assert(pre.drop_last() =~= cv.subrange(0, i as int));
        assert(pre.last() == cands@[i as int].view());
        proof {
            reveal(Seq::filter);
        }
        if candidate_is_active(&cands[i], skills) {
            let ghost before = r@;
            r.push(share(&cands[i]));
            assert(arc_views(r@) =~= arc_views(before).push(pre.last()));
        }
        i = i + 1;
    }
    assert(cv.subrange(0, cv.len() as int) =~= cv);
    r
}

fn any_global(cs: &Vec<Arc<ServerDefinition>>) -> (r: bool)
    ensures
        r == has_global(arc_views(cs@)),
{
    let ghost cv = arc_views(cs@);
    let mut i: usize = 0;
    while i < cs.len()
        invariant
            cv == arc_views(cs@),
            i <= cv.len(),
            forall|k: int| 0 <= k < i ==> #[trigger] cv[k].source != SourceView::Global,
        decreases cs.len() - i,
    {
        assert(cv[i as int] == cs@[i as int].view());
        match cs[i].source() {
            ServerSource::Global => {
                assert(cv[i as int].source == SourceView::Global);
                return true;
            },
            _ => {},
        }
        i = i + 1;
    }
    false
}

fn filter_authority(cs: &Vec<Arc<ServerDefinition>>, a: ServerAuthority) -> (r: Vec<Arc<ServerDefinition>>)
    ensures
        arc_views(r@) == of_authority(arc_views(cs@), a),
{
    let ghost cv = arc_views(cs@);
    let mut r: Vec<Arc<ServerDefinition>> = Vec::new();
    let mut i: usize = 0;
    while i < cs.len()
        invariant
            cv == arc_views(cs@),
            i <= cv.len(),
            arc_views(r@) == of_authority(cv.subrange(0, i as int), a),
        decreases cs.len() - i,
    {
        let ghost pre = cv.subrange(0, i + 1);
        assert(pre.drop_last() =~= cv.subrange(0, i as int));
        assert(pre.last() == cs@[i as int].view());
        proof {
            reveal(Seq::filter);
        }
        if cs[i].authority() == a {
            let ghost before = r@;
            r.push(share(&cs[i]));
            assert(arc_views(r@) =~= arc_views(before).push(pre.last()));
        }
        i = i + 1;
    }
    assert(cv.subrange(0, cv.len() as int) =~= cv);
    r
}

/// Same configuration digest, requirement and authentication.
pub fn same_settings_exec(left: &ServerDefinition, right: &ServerDefinition) -> (r: bool)
    ensures
        r == same_settings(left.view(), right.view()),
{
    left.config_hash().same_as(right.config_hash()) && left.is_required() == right.is_required()
        && left.authentication().same_as(right.authentication())
}

fn is_ambiguous(h: &Vec<Arc<ServerDefinition>>) -> (r: bool)
    requires
        h@.len() > 0,
    ensures
        r == ambiguous(arc_views(h@)),
{
    let ghost hv = arc_views(h@);
    let mut k: usize = 1;
    while k < h.len()
        invariant
            hv == arc_views(h@),
            1 <= k <= hv.len(),
            forall|m: int| 0 < m < k ==> same_settings(hv[0], #[trigger] hv[m]),
        decreases h.len() - k,
    {
        assert(hv[k as int] == h@[k as int].view() && hv[0] == h@[0].view());
        if !same_settings_exec(&h[0], &h[k]) {
            return true;
        }
        k = k + 1;
    }
    false
}


/// Every active skill is allowed by the skill selection.
pub open spec fn skills_allowed(policy: SelectionView, skills: Seq<Seq<char>>) -> bool {
    forall|k: int| 0 <= k < skills.len() ==> selects(policy, #[trigger] skills[k])
}

/// The declarations selected for one model step, and the tool eligibility
/// that discovery must respect.
pub struct McpServerProjection {
    servers: Vec<Arc<ServerDefinition>>,
    eligible_tools: EffectiveResourceSelection,
}

pub struct ServerProjectionView {
    pub servers: Seq<DefinitionView>,
    pub eligible_tools: SelectionView,
}

/// `def_named` finds the entry with a name, in a list without repeated names.
pub proof fn lemma_def_named(s: Seq<DefinitionView>, name: Seq<char>)
    ensures
        def_named(s, name) matches Some(d) ==> d.name == name && s.contains(d),
        def_named(s, name) is None ==> forall|k: int| 0 <= k < s.len() ==> #[trigger] s[k].name != name,
        servers_sorted(s) ==> forall|k: int| 0 <= k < s.len() && #[trigger] s[k].name == name ==> def_named(s, name) == Some(s[k]),
    decreases s.len(),
{
    if s.len() > 0 {
        lemma_def_named(s.drop_last(), name);
        if def_named(s, name) is None {
            assert forall|k: int| 0 <= k < s.len() implies #[trigger] s[k].name != name by {
                if k < s.len() - 1 {
                    assert(s.drop_last()[k] == s[k]);
                }
            }
        }
        if let Some(d) = def_named(s, name) {
            if s.last().name != name {
                let k = choose|k: int| 0 <= k < s.drop_last().len() && s.drop_last()[k] == d;
                assert(s[k] == d);
            } else {
                assert(s[s.len() - 1] == d);
            }
        }
        if servers_sorted(s) {
            assert(servers_sorted(s.drop_last()));
            assert forall|k: int| 0 <= k < s.len() && #[trigger] s[k].name == name implies def_named(s, name) == Some(s[k]) by {
                if k < s.len() - 1 {
                    assert(chars_lt(s[k].name, s[s.len() - 1].name));
                    crate::text::lemma_chars_lt_irreflexive(name);
                    assert(s.drop_last()[k] == s[k]);
                }
            }
        }
    }
}

proof fn lemma_def_named_push(s: Seq<DefinitionView>, d: DefinitionView, n: Seq<char>)
    ensures
        def_named(s.push(d), n) == if d.name == n { Some(d) } else { def_named(s, n) },
{
    assert(s.push(d).drop_last() =~= s);
}

/// One of the first `i` names.
pub open spec fn name_among(names: Seq<Seq<char>>, i: int, x: Seq<char>) -> bool {
    exists|m: int| 0 <= m < i && #[trigger] names[m] == x
}

/// Resolution as far as names `names[0..i]`.
pub open spec fn resolved_upto(
    servers: Seq<DefinitionView>,
    names: Seq<Seq<char>>,
    i: int,
    cat: Seq<DefinitionView>,
    sel: SelectionView,
    skills: Seq<Seq<char>>,
) -> bool {
    &&& servers_sorted(servers)
    &&& forall|k: int| 0 <= k < servers.len() ==> name_among(names, i, #[trigger] servers[k].name)
    &&& forall|m: int| 0 <= m < i ==> def_named(servers, #[trigger] names[m]) == chosen(cat, sel, skills, names[m])
    &&& forall|m: int| 0 <= m < i && chosen(cat, sel, skills, #[trigger] names[m]) is Some ==> !ambiguous(contenders(cat, skills, names[m]))
}

impl McpServerProjection {
    pub closed spec fn view(&self) -> ServerProjectionView {
        ServerProjectionView { servers: arc_views(self.servers@), eligible_tools: self.eligible_tools.view() }
    }

    #[verifier::type_invariant]
    spec fn sorted(&self) -> bool {
        servers_sorted(arc_views(self.servers@))
    }

    /// Select global over active skill definitions.
    ///
    /// Closed selections use the policy's already-resolved eligible IDs. A
    /// genuine `All`/`Auto` remains open only within this frozen definition
    /// catalog. Authentication failures or missing tool catalogs never make a
    /// lower-authority candidate eligible. Rejects out-of-policy skill
    /// activation and conflicting declarations at the highest eligible
    /// authority; equal declarations keep the first origin in source order.
    pub fn resolve(catalog: &McpCatalog, policy: &EffectiveRunPolicy, scope: &McpProjectionScope) -> (r: Result<McpServerProjection, McpProjectionError>)
        ensures
            match r {
                Ok(p) => skills_allowed(policy.skills.view(), views(scope.active_skills@))
                    && servers_sorted(p.view().servers)
                    && p.view().eligible_tools == policy.tools.view()
                    && (forall|name: Seq<char>| #[trigger] def_named(p.view().servers, name) == chosen(
                        catalog.view(),
                        policy.mcp_servers.view(),
                        views(scope.active_skills@),
                        name,
                    ))
                    && (forall|name: Seq<char>| #[trigger] chosen(catalog.view(), policy.mcp_servers.view(), views(scope.active_skills@), name) is Some
                        ==> !ambiguous(contenders(catalog.view(), views(scope.active_skills@), name))),
                Err(McpProjectionError::SkillOutsidePolicy { skill_id }) => exists|k: int|
                    0 <= k < scope.active_skills@.len() && #[trigger] views(scope.active_skills@)[k] == skill_id@
                    && !selects(policy.skills.view(), skill_id@)
                    && forall|m: int| 0 <= m < k ==> selects(policy.skills.view(), #[trigger] views(scope.active_skills@)[m]),
                Err(McpProjectionError::AmbiguousServer { server }) => skills_allowed(policy.skills.view(), views(scope.active_skills@))
                    && chosen(catalog.view(), policy.mcp_servers.view(), views(scope.active_skills@), server@) is Some
                    && ambiguous(contenders(catalog.view(), views(scope.active_skills@), server@))
                    && forall|n: Seq<char>| chars_lt(n, server@) && #[trigger] chosen(catalog.view(), policy.mcp_servers.view(), views(scope.active_skills@), n) is Some
                        ==> !ambiguous(contenders(catalog.view(), views(scope.active_skills@), n)),
                Err(_) => false,
            },
    {
        let ghost skills = views(scope.active_skills@);
        let ghost cat = catalog.view();
        let ghost sel = policy.mcp_servers.view();
        let mut k: usize = 0;
        while k < scope.active_skills.len()
            invariant
                skills == views(scope.active_skills@),
                k <= skills.len(),
                forall|m: int| 0 <= m < k ==> selects(policy.skills.view(), #[trigger] skills[m]),
            decreases scope.active_skills.len() - k,
        {
            if !eligible(&policy.skills, scope.active_skills[k].as_str()) {
                assert(skills[k as int] == scope.active_skills@[k as int]@);
                return Err(McpProjectionError::SkillOutsidePolicy { skill_id: scope.active_skills[k].clone() });
            }
            k = k + 1;
        }
        let names = catalog.server_names();
        let ghost nv = views(names@);
        let mut servers: Vec<Arc<ServerDefinition>> = Vec::new();
        let mut i: usize = 0;
        while i < names.len()
            invariant
                skills == views(scope.active_skills@),
                cat == catalog.view(),
                sel == policy.mcp_servers.view(),
                nv == views(names@),
                names_sorted(nv),
                forall|x: Seq<char>| nv.contains(x) <==> exists|j: int| 0 <= j < cat.len() && #[trigger] cat[j].name == x,
                i <= nv.len(),
                skills_allowed(policy.skills.view(), skills),
                resolved_upto(arc_views(servers@), nv, i as int, cat, sel, skills),
            decreases names.len() - i,
        {
            let name = names[i].as_str();
            assert(name@ == nv[i as int]);
            let ghost sv = arc_views(servers@);
            if !eligible(&policy.mcp_servers, name) {
                proof {
                    lemma_resolved_skip(sv, nv, i as int, cat, sel, skills);
                }
                i = i + 1;
                continue;
            }
            let candidates = catalog.candidates(name);
            let active = filter_active(&candidates, &scope.active_skills);
            if active.len() == 0 {
                proof {
                    lemma_highest_nonempty(arc_views(active@));
                    lemma_resolved_skip(sv, nv, i as int, cat, sel, skills);
                }
                i = i + 1;
                continue;
            }
            let top = if any_global(&active) { ServerAuthority::Global } else { ServerAuthority::Skill };
            let highest_candidates = filter_authority(&active, top);
            proof {
                lemma_highest_nonempty(arc_views(active@));
            }
            assert(arc_views(highest_candidates@) == contenders(cat, skills, name@));
            if is_ambiguous(&highest_candidates) {
                let server = owned(name);
                proof {
                    lemma_ambiguity_first(sv, nv, i as int, cat, sel, skills);
                }
                return Err(McpProjectionError::AmbiguousServer { server });
            }
            let winner = share(&highest_candidates[0]);
            assert(winner.view() == arc_views(highest_candidates@)[0]);
            proof {
                lemma_contenders_named(cat, skills, name@);
                assert(contenders(cat, skills, name@).contains(winner.view()));
            }
            servers.push(winner);
            proof {
                assert(arc_views(servers@) =~= sv.push(winner.view()));
                lemma_resolved_push(sv, nv, i as int, cat, sel, skills, winner.view());
            }
            i = i + 1;
        }
        proof {
            lemma_resolved_complete(arc_views(servers@), nv, cat, sel, skills);
        }
        Ok(McpServerProjection { servers, eligible_tools: policy.tools.duplicate() })
    }

    /// The host must bind these declarations without selecting them again.
    pub fn servers(&self) -> (r: &Vec<Arc<ServerDefinition>>)
        ensures
            arc_views(r@) == self.view().servers,
            servers_sorted(self.view().servers),
    {
        proof {
            use_type_invariant(self);
        }
        &self.servers
    }
}

proof fn lemma_resolved_skip(sv: Seq<DefinitionView>, nv: Seq<Seq<char>>, i: int, cat: Seq<DefinitionView>, sel: SelectionView, skills: Seq<Seq<char>>)
    requires
        0 <= i < nv.len(),
        names_sorted(nv),
        resolved_upto(sv, nv, i, cat, sel, skills),
        chosen(cat, sel, skills, nv[i]) is None,
    ensures
        resolved_upto(sv, nv, i + 1, cat, sel, skills),
{
    lemma_def_named(sv, nv[i]);
    if def_named(sv, nv[i]) is Some {
        let d = def_named(sv, nv[i])->0;
        let k = choose|k: int| 0 <= k < sv.len() && sv[k] == d;
        assert(name_among(nv, i, sv[k].name));
        let m = choose|m: int| 0 <= m < i && #[trigger] nv[m] == sv[k].name;
        crate::text::lemma_chars_lt_irreflexive(nv[i]);
        assert(chars_lt(nv[m], nv[i]));
    }
}

proof fn lemma_resolved_push(
    sv: Seq<DefinitionView>,
    nv: Seq<Seq<char>>,
    i: int,
    cat: Seq<DefinitionView>,
    sel: SelectionView,
    skills: Seq<Seq<char>>,
    w: DefinitionView,
)
    requires
        0 <= i < nv.len(),
        names_sorted(nv),
        resolved_upto(sv, nv, i, cat, sel, skills),
        chosen(cat, sel, skills, nv[i]) == Some(w),
        !ambiguous(contenders(cat, skills, nv[i])),
        w.name == nv[i],
    ensures
        resolved_upto(sv.push(w), nv, i + 1, cat, sel, skills),
{
    let s2 = sv.push(w);
    assert forall|a: int, b: int| 0 <= a < b < s2.len() implies chars_lt(#[trigger] s2[a].name, #[trigger] s2[b].name) by {
        if b == sv.len() {
            assert(s2[a] == sv[a]);
            assert(name_among(nv, i, sv[a].name));
            let m = choose|m: int| 0 <= m < i && #[trigger] nv[m] == sv[a].name;
        } else {
            assert(s2[a] == sv[a] && s2[b] == sv[b]);
        }
    }
    assert forall|k: int| 0 <= k < s2.len() implies name_among(nv, i + 1, #[trigger] s2[k].name) by {
        if k == sv.len() {
            assert(nv[i] == s2[k].name);
        } else {
            assert(s2[k] == sv[k]);
            assert(name_among(nv, i, sv[k].name));
            let m = choose|m: int| 0 <= m < i && #[trigger] nv[m] == sv[k].name;
        }
    }
    assert forall|m: int| 0 <= m < i + 1 implies def_named(s2, #[trigger] nv[m]) == chosen(cat, sel, skills, nv[m]) by {
        lemma_def_named_push(sv, w, nv[m]);
        if m < i {
            assert(chars_lt(nv[m], nv[i]));
            crate::text::lemma_chars_lt_irreflexive(nv[m]);
        }
    }
}

proof fn lemma_ambiguity_first(sv: Seq<DefinitionView>, nv: Seq<Seq<char>>, i: int, cat: Seq<DefinitionView>, sel: SelectionView, skills: Seq<Seq<char>>)
    requires
        0 <= i < nv.len(),
        names_sorted(nv),
        forall|x: Seq<char>| nv.contains(x) <==> exists|j: int| 0 <= j < cat.len() && #[trigger] cat[j].name == x,
        resolved_upto(sv, nv, i, cat, sel, skills),
    ensures
        forall|n: Seq<char>| chars_lt(n, nv[i]) && #[trigger] chosen(cat, sel, skills, n) is Some ==> !ambiguous(contenders(cat, skills, n)),
{
    assert forall|n: Seq<char>| chars_lt(n, nv[i]) && #[trigger] chosen(cat, sel, skills, n) is Some implies !ambiguous(contenders(cat, skills, n)) by {
        lemma_contenders_declared(cat, skills, n);
        assert(nv.contains(n));
        let m = choose|m: int| 0 <= m < nv.len() && nv[m] == n;
        if m >= i {
            crate::text::lemma_chars_lt_irreflexive(n);
            if m > i {
                assert(chars_lt(nv[i], nv[m]));
                crate::text::lemma_chars_lt_transitive(n, nv[i], n);
            }
        }
        assert(chosen(cat, sel, skills, nv[m]) is Some);
    }
}

proof fn lemma_resolved_complete(sv: Seq<DefinitionView>, nv: Seq<Seq<char>>, cat: Seq<DefinitionView>, sel: SelectionView, skills: Seq<Seq<char>>)
    requires
        forall|x: Seq<char>| nv.contains(x) <==> exists|j: int| 0 <= j < cat.len() && #[trigger] cat[j].name == x,
        resolved_upto(sv, nv, nv.len() as int, cat, sel, skills),
    ensures
        forall|name: Seq<char>| #[trigger] def_named(sv, name) == chosen(cat, sel, skills, name),
        forall|name: Seq<char>| #[trigger] chosen(cat, sel, skills, name) is Some ==> !ambiguous(contenders(cat, skills, name)),
{
    assert forall|name: Seq<char>| #[trigger] def_named(sv, name) == chosen(cat, sel, skills, name) by {
        if nv.contains(name) {
            let m = choose|m: int| 0 <= m < nv.len() && nv[m] == name;
            assert(def_named(sv, nv[m]) == chosen(cat, sel, skills, nv[m]));
        } else {
            lemma_def_named(sv, name);
            if def_named(sv, name) is Some {
                let d = def_named(sv, name)->0;
                let k = choose|k: int| 0 <= k < sv.len() && sv[k] == d;
                assert(name_among(nv, nv.len() as int, sv[k].name));
                let m = choose|m: int| 0 <= m < nv.len() && #[trigger] nv[m] == sv[k].name;
                assert(nv.contains(name));
            }
            if contenders(cat, skills, name).len() > 0 {
                lemma_contenders_declared(cat, skills, name);
            }
        }
    }
    assert forall|name: Seq<char>| #[trigger] chosen(cat, sel, skills, name) is Some implies !ambiguous(contenders(cat, skills, name)) by {
        lemma_contenders_declared(cat, skills, name);
        assert(nv.contains(name));
        let m = choose|m: int| 0 <= m < nv.len() && nv[m] == name;
        assert(chosen(cat, sel, skills, nv[m]) is Some);
    }
}


/// The selected declaration for a name is an active catalog declaration of
/// that name, and no active declaration of the name has higher authority:
/// a skill never displaces the operator's global configuration, and an
/// inactive skill never contributes.
pub proof fn law_selection_respects_authority(cat: Seq<DefinitionView>, sel: SelectionView, skills: Seq<Seq<char>>, name: Seq<char>)
    ensures
        chosen(cat, sel, skills, name) matches Some(d) ==> {
            &&& d.name == name
            &&& cat.contains(d)
            &&& candidate_active(d, skills)
            &&& forall|k: int| 0 <= k < cat.len() && #[trigger] cat[k].name == name && candidate_active(cat[k], skills)
                ==> authority_rank(source_authority(cat[k].source)) <= authority_rank(source_authority(d.source))
        },
{
    if let Some(d) = chosen(cat, sel, skills, name) {
        let w = with_name(cat, name);
        let a = active_candidates(w, skills);
        lemma_contenders_named(cat, skills, name);
        assert(contenders(cat, skills, name).contains(d));
        lemma_of_authority(a, top_authority(a));
        assert forall|k: int| 0 <= k < cat.len() && #[trigger] cat[k].name == name && candidate_active(cat[k], skills)
            implies authority_rank(source_authority(cat[k].source)) <= authority_rank(source_authority(d.source)) by {
            if cat[k].source == SourceView::Global {
                broadcast use vstd::seq_lib::group_filter_ensures;
                assert(w.contains(cat[k]));
                let j = choose|j: int| 0 <= j < w.len() && w[j] == cat[k];
                assert(a.contains(cat[k]));
                let j2 = choose|j2: int| 0 <= j2 < a.len() && a[j2] == cat[k];
                assert(a[j2].source == SourceView::Global);
                assert(has_global(a));
            }
        }
    }
}

/// A name declared by the global configuration is served by that global
/// declaration whenever the policy allows the server.
pub proof fn law_global_declaration_wins(cat: Seq<DefinitionView>, sel: SelectionView, skills: Seq<Seq<char>>, name: Seq<char>, k: int)
    requires
        0 <= k < cat.len(),
        cat[k].name == name,
        cat[k].source == SourceView::Global,
        selects(sel, name),
    ensures
        chosen(cat, sel, skills, name) matches Some(d) && d.source == SourceView::Global,
{
    broadcast use vstd::seq_lib::group_filter_ensures;
    let w = with_name(cat, name);
    let a = active_candidates(w, skills);
    assert(w.contains(cat[k]));
    let j = choose|j: int| 0 <= j < w.len() && w[j] == cat[k];
    assert(a.contains(cat[k]));
    lemma_highest_nonempty(a);
    law_selection_respects_authority(cat, sel, skills, name);
    let d = chosen(cat, sel, skills, name)->0;
    assert(authority_rank(source_authority(cat[k].source)) <= authority_rank(source_authority(d.source)));
}


/// The catalog is for a selected server and the same source.
pub open spec fn relevant(servers: Seq<DefinitionView>, c: CatalogView) -> bool {
    def_named(servers, c.definition.name) matches Some(d) && d.source == c.definition.source
}

/// A relevant catalog with the selected settings and complete discovery.
pub open spec fn usable(servers: Seq<DefinitionView>, c: CatalogView) -> bool {
    relevant(servers, c) && same_settings(def_named(servers, c.definition.name)->0, c.definition) && c.complete
}

/// What is wrong with the catalog at `i`, given those before it.
pub open spec fn catalog_issue(servers: Seq<DefinitionView>, cs: Seq<CatalogView>, i: int) -> Option<ProjectionErrorView> {
    let c = cs[i];
    let n = c.definition.name;
    if !relevant(servers, c) {
        None
    } else if !same_settings(def_named(servers, n)->0, c.definition) {
        Some(ProjectionErrorView::DefinitionChanged(n))
    } else if !c.complete {
        Some(ProjectionErrorView::IncompleteCatalog(n))
    } else if exists|m: int| 0 <= m < i && usable(servers, #[trigger] cs[m]) && cs[m].definition.name == n && cs[m].tools != c.tools {
        Some(ProjectionErrorView::ConflictingCatalog(n))
    } else {
        None
    }
}

/// The first usable catalog for a server name, from position `m`.
pub open spec fn selected_from(servers: Seq<DefinitionView>, cs: Seq<CatalogView>, name: Seq<char>, m: int) -> Option<CatalogView>
    decreases cs.len() - m,
{
    if m < 0 || m >= cs.len() {
        None
    } else if usable(servers, cs[m]) && cs[m].definition.name == name {
        Some(cs[m])
    } else {
        selected_from(servers, cs, name, m + 1)
    }
}

/// A tool that may enter the step: not hidden, and eligible by provider
/// name or by identity.
pub open spec fn admitted(sel: SelectionView, t: ToolView) -> bool {
    t.exposure != Exposure::Hidden && (selects(sel, t.provider_name) || selects(sel, t.id))
}

/// Some gathered tool already has this provider name.
pub open spec fn collides(acc: Seq<ToolView>, t: ToolView) -> bool {
    exists|j: int| 0 <= j < acc.len() && #[trigger] acc[j].provider_name == t.provider_name
}

/// Gather a catalog's admitted tools from position `t` onward.
pub open spec fn gather_tools(ts: Seq<ToolView>, sel: SelectionView, t: int, acc: Seq<ToolView>) -> Result<Seq<ToolView>, ProjectionErrorView>
    decreases ts.len() - t,
{
    if t < 0 || t >= ts.len() {
        Ok(acc)
    } else if !admitted(sel, ts[t]) {
        gather_tools(ts, sel, t + 1, acc)
    } else if collides(acc, ts[t]) {
        Err(ProjectionErrorView::ToolCollision(ts[t].provider_name))
    } else {
        gather_tools(ts, sel, t + 1, acc.push(ts[t]))
    }
}

/// Gather the tools of the selected servers from position `k`, in server
/// order, failing at the first server without a catalog or the first
/// provider-name collision.
pub open spec fn gather_servers(servers: Seq<DefinitionView>, cs: Seq<CatalogView>, sel: SelectionView, k: int, acc: Seq<ToolView>) -> Result<Seq<ToolView>, ProjectionErrorView>
    decreases servers.len() - k,
{
    if k < 0 || k >= servers.len() {
        Ok(acc)
    } else {
        match selected_from(servers, cs, servers[k].name, 0) {
            None => Err(ProjectionErrorView::MissingCatalog(servers[k].name)),
            Some(c) => match gather_tools(c.tools, sel, 0, acc) {
                Err(e) => Err(e),
                Ok(acc2) => gather_servers(servers, cs, sel, k + 1, acc2),
            },
        }
    }
}

pub open spec fn catalog_views(v: Seq<ServerToolCatalog>) -> Seq<CatalogView> {
    v.map_values(|c: ServerToolCatalog| c.view())
}

/// Every tool belongs to a selected server.
pub open spec fn tools_owned(servers: Seq<DefinitionView>, tools: Seq<ToolView>) -> bool {
    forall|k: int| 0 <= k < tools.len() ==> tool_owned(servers, #[trigger] tools[k])
}

/// The tool names a selected server.
pub open spec fn tool_owned(servers: Seq<DefinitionView>, t: ToolView) -> bool {
    match t.server {
        Some(n) => def_named(servers, n) is Some,
        None => false,
    }
}

/// A selected server that is not required.
pub open spec fn optional_server(servers: Seq<DefinitionView>, name: Seq<char>) -> bool {
    match def_named(servers, name) {
        Some(d) => !d.required,
        None => false,
    }
}

proof fn lemma_filter_sorted(s: Seq<DefinitionView>, pred: spec_fn(DefinitionView) -> bool)
    requires
        servers_sorted(s),
    ensures
        servers_sorted(s.filter(pred)),
    decreases s.len(),
{
    reveal(Seq::filter);
    if s.len() > 0 {
        let p = s.drop_last();
        assert(servers_sorted(p));
        lemma_filter_sorted(p, pred);
        if pred(s.last()) {
            let f = p.filter(pred);
            let f2 = f.push(s.last());
            assert forall|a: int, b: int| 0 <= a < b < f2.len() implies chars_lt(#[trigger] f2[a].name, #[trigger] f2[b].name) by {
                if b == f.len() {
                    assert(f2[a] == f[a]);
                    assert(f.contains(f[a]));
                    p.lemma_filter_contains_rev(pred, f[a]);
                    let j = choose|j: int| 0 <= j < p.len() && p[j] == f[a];
                    assert(s[j] == p[j]);
                } else {
                    assert(f2[a] == f[a] && f2[b] == f[b]);
                }
            }
        }
    }
}

impl McpServerProjection {
    fn server_named(&self, name: &str) -> (r: Option<&Arc<ServerDefinition>>)
        ensures
            match r {
                Some(d) => def_named(self.view().servers, name@) == Some(d.view()),
                None => def_named(self.view().servers, name@) is None,
            },
    {
        proof {
            use_type_invariant(self);
            lemma_def_named(self.view().servers, name@);
        }
        let ghost sv = self.view().servers;
        let mut i: usize = 0;
        while i < self.servers.len()
            invariant
                sv == arc_views(self.servers@),
                servers_sorted(sv),
                i <= sv.len(),
                forall|k: int| 0 <= k < i ==> #[trigger] sv[k].name != name@,
                forall|k: int| 0 <= k < sv.len() && #[trigger] sv[k].name == name@ ==> def_named(sv, name@) == Some(sv[k]),
                def_named(sv, name@) matches Some(d) ==> d.name == name@ && sv.contains(d),
            decreases self.servers.len() - i,
        {
            assert(sv[i as int] == self.servers@[i as int].view());
            if str_eq(self.servers[i].name(), name) {
                assert(def_named(sv, name@) == Some(sv[i as int]));
                return Some(&self.servers[i]);
            }
            i = i + 1;
        }
        proof {
            if def_named(sv, name@) is Some {
                let d = def_named(sv, name@)->0;
                let k = choose|k: int| 0 <= k < sv.len() && sv[k] == d;
                assert(sv[k].name == name@);
            }
        }
        None
    }

    /// Drop failed optional servers, rejecting any omission of a required or
    /// unselected server (the first such name, in the order given).
    pub fn without_unavailable_optional_servers(&self, omitted: &Vec<String>) -> (r: Result<McpServerProjection, McpProjectionError>)
        ensures
            match r {
                Ok(p) => (forall|k: int| 0 <= k < omitted@.len() ==> optional_server(self.view().servers, #[trigger] views(omitted@)[k]))
                    && p.view().servers == self.view().servers.filter(|d: DefinitionView| !views(omitted@).contains(d.name))
                    && p.view().eligible_tools == self.view().eligible_tools,
                Err(McpProjectionError::InvalidOptionalOmission { server }) => exists|k: int| 0 <= k < omitted@.len()
                    && #[trigger] views(omitted@)[k] == server@
                    && !optional_server(self.view().servers, server@)
                    && forall|m: int| 0 <= m < k ==> optional_server(self.view().servers, #[trigger] views(omitted@)[m]),
                Err(_) => false,
            },
    {
        proof {
            use_type_invariant(self);
        }
        let ghost ov = views(omitted@);
        let mut k: usize = 0;
        while k < omitted.len()
            invariant
                ov == views(omitted@),
                k <= ov.len(),
                forall|m: int| 0 <= m < k ==> optional_server(self.view().servers, #[trigger] ov[m]),
            decreases omitted.len() - k,
        {
            assert(ov[k as int] == omitted@[k as int]@);
            let ok = match self.server_named(omitted[k].as_str()) {
                Some(d) => !d.is_required(),
                None => false,
            };
            if !ok {
                return Err(McpProjectionError::InvalidOptionalOmission { server: omitted[k].clone() });
            }
            k = k + 1;
        }
        let ghost sv = self.view().servers;
        let ghost pred = |d: DefinitionView| !ov.contains(d.name);
        let mut kept: Vec<Arc<ServerDefinition>> = Vec::new();
        let mut i: usize = 0;
        while i < self.servers.len()
            invariant
                sv == arc_views(self.servers@),
                ov == views(omitted@),
                pred == (|d: DefinitionView| !ov.contains(d.name)),
                i <= sv.len(),
                arc_views(kept@) == sv.subrange(0, i as int).filter(pred),
            decreases self.servers.len() - i,
        {
            let ghost pre = sv.subrange(0, i + 1);
            assert(pre.drop_last() =~= sv.subrange(0, i as int));
            assert(pre.last() == self.servers@[i as int].view());
            proof {
                reveal(Seq::filter);
            }
            let listed = contains_str(omitted, self.servers[i].name());
            if !listed {
                let ghost before = kept@;
                kept.push(share(&self.servers[i]));
                assert(arc_views(kept@) =~= arc_views(before).push(pre.last()));
            }
            i = i + 1;
        }
        assert(sv.subrange(0, sv.len() as int) =~= sv);
        proof {
            lemma_filter_sorted(sv, pred);
        }
        Ok(McpServerProjection { servers: kept, eligible_tools: self.eligible_tools.duplicate() })
    }
}


/// The first catalog issue from position `i` onward.
pub open spec fn first_issue(servers: Seq<DefinitionView>, cs: Seq<CatalogView>, i: int) -> Option<ProjectionErrorView>
    decreases cs.len() - i,
{
    if i < 0 || i >= cs.len() {
        None
    } else if catalog_issue(servers, cs, i) is Some {
        catalog_issue(servers, cs, i)
    } else {
        first_issue(servers, cs, i + 1)
    }
}

/// The tools a step admits from these catalogs, in gathering order, or the
/// first error: catalog issues first, then missing catalogs and collisions.
pub open spec fn step_tools(servers: Seq<DefinitionView>, cs: Seq<CatalogView>, sel: SelectionView) -> Result<Seq<ToolView>, ProjectionErrorView> {
    match first_issue(servers, cs, 0) {
        Some(e) => Err(e),
        None => gather_servers(servers, cs, sel, 0, Seq::empty()),
    }
}

/// One descriptor and its selected server; no identity is parsed from a name.
pub struct ProjectedMcpTool {
    server: Arc<ServerDefinition>,
    descriptor: Arc<ToolDescriptor>,
}

pub struct ProjectedView {
    pub server: DefinitionView,
    pub descriptor: ToolView,
}

impl ProjectedMcpTool {
    pub closed spec fn view(&self) -> ProjectedView {
        ProjectedView { server: self.server.view(), descriptor: self.descriptor.view() }
    }

    /// Exact declaration the host must bind for this tool call.
    pub fn server(&self) -> (r: &Arc<ServerDefinition>)
        ensures
            r.view() == self.view().server,
    {
        &self.server
    }

    /// Unmodified governance, schema, scheduling and exposure metadata.
    pub fn descriptor(&self) -> (r: &Arc<ToolDescriptor>)
        ensures
            r.view() == self.view().descriptor,
    {
        &self.descriptor
    }
}

pub open spec fn projected_views(v: Seq<ProjectedMcpTool>) -> Seq<ProjectedView> {
    v.map_values(|p: ProjectedMcpTool| p.view())
}

pub open spec fn projected_descriptors(v: Seq<ProjectedView>) -> Seq<ToolView> {
    v.map_values(|p: ProjectedView| p.descriptor)
}

/// The tool is paired with the selected declaration of the server it names.
pub open spec fn tool_paired(servers: Seq<DefinitionView>, p: ProjectedView) -> bool {
    p.descriptor.server matches Some(n) && def_named(servers, n) == Some(p.server)
}

/// Immutable exact server/tool selection, ready for the host's binding stage.
///
/// Deferred descriptors remain eligible but are not initially advertised;
/// hidden and policy-omitted tools cannot enter this projection.
pub struct McpStepProjection {
    servers: Vec<Arc<ServerDefinition>>,
    tools: Vec<ProjectedMcpTool>,
}

pub struct StepView {
    pub servers: Seq<DefinitionView>,
    pub tools: Seq<ProjectedView>,
}

impl McpStepProjection {
    pub closed spec fn view(&self) -> StepView {
        StepView { servers: arc_views(self.servers@), tools: projected_views(self.tools@) }
    }

    #[verifier::type_invariant]
    spec fn well_formed(&self) -> bool {
        &&& servers_sorted(arc_views(self.servers@))
        &&& tools_sorted(projected_descriptors(projected_views(self.tools@)))
        &&& forall|k: int| 0 <= k < self.tools@.len() ==> tool_paired(arc_views(self.servers@), #[trigger] projected_views(self.tools@)[k])
    }

    /// The same source-qualified server choices used to obtain tool catalogs.
    pub fn servers(&self) -> (r: &Vec<Arc<ServerDefinition>>)
        ensures
            arc_views(r@) == self.view().servers,
            servers_sorted(self.view().servers),
    {
        proof {
            use_type_invariant(self);
        }
        &self.servers
    }

    /// Eligible exact tools in provider-name order, including deferred but
    /// not hidden descriptors.
    pub fn tools(&self) -> (r: &Vec<ProjectedMcpTool>)
        ensures
            projected_views(r@) == self.view().tools,
            tools_sorted(projected_descriptors(self.view().tools)),
            forall|k: int| 0 <= k < self.view().tools.len() ==> tool_paired(self.view().servers, #[trigger] self.view().tools[k]),
    {
        proof {
            use_type_invariant(self);
        }
        &self.tools
    }
}

/// The tools advertised to the model from the start: eager and model-only
/// descriptors in provider-name order, at most the eager limit of them.
pub open spec fn model_listed(tools: Seq<ProjectedView>) -> Seq<ProjectedView> {
    let m = tools.filter(|p: ProjectedView| model_exposed(p.descriptor.exposure));
    m.take(if m.len() <= MCP_EAGER_TOOL_LIMIT { m.len() as int } else { MCP_EAGER_TOOL_LIMIT as int })
}

impl McpStepProjection {
    /// Initially model-visible descriptors, bounded to the eager limit.
    pub fn model_tools(&self) -> (r: Vec<ProjectedMcpTool>)
        ensures
            projected_views(r@) == model_listed(self.view().tools),
    {
        let ghost tv = projected_views(self.tools@);
        let ghost pred = |p: ProjectedView| model_exposed(p.descriptor.exposure);
        let mut out: Vec<ProjectedMcpTool> = Vec::new();
        let mut i: usize = 0;
        while i < self.tools.len()
            invariant
                tv == projected_views(self.tools@),
                pred == (|p: ProjectedView| model_exposed(p.descriptor.exposure)),
                i <= tv.len(),
                ({
                    let f = tv.subrange(0, i as int).filter(pred);
                    projected_views(out@) == f.take(
                        if f.len() <= MCP_EAGER_TOOL_LIMIT { f.len() as int } else { MCP_EAGER_TOOL_LIMIT as int },
                    )
                }),
            decreases self.tools.len() - i,
        {
            let t = &self.tools[i];
            let ghost pre = tv.subrange(0, i + 1);
            let ghost f0 = tv.subrange(0, i as int).filter(pred);
            assert(pre.drop_last() =~= tv.subrange(0, i as int));
            assert(pre.last() == t.view());
            proof {
                reveal(Seq::filter);
            }
            if (t.descriptor.exposure == Exposure::Eager || t.descriptor.exposure == Exposure::ModelOnly) {
                assert(pre.filter(pred) == f0.push(t.view()));
                if out.len() < MCP_EAGER_TOOL_LIMIT {
                    let ghost before = out@;
                    assert(f0.take(f0.len() as int) =~= f0);
                    out.push(ProjectedMcpTool { server: share(&t.server), descriptor: share(&t.descriptor) });
                    assert(projected_views(out@) =~= projected_views(before).push(t.view()));
                    assert(f0.push(t.view()).take((f0.len() + 1) as int) =~= f0.push(t.view()));
                } else {
                    assert(projected_views(out@).len() == out@.len());
                    assert(f0.len() >= MCP_EAGER_TOOL_LIMIT);
                    assert(f0.push(t.view()).take(MCP_EAGER_TOOL_LIMIT as int) =~= f0.take(MCP_EAGER_TOOL_LIMIT as int));
                }
            } else {
                assert(pre.filter(pred) == f0);
            }
            i = i + 1;
        }
        assert(tv.subrange(0, tv.len() as int) =~= tv);
        out
    }

    /// Apply this stream's discovery selections to the step's eligible
    /// descriptors without altering them or their server association.
    pub fn exposure(&self, state: &mut McpToolExposure) -> (r: McpExposureSnapshot)
        ensures
            ({
                let auth = projected_descriptors(self.view().tools);
                &&& final(state).view().selected == kept_selection(auth, old(state).view().selected)
                &&& final(state).view().deferred == deferred_part(auth, chosen_names(auth, old(state).view().selected))
                &&& r.view().visible == visible_part(auth, chosen_names(auth, old(state).view().selected))
                &&& r.view().deferred == names_of(deferred_part(auth, chosen_names(auth, old(state).view().selected)))
            }),
            (final(state).view(), r.view()) == step_exposure(self.view().tools, old(state).view()),
    {
        proof {
            use_type_invariant(self);
        }
        let ghost auth = projected_descriptors(projected_views(self.tools@));
        let mut descriptors: Vec<Arc<ToolDescriptor>> = Vec::new();
        let mut i: usize = 0;
        while i < self.tools.len()
            invariant
                auth == projected_descriptors(projected_views(self.tools@)),
                i <= self.tools@.len(),
                tool_views(descriptors@) == auth.subrange(0, i as int),
            decreases self.tools.len() - i,
        {
            let ghost before = descriptors@;
            assert(auth[i as int] == self.tools@[i as int].view().descriptor);
            descriptors.push(share(&self.tools[i].descriptor));
            assert(tool_views(descriptors@) =~= tool_views(before).push(auth[i as int]));
            assert(tool_views(descriptors@) =~= auth.subrange(0, i + 1));
            i = i + 1;
        }
        assert(auth.subrange(0, auth.len() as int) =~= auth);
        let authorized = ToolMap::from_sorted(descriptors);
        state.project(&authorized)
    }
}

/// Every gathered tool names a selected server.
pub open spec fn all_owned(servers: Seq<DefinitionView>, acc: Seq<ToolView>) -> bool {
    forall|t: ToolView| acc.contains(t) ==> tool_owned(servers, t)
}

/// With the same elements, a name is taken in the sorted index exactly when
/// some gathered tool has it.
proof fn lemma_collides_index(index: Seq<ToolView>, acc: Seq<ToolView>, t: ToolView)
    requires
        index.to_set() == acc.to_set(),
    ensures
        collides(acc, t) == (tool_named(index, t.provider_name) is Some),
{
    crate::tools::lemma_tool_named(index, t.provider_name);
    if collides(acc, t) {
        let j = choose|j: int| 0 <= j < acc.len() && #[trigger] acc[j].provider_name == t.provider_name;
        assert(acc.to_set().contains(acc[j]));
        assert(index.to_set().contains(acc[j]));
        let k = choose|k: int| 0 <= k < index.len() && index[k] == acc[j];
        assert(index[k].provider_name == t.provider_name);
    }
    if let Some(x) = tool_named(index, t.provider_name) {
        assert(index.to_set().contains(x));
        assert(acc.to_set().contains(x));
        let j = choose|j: int| 0 <= j < acc.len() && acc[j] == x;
        assert(acc[j].provider_name == t.provider_name);
    }
}

impl McpServerProjection {
    /// Whether a catalog is relevant, unchanged and complete for this selection.
    fn is_usable(&self, c: &ServerToolCatalog) -> (r: bool)
        ensures
            r == usable(self.view().servers, c.view()),
    {
        match self.server_named(c.definition().name()) {
            Some(d) => d.source().same_as(c.definition().source()) && same_settings_exec(d, c.definition()) && c.is_complete(),
            None => false,
        }
    }

    /// What is wrong with the catalog at `i`, given those before it.
    fn catalog_problem(&self, catalogs: &Vec<ServerToolCatalog>, i: usize) -> (r: Option<McpProjectionError>)
        requires
            i < catalogs@.len(),
        ensures
            match r {
                Some(e) => catalog_issue(self.view().servers, catalog_views(catalogs@), i as int) == Some(e.view()),
                None => catalog_issue(self.view().servers, catalog_views(catalogs@), i as int) is None,
            },
    {
        let ghost sv = self.view().servers;
        let ghost cs = catalog_views(catalogs@);
        let c = &catalogs[i];
        assert(cs[i as int] == c.view());
        let name = c.definition().name();
        let d = match self.server_named(name) {
            Some(d) => d,
            None => return None,
        };
        if !d.source().same_as(c.definition().source()) {
            return None;
        }
        if !same_settings_exec(d, c.definition()) {
            return Some(McpProjectionError::DefinitionChanged { server: owned(name) });
        }
        if !c.is_complete() {
            return Some(McpProjectionError::IncompleteCatalog { server: owned(name) });
        }
        let mut m: usize = 0;
        while m < i
            invariant
                sv == self.view().servers,
                cs == catalog_views(catalogs@),
                i < cs.len(),
                m <= i,
                name@ == cs[i as int].definition.name,
                cs[i as int].complete,
                relevant(sv, cs[i as int]),
                same_settings(def_named(sv, name@)->0, cs[i as int].definition),
                forall|j: int| 0 <= j < m ==> !(usable(sv, #[trigger] cs[j]) && cs[j].definition.name == name@ && cs[j].tools != cs[i as int].tools),
            decreases i - m,
        {
            let other = &catalogs[m];
            assert(cs[m as int] == other.view());
            if self.is_usable(other) && str_eq(other.definition().name(), name) && !other.equivalent_tools(&catalogs[i]) {
                assert(usable(sv, cs[m as int]) && cs[m as int].definition.name == name@ && cs[m as int].tools != cs[i as int].tools);
                return Some(McpProjectionError::ConflictingCatalog { server: owned(name) });
            }
            m = m + 1;
        }
        None
    }

    /// The first usable catalog for a server name.
    fn first_usable(&self, catalogs: &Vec<ServerToolCatalog>, name: &str) -> (r: Option<usize>)
        ensures
            match r {
                Some(m) => m < catalogs@.len() && selected_from(self.view().servers, catalog_views(catalogs@), name@, 0)
                    == Some(catalog_views(catalogs@)[m as int]),
                None => selected_from(self.view().servers, catalog_views(catalogs@), name@, 0) is None,
            },
    {
        let ghost sv = self.view().servers;
        let ghost cs = catalog_views(catalogs@);
        let mut m: usize = 0;
        while m < catalogs.len()
            invariant
                sv == self.view().servers,
                cs == catalog_views(catalogs@),
                m <= cs.len(),
                selected_from(sv, cs, name@, 0) == selected_from(sv, cs, name@, m as int),
            decreases catalogs.len() - m,
        {
            assert(cs[m as int] == catalogs@[m as int].view());
            if self.is_usable(&catalogs[m]) && str_eq(catalogs[m].definition().name(), name) {
                return Some(m);
            }
            m = m + 1;
        }
        None
    }

    /// Freeze exact MCP tools after discovery, preserving the original policy.
    ///
    /// Rejects stale, missing, incomplete or conflicting selected catalogs and
    /// provider-name collisions. Catalogs from unselected servers or origins
    /// are ignored, never used as a fallback for the winning origin.
    pub fn with_tools(&self, catalogs: Vec<ServerToolCatalog>) -> (r: Result<McpStepProjection, McpProjectionError>)
        ensures
            match r {
                Ok(p) => step_tools(self.view().servers, catalog_views(catalogs@), self.view().eligible_tools) matches Ok(ts)
                    && p.view().servers == self.view().servers
                    && projected_descriptors(p.view().tools).to_set() == ts.to_set()
                    && tools_sorted(projected_descriptors(p.view().tools))
                    && forall|k: int| 0 <= k < p.view().tools.len() ==> tool_paired(self.view().servers, #[trigger] p.view().tools[k]),
                Err(e) => step_tools(self.view().servers, catalog_views(catalogs@), self.view().eligible_tools) == Err::<Seq<ToolView>, ProjectionErrorView>(e.view()),
            },
    {
        proof {
            use_type_invariant(self);
        }
        let ghost sv = self.view().servers;
        let ghost cs = catalog_views(catalogs@);
        let ghost sel = self.view().eligible_tools;
        let mut i: usize = 0;
        while i < catalogs.len()
            invariant
                sv == self.view().servers,
                cs == catalog_views(catalogs@),
                i <= cs.len(),
                first_issue(sv, cs, 0) == first_issue(sv, cs, i as int),
            decreases catalogs.len() - i,
        {
            match self.catalog_problem(&catalogs, i) {
                Some(e) => return Err(e),
                None => {},
            }
            i = i + 1;
        }
        let mut index = ToolMap::new();
        let ghost mut acc: Seq<ToolView> = Seq::empty();
        let mut k: usize = 0;
        while k < self.servers.len()
            invariant
                sv == self.view().servers,
                sv == arc_views(self.servers@),
                cs == catalog_views(catalogs@),
                sel == self.view().eligible_tools,
                sel == self.eligible_tools.view(),
                k <= sv.len(),
                step_tools(sv, cs, sel) == gather_servers(sv, cs, sel, k as int, acc),
                tools_sorted(index.view()),
                index.view().to_set() == acc.to_set(),
                all_owned(sv, acc),
            decreases self.servers.len() - k,
        {
            let name = self.servers[k].name();
            assert(sv[k as int] == self.servers@[k as int].view());
            let m = match self.first_usable(&catalogs, name) {
                Some(m) => m,
                None => return Err(McpProjectionError::MissingCatalog { server: owned(name) }),
            };
            let ghost c = cs[m as int];
            assert(c == catalogs@[m as int].view());
            proof {
                lemma_selected_from_index(sv, cs, name@, 0);
            }
            let tools_map = catalogs[m].tools();
            let entries = tools_map.entries();
            let ghost ts = c.tools;
            let mut t: usize = 0;
            while t < entries.len()
                invariant
                    sv == arc_views(self.servers@),
                    sv == self.view().servers,
                    cs == catalog_views(catalogs@),
                    sel == self.view().eligible_tools,
                    sel == self.eligible_tools.view(),
                    tool_views(entries@) == ts,
                    usable(sv, c),
                    forall|j: int| 0 <= j < ts.len() ==> tool_belongs(#[trigger] ts[j], c.definition.name),
                    t <= ts.len(),
                    step_tools(sv, cs, sel) == match gather_tools(ts, sel, t as int, acc) {
                        Err(e) => Err(e),
                        Ok(a2) => gather_servers(sv, cs, sel, k + 1, a2),
                    },
                    tools_sorted(index.view()),
                    index.view().to_set() == acc.to_set(),
                    all_owned(sv, acc),
                decreases entries.len() - t,
            {
                let d = &entries[t];
                assert(ts[t as int] == d.view());
                if d.exposure != Exposure::Hidden && (eligible(&self.eligible_tools, d.provider_name.as_str())
                    || eligible(&self.eligible_tools, d.id.as_str())) {
                    proof {
                        lemma_collides_index(index.view(), acc, d.view());
                    }
                    if index.get(d.provider_name.as_str()).is_some() {
                        return Err(McpProjectionError::ToolCollision(ToolCollision { provider_name: d.provider_name.clone() }));
                    }
                    let ghost before = index.view();
                    index.insert(share(d));
                    proof {
                        lemma_push_to_set(acc, d.view());
                        assert(tool_belongs(ts[t as int], c.definition.name));
                        assert(tool_owned(sv, d.view()));
                        assert forall|x: ToolView| acc.push(d.view()).contains(x) implies tool_owned(sv, x) by {
                            let j = choose|j: int| 0 <= j < acc.push(d.view()).len() && acc.push(d.view())[j] == x;
                            if j < acc.len() {
                                assert(acc[j] == x);
                            }
                        }
                        acc = acc.push(d.view());
                    }
                }
                t = t + 1;
            }
            k = k + 1;
        }
        let entries = index.entries();
        let ghost ev = index.view();
        let mut tools: Vec<ProjectedMcpTool> = Vec::new();
        let mut j: usize = 0;
        while j < entries.len()
            invariant
                sv == arc_views(self.servers@),
                tool_views(entries@) == ev,
                ev.to_set() == acc.to_set(),
                all_owned(sv, acc),
                j <= ev.len(),
                projected_descriptors(projected_views(tools@)) == ev.subrange(0, j as int),
                forall|q: int| 0 <= q < tools@.len() ==> tool_paired(sv, #[trigger] projected_views(tools@)[q]),
            decreases entries.len() - j,
        {
            let e = &entries[j];
            assert(ev[j as int] == e.view());
            proof {
                assert(ev.to_set().contains(ev[j as int]));
                assert(tool_owned(sv, e.view()));
            }
            match &e.server {
                Some(n) => {
                    match self.server_named(n.as_str()) {
                        Some(s) => {
                            let ghost before = tools@;
                            tools.push(ProjectedMcpTool { server: share(s), descriptor: share(e) });
                            assert(projected_views(tools@) =~= projected_views(before).push(ProjectedView { server: s.view(), descriptor: e.view() }));
                            assert(ev.subrange(0, j + 1) =~= ev.subrange(0, j as int).push(ev[j as int]));
                            assert(projected_descriptors(projected_views(tools@)) =~= ev.subrange(0, j + 1));
                        },
                        None => {
                            proof {
                                assert(false);
                            }
                        },
                    }
                },
                None => {
                    proof {
                        assert(false);
                    }
                },
            }
            j = j + 1;
        }
        assert(ev.subrange(0, ev.len() as int) =~= ev);
        Ok(McpStepProjection { servers: share_all(&self.servers), tools })
    }
}

/// Tools admitted by the policy and owned by a selected server.
pub open spec fn all_admitted(servers: Seq<DefinitionView>, sel: SelectionView, acc: Seq<ToolView>) -> bool {
    forall|x: ToolView| #[trigger] acc.contains(x) ==> admitted(sel, x) && tool_owned(servers, x)
}

/// Every catalog's descriptors belong to the catalog's server, as
/// `ServerToolCatalog` guarantees.
pub open spec fn catalogs_valid(cs: Seq<CatalogView>) -> bool {
    forall|i: int, k: int| 0 <= i < cs.len() && 0 <= k < cs[i].tools.len() ==> tool_belongs(#[trigger] cs[i].tools[k], cs[i].definition.name)
}

proof fn lemma_push_admitted(servers: Seq<DefinitionView>, sel: SelectionView, acc: Seq<ToolView>, t: ToolView)
    requires
        all_admitted(servers, sel, acc),
        admitted(sel, t),
        tool_owned(servers, t),
    ensures
        all_admitted(servers, sel, acc.push(t)),
{
    assert forall|x: ToolView| #[trigger] acc.push(t).contains(x) implies admitted(sel, x) && tool_owned(servers, x) by {
        let j = choose|j: int| 0 <= j < acc.push(t).len() && acc.push(t)[j] == x;
        if j < acc.len() {
            assert(acc[j] == x);
            assert(acc.contains(x));
        }
    }
}

proof fn lemma_gather_tools_admitted(servers: Seq<DefinitionView>, c: CatalogView, sel: SelectionView, t: int, acc: Seq<ToolView>)
    requires
        usable(servers, c),
        forall|k: int| 0 <= k < c.tools.len() ==> tool_belongs(#[trigger] c.tools[k], c.definition.name),
        all_admitted(servers, sel, acc),
    ensures
        gather_tools(c.tools, sel, t, acc) matches Ok(a) ==> all_admitted(servers, sel, a),
    decreases c.tools.len() - t,
{
    let ts = c.tools;
    if 0 <= t < ts.len() {
        if admitted(sel, ts[t]) && !collides(acc, ts[t]) {
            assert(tool_belongs(ts[t], c.definition.name));
            lemma_push_admitted(servers, sel, acc, ts[t]);
            lemma_gather_tools_admitted(servers, c, sel, t + 1, acc.push(ts[t]));
        } else if !admitted(sel, ts[t]) {
            lemma_gather_tools_admitted(servers, c, sel, t + 1, acc);
        }
    }
}

proof fn lemma_gather_servers_admitted(servers: Seq<DefinitionView>, cs: Seq<CatalogView>, sel: SelectionView, k: int, acc: Seq<ToolView>)
    requires
        catalogs_valid(cs),
        all_admitted(servers, sel, acc),
    ensures
        gather_servers(servers, cs, sel, k, acc) matches Ok(a) ==> all_admitted(servers, sel, a),
    decreases servers.len() - k,
{
    if 0 <= k < servers.len() {
        lemma_selected_from_index(servers, cs, servers[k].name, 0);
        if let Some(c) = selected_from(servers, cs, servers[k].name, 0) {
            let i = choose|i: int| 0 <= i < cs.len() && cs[i] == c;
            assert forall|q: int| 0 <= q < c.tools.len() implies tool_belongs(#[trigger] c.tools[q], c.definition.name) by {
                assert(tool_belongs(cs[i].tools[q], cs[i].definition.name));
            }
            lemma_gather_tools_admitted(servers, c, sel, 0, acc);
            if let Ok(a2) = gather_tools(c.tools, sel, 0, acc) {
                lemma_gather_servers_admitted(servers, cs, sel, k + 1, a2);
            }
        }
    }
}

/// What `selected_from` finds is one of the catalogs, usable and named.
proof fn lemma_selected_from_index(servers: Seq<DefinitionView>, cs: Seq<CatalogView>, name: Seq<char>, m: int)
    ensures
        selected_from(servers, cs, name, m) matches Some(c) ==> usable(servers, c) && c.definition.name == name
            && exists|i: int| 0 <= i < cs.len() && cs[i] == c,
    decreases cs.len() - m,
{
    if 0 <= m < cs.len() {
        lemma_selected_from_index(servers, cs, name, m + 1);
        if usable(servers, cs[m]) && cs[m].definition.name == name {
            assert(cs[m] == cs[m]);
        }
    }
}

/// Hidden and policy-omitted tools cannot enter a step: every tool a step
/// admits is not hidden, is eligible by provider name or identity, and names
/// a selected server.
pub proof fn law_step_tools_are_admitted(servers: Seq<DefinitionView>, cs: Seq<CatalogView>, sel: SelectionView)
    requires
        catalogs_valid(cs),
    ensures
        step_tools(servers, cs, sel) matches Ok(ts) ==> all_admitted(servers, sel, ts),
{
    if first_issue(servers, cs, 0) is None {
        lemma_gather_servers_admitted(servers, cs, sel, 0, Seq::empty());
    }
}

proof fn lemma_issue_push(servers: Seq<DefinitionView>, cs: Seq<CatalogView>, c: CatalogView, i: int)
    requires
        0 <= i < cs.len(),
    ensures
        catalog_issue(servers, cs.push(c), i) == catalog_issue(servers, cs, i),
{
    let p = cs.push(c);
    assert(p[i] == cs[i]);
    let n = cs[i].definition.name;
    assert((exists|m: int| 0 <= m < i && usable(servers, #[trigger] p[m]) && p[m].definition.name == n && p[m].tools != p[i].tools)
        == (exists|m: int| 0 <= m < i && usable(servers, #[trigger] cs[m]) && cs[m].definition.name == n && cs[m].tools != cs[i].tools)) by {
        if exists|m: int| 0 <= m < i && usable(servers, #[trigger] p[m]) && p[m].definition.name == n && p[m].tools != p[i].tools {
            let m = choose|m: int| 0 <= m < i && usable(servers, #[trigger] p[m]) && p[m].definition.name == n && p[m].tools != p[i].tools;
            assert(p[m] == cs[m]);
        }
        if exists|m: int| 0 <= m < i && usable(servers, #[trigger] cs[m]) && cs[m].definition.name == n && cs[m].tools != cs[i].tools {
            let m = choose|m: int| 0 <= m < i && usable(servers, #[trigger] cs[m]) && cs[m].definition.name == n && cs[m].tools != cs[i].tools;
            assert(p[m] == cs[m]);
        }
    }
}

proof fn lemma_first_issue_push(servers: Seq<DefinitionView>, cs: Seq<CatalogView>, c: CatalogView, i: int)
    requires
        !relevant(servers, c),
        0 <= i <= cs.len(),
    ensures
        first_issue(servers, cs.push(c), i) == first_issue(servers, cs, i),
    decreases cs.len() - i,
{
    if i < cs.len() {
        lemma_issue_push(servers, cs, c, i);
        lemma_first_issue_push(servers, cs, c, i + 1);
    } else {
        assert(cs.push(c)[i] == c);
        assert(catalog_issue(servers, cs.push(c), i) is None);
        assert(first_issue(servers, cs.push(c), i + 1) is None);
    }
}

proof fn lemma_selected_from_push(servers: Seq<DefinitionView>, cs: Seq<CatalogView>, c: CatalogView, name: Seq<char>, m: int)
    requires
        !relevant(servers, c),
        0 <= m <= cs.len(),
    ensures
        selected_from(servers, cs.push(c), name, m) == selected_from(servers, cs, name, m),
    decreases cs.len() - m,
{
    if m < cs.len() {
        assert(cs.push(c)[m] == cs[m]);
        lemma_selected_from_push(servers, cs, c, name, m + 1);
    } else {
        assert(cs.push(c)[m] == c);
        assert(!usable(servers, c));
        assert(selected_from(servers, cs.push(c), name, m + 1) is None);
    }
}

proof fn lemma_gather_servers_push(servers: Seq<DefinitionView>, cs: Seq<CatalogView>, c: CatalogView, sel: SelectionView, k: int, acc: Seq<ToolView>)
    requires
        !relevant(servers, c),
    ensures
        gather_servers(servers, cs.push(c), sel, k, acc) == gather_servers(servers, cs, sel, k, acc),
    decreases servers.len() - k,
{
    if 0 <= k < servers.len() {
        lemma_selected_from_push(servers, cs, c, servers[k].name, 0);
        if let Some(cat) = selected_from(servers, cs, servers[k].name, 0) {
            if let Ok(a2) = gather_tools(cat.tools, sel, 0, acc) {
                lemma_gather_servers_push(servers, cs, c, sel, k + 1, a2);
            }
        }
    }
}

/// Catalogs from unselected servers or origins are ignored: one more such
/// catalog changes neither the tools of a step nor its failure.
pub proof fn law_irrelevant_catalog_is_ignored(servers: Seq<DefinitionView>, cs: Seq<CatalogView>, sel: SelectionView, c: CatalogView)
    requires
        !relevant(servers, c),
    ensures
        step_tools(servers, cs.push(c), sel) == step_tools(servers, cs, sel),
{
    lemma_first_issue_push(servers, cs, c, 0);
    lemma_gather_servers_push(servers, cs, c, sel, 0, Seq::empty());
}

/// Every tool a step holds is admitted and belongs to the step: it is not
/// hidden, the policy selects it by provider name or identity, its server
/// is one of the step's selected servers and the one its descriptor names,
/// and no two tools share a provider name.
pub proof fn law_step_tools_belong_to_the_step(
    servers: Seq<DefinitionView>,
    cs: Seq<CatalogView>,
    sel: SelectionView,
    tools: Seq<ProjectedView>,
)
    requires
        catalogs_valid(cs),
        step_tools(servers, cs, sel) matches Ok(ts) && projected_descriptors(tools).to_set() == ts.to_set(),
        tools_sorted(projected_descriptors(tools)),
        forall|k: int| 0 <= k < tools.len() ==> tool_paired(servers, #[trigger] tools[k]),
    ensures
        forall|k: int| 0 <= k < tools.len() ==> {
            &&& admitted(sel, (#[trigger] tools[k]).descriptor)
            &&& servers.contains(tools[k].server)
            &&& tools[k].descriptor.server == Some(tools[k].server.name)
        },
        forall|a: int, b: int| 0 <= a < b < tools.len() ==> #[trigger] tools[a].descriptor.provider_name != #[trigger] tools[b].descriptor.provider_name,
{
    law_step_tools_are_admitted(servers, cs, sel);
    let ts = step_tools(servers, cs, sel)->Ok_0;
    let ds = projected_descriptors(tools);
    assert forall|k: int| 0 <= k < tools.len() implies {
        &&& admitted(sel, (#[trigger] tools[k]).descriptor)
        &&& servers.contains(tools[k].server)
        &&& tools[k].descriptor.server == Some(tools[k].server.name)
    } by {
        assert(ds[k] == tools[k].descriptor);
        assert(ds.to_set().contains(ds[k]));
        assert(ts.to_set().contains(ds[k]));
        assert(ts.contains(ds[k]));
        lemma_def_named(servers, tools[k].descriptor.server->Some_0);
    }
    assert forall|a: int, b: int| 0 <= a < b < tools.len() implies #[trigger] tools[a].descriptor.provider_name != #[trigger] tools[b].descriptor.provider_name by {
        assert(ds[a] == tools[a].descriptor && ds[b] == tools[b].descriptor);
        assert(chars_lt(ds[a].provider_name, ds[b].provider_name));
        crate::text::lemma_chars_lt_irreflexive(ds[a].provider_name);
    }
}

/// What a step's exposure does to a stream's discovery state, and the
/// snapshot it gives.
pub open spec fn step_exposure(tools: Seq<ProjectedView>, e: ExposureView) -> (ExposureView, SnapshotView) {
    projected(projected_descriptors(tools), e)
}

/// A step's exposure is the exposure projection of the step's own
/// descriptors, unchanged: it gives what `McpToolExposure::project` gives
/// for them, every visible descriptor is one of the step's, and every
/// deferred name is one of its tools' provider names.
pub proof fn law_step_exposure_is_projection(tools: Seq<ProjectedView>, e: ExposureView)
    ensures
        step_exposure(tools, e) == projected(projected_descriptors(tools), e),
        forall|t: ToolView| #[trigger] step_exposure(tools, e).1.visible.contains(t) ==> projected_descriptors(tools).contains(t),
        forall|n: Seq<char>| #[trigger] step_exposure(tools, e).1.deferred.contains(n) ==> names_of(projected_descriptors(tools)).contains(n),
{
    let auth = projected_descriptors(tools);
    crate::mcp::exposure::law_projection_stays_within_the_authorized(auth, chosen_names(auth, e.selected));
    assert(step_exposure(tools, e).1 == crate::mcp::exposure::snapshot_of(auth, chosen_names(auth, e.selected)));
}

} // verus!
