//! The catalog half of the MCP registry: which servers are registered, the
//! index from namespaced tool names to the server and raw tool behind them,
//! the advertised tool list, the compiled descriptors, and the in-process
//! tools. Connections, discovery round trips and tool calls are the host's;
//! it hands the registry what a server listed, as plain values.

use std::sync::Arc;
use vstd::prelude::*;

use crate::mcp::registry::{
    conflicts, merge_descriptors, namespaced, namespaced_tool_name, route_tool_call, sanitize_tool_name, sanitized,
    McpMergeError, ToolCallRoute,
};
use crate::text::{
    chars_lt, concat, is_blank, lemma_chars_lt_total, lemma_chars_lt_transitive, owned, str_eq, str_is_blank, str_less,
};
use crate::tools::{
    insert_descriptor, lemma_tool_named, tool_named, tool_views, tools_sorted, Exposure, ToolCollision, ToolDescriptor,
    ToolEffect, ToolMap, ToolSource, ToolView,
};

verus! {

/// One tool as an MCP server listed it.
pub struct DiscoveredTool {
    /// The server's own name for the tool.
    pub name: String,
    pub description: Option<String>,
    /// The server's `readOnlyHint` annotation, if it gave one.
    pub read_only_hint: Option<bool>,
    /// The input schema, as canonical JSON text.
    pub schema: String,
}

pub struct DiscoveredToolView {
    pub name: Seq<char>,
    pub description: Option<Seq<char>>,
    pub read_only_hint: Option<bool>,
    pub schema: Seq<char>,
}

impl DiscoveredTool {
    pub open spec fn view(&self) -> DiscoveredToolView {
        DiscoveredToolView {
            name: self.name@,
            description: match self.description {
                Some(d) => Some(d@),
                None => None,
            },
            read_only_hint: self.read_only_hint,
            schema: self.schema@,
        }
    }
}

pub open spec fn discovered_views(v: Seq<DiscoveredTool>) -> Seq<DiscoveredToolView> {
    v.map_values(|t: DiscoveredTool| t.view())
}

/// The descriptor of a listed MCP tool. Annotations are untrusted: a
/// read-only hint affects scheduling only, and the tool is always eager.
pub open spec fn mcp_tool_view(server: Seq<char>, provider_name: Seq<char>, t: DiscoveredToolView) -> ToolView {
    ToolView {
        provider_name,
        id: server + "::"@ + t.name,
        server: Some(server),
        description: match t.description {
            Some(d) => d,
            None => Seq::empty(),
        },
        exposure: Exposure::Eager,
        source: ToolSource::Mcp,
        effect: if t.read_only_hint == Some(true) {
            ToolEffect::ReadOnly
        } else {
            ToolEffect::Unknown
        },
        fingerprint: t.schema,
    }
}

/// Build the descriptor of one listed MCP tool under its provider name.
pub fn mcp_descriptor(server: &str, provider_name: &str, tool: &DiscoveredTool) -> (r: Arc<ToolDescriptor>)
    ensures
        r.view() == mcp_tool_view(server@, provider_name@, tool.view()),
{
    let id = concat(concat(server, "::").as_str(), tool.name.as_str());
    proof {
        reveal_strlit("::");
    }
    let description = match &tool.description {
        Some(d) => owned(d.as_str()),
        None => String::new(),
    };
    let effect = match tool.read_only_hint {
        Some(true) => ToolEffect::ReadOnly,
        _ => ToolEffect::Unknown,
    };
    let d = ToolDescriptor {
        provider_name: owned(provider_name),
        id,
        server: Some(owned(server)),
        description,
        exposure: Exposure::Eager,
        source: ToolSource::Mcp,
        effect,
        fingerprint: owned(tool.schema.as_str()),
    };
    assert(d.view().description =~= mcp_tool_view(server@, provider_name@, tool.view()).description);
    Arc::new(d)
}

/// One entry of the tool index: a namespaced name and the server and raw
/// tool name behind it.
pub struct IndexEntry {
    pub name: String,
    pub server: String,
    pub tool: String,
}

pub struct EntryView {
    pub name: Seq<char>,
    pub server: Seq<char>,
    pub tool: Seq<char>,
}

impl IndexEntry {
    pub open spec fn view(&self) -> EntryView {
        EntryView { name: self.name@, server: self.server@, tool: self.tool@ }
    }
}

pub open spec fn entry_views(v: Seq<IndexEntry>) -> Seq<EntryView> {
    v.map_values(|e: IndexEntry| e.view())
}

/// The entry of an index under a namespaced name.
pub open spec fn entry_named(s: Seq<EntryView>, name: Seq<char>) -> Option<EntryView>
    decreases s.len(),
{
    if s.len() == 0 {
        None
    } else if s.last().name == name {
        Some(s.last())
    } else {
        entry_named(s.drop_last(), name)
    }
}

/// No two entries share a namespaced name.
pub open spec fn entry_names_distinct(s: Seq<EntryView>) -> bool {
    forall|a: int, b: int| 0 <= a < b < s.len() ==> #[trigger] s[a].name != #[trigger] s[b].name
}

pub proof fn lemma_entry_named(s: Seq<EntryView>, name: Seq<char>)
    ensures
        entry_named(s, name) matches Some(e) ==> e.name == name && s.contains(e),
        entry_named(s, name) is None ==> forall|k: int| 0 <= k < s.len() ==> #[trigger] s[k].name != name,
        entry_names_distinct(s) ==> forall|k: int| 0 <= k < s.len() && #[trigger] s[k].name == name ==> entry_named(s, name) == Some(s[k]),
    decreases s.len(),
{
    if s.len() > 0 {
        lemma_entry_named(s.drop_last(), name);
        if entry_named(s, name) is None {
            assert forall|k: int| 0 <= k < s.len() implies #[trigger] s[k].name != name by {
                if k < s.len() - 1 {
                    assert(s.drop_last()[k] == s[k]);
                }
            }
        }
        if let Some(e) = entry_named(s, name) {
            if s.last().name != name {
                let k = choose|k: int| 0 <= k < s.drop_last().len() && s.drop_last()[k] == e;
                assert(s[k] == e);
            } else {
                assert(s[s.len() - 1] == e);
            }
        }
        if entry_names_distinct(s) {
            assert(entry_names_distinct(s.drop_last()));
            assert forall|k: int| 0 <= k < s.len() && #[trigger] s[k].name == name implies entry_named(s, name) == Some(s[k]) by {
                if k < s.len() - 1 {
                    assert(s[k].name != s[s.len() - 1].name);
                    assert(s.drop_last()[k] == s[k]);
                }
            }
        }
    }
}

/// The position of a name in an index, if it is there.
fn find_entry(index: &Vec<IndexEntry>, name: &str) -> (r: Option<usize>)
    ensures
        match r {
            Some(k) => k < index@.len() && index@[k as int].name@ == name@,
            None => forall|k: int| 0 <= k < index@.len() ==> #[trigger] entry_views(index@)[k].name != name@,
        },
{
    let mut i: usize = 0;
    while i < index.len()
        invariant
            i <= index@.len(),
            forall|k: int| 0 <= k < i ==> #[trigger] entry_views(index@)[k].name != name@,
        decreases index.len() - i,
    {
        if str_eq(index[i].name.as_str(), name) {
            return Some(i);
        }
        i = i + 1;
    }
    None
}

/// One tool kept by discovery: its namespaced name, its raw name and its
/// descriptor.
pub struct DiscoveryEntry {
    pub name: Seq<char>,
    pub tool: Seq<char>,
    pub descriptor: ToolView,
}

/// Why a server's tool list was refused.
pub enum DiscoveryFailure {
    /// A blank tool name, on the named server.
    EmptyToolName(Seq<char>),
    Collision(Seq<char>),
}

pub open spec fn discovery_entry_named(s: Seq<DiscoveryEntry>, name: Seq<char>) -> Option<DiscoveryEntry>
    decreases s.len(),
{
    if s.len() == 0 {
        None
    } else if s.last().name == name {
        Some(s.last())
    } else {
        discovery_entry_named(s.drop_last(), name)
    }
}

/// What discovery makes of a server's tool list, in listing order: a blank
/// tool name is refused; a name that namespaces onto an earlier tool with a
/// different descriptor is a collision; an identical repeat is dropped.
pub open spec fn discovery(server: Seq<char>, ts: Seq<DiscoveredToolView>) -> Result<Seq<DiscoveryEntry>, DiscoveryFailure>
    decreases ts.len(),
{
    if ts.len() == 0 {
        Ok(Seq::empty())
    } else {
        match discovery(server, ts.drop_last()) {
            Err(f) => Err(f),
            Ok(acc) => {
                let t = ts.last();
                let name = namespaced(server, t.name);
                let d = mcp_tool_view(server, name, t);
                if is_blank(t.name) {
                    Err(DiscoveryFailure::EmptyToolName(server))
                } else {
                    match discovery_entry_named(acc, name) {
                        Some(e) => if e.descriptor == d {
                            Ok(acc)
                        } else {
                            Err(DiscoveryFailure::Collision(name))
                        },
                        None => Ok(acc.push(DiscoveryEntry { name, tool: t.name, descriptor: d })),
                    }
                }
            },
        }
    }
}

/// A server's tool list refused by discovery.
pub enum DiscoveryError {
    /// The server listed a tool whose name is empty or whitespace.
    EmptyToolName { server: String },
    /// Two listed tools would share a namespaced name.
    Collision(ToolCollision),
}

impl DiscoveryError {
    pub open spec fn view(&self) -> DiscoveryFailure {
        match self {
            DiscoveryError::EmptyToolName { server } => DiscoveryFailure::EmptyToolName(server@),
            DiscoveryError::Collision(c) => DiscoveryFailure::Collision(c.provider_name@),
        }
    }
}

/// The index rows of discovered entries.
pub open spec fn discovery_index(server: Seq<char>, es: Seq<DiscoveryEntry>) -> Seq<EntryView> {
    es.map_values(|e: DiscoveryEntry| EntryView { name: e.name, server, tool: e.tool })
}

/// The advertised names of discovered entries.
pub open spec fn discovery_names(es: Seq<DiscoveryEntry>) -> Seq<Seq<char>> {
    es.map_values(|e: DiscoveryEntry| e.name)
}

/// The descriptor held under each name by discovered entries.
pub open spec fn discovered_descriptor(es: Seq<DiscoveryEntry>, n: Seq<char>) -> Option<ToolView> {
    match discovery_entry_named(es, n) {
        Some(e) => Some(e.descriptor),
        None => None,
    }
}

/// A server's tools, ready to enter the registry.
pub struct DiscoveredTools {
    /// Namespaced names, in listing order.
    pub tools: Vec<String>,
    /// Namespaced name to server and raw tool name.
    pub index: Vec<IndexEntry>,
    pub descriptors: ToolMap,
}

pub open spec fn string_views(v: Seq<String>) -> Seq<Seq<char>> {
    v.map_values(|s: String| s@)
}

/// Whether a set of discovered tools is what `discovery` gives.
pub open spec fn discovered_as(r: DiscoveredTools, server: Seq<char>, es: Seq<DiscoveryEntry>) -> bool {
    &&& string_views(r.tools@) == discovery_names(es)
    &&& entry_views(r.index@) == discovery_index(server, es)
    &&& forall|n: Seq<char>| #[trigger] tool_named(r.descriptors.view(), n) == discovered_descriptor(es, n)
}

proof fn lemma_discovery_names_distinct(server: Seq<char>, ts: Seq<DiscoveredToolView>)
    ensures
        discovery(server, ts) matches Ok(es) ==> entry_names_distinct(discovery_index(server, es)),
    decreases ts.len(),
{
    if ts.len() > 0 {
        lemma_discovery_names_distinct(server, ts.drop_last());
        if let Ok(acc) = discovery(server, ts.drop_last()) {
            let t = ts.last();
            let name = namespaced(server, t.name);
            lemma_discovery_entry_named(acc, name);
            if let Ok(es) = discovery(server, ts) {
                if es != acc {
                    let ix = discovery_index(server, es);
                    assert forall|a: int, b: int| 0 <= a < b < ix.len() implies #[trigger] ix[a].name != #[trigger] ix[b].name by {
                        assert(discovery_index(server, acc)[a] == ix[a]);
                        if b < acc.len() {
                            assert(discovery_index(server, acc)[b] == ix[b]);
                        } else {
                            assert(acc[a].name == ix[a].name);
                        }
                    }
                }
            }
        }
    }
}

proof fn lemma_discovery_entry_named(s: Seq<DiscoveryEntry>, name: Seq<char>)
    ensures
        discovery_entry_named(s, name) matches Some(e) ==> e.name == name && s.contains(e),
        discovery_entry_named(s, name) is None ==> forall|k: int| 0 <= k < s.len() ==> #[trigger] s[k].name != name,
    decreases s.len(),
{
    if s.len() > 0 {
        lemma_discovery_entry_named(s.drop_last(), name);
        if let Some(e) = discovery_entry_named(s, name) {
            if s.last().name != name {
                let k = choose|k: int| 0 <= k < s.drop_last().len() && s.drop_last()[k] == e;
                assert(s[k] == e);
            } else {
                assert(s[s.len() - 1] == e);
            }
        }
        if discovery_entry_named(s, name) is None {
            assert forall|k: int| 0 <= k < s.len() implies #[trigger] s[k].name != name by {
                if k < s.len() - 1 {
                    assert(s.drop_last()[k] == s[k]);
                }
            }
        }
    }
}

/// Namespace, describe and index the tools one server listed.
pub fn compile_discovered_tools(server: &str, tools: &Vec<DiscoveredTool>) -> (r: Result<DiscoveredTools, DiscoveryError>)
    ensures
        match discovery(server@, discovered_views(tools@)) {
            Ok(es) => r matches Ok(d) && discovered_as(d, server@, es),
            Err(f) => r matches Err(e) && e.view() == f,
        },
{
    let ghost ts = discovered_views(tools@);
    let mut out = DiscoveredTools { tools: Vec::new(), index: Vec::new(), descriptors: ToolMap::new() };
    let mut i: usize = 0;
    proof {
        assert(ts.take(0) =~= Seq::<DiscoveredToolView>::empty());
        assert(string_views(out.tools@) =~= Seq::<Seq<char>>::empty());
        assert(entry_views(out.index@) =~= Seq::<EntryView>::empty());
        assert(discovery(server@, ts.take(0)) == Ok::<Seq<DiscoveryEntry>, DiscoveryFailure>(Seq::empty()));
        assert(discovery_names(Seq::<DiscoveryEntry>::empty()) =~= Seq::<Seq<char>>::empty());
        assert(discovery_index(server@, Seq::<DiscoveryEntry>::empty()) =~= Seq::<EntryView>::empty());
        assert(discovered_as(out, server@, Seq::empty()));
    }
    while i < tools.len()
        invariant
            ts == discovered_views(tools@),
            i <= ts.len(),
            discovery(server@, ts.take(i as int)) matches Ok(es) && discovered_as(out, server@, es),
        decreases tools.len() - i,
    {
        let ghost es = discovery(server@, ts.take(i as int))->Ok_0;
        assert(discovered_as(out, server@, es));
        assert(entry_views(out.index@) == discovery_index(server@, es));
        assert(entry_views(out.index@).len() == es.len());
        let ghost pre = ts.take(i + 1);
        assert(pre.drop_last() =~= ts.take(i as int));
        assert(pre.last() == tools@[i as int].view());
        let t = &tools[i];
        if str_is_blank(t.name.as_str()) {
            proof {
                lemma_discovery_fails_on(server@, ts, i as int + 1);
            }
            return Err(DiscoveryError::EmptyToolName { server: owned(server) });
        }
        let name = namespaced_tool_name(server, t.name.as_str());
        let d = mcp_descriptor(server, name.as_str(), t);
        let ghost before = out.descriptors.view();
        match insert_descriptor(&mut out.descriptors, d) {
            Ok(()) => {},
            Err(c) => {
                proof {
                    lemma_discovery_fails_on(server@, ts, i as int + 1);
                }
                return Err(DiscoveryError::Collision(c));
            },
        }
        proof {
            lemma_discovery_entry_named(es, name@);
        }
        match find_entry(&out.index, name.as_str()) {
            Some(k) => {
                proof {
                    assert(entry_views(out.index@)[k as int].name == name@);
                    assert(discovery_index(server@, es)[k as int].name == es[k as int].name);
                    assert(es[k as int].name == name@);
                    assert(discovery_entry_named(es, name@) is Some);
                    assert(ts.take(i + 1).drop_last() =~= ts.take(i as int));
                    let e = discovery_entry_named(es, name@)->Some_0;
                    assert(tool_named(before, name@) == discovered_descriptor(es, name@));
                    assert(e.descriptor == d.view());
                    assert(discovery(server@, ts.take(i + 1)) == Ok::<Seq<DiscoveryEntry>, DiscoveryFailure>(es));
                }
            },
            None => {
                let ghost tb = out.tools@;
                let ghost ib = out.index@;
                proof {
                    assert forall|k: int| 0 <= k < es.len() implies #[trigger] es[k].name != name@ by {
                        assert(entry_views(ib)[k].name == es[k].name);
                    }
                    assert(discovery_entry_named(es, name@) is None);
                    assert(tool_named(before, name@) == discovered_descriptor(es, name@));
                }
                out.index.push(IndexEntry { name: owned(name.as_str()), server: owned(server), tool: owned(t.name.as_str()) });
                out.tools.push(name);
                proof {
                    let e = DiscoveryEntry { name: name@, tool: t.name@, descriptor: d.view() };
                    assert(string_views(out.tools@) =~= string_views(tb).push(name@));
                    assert(discovery_names(es.push(e)) =~= discovery_names(es).push(name@));
                    assert(string_views(out.tools@) =~= discovery_names(es.push(e)));
                    assert(entry_views(out.index@) =~= entry_views(ib).push(EntryView { name: name@, server: server@, tool: t.name@ }));
                    assert(discovery_index(server@, es.push(e)) =~= discovery_index(server@, es).push(EntryView { name: name@, server: server@, tool: t.name@ }));
                    assert(entry_views(out.index@) =~= discovery_index(server@, es.push(e)));
                    assert forall|n: Seq<char>| #[trigger] tool_named(out.descriptors.view(), n) == discovered_descriptor(es.push(e), n) by {
                        assert(es.push(e).drop_last() =~= es);
                    }
                    assert(ts.take(i + 1).drop_last() =~= ts.take(i as int));
                    assert(discovery(server@, ts.take(i + 1)) == Ok::<Seq<DiscoveryEntry>, DiscoveryFailure>(es.push(e)));
                }
            },
        }
        i = i + 1;
    }
    assert(ts.take(ts.len() as int) =~= ts);
    Ok(out)
}

/// Once discovery fails on a prefix, it fails with the same reason on the
/// whole list.
proof fn lemma_discovery_fails_on(server: Seq<char>, ts: Seq<DiscoveredToolView>, n: int)
    requires
        0 <= n <= ts.len(),
        discovery(server, ts.take(n)) is Err,
    ensures
        discovery(server, ts) == discovery(server, ts.take(n)),
    decreases ts.len() - n,
{
    if n < ts.len() {
        assert(ts.take(n + 1).drop_last() =~= ts.take(n));
        lemma_discovery_fails_on(server, ts, n + 1);
    } else {
        assert(ts.take(n) =~= ts);
    }
}


/// Filtering keeps only members that satisfy the predicate, and keeps keys
/// distinct when they were.
pub proof fn lemma_filter_distinct<A>(s: Seq<A>, pred: spec_fn(A) -> bool, key: spec_fn(A) -> Seq<char>)
    requires
        forall|a: int, b: int| 0 <= a < b < s.len() ==> key(#[trigger] s[a]) != key(#[trigger] s[b]),
    ensures
        forall|a: int, b: int| 0 <= a < b < s.filter(pred).len() ==> key(#[trigger] s.filter(pred)[a]) != key(#[trigger] s.filter(pred)[b]),
        forall|x: A| #[trigger] s.filter(pred).contains(x) ==> s.contains(x) && pred(x),
    decreases s.len(),
{
    reveal(Seq::filter);
    if s.len() > 0 {
        let p = s.drop_last();
        assert forall|a: int, b: int| 0 <= a < b < p.len() implies key(#[trigger] p[a]) != key(#[trigger] p[b]) by {
            assert(p[a] == s[a] && p[b] == s[b]);
        }
        lemma_filter_distinct(p, pred, key);
        let f0 = p.filter(pred);
        let f = s.filter(pred);
        if pred(s.last()) {
            assert(f == f0.push(s.last()));
            assert forall|a: int, b: int| 0 <= a < b < f.len() implies key(#[trigger] f[a]) != key(#[trigger] f[b]) by {
                if b == f0.len() {
                    assert(f[a] == f0[a]);
                    assert(f0.contains(f0[a]));
                    let k = choose|k: int| 0 <= k < p.len() && p[k] == f0[a];
                    assert(s[k] == f0[a]);
                    assert(key(s[k]) != key(s[s.len() - 1]));
                } else {
                    assert(f[a] == f0[a] && f[b] == f0[b]);
                }
            }
            assert forall|x: A| #[trigger] f.contains(x) implies s.contains(x) && pred(x) by {
                let j = choose|j: int| 0 <= j < f.len() && f[j] == x;
                if j < f0.len() {
                    assert(f0[j] == x);
                    assert(f0.contains(x));
                    let k = choose|k: int| 0 <= k < p.len() && p[k] == x;
                    assert(s[k] == x);
                } else {
                    assert(s[s.len() - 1] == x);
                }
            }
        } else {
            assert(f == f0);
            assert forall|x: A| #[trigger] f.contains(x) implies s.contains(x) && pred(x) by {
                assert(f0.contains(x));
                let k = choose|k: int| 0 <= k < p.len() && p[k] == x;
                assert(s[k] == x);
            }
        }
    }
}

/// The strings of `v` other than `name`, in order.
fn strings_without(v: &Vec<String>, name: &str) -> (r: Vec<String>)
    ensures
        string_views(r@) == string_views(v@).filter(|x: Seq<char>| x != name@),
{
    let ghost sv = string_views(v@);
    let ghost pred = |x: Seq<char>| x != name@;
    let mut r: Vec<String> = Vec::new();
    let mut i: usize = 0;
    while i < v.len()
        invariant
            sv == string_views(v@),
            pred == (|x: Seq<char>| x != name@),
            i <= sv.len(),
            string_views(r@) == sv.take(i as int).filter(pred),
        decreases v.len() - i,
    {
        assert(sv.take(i + 1).drop_last() =~= sv.take(i as int));
        assert(sv.take(i + 1).last() == v@[i as int]@);
        proof {
            reveal(Seq::filter);
        }
        if !str_eq(v[i].as_str(), name) {
            let ghost before = r@;
            r.push(owned(v[i].as_str()));
            assert(string_views(r@) =~= string_views(before).push(v@[i as int]@));
        }
        i = i + 1;
    }
    assert(sv.take(sv.len() as int) =~= sv);
    r
}

/// The strings of `v` that `excluded` does not hold, in order.
fn strings_not_in(v: &Vec<String>, excluded: &Vec<String>) -> (r: Vec<String>)
    ensures
        string_views(r@) == string_views(v@).filter(|x: Seq<char>| !string_views(excluded@).contains(x)),
{
    let ghost sv = string_views(v@);
    let ghost ev = string_views(excluded@);
    let ghost pred = |x: Seq<char>| !ev.contains(x);
    let mut r: Vec<String> = Vec::new();
    let mut i: usize = 0;
    while i < v.len()
        invariant
            sv == string_views(v@),
            ev == string_views(excluded@),
            pred == (|x: Seq<char>| !ev.contains(x)),
            i <= sv.len(),
            string_views(r@) == sv.take(i as int).filter(pred),
        decreases v.len() - i,
    {
        assert(sv.take(i + 1).drop_last() =~= sv.take(i as int));
        assert(sv.take(i + 1).last() == v@[i as int]@);
        proof {
            reveal(Seq::filter);
        }
        assert(string_views(excluded@) =~= crate::text::views(excluded@));
        if !crate::text::contains_str(excluded, v[i].as_str()) {
            let ghost before = r@;
            r.push(owned(v[i].as_str()));
            assert(string_views(r@) =~= string_views(before).push(v@[i as int]@));
        }
        i = i + 1;
    }
    assert(sv.take(sv.len() as int) =~= sv);
    r
}

/// The namespaced names a server contributed to an index.
pub open spec fn names_of_server(index: Seq<EntryView>, server: Seq<char>) -> Seq<Seq<char>> {
    index.filter(|e: EntryView| e.server == server).map_values(|e: EntryView| e.name)
}

/// Split an index into the entries of other servers and the names of the
/// entries of `server`.
fn split_index(index: &Vec<IndexEntry>, server: &str) -> (r: (Vec<IndexEntry>, Vec<String>))
    ensures
        entry_views(r.0@) == entry_views(index@).filter(|e: EntryView| e.server != server@),
        string_views(r.1@) == names_of_server(entry_views(index@), server@),
{
    let ghost iv = entry_views(index@);
    let ghost keep = |e: EntryView| e.server != server@;
    let ghost drop = |e: EntryView| e.server == server@;
    let mut kept: Vec<IndexEntry> = Vec::new();
    let mut names: Vec<String> = Vec::new();
    let mut i: usize = 0;
    while i < index.len()
        invariant
            iv == entry_views(index@),
            keep == (|e: EntryView| e.server != server@),
            drop == (|e: EntryView| e.server == server@),
            i <= iv.len(),
            entry_views(kept@) == iv.take(i as int).filter(keep),
            string_views(names@) == iv.take(i as int).filter(drop).map_values(|e: EntryView| e.name),
        decreases index.len() - i,
    {
        assert(iv.take(i + 1).drop_last() =~= iv.take(i as int));
        assert(iv.take(i + 1).last() == index@[i as int].view());
        proof {
            reveal(Seq::filter);
        }
        let e = &index[i];
        if str_eq(e.server.as_str(), server) {
            let ghost before = names@;
            names.push(owned(e.name.as_str()));
            assert(string_views(names@) =~= string_views(before).push(e.name@));
            assert(iv.take(i + 1).filter(drop).map_values(|e: EntryView| e.name) =~= iv.take(i as int).filter(drop).map_values(
                |e: EntryView| e.name,
            ).push(e.name@));
        } else {
            let ghost before = kept@;
            kept.push(IndexEntry { name: owned(e.name.as_str()), server: owned(e.server.as_str()), tool: owned(e.tool.as_str()) });
            assert(entry_views(kept@) =~= entry_views(before).push(e.view()));
        }
        i = i + 1;
    }
    assert(iv.take(iv.len() as int) =~= iv);
    (kept, names)
}

/// The descriptors of a map that do not belong to `server`.
fn descriptors_without_server(m: &ToolMap, server: &str) -> (r: ToolMap)
    ensures
        r.view() == m.view().filter(|d: ToolView| d.server != Some(server@)),
{
    let entries = m.entries();
    let ghost mv = m.view();
    let ghost pred = |d: ToolView| d.server != Some(server@);
    let mut kept: Vec<Arc<ToolDescriptor>> = Vec::new();
    let mut i: usize = 0;
    while i < entries.len()
        invariant
            mv == m.view(),
            tool_views(entries@) == mv,
            tools_sorted(mv),
            pred == (|d: ToolView| d.server != Some(server@)),
            i <= mv.len(),
            tool_views(kept@) == mv.take(i as int).filter(pred),
        decreases entries.len() - i,
    {
        assert(mv.take(i + 1).drop_last() =~= mv.take(i as int));
        assert(mv.take(i + 1).last() == entries@[i as int].view());
        proof {
            reveal(Seq::filter);
        }
        let d = &entries[i];
        let same = match &d.server {
            Some(s) => str_eq(s.as_str(), server),
            None => false,
        };
        if !same {
            let ghost before = kept@;
            kept.push(crate::text::share(d));
            assert(tool_views(kept@) =~= tool_views(before).push(d.view()));
        }
        i = i + 1;
    }
    assert(mv.take(mv.len() as int) =~= mv);
    proof {
        crate::tools::lemma_filter_tools_sorted(mv, pred);
    }
    ToolMap::from_sorted(kept)
}

/// No name occurs twice.
pub open spec fn distinct_names(s: Seq<Seq<char>>) -> bool {
    forall|a: int, b: int| 0 <= a < b < s.len() ==> #[trigger] s[a] != #[trigger] s[b]
}

/// The registry's catalog, as plain values.
pub struct RegistryView {
    /// Registered server names.
    pub servers: Seq<Seq<char>>,
    /// Namespaced tool name to server and raw tool name.
    pub index: Seq<EntryView>,
    /// Advertised tool names, in advertising order.
    pub tools: Seq<Seq<char>>,
    /// Compiled descriptors, in provider-name order.
    pub descriptors: Seq<ToolView>,
    /// Names of the in-process tools.
    pub native: Seq<Seq<char>>,
    /// A captured connection view, which can neither connect nor grow.
    pub frozen: bool,
    /// Shutting down, or for a frozen view, closed.
    pub closed: bool,
}

/// The tool catalog of an MCP registry. The host keeps one live connection
/// per registered server beside it; the registry decides which tools exist,
/// what they are called and which server answers them.
pub struct McpRegistry {
    servers: Vec<String>,
    index: Vec<IndexEntry>,
    tools: Vec<String>,
    descriptors: ToolMap,
    native: Vec<String>,
    frozen: bool,
    closed: bool,
}

impl McpRegistry {
    pub closed spec fn view(&self) -> RegistryView {
        RegistryView {
            servers: string_views(self.servers@),
            index: entry_views(self.index@),
            tools: string_views(self.tools@),
            descriptors: self.descriptors.view(),
            native: string_views(self.native@),
            frozen: self.frozen,
            closed: self.closed,
        }
    }

    #[verifier::type_invariant]
    spec fn well_formed(&self) -> bool {
        &&& distinct_names(string_views(self.servers@))
        &&& entry_names_distinct(entry_views(self.index@))
        &&& distinct_names(string_views(self.native@))
    }

    /// An empty registry with no MCP servers or tools.
    pub fn empty() -> (r: McpRegistry)
        ensures
            r.view() == (RegistryView {
                servers: Seq::empty(),
                index: Seq::empty(),
                tools: Seq::empty(),
                descriptors: Seq::empty(),
                native: Seq::empty(),
                frozen: false,
                closed: false,
            }),
    {
        let r = McpRegistry {
            servers: Vec::new(),
            index: Vec::new(),
            tools: Vec::new(),
            descriptors: ToolMap::new(),
            native: Vec::new(),
            frozen: false,
            closed: false,
        };
        assert(string_views(r.servers@) =~= Seq::<Seq<char>>::empty());
        assert(string_views(r.tools@) =~= Seq::<Seq<char>>::empty());
        assert(string_views(r.native@) =~= Seq::<Seq<char>>::empty());
        assert(entry_views(r.index@) =~= Seq::<EntryView>::empty());
        r
    }

    /// An empty registry, for tests.
    pub fn new_empty() -> (r: McpRegistry)
        ensures
            r.view() == McpRegistry::empty_view(),
    {
        McpRegistry::empty()
    }

    pub open spec fn empty_view() -> RegistryView {
        RegistryView {
            servers: Seq::empty(),
            index: Seq::empty(),
            tools: Seq::empty(),
            descriptors: Seq::empty(),
            native: Seq::empty(),
            frozen: false,
            closed: false,
        }
    }

    /// The advertised namespaced tool names, in advertising order.
    pub fn tools(&self) -> (r: Vec<String>)
        ensures
            string_views(r@) == self.view().tools,
    {
        let r = crate::text::copy_strings(&self.tools);
        assert(string_views(r@) =~= string_views(self.tools@));
        r
    }

    /// Compiled descriptors in provider-name order.
    pub fn descriptors(&self) -> (r: Vec<Arc<ToolDescriptor>>)
        ensures
            tool_views(r@) == self.view().descriptors,
            tools_sorted(self.view().descriptors),
    {
        let e = self.descriptors.entries();
        let r = crate::text::share_all(e);
        r
    }

    /// One compiled descriptor, by provider-visible name.
    pub fn descriptor(&self, provider_name: &str) -> (r: Option<Arc<ToolDescriptor>>)
        ensures
            match r {
                Some(d) => tool_named(self.view().descriptors, provider_name@) == Some(d.view()),
                None => tool_named(self.view().descriptors, provider_name@) is None,
            },
    {
        match self.descriptors.get(provider_name) {
            Some(d) => Some(crate::text::share(d)),
            None => None,
        }
    }

    /// Registered MCP server names.
    pub fn server_names(&self) -> (r: Vec<String>)
        ensures
            string_views(r@) == self.view().servers,
    {
        let r = crate::text::copy_strings(&self.servers);
        assert(string_views(r@) =~= string_views(self.servers@));
        r
    }

    /// Whether this registry is a captured connection view.
    pub fn has_frozen_bindings(&self) -> (r: bool)
        ensures
            r == self.view().frozen,
    {
        self.frozen
    }

    /// Whether the namespaced tool is an in-process one.
    pub fn is_native_tool(&self, namespaced_name: &str) -> (r: bool)
        ensures
            r == self.view().native.contains(namespaced_name@),
    {
        crate::text::contains_str(&self.native, namespaced_name)
    }

    /// The MCP server and raw tool name behind a namespaced tool.
    pub fn resolve_mcp_tool(&self, namespaced_name: &str) -> (r: Option<(String, String)>)
        ensures
            match entry_named(self.view().index, namespaced_name@) {
                Some(e) => r matches Some(p) && p.0@ == e.server && p.1@ == e.tool,
                None => r is None,
            },
    {
        proof {
            use_type_invariant(self);
            lemma_entry_named(entry_views(self.index@), namespaced_name@);
        }
        match find_entry(&self.index, namespaced_name) {
            Some(k) => {
                assert(entry_views(self.index@)[k as int].name == namespaced_name@);
                Some((owned(self.index[k].server.as_str()), owned(self.index[k].tool.as_str())))
            },
            None => None,
        }
    }
}

/// The registry after a server is removed with every tool it contributed.
/// Names other than `name`.
pub open spec fn other_name(name: Seq<char>) -> spec_fn(Seq<char>) -> bool {
    |x: Seq<char>| x != name
}

/// Index entries of servers other than `name`.
pub open spec fn other_server(name: Seq<char>) -> spec_fn(EntryView) -> bool {
    |e: EntryView| e.server != name
}

/// Descriptors that do not belong to the server `name`.
pub open spec fn not_from_server(name: Seq<char>) -> spec_fn(ToolView) -> bool {
    |d: ToolView| d.server != Some(name)
}

/// Tool names that the server `name` did not contribute to `index`.
pub open spec fn not_contributed(index: Seq<EntryView>, name: Seq<char>) -> spec_fn(Seq<char>) -> bool {
    |t: Seq<char>| !names_of_server(index, name).contains(t)
}

pub open spec fn without_server(v: RegistryView, name: Seq<char>) -> RegistryView {
    RegistryView {
        servers: v.servers.filter(other_name(name)),
        index: v.index.filter(other_server(name)),
        tools: v.tools.filter(not_contributed(v.index, name)),
        descriptors: v.descriptors.filter(not_from_server(name)),
        native: v.native,
        frozen: v.frozen,
        closed: v.closed,
    }
}

proof fn lemma_distinct_names_filter(s: Seq<Seq<char>>, pred: spec_fn(Seq<char>) -> bool)
    requires
        distinct_names(s),
    ensures
        distinct_names(s.filter(pred)),
        forall|x: Seq<char>| #[trigger] s.filter(pred).contains(x) ==> s.contains(x) && pred(x),
{
    let key = |x: Seq<char>| x;
    assert forall|a: int, b: int| 0 <= a < b < s.len() implies key(#[trigger] s[a]) != key(#[trigger] s[b]) by {}
    lemma_filter_distinct(s, pred, key);
    let f = s.filter(pred);
    assert forall|a: int, b: int| 0 <= a < b < f.len() implies #[trigger] f[a] != #[trigger] f[b] by {
        assert(key(f[a]) != key(f[b]));
    }
}

proof fn lemma_entries_distinct_filter(s: Seq<EntryView>, pred: spec_fn(EntryView) -> bool)
    requires
        entry_names_distinct(s),
    ensures
        entry_names_distinct(s.filter(pred)),
        forall|x: EntryView| #[trigger] s.filter(pred).contains(x) ==> s.contains(x) && pred(x),
{
    let key = |e: EntryView| e.name;
    assert forall|a: int, b: int| 0 <= a < b < s.len() implies key(#[trigger] s[a]) != key(#[trigger] s[b]) by {}
    lemma_filter_distinct(s, pred, key);
    let f = s.filter(pred);
    assert forall|a: int, b: int| 0 <= a < b < f.len() implies #[trigger] f[a].name != #[trigger] f[b].name by {
        assert(key(f[a]) != key(f[b]));
    }
}

impl McpRegistry {
    /// Remove one MCP server and every tool it contributed. A frozen or
    /// closed registry refuses, and so does one without that server only in
    /// that it reports `false`.
    pub fn remove_server(&mut self, name: &str) -> (r: bool)
        ensures
            if old(self).view().frozen || old(self).view().closed {
                !r && final(self).view() == old(self).view()
            } else {
                r == old(self).view().servers.contains(name@) && final(self).view() == without_server(old(self).view(), name@)
            },
    {
        proof {
            use_type_invariant(&*self);
        }
        if self.frozen || self.closed {
            return false;
        }
        let ghost v = self.view();
        let removed = crate::text::contains_str(&self.servers, name);
        assert(crate::text::views(self.servers@) =~= string_views(self.servers@));
        let servers = strings_without(&self.servers, name);
        let (index, removed_names) = split_index(&self.index, name);
        let tools = strings_not_in(&self.tools, &removed_names);
        let descriptors = descriptors_without_server(&self.descriptors, name);
        proof {
            lemma_distinct_names_filter(v.servers, |x: Seq<char>| x != name@);
            lemma_entries_distinct_filter(v.index, |e: EntryView| e.server != name@);
        }
        self.servers = servers;
        self.index = index;
        self.tools = tools;
        self.descriptors = descriptors;
        assert(self.view() == without_server(v, name@));
        removed
    }

    /// Begin shutting down: a registry refuses new servers from here on, and
    /// a frozen view is closed.
    pub fn begin_shutdown(&mut self)
        ensures
            final(self).view() == (RegistryView { closed: true, ..old(self).view() }),
    {
        proof {
            use_type_invariant(&*self);
        }
        self.closed = true;
    }
}

/// An allow-list: `None` admits everything, `Some(list)` what it holds.
pub open spec fn allows(allowed: Option<Seq<Seq<char>>>, x: Seq<char>) -> bool {
    match allowed {
        Some(a) => a.contains(x),
        None => true,
    }
}

pub open spec fn allow_list(o: Option<&Vec<String>>) -> Option<Seq<Seq<char>>> {
    match o {
        Some(v) => Some(string_views(v@)),
        None => None,
    }
}

fn permits(allowed: Option<&Vec<String>>, x: &str) -> (r: bool)
    ensures
        r == allows(allow_list(allowed), x@),
{
    match allowed {
        Some(v) => {
            assert(string_views(v@) =~= crate::text::views(v@));
            crate::text::contains_str(v, x)
        },
        None => true,
    }
}

/// The registry narrowed to the allowed servers and tools. In-process tools
/// are governed by the tool list alone, since they belong to no server.
pub open spec fn narrowed(v: RegistryView, servers: Option<Seq<Seq<char>>>, tools: Option<Seq<Seq<char>>>) -> RegistryView {
    let index = v.index.filter(|e: EntryView| allows(servers, e.server) && allows(tools, e.name));
    let native = v.native.filter(|t: Seq<char>| allows(tools, t));
    let kept = v.tools.filter(|t: Seq<char>| allows(tools, t) && (native.contains(t) || entry_named(index, t) is Some));
    RegistryView {
        servers: v.servers.filter(|x: Seq<char>| allows(servers, x)),
        index,
        tools: kept,
        descriptors: v.descriptors.filter(|d: ToolView| kept.contains(d.provider_name)),
        native,
        ..v
    }
}

/// The strings of `v` the allow-list admits, in order.
fn strings_allowed(v: &Vec<String>, allowed: Option<&Vec<String>>) -> (r: Vec<String>)
    ensures
        string_views(r@) == string_views(v@).filter(|x: Seq<char>| allows(allow_list(allowed), x)),
{
    let ghost sv = string_views(v@);
    let ghost pred = |x: Seq<char>| allows(allow_list(allowed), x);
    let mut r: Vec<String> = Vec::new();
    let mut i: usize = 0;
    while i < v.len()
        invariant
            sv == string_views(v@),
            pred == (|x: Seq<char>| allows(allow_list(allowed), x)),
            i <= sv.len(),
            string_views(r@) == sv.take(i as int).filter(pred),
        decreases v.len() - i,
    {
        assert(sv.take(i + 1).drop_last() =~= sv.take(i as int));
        assert(sv.take(i + 1).last() == v@[i as int]@);
        proof {
            reveal(Seq::filter);
        }
        if permits(allowed, v[i].as_str()) {
            let ghost before = r@;
            r.push(owned(v[i].as_str()));
            assert(string_views(r@) =~= string_views(before).push(v@[i as int]@));
        }
        i = i + 1;
    }
    assert(sv.take(sv.len() as int) =~= sv);
    r
}

/// The index entries whose server and name the allow-lists admit.
fn index_allowed(index: &Vec<IndexEntry>, servers: Option<&Vec<String>>, tools: Option<&Vec<String>>) -> (r: Vec<IndexEntry>)
    ensures
        entry_views(r@) == entry_views(index@).filter(
            |e: EntryView| allows(allow_list(servers), e.server) && allows(allow_list(tools), e.name),
        ),
{
    let ghost iv = entry_views(index@);
    let ghost pred = |e: EntryView| allows(allow_list(servers), e.server) && allows(allow_list(tools), e.name);
    let mut r: Vec<IndexEntry> = Vec::new();
    let mut i: usize = 0;
    while i < index.len()
        invariant
            iv == entry_views(index@),
            pred == (|e: EntryView| allows(allow_list(servers), e.server) && allows(allow_list(tools), e.name)),
            i <= iv.len(),
            entry_views(r@) == iv.take(i as int).filter(pred),
        decreases index.len() - i,
    {
        assert(iv.take(i + 1).drop_last() =~= iv.take(i as int));
        assert(iv.take(i + 1).last() == index@[i as int].view());
        proof {
            reveal(Seq::filter);
        }
        let e = &index[i];
        if permits(servers, e.server.as_str()) && permits(tools, e.name.as_str()) {
            let ghost before = r@;
            r.push(IndexEntry { name: owned(e.name.as_str()), server: owned(e.server.as_str()), tool: owned(e.tool.as_str()) });
            assert(entry_views(r@) =~= entry_views(before).push(e.view()));
        }
        i = i + 1;
    }
    assert(iv.take(iv.len() as int) =~= iv);
    r
}

/// The advertised tools that stay: allowed, and still backed by an
/// in-process tool or an index entry.
fn tools_still_backed(tools: &Vec<String>, allowed: Option<&Vec<String>>, native: &Vec<String>, index: &Vec<IndexEntry>) -> (r: Vec<String>)
    ensures
        string_views(r@) == string_views(tools@).filter(
            |t: Seq<char>| allows(allow_list(allowed), t) && (string_views(native@).contains(t) || entry_named(entry_views(index@), t) is Some),
        ),
{
    let ghost sv = string_views(tools@);
    let ghost nv = string_views(native@);
    let ghost iv = entry_views(index@);
    let ghost pred = |t: Seq<char>| allows(allow_list(allowed), t) && (nv.contains(t) || entry_named(iv, t) is Some);
    let mut r: Vec<String> = Vec::new();
    let mut i: usize = 0;
    while i < tools.len()
        invariant
            sv == string_views(tools@),
            nv == string_views(native@),
            iv == entry_views(index@),
            pred == (|t: Seq<char>| allows(allow_list(allowed), t) && (nv.contains(t) || entry_named(iv, t) is Some)),
            i <= sv.len(),
            string_views(r@) == sv.take(i as int).filter(pred),
        decreases tools.len() - i,
    {
        assert(sv.take(i + 1).drop_last() =~= sv.take(i as int));
        assert(sv.take(i + 1).last() == tools@[i as int]@);
        proof {
            reveal(Seq::filter);
            lemma_entry_named(iv, tools@[i as int]@);
        }
        assert(nv =~= crate::text::views(native@));
        let t = tools[i].as_str();
        let in_native = crate::text::contains_str(native, t);
        let found = find_entry(index, t);
        proof {
            match found {
                Some(k) => {
                    assert(iv[k as int].name == t@);
                    assert(entry_named(iv, t@) is Some);
                },
                None => {
                    if let Some(e) = entry_named(iv, t@) {
                        let k = choose|k: int| 0 <= k < iv.len() && iv[k] == e;
                        assert(iv[k].name == t@);
                    }
                },
            }
        }
        let backed = in_native || found.is_some();
        assert(backed == (nv.contains(t@) || entry_named(iv, t@) is Some));
        if permits(allowed, t) && backed {
            let ghost before = r@;
            r.push(owned(t));
            assert(string_views(r@) =~= string_views(before).push(tools@[i as int]@));
        }
        i = i + 1;
    }
    assert(sv.take(sv.len() as int) =~= sv);
    r
}

/// The descriptors of a map whose names a list holds.
fn descriptors_named_in(m: &ToolMap, names: &Vec<String>) -> (r: ToolMap)
    ensures
        r.view() == m.view().filter(|d: ToolView| string_views(names@).contains(d.provider_name)),
{
    let entries = m.entries();
    let ghost mv = m.view();
    let ghost nv = string_views(names@);
    let ghost pred = |d: ToolView| nv.contains(d.provider_name);
    let mut kept: Vec<Arc<ToolDescriptor>> = Vec::new();
    let mut i: usize = 0;
    while i < entries.len()
        invariant
            mv == m.view(),
            nv == string_views(names@),
            tool_views(entries@) == mv,
            tools_sorted(mv),
            pred == (|d: ToolView| nv.contains(d.provider_name)),
            i <= mv.len(),
            tool_views(kept@) == mv.take(i as int).filter(pred),
        decreases entries.len() - i,
    {
        assert(mv.take(i + 1).drop_last() =~= mv.take(i as int));
        assert(mv.take(i + 1).last() == entries@[i as int].view());
        proof {
            reveal(Seq::filter);
        }
        assert(nv =~= crate::text::views(names@));
        let d = &entries[i];
        if crate::text::contains_str(names, d.provider_name.as_str()) {
            let ghost before = kept@;
            kept.push(crate::text::share(d));
            assert(tool_views(kept@) =~= tool_views(before).push(d.view()));
        }
        i = i + 1;
    }
    assert(mv.take(mv.len() as int) =~= mv);
    proof {
        crate::tools::lemma_filter_tools_sorted(mv, pred);
    }
    ToolMap::from_sorted(kept)
}

impl McpRegistry {
    /// The registry narrowed to the servers and tools a run policy allows;
    /// `None` admits everything and `Some(empty)` nothing.
    pub fn filtered(&self, allowed_servers: Option<&Vec<String>>, allowed_tools: Option<&Vec<String>>) -> (r: McpRegistry)
        ensures
            r.view() == narrowed(self.view(), allow_list(allowed_servers), allow_list(allowed_tools)),
    {
        proof {
            use_type_invariant(self);
        }
        let ghost v = self.view();
        let servers = strings_allowed(&self.servers, allowed_servers);
        let index = index_allowed(&self.index, allowed_servers, allowed_tools);
        let native = strings_allowed(&self.native, allowed_tools);
        let tools = tools_still_backed(&self.tools, allowed_tools, &native, &index);
        let descriptors = descriptors_named_in(&self.descriptors, &tools);
        proof {
            lemma_distinct_names_filter(v.servers, |x: Seq<char>| allows(allow_list(allowed_servers), x));
            lemma_distinct_names_filter(v.native, |x: Seq<char>| allows(allow_list(allowed_tools), x));
            lemma_entries_distinct_filter(
                v.index,
                |e: EntryView| allows(allow_list(allowed_servers), e.server) && allows(allow_list(allowed_tools), e.name),
            );
        }
        let r = McpRegistry { servers, index, tools, descriptors, native, frozen: self.frozen, closed: self.closed };
        assert(r.view() == narrowed(v, allow_list(allowed_servers), allow_list(allowed_tools)));
        r
    }
}

/// Why the registry refused a change.
pub enum RegistryError {
    /// A frozen connection view cannot be reconfigured or extended.
    FrozenBinding,
    /// The registry is shutting down.
    ShuttingDown,
    /// Distinct tools would share a provider-visible name.
    Collision(ToolCollision),
}

/// The index rows of a server's listed tools, in listing order.
pub open spec fn listed_entries(server: Seq<char>, ts: Seq<DiscoveredToolView>) -> Seq<EntryView> {
    ts.map_values(|t: DiscoveredToolView| EntryView { name: namespaced(server, t.name), server, tool: t.name })
}

/// The descriptors of a server's listed tools, in listing order.
pub open spec fn listed_descriptors(server: Seq<char>, ts: Seq<DiscoveredToolView>) -> Seq<ToolView> {
    ts.map_values(|t: DiscoveredToolView| mcp_tool_view(server, namespaced(server, t.name), t))
}

/// Put one entry into an index: it replaces the entry of its name, or
/// comes last.
pub open spec fn put_entry(s: Seq<EntryView>, e: EntryView) -> Seq<EntryView> {
    if exists|k: int| 0 <= k < s.len() && #[trigger] s[k].name == e.name {
        let k = choose|k: int| 0 <= k < s.len() && #[trigger] s[k].name == e.name;
        s.update(k, e)
    } else {
        s.push(e)
    }
}

/// Put entries into an index in order; a later entry of a name wins.
pub open spec fn put_entries(s: Seq<EntryView>, es: Seq<EntryView>) -> Seq<EntryView>
    decreases es.len(),
{
    if es.len() == 0 {
        s
    } else {
        put_entry(put_entries(s, es.drop_last()), es.last())
    }
}

/// Add descriptors in order to a name-keyed collection: an identical repeat
/// is a no-op, and the first different one under a held name is refused.
pub open spec fn add_descriptors(base: Seq<ToolView>, ds: Seq<ToolView>) -> Result<Seq<ToolView>, Seq<char>>
    decreases ds.len(),
{
    if ds.len() == 0 {
        Ok(base)
    } else {
        match add_descriptors(base, ds.drop_last()) {
            Err(n) => Err(n),
            Ok(acc) => {
                let d = ds.last();
                match tool_named(acc, d.provider_name) {
                    Some(e) => if e == d {
                        Ok(acc)
                    } else {
                        Err(d.provider_name)
                    },
                    None => Ok(acc.push(d)),
                }
            },
        }
    }
}

proof fn lemma_add_descriptors_fails_on(base: Seq<ToolView>, ds: Seq<ToolView>, n: int)
    requires
        0 <= n <= ds.len(),
        add_descriptors(base, ds.take(n)) is Err,
    ensures
        add_descriptors(base, ds) == add_descriptors(base, ds.take(n)),
    decreases ds.len() - n,
{
    if n < ds.len() {
        assert(ds.take(n + 1).drop_last() =~= ds.take(n));
        lemma_add_descriptors_fails_on(base, ds, n + 1);
    } else {
        assert(ds.take(n) =~= ds);
    }
}

/// Putting an entry keeps names distinct.
proof fn lemma_put_entry(s: Seq<EntryView>, e: EntryView, k: int)
    requires
        entry_names_distinct(s),
        k == -1 ==> forall|j: int| 0 <= j < s.len() ==> #[trigger] s[j].name != e.name,
        k != -1 ==> 0 <= k < s.len() && s[k].name == e.name,
    ensures
        put_entry(s, e) == (if k == -1 { s.push(e) } else { s.update(k, e) }),
        entry_names_distinct(put_entry(s, e)),
{
    if k != -1 {
        assert(exists|j: int| 0 <= j < s.len() && #[trigger] s[j].name == e.name);
        let c = choose|j: int| 0 <= j < s.len() && #[trigger] s[j].name == e.name;
        if c != k {
            if c < k {
                assert(s[c].name != s[k].name);
            } else {
                assert(s[k].name != s[c].name);
            }
        }
        let t = s.update(k, e);
        assert forall|a: int, b: int| 0 <= a < b < t.len() implies #[trigger] t[a].name != #[trigger] t[b].name by {
            if a != k && b != k {
                assert(t[a] == s[a] && t[b] == s[b]);
            } else if a == k {
                assert(t[b] == s[b]);
                assert(s[k].name != s[b].name);
            } else {
                assert(t[a] == s[a]);
                assert(s[a].name != s[k].name);
            }
        }
    } else {
        let t = s.push(e);
        assert forall|a: int, b: int| 0 <= a < b < t.len() implies #[trigger] t[a].name != #[trigger] t[b].name by {
            if b == s.len() {
                assert(t[a] == s[a]);
            } else {
                assert(t[a] == s[a] && t[b] == s[b]);
            }
        }
    }
}

/// The registry after a server's listed tools replace what it contributed
/// before; the descriptors are given by `descriptors`.
pub open spec fn with_server_tools(v: RegistryView, name: Seq<char>, ts: Seq<DiscoveredToolView>) -> RegistryView {
    let index = put_entries(v.index.filter(|e: EntryView| e.server != name), listed_entries(name, ts));
    RegistryView {
        servers: if v.servers.contains(name) {
            v.servers
        } else {
            v.servers.push(name)
        },
        index,
        tools: v.tools.filter(
            |t: Seq<char>| v.native.contains(t) || (entry_named(index, t) matches Some(e) && e.server != name),
        ) + listed_entries(name, ts).map_values(|e: EntryView| e.name),
        ..v
    }
}

/// Descriptors with distinct names have one lookup each.
pub open spec fn same_lookup(a: Seq<ToolView>, b: Seq<ToolView>) -> bool {
    forall|n: Seq<char>| #[trigger] tool_named(a, n) == tool_named(b, n)
}

impl McpRegistry {
    /// Install what a (re)connected server listed, replacing the tools it
    /// contributed before. Refused for a frozen view, while shutting down,
    /// and on a descriptor collision, in that order; a refusal changes
    /// nothing.
    pub fn install_server_tools(&mut self, name: &str, tools: &Vec<DiscoveredTool>) -> (r: Result<(), RegistryError>)
        ensures
            ({
                let v = old(self).view();
                let ts = discovered_views(tools@);
                if v.frozen {
                    r matches Err(RegistryError::FrozenBinding) && final(self).view() == v
                } else if v.closed {
                    r matches Err(RegistryError::ShuttingDown) && final(self).view() == v
                } else {
                    match add_descriptors(v.descriptors.filter(|d: ToolView| d.server != Some(name@)), listed_descriptors(name@, ts)) {
                        Err(n) => r matches Err(RegistryError::Collision(c)) && c.provider_name@ == n && final(self).view() == v,
                        Ok(acc) => r is Ok && final(self).view() == (RegistryView {
                            descriptors: final(self).view().descriptors,
                            ..with_server_tools(v, name@, ts)
                        }) && same_lookup(final(self).view().descriptors, acc),
                    }
                }
            }),
    {
        proof {
            use_type_invariant(&*self);
        }
        if self.frozen {
            return Err(RegistryError::FrozenBinding);
        }
        if self.closed {
            return Err(RegistryError::ShuttingDown);
        }
        let ghost v = self.view();
        let ghost ts = discovered_views(tools@);
        let ghost lds = listed_descriptors(name@, ts);
        let ghost les = listed_entries(name@, ts);
        let ghost base = v.descriptors.filter(|d: ToolView| d.server != Some(name@));
        let mut descriptors = descriptors_without_server(&self.descriptors, name);
        let mut names: Vec<String> = Vec::new();
        let mut i: usize = 0;
        assert(lds.take(0) =~= Seq::<ToolView>::empty());
        while i < tools.len()
            invariant
                ts == discovered_views(tools@),
                lds == listed_descriptors(name@, ts),
                les == listed_entries(name@, ts),
                v == self.view(),
                v == old(self).view(),
                !v.frozen && !v.closed,
                base == v.descriptors.filter(|d: ToolView| d.server != Some(name@)),
                i <= ts.len(),
                add_descriptors(base, lds.take(i as int)) matches Ok(acc) && same_lookup(descriptors.view(), acc),
                string_views(names@) == les.map_values(|e: EntryView| e.name).take(i as int),
            decreases tools.len() - i,
        {
            let ghost acc = add_descriptors(base, lds.take(i as int))->Ok_0;
            assert(lds.take(i + 1).drop_last() =~= lds.take(i as int));
            let t = &tools[i];
            let ns = namespaced_tool_name(name, t.name.as_str());
            let d = mcp_descriptor(name, ns.as_str(), t);
            assert(lds.take(i + 1).last() == d.view());
            let ghost before = descriptors.view();
            assert(tool_named(before, ns@) == tool_named(acc, ns@));
            match insert_descriptor(&mut descriptors, d) {
                Ok(()) => {},
                Err(c) => {
                    proof {
                        assert(add_descriptors(base, lds.take(i + 1)) == Err::<Seq<ToolView>, Seq<char>>(ns@));
                        lemma_add_descriptors_fails_on(base, lds, i + 1);
                    }
                    return Err(RegistryError::Collision(c));
                },
            }
            let ghost bn = names@;
            let ghost nsv = ns@;
            assert(les[i as int].name == nsv);
            names.push(ns);
            proof {
                assert(string_views(names@) =~= string_views(bn).push(nsv));
                assert(les.map_values(|e: EntryView| e.name).take(i + 1) =~= les.map_values(|e: EntryView| e.name).take(i as int).push(nsv));
                assert(string_views(names@) =~= les.map_values(|e: EntryView| e.name).take(i + 1));
                if tool_named(acc, d.view().provider_name) is None {
                    assert forall|n: Seq<char>| #[trigger] tool_named(descriptors.view(), n) == tool_named(acc.push(d.view()), n) by {
                        assert(acc.push(d.view()).drop_last() =~= acc);
                    }
                }
            }
            i = i + 1;
        }
        assert(lds.take(lds.len() as int) =~= lds);
        assert(les.map_values(|e: EntryView| e.name).take(ts.len() as int) =~= les.map_values(|e: EntryView| e.name));
        assert(names@.len() == string_views(names@).len());
        let (mut index, _) = split_index(&self.index, name);
        proof {
            lemma_entries_distinct_filter(v.index, |e: EntryView| e.server != name@);
        }
        let ghost ibase = v.index.filter(|e: EntryView| e.server != name@);
        let mut j: usize = 0;
        while j < tools.len()
            invariant
                ts == discovered_views(tools@),
                les == listed_entries(name@, ts),
                string_views(names@) == les.map_values(|e: EntryView| e.name),
                names@.len() == ts.len(),
                j <= ts.len(),
                entry_views(index@) == put_entries(ibase, les.take(j as int)),
                entry_names_distinct(entry_views(index@)),
            decreases tools.len() - j,
        {
            assert(les.take(j + 1).drop_last() =~= les.take(j as int));
            let ghost e = les[j as int];
            assert(les.take(j + 1).last() == e);
            assert(string_views(names@)[j as int] == les.map_values(|e: EntryView| e.name)[j as int]);
            assert(names@[j as int]@ == e.name);
            let entry = IndexEntry { name: owned(names[j].as_str()), server: owned(name), tool: owned(tools[j].name.as_str()) };
            assert(entry.view() == e);
            let ghost before = entry_views(index@);
            match find_entry(&index, names[j].as_str()) {
                Some(k) => {
                    proof {
                        lemma_put_entry(before, e, k as int);
                    }
                    index.set(k, entry);
                    assert(entry_views(index@) =~= before.update(k as int, e));
                },
                None => {
                    proof {
                        lemma_put_entry(before, e, -1);
                    }
                    index.push(entry);
                    assert(entry_views(index@) =~= before.push(e));
                },
            }
            j = j + 1;
        }
        assert(les.take(les.len() as int) =~= les);
        let ghost nindex = entry_views(index@);
        let mut kept = tools_kept_after_install(&self.tools, &self.native, &index, name);
        let mut m: usize = 0;
        let ghost kbase = string_views(kept@);
        while m < names.len()
            invariant
                m <= names@.len(),
                string_views(kept@) == kbase + string_views(names@).take(m as int),
            decreases names.len() - m,
        {
            let ghost kb = kept@;
            kept.push(owned(names[m].as_str()));
            assert(string_views(kept@) =~= string_views(kb).push(names@[m as int]@));
            assert(string_views(kept@) =~= kbase + string_views(names@).take(m + 1));
            m = m + 1;
        }
        assert(string_views(names@).take(names@.len() as int) =~= string_views(names@));
        assert(crate::text::views(self.servers@) =~= string_views(self.servers@));
        if !crate::text::contains_str(&self.servers, name) {
            let ghost sb = string_views(self.servers@);
            let mut servers = crate::text::copy_strings(&self.servers);
            servers.push(owned(name));
            assert(string_views(servers@) =~= sb.push(name@));
            assert(distinct_names(sb.push(name@))) by {
                assert forall|a: int, b: int| 0 <= a < b < sb.push(name@).len() implies #[trigger] sb.push(name@)[a] != #[trigger] sb.push(name@)[b] by {
                    if b == sb.len() {
                        assert(sb.push(name@)[a] == sb[a]);
                    }
                }
            }
            self.servers = servers;
        }
        self.index = index;
        self.tools = kept;
        self.descriptors = descriptors;
        Ok(())
    }
}

/// The advertised tools that survive a server's reinstallation: in-process
/// tools, and tools the new index attributes to another server.
fn tools_kept_after_install(tools: &Vec<String>, native: &Vec<String>, index: &Vec<IndexEntry>, server: &str) -> (r: Vec<String>)
    requires
        entry_names_distinct(entry_views(index@)),
    ensures
        string_views(r@) == string_views(tools@).filter(
            |t: Seq<char>| string_views(native@).contains(t) || (entry_named(entry_views(index@), t) matches Some(e) && e.server != server@),
        ),
{
    let ghost sv = string_views(tools@);
    let ghost nv = string_views(native@);
    let ghost iv = entry_views(index@);
    let ghost pred = |t: Seq<char>| nv.contains(t) || (entry_named(iv, t) matches Some(e) && e.server != server@);
    let mut r: Vec<String> = Vec::new();
    let mut i: usize = 0;
    while i < tools.len()
        invariant
            sv == string_views(tools@),
            nv == string_views(native@),
            iv == entry_views(index@),
            pred == (|t: Seq<char>| nv.contains(t) || (entry_named(iv, t) matches Some(e) && e.server != server@)),
            entry_names_distinct(iv),
            i <= sv.len(),
            string_views(r@) == sv.take(i as int).filter(pred),
        decreases tools.len() - i,
    {
        assert(sv.take(i + 1).drop_last() =~= sv.take(i as int));
        assert(sv.take(i + 1).last() == tools@[i as int]@);
        proof {
            reveal(Seq::filter);
            lemma_entry_named(iv, tools@[i as int]@);
        }
        assert(nv =~= crate::text::views(native@));
        let t = tools[i].as_str();
        let in_native = crate::text::contains_str(native, t);
        let other = match find_entry(index, t) {
            Some(k) => {
                proof {
                    assert(iv[k as int].name == t@);
                    assert(entry_named(iv, t@) == Some(iv[k as int]));
                }
                !str_eq(index[k].server.as_str(), server)
            },
            None => false,
        };
        proof {
            if let Some(e) = entry_named(iv, t@) {
                let k = choose|k: int| 0 <= k < iv.len() && iv[k] == e;
                assert(iv[k].name == t@);
            }
        }
        if in_native || other {
            let ghost before = r@;
            r.push(owned(t));
            assert(string_views(r@) =~= string_views(before).push(tools@[i as int]@));
        }
        i = i + 1;
    }
    assert(sv.take(sv.len() as int) =~= sv);
    r
}

/// Strictly increasing names.
pub open spec fn names_ascending(v: Seq<Seq<char>>) -> bool {
    forall|a: int, b: int| 0 <= a < b < v.len() ==> chars_lt(#[trigger] v[a], #[trigger] v[b])
}

proof fn lemma_insert_name(ev: Seq<Seq<char>>, p: int, x: Seq<char>)
    requires
        0 <= p <= ev.len(),
        names_ascending(ev),
        forall|a: int| 0 <= a < p ==> chars_lt(#[trigger] ev[a], x),
        p < ev.len() ==> chars_lt(x, ev[p]),
    ensures
        names_ascending(ev.insert(p, x)),
        ev.insert(p, x).to_set() == ev.to_set().insert(x),
{
    let ev2 = ev.insert(p, x);
    assert forall|a: int, b: int| 0 <= a < b < ev2.len() implies chars_lt(#[trigger] ev2[a], #[trigger] ev2[b]) by {
        if b < p {
            assert(ev2[a] == ev[a] && ev2[b] == ev[b]);
        } else if b == p {
            assert(ev2[a] == ev[a]);
        } else if a < p {
            assert(ev2[a] == ev[a]);
            assert(ev2[b] == ev[b - 1]);
            if b - 1 > p {
                lemma_chars_lt_transitive(x, ev[p], ev[b - 1]);
            }
            lemma_chars_lt_transitive(ev[a], x, ev[b - 1]);
        } else if a == p {
            assert(ev2[b] == ev[b - 1]);
            if b - 1 > p {
                lemma_chars_lt_transitive(x, ev[p], ev[b - 1]);
            }
        } else {
            assert(ev2[a] == ev[a - 1]);
            assert(ev2[b] == ev[b - 1]);
        }
    }
    assert forall|y: Seq<char>| ev2.to_set().contains(y) <==> ev.to_set().insert(x).contains(y) by {
        if ev2.contains(y) {
            let k = choose|k: int| 0 <= k < ev2.len() && ev2[k] == y;
            if k < p {
                assert(ev[k] == y);
            } else if k > p {
                assert(ev[k - 1] == y);
            }
        }
        if ev.contains(y) {
            let k = choose|k: int| 0 <= k < ev.len() && ev[k] == y;
            if k < p {
                assert(ev2[k] == y);
            } else {
                assert(ev2[k + 1] == y);
            }
        }
        if y == x {
            assert(ev2[p] == y);
        }
    }
    assert(ev2.to_set() =~= ev.to_set().insert(x));
}

/// Add a name to a strictly increasing list of names, unless it is there.
fn insert_name_sorted(v: &mut Vec<String>, x: &str)
    requires
        names_ascending(string_views(old(v)@)),
    ensures
        names_ascending(string_views(final(v)@)),
        string_views(final(v)@).to_set() == string_views(old(v)@).to_set().insert(x@),
{
    let ghost ev = string_views(v@);
    let mut p: usize = 0;
    let mut done = false;
    while !done && p < v.len()
        invariant
            ev == string_views(v@),
            p <= ev.len(),
            forall|a: int| 0 <= a < p ==> chars_lt(#[trigger] ev[a], x@),
            done ==> p < ev.len() && !chars_lt(ev[p as int], x@),
        decreases (v.len() - p) * 2 + (if done { 0usize } else { 1usize }),
    {
        if str_less(v[p].as_str(), x) {
            p = p + 1;
        } else {
            done = true;
        }
    }
    if p < v.len() && str_eq(v[p].as_str(), x) {
        assert(ev.to_set().contains(x@)) by {
            assert(ev[p as int] == x@);
        }
        assert(ev.to_set().insert(x@) =~= ev.to_set());
        return;
    }
    proof {
        if p < ev.len() {
            lemma_chars_lt_total(ev[p as int], x@);
        }
        lemma_insert_name(ev, p as int, x@);
    }
    v.insert(p, owned(x));
    assert(string_views(v@) =~= ev.insert(p as int, x@));
}

/// Strings of `v` followed by those of `w` that `v` lacks.
fn strings_union(v: &Vec<String>, w: &Vec<String>) -> (r: Vec<String>)
    requires
        distinct_names(string_views(v@)),
        distinct_names(string_views(w@)),
    ensures
        string_views(r@) == string_views(v@) + string_views(w@).filter(|x: Seq<char>| !string_views(v@).contains(x)),
        distinct_names(string_views(r@)),
{
    let ghost a = string_views(v@);
    let ghost b = string_views(w@);
    let ghost pred = |x: Seq<char>| !a.contains(x);
    let mut r = crate::text::copy_strings(v);
    assert(string_views(r@) =~= a);
    let mut i: usize = 0;
    assert(b.take(0).filter(pred) =~= Seq::<Seq<char>>::empty()) by {
        reveal(Seq::filter);
    }
    assert(a + b.take(0).filter(pred) =~= a);
    while i < w.len()
        invariant
            a == string_views(v@),
            b == string_views(w@),
            pred == (|x: Seq<char>| !a.contains(x)),
            i <= b.len(),
            string_views(r@) == a + b.take(i as int).filter(pred),
        decreases w.len() - i,
    {
        assert(b.take(i + 1).drop_last() =~= b.take(i as int));
        assert(b.take(i + 1).last() == w@[i as int]@);
        proof {
            reveal(Seq::filter);
        }
        assert(a =~= crate::text::views(v@));
        if !crate::text::contains_str(v, w[i].as_str()) {
            let ghost before = r@;
            r.push(owned(w[i].as_str()));
            assert(string_views(r@) =~= string_views(before).push(w@[i as int]@));
            assert(a + b.take(i + 1).filter(pred) =~= (a + b.take(i as int).filter(pred)).push(w@[i as int]@));
        }
        i = i + 1;
    }
    assert(b.take(b.len() as int) =~= b);
    proof {
        lemma_distinct_names_filter(b, pred);
        let f = b.filter(pred);
        let u = a + f;
        assert forall|x: int, y: int| 0 <= x < y < u.len() implies #[trigger] u[x] != #[trigger] u[y] by {
            if y < a.len() {
                assert(u[x] == a[x] && u[y] == a[y]);
            } else if x >= a.len() {
                assert(u[x] == f[x - a.len()] && u[y] == f[y - a.len()]);
            } else {
                assert(u[x] == a[x]);
                assert(u[y] == f[y - a.len()]);
                assert(f.contains(f[y - a.len()]));
                assert(a.contains(a[x]));
            }
        }
    }
    r
}

/// Index entries of `v` followed by those of `w` whose names `v` lacks.
fn index_union(v: &Vec<IndexEntry>, w: &Vec<IndexEntry>) -> (r: Vec<IndexEntry>)
    requires
        entry_names_distinct(entry_views(v@)),
        entry_names_distinct(entry_views(w@)),
    ensures
        entry_views(r@) == entry_views(v@) + entry_views(w@).filter(|e: EntryView| entry_named(entry_views(v@), e.name) is None),
        entry_names_distinct(entry_views(r@)),
{
    let ghost a = entry_views(v@);
    let ghost b = entry_views(w@);
    let ghost pred = |e: EntryView| entry_named(a, e.name) is None;
    let mut r: Vec<IndexEntry> = Vec::new();
    let mut j: usize = 0;
    while j < v.len()
        invariant
            a == entry_views(v@),
            j <= a.len(),
            entry_views(r@) == a.take(j as int),
        decreases v.len() - j,
    {
        let e = &v[j];
        let ghost before = r@;
        r.push(IndexEntry { name: owned(e.name.as_str()), server: owned(e.server.as_str()), tool: owned(e.tool.as_str()) });
        assert(entry_views(r@) =~= entry_views(before).push(e.view()));
        assert(entry_views(r@) =~= a.take(j + 1));
        j = j + 1;
    }
    assert(a.take(a.len() as int) =~= a);
    let mut i: usize = 0;
    assert(b.take(0).filter(pred) =~= Seq::<EntryView>::empty()) by {
        reveal(Seq::filter);
    }
    assert(a + b.take(0).filter(pred) =~= a);
    while i < w.len()
        invariant
            a == entry_views(v@),
            b == entry_views(w@),
            pred == (|e: EntryView| entry_named(a, e.name) is None),
            i <= b.len(),
            entry_views(r@) == a + b.take(i as int).filter(pred),
        decreases w.len() - i,
    {
        assert(b.take(i + 1).drop_last() =~= b.take(i as int));
        assert(b.take(i + 1).last() == w@[i as int].view());
        proof {
            reveal(Seq::filter);
            lemma_entry_named(a, w@[i as int].name@);
        }
        let e = &w[i];
        let found = find_entry(v, e.name.as_str());
        proof {
            if let Some(k) = found {
                assert(a[k as int].name == e.name@);
            }
        }
        if found.is_none() {
            let ghost before = r@;
            r.push(IndexEntry { name: owned(e.name.as_str()), server: owned(e.server.as_str()), tool: owned(e.tool.as_str()) });
            assert(entry_views(r@) =~= entry_views(before).push(e.view()));
            assert(a + b.take(i + 1).filter(pred) =~= (a + b.take(i as int).filter(pred)).push(e.view()));
        }
        i = i + 1;
    }
    assert(b.take(b.len() as int) =~= b);
    proof {
        lemma_entries_distinct_filter(b, pred);
        let f = b.filter(pred);
        let u = a + f;
        assert forall|x: int, y: int| 0 <= x < y < u.len() implies #[trigger] u[x].name != #[trigger] u[y].name by {
            if y < a.len() {
                assert(u[x] == a[x] && u[y] == a[y]);
            } else if x >= a.len() {
                assert(u[x] == f[x - a.len()] && u[y] == f[y - a.len()]);
            } else {
                assert(u[x] == a[x]);
                assert(u[y] == f[y - a.len()]);
                assert(f.contains(f[y - a.len()]));
                lemma_entry_named(a, f[y - a.len()].name);
            }
        }
    }
    r
}

/// What merging two unfrozen registries gives, apart from the descriptors
/// and the tool list, which are stated as sets in sorted order.
pub open spec fn merged(v: RegistryView, w: RegistryView, tools: Seq<Seq<char>>, descriptors: Seq<ToolView>) -> RegistryView {
    RegistryView {
        servers: v.servers + w.servers.filter(|x: Seq<char>| !v.servers.contains(x)),
        index: v.index + w.index.filter(|e: EntryView| entry_named(v.index, e.name) is None),
        tools,
        descriptors,
        native: v.native + w.native.filter(|x: Seq<char>| !v.native.contains(x)),
        frozen: false,
        closed: v.closed || w.closed,
    }
}

impl McpRegistry {
    /// Combine this registry with another, as global tools are combined with
    /// a skill's. The first registry's entries win where both name one;
    /// descriptors must agree; frozen views cannot be combined.
    pub fn merge(&self, other: &McpRegistry) -> (r: Result<McpRegistry, McpMergeError>)
        ensures
            ({
                let v = self.view();
                let w = other.view();
                match r {
                    Ok(m) => !v.frozen && !w.frozen
                        && (forall|k: int| 0 <= k < w.descriptors.len() ==> !conflicts(v.descriptors, #[trigger] w.descriptors[k]))
                        && m.view() == merged(v, w, m.view().tools, m.view().descriptors)
                        && names_ascending(m.view().tools)
                        && m.view().tools.to_set() == v.tools.to_set().union(w.tools.to_set())
                        && tools_sorted(m.view().descriptors)
                        && m.view().descriptors.to_set() == v.descriptors.to_set().union(w.descriptors.to_set()),
                    Err(McpMergeError::FrozenBinding) => v.frozen || w.frozen,
                    Err(McpMergeError::Collision(c)) => !v.frozen && !w.frozen && exists|k: int| 0 <= k < w.descriptors.len()
                        && conflicts(v.descriptors, #[trigger] w.descriptors[k]) && c.provider_name@ == w.descriptors[k].provider_name
                        && forall|j: int| 0 <= j < k ==> !conflicts(v.descriptors, #[trigger] w.descriptors[j]),
                }
            }),
    {
        proof {
            use_type_invariant(self);
            use_type_invariant(other);
        }
        let ghost dv = self.descriptors.view();
        let ghost dw = other.descriptors.view();
        assert(dv == self.view().descriptors && dw == other.view().descriptors);
        let descriptors = match merge_descriptors(self.frozen, other.frozen, &self.descriptors, &other.descriptors) {
            Ok(m) => m,
            Err(e) => {
                proof {
                    match &e {
                        McpMergeError::FrozenBinding => {},
                        McpMergeError::Collision(c) => {
                            let k = choose|k: int| 0 <= k < dw.len() && conflicts(dv, #[trigger] dw[k]) && c.provider_name@ == dw[k].provider_name
                                && forall|j: int| 0 <= j < k ==> !conflicts(dv, #[trigger] dw[j]);
                            assert(conflicts(dv, dw[k]));
                        },
                    }
                }
                return Err(e);
            },
        };
        let servers = strings_union(&self.servers, &other.servers);
        let index = index_union(&self.index, &other.index);
        let native = strings_union(&self.native, &other.native);
        let mut tools: Vec<String> = Vec::new();
        let ghost a = string_views(self.tools@);
        let ghost b = string_views(other.tools@);
        assert(string_views(tools@).to_set() =~= a.take(0).to_set());
        let mut i: usize = 0;
        while i < self.tools.len()
            invariant
                a == string_views(self.tools@),
                i <= a.len(),
                names_ascending(string_views(tools@)),
                string_views(tools@).to_set() == a.take(i as int).to_set(),
            decreases self.tools.len() - i,
        {
            insert_name_sorted(&mut tools, self.tools[i].as_str());
            proof {
                assert(a.take(i + 1) =~= a.take(i as int).push(a[i as int]));
                crate::mcp::projection::lemma_push_to_set(a.take(i as int), a[i as int]);
            }
            i = i + 1;
        }
        assert(a.take(a.len() as int) =~= a);
        let mut j: usize = 0;
        assert(a.to_set().union(b.take(0).to_set()) =~= a.to_set());
        while j < other.tools.len()
            invariant
                a == string_views(self.tools@),
                b == string_views(other.tools@),
                j <= b.len(),
                names_ascending(string_views(tools@)),
                string_views(tools@).to_set() == a.to_set().union(b.take(j as int).to_set()),
            decreases other.tools.len() - j,
        {
            insert_name_sorted(&mut tools, other.tools[j].as_str());
            proof {
                assert(b.take(j + 1) =~= b.take(j as int).push(b[j as int]));
                crate::mcp::projection::lemma_push_to_set(b.take(j as int), b[j as int]);
                assert(a.to_set().union(b.take(j + 1).to_set()) =~= a.to_set().union(b.take(j as int).to_set()).insert(b[j as int]));
            }
            j = j + 1;
        }
        assert(b.take(b.len() as int) =~= b);
        let m = McpRegistry { servers, index, tools, descriptors, native, frozen: false, closed: self.closed || other.closed };
        Ok(m)
    }
}

/// What the registry reads of an in-process tool.
pub struct NativeToolInfo {
    pub name: String,
    pub description: String,
    pub effect: ToolEffect,
    pub exposure: Exposure,
    /// Schema, approval class, sandbox and concurrency requirements and
    /// output limit, as canonical text.
    pub fingerprint: String,
}

pub struct NativeToolView {
    pub name: Seq<char>,
    pub description: Seq<char>,
    pub effect: ToolEffect,
    pub exposure: Exposure,
    pub fingerprint: Seq<char>,
}

impl NativeToolInfo {
    pub open spec fn view(&self) -> NativeToolView {
        NativeToolView {
            name: self.name@,
            description: self.description@,
            effect: self.effect,
            exposure: self.exposure,
            fingerprint: self.fingerprint@,
        }
    }
}

/// The namespaced name of an in-process tool.
pub open spec fn native_name(name: Seq<char>) -> Seq<char> {
    sanitized("native__"@ + name)
}

/// The descriptor of an in-process tool under its provider name.
pub open spec fn native_tool_view(provider_name: Seq<char>, t: NativeToolView) -> ToolView {
    ToolView {
        provider_name,
        id: t.name,
        server: None,
        description: t.description,
        exposure: t.exposure,
        source: ToolSource::Native,
        effect: t.effect,
        fingerprint: t.fingerprint,
    }
}

/// Build the descriptor of an in-process tool under its provider name.
pub fn native_tool_descriptor(provider_name: &str, tool: &NativeToolInfo) -> (r: Arc<ToolDescriptor>)
    ensures
        r.view() == native_tool_view(provider_name@, tool.view()),
{
    Arc::new(ToolDescriptor {
        provider_name: owned(provider_name),
        id: owned(tool.name.as_str()),
        server: None,
        description: owned(tool.description.as_str()),
        exposure: tool.exposure,
        source: ToolSource::Native,
        effect: tool.effect,
        fingerprint: owned(tool.fingerprint.as_str()),
    })
}

/// Why a tool could not be added.
pub enum ToolAssemblyError {
    /// Distinct tools would share a provider-visible name.
    Collision(ToolCollision),
    /// A frozen connection view cannot gain tools.
    FrozenBinding,
}

/// The input schema of the registry's test tool: one required string.
pub const TEST_TOOL_SCHEMA: &'static str = "{\"properties\":{\"mirror\":{\"type\":\"string\"}},\"required\":[\"mirror\"],\"type\":\"object\"}";

impl McpRegistry {
    fn copy_descriptors(&self) -> (r: ToolMap)
        ensures
            r.view() == self.view().descriptors,
    {
        let e = self.descriptors.entries();
        ToolMap::from_sorted(crate::text::share_all(e))
    }

    /// Add an in-process tool under `native__<name>`, sanitized. A frozen
    /// view refuses, and so does a different descriptor under that name.
    pub fn with_native_tool(self, tool: &NativeToolInfo) -> (r: Result<McpRegistry, ToolAssemblyError>)
        ensures
            ({
                let v = self.view();
                let ns = native_name(tool.view().name);
                let d = native_tool_view(ns, tool.view());
                if v.frozen {
                    r matches Err(ToolAssemblyError::FrozenBinding)
                } else if tool_named(v.descriptors, ns) matches Some(e) && e != d {
                    r matches Err(ToolAssemblyError::Collision(c)) && c.provider_name@ == ns
                } else {
                    r matches Ok(m) && m.view() == (RegistryView {
                        tools: v.tools.push(ns),
                        descriptors: m.view().descriptors,
                        native: if v.native.contains(ns) {
                            v.native
                        } else {
                            v.native.push(ns)
                        },
                        ..v
                    }) && forall|n: Seq<char>| #[trigger] tool_named(m.view().descriptors, n) == if n == ns {
                        Some(d)
                    } else {
                        tool_named(v.descriptors, n)
                    }
                }
            }),
    {
        proof {
            use_type_invariant(&self);
        }
        if self.frozen {
            return Err(ToolAssemblyError::FrozenBinding);
        }
        let ghost v = self.view();
        let full = concat("native__", tool.name.as_str());
        proof {
            reveal_strlit("native__");
        }
        let ns = sanitize_tool_name(full.as_str());
        let d = native_tool_descriptor(ns.as_str(), tool);
        let mut descriptors = self.copy_descriptors();
        match insert_descriptor(&mut descriptors, d) {
            Ok(()) => {},
            Err(c) => return Err(ToolAssemblyError::Collision(c)),
        }
        proof {
            if let Some(e) = tool_named(v.descriptors, ns@) {
                lemma_tool_named(v.descriptors, ns@);
                lemma_tool_named(descriptors.view(), ns@);
            }
        }
        let McpRegistry { servers, index, mut tools, descriptors: _, mut native, frozen, closed } = self;
        let ghost tb = tools@;
        tools.push(owned(ns.as_str()));
        assert(string_views(tools@) =~= string_views(tb).push(ns@));
        assert(crate::text::views(native@) =~= string_views(native@));
        if !crate::text::contains_str(&native, ns.as_str()) {
            let ghost nb = string_views(native@);
            native.push(ns);
            assert(string_views(native@) =~= nb.push(ns@));
            assert(distinct_names(nb.push(ns@))) by {
                assert forall|a: int, b: int| 0 <= a < b < nb.push(ns@).len() implies #[trigger] nb.push(ns@)[a] != #[trigger] nb.push(ns@)[b] by {
                    if b == nb.len() {
                        assert(nb.push(ns@)[a] == nb[a]);
                    }
                }
            }
        }
        Ok(McpRegistry { servers, index, tools, descriptors, native, frozen, closed })
    }

    /// A registry holding one test tool under `server`, with the given
    /// read-only annotation.
    pub fn new_with_test_tool_for_server(server: &str, name: &str, description: &str, read_only_hint: Option<bool>) -> (r: McpRegistry)
        ensures
            r.view() == test_registry(server@, name@, description@, read_only_hint),
    {
        let ns = namespaced_tool_name(server, name);
        let tool = DiscoveredTool {
            name: owned(name),
            description: Some(owned(description)),
            read_only_hint,
            schema: owned(TEST_TOOL_SCHEMA),
        };
        let d = mcp_descriptor(server, ns.as_str(), &tool);
        let mut descriptors = ToolMap::new();
        descriptors.insert(d);
        proof {
            lemma_tool_named(descriptors.view(), ns@);
        }
        let mut index: Vec<IndexEntry> = Vec::new();
        index.push(IndexEntry { name: owned(ns.as_str()), server: owned(server), tool: owned(name) });
        let mut tools: Vec<String> = Vec::new();
        tools.push(ns);
        let r = McpRegistry { servers: Vec::new(), index, tools, descriptors, native: Vec::new(), frozen: false, closed: false };
        assert(string_views(r.servers@) =~= Seq::<Seq<char>>::empty());
        assert(string_views(r.native@) =~= Seq::<Seq<char>>::empty());
        assert(string_views(r.tools@) =~= seq![r.tools@[0]@]);
        assert(entry_views(r.index@) =~= seq![r.index@[0].view()]);
        assert(r.view().descriptors.len() == 1);
        assert(r.view().descriptors.to_set().contains(d.view()));
        assert(r.view().descriptors[0] == d.view()) by {
            assert(r.view().descriptors.contains(d.view()));
        }
        assert(r.view().descriptors =~= seq![d.view()]);
        r
    }

    /// A registry holding one test tool under the server `test`.
    pub fn new_with_test_tool(name: &str, description: &str) -> (r: McpRegistry)
        ensures
            r.view() == test_registry("test"@, name@, description@, None),
    {
        McpRegistry::new_with_test_tool_for_server("test", name, description, None)
    }

    /// A registry holding one annotated test tool under the server `test`.
    pub fn new_with_test_tool_annotations(name: &str, description: &str, read_only_hint: Option<bool>) -> (r: McpRegistry)
        ensures
            r.view() == test_registry("test"@, name@, description@, read_only_hint),
            r.view().descriptors.len() == 1,
            r.view().descriptors[0].effect == if read_only_hint == Some(true) {
                ToolEffect::ReadOnly
            } else {
                ToolEffect::Unknown
            },
    {
        McpRegistry::new_with_test_tool_for_server("test", name, description, read_only_hint)
    }
}

/// An open registry, without registered servers or in-process tools, that
/// holds one test tool under `server`: its index entry, its advertised name
/// and its descriptor.
pub open spec fn test_registry(server: Seq<char>, name: Seq<char>, description: Seq<char>, read_only_hint: Option<bool>) -> RegistryView {
    let ns = namespaced(server, name);
    let t = DiscoveredToolView { name, description: Some(description), read_only_hint, schema: TEST_TOOL_SCHEMA@ };
    RegistryView {
        servers: Seq::empty(),
        index: seq![EntryView { name: ns, server, tool: name }],
        tools: seq![ns],
        descriptors: seq![mcp_tool_view(server, ns, t)],
        native: Seq::empty(),
        frozen: false,
        closed: false,
    }
}

/// Why a frozen connection view could not be taken.
pub enum FreezeError {
    /// The registry is shutting down, or the frozen view is closed.
    Closed,
    /// A selected tool belongs to a server without a live binding.
    UnboundTool,
    /// A selected tool is no longer listed by its server.
    ToolDisappeared,
    /// A selected tool's descriptor changed while binding.
    DescriptorChanged,
}

/// Every indexed tool belongs to a registered server.
pub open spec fn all_bound(v: RegistryView) -> bool {
    forall|k: int| 0 <= k < v.index.len() ==> v.servers.contains(#[trigger] v.index[k].server)
}

/// The first listed tool with a raw name.
pub open spec fn listed_named(ts: Seq<DiscoveredToolView>, raw: Seq<char>) -> Option<DiscoveredToolView>
    decreases ts.len(),
{
    if ts.len() == 0 {
        None
    } else if ts[0].name == raw {
        Some(ts[0])
    } else {
        listed_named(ts.drop_first(), raw)
    }
}

impl McpRegistry {
    /// Take a frozen connection view of this registry: the exact servers and
    /// tools it holds now, which can no longer connect, reconnect, merge or
    /// gain tools. A view of a frozen view is a copy while it is open. The
    /// host then re-lists each server's tools on the captured transports and
    /// checks each selected descriptor with `confirm_descriptor`.
    pub fn freeze_bindings(&self) -> (r: Result<McpRegistry, FreezeError>)
        ensures
            ({
                let v = self.view();
                let f = narrowed(v, None, None);
                if v.closed {
                    r matches Err(FreezeError::Closed)
                } else if v.frozen {
                    r matches Ok(m) && m.view() == f
                } else if !all_bound(f) {
                    r matches Err(FreezeError::UnboundTool)
                } else {
                    r matches Ok(m) && m.view() == (RegistryView { frozen: true, ..f })
                }
            }),
    {
        if self.closed {
            return Err(FreezeError::Closed);
        }
        let frozen = self.filtered(None, None);
        if self.frozen {
            return Ok(frozen);
        }
        proof {
            use_type_invariant(&frozen);
        }
        let ghost f = frozen.view();
        let mut k: usize = 0;
        while k < frozen.index.len()
            invariant
                f == frozen.view(),
                f == narrowed(self.view(), None, None),
                !self.view().closed && !self.view().frozen,
                k <= f.index.len(),
                forall|j: int| 0 <= j < k ==> f.servers.contains(#[trigger] f.index[j].server),
            decreases frozen.index.len() - k,
        {
            assert(crate::text::views(frozen.servers@) =~= f.servers);
            if !crate::text::contains_str(&frozen.servers, frozen.index[k].server.as_str()) {
                assert(f.index[k as int].server == frozen.index@[k as int].server@);
                assert(!f.servers.contains(f.index[k as int].server));
                assert(f == narrowed(self.view(), None, None));
                assert(!all_bound(f));
                return Err(FreezeError::UnboundTool);
            }
            k = k + 1;
        }
        let McpRegistry { servers, index, tools, descriptors, native, frozen: _, closed } = frozen;
        Ok(McpRegistry { servers, index, tools, descriptors, native, frozen: true, closed })
    }
}

/// Check one selected descriptor against what its server lists now: the
/// first tool of its raw name must give the same descriptor.
pub fn confirm_descriptor(descriptor: &ToolDescriptor, server: &str, raw: &str, listed: &Vec<DiscoveredTool>) -> (r: Result<(), FreezeError>)
    ensures
        match listed_named(discovered_views(listed@), raw@) {
            None => r matches Err(FreezeError::ToolDisappeared),
            Some(t) => if mcp_tool_view(server@, descriptor.view().provider_name, t) == descriptor.view() {
                r is Ok
            } else {
                r matches Err(FreezeError::DescriptorChanged)
            },
        },
{
    let ghost ts = discovered_views(listed@);
    let mut i: usize = 0;
    assert(ts.subrange(0, ts.len() as int) =~= ts);
    while i < listed.len()
        invariant
            ts == discovered_views(listed@),
            i <= ts.len(),
            listed_named(ts, raw@) == listed_named(ts.subrange(i as int, ts.len() as int), raw@),
        decreases listed.len() - i,
    {
        let ghost rest = ts.subrange(i as int, ts.len() as int);
        assert(rest[0] == listed@[i as int].view());
        if str_eq(listed[i].name.as_str(), raw) {
            let current = mcp_descriptor(server, descriptor.provider_name.as_str(), &listed[i]);
            if descriptor.equivalent_to(&current) {
                return Ok(());
            } else {
                return Err(FreezeError::DescriptorChanged);
            }
        }
        assert(rest.drop_first() =~= ts.subrange(i + 1, ts.len() as int));
        i = i + 1;
    }
    Err(FreezeError::ToolDisappeared)
}

impl McpRegistry {
    /// Route a namespaced tool call through this registry: a closed frozen
    /// view refuses, then the echo tool, in-process tools, the tool index,
    /// the test server, the server's live service and, for a frozen view,
    /// its captured binding (`has_binding`, which the host holds).
    pub fn route_call(&self, name: &str, has_binding: bool) -> (r: ToolCallRoute)
        ensures
            ({
                let v = self.view();
                r == if v.frozen && v.closed {
                    ToolCallRoute::Closed
                } else if name@ == "mirror"@ && !v.frozen {
                    ToolCallRoute::Echo
                } else if v.native.contains(name@) {
                    ToolCallRoute::Native
                } else if entry_named(v.index, name@) is None {
                    ToolCallRoute::Unknown
                } else if entry_named(v.index, name@)->0.server == "test"@ && !v.frozen {
                    ToolCallRoute::TestTool
                } else if !v.servers.contains(entry_named(v.index, name@)->0.server) {
                    ToolCallRoute::MissingHandle
                } else if v.frozen && !has_binding {
                    ToolCallRoute::MissingBinding
                } else {
                    ToolCallRoute::Call
                }
            }),
    {
        let native = self.is_native_tool(name);
        let target = self.resolve_mcp_tool(name);
        let has_handle = match &target {
            Some(p) => {
                assert(crate::text::views(self.servers@) =~= self.view().servers);
                crate::text::contains_str(&self.servers, p.0.as_str())
            },
            None => false,
        };
        let server = match &target {
            Some(p) => Some(p.0.as_str()),
            None => None,
        };
        route_tool_call(self.frozen, self.closed, name, native, server, has_handle, has_binding)
    }
}

/// What a filter keeps: members of the original that satisfy the
/// predicate, and every such member.
pub proof fn lemma_filter_members<A>(s: Seq<A>, p: spec_fn(A) -> bool)
    ensures
        forall|x: A| #[trigger] s.filter(p).contains(x) ==> s.contains(x) && p(x),
        forall|k: int| 0 <= k < s.len() && p(s[k]) ==> #[trigger] s.filter(p).contains(s[k]),
    decreases s.len(),
{
    reveal(Seq::filter);
    if s.len() > 0 {
        let q = s.drop_last();
        lemma_filter_members(q, p);
        let f0 = q.filter(p);
        let f = s.filter(p);
        assert forall|x: A| #[trigger] f.contains(x) implies s.contains(x) && p(x) by {
            let j = choose|j: int| 0 <= j < f.len() && f[j] == x;
            if j < f0.len() {
                assert(f0[j] == x);
                assert(f0.contains(x));
                let k = choose|k: int| 0 <= k < q.len() && q[k] == x;
                assert(s[k] == x);
            } else {
                assert(s[s.len() - 1] == x);
            }
        }
        assert forall|k: int| 0 <= k < s.len() && p(s[k]) implies #[trigger] f.contains(s[k]) by {
            if k < s.len() - 1 {
                assert(q[k] == s[k]);
                assert(f0.contains(q[k]));
                let j = choose|j: int| 0 <= j < f0.len() && f0[j] == s[k];
                assert(f[j] == s[k]);
            } else {
                assert(f[f.len() - 1] == s[k]);
            }
        }
    }
}

/// Removing a server leaves nothing of it behind: no index entry, no
/// descriptor and no advertised tool that it contributed, and no other
/// server's entry is lost.
pub proof fn law_removed_server_leaves_nothing(v: RegistryView, name: Seq<char>)
    ensures
        ({
            let after = without_server(v, name);
            &&& !after.servers.contains(name)
            &&& forall|k: int| 0 <= k < after.index.len() ==> (#[trigger] after.index[k]).server != name
            &&& forall|k: int| 0 <= k < after.descriptors.len() ==> (#[trigger] after.descriptors[k]).server != Some(name)
            &&& forall|k: int| 0 <= k < after.tools.len() ==> !names_of_server(v.index, name).contains(#[trigger] after.tools[k])
            &&& forall|e: EntryView| v.index.contains(e) && e.server != name ==> #[trigger] after.index.contains(e)
        }),
{
    let after = without_server(v, name);
    lemma_filter_members(v.servers, other_name(name));
    lemma_filter_members(v.index, other_server(name));
    lemma_filter_members(v.descriptors, not_from_server(name));
    lemma_filter_members(v.tools, not_contributed(v.index, name));
    assert forall|k: int| 0 <= k < after.index.len() implies (#[trigger] after.index[k]).server != name by {
        assert(after.index.contains(after.index[k]));
    }
    assert forall|k: int| 0 <= k < after.descriptors.len() implies (#[trigger] after.descriptors[k]).server != Some(name) by {
        assert(after.descriptors.contains(after.descriptors[k]));
    }
    assert forall|k: int| 0 <= k < after.tools.len() implies !names_of_server(v.index, name).contains(#[trigger] after.tools[k]) by {
        assert(after.tools.contains(after.tools[k]));
    }
    assert forall|e: EntryView| v.index.contains(e) && e.server != name implies #[trigger] after.index.contains(e) by {
        let k = choose|k: int| 0 <= k < v.index.len() && v.index[k] == e;
        assert(other_server(name)(v.index[k]));
    }
}

/// Narrowing a registry never grants anything: every server, index entry,
/// advertised tool, descriptor and in-process tool of the narrowed registry
/// was in the original and is admitted by the allow-lists.
pub proof fn law_narrowing_never_grants(v: RegistryView, servers: Option<Seq<Seq<char>>>, tools: Option<Seq<Seq<char>>>)
    ensures
        ({
            let n = narrowed(v, servers, tools);
            &&& forall|x: Seq<char>| #[trigger] n.servers.contains(x) ==> v.servers.contains(x) && allows(servers, x)
            &&& forall|e: EntryView| #[trigger] n.index.contains(e) ==> v.index.contains(e) && allows(servers, e.server) && allows(tools, e.name)
            &&& forall|x: Seq<char>| #[trigger] n.tools.contains(x) ==> v.tools.contains(x) && allows(tools, x)
            &&& forall|d: ToolView| #[trigger] n.descriptors.contains(d) ==> v.descriptors.contains(d) && allows(tools, d.provider_name)
            &&& forall|x: Seq<char>| #[trigger] n.native.contains(x) ==> v.native.contains(x) && allows(tools, x)
            &&& n.frozen == v.frozen && n.closed == v.closed
        }),
{
    let n = narrowed(v, servers, tools);
    let index = v.index.filter(|e: EntryView| allows(servers, e.server) && allows(tools, e.name));
    let native = v.native.filter(|t: Seq<char>| allows(tools, t));
    let tp = |t: Seq<char>| allows(tools, t) && (native.contains(t) || entry_named(index, t) is Some);
    let kept = v.tools.filter(tp);
    let dp = |d: ToolView| kept.contains(d.provider_name);
    let sp = |x: Seq<char>| allows(servers, x);
    let ip = |e: EntryView| allows(servers, e.server) && allows(tools, e.name);
    let np = |t: Seq<char>| allows(tools, t);
    assert(n.servers == v.servers.filter(sp));
    assert(n.index == v.index.filter(ip));
    assert(n.native == v.native.filter(np));
    assert(n.tools == v.tools.filter(tp));
    assert(n.descriptors == v.descriptors.filter(dp));
    assert forall|x: Seq<char>| #[trigger] n.servers.contains(x) implies v.servers.contains(x) && allows(servers, x) by {
        v.servers.lemma_filter_contains_rev(sp, x);
    }
    assert forall|e: EntryView| #[trigger] n.index.contains(e) implies v.index.contains(e) && allows(servers, e.server) && allows(tools, e.name) by {
        v.index.lemma_filter_contains_rev(ip, e);
    }
    assert forall|x: Seq<char>| #[trigger] n.tools.contains(x) implies v.tools.contains(x) && allows(tools, x) by {
        v.tools.lemma_filter_contains_rev(tp, x);
    }
    assert forall|d: ToolView| #[trigger] n.descriptors.contains(d) implies v.descriptors.contains(d) && allows(tools, d.provider_name) by {
        v.descriptors.lemma_filter_contains_rev(dp, d);
        v.tools.lemma_filter_contains_rev(tp, d.provider_name);
    }
    assert forall|x: Seq<char>| #[trigger] n.native.contains(x) implies v.native.contains(x) && allows(tools, x) by {
        v.native.lemma_filter_contains_rev(np, x);
    }
}

proof fn lemma_put_entry_lookup(t: Seq<EntryView>, e: EntryView)
    requires
        entry_names_distinct(t),
    ensures
        entry_names_distinct(put_entry(t, e)),
        entry_named(put_entry(t, e), e.name) == Some(e),
        forall|n: Seq<char>| n != e.name ==> #[trigger] entry_named(put_entry(t, e), n) == entry_named(t, n),
{
    let k = if exists|j: int| 0 <= j < t.len() && #[trigger] t[j].name == e.name {
        choose|j: int| 0 <= j < t.len() && #[trigger] t[j].name == e.name
    } else {
        -1
    };
    lemma_put_entry(t, e, k);
    let t2 = put_entry(t, e);
    assert(t2[if k == -1 { t.len() as int } else { k }] == e);
    lemma_entry_named(t2, e.name);
    assert forall|n: Seq<char>| n != e.name implies #[trigger] entry_named(t2, n) == entry_named(t, n) by {
        lemma_entry_named(t2, n);
        lemma_entry_named(t, n);
        if let Some(x) = entry_named(t, n) {
            let j = choose|j: int| 0 <= j < t.len() && t[j] == x;
            assert(j != k);
            assert(t2[j] == t[j]);
        }
        if let Some(x) = entry_named(t2, n) {
            let j = choose|j: int| 0 <= j < t2.len() && t2[j] == x;
            if k == -1 {
                assert(j < t.len());
                assert(t[j] == t2[j]);
            } else {
                assert(j != k);
                assert(t[j] == t2[j]);
            }
        }
    }
}

proof fn lemma_put_entries(s: Seq<EntryView>, es: Seq<EntryView>)
    requires
        entry_names_distinct(s),
    ensures
        entry_names_distinct(put_entries(s, es)),
        forall|k: int| 0 <= k < es.len() ==> (entry_named(put_entries(s, es), #[trigger] es[k].name) matches Some(e) && es.contains(e)),
    decreases es.len(),
{
    if es.len() > 0 {
        let p = es.drop_last();
        lemma_put_entries(s, p);
        let t = put_entries(s, p);
        lemma_put_entry_lookup(t, es.last());
        assert forall|k: int| 0 <= k < es.len() implies (entry_named(put_entries(s, es), #[trigger] es[k].name) matches Some(e) && es.contains(e)) by {
            if es[k].name == es.last().name {
                assert(es[es.len() - 1] == es.last());
            } else {
                assert(p[k] == es[k]);
                let e = entry_named(t, p[k].name)->0;
                let j = choose|j: int| 0 <= j < p.len() && p[j] == e;
                assert(es[j] == e);
            }
        }
    }
}

/// After a server's tools are installed, every name it listed resolves to
/// that server and to one of the raw names it listed under that name.
pub proof fn law_listed_tools_resolve_to_their_server(v: RegistryView, name: Seq<char>, ts: Seq<DiscoveredToolView>)
    requires
        entry_names_distinct(v.index),
    ensures
        forall|k: int| 0 <= k < ts.len() ==> (entry_named(with_server_tools(v, name, ts).index, namespaced(name, #[trigger] ts[k].name)) matches Some(e)
            && e.server == name && listed_entries(name, ts).contains(e)),
{
    let les = listed_entries(name, ts);
    let base = v.index.filter(|e: EntryView| e.server != name);
    lemma_entries_distinct_filter(v.index, |e: EntryView| e.server != name);
    lemma_put_entries(base, les);
    assert forall|k: int| 0 <= k < ts.len() implies (entry_named(with_server_tools(v, name, ts).index, namespaced(name, #[trigger] ts[k].name)) matches Some(e)
        && e.server == name && listed_entries(name, ts).contains(e)) by {
        assert(les[k].name == namespaced(name, ts[k].name));
        let e = entry_named(put_entries(base, les), les[k].name)->0;
        let j = choose|j: int| 0 <= j < les.len() && les[j] == e;
        assert(les[j].server == name);
    }
}

/// The text the test tool answers with: its raw name and the debug rendering
/// of the arguments it was called with.
pub fn test_tool_result(raw_tool_name: &str, arguments: &str) -> (r: String)
    ensures
        r@ == "executed test tool "@ + raw_tool_name@ + " with args "@ + arguments@,
{
    let head = concat("executed test tool ", raw_tool_name);
    let mid = concat(head.as_str(), " with args ");
    concat(mid.as_str(), arguments)
}

} // verus!
