//! Tool descriptors as the MCP projection reads them, and name-ordered maps
//! of descriptors keyed by their provider-visible name.

use std::sync::Arc;
use vstd::prelude::*;

use crate::text::{chars_less, chars_lt, chars_of, share, str_eq};

verus! {

/// How a tool is advertised to the model.
#[derive(Clone, Copy, PartialEq, Eq, Structural, Debug)]
pub enum Exposure {
    /// Advertised in every step.
    Eager,
    /// Eligible, but advertised only after a search selects it.
    Deferred,
    /// Advertised to the model but never offered to other callers.
    ModelOnly,
    /// Never advertised.
    Hidden,
}

/// Where a tool comes from.
#[derive(Clone, Copy, PartialEq, Eq, Structural, Debug)]
pub enum ToolSource {
    /// Implemented in process by the host.
    Native,
    /// Discovered from an MCP server.
    Mcp,
}

/// What is known of a tool's side effects. It steers scheduling only,
/// never approval.
#[derive(Clone, Copy, PartialEq, Eq, Structural, Debug)]
pub enum ToolEffect {
    /// Declared free of side effects.
    ReadOnly,
    /// Nothing is known; the tool may have any effect.
    Unknown,
}

/// The descriptor fields that selection and exposure read. `fingerprint`
/// stands for the remaining governance, schema and scheduling metadata,
/// which projection carries but never interprets.
pub struct ToolDescriptor {
    pub provider_name: String,
    pub id: String,
    pub server: Option<String>,
    pub description: String,
    pub exposure: Exposure,
    pub source: ToolSource,
    pub effect: ToolEffect,
    pub fingerprint: String,
}

pub struct ToolView {
    pub provider_name: Seq<char>,
    pub id: Seq<char>,
    pub server: Option<Seq<char>>,
    pub description: Seq<char>,
    pub exposure: Exposure,
    pub source: ToolSource,
    pub effect: ToolEffect,
    pub fingerprint: Seq<char>,
}

impl ToolDescriptor {
    pub open spec fn view(&self) -> ToolView {
        ToolView {
            provider_name: self.provider_name@,
            id: self.id@,
            server: match self.server {
                Some(s) => Some(s@),
                None => None,
            },
            description: self.description@,
            exposure: self.exposure,
            source: self.source,
            effect: self.effect,
            fingerprint: self.fingerprint@,
        }
    }

    /// Whether two descriptors describe the same tool in every respect.
    pub fn equivalent_to(&self, other: &ToolDescriptor) -> (r: bool)
        ensures
            r == (self.view() == other.view()),
    {
        let same_server = match (&self.server, &other.server) {
            (Some(a), Some(b)) => *a == *b,
            (None, None) => true,
            _ => false,
        };
        self.provider_name == other.provider_name && self.id == other.id && same_server
            && self.description == other.description && self.exposure == other.exposure
            && self.source == other.source && self.effect == other.effect && self.fingerprint == other.fingerprint
    }
}

/// Two distinct tools would share one provider-visible call target.
pub struct ToolCollision {
    pub provider_name: String,
}

pub open spec fn tool_views(v: Seq<Arc<ToolDescriptor>>) -> Seq<ToolView> {
    v.map_values(|t: Arc<ToolDescriptor>| t.view())
}

/// Strictly increasing provider names.
pub open spec fn tools_sorted(s: Seq<ToolView>) -> bool {
    forall|a: int, b: int| 0 <= a < b < s.len() ==> chars_lt(#[trigger] s[a].provider_name, #[trigger] s[b].provider_name)
}

/// The descriptor stored under a provider name.
pub open spec fn tool_named(s: Seq<ToolView>, name: Seq<char>) -> Option<ToolView>
    decreases s.len(),
{
    if s.len() == 0 {
        None
    } else if s.last().provider_name == name {
        Some(s.last())
    } else {
        tool_named(s.drop_last(), name)
    }
}

pub proof fn lemma_tool_named(s: Seq<ToolView>, name: Seq<char>)
    ensures
        tool_named(s, name) matches Some(t) ==> t.provider_name == name && s.contains(t),
        tool_named(s, name) is None ==> forall|k: int| 0 <= k < s.len() ==> #[trigger] s[k].provider_name != name,
        tools_sorted(s) ==> forall|k: int| 0 <= k < s.len() && #[trigger] s[k].provider_name == name ==> tool_named(s, name) == Some(s[k]),
    decreases s.len(),
{
    if s.len() > 0 {
        lemma_tool_named(s.drop_last(), name);
        if tool_named(s, name) is None {
            assert forall|k: int| 0 <= k < s.len() implies #[trigger] s[k].provider_name != name by {
                if k < s.len() - 1 {
                    assert(s.drop_last()[k] == s[k]);
                }
            }
        }
        if let Some(t) = tool_named(s, name) {
            if s.last().provider_name != name {
                let k = choose|k: int| 0 <= k < s.drop_last().len() && s.drop_last()[k] == t;
                assert(s[k] == t);
            } else {
                assert(s[s.len() - 1] == t);
            }
        }
        if tools_sorted(s) {
            assert(tools_sorted(s.drop_last()));
            assert forall|k: int| 0 <= k < s.len() && #[trigger] s[k].provider_name == name implies tool_named(s, name) == Some(s[k]) by {
                if k < s.len() - 1 {
                    assert(chars_lt(s[k].provider_name, s[s.len() - 1].provider_name));
                    crate::text::lemma_chars_lt_irreflexive(name);
                    assert(s.drop_last()[k] == s[k]);
                }
            }
        }
    }
}

/// Descriptors keyed and ordered by provider name.
pub struct ToolMap {
    entries: Vec<Arc<ToolDescriptor>>,
}

impl ToolMap {
    pub closed spec fn view(&self) -> Seq<ToolView> {
        tool_views(self.entries@)
    }

    #[verifier::type_invariant]
    spec fn sorted(&self) -> bool {
        tools_sorted(self.view())
    }

    /// An empty map.
    pub fn new() -> (r: ToolMap)
        ensures
            r.view() == Seq::<ToolView>::empty(),
    {
        ToolMap { entries: Vec::new() }
    }

    /// A map over descriptors already in strictly increasing name order.
    pub fn from_sorted(entries: Vec<Arc<ToolDescriptor>>) -> (r: ToolMap)
        requires
            tools_sorted(tool_views(entries@)),
        ensures
            r.view() == tool_views(entries@),
    {
        ToolMap { entries }
    }

    /// The entries in provider-name order.
    pub fn entries(&self) -> (r: &Vec<Arc<ToolDescriptor>>)
        ensures
            tool_views(r@) == self.view(),
            tools_sorted(self.view()),
    {
        proof {
            use_type_invariant(self);
        }
        &self.entries
    }

    /// Number of descriptors.
    pub fn len(&self) -> (r: usize)
        ensures
            r == self.view().len(),
    {
        self.entries.len()
    }

    /// The descriptor stored under `name`.
    pub fn get(&self, name: &str) -> (r: Option<&Arc<ToolDescriptor>>)
        ensures
            match r {
                Some(t) => tool_named(self.view(), name@) == Some(t.view()),
                None => tool_named(self.view(), name@) is None,
            },
    {
        proof {
            use_type_invariant(self);
            lemma_tool_named(self.view(), name@);
        }
        let ghost ev = self.view();
        let mut i: usize = 0;
        while i < self.entries.len()
            invariant
                ev == tool_views(self.entries@),
                tools_sorted(ev),
                i <= ev.len(),
                forall|k: int| 0 <= k < i ==> #[trigger] ev[k].provider_name != name@,
                forall|k: int| 0 <= k < ev.len() && #[trigger] ev[k].provider_name == name@ ==> tool_named(ev, name@) == Some(ev[k]),
                tool_named(ev, name@) matches Some(t) ==> t.provider_name == name@ && ev.contains(t),
            decreases self.entries.len() - i,
        {
            assert(ev[i as int] == self.entries@[i as int].view());
            if str_eq(self.entries[i].provider_name.as_str(), name) {
                assert(ev[i as int].provider_name == name@);
                assert(tool_named(ev, name@) == Some(ev[i as int]));
                return Some(&self.entries[i]);
            }
            i = i + 1;
        }
        proof {
            if let Some(t) = tool_named(ev, name@) {
                let k = choose|k: int| 0 <= k < ev.len() && ev[k] == t;
                assert(ev[k].provider_name == name@);
            }
        }
        None
    }

    /// Add a descriptor whose provider name is not yet present.
    pub fn insert(&mut self, descriptor: Arc<ToolDescriptor>)
        requires
            tool_named(old(self).view(), descriptor.view().provider_name) is None,
        ensures
            tools_sorted(final(self).view()),
            final(self).view().len() == old(self).view().len() + 1,
            final(self).view().to_set() == old(self).view().to_set().insert(descriptor.view()),
            forall|n: Seq<char>| #[trigger] tool_named(final(self).view(), n) == if n == descriptor.view().provider_name {
                Some(descriptor.view())
            } else {
                tool_named(old(self).view(), n)
            },
    {
        proof {
            use_type_invariant(&*self);
            lemma_tool_named(self.view(), descriptor.view().provider_name);
        }
        let ghost ev = self.view();
        let ghost dv = descriptor.view();
        let key = chars_of(descriptor.provider_name.as_str());
        let mut p: usize = 0;
        let mut done = false;
        while !done && p < self.entries.len()
            invariant
                ev == tool_views(self.entries@),
                key@ == dv.provider_name,
                p <= ev.len(),
                forall|a: int| 0 <= a < p ==> chars_lt(#[trigger] ev[a].provider_name, dv.provider_name),
                done ==> p < ev.len() && !chars_lt(ev[p as int].provider_name, dv.provider_name),
            decreases (self.entries.len() - p) * 2 + (if done { 0usize } else { 1usize }),
        {
            assert(ev[p as int] == self.entries@[p as int].view());
            let other = chars_of(self.entries[p].provider_name.as_str());
            if chars_less(other.as_slice(), key.as_slice()) {
                p = p + 1;
            } else {
                done = true;
            }
        }
        proof {
            lemma_insert_tool(ev, p as int, dv);
        }
        let mut entries = Vec::new();
        std::mem::swap(&mut entries, &mut self.entries);
        entries.insert(p, descriptor);
        assert(tool_views(entries@) =~= ev.insert(p as int, dv));
        self.entries = entries;
        proof {
            lemma_tool_named_insert(ev, p as int, dv);
        }
    }
}

/// Inserting a new name at its place keeps the names strictly sorted.
proof fn lemma_insert_tool(ev: Seq<ToolView>, p: int, dv: ToolView)
    requires
        0 <= p <= ev.len(),
        tools_sorted(ev),
        forall|a: int| 0 <= a < p ==> chars_lt(#[trigger] ev[a].provider_name, dv.provider_name),
        p < ev.len() ==> !chars_lt(ev[p].provider_name, dv.provider_name),
        forall|k: int| 0 <= k < ev.len() ==> #[trigger] ev[k].provider_name != dv.provider_name,
    ensures
        tools_sorted(ev.insert(p, dv)),
{
    let ev2 = ev.insert(p, dv);
    if p < ev.len() {
        crate::text::lemma_chars_lt_total(ev[p].provider_name, dv.provider_name);
    }
    assert forall|a: int, b: int| 0 <= a < b < ev2.len() implies chars_lt(#[trigger] ev2[a].provider_name, #[trigger] ev2[b].provider_name) by {
        if b < p {
            assert(ev2[a] == ev[a] && ev2[b] == ev[b]);
        } else if b == p {
            assert(ev2[a] == ev[a]);
        } else if a < p {
            assert(ev2[a] == ev[a]);
            assert(ev2[b] == ev[b - 1]);
            if b - 1 > p {
                crate::text::lemma_chars_lt_transitive(dv.provider_name, ev[p].provider_name, ev[b - 1].provider_name);
            }
            crate::text::lemma_chars_lt_transitive(ev[a].provider_name, dv.provider_name, ev[b - 1].provider_name);
        } else if a == p {
            assert(ev2[b] == ev[b - 1]);
            if b - 1 > p {
                crate::text::lemma_chars_lt_transitive(dv.provider_name, ev[p].provider_name, ev[b - 1].provider_name);
            }
        } else {
            assert(ev2[a] == ev[a - 1]);
            assert(ev2[b] == ev[b - 1]);
        }
    }
}

proof fn lemma_tool_named_insert(ev: Seq<ToolView>, p: int, dv: ToolView)
    requires
        0 <= p <= ev.len(),
        tools_sorted(ev.insert(p, dv)),
        forall|k: int| 0 <= k < ev.len() ==> #[trigger] ev[k].provider_name != dv.provider_name,
    ensures
        ev.insert(p, dv).to_set() == ev.to_set().insert(dv),
        forall|n: Seq<char>| #[trigger] tool_named(ev.insert(p, dv), n) == if n == dv.provider_name {
            Some(dv)
        } else {
            tool_named(ev, n)
        },
{
    let ev2 = ev.insert(p, dv);
    assert forall|x: ToolView| ev2.to_set().contains(x) <==> ev.to_set().insert(dv).contains(x) by {
        if ev2.contains(x) {
            let k = choose|k: int| 0 <= k < ev2.len() && ev2[k] == x;
            if k < p {
                assert(ev[k] == x);
            } else if k > p {
                assert(ev[k - 1] == x);
            }
        }
        if ev.contains(x) {
            let k = choose|k: int| 0 <= k < ev.len() && ev[k] == x;
            if k < p {
                assert(ev2[k] == x);
            } else {
                assert(ev2[k + 1] == x);
            }
        }
        if x == dv {
            assert(ev2[p] == x);
        }
    }
    assert(ev2.to_set() =~= ev.to_set().insert(dv));
    assert forall|n: Seq<char>| #[trigger] tool_named(ev2, n) == if n == dv.provider_name {
        Some(dv)
    } else {
        tool_named(ev, n)
    } by {
        lemma_tool_named(ev2, n);
        lemma_tool_named(ev, n);
        if n == dv.provider_name {
            assert(ev2[p].provider_name == n);
        } else {
            if let Some(t) = tool_named(ev, n) {
                let k = choose|k: int| 0 <= k < ev.len() && ev[k] == t;
                if k < p {
                    assert(ev2[k] == t);
                } else {
                    assert(ev2[k + 1] == t);
                }
                assert(tools_sorted(ev2));
            } else {
                if let Some(t) = tool_named(ev2, n) {
                    let k = choose|k: int| 0 <= k < ev2.len() && ev2[k] == t;
                    if k < p {
                        assert(ev[k] == t);
                    } else if k > p {
                        assert(ev[k - 1] == t);
                    }
                }
            }
        }
    }
}

/// Add a descriptor unless a different one already holds its provider name;
/// an identical repeat is a no-op.
pub fn insert_descriptor(descriptors: &mut ToolMap, descriptor: Arc<ToolDescriptor>) -> (r: Result<(), ToolCollision>)
    ensures
        match tool_named(old(descriptors).view(), descriptor.view().provider_name) {
            Some(existing) => if existing == descriptor.view() {
                r is Ok && final(descriptors).view() == old(descriptors).view()
            } else {
                r matches Err(c) && c.provider_name@ == descriptor.view().provider_name
                    && final(descriptors).view() == old(descriptors).view()
            },
            None => r is Ok && tools_sorted(final(descriptors).view())
                && final(descriptors).view().to_set() == old(descriptors).view().to_set().insert(descriptor.view())
                && forall|n: Seq<char>| #[trigger] tool_named(final(descriptors).view(), n) == if n == descriptor.view().provider_name {
                    Some(descriptor.view())
                } else {
                    tool_named(old(descriptors).view(), n)
                },
        },
{
    match descriptors.get(descriptor.provider_name.as_str()) {
        Some(existing) => {
            if existing.equivalent_to(&descriptor) {
                Ok(())
            } else {
                Err(ToolCollision { provider_name: descriptor.provider_name.clone() })
            }
        },
        None => {
            descriptors.insert(descriptor);
            Ok(())
        },
    }
}

/// A subsequence of a sorted sequence is sorted.
pub proof fn lemma_filter_tools_sorted(s: Seq<ToolView>, pred: spec_fn(ToolView) -> bool)
    requires
        tools_sorted(s),
    ensures
        tools_sorted(s.filter(pred)),
    decreases s.len(),
{
    reveal(Seq::filter);
    if s.len() > 0 {
        let p = s.drop_last();
        assert(tools_sorted(p));
        lemma_filter_tools_sorted(p, pred);
        if pred(s.last()) {
            let f = p.filter(pred);
            let f2 = f.push(s.last());
            assert forall|a: int, b: int| 0 <= a < b < f2.len() implies chars_lt(#[trigger] f2[a].provider_name, #[trigger] f2[b].provider_name) by {
                if b == f.len() {
                    assert(f2[a] == f[a]);
                    assert(f.contains(f[a]));
                    p.lemma_filter_contains_rev(pred, f[a]);
                    let j = choose|j: int| 0 <= j < p.len() && p[j] == f[a];
                    assert(s[j] == p[j]);
                } else {
                    assert(f2[a] == f[a] && f2[b] == f[b]);
                }
            }
        }
    }
}

/// Every descriptor is the one stored under its provider name in `tools`.
pub open spec fn all_cached(descriptors: Seq<ToolView>, tools: Seq<ToolView>) -> bool {
    forall|i: int| 0 <= i < descriptors.len() ==> tool_named(tools, (#[trigger] descriptors[i]).provider_name) == Some(descriptors[i])
}

/// Every descriptor was discovered from the MCP server `server`.
pub open spec fn all_from_server(descriptors: Seq<ToolView>, server: Seq<char>) -> bool {
    forall|i: int| 0 <= i < descriptors.len() ==> (#[trigger] descriptors[i]).source == ToolSource::Mcp && descriptors[i].server == Some(server)
}

/// Whether every descriptor is the one `tools` holds under its name.
pub fn each_cached(descriptors: &Vec<Arc<ToolDescriptor>>, tools: &ToolMap) -> (r: bool)
    ensures
        r == all_cached(tool_views(descriptors@), tools.view()),
{
    let ghost dv = tool_views(descriptors@);
    let mut i: usize = 0;
    while i < descriptors.len()
        invariant
            dv == tool_views(descriptors@),
            i <= descriptors@.len(),
            forall|j: int| 0 <= j < i ==> tool_named(tools.view(), (#[trigger] dv[j]).provider_name) == Some(dv[j]),
        decreases descriptors.len() - i,
    {
        let d = &descriptors[i];
        assert(dv[i as int] == d.view());
        match tools.get(d.provider_name.as_str()) {
            Some(cached) => {
                if !cached.equivalent_to(d) {
                    return false;
                }
            },
            None => {
                return false;
            },
        }
        i = i + 1;
    }
    true
}

/// Whether every descriptor comes from the MCP server `server`.
pub fn each_from_server(descriptors: &Vec<Arc<ToolDescriptor>>, server: &str) -> (r: bool)
    ensures
        r == all_from_server(tool_views(descriptors@), server@),
{
    let ghost dv = tool_views(descriptors@);
    let mut k: usize = 0;
    while k < descriptors.len()
        invariant
            dv == tool_views(descriptors@),
            k <= descriptors@.len(),
            forall|j: int| 0 <= j < k ==> (#[trigger] dv[j]).source == ToolSource::Mcp && dv[j].server == Some(server@),
        decreases descriptors.len() - k,
    {
        let d = &descriptors[k];
        assert(dv[k as int] == d.view());
        if d.source != ToolSource::Mcp {
            return false;
        }
        match &d.server {
            Some(s) => {
                if !str_eq(s.as_str(), server) {
                    return false;
                }
            },
            None => {
                return false;
            },
        }
        k = k + 1;
    }
    true
}

} // verus!
