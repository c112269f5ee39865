//! Decisions of the MCP registry: merging errors, how a namespaced tool call
//! is routed, and the state machine of one server's service slot, which
//! keeps replaced connections for cleanup and never lets a stale reconnect
//! overwrite a newer configuration. Connections, transports and tool calls
//! themselves belong to the host; services are named by host-assigned ids.

use vstd::prelude::*;

use crate::text::{chars_lt, concat, owned, share, str_eq};
use crate::tools::{insert_descriptor, lemma_tool_named, tool_named, tool_views, tools_sorted, ToolCollision, ToolMap, ToolView};

verus! {

/// Two tool sets could not be merged.
pub enum McpMergeError {
    /// Distinct tools would share a provider-visible name.
    Collision(ToolCollision),
    /// Frozen bindings cannot accept further executable resources.
    FrozenBinding,
}

/// A descriptor that differs from the one the map holds under its name.
pub open spec fn conflicts(a: Seq<ToolView>, t: ToolView) -> bool {
    tool_named(a, t.provider_name) matches Some(e) && e != t
}

/// Merge the descriptors of two unfrozen registries. Identical descriptors
/// under one name coalesce; the first descriptor of `b`, in name order, that
/// differs from `a`'s descriptor of the same name is a collision.
pub fn merge_descriptors(a_frozen: bool, b_frozen: bool, a: &ToolMap, b: &ToolMap) -> (r: Result<ToolMap, McpMergeError>)
    ensures
        match r {
            Ok(m) => !a_frozen && !b_frozen && (forall|k: int| 0 <= k < b.view().len() ==> !conflicts(a.view(), #[trigger] b.view()[k]))
                && tools_sorted(m.view()) && m.view().to_set() == a.view().to_set().union(b.view().to_set()),
            Err(McpMergeError::FrozenBinding) => a_frozen || b_frozen,
            Err(McpMergeError::Collision(c)) => !a_frozen && !b_frozen && exists|k: int| 0 <= k < b.view().len()
                && conflicts(a.view(), #[trigger] b.view()[k]) && c.provider_name@ == b.view()[k].provider_name
                && forall|j: int| 0 <= j < k ==> !conflicts(a.view(), #[trigger] b.view()[j]),
        },
{
    if a_frozen || b_frozen {
        return Err(McpMergeError::FrozenBinding);
    }
    let ae = a.entries();
    let be = b.entries();
    let ghost av = a.view();
    let ghost bv = b.view();
    let mut merged = ToolMap::from_sorted(crate::text::share_all(ae));
    let mut i: usize = 0;
    proof {
        assert(av.to_set().union(bv.subrange(0, 0).to_set()) =~= av.to_set());
    }
    while i < be.len()
        invariant
            av == a.view(),
            bv == b.view(),
            !a_frozen && !b_frozen,
            tool_views(be@) == bv,
            tools_sorted(bv),
            tools_sorted(av),
            i <= bv.len(),
            tools_sorted(merged.view()),
            merged.view().to_set() == av.to_set().union(bv.subrange(0, i as int).to_set()),
            forall|j: int| i <= j < bv.len() ==> tool_named(merged.view(), #[trigger] bv[j].provider_name) == tool_named(av, bv[j].provider_name),
            forall|j: int| 0 <= j < i ==> !conflicts(av, #[trigger] bv[j]),
        decreases be.len() - i,
    {
        let d = &be[i];
        assert(bv[i as int] == d.view());
        let ghost before = merged.view();
        match insert_descriptor(&mut merged, share(d)) {
            Ok(()) => {},
            Err(c) => {
                assert(tool_named(before, bv[i as int].provider_name) == tool_named(av, bv[i as int].provider_name));
                assert(conflicts(av, bv[i as int]));
                return Err(McpMergeError::Collision(c));
            },
        }
        proof {
            lemma_merge_step(av, bv, before, merged.view(), i as int);
        }
        i = i + 1;
    }
    assert(bv.subrange(0, bv.len() as int) =~= bv);
    Ok(merged)
}

proof fn lemma_merge_step(av: Seq<ToolView>, bv: Seq<ToolView>, before: Seq<ToolView>, after: Seq<ToolView>, i: int)
    requires
        0 <= i < bv.len(),
        tools_sorted(bv),
        before.to_set() == av.to_set().union(bv.subrange(0, i).to_set()),
        forall|j: int| i <= j < bv.len() ==> tool_named(before, #[trigger] bv[j].provider_name) == tool_named(av, bv[j].provider_name),
        match tool_named(before, bv[i].provider_name) {
            Some(existing) => existing == bv[i] && after == before,
            None => after.to_set() == before.to_set().insert(bv[i]) && forall|n: Seq<char>| #[trigger] tool_named(after, n) == if n
                == bv[i].provider_name {
                Some(bv[i])
            } else {
                tool_named(before, n)
            },
        },
    ensures
        !conflicts(av, bv[i]),
        after.to_set() == av.to_set().union(bv.subrange(0, i + 1).to_set()),
        forall|j: int| i + 1 <= j < bv.len() ==> tool_named(after, #[trigger] bv[j].provider_name) == tool_named(av, bv[j].provider_name),
{
    assert(bv.subrange(0, i + 1) =~= bv.subrange(0, i).push(bv[i]));
    crate::mcp::projection::lemma_push_to_set(bv.subrange(0, i), bv[i]);
    if tool_named(before, bv[i].provider_name) is Some {
        lemma_tool_named(before, bv[i].provider_name);
        assert(before.to_set().contains(bv[i]));
        assert(av.to_set().union(bv.subrange(0, i + 1).to_set()) =~= before.to_set());
    } else {
        assert(av.to_set().union(bv.subrange(0, i + 1).to_set()) =~= before.to_set().insert(bv[i]));
        assert forall|j: int| i + 1 <= j < bv.len() implies tool_named(after, #[trigger] bv[j].provider_name) == tool_named(av, bv[j].provider_name) by {
            crate::text::lemma_chars_lt_irreflexive(bv[j].provider_name);
            assert(chars_lt(bv[i].provider_name, bv[j].provider_name));
        }
    }
}

/// A provider-safe tool name: ASCII letters, digits, `_` and `-` are kept,
/// every other character becomes `_`.
pub open spec fn sanitized(s: Seq<char>) -> Seq<char> {
    s.map_values(|c: char| if ('a' <= c && c <= 'z') || ('A' <= c && c <= 'Z') || ('0' <= c && c <= '9') || c == '_' || c == '-' {
        c
    } else {
        '_'
    })
}

/// The namespaced name of a server's tool: `server__tool`, sanitized.
pub open spec fn namespaced(server: Seq<char>, tool: Seq<char>) -> Seq<char> {
    sanitized(server + "__"@ + tool)
}

/// Sanitize a tool name for provider APIs.
pub fn sanitize_tool_name(name: &str) -> (r: String)
    ensures
        r@ == sanitized(name@),
{
    let v = crate::text::chars_of(name);
    let mut out = String::new();
    let mut i: usize = 0;
    while i < v.len()
        invariant
            v@ == name@,
            i <= v@.len(),
            out@ == sanitized(name@.subrange(0, i as int)),
        decreases v.len() - i,
    {
        let c = v[i];
        let kept = if ('a' <= c && c <= 'z') || ('A' <= c && c <= 'Z') || ('0' <= c && c <= '9') || c == '_' || c == '-' {
            c
        } else {
            '_'
        };
        crate::text::push_char(&mut out, kept);
        assert(sanitized(name@.subrange(0, i + 1)) =~= sanitized(name@.subrange(0, i as int)).push(kept));
        i = i + 1;
    }
    assert(name@.subrange(0, name@.len() as int) =~= name@);
    out
}

/// The namespaced name under which a server's tool is offered.
pub fn namespaced_tool_name(server: &str, tool: &str) -> (r: String)
    ensures
        r@ == namespaced(server@, tool@),
{
    let a = concat(server, "__");
    let b = concat(a.as_str(), tool);
    sanitize_tool_name(b.as_str())
}

/// Where a namespaced tool call goes.
#[derive(Clone, Copy, PartialEq, Eq, Structural, Debug)]
pub enum ToolCallRoute {
    /// The frozen view was closed or is shutting down.
    Closed,
    /// The built-in `mirror` tool of an unfrozen registry echoes its arguments.
    Echo,
    /// An in-process native tool, under the call timeout.
    Native,
    /// No tool has this name.
    Unknown,
    /// The built-in `test` server of an unfrozen registry answers locally.
    TestTool,
    /// The indexed server has no service slot.
    MissingHandle,
    /// A frozen view lacks the binding for the indexed server.
    MissingBinding,
    /// Call the indexed server's service.
    Call,
}

/// Route a namespaced tool call: closed frozen views first, then the echo
/// tool, native tools, the tool index, the test server, and the service
/// and binding the call needs.
pub fn route_tool_call(frozen: bool, closed: bool, name: &str, native: bool, indexed_server: Option<&str>, has_handle: bool, has_binding: bool) -> (r: ToolCallRoute)
    ensures
        r == if frozen && closed {
            ToolCallRoute::Closed
        } else if name@ == "mirror"@ && !frozen {
            ToolCallRoute::Echo
        } else if native {
            ToolCallRoute::Native
        } else if indexed_server is None {
            ToolCallRoute::Unknown
        } else if indexed_server->0@ == "test"@ && !frozen {
            ToolCallRoute::TestTool
        } else if !has_handle {
            ToolCallRoute::MissingHandle
        } else if frozen && !has_binding {
            ToolCallRoute::MissingBinding
        } else {
            ToolCallRoute::Call
        },
{
    if frozen && closed {
        return ToolCallRoute::Closed;
    }
    if str_eq(name, "mirror") && !frozen {
        return ToolCallRoute::Echo;
    }
    if native {
        return ToolCallRoute::Native;
    }
    let server = match indexed_server {
        None => return ToolCallRoute::Unknown,
        Some(s) => s,
    };
    if str_eq(server, "test") && !frozen {
        return ToolCallRoute::TestTool;
    }
    if !has_handle {
        return ToolCallRoute::MissingHandle;
    }
    if frozen && !has_binding {
        return ToolCallRoute::MissingBinding;
    }
    ToolCallRoute::Call
}

/// The error text of a refused route, for the tool or server it names.
pub open spec fn route_error_text(route: ToolCallRoute, tool: Seq<char>, server: Seq<char>) -> Option<Seq<char>> {
    match route {
        ToolCallRoute::Closed => Some("Frozen MCP view is closed"@),
        ToolCallRoute::Unknown => Some("unknown tool: "@ + tool),
        ToolCallRoute::MissingHandle => Some("missing server handle: "@ + server),
        ToolCallRoute::MissingBinding => Some("Missing frozen MCP binding: "@ + server),
        _ => None,
    }
}

/// The error text of a refused route, if the route refuses the call.
pub fn route_error(route: ToolCallRoute, tool: &str, server: &str) -> (r: Option<String>)
    ensures
        match r {
            Some(s) => route_error_text(route, tool@, server@) == Some(s@),
            None => route_error_text(route, tool@, server@) is None,
        },
{
    match route {
        ToolCallRoute::Closed => Some(owned("Frozen MCP view is closed")),
        ToolCallRoute::Unknown => Some(concat("unknown tool: ", tool)),
        ToolCallRoute::MissingHandle => Some(concat("missing server handle: ", server)),
        ToolCallRoute::MissingBinding => Some(concat("Missing frozen MCP binding: ", server)),
        _ => None,
    }
}

/// A failed call is never replayed; an unfrozen registry reconnects for
/// later calls, a frozen view only reports the failure.
pub fn reconnect_after_failure(frozen: bool) -> (r: bool)
    ensures
        r == !frozen,
{
    !frozen
}

/// The ids of `ids` that are not in `closed`, in order.
fn still_open(ids: &Vec<u64>, closed: &Vec<u64>) -> (r: Vec<u64>)
    ensures
        r@ == ids@.filter(|s: u64| !closed@.contains(s)),
{
    let ghost pred = |s: u64| !closed@.contains(s);
    let mut kept: Vec<u64> = Vec::new();
    let mut i: usize = 0;
    while i < ids.len()
        invariant
            pred == (|s: u64| !closed@.contains(s)),
            i <= ids@.len(),
            kept@ == ids@.subrange(0, i as int).filter(pred),
        decreases ids.len() - i,
    {
        let s = ids[i];
        let ghost pre = ids@.subrange(0, i + 1);
        assert(pre.drop_last() =~= ids@.subrange(0, i as int));
        assert(pre.last() == s);
        proof {
            reveal(Seq::filter);
        }
        let mut found = false;
        let mut j: usize = 0;
        while j < closed.len()
            invariant
                j <= closed@.len(),
                found == exists|k: int| 0 <= k < j && closed@[k] == s,
            decreases closed.len() - j,
        {
            if closed[j] == s {
                found = true;
            }
            j = j + 1;
        }
        if !found {
            kept.push(s);
        }
        i = i + 1;
    }
    assert(ids@.subrange(0, ids@.len() as int) =~= ids@);
    kept
}

/// One server's service slot: the current service, the services replaced
/// but not yet closed, the configuration generation and the work in flight.
pub struct ServiceSlot {
    service: u64,
    retired: Vec<u64>,
    generation: u64,
    reconnects_in_flight: usize,
    updates_in_flight: usize,
    shutting_down: bool,
}

pub struct SlotView {
    pub service: u64,
    pub retired: Seq<u64>,
    pub generation: u64,
    pub reconnects_in_flight: usize,
    pub updates_in_flight: usize,
    pub shutting_down: bool,
}

/// The generation after a configuration replacement, wrapping around.
pub open spec fn next_generation(g: u64) -> u64 {
    if g == u64::MAX { 0 } else { (g + 1) as u64 }
}

/// The slot after replacing its configuration with `service`.
pub open spec fn after_replace(v: SlotView, service: u64) -> SlotView {
    if v.shutting_down {
        SlotView { retired: v.retired.push(service), ..v }
    } else {
        SlotView { service, retired: v.retired.push(v.service), generation: next_generation(v.generation), ..v }
    }
}

/// Whether a reconnect begun at `expected` may install its service.
pub open spec fn may_install(v: SlotView, expected: u64) -> bool {
    !v.shutting_down && v.generation == expected
}

/// The slot after a reconnect begun at `expected` offered `service`.
pub open spec fn after_install(v: SlotView, expected: u64, service: u64) -> SlotView {
    if may_install(v, expected) {
        SlotView { service, retired: v.retired.push(v.service), ..v }
    } else {
        SlotView { retired: v.retired.push(service), ..v }
    }
}

impl ServiceSlot {
    pub closed spec fn view(&self) -> SlotView {
        SlotView {
            service: self.service,
            retired: self.retired@,
            generation: self.generation,
            reconnects_in_flight: self.reconnects_in_flight,
            updates_in_flight: self.updates_in_flight,
            shutting_down: self.shutting_down,
        }
    }

    /// A slot holding its first service, at generation zero.
    pub fn new(service: u64) -> (r: ServiceSlot)
        ensures
            r.view() == (SlotView {
                service,
                retired: Seq::empty(),
                generation: 0,
                reconnects_in_flight: 0,
                updates_in_flight: 0,
                shutting_down: false,
            }),
    {
        ServiceSlot { service, retired: Vec::new(), generation: 0, reconnects_in_flight: 0, updates_in_flight: 0, shutting_down: false }
    }

    /// Admit a configuration update, unless the slot is shutting down.
    pub fn begin_update(&mut self) -> (r: bool)
        requires
            old(self).view().updates_in_flight < usize::MAX,
        ensures
            r == !old(self).view().shutting_down,
            final(self).view() == if r {
                SlotView { updates_in_flight: (old(self).view().updates_in_flight + 1) as usize, ..old(self).view() }
            } else {
                old(self).view()
            },
    {
        if self.shutting_down {
            return false;
        }
        self.updates_in_flight = self.updates_in_flight + 1;
        true
    }

    /// An admitted update is over.
    pub fn end_update(&mut self)
        requires
            old(self).view().updates_in_flight > 0,
        ensures
            final(self).view() == (SlotView { updates_in_flight: (old(self).view().updates_in_flight - 1) as usize, ..old(self).view() }),
    {
        self.updates_in_flight = self.updates_in_flight - 1;
    }

    /// Replace the service with one built from a new configuration. The old
    /// service is retired for cleanup and the generation advances; while
    /// shutting down the new service itself is retired instead.
    pub fn replace_configured(&mut self, service: u64) -> (r: bool)
        ensures
            r == !old(self).view().shutting_down,
            final(self).view() == after_replace(old(self).view(), service),
    {
        if self.shutting_down {
            self.retired.push(service);
            return false;
        }
        let old_service = self.service;
        self.retired.push(old_service);
        self.service = service;
        self.generation = if self.generation == u64::MAX { 0 } else { self.generation + 1 };
        true
    }

    /// Begin the only reconnect, returning the generation it is for.
    pub fn begin_reconnect(&mut self) -> (r: Option<u64>)
        ensures
            match r {
                Some(g) => !old(self).view().shutting_down && old(self).view().reconnects_in_flight == 0
                    && g == old(self).view().generation
                    && final(self).view() == (SlotView { reconnects_in_flight: 1, ..old(self).view() }),
                None => (old(self).view().shutting_down || old(self).view().reconnects_in_flight > 0)
                    && final(self).view() == old(self).view(),
            },
    {
        if self.shutting_down || self.reconnects_in_flight > 0 {
            return None;
        }
        self.reconnects_in_flight = 1;
        Some(self.generation)
    }

    /// Offer a reconnected service. It is installed only for the generation
    /// the reconnect began at and only before shutdown; otherwise it is
    /// retired at once. The replaced service is retired, never dropped.
    pub fn install_reconnected(&mut self, expected: u64, service: u64) -> (r: bool)
        ensures
            r == may_install(old(self).view(), expected),
            final(self).view() == after_install(old(self).view(), expected, service),
    {
        if self.shutting_down || self.generation != expected {
            self.retired.push(service);
            return false;
        }
        let old_service = self.service;
        self.retired.push(old_service);
        self.service = service;
        true
    }

    /// The reconnect is over; returns whether it still belonged to the
    /// current generation, whose pending connection then ends as cancelled.
    pub fn finish_reconnect(&mut self, expected: u64) -> (r: bool)
        requires
            old(self).view().reconnects_in_flight > 0,
        ensures
            r == (old(self).view().generation == expected),
            final(self).view() == (SlotView { reconnects_in_flight: 0, ..old(self).view() }),
    {
        self.reconnects_in_flight = 0;
        self.generation == expected
    }

    /// Start shutting down; returns the current service for the host to close.
    pub fn begin_shutdown(&mut self) -> (r: u64)
        ensures
            r == old(self).view().service,
            final(self).view() == (SlotView { shutting_down: true, ..old(self).view() }),
    {
        self.shutting_down = true;
        self.service
    }

    /// Retired services the host has closed leave the slot.
    pub fn reap(&mut self, closed: &Vec<u64>)
        ensures
            final(self).view() == (SlotView {
                retired: old(self).view().retired.filter(|s: u64| !closed@.contains(s)),
                ..old(self).view()
            }),
    {
        self.retired = still_open(&self.retired, closed);
    }

    /// Shutdown is complete once nothing is in flight and every service,
    /// current and retired, has closed its transport.
    pub fn shutdown_complete(&self, service_closed: bool, retired_closed: bool) -> (r: bool)
        ensures
            r == (self.view().reconnects_in_flight == 0 && self.view().updates_in_flight == 0 && service_closed && retired_closed),
    {
        self.reconnects_in_flight == 0 && self.updates_in_flight == 0 && service_closed && retired_closed
    }

    /// A frozen binding is valid while it is still the slot's current,
    /// open service and the slot is not shutting down.
    pub fn binding_valid(&self, bound: u64, transport_closed: bool) -> (r: bool)
        ensures
            r == (!self.view().shutting_down && self.view().service == bound && !transport_closed),
    {
        !self.shutting_down && self.service == bound && !transport_closed
    }
}

/// A reconnect begun before a configuration replacement never installs its
/// service, and after shutdown nothing installs; in every case the service
/// that stops being current is retired, not dropped.
pub proof fn law_stale_reconnects_never_install(v: SlotView, replacement: u64, reconnected: u64)
    ensures
        !may_install(after_replace(v, replacement), v.generation),
        v.shutting_down ==> forall|g: u64| !may_install(v, g),
        may_install(v, v.generation) ==> after_install(v, v.generation, reconnected).retired == v.retired.push(v.service),
        !v.shutting_down ==> after_replace(v, replacement).retired == v.retired.push(v.service),
{
}

/// Admission to registry operations. Operations enter while the registry is
/// open and leave when done; closing refuses new entries, and shutdown waits
/// until nothing is inside and every retired service and slot has closed.
/// Services and slots are named by host-assigned ids.
pub struct RegistryAdmission {
    closed: bool,
    active: usize,
    retired: Vec<u64>,
    retired_slots: Vec<u64>,
}

pub struct AdmissionView {
    pub closed: bool,
    pub active: nat,
    pub retired: Seq<u64>,
    pub retired_slots: Seq<u64>,
}

/// Entering a closed registry fails with this error.
pub enum AdmissionError {
    ShuttingDown,
}

impl AdmissionError {
    /// The error's text.
    pub fn message(&self) -> (r: String)
        ensures
            r@ == "MCP registry is shutting down"@,
    {
        owned("MCP registry is shutting down")
    }
}

impl RegistryAdmission {
    pub closed spec fn view(&self) -> AdmissionView {
        AdmissionView {
            closed: self.closed,
            active: self.active as nat,
            retired: self.retired@,
            retired_slots: self.retired_slots@,
        }
    }

    /// An open registry with nothing inside and nothing retired.
    pub fn new() -> (r: RegistryAdmission)
        ensures
            r.view() == (AdmissionView {
                closed: false,
                active: 0,
                retired: Seq::empty(),
                retired_slots: Seq::empty(),
            }),
    {
        RegistryAdmission { closed: false, active: 0, retired: Vec::new(), retired_slots: Vec::new() }
    }

    /// Enter an operation: refused once closed, else one more is inside.
    pub fn enter(&mut self) -> (r: Result<(), AdmissionError>)
        requires
            old(self).view().active < usize::MAX,
        ensures
            match r {
                Ok(()) => !old(self).view().closed && final(self).view() == (AdmissionView {
                    active: old(self).view().active + 1,
                    ..old(self).view()
                }),
                Err(_) => old(self).view().closed && final(self).view() == old(self).view(),
            },
    {
        if self.closed {
            return Err(AdmissionError::ShuttingDown);
        }
        self.active = self.active + 1;
        Ok(())
    }

    /// Leave an operation; returns whether nothing is inside any more, when
    /// shutdown waiting on the registry must be woken.
    pub fn leave(&mut self) -> (r: bool)
        requires
            old(self).view().active > 0,
        ensures
            final(self).view() == (AdmissionView { active: (old(self).view().active - 1) as nat, ..old(self).view() }),
            r == (final(self).view().active == 0),
    {
        self.active = self.active - 1;
        self.active == 0
    }

    /// Close the registry. Returns the retired services and slots, whose
    /// work the host cancels.
    pub fn close(&mut self) -> (r: (Vec<u64>, Vec<u64>))
        ensures
            final(self).view() == (AdmissionView { closed: true, ..old(self).view() }),
            r.0@ == old(self).view().retired,
            r.1@ == old(self).view().retired_slots,
    {
        self.closed = true;
        (self.retired.clone(), self.retired_slots.clone())
    }

    /// Keep a replaced service until its transport has closed.
    pub fn retire(&mut self, service: u64)
        ensures
            final(self).view() == (AdmissionView { retired: old(self).view().retired.push(service), ..old(self).view() }),
    {
        self.retired.push(service);
    }

    /// Keep a removed server's slot until its services have shut down.
    pub fn retire_slot(&mut self, slot: u64)
        ensures
            final(self).view() == (AdmissionView {
                retired_slots: old(self).view().retired_slots.push(slot),
                ..old(self).view()
            }),
    {
        self.retired_slots.push(slot);
    }

    /// Whether nothing is inside, so that joining may go on to the retired
    /// services.
    pub fn idle(&self) -> (r: bool)
        ensures
            r == (self.view().active == 0),
    {
        self.active == 0
    }

    /// The retired services and slots that joining waits for.
    pub fn pending(&self) -> (r: (Vec<u64>, Vec<u64>))
        ensures
            r.0@ == self.view().retired,
            r.1@ == self.view().retired_slots,
    {
        (self.retired.clone(), self.retired_slots.clone())
    }

    /// Services and slots the host has seen close leave the registry; those
    /// retired meanwhile stay.
    pub fn reap(&mut self, services: &Vec<u64>, slots: &Vec<u64>)
        ensures
            final(self).view() == (AdmissionView {
                retired: old(self).view().retired.filter(|s: u64| !services@.contains(s)),
                retired_slots: old(self).view().retired_slots.filter(|s: u64| !slots@.contains(s)),
                ..old(self).view()
            }),
    {
        self.retired = still_open(&self.retired, services);
        self.retired_slots = still_open(&self.retired_slots, slots);
    }
}

} // verus!
