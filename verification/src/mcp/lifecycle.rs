//! Published lifecycle of one MCP server binding: the state machine that
//! decides which transitions become events. Event identities, timestamps and
//! broadcasting belong to the host.

use vstd::prelude::*;

verus! {

/// Observable state of one server binding.
#[derive(Clone, Copy, PartialEq, Eq, Structural, Debug)]
pub enum McpServerState {
    Disabled,
    Connecting,
    Ready,
    AuthRequired,
    Failed,
    ShuttingDown,
}

/// Why a binding entered its state.
#[derive(Clone, Copy, PartialEq, Eq, Structural, Debug)]
pub enum McpStateReason {
    AuthenticationRequired,
    ConnectionFailed,
    IncompleteCatalog,
    InvalidBinding,
    Invalidated,
    Cancelled,
    Retired,
}

/// The latest published lifecycle of a binding, without its event identity
/// and timestamp. `generation` is the binding generation's 128-bit identity.
#[derive(Clone, Copy, PartialEq, Eq, Structural, Debug)]
pub struct LifecycleRecord {
    pub generation: u128,
    pub sequence: u64,
    pub state: McpServerState,
    pub reason: Option<McpStateReason>,
}

/// The record a publication produces: the next sequence number, saturating.
pub open spec fn next_record(latest: LifecycleRecord, generation: u128, next: McpServerState, reason: Option<McpStateReason>) -> LifecycleRecord {
    LifecycleRecord {
        generation,
        sequence: if latest.sequence < u64::MAX { (latest.sequence + 1) as u64 } else { u64::MAX },
        state: next,
        reason,
    }
}

/// A transition is published only for the current generation, never after
/// shutdown began, and never when it would repeat the latest state and reason.
pub open spec fn transition_publishes(latest: LifecycleRecord, generation: u128, next: McpServerState, reason: Option<McpStateReason>) -> bool {
    latest.generation == generation && latest.state != McpServerState::ShuttingDown && !(latest.state == next && latest.reason == reason)
}

fn same_reason(a: Option<McpStateReason>, b: Option<McpStateReason>) -> (r: bool)
    ensures
        r == (a == b),
{
    match (a, b) {
        (Some(x), Some(y)) => x == y,
        (None, None) => true,
        _ => false,
    }
}

/// The first record of a binding: waiting for authentication, or disabled.
pub fn initial_record(generation: u128, authentication_required: bool) -> (r: LifecycleRecord)
    ensures
        r.generation == generation,
        r.sequence == 0,
        r.state == (if authentication_required { McpServerState::AuthRequired } else { McpServerState::Disabled }),
        r.reason == (if authentication_required { Some(McpStateReason::AuthenticationRequired) } else { None }),
{
    if authentication_required {
        LifecycleRecord {
            generation,
            sequence: 0,
            state: McpServerState::AuthRequired,
            reason: Some(McpStateReason::AuthenticationRequired),
        }
    } else {
        LifecycleRecord { generation, sequence: 0, state: McpServerState::Disabled, reason: None }
    }
}

/// Publish a new state unconditionally.
pub fn publish(latest: LifecycleRecord, generation: u128, next: McpServerState, reason: Option<McpStateReason>) -> (r: LifecycleRecord)
    ensures
        r == next_record(latest, generation, next, reason),
{
    LifecycleRecord { generation, sequence: latest.sequence.saturating_add(1), state: next, reason }
}

/// A requested transition: the record to publish, or `None` when it is
/// stale, follows shutdown, or changes nothing.
pub fn transition(latest: LifecycleRecord, generation: u128, next: McpServerState, reason: Option<McpStateReason>) -> (r: Option<LifecycleRecord>)
    ensures
        r == if transition_publishes(latest, generation, next, reason) {
            Some(next_record(latest, generation, next, reason))
        } else {
            None
        },
{
    if latest.generation != generation || latest.state == McpServerState::ShuttingDown || (latest.state == next
        && same_reason(latest.reason, reason)) {
        return None;
    }
    Some(publish(latest, generation, next, reason))
}

/// A new generation begins disabled, for the given reason.
pub fn advance(latest: LifecycleRecord, generation: u128, reason: McpStateReason) -> (r: LifecycleRecord)
    ensures
        r == next_record(latest, generation, McpServerState::Disabled, Some(reason)),
{
    publish(latest, generation, McpServerState::Disabled, Some(reason))
}

/// An abandoned connection attempt of the current generation fails as cancelled.
pub fn cancel_connecting(latest: LifecycleRecord, generation: u128) -> (r: Option<LifecycleRecord>)
    ensures
        r == if latest.generation == generation && latest.state == McpServerState::Connecting {
            Some(next_record(latest, generation, McpServerState::Failed, Some(McpStateReason::Cancelled)))
        } else {
            None
        },
{
    if latest.generation == generation && latest.state == McpServerState::Connecting {
        Some(publish(latest, generation, McpServerState::Failed, Some(McpStateReason::Cancelled)))
    } else {
        None
    }
}

/// Whether a record counts as a healthy binding.
pub fn healthy(record: &LifecycleRecord) -> (r: bool)
    ensures
        r == (record.state == McpServerState::Ready),
{
    record.state == McpServerState::Ready
}

/// Once shutdown is published, no transition is published again, and every
/// published transition belongs to the current generation, changes the state
/// or reason, and advances the sequence unless it is saturated.
pub proof fn law_transitions_are_ordered(latest: LifecycleRecord, generation: u128, next: McpServerState, reason: Option<McpStateReason>)
    ensures
        latest.state == McpServerState::ShuttingDown ==> !transition_publishes(latest, generation, next, reason),
        transition_publishes(latest, generation, next, reason) ==> {
            let r = next_record(latest, generation, next, reason);
            &&& r.generation == latest.generation
            &&& (r.state != latest.state || r.reason != latest.reason)
            &&& (latest.sequence < u64::MAX ==> r.sequence == latest.sequence + 1)
            &&& r.sequence >= latest.sequence
        },
{
}

} // verus!
