//! Run-scoped delivery of MCP lifecycle events: which lifecycle snapshots a
//! run publishes, so that repeated preparation and concurrent waits on one
//! binding never publish a stale or repeated state. Subscriptions, the
//! event sink and the run's operations are the host's.

use vstd::prelude::*;

use crate::mcp::binding_cache::{BindingFailure, McpBindingError};
use crate::text::{owned, str_eq};

verus! {

/// What to do with one observed lifecycle snapshot.
#[derive(Clone, Copy, PartialEq, Eq, Structural, Debug)]
pub enum Delivery {
    /// Not newer than what this run already published: drop it.
    Skip,
    /// Publish it; `gap` says that intermediate transitions were not seen.
    Deliver { gap: bool },
}

/// The last sequence published for a binding, if any.
pub open spec fn last_delivered(d: Seq<(u128, u64)>, binding: u128) -> Option<u64>
    decreases d.len(),
{
    if d.len() == 0 {
        None
    } else if d.last().0 == binding {
        Some(d.last().1)
    } else {
        last_delivered(d.drop_last(), binding)
    }
}

/// The decision for a snapshot of `binding` at `sequence`.
pub open spec fn delivery_for(d: Seq<(u128, u64)>, binding: u128, sequence: u64) -> Delivery {
    match last_delivered(d, binding) {
        Some(p) => if sequence <= p {
            Delivery::Skip
        } else {
            Delivery::Deliver { gap: sequence > p + 1 }
        },
        None => Delivery::Deliver { gap: false },
    }
}

/// Lifecycle delivery for one run and its verified owner.
pub struct McpRunEvents {
    run_id: String,
    owner: String,
    delivered: Vec<(u128, u64)>,
}

impl McpRunEvents {
    pub closed spec fn delivered(&self) -> Seq<(u128, u64)> {
        self.delivered@
    }

    pub closed spec fn run(&self) -> Seq<char> {
        self.run_id@
    }

    pub closed spec fn owner_id(&self) -> Seq<char> {
        self.owner@
    }

    /// Delivery for a run, nothing published yet.
    pub fn new(run_id: String, owner: String) -> (r: McpRunEvents)
        ensures
            r.run() == run_id@,
            r.owner_id() == owner@,
            r.delivered() == Seq::<(u128, u64)>::empty(),
    {
        McpRunEvents { run_id, owner, delivered: Vec::new() }
    }

    /// The run whose events these are.
    pub fn run_id(&self) -> (r: &str)
        ensures
            r@ == self.run(),
    {
        self.run_id.as_str()
    }

    /// Only the run's own owner may observe a binding through it.
    pub fn check_owner(&self, owner: &str, server: &str) -> (r: Result<(), McpBindingError>)
        ensures
            match r {
                Ok(()) => owner@ == self.owner_id(),
                Err(e) => owner@ != self.owner_id() && e.view() == BindingFailure::InvalidBinding(server@),
            },
    {
        if str_eq(owner, self.owner.as_str()) {
            Ok(())
        } else {
            Err(McpBindingError::InvalidBinding { server: owned(server) })
        }
    }

    /// Decide whether to publish a snapshot, and record it when published.
    pub fn decide(&mut self, binding: u128, sequence: u64) -> (r: Delivery)
        ensures
            r == delivery_for(old(self).delivered(), binding, sequence),
            final(self).run() == old(self).run(),
            final(self).owner_id() == old(self).owner_id(),
            final(self).delivered() == if r == Delivery::Skip {
                old(self).delivered()
            } else {
                old(self).delivered().push((binding, sequence))
            },
    {
        let ghost d = self.delivered@;
        let mut i: usize = self.delivered.len();
        assert(d.take(d.len() as int) =~= d);
        let mut previous: Option<u64> = None;
        while i > 0 && previous.is_none()
            invariant
                d == self.delivered@,
                i <= d.len(),
                previous is None ==> last_delivered(d, binding) == last_delivered(d.take(i as int), binding),
                previous matches Some(p) ==> last_delivered(d, binding) == Some(p),
            decreases i, (if previous is None { 1int } else { 0int }),
        {
            let ghost t = d.take(i as int);
            assert(t.drop_last() =~= d.take(i - 1));
            assert(t.last() == d[i - 1]);
            if self.delivered[i - 1].0 == binding {
                previous = Some(self.delivered[i - 1].1);
            } else {
                i = i - 1;
            }
        }
        if previous.is_none() {
            assert(d.take(0) =~= Seq::<(u128, u64)>::empty());
        }
        let decision = match previous {
            Some(p) => if sequence <= p {
                Delivery::Skip
            } else {
                Delivery::Deliver { gap: sequence - p > 1 }
            },
            None => Delivery::Deliver { gap: false },
        };
        if decision != Delivery::Skip {
            self.delivered.push((binding, sequence));
        }
        decision
    }
}

/// Within one run, the published sequences of a binding strictly increase:
/// a snapshot is published only when newer than the last one, and then it
/// becomes the last one.
pub proof fn law_published_sequences_increase(d: Seq<(u128, u64)>, binding: u128, sequence: u64)
    ensures
        delivery_for(d, binding, sequence) != Delivery::Skip ==> (last_delivered(d.push((binding, sequence)), binding) == Some(sequence)
            && (last_delivered(d, binding) matches Some(p) ==> p < sequence)),
        delivery_for(d, binding, sequence) == Delivery::Skip ==> (last_delivered(d, binding) matches Some(p) && sequence <= p),
{
    assert(d.push((binding, sequence)).drop_last() =~= d);
}

} // verus!
