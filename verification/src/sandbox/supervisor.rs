//! The supervisor of sandbox runs: which runs are open, the operations each
//! retains, and the admission, completion and drain decisions that keep an
//! operation with an unconfirmed effect retained instead of forgotten. The
//! owning tasks, cancellation tokens and clocks are the host's; it reports
//! what they observe, and names runs and operations by the serials handed
//! out here.

use vstd::prelude::*;

use crate::ids::{fresh_id, hyphenated};
use crate::sandbox::execution::{
    next_phase, phase_after, OperationEvent, SandboxExecutionError, SandboxOperationPhase, SandboxOperationSnapshot,
};
use crate::sandbox::runner::RunnerType;
use crate::text::{chars_lt, lemma_chars_lt_irreflexive, lemma_chars_lt_total, lemma_chars_lt_transitive, owned, str_eq, str_less};

verus! {

/// One operation a run retains, as plain values.
pub struct OperationView {
    pub serial: u64,
    pub id: Seq<char>,
    pub phase: SandboxOperationPhase,
    pub sandbox_id: Option<Seq<char>>,
    pub runner_type: RunnerType,
}

/// One open run, as plain values.
pub struct RunView {
    pub serial: u64,
    pub id: Seq<char>,
    /// The supervisor cancelled the run's scope.
    pub cancelled: bool,
    /// The run admits no further operations.
    pub closed: bool,
    pub operations: Seq<OperationView>,
}

pub struct SupervisorView {
    pub closed: bool,
    pub runs: Seq<RunView>,
    /// The last serial handed out to a run or an operation.
    pub last_serial: u64,
}

struct OperationRecord {
    serial: u64,
    id: String,
    phase: SandboxOperationPhase,
    sandbox_id: Option<String>,
    runner_type: RunnerType,
}

impl OperationRecord {
    spec fn view(&self) -> OperationView {
        OperationView {
            serial: self.serial,
            id: self.id@,
            phase: self.phase,
            sandbox_id: match self.sandbox_id {
                Some(s) => Some(s@),
                None => None,
            },
            runner_type: self.runner_type,
        }
    }
}

spec fn operation_views(v: Seq<OperationRecord>) -> Seq<OperationView> {
    v.map_values(|o: OperationRecord| o.view())
}

struct RunRecord {
    serial: u64,
    id: String,
    cancelled: bool,
    closed: bool,
    operations: Vec<OperationRecord>,
}

impl RunRecord {
    spec fn view(&self) -> RunView {
        RunView {
            serial: self.serial,
            id: self.id@,
            cancelled: self.cancelled,
            closed: self.closed,
            operations: operation_views(self.operations@),
        }
    }
}

spec fn run_views(v: Seq<RunRecord>) -> Seq<RunView> {
    v.map_values(|r: RunRecord| r.view())
}

/// The position of the run with a serial, or -1.
pub open spec fn run_index(runs: Seq<RunView>, serial: u64) -> int
    decreases runs.len(),
{
    if runs.len() == 0 {
        -1
    } else if runs.last().serial == serial {
        runs.len() - 1
    } else {
        run_index(runs.drop_last(), serial)
    }
}

/// The position of the operation with a serial, or -1.
pub open spec fn operation_index(ops: Seq<OperationView>, serial: u64) -> int
    decreases ops.len(),
{
    if ops.len() == 0 {
        -1
    } else if ops.last().serial == serial {
        ops.len() - 1
    } else {
        operation_index(ops.drop_last(), serial)
    }
}

/// Whether an open run has this identity.
pub open spec fn run_named(runs: Seq<RunView>, id: Seq<char>) -> bool {
    exists|k: int| 0 <= k < runs.len() && #[trigger] runs[k].id == id
}

/// Runs in increasing identity order.
pub open spec fn runs_sorted(runs: Seq<RunView>) -> bool {
    forall|a: int, b: int| 0 <= a < b < runs.len() ==> chars_lt(#[trigger] runs[a].id, #[trigger] runs[b].id)
}

/// Where a run with this identity goes among runs in identity order: after
/// every run whose identity precedes it.
pub open spec fn run_slot(runs: Seq<RunView>, id: Seq<char>) -> int
    decreases runs.len(),
{
    if runs.len() == 0 {
        0
    } else if !chars_lt(runs[0].id, id) {
        0
    } else {
        1 + run_slot(runs.drop_first(), id)
    }
}

proof fn lemma_run_slot(runs: Seq<RunView>, id: Seq<char>)
    ensures
        0 <= run_slot(runs, id) <= runs.len(),
        forall|a: int| 0 <= a < run_slot(runs, id) ==> chars_lt(#[trigger] runs[a].id, id),
        run_slot(runs, id) < runs.len() ==> !chars_lt(runs[run_slot(runs, id)].id, id),
    decreases runs.len(),
{
    if runs.len() > 0 && chars_lt(runs[0].id, id) {
        lemma_run_slot(runs.drop_first(), id);
        assert forall|a: int| 0 <= a < run_slot(runs, id) implies chars_lt(#[trigger] runs[a].id, id) by {
            if a > 0 {
                assert(runs[a] == runs.drop_first()[a - 1]);
            }
        }
    }
}

/// Distinct serials and run identities, runs in identity order, none beyond
/// the last serial.
pub open spec fn supervisor_well_formed(v: SupervisorView) -> bool {
    &&& forall|a: int, b: int| 0 <= a < b < v.runs.len() ==> #[trigger] v.runs[a].serial != #[trigger] v.runs[b].serial
    &&& forall|a: int, b: int| 0 <= a < b < v.runs.len() ==> #[trigger] v.runs[a].id != #[trigger] v.runs[b].id
    &&& runs_sorted(v.runs)
    &&& forall|k: int| 0 <= k < v.runs.len() ==> (#[trigger] v.runs[k]).serial <= v.last_serial
    &&& forall|k: int, a: int, b: int| 0 <= k < v.runs.len() && 0 <= a < b < v.runs[k].operations.len() ==> #[trigger] v.runs[k].operations[a].serial
        != #[trigger] v.runs[k].operations[b].serial
    &&& forall|k: int, a: int| 0 <= k < v.runs.len() && 0 <= a < v.runs[k].operations.len() ==> (#[trigger] v.runs[k].operations[a]).serial
        <= v.last_serial
}

proof fn lemma_run_index(runs: Seq<RunView>, serial: u64)
    ensures
        -1 <= run_index(runs, serial) < runs.len(),
        run_index(runs, serial) >= 0 ==> runs[run_index(runs, serial)].serial == serial,
        run_index(runs, serial) == -1 ==> forall|k: int| 0 <= k < runs.len() ==> #[trigger] runs[k].serial != serial,
    decreases runs.len(),
{
    if runs.len() > 0 {
        lemma_run_index(runs.drop_last(), serial);
        if run_index(runs, serial) == -1 {
            assert forall|k: int| 0 <= k < runs.len() implies #[trigger] runs[k].serial != serial by {
                if k < runs.len() - 1 {
                    assert(runs.drop_last()[k] == runs[k]);
                }
            }
        }
        if run_index(runs, serial) >= 0 && runs.last().serial != serial {
            assert(runs.drop_last()[run_index(runs, serial)] == runs[run_index(runs, serial)]);
        }
    }
}

proof fn lemma_operation_index(ops: Seq<OperationView>, serial: u64)
    ensures
        -1 <= operation_index(ops, serial) < ops.len(),
        operation_index(ops, serial) >= 0 ==> ops[operation_index(ops, serial)].serial == serial,
        operation_index(ops, serial) == -1 ==> forall|k: int| 0 <= k < ops.len() ==> #[trigger] ops[k].serial != serial,
    decreases ops.len(),
{
    if ops.len() > 0 {
        lemma_operation_index(ops.drop_last(), serial);
        if operation_index(ops, serial) == -1 {
            assert forall|k: int| 0 <= k < ops.len() implies #[trigger] ops[k].serial != serial by {
                if k < ops.len() - 1 {
                    assert(ops.drop_last()[k] == ops[k]);
                }
            }
        }
        if operation_index(ops, serial) >= 0 && ops.last().serial != serial {
            assert(ops.drop_last()[operation_index(ops, serial)] == ops[operation_index(ops, serial)]);
        }
    }
}

/// Manager-owned registry of runs. Operations with an unconfirmed effect
/// stay listed for later drains and diagnostics; a second drain cannot turn
/// uncertainty into success.
pub struct SandboxSupervisor {
    closed: bool,
    runs: Vec<RunRecord>,
    last_serial: u64,
}

impl SandboxSupervisor {
    pub closed spec fn view(&self) -> SupervisorView {
        SupervisorView { closed: self.closed, runs: run_views(self.runs@), last_serial: self.last_serial }
    }

    #[verifier::type_invariant]
    spec fn well_formed(&self) -> bool {
        supervisor_well_formed(self.view())
    }

    /// An open supervisor without runs.
    pub fn new() -> (r: SandboxSupervisor)
        ensures
            r.view() == (SupervisorView { closed: false, runs: Seq::empty(), last_serial: 0 }),
    {
        let r = SandboxSupervisor { closed: false, runs: Vec::new(), last_serial: 0 };
        assert(run_views(r.runs@) =~= Seq::<RunView>::empty());
        r
    }

    fn find_run(&self, serial: u64) -> (r: Option<usize>)
        ensures
            match r {
                Some(i) => i as int == run_index(self.view().runs, serial) && i < self.view().runs.len(),
                None => run_index(self.view().runs, serial) == -1,
            },
    {
        proof {
            use_type_invariant(self);
            lemma_run_index(self.view().runs, serial);
        }
        let ghost rs = self.view().runs;
        let mut i: usize = self.runs.len();
        assert(rs.take(rs.len() as int) =~= rs);
        while i > 0
            invariant
                rs == run_views(self.runs@),
                i <= rs.len(),
                run_index(rs, serial) == run_index(rs.take(i as int), serial),
            decreases i,
        {
            let ghost t = rs.take(i as int);
            assert(t.drop_last() =~= rs.take(i - 1));
            assert(t.last() == self.runs@[i - 1].view());
            if self.runs[i - 1].serial == serial {
                return Some(i - 1);
            }
            i = i - 1;
        }
        assert(rs.take(0) =~= Seq::<RunView>::empty());
        None
    }

    fn has_run_named(&self, id: &str) -> (r: bool)
        ensures
            r == run_named(self.view().runs, id@),
    {
        let ghost rs = self.view().runs;
        let mut i: usize = 0;
        while i < self.runs.len()
            invariant
                rs == run_views(self.runs@),
                i <= rs.len(),
                forall|k: int| 0 <= k < i ==> #[trigger] rs[k].id != id@,
            decreases self.runs.len() - i,
        {
            assert(rs[i as int] == self.runs@[i as int].view());
            if str_eq(self.runs[i].id.as_str(), id) {
                assert(rs[i as int].id == id@);
                return true;
            }
            i = i + 1;
        }
        false
    }

    /// Register a run before exposing its execution scope. Refused with
    /// `Unavailable` after shutdown, when the caller's scope is already
    /// cancelled, or for an identity already open; with `DeadlineExceeded`
    /// when its deadline has passed.
    pub fn open_run(&mut self, run_id: &str, cancelled: bool, deadline_passed: bool) -> (r: Result<u64, SandboxExecutionError>)
        ensures
            ({
                let v = old(self).view();
                if v.closed || cancelled || run_named(v.runs, run_id@) {
                    r matches Err(SandboxExecutionError::Unavailable) && final(self).view() == v
                } else if deadline_passed {
                    r matches Err(SandboxExecutionError::DeadlineExceeded) && final(self).view() == v
                } else if v.last_serial == u64::MAX {
                    r matches Err(SandboxExecutionError::Unavailable) && final(self).view() == v
                } else {
                    let s = (v.last_serial + 1) as u64;
                    r matches Ok(x) && x == s && final(self).view() == (SupervisorView {
                        runs: v.runs.insert(
                            run_slot(v.runs, run_id@),
                            RunView { serial: s, id: run_id@, cancelled: false, closed: false, operations: Seq::empty() },
                        ),
                        last_serial: s,
                        ..v
                    })
                }
            }),
    {
        proof {
            use_type_invariant(&*self);
        }
        if self.closed || cancelled || self.has_run_named(run_id) {
            return Err(SandboxExecutionError::Unavailable);
        }
        if deadline_passed {
            return Err(SandboxExecutionError::DeadlineExceeded);
        }
        if self.last_serial == u64::MAX {
            return Err(SandboxExecutionError::Unavailable);
        }
        let s = self.last_serial + 1;
        let ghost v = self.view();
        let record = RunRecord { serial: s, id: owned(run_id), cancelled: false, closed: false, operations: Vec::new() };
        assert(operation_views(record.operations@) =~= Seq::<OperationView>::empty());
        let ghost rec = RunView { serial: s, id: run_id@, cancelled: false, closed: false, operations: Seq::empty() };
        let mut pos: usize = 0;
        proof {
            lemma_run_slot(v.runs, run_id@);
        }
        while pos < self.runs.len() && str_less(self.runs[pos].id.as_str(), run_id)
            invariant
                v == self.view(),
                pos <= v.runs.len(),
                run_slot(v.runs, run_id@) >= pos,
                forall|a: int| 0 <= a < pos ==> chars_lt(#[trigger] v.runs[a].id, run_id@),
            decreases self.runs.len() - pos,
        {
            proof {
                lemma_run_slot(v.runs, run_id@);
                assert(v.runs[pos as int] == self.runs@[pos as int].view());
                if run_slot(v.runs, run_id@) == pos {
                    assert(!chars_lt(v.runs[pos as int].id, run_id@));
                }
            }
            pos = pos + 1;
        }
        proof {
            lemma_run_slot(v.runs, run_id@);
            if pos < v.runs.len() {
                assert(v.runs[pos as int] == self.runs@[pos as int].view());
                if run_slot(v.runs, run_id@) > pos {
                    assert(chars_lt(v.runs[pos as int].id, run_id@));
                }
            }
            assert(run_slot(v.runs, run_id@) == pos);
        }
        let mut runs = Vec::new();
        std::mem::swap(&mut runs, &mut self.runs);
        runs.insert(pos, record);
        assert(run_views(runs@) =~= v.runs.insert(pos as int, rec));
        proof {
            let w = v.runs.insert(pos as int, rec);
            if pos < v.runs.len() {
                lemma_chars_lt_total(v.runs[pos as int].id, run_id@);
                assert(v.runs[pos as int].id != run_id@);
            }
            assert forall|a: int, b: int| 0 <= a < b < w.len() implies chars_lt(#[trigger] w[a].id, #[trigger] w[b].id) by {
                if b == pos {
                    assert(w[a] == v.runs[a]);
                } else if a == pos {
                    assert(w[b] == v.runs[b - 1]);
                    if b - 1 > pos {
                        lemma_chars_lt_transitive(run_id@, v.runs[pos as int].id, v.runs[b - 1].id);
                    }
                } else {
                    let a2 = if a < pos { a } else { a - 1 };
                    let b2 = if b < pos { b } else { b - 1 };
                    assert(w[a] == v.runs[a2] && w[b] == v.runs[b2]);
                }
            }
            assert forall|a: int, b: int| 0 <= a < b < w.len() implies #[trigger] w[a].id != #[trigger] w[b].id by {
                lemma_chars_lt_irreflexive(w[a].id);
            }
            assert forall|a: int, b: int| 0 <= a < b < w.len() implies #[trigger] w[a].serial != #[trigger] w[b].serial by {
                let a2 = if a < pos { a } else { a - 1 };
                let b2 = if b < pos { b } else { b - 1 };
                if a != pos && b != pos {
                    assert(w[a] == v.runs[a2] && w[b] == v.runs[b2]);
                } else if a == pos {
                    assert(w[b] == v.runs[b2]);
                } else {
                    assert(w[a] == v.runs[a2]);
                }
            }
        }
        self.last_serial = s;
        self.runs = runs;
        Ok(s)
    }

    /// Admit one operation into a run: refused with `Unavailable` when the
    /// run is gone or closed, or its scope is cancelled; with
    /// `DeadlineExceeded` when its deadline has passed. An admitted operation
    /// starts pending, under a fresh random identity.
    pub fn admit_operation(&mut self, run: u64, cancelled: bool, deadline_passed: bool, runner_type: RunnerType) -> (r: Result<(u64, String), SandboxExecutionError>)
        ensures
            ({
                let v = old(self).view();
                let i = run_index(v.runs, run);
                if i < 0 || v.runs[i].closed || v.runs[i].cancelled || cancelled {
                    r matches Err(SandboxExecutionError::Unavailable) && final(self).view() == v
                } else if deadline_passed {
                    r matches Err(SandboxExecutionError::DeadlineExceeded) && final(self).view() == v
                } else if v.last_serial == u64::MAX {
                    r matches Err(SandboxExecutionError::Unavailable) && final(self).view() == v
                } else {
                    let s = (v.last_serial + 1) as u64;
                    r matches Ok(p) && p.0 == s && (exists|b: Seq<u8>| crate::ids::v4_bytes(b) && p.1@ == hyphenated(b)) && final(self).view() == (SupervisorView {
                        runs: v.runs.update(i, RunView {
                            operations: v.runs[i].operations.push(OperationView {
                                serial: s,
                                id: p.1@,
                                phase: SandboxOperationPhase::Pending,
                                sandbox_id: None,
                                runner_type,
                            }),
                            ..v.runs[i]
                        }),
                        last_serial: s,
                        ..v
                    })
                }
            }),
    {
        proof {
            use_type_invariant(&*self);
        }
        let i = match self.find_run(run) {
            Some(i) => i,
            None => return Err(SandboxExecutionError::Unavailable),
        };
        let ghost v = self.view();
        assert(v.runs[i as int] == self.runs@[i as int].view());
        if self.runs[i].closed || self.runs[i].cancelled || cancelled {
            return Err(SandboxExecutionError::Unavailable);
        }
        if deadline_passed {
            return Err(SandboxExecutionError::DeadlineExceeded);
        }
        if self.last_serial == u64::MAX {
            return Err(SandboxExecutionError::Unavailable);
        }
        let s = self.last_serial + 1;
        let id = fresh_id();
        let op = OperationRecord { serial: s, id: owned(id.as_str()), phase: SandboxOperationPhase::Pending, sandbox_id: None, runner_type };
        let mut runs = Vec::new();
        std::mem::swap(&mut runs, &mut self.runs);
        let mut rec = runs.remove(i);
        let ghost ob = rec.operations@;
        rec.operations.push(op);
        assert(operation_views(rec.operations@) =~= operation_views(ob).push(OperationView {
            serial: s,
            id: id@,
            phase: SandboxOperationPhase::Pending,
            sandbox_id: None,
            runner_type,
        }));
        runs.insert(i, rec);
        let ghost nv = SupervisorView {
            runs: v.runs.update(i as int, RunView {
                operations: v.runs[i as int].operations.push(OperationView {
                    serial: s,
                    id: id@,
                    phase: SandboxOperationPhase::Pending,
                    sandbox_id: None,
                    runner_type,
                }),
                ..v.runs[i as int]
            }),
            last_serial: s,
            ..v
        };
        assert(run_views(runs@) =~= nv.runs);
        proof {
            let nr = nv.runs;
            assert forall|k: int, a: int, b: int| 0 <= k < nr.len() && 0 <= a < b < nr[k].operations.len() implies #[trigger] nr[k].operations[a].serial
                != #[trigger] nr[k].operations[b].serial by {
                if k == i {
                    if b == nr[k].operations.len() - 1 {
                        assert(nr[k].operations[a] == v.runs[k].operations[a]);
                    } else {
                        assert(nr[k].operations[a] == v.runs[k].operations[a]);
                        assert(nr[k].operations[b] == v.runs[k].operations[b]);
                    }
                } else {
                    assert(nr[k] == v.runs[k]);
                }
            }
            assert forall|k: int, a: int| 0 <= k < nr.len() && 0 <= a < nr[k].operations.len() implies (#[trigger] nr[k].operations[a]).serial
                <= s by {
                if k == i && a < nr[k].operations.len() - 1 {
                    assert(nr[k].operations[a] == v.runs[k].operations[a]);
                } else if k != i {
                    assert(nr[k] == v.runs[k]);
                }
            }
            assert forall|k: int| 0 <= k < nr.len() implies (#[trigger] nr[k]).serial <= s by {
                assert(nr[k].serial == v.runs[k].serial);
            }
            assert forall|x: int, y: int| 0 <= x < y < nr.len() implies #[trigger] nr[x].serial != #[trigger] nr[y].serial by {
                assert(nr[x].serial == v.runs[x].serial && nr[y].serial == v.runs[y].serial);
            }
            assert forall|x: int, y: int| 0 <= x < y < nr.len() implies #[trigger] nr[x].id != #[trigger] nr[y].id by {
                assert(nr[x].id == v.runs[x].id && nr[y].id == v.runs[y].id);
            }
        }
        self.last_serial = s;
        self.runs = runs;
        Ok((s, id))
    }
}

pub open spec fn opt_string(o: Option<String>) -> Option<Seq<char>> {
    match o {
        Some(s) => Some(s@),
        None => None,
    }
}

/// An operation after its owning task observes an event; a created
/// sandbox's identity is recorded with it.
pub open spec fn advanced(o: OperationView, event: OperationEvent, sandbox_id: Option<Seq<char>>) -> OperationView {
    OperationView {
        phase: phase_after(o.phase, event),
        sandbox_id: if event == OperationEvent::Created && o.phase == SandboxOperationPhase::Creating {
            sandbox_id
        } else if event == OperationEvent::Destroyed && o.phase == SandboxOperationPhase::Destroying {
            None
        } else {
            o.sandbox_id
        },
        ..o
    }
}

/// An operation whose sandbox is known to be gone, or never existed.
pub open spec fn confirmed(o: OperationView) -> bool {
    o.phase == SandboxOperationPhase::Pending || o.phase == SandboxOperationPhase::Released
}

/// The supervisor with one run replaced.
pub open spec fn with_run(v: SupervisorView, i: int, r: RunView) -> SupervisorView {
    SupervisorView { runs: v.runs.update(i, r), ..v }
}

/// The operation of a run with a serial, if both exist.
pub open spec fn located(v: SupervisorView, run: u64, op: u64) -> bool {
    run_index(v.runs, run) >= 0 && operation_index(v.runs[run_index(v.runs, run)].operations, op) >= 0
}

pub open spec fn op_at(v: SupervisorView, run: u64, op: u64) -> OperationView {
    v.runs[run_index(v.runs, run)].operations[operation_index(v.runs[run_index(v.runs, run)].operations, op)]
}

/// Diagnostics of one retained operation, as plain values.
pub struct SnapshotView {
    pub run_id: Seq<char>,
    pub operation_id: Seq<char>,
    pub sandbox_id: Option<Seq<char>>,
    pub phase: SandboxOperationPhase,
    pub runner_type: RunnerType,
}

pub open spec fn snapshot_view(s: SandboxOperationSnapshot) -> SnapshotView {
    SnapshotView {
        run_id: s.run_id@,
        operation_id: s.operation_id@,
        sandbox_id: opt_string(s.sandbox_id),
        phase: s.phase,
        runner_type: s.runner_type,
    }
}

/// The diagnostics of every retained operation, run by run.
pub open spec fn snapshots(runs: Seq<RunView>) -> Seq<SnapshotView>
    decreases runs.len(),
{
    if runs.len() == 0 {
        Seq::empty()
    } else {
        snapshots(runs.drop_last()) + runs.last().operations.map_values(|o: OperationView| SnapshotView {
            run_id: runs.last().id,
            operation_id: o.id,
            sandbox_id: o.sandbox_id,
            phase: o.phase,
            runner_type: o.runner_type,
        })
    }
}

impl SandboxSupervisor {
    fn find_operation(&self, i: usize, serial: u64) -> (r: Option<usize>)
        requires
            i < self.view().runs.len(),
        ensures
            match r {
                Some(k) => k as int == operation_index(self.view().runs[i as int].operations, serial)
                    && k < self.view().runs[i as int].operations.len(),
                None => operation_index(self.view().runs[i as int].operations, serial) == -1,
            },
    {
        let ghost os = self.view().runs[i as int].operations;
        assert(os == operation_views(self.runs@[i as int].operations@));
        proof {
            lemma_operation_index(os, serial);
        }
        let mut k: usize = self.runs[i].operations.len();
        assert(os.take(os.len() as int) =~= os);
        while k > 0
            invariant
                i < self.runs@.len(),
                os == operation_views(self.runs@[i as int].operations@),
                k <= os.len(),
                operation_index(os, serial) == operation_index(os.take(k as int), serial),
            decreases k,
        {
            let ghost t = os.take(k as int);
            assert(t.drop_last() =~= os.take(k - 1));
            assert(t.last() == self.runs@[i as int].operations@[k - 1].view());
            if self.runs[i].operations[k - 1].serial == serial {
                return Some(k - 1);
            }
            k = k - 1;
        }
        assert(os.take(0) =~= Seq::<OperationView>::empty());
        None
    }

    /// Record what an operation's owning task observed: the created
    /// sandbox's identity is kept until its destruction is confirmed.
    /// Returns the operation's new phase, or `None` for an unknown operation.
    pub fn advance_operation(&mut self, run: u64, op: u64, event: OperationEvent, sandbox_id: Option<String>) -> (r: Option<SandboxOperationPhase>)
        ensures
            ({
                let v = old(self).view();
                if located(v, run, op) {
                    let i = run_index(v.runs, run);
                    let o2 = advanced(op_at(v, run, op), event, opt_string(sandbox_id));
                    r == Some(o2.phase) && final(self).view() == with_run(
                        v,
                        i,
                        RunView { operations: v.runs[i].operations.update(operation_index(v.runs[i].operations, op), o2), ..v.runs[i] },
                    )
                } else {
                    r is None && final(self).view() == v
                }
            }),
    {
        proof {
            use_type_invariant(&*self);
        }
        let ghost v = self.view();
        let i = match self.find_run(run) {
            Some(i) => i,
            None => return None,
        };
        let k = match self.find_operation(i, op) {
            Some(k) => k,
            None => return None,
        };
        assert(v.runs[i as int] == self.runs@[i as int].view());
        let mut runs = Vec::new();
        std::mem::swap(&mut runs, &mut self.runs);
        let mut rec = runs.remove(i);
        let ghost ob = operation_views(rec.operations@);
        let mut o = rec.operations.remove(k);
        assert(ob[k as int] == o.view());
        let before = o.phase;
        let phase = next_phase(o.phase, event);
        o.phase = phase;
        if event == OperationEvent::Created && before == SandboxOperationPhase::Creating {
            o.sandbox_id = sandbox_id;
        } else if event == OperationEvent::Destroyed && before == SandboxOperationPhase::Destroying {
            o.sandbox_id = None;
        }
        let ghost o2 = o.view();
        rec.operations.insert(k, o);
        assert(operation_views(rec.operations@) =~= ob.update(k as int, o2));
        runs.insert(i, rec);
        let ghost nv = with_run(v, i as int, RunView { operations: ob.update(k as int, o2), ..v.runs[i as int] });
        assert(run_views(runs@) =~= nv.runs);
        proof {
            lemma_replaced_operation_keeps_well_formed(v, i as int, k as int, o2);
        }
        self.runs = runs;
        Some(phase)
    }

    fn drop_operation(&mut self, i: usize, k: usize)
        requires
            i < old(self).view().runs.len(),
            k < old(self).view().runs[i as int].operations.len(),
        ensures
            final(self).view() == with_run(
                old(self).view(),
                i as int,
                RunView { operations: old(self).view().runs[i as int].operations.remove(k as int), ..old(self).view().runs[i as int] },
            ),
    {
        proof {
            use_type_invariant(&*self);
        }
        let ghost v = self.view();
        assert(v.runs[i as int] == self.runs@[i as int].view());
        let mut runs = Vec::new();
        std::mem::swap(&mut runs, &mut self.runs);
        let mut rec = runs.remove(i);
        let ghost ob = operation_views(rec.operations@);
        let _ = rec.operations.remove(k);
        assert(operation_views(rec.operations@) =~= ob.remove(k as int));
        runs.insert(i, rec);
        let ghost nv = with_run(v, i as int, RunView { operations: ob.remove(k as int), ..v.runs[i as int] });
        assert(run_views(runs@) =~= nv.runs);
        proof {
            let nr = nv.runs;
            let os = v.runs[i as int].operations;
            assert forall|x: int, a: int, b: int| 0 <= x < nr.len() && 0 <= a < b < nr[x].operations.len() implies #[trigger] nr[x].operations[a].serial
                != #[trigger] nr[x].operations[b].serial by {
                if x == i {
                    let a2 = if a < k { a } else { a + 1 };
                    let b2 = if b < k { b } else { b + 1 };
                    assert(nr[x].operations[a] == os[a2]);
                    assert(nr[x].operations[b] == os[b2]);
                } else {
                    assert(nr[x] == v.runs[x]);
                }
            }
            assert forall|x: int, a: int| 0 <= x < nr.len() && 0 <= a < nr[x].operations.len() implies (#[trigger] nr[x].operations[a]).serial
                <= v.last_serial by {
                if x == i {
                    let a2 = if a < k { a } else { a + 1 };
                    assert(nr[x].operations[a] == os[a2]);
                } else {
                    assert(nr[x] == v.runs[x]);
                }
            }
            assert forall|x: int| 0 <= x < nr.len() implies (#[trigger] nr[x]).serial <= v.last_serial by {
                assert(nr[x].serial == v.runs[x].serial);
            }
            assert forall|x: int, y: int| 0 <= x < y < nr.len() implies #[trigger] nr[x].serial != #[trigger] nr[y].serial by {
                assert(nr[x].serial == v.runs[x].serial && nr[y].serial == v.runs[y].serial);
            }
            assert forall|x: int, y: int| 0 <= x < y < nr.len() implies #[trigger] nr[x].id != #[trigger] nr[y].id by {
                assert(nr[x].id == v.runs[x].id && nr[y].id == v.runs[y].id);
            }
        }
        self.runs = runs;
    }

    fn set_run_flags(&mut self, i: usize, cancelled: bool, closed: bool)
        requires
            i < old(self).view().runs.len(),
        ensures
            final(self).view() == with_run(
                old(self).view(),
                i as int,
                RunView { cancelled, closed, ..old(self).view().runs[i as int] },
            ),
    {
        proof {
            use_type_invariant(&*self);
        }
        let ghost v = self.view();
        assert(v.runs[i as int] == self.runs@[i as int].view());
        let mut runs = Vec::new();
        std::mem::swap(&mut runs, &mut self.runs);
        let mut rec = runs.remove(i);
        rec.cancelled = cancelled;
        rec.closed = closed;
        runs.insert(i, rec);
        let ghost nv = with_run(v, i as int, RunView { cancelled, closed, ..v.runs[i as int] });
        assert(run_views(runs@) =~= nv.runs);
        proof {
            let nr = nv.runs;
            assert forall|x: int, a: int, b: int| 0 <= x < nr.len() && 0 <= a < b < nr[x].operations.len() implies #[trigger] nr[x].operations[a].serial
                != #[trigger] nr[x].operations[b].serial by {
                assert(nr[x].operations == v.runs[x].operations);
            }
            assert forall|x: int, a: int| 0 <= x < nr.len() && 0 <= a < nr[x].operations.len() implies (#[trigger] nr[x].operations[a]).serial
                <= v.last_serial by {
                assert(nr[x].operations == v.runs[x].operations);
            }
            assert forall|x: int| 0 <= x < nr.len() implies (#[trigger] nr[x]).serial <= v.last_serial by {
                assert(nr[x].serial == v.runs[x].serial);
            }
            assert forall|x: int, y: int| 0 <= x < y < nr.len() implies #[trigger] nr[x].serial != #[trigger] nr[y].serial by {
                assert(nr[x].serial == v.runs[x].serial && nr[y].serial == v.runs[y].serial);
            }
            assert forall|x: int, y: int| 0 <= x < y < nr.len() implies #[trigger] nr[x].id != #[trigger] nr[y].id by {
                assert(nr[x].id == v.runs[x].id && nr[y].id == v.runs[y].id);
            }
        }
        self.runs = runs;
    }

    /// An operation's owning task has finished, on the path that awaited it:
    /// a confirmed operation is forgotten; otherwise it stays listed and its
    /// run is cancelled, so no further mutation is authorized while the
    /// earlier effect is unresolved. Returns whether cleanup was confirmed.
    pub fn finish_operation(&mut self, run: u64, op: u64) -> (r: Option<bool>)
        ensures
            ({
                let v = old(self).view();
                let i = run_index(v.runs, run);
                if located(v, run, op) {
                    let k = operation_index(v.runs[i].operations, op);
                    if confirmed(op_at(v, run, op)) {
                        r == Some(true) && final(self).view() == with_run(v, i, RunView { operations: v.runs[i].operations.remove(k), ..v.runs[i] })
                    } else {
                        r == Some(false) && final(self).view() == with_run(v, i, RunView { cancelled: true, ..v.runs[i] })
                    }
                } else {
                    r is None && final(self).view() == v
                }
            }),
    {
        proof {
            use_type_invariant(&*self);
        }
        let ghost v = self.view();
        let i = match self.find_run(run) {
            Some(i) => i,
            None => return None,
        };
        let k = match self.find_operation(i, op) {
            Some(k) => k,
            None => return None,
        };
        assert(v.runs[i as int] == self.runs@[i as int].view());
        assert(v.runs[i as int].operations[k as int] == self.runs@[i as int].operations@[k as int].view());
        let phase = self.runs[i].operations[k].phase;
        if phase == SandboxOperationPhase::Pending || phase == SandboxOperationPhase::Released {
            self.drop_operation(i, k);
            Some(true)
        } else {
            let closed = self.runs[i].closed;
            self.set_run_flags(i, true, closed);
            Some(false)
        }
    }

    /// An operation's owning task has been joined by a drain: a confirmed
    /// operation is forgotten, an unconfirmed one stays listed. Returns
    /// whether cleanup was confirmed.
    pub fn settle_operation(&mut self, run: u64, op: u64) -> (r: Option<bool>)
        ensures
            ({
                let v = old(self).view();
                let i = run_index(v.runs, run);
                if located(v, run, op) {
                    let k = operation_index(v.runs[i].operations, op);
                    if confirmed(op_at(v, run, op)) {
                        r == Some(true) && final(self).view() == with_run(v, i, RunView { operations: v.runs[i].operations.remove(k), ..v.runs[i] })
                    } else {
                        r == Some(false) && final(self).view() == v
                    }
                } else {
                    r is None && final(self).view() == v
                }
            }),
    {
        proof {
            use_type_invariant(&*self);
        }
        let ghost v = self.view();
        let i = match self.find_run(run) {
            Some(i) => i,
            None => return None,
        };
        let k = match self.find_operation(i, op) {
            Some(k) => k,
            None => return None,
        };
        assert(v.runs[i as int] == self.runs@[i as int].view());
        assert(v.runs[i as int].operations[k as int] == self.runs@[i as int].operations@[k as int].view());
        let phase = self.runs[i].operations[k].phase;
        if phase == SandboxOperationPhase::Pending || phase == SandboxOperationPhase::Released {
            self.drop_operation(i, k);
            Some(true)
        } else {
            Some(false)
        }
    }

    /// Begin draining a run: cancel its scope, close its admission, and
    /// return the operations the host must join and settle.
    pub fn drain(&mut self, run: u64) -> (r: Option<Vec<u64>>)
        ensures
            ({
                let v = old(self).view();
                let i = run_index(v.runs, run);
                if i >= 0 {
                    r matches Some(ops) && ops@ == v.runs[i].operations.map_values(|o: OperationView| o.serial)
                        && final(self).view() == with_run(v, i, RunView { cancelled: true, closed: true, ..v.runs[i] })
                } else {
                    r is None && final(self).view() == v
                }
            }),
    {
        let ghost v = self.view();
        let i = match self.find_run(run) {
            Some(i) => i,
            None => return None,
        };
        assert(v.runs[i as int] == self.runs@[i as int].view());
        let mut ops: Vec<u64> = Vec::new();
        let mut k: usize = 0;
        let ghost os = v.runs[i as int].operations;
        while k < self.runs[i].operations.len()
            invariant
                i < self.runs@.len(),
                os == operation_views(self.runs@[i as int].operations@),
                k <= os.len(),
                ops@ == os.take(k as int).map_values(|o: OperationView| o.serial),
            decreases self.runs@[i as int].operations@.len() - k,
        {
            assert(os[k as int] == self.runs@[i as int].operations@[k as int].view());
            ops.push(self.runs[i].operations[k].serial);
            assert(os.take(k + 1).map_values(|o: OperationView| o.serial) =~= os.take(k as int).map_values(|o: OperationView| o.serial).push(
                os[k as int].serial,
            ));
            k = k + 1;
        }
        assert(os.take(os.len() as int) =~= os);
        self.set_run_flags(i, true, true);
        Some(ops)
    }

    /// Forget a drained run. Returns whether it was registered.
    pub fn finish_run(&mut self, run: u64) -> (r: bool)
        ensures
            ({
                let v = old(self).view();
                let i = run_index(v.runs, run);
                if i >= 0 {
                    r && final(self).view() == (SupervisorView { runs: v.runs.remove(i), ..v })
                } else {
                    !r && final(self).view() == v
                }
            }),
    {
        proof {
            use_type_invariant(&*self);
        }
        let ghost v = self.view();
        let i = match self.find_run(run) {
            Some(i) => i,
            None => return false,
        };
        let mut runs = Vec::new();
        std::mem::swap(&mut runs, &mut self.runs);
        let _ = runs.remove(i);
        assert(run_views(runs@) =~= v.runs.remove(i as int));
        proof {
            let nr = v.runs.remove(i as int);
            assert forall|x: int, a: int, b: int| 0 <= x < nr.len() && 0 <= a < b < nr[x].operations.len() implies #[trigger] nr[x].operations[a].serial
                != #[trigger] nr[x].operations[b].serial by {
                let x2 = if x < i { x } else { x + 1 };
                assert(nr[x] == v.runs[x2]);
            }
            assert forall|x: int, a: int| 0 <= x < nr.len() && 0 <= a < nr[x].operations.len() implies (#[trigger] nr[x].operations[a]).serial
                <= v.last_serial by {
                let x2 = if x < i { x } else { x + 1 };
                assert(nr[x] == v.runs[x2]);
            }
            assert forall|x: int| 0 <= x < nr.len() implies (#[trigger] nr[x]).serial <= v.last_serial by {
                let x2 = if x < i { x } else { x + 1 };
                assert(nr[x] == v.runs[x2]);
            }
            assert forall|x: int, y: int| 0 <= x < y < nr.len() implies #[trigger] nr[x].serial != #[trigger] nr[y].serial by {
                let x2 = if x < i { x } else { x + 1 };
                let y2 = if y < i { y } else { y + 1 };
                assert(nr[x] == v.runs[x2] && nr[y] == v.runs[y2]);
            }
            assert forall|x: int, y: int| 0 <= x < y < nr.len() implies #[trigger] nr[x].id != #[trigger] nr[y].id by {
                let x2 = if x < i { x } else { x + 1 };
                let y2 = if y < i { y } else { y + 1 };
                assert(nr[x] == v.runs[x2] && nr[y] == v.runs[y2]);
            }
        }
        self.runs = runs;
        true
    }
}

proof fn lemma_replaced_operation_keeps_well_formed(v: SupervisorView, i: int, k: int, o2: OperationView)
    requires
        supervisor_well_formed(v),
        0 <= i < v.runs.len(),
        0 <= k < v.runs[i].operations.len(),
        o2.serial == v.runs[i].operations[k].serial,
    ensures
        supervisor_well_formed(with_run(v, i, RunView { operations: v.runs[i].operations.update(k, o2), ..v.runs[i] })),
{
    let nv = with_run(v, i, RunView { operations: v.runs[i].operations.update(k, o2), ..v.runs[i] });
    let nr = nv.runs;
    assert forall|x: int, a: int, b: int| 0 <= x < nr.len() && 0 <= a < b < nr[x].operations.len() implies #[trigger] nr[x].operations[a].serial
        != #[trigger] nr[x].operations[b].serial by {
        if x == i {
            assert(nr[x].operations[a].serial == v.runs[x].operations[a].serial);
            assert(nr[x].operations[b].serial == v.runs[x].operations[b].serial);
        } else {
            assert(nr[x] == v.runs[x]);
        }
    }
    assert forall|x: int, a: int| 0 <= x < nr.len() && 0 <= a < nr[x].operations.len() implies (#[trigger] nr[x].operations[a]).serial
        <= v.last_serial by {
        if x == i {
            assert(nr[x].operations[a].serial == v.runs[x].operations[a].serial);
        } else {
            assert(nr[x] == v.runs[x]);
        }
    }
    assert forall|x: int| 0 <= x < nr.len() implies (#[trigger] nr[x]).serial <= v.last_serial by {
        assert(nr[x].serial == v.runs[x].serial);
    }
    assert forall|x: int, y: int| 0 <= x < y < nr.len() implies #[trigger] nr[x].serial != #[trigger] nr[y].serial by {
        assert(nr[x].serial == v.runs[x].serial && nr[y].serial == v.runs[y].serial);
    }
    assert forall|x: int, y: int| 0 <= x < y < nr.len() implies #[trigger] nr[x].id != #[trigger] nr[y].id by {
        assert(nr[x].id == v.runs[x].id && nr[y].id == v.runs[y].id);
    }
}

impl SandboxSupervisor {
    /// Permanently close admission and cancel every run's scope; returns the
    /// runs the host must drain and finish.
    pub fn shutdown(&mut self) -> (r: Vec<u64>)
        ensures
            final(self).view() == (SupervisorView {
                closed: true,
                runs: old(self).view().runs.map_values(|x: RunView| RunView { cancelled: true, ..x }),
                ..old(self).view()
            }),
            r@ == old(self).view().runs.map_values(|x: RunView| x.serial),
    {
        proof {
            use_type_invariant(&*self);
        }
        let ghost v = self.view();
        let mut rest = Vec::new();
        std::mem::swap(&mut rest, &mut self.runs);
        let n = rest.len();
        assert(v.runs.len() == n);
        assert(v.runs.skip(0) =~= v.runs);
        let mut done: Vec<RunRecord> = Vec::new();
        let mut serials: Vec<u64> = Vec::new();
        let mut i: usize = 0;
        while rest.len() > 0
            invariant
                i <= v.runs.len(),
                v.runs.len() <= usize::MAX,
                run_views(rest@) == v.runs.skip(i as int),
                run_views(done@) == v.runs.take(i as int).map_values(|x: RunView| RunView { cancelled: true, ..x }),
                serials@ == v.runs.take(i as int).map_values(|x: RunView| x.serial),
            decreases rest.len(),
        {
            assert(v.runs.skip(i as int).len() == rest@.len());
            assert(v.runs[i as int] == run_views(rest@)[0]);
            let ghost rb = rest@;
            let mut rec = rest.remove(0);
            assert(run_views(rest@) =~= run_views(rb).drop_first());
            assert(v.runs.skip(i as int).drop_first() =~= v.runs.skip(i + 1));
            serials.push(rec.serial);
            rec.cancelled = true;
            let ghost db = done@;
            done.push(rec);
            assert(run_views(done@) =~= run_views(db).push(RunView { cancelled: true, ..v.runs[i as int] }));
            assert(v.runs.take(i + 1).map_values(|x: RunView| RunView { cancelled: true, ..x }) =~= v.runs.take(i as int).map_values(
                |x: RunView| RunView { cancelled: true, ..x },
            ).push(RunView { cancelled: true, ..v.runs[i as int] }));
            assert(v.runs.take(i + 1).map_values(|x: RunView| x.serial) =~= v.runs.take(i as int).map_values(|x: RunView| x.serial).push(
                v.runs[i as int].serial,
            ));
            i = i + 1;
        }
        assert(v.runs.take(v.runs.len() as int) =~= v.runs);
        proof {
            let nr = v.runs.map_values(|x: RunView| RunView { cancelled: true, ..x });
            assert forall|x: int, a: int, b: int| 0 <= x < nr.len() && 0 <= a < b < nr[x].operations.len() implies #[trigger] nr[x].operations[a].serial
                != #[trigger] nr[x].operations[b].serial by {
                assert(nr[x].operations == v.runs[x].operations);
            }
            assert forall|x: int, a: int| 0 <= x < nr.len() && 0 <= a < nr[x].operations.len() implies (#[trigger] nr[x].operations[a]).serial
                <= v.last_serial by {
                assert(nr[x].operations == v.runs[x].operations);
            }
            assert forall|x: int| 0 <= x < nr.len() implies (#[trigger] nr[x]).serial <= v.last_serial by {
                assert(nr[x].serial == v.runs[x].serial);
            }
            assert forall|x: int, y: int| 0 <= x < y < nr.len() implies #[trigger] nr[x].serial != #[trigger] nr[y].serial by {
                assert(nr[x].serial == v.runs[x].serial && nr[y].serial == v.runs[y].serial);
            }
            assert forall|x: int, y: int| 0 <= x < y < nr.len() implies #[trigger] nr[x].id != #[trigger] nr[y].id by {
                assert(nr[x].id == v.runs[x].id && nr[y].id == v.runs[y].id);
            }
        }
        self.closed = true;
        self.runs = done;
        serials
    }

    /// Diagnostics of every retained operation: identities, phase and
    /// backend, never code, environment or output.
    pub fn operations(&self) -> (r: Vec<SandboxOperationSnapshot>)
        ensures
            r@.map_values(|x: SandboxOperationSnapshot| snapshot_view(x)) == snapshots(self.view().runs),
    {
        let ghost rs = self.view().runs;
        let mut out: Vec<SandboxOperationSnapshot> = Vec::new();
        let mut i: usize = 0;
        assert(rs.take(0) =~= Seq::<RunView>::empty());
        assert(out@.map_values(|x: SandboxOperationSnapshot| snapshot_view(x)) =~= snapshots(rs.take(0)));
        while i < self.runs.len()
            invariant
                rs == run_views(self.runs@),
                i <= rs.len(),
                out@.map_values(|x: SandboxOperationSnapshot| snapshot_view(x)) == snapshots(rs.take(i as int)),
            decreases self.runs.len() - i,
        {
            let ghost base = out@.map_values(|x: SandboxOperationSnapshot| snapshot_view(x));
            let ghost r = rs[i as int];
            assert(r == self.runs@[i as int].view());
            let ghost mk = |o: OperationView| SnapshotView {
                run_id: r.id,
                operation_id: o.id,
                sandbox_id: o.sandbox_id,
                phase: o.phase,
                runner_type: o.runner_type,
            };
            let mut k: usize = 0;
            assert(base + r.operations.take(0).map_values(mk) =~= base);
            while k < self.runs[i].operations.len()
                invariant
                    rs == run_views(self.runs@),
                    i < rs.len(),
                    r == rs[i as int],
                    r == self.runs@[i as int].view(),
                    mk == (|o: OperationView| SnapshotView {
                        run_id: r.id,
                        operation_id: o.id,
                        sandbox_id: o.sandbox_id,
                        phase: o.phase,
                        runner_type: o.runner_type,
                    }),
                    k <= r.operations.len(),
                    out@.map_values(|x: SandboxOperationSnapshot| snapshot_view(x)) == base + r.operations.take(k as int).map_values(mk),
                decreases r.operations.len() - k,
            {
                let o = &self.runs[i].operations[k];
                assert(r.operations[k as int] == o.view());
                let snap = SandboxOperationSnapshot {
                    run_id: owned(self.runs[i].id.as_str()),
                    operation_id: owned(o.id.as_str()),
                    sandbox_id: match &o.sandbox_id {
                        Some(s) => Some(owned(s.as_str())),
                        None => None,
                    },
                    phase: o.phase,
                    runner_type: o.runner_type,
                };
                let ghost ob = out@;
                out.push(snap);
                assert(snapshot_view(snap) == mk(r.operations[k as int]));
                assert(out@.map_values(|x: SandboxOperationSnapshot| snapshot_view(x)) =~= ob.map_values(|x: SandboxOperationSnapshot| snapshot_view(x)).push(
                    snapshot_view(snap),
                ));
                assert(r.operations.take(k + 1).map_values(mk) =~= r.operations.take(k as int).map_values(mk).push(mk(r.operations[k as int])));
                k = k + 1;
            }
            assert(r.operations.take(r.operations.len() as int) =~= r.operations);
            assert(rs.take(i + 1).drop_last() =~= rs.take(i as int));
            assert(rs.take(i + 1).last() == r);
            assert(r.operations.map_values(mk) =~= rs.take(i + 1).last().operations.map_values(|o: OperationView| SnapshotView {
                run_id: rs.take(i + 1).last().id,
                operation_id: o.id,
                sandbox_id: o.sandbox_id,
                phase: o.phase,
                runner_type: o.runner_type,
            }));
            i = i + 1;
        }
        assert(rs.take(rs.len() as int) =~= rs);
        out
    }
}

/// An operation whose effect is unconfirmed is never forgotten: after the
/// awaiting path its run is cancelled and it is still listed (a drain
/// leaves the supervisor as it was), and a creation or cleanup that is
/// unconfirmed stays so whatever its task reports later.
pub proof fn law_unconfirmed_operations_stay_listed(v: SupervisorView, run: u64, op: u64, e: OperationEvent)
    requires
        supervisor_well_formed(v),
        located(v, run, op),
        !confirmed(op_at(v, run, op)),
    ensures
        ({
            let i = run_index(v.runs, run);
            let after = with_run(v, i, RunView { cancelled: true, ..v.runs[i] });
            &&& located(after, run, op)
            &&& after.runs[run_index(after.runs, run)].cancelled
            &&& op_at(after, run, op) == op_at(v, run, op)
        }),
        op_at(v, run, op).phase == SandboxOperationPhase::CreationUnconfirmed ==> !confirmed(advanced(op_at(v, run, op), e, None)),
        op_at(v, run, op).phase == SandboxOperationPhase::CleanupUnconfirmed ==> !confirmed(advanced(op_at(v, run, op), e, None)),
{
    let i = run_index(v.runs, run);
    let after = with_run(v, i, RunView { cancelled: true, ..v.runs[i] });
    lemma_run_index(v.runs, run);
    lemma_run_index_unique(after.runs, run, i);
}

proof fn lemma_run_index_unique(runs: Seq<RunView>, serial: u64, i: int)
    requires
        0 <= i < runs.len(),
        runs[i].serial == serial,
        forall|a: int, b: int| 0 <= a < b < runs.len() ==> #[trigger] runs[a].serial != #[trigger] runs[b].serial,
    ensures
        run_index(runs, serial) == i,
    decreases runs.len(),
{
    if i < runs.len() - 1 {
        assert(runs[i].serial != runs[runs.len() - 1].serial);
        assert(runs.drop_last()[i] == runs[i]);
        lemma_run_index_unique(runs.drop_last(), serial, i);
    }
}

} // verus!
