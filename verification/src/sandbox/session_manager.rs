//! Session bookkeeping for persistent sandboxes: which session holds which
//! sandbox, capacity admission, and expiry by idle time. Creating and
//! destroying sandboxes is the host's part; times are monotonic clock
//! readings in nanoseconds, supplied by the host.

use vstd::prelude::*;

use crate::sandbox::runner::RunnerProfile;
use crate::sandbox::types::{HandleView, SandboxConfig, SandboxError, SandboxHandle};
use crate::text::{owned, str_eq};

verus! {

struct SessionEntry {
    handle: SandboxHandle,
    config: SandboxConfig,
    last_accessed: u128,
    created_at: u128,
}

/// One session as the manager sees it.
pub struct SessionRecord {
    pub id: Seq<char>,
    /// The stored sandbox handle.
    pub sandbox: HandleView,
    pub last_accessed: u128,
}

pub open spec fn ids_distinct(s: Seq<SessionRecord>) -> bool {
    forall|a: int, b: int| 0 <= a < b < s.len() ==> #[trigger] s[a].id != #[trigger] s[b].id
}

/// Nanoseconds in one second.
pub const NANOS_PER_SECOND: u128 = 1_000_000_000;

/// A session idle for longer than the time-to-live at `now`.
pub open spec fn is_expired(r: SessionRecord, now: u128, ttl_secs: u64) -> bool {
    (if now > r.last_accessed { now - r.last_accessed } else { 0 }) > ttl_secs * NANOS_PER_SECOND
}

/// Tracks live sandbox sessions for one backend.
pub struct SessionManager {
    sessions: Vec<(String, SessionEntry)>,
    runner: RunnerProfile,
    ttl_secs: u64,
    max_concurrent: usize,
}

/// What a session lookup decided.
pub enum SessionLookup {
    /// The session exists; here is its sandbox.
    Existing(SandboxHandle),
    /// No such session, and there is room: the host creates the sandbox.
    Create,
    /// No such session, and the manager is at capacity.
    Full(SandboxError),
}

spec fn records_of(v: Seq<(String, SessionEntry)>) -> Seq<SessionRecord> {
    v.map_values(|p: (String, SessionEntry)| SessionRecord { id: p.0@, sandbox: p.1.handle.view(), last_accessed: p.1.last_accessed })
}

impl SessionManager {
    pub closed spec fn records(&self) -> Seq<SessionRecord> {
        records_of(self.sessions@)
    }

    pub closed spec fn ttl(&self) -> u64 {
        self.ttl_secs
    }

    pub closed spec fn capacity(&self) -> usize {
        self.max_concurrent
    }

    pub closed spec fn backend(&self) -> RunnerProfile {
        self.runner
    }

    #[verifier::type_invariant]
    spec fn distinct(&self) -> bool {
        ids_distinct(self.records())
    }

    /// A manager without sessions.
    pub fn new(runner: RunnerProfile, ttl_secs: u64, max_concurrent: usize) -> (r: SessionManager)
        ensures
            r.records().len() == 0,
            r.ttl() == ttl_secs,
            r.capacity() == max_concurrent,
            r.backend() == runner,
    {
        SessionManager { sessions: Vec::new(), runner, ttl_secs, max_concurrent }
    }

    /// The backend the sessions run on.
    pub fn runner(&self) -> (r: &RunnerProfile)
        ensures
            *r == self.backend(),
    {
        &self.runner
    }

    /// Number of live sessions.
    pub fn active_count(&self) -> (r: usize)
        ensures
            r == self.records().len(),
    {
        self.sessions.len()
    }

    fn position(&self, session_id: &str) -> (r: Option<usize>)
        ensures
            match r {
                Some(k) => k < self.records().len() && self.records()[k as int].id == session_id@,
                None => forall|k: int| 0 <= k < self.records().len() ==> #[trigger] self.records()[k].id != session_id@,
            },
    {
        let mut i: usize = 0;
        while i < self.sessions.len()
            invariant
                i <= self.records().len(),
                forall|k: int| 0 <= k < i ==> #[trigger] self.records()[k].id != session_id@,
            decreases self.sessions.len() - i,
        {
            assert(self.records()[i as int].id == self.sessions@[i as int].0@);
            if str_eq(self.sessions[i].0.as_str(), session_id) {
                return Some(i);
            }
            i = i + 1;
        }
        None
    }

    /// Find a session, touching it, or decide whether one may be created.
    pub fn lookup(&mut self, session_id: &str, now: u128) -> (r: SessionLookup)
        ensures
            final(self).ttl() == old(self).ttl(),
            final(self).capacity() == old(self).capacity(),
            final(self).backend() == old(self).backend(),
            match r {
                SessionLookup::Existing(h) => exists|k: int| 0 <= k < old(self).records().len() && #[trigger] old(self).records()[k].id == session_id@
                    && h.view() == old(self).records()[k].sandbox
                    && final(self).records() == old(self).records().update(k, SessionRecord { last_accessed: now, ..old(self).records()[k] }),
                SessionLookup::Create => (forall|k: int| 0 <= k < old(self).records().len() ==> #[trigger] old(self).records()[k].id != session_id@)
                    && old(self).records().len() < old(self).capacity() && final(self).records() == old(self).records(),
                SessionLookup::Full(e) => (forall|k: int| 0 <= k < old(self).records().len() ==> #[trigger] old(self).records()[k].id != session_id@)
                    && old(self).records().len() >= old(self).capacity() && final(self).records() == old(self).records()
                    && (e matches SandboxError::CapacityExceeded(n) && n == old(self).capacity()),
            },
    {
        proof {
            use_type_invariant(&*self);
        }
        match self.position(session_id) {
            Some(k) => {
                let ghost before = self.records();
                let handle = self.sessions[k].1.handle.duplicate();
                let mut sessions = Vec::new();
                std::mem::swap(&mut sessions, &mut self.sessions);
                let mut entry = sessions.remove(k);
                entry.1.last_accessed = now;
                sessions.insert(k, entry);
                assert(records_of(sessions@) =~= before.update(k as int, SessionRecord { last_accessed: now, ..before[k as int] }));
                self.sessions = sessions;
                SessionLookup::Existing(handle)
            },
            None => {
                if self.sessions.len() >= self.max_concurrent {
                    SessionLookup::Full(SandboxError::CapacityExceeded(self.max_concurrent))
                } else {
                    SessionLookup::Create
                }
            },
        }
    }

    /// Record a created sandbox under its session, replacing any earlier one.
    pub fn record(&mut self, session_id: &str, handle: SandboxHandle, config: SandboxConfig, now: u128)
        ensures
            final(self).ttl() == old(self).ttl(),
            final(self).capacity() == old(self).capacity(),
            final(self).backend() == old(self).backend(),
            ({
                let rec = SessionRecord { id: session_id@, sandbox: handle.view(), last_accessed: now };
                if exists|k: int| 0 <= k < old(self).records().len() && #[trigger] old(self).records()[k].id == session_id@ {
                    exists|k: int| 0 <= k < old(self).records().len() && #[trigger] old(self).records()[k].id == session_id@
                        && final(self).records() == old(self).records().update(k, rec)
                } else {
                    final(self).records() == old(self).records().push(rec)
                }
            }),
    {
        proof {
            use_type_invariant(&*self);
        }
        let ghost before = self.records();
        let ghost rec = SessionRecord { id: session_id@, sandbox: handle.view(), last_accessed: now };
        let entry = SessionEntry { handle, config, last_accessed: now, created_at: now };
        match self.position(session_id) {
            Some(k) => {
                let mut sessions = Vec::new();
                std::mem::swap(&mut sessions, &mut self.sessions);
                sessions.remove(k);
                sessions.insert(k, (owned(session_id), entry));
                assert(records_of(sessions@) =~= before.update(k as int, rec));
                self.sessions = sessions;
            },
            None => {
                let mut sessions = Vec::new();
                std::mem::swap(&mut sessions, &mut self.sessions);
                sessions.push((owned(session_id), entry));
                assert(records_of(sessions@) =~= before.push(rec));
                assert(ids_distinct(before.push(rec))) by {
                    assert forall|a: int, b: int| 0 <= a < b < before.push(rec).len() implies #[trigger] before.push(rec)[a].id != #[trigger] before.push(rec)[b].id by {
                        if b == before.len() {
                            assert(before[a].id != session_id@);
                        }
                    }
                }
                self.sessions = sessions;
            },
        }
    }

    /// Forget a session, returning its sandbox for the host to destroy.
    pub fn remove(&mut self, session_id: &str) -> (r: Option<SandboxHandle>)
        ensures
            final(self).ttl() == old(self).ttl(),
            final(self).capacity() == old(self).capacity(),
            final(self).backend() == old(self).backend(),
            match r {
                Some(h) => exists|k: int| 0 <= k < old(self).records().len() && #[trigger] old(self).records()[k].id == session_id@
                    && h.view() == old(self).records()[k].sandbox && final(self).records() == old(self).records().remove(k),
                None => (forall|k: int| 0 <= k < old(self).records().len() ==> #[trigger] old(self).records()[k].id != session_id@)
                    && final(self).records() == old(self).records(),
            },
    {
        proof {
            use_type_invariant(&*self);
        }
        let ghost before = self.records();
        match self.position(session_id) {
            Some(k) => {
                let mut sessions = Vec::new();
                std::mem::swap(&mut sessions, &mut self.sessions);
                let entry = sessions.remove(k);
                assert(records_of(sessions@) =~= before.remove(k as int));
                assert(ids_distinct(before.remove(k as int))) by {
                    assert forall|a: int, b: int| 0 <= a < b < before.remove(k as int).len() implies #[trigger] before.remove(k as int)[a].id
                        != #[trigger] before.remove(k as int)[b].id by {
                        let a2 = if a < k { a } else { a + 1 };
                        let b2 = if b < k { b } else { b + 1 };
                        assert(before[a2].id != before[b2].id);
                    }
                }
                self.sessions = sessions;
                Some(entry.1.handle)
            },
            None => None,
        }
    }

    /// The sessions idle for longer than the time-to-live at `now`, in
    /// session order, for the host to destroy and remove.
    pub fn expired(&self, now: u128) -> (r: Vec<(String, SandboxHandle)>)
        ensures
            r@.map_values(|p: (String, SandboxHandle)| (p.0@, p.1.view())) == self.records().filter(
                |s: SessionRecord| is_expired(s, now, self.ttl()),
            ).map_values(|s: SessionRecord| (s.id, s.sandbox)),
    {
        let ghost recs = self.records();
        let ghost pred = |s: SessionRecord| is_expired(s, now, self.ttl());
        let ttl: u128 = (self.ttl_secs as u128) * NANOS_PER_SECOND;
        let mut out: Vec<(String, SandboxHandle)> = Vec::new();
        let mut i: usize = 0;
        while i < self.sessions.len()
            invariant
                recs == self.records(),
                pred == (|s: SessionRecord| is_expired(s, now, self.ttl())),
                ttl == self.ttl() * NANOS_PER_SECOND,
                i <= recs.len(),
                out@.map_values(|p: (String, SandboxHandle)| (p.0@, p.1.view())) == recs.subrange(0, i as int).filter(pred).map_values(
                    |s: SessionRecord| (s.id, s.sandbox),
                ),
            decreases self.sessions.len() - i,
        {
            let ghost pre = recs.subrange(0, i + 1);
            assert(pre.drop_last() =~= recs.subrange(0, i as int));
            assert(pre.last() == recs[i as int]);
            proof {
                reveal(Seq::filter);
            }
            let last = self.sessions[i].1.last_accessed;
            let idle: u128 = if now > last { now - last } else { 0 };
            if idle > ttl {
                let ghost before = out@;
                out.push((owned(self.sessions[i].0.as_str()), self.sessions[i].1.handle.duplicate()));
                assert(out@.map_values(|p: (String, SandboxHandle)| (p.0@, p.1.view())) =~= before.map_values(
                    |p: (String, SandboxHandle)| (p.0@, p.1.view()),
                ).push((recs[i as int].id, recs[i as int].sandbox)));
                assert(recs.subrange(0, i + 1).filter(pred).map_values(|s: SessionRecord| (s.id, s.sandbox)) =~= recs.subrange(
                    0,
                    i as int,
                ).filter(pred).map_values(|s: SessionRecord| (s.id, s.sandbox)).push((recs[i as int].id, recs[i as int].sandbox)));
            } else {
                assert(recs.subrange(0, i + 1).filter(pred) =~= recs.subrange(0, i as int).filter(pred));
            }
            i = i + 1;
        }
        assert(recs.subrange(0, recs.len() as int) =~= recs);
        out
    }
}


/// A session expires once it has been idle for more than its time-to-live,
/// and stays expired as time goes on; one touched within the time-to-live
/// is not expired.
pub proof fn law_expiry_is_idle_time_past_ttl(r: SessionRecord, now: u128, later: u128, ttl_secs: u64)
    ensures
        is_expired(r, now, ttl_secs) && now <= later ==> is_expired(r, later, ttl_secs),
        now <= r.last_accessed + (ttl_secs as int) * 1_000_000_000 ==> !is_expired(r, now, ttl_secs),
        now > r.last_accessed + (ttl_secs as int) * 1_000_000_000 ==> is_expired(r, now, ttl_secs),
{
}

} // verus!
