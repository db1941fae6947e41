//! Round-robin ready queue over table entities.
use vstd::prelude::*;
use crate::process::{ProcessError, ProcessId};
use crate::process::table::{ProcessRecord, ProcessSystem, pid_runnable, pids_unique, is_pid_runnable_in};

verus! {

/// Entities waiting to run, in round-robin order, with the position of the
/// next candidate.
pub struct Scheduler {
    pub ready_queue: Vec<ProcessId>,
    pub cursor: usize,
}

impl Scheduler {
    pub fn new() -> (r: Self)
        ensures
            r.ready_queue@ == Seq::<ProcessId>::empty(),
            r.cursor == 0,
    {
        Scheduler { ready_queue: Vec::new(), cursor: 0 }
    }

    fn contains(&self, pid: ProcessId) -> (r: bool)
        ensures
            r == self.ready_queue@.contains(pid),
    {
        let mut i: usize = 0;
        while i < self.ready_queue.len()
            invariant
                i <= self.ready_queue@.len(),
                forall|j: int| 0 <= j < i ==> self.ready_queue@[j] != pid,
            decreases self.ready_queue@.len() - i,
        {
            if self.ready_queue[i] == pid {
                return true;
            }
            i = i + 1;
        }
        false
    }

    /// Queues `pid` at the back unless it is queued already; refused when
    /// the table says it cannot run.
    pub fn enqueue(&mut self, pid: ProcessId, table: &Vec<ProcessRecord>) -> (r: Result<(), ProcessError>)
        requires
            pids_unique(table@),
        ensures
            !pid_runnable(table@, pid) ==> r == Err::<(), ProcessError>(ProcessError::NotRunnable) && *final(self) == *old(self),
            pid_runnable(table@, pid) ==> r is Ok && final(self).cursor == old(self).cursor
                && final(self).ready_queue@ == if old(self).ready_queue@.contains(pid) {
                    old(self).ready_queue@
                } else {
                    old(self).ready_queue@.push(pid)
                },
    {
        if !is_pid_runnable_in(table, pid) {
            return Err(ProcessError::NotRunnable);
        }
        if !self.contains(pid) {
            self.ready_queue.push(pid);
        }
        Ok(())
    }

    /// Drops every occurrence of `pid`, resetting the cursor when it falls
    /// off the end.
    pub fn remove(&mut self, pid: ProcessId)
        ensures
            final(self).ready_queue@ == old(self).ready_queue@.filter(|p: ProcessId| p != pid),
            final(self).cursor == if old(self).cursor >= final(self).ready_queue@.len() { 0 } else { old(self).cursor },
    {
        let mut kept: Vec<ProcessId> = Vec::new();
        let mut i: usize = 0;
        while i < self.ready_queue.len()
            invariant
                i <= self.ready_queue@.len(),
                kept@ == self.ready_queue@.subrange(0, i as int).filter(|p: ProcessId| p != pid),
            decreases self.ready_queue@.len() - i,
        {
            let p = self.ready_queue[i];
            proof {
                let s = self.ready_queue@.subrange(0, i as int + 1);
                assert(s.drop_last() =~= self.ready_queue@.subrange(0, i as int));
                reveal_with_fuel(Seq::filter, 1);
            }
            if p != pid {
                kept.push(p);
            }
            i = i + 1;
        }
        proof {
            assert(self.ready_queue@.subrange(0, self.ready_queue@.len() as int) =~= self.ready_queue@);
        }
        self.ready_queue = kept;
        if self.cursor >= self.ready_queue.len() {
            self.cursor = 0;
        }
    }

    /// The next runnable entity in round-robin order from the cursor. Entries
    /// that cannot run are dropped on the way; `None` when none can run, the
    /// queue then being empty.
    pub fn pick_next(&mut self, table: &Vec<ProcessRecord>) -> (r: Option<ProcessId>)
        requires
            pids_unique(table@),
        ensures
            forall|p: ProcessId| #[trigger] final(self).ready_queue@.contains(p) ==> old(self).ready_queue@.contains(p),
            forall|p: ProcessId| #[trigger] old(self).ready_queue@.contains(p) && pid_runnable(table@, p) ==>
                final(self).ready_queue@.contains(p),
            r matches Some(p) ==> pid_runnable(table@, p) && old(self).ready_queue@.contains(p),
            r is None ==> final(self).ready_queue@.len() == 0
                && forall|p: ProcessId| #[trigger] old(self).ready_queue@.contains(p) ==> !pid_runnable(table@, p),
            r matches Some(p) ==> {
                let q = old(self).ready_queue@;
                let c0 = rr_start(q, old(self).cursor as int);
                exists|k: int| 0 <= k < q.len() && p == #[trigger] rr_at(q, c0, k)
                    && (forall|i: int| 0 <= i < k ==> !pid_runnable(table@, #[trigger] rr_at(q, c0, i)))
                    && final(self).ready_queue@ == rr_rest(q, c0, k)
                    && final(self).cursor == (if c0 + k < q.len() { c0 + 1 } else { 1int }) % (final(self).ready_queue@.len() as int)
            },
            picked(old(self).ready_queue@, old(self).cursor, final(self).ready_queue@, final(self).cursor, table@, r),
    {
        if self.ready_queue.len() == 0 {
            return None;
        }
        let len = self.ready_queue.len();
        if self.cursor >= len {
            self.cursor = 0;
        }
        let ghost q0 = self.ready_queue@;
        let ghost c0 = self.cursor as int;
        assert(c0 == rr_start(q0, old(self).cursor as int));
        let mut checked: usize = 0;
        proof {
            assert(q0 =~= q0.subrange(0, c0) + q0.subrange(c0, len as int));
        }
        while checked < len && self.ready_queue.len() > 0
            invariant
                pids_unique(table@),
                q0 == old(self).ready_queue@,
                len == q0.len(),
                0 <= c0 < len,
                c0 == rr_start(q0, old(self).cursor as int),
                checked <= len,
                self.ready_queue@.len() + checked == len,
                c0 + checked <= len ==> self.ready_queue@ == q0.subrange(0, c0) + q0.subrange(c0 + checked, len as int)
                    && self.cursor == c0,
                c0 + checked > len ==> self.ready_queue@ == q0.subrange(c0 + checked - len, c0) && self.cursor == 0,
                forall|i: int| 0 <= i < checked ==> !pid_runnable(table@, #[trigger] rr_at(q0, c0, i)),
                forall|p: ProcessId| #[trigger] self.ready_queue@.contains(p) ==> old(self).ready_queue@.contains(p),
                forall|p: ProcessId| #[trigger] old(self).ready_queue@.contains(p) && pid_runnable(table@, p) ==>
                    self.ready_queue@.contains(p),
            decreases len - checked,
        {
            if self.cursor >= self.ready_queue.len() {
                self.cursor = 0;
                proof {
                    assert(c0 + checked == len);
                    assert(self.ready_queue@ =~= q0.subrange(0, c0));
                }
            }
            proof {
                if c0 + checked < len {
                    assert(self.cursor == c0);
                } else {
                    assert(self.cursor == 0);
                    assert(self.ready_queue@ =~= q0.subrange(c0 + checked - len, c0));
                }
            }
            let pid = self.ready_queue[self.cursor];
            proof {
                assert(pid == rr_at(q0, c0, checked as int));
            }
            if is_pid_runnable_in(table, pid) {
                proof {
                    assert(self.ready_queue@[self.cursor as int] == pid);
                    assert(self.ready_queue@.contains(pid));
                    assert(self.ready_queue@ == rr_rest(q0, c0, checked as int));
                }
                let ghost cb = self.cursor as int;
                self.cursor = (self.cursor + 1) % self.ready_queue.len();
                proof {
                    let k = checked as int;
                    assert(cb + 1 == (if c0 + k < q0.len() { c0 + 1 } else { 1int }));
                    assert(rr_at(q0, c0, k) == pid);
                }
                return Some(pid);
            }
            let ghost qb = self.ready_queue@;
            let c = self.cursor;
            self.ready_queue.remove(c);
            proof {
                assert forall|p: ProcessId| #[trigger] self.ready_queue@.contains(p) implies old(self).ready_queue@.contains(p) by {
                    let k = choose|k: int| 0 <= k < self.ready_queue@.len() && self.ready_queue@[k] == p;
                    let m = if k < c { k } else { k + 1 };
                    assert(qb[m] == p);
                    assert(qb.contains(p));
                }
                assert forall|p: ProcessId| #[trigger] old(self).ready_queue@.contains(p) && pid_runnable(table@, p) implies
                    self.ready_queue@.contains(p) by {
                    assert(qb.contains(p));
                    let k = choose|k: int| 0 <= k < qb.len() && qb[k] == p;
                    assert(k != c);
                    let m = if k < c { k } else { k - 1 };
                    assert(self.ready_queue@[m] == p);
                }
                if c0 + checked + 1 <= len {
                    assert(self.ready_queue@ =~= q0.subrange(0, c0) + q0.subrange(c0 + checked + 1, len as int));
                } else {
                    assert(self.ready_queue@ =~= q0.subrange(c0 + checked + 1 - len, c0));
                }
            }
            checked = checked + 1;
        }
        proof {
            assert forall|p: ProcessId| #[trigger] old(self).ready_queue@.contains(p) implies !pid_runnable(table@, p) by {
                if pid_runnable(table@, p) {
                    assert(self.ready_queue@.contains(p));
                }
            }
        }
        None
    }

    pub fn len(&self) -> (r: usize)
        ensures
            r == self.ready_queue@.len(),
    {
        self.ready_queue.len()
    }
}

/// Where a round-robin walk over `q` starts for cursor `cursor`.
pub open spec fn rr_start(q: Seq<ProcessId>, cursor: int) -> int {
    if cursor >= q.len() { 0 } else { cursor }
}

/// The `i`-th entry of `q` visited by a walk that starts at `c0` and wraps.
pub open spec fn rr_at(q: Seq<ProcessId>, c0: int, i: int) -> ProcessId {
    if c0 + i < q.len() { q[c0 + i] } else { q[c0 + i - q.len()] }
}

/// `q` without the first `k` entries of the walk from `c0`.
pub open spec fn rr_rest(q: Seq<ProcessId>, c0: int, k: int) -> Seq<ProcessId> {
    if c0 + k <= q.len() {
        q.subrange(0, c0) + q.subrange(c0 + k, q.len() as int)
    } else {
        q.subrange(c0 + k - q.len(), c0)
    }
}

/// What one `pick_next` does to queue `q0` with cursor `c0`, giving queue
/// `q1`, cursor `c1` and answer `r`: the first runnable entry of the walk
/// from the cursor is picked, the entries passed over are dropped and the
/// cursor moves one past the pick; `None` when nothing can run.
pub open spec fn picked(q0: Seq<ProcessId>, c0: usize, q1: Seq<ProcessId>, c1: usize, t: Seq<ProcessRecord>, r: Option<ProcessId>) -> bool {
    let s = rr_start(q0, c0 as int);
    &&& r is None ==> forall|p: ProcessId| #[trigger] q0.contains(p) ==> !pid_runnable(t, p)
    &&& r matches Some(p) ==> exists|k: int| 0 <= k < q0.len() && p == #[trigger] rr_at(q0, s, k)
        && (forall|i: int| 0 <= i < k ==> !pid_runnable(t, #[trigger] rr_at(q0, s, i)))
        && q1 == rr_rest(q0, s, k)
        && c1 == (if s + k < q0.len() { s + 1 } else { 1int }) % (q1.len() as int)
}

/// A cursor that fell off the end of a queue of `len` entries restarts.
pub open spec fn reset_cursor(c: usize, len: nat) -> usize {
    if c >= len { 0usize } else { c }
}

/// Every entity but `e`.
pub open spec fn other_than(e: ProcessId) -> spec_fn(ProcessId) -> bool {
    |x: ProcessId| x != e
}

/// What `pick_next_candidate_excluding` does with scheduler `s0`: the
/// excluded entity leaves the queue, the ordinary round-robin pick runs on
/// what is left (the cursor reset when it fell off the end), and the
/// excluded entity is queued again at the back when it was queued and can
/// run.
pub open spec fn excluded_pick(s0: Scheduler, excluded: ProcessId, s1: Scheduler, t: Seq<ProcessRecord>, r: Option<ProcessId>) -> bool {
    let f = s0.ready_queue@.filter(other_than(excluded));
    let cf = reset_cursor(s0.cursor, f.len());
    exists|q1: Seq<ProcessId>| #[trigger] picked(f, cf, q1, s1.cursor, t, r)
        && s1.ready_queue@ == (if s0.ready_queue@.contains(excluded) && pid_runnable(t, excluded) { q1.push(excluded) } else { q1 })
}

/// Round robin over calls: while every queued entity can run, `n` calls of
/// `pick_next` in a row (at most one per entry) keep the queue and return
/// the entries from the cursor on, wrapping at the end, each position once.
pub proof fn law_round_robin_calls(qs: Seq<Seq<ProcessId>>, cs: Seq<usize>, rs: Seq<Option<ProcessId>>, t: Seq<ProcessRecord>, n: int)
    requires
        qs.len() == n + 1,
        cs.len() == n + 1,
        rs.len() == n,
        0 <= n <= qs[0].len(),
        qs[0].len() > 0,
        forall|i: int| 0 <= i < qs[0].len() ==> pid_runnable(t, #[trigger] qs[0][i]),
        forall|i: int| 0 <= i < n ==> picked(qs[i], cs[i], qs[i + 1], cs[i + 1], t, #[trigger] rs[i]),
    ensures
        forall|i: int| 0 <= i <= n ==> #[trigger] qs[i] == qs[0],
        forall|i: int| 0 <= i < n ==> #[trigger] rs[i] == Some(qs[0][rr_pos(qs[0].len() as int, rr_start(qs[0], cs[0] as int), i)]),
        forall|i: int, j: int| 0 <= i < j < n ==> #[trigger] rr_pos(qs[0].len() as int, rr_start(qs[0], cs[0] as int), i)
            != #[trigger] rr_pos(qs[0].len() as int, rr_start(qs[0], cs[0] as int), j),
{
    if n > 0 {
        let s0 = rr_start(qs[0], cs[0] as int);
        assert(0 <= s0 < qs[0].len());
        lemma_round_robin(qs[0], s0, t, 0);
    }
    assert forall|i: int| 0 <= i <= n implies #[trigger] qs[i] == qs[0] by {
        lemma_rr_step(qs, cs, rs, t, n, i);
    }
    assert forall|i: int| 0 <= i < n implies #[trigger] rs[i] == Some(qs[0][rr_pos(qs[0].len() as int, rr_start(qs[0], cs[0] as int), i)]) by {
        lemma_rr_step(qs, cs, rs, t, n, i + 1);
    }
}

/// The state after `m` of the calls of `law_round_robin_calls`.
proof fn lemma_rr_step(qs: Seq<Seq<ProcessId>>, cs: Seq<usize>, rs: Seq<Option<ProcessId>>, t: Seq<ProcessRecord>, n: int, m: int)
    requires
        qs.len() == n + 1,
        cs.len() == n + 1,
        rs.len() == n,
        0 <= n <= qs[0].len(),
        qs[0].len() > 0,
        forall|i: int| 0 <= i < qs[0].len() ==> pid_runnable(t, #[trigger] qs[0][i]),
        forall|i: int| 0 <= i < n ==> picked(qs[i], cs[i], qs[i + 1], cs[i + 1], t, #[trigger] rs[i]),
        0 <= m <= n,
    ensures
        qs[m] == qs[0],
        m < qs[0].len() ==> rr_start(qs[0], cs[m] as int) == rr_pos(qs[0].len() as int, rr_start(qs[0], cs[0] as int), m),
        m > 0 ==> rs[m - 1] == Some(qs[0][rr_pos(qs[0].len() as int, rr_start(qs[0], cs[0] as int), m - 1)]),
    decreases m,
{
    let q = qs[0];
    let len = q.len() as int;
    let s0 = rr_start(q, cs[0] as int);
    if m > 0 {
        lemma_rr_step(qs, cs, rs, t, n, m - 1);
        let s = rr_start(q, cs[m - 1] as int);
        assert(s == rr_pos(len, s0, m - 1));
        assert(picked(qs[m - 1], cs[m - 1], qs[m], cs[m], t, rs[m - 1]));
        if rs[m - 1] is None {
            assert(q.contains(q[s]));
        }
        let p = rs[m - 1]->Some_0;
        let k = choose|k: int| 0 <= k < q.len() && p == #[trigger] rr_at(q, s, k)
            && (forall|i: int| 0 <= i < k ==> !pid_runnable(t, #[trigger] rr_at(q, s, i)))
            && qs[m] == rr_rest(q, s, k)
            && cs[m] == (if s + k < q.len() { s + 1 } else { 1int }) % (qs[m].len() as int);
        lemma_round_robin(q, s, t, k);
        assert(qs[m] == q);
        if m < len {
            if s + 1 < len {
                vstd::arithmetic::div_mod::lemma_small_mod((s + 1) as nat, len as nat);
            } else {
                vstd::arithmetic::div_mod::lemma_mod_self_0(len);
            }
        }
    }
}

/// The queue position of step `i` of a walk over `len` entries from `c0`.
pub open spec fn rr_pos(len: int, c0: int, i: int) -> int {
    if c0 + i < len { c0 + i } else { c0 + i - len }
}

/// Round-robin order: when every queued entity can run, `pick_next` takes
/// the entry its walk starts at and keeps the queue as it was, and a walk
/// from any start visits each queue position exactly once.
pub proof fn lemma_round_robin(q: Seq<ProcessId>, c0: int, t: Seq<ProcessRecord>, k: int)
    requires
        0 <= c0 < q.len(),
        forall|i: int| 0 <= i < q.len() ==> pid_runnable(t, #[trigger] q[i]),
        0 <= k < q.len(),
        forall|i: int| 0 <= i < k ==> !pid_runnable(t, #[trigger] rr_at(q, c0, i)),
    ensures
        k == 0,
        rr_at(q, c0, k) == q[c0],
        rr_rest(q, c0, k) == q,
        forall|i: int| 0 <= i < q.len() ==> rr_at(q, c0, i) == q[#[trigger] rr_pos(q.len() as int, c0, i)]
            && 0 <= rr_pos(q.len() as int, c0, i) < q.len(),
        forall|i: int, j: int| 0 <= i < j < q.len() ==> #[trigger] rr_pos(q.len() as int, c0, i) != #[trigger] rr_pos(q.len() as int, c0, j),
{
    if k > 0 {
        assert(!pid_runnable(t, rr_at(q, c0, 0)));
        assert(rr_at(q, c0, 0) == q[c0]);
    }
    assert(q.subrange(0, c0) + q.subrange(c0, q.len() as int) =~= q);
}

/// Installs an empty ready queue.
pub fn init(sys: &mut ProcessSystem)
    ensures
        final(sys).scheduler matches Some(s) && s.ready_queue@.len() == 0 && s.cursor == 0,
        final(sys).table == old(sys).table,
        final(sys).wait_queue == old(sys).wait_queue,
        final(sys).current_pid == old(sys).current_pid,
{
    sys.scheduler = Some(Scheduler::new());
}

/// Queues `pid` if the table lets it run; `SchedulerUnavailable` before
/// `init`.
pub fn enqueue_ready(sys: &mut ProcessSystem, pid: ProcessId) -> (r: Result<(), ProcessError>)
    requires
        pids_unique(old(sys).table@),
    ensures
        *final(sys) == (ProcessSystem { scheduler: final(sys).scheduler, ..*old(sys) }),
        final(sys).scheduler is Some == old(sys).scheduler is Some,
        old(sys).scheduler is None ==> r == Err::<(), ProcessError>(ProcessError::SchedulerUnavailable),
        old(sys).scheduler matches Some(s0) ==> {
            let s1 = final(sys).scheduler->0;
            &&& !pid_runnable(old(sys).table@, pid) ==> r == Err::<(), ProcessError>(ProcessError::NotRunnable) && s1 == s0
            &&& pid_runnable(old(sys).table@, pid) ==> r is Ok && s1.cursor == s0.cursor
                && s1.ready_queue@ == if s0.ready_queue@.contains(pid) { s0.ready_queue@ } else { s0.ready_queue@.push(pid) }
        },
{
    match sys.scheduler.take() {
        Some(mut s) => {
            let r = s.enqueue(pid, &sys.table);
            sys.scheduler = Some(s);
            r
        },
        None => Err(ProcessError::SchedulerUnavailable),
    }
}

/// Drops `pid` from the ready queue, if there is one.
pub fn remove(sys: &mut ProcessSystem, pid: ProcessId)
    ensures
        *final(sys) == (ProcessSystem { scheduler: final(sys).scheduler, ..*old(sys) }),
        final(sys).scheduler is Some == old(sys).scheduler is Some,
        old(sys).scheduler matches Some(s0) ==>
            final(sys).scheduler->0.ready_queue@ == s0.ready_queue@.filter(|p: ProcessId| p != pid),
{
    match sys.scheduler.take() {
        Some(mut s) => {
            s.remove(pid);
            sys.scheduler = Some(s);
        },
        None => {},
    }
}

/// The next runnable entity of the ready queue.
pub fn pick_next_candidate(sys: &mut ProcessSystem) -> (r: Option<ProcessId>)
    requires
        pids_unique(old(sys).table@),
    ensures
        *final(sys) == (ProcessSystem { scheduler: final(sys).scheduler, ..*old(sys) }),
        final(sys).scheduler is Some == old(sys).scheduler is Some,
        old(sys).scheduler is None ==> r is None,
        r matches Some(p) ==> pid_runnable(old(sys).table@, p) && old(sys).scheduler->0.ready_queue@.contains(p),
        old(sys).scheduler is Some && r is None ==>
            forall|p: ProcessId| #[trigger] old(sys).scheduler->0.ready_queue@.contains(p) ==> !pid_runnable(old(sys).table@, p),
{
    match sys.scheduler.take() {
        Some(mut s) => {
            let r = s.pick_next(&sys.table);
            sys.scheduler = Some(s);
            r
        },
        None => None,
    }
}

/// The next runnable entity other than `excluded`; `excluded` stays queued
/// (at the back) when it was queued and can run.
pub fn pick_next_candidate_excluding(sys: &mut ProcessSystem, excluded: ProcessId) -> (r: Option<ProcessId>)
    requires
        pids_unique(old(sys).table@),
    ensures
        *final(sys) == (ProcessSystem { scheduler: final(sys).scheduler, ..*old(sys) }),
        final(sys).scheduler is Some == old(sys).scheduler is Some,
        old(sys).scheduler is None ==> r is None,
        r matches Some(p) ==> p != excluded && pid_runnable(old(sys).table@, p) && old(sys).scheduler->0.ready_queue@.contains(p),
        old(sys).scheduler is Some && r is None ==> forall|p: ProcessId| #[trigger] old(sys).scheduler->0.ready_queue@.contains(p)
            && p != excluded ==> !pid_runnable(old(sys).table@, p),
        old(sys).scheduler is Some ==> (final(sys).scheduler->0.ready_queue@.contains(excluded)
            <==> (old(sys).scheduler->0.ready_queue@.contains(excluded) && pid_runnable(old(sys).table@, excluded))),
        old(sys).scheduler matches Some(s0) ==> excluded_pick(s0, excluded, final(sys).scheduler->0, old(sys).table@, r),
{
    let mut s = match sys.scheduler.take() {
        Some(s) => s,
        None => return None,
    };
    let had = s.contains(excluded);
    let ghost q0 = s.ready_queue@;
    s.remove(excluded);
    proof {
        let f = q0.filter(|x: ProcessId| x != excluded);
        if f.contains(excluded) {
            let k = choose|k: int| 0 <= k < f.len() && f[k] == excluded;
            q0.lemma_filter_pred(|x: ProcessId| x != excluded, k);
        }
        assert(!s.ready_queue@.contains(excluded));
    }
    let ghost qf = s.ready_queue@;
    let ghost cf = s.cursor;
    let r = s.pick_next(&sys.table);
    let ghost q1 = s.ready_queue@;
    let ghost c1 = s.cursor;
    assert(!s.ready_queue@.contains(excluded));
    if had {
        let ghost before = s.ready_queue@;
        let _ = s.enqueue(excluded, &sys.table);
        proof {
            if pid_runnable(sys.table@, excluded) {
                assert(s.ready_queue@[before.len() as int] == excluded);
            }
        }
    }
    sys.scheduler = Some(s);
    proof {
        let f = q0.filter(|x: ProcessId| x != excluded);
        assert(picked(f, cf, q1, s.cursor, old(sys).table@, r));
        if had && pid_runnable(old(sys).table@, excluded) {
            assert(s.ready_queue@ == q1.push(excluded));
        } else {
            assert(s.ready_queue@ == q1);
        }
        let s0 = old(sys).scheduler->0;
        assert(s0.ready_queue@ == q0);
        assert(other_than(excluded) =~= (|x: ProcessId| x != excluded));
        assert(f == s0.ready_queue@.filter(other_than(excluded)));
        assert(cf == (if s0.cursor >= f.len() { 0usize } else { s0.cursor }));
        assert(picked(f, cf, q1, s.cursor, old(sys).table@, r)
            && s.ready_queue@ == (if s0.ready_queue@.contains(excluded) && pid_runnable(old(sys).table@, excluded) { q1.push(excluded) } else { q1 }));
        let fs = s0.ready_queue@.filter(other_than(excluded));
        let cs = reset_cursor(s0.cursor, fs.len());
        assert(fs == f && cs == cf);
        assert(picked(fs, cs, q1, s.cursor, old(sys).table@, r));
        assert(excluded_pick(s0, excluded, s, old(sys).table@, r));
        if r is Some {
            let p = r->0;
            assert(f.contains(p));
            let k = choose|k: int| 0 <= k < f.len() && f[k] == p;
            q0.lemma_filter_pred(|x: ProcessId| x != excluded, k);
            q0.lemma_filter_contains_rev(|x: ProcessId| x != excluded, p);
        } else {
            assert forall|p: ProcessId| #[trigger] q0.contains(p) && p != excluded implies !pid_runnable(old(sys).table@, p) by {
                let k = choose|k: int| 0 <= k < q0.len() && q0[k] == p;
                q0.lemma_filter_contains(|x: ProcessId| x != excluded, k);
                assert(f.contains(p));
            }
        }
    }
    r
}

/// Length of the ready queue (0 before `init`).
pub fn ready_len(sys: &ProcessSystem) -> (r: usize)
    ensures
        sys.scheduler matches Some(s) ==> r == s.ready_queue@.len(),
        sys.scheduler is None ==> r == 0,
{
    match &sys.scheduler {
        Some(s) => s.len(),
        None => 0,
    }
}

} // verus!
