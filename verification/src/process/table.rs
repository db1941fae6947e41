//! The process table and the state around it: the records of processes and
//! threads in creation order, the ready queue, the wait queue, the current
//! entity, the pending exit and yield requests, the terminal foreground and
//! its stdin line, and the preemption switches.
use vstd::prelude::*;
use crate::ipc::IpcManager;
use crate::memory::pmm::PhysicalMemoryManager;
use crate::process::vm::KernelMemory;
use crate::process::scheduler::{enqueue_ready, remove as scheduler_remove};
use crate::clock::{MonotonicClock, monotonic_ticks};
use crate::fs::vfs::{FileSystem, VirtualFileSystem};
use crate::process::scheduler::Scheduler;
use crate::process::{
    CpuContext, FdEntry, Process, ProcessError, ProcessExit, ProcessExitStatus, ProcessFault, ProcessFd,
    ProcessId, ProcessOutputSink, ProcessState, ThreadId, fault_kind, fault_exit_code, fault_kind_to_i32,
    fault_kind_from_i32, fault_of_kind, sink_code, status_exit_code, status_kind_code, WAIT_KIND_SPAWN_PREPARED,
};

verus! {

/// One entry of the process table. `owner` is `None` for a process (its
/// main thread) and the owning process for an additional thread.
pub struct ProcessRecord {
    pub pid: ProcessId,
    pub owner: Option<ProcessId>,
    pub parent: Option<ProcessId>,
    pub state: ProcessState,
    pub status: Option<ProcessExitStatus>,
    pub has_run: bool,
    pub waitable: bool,
    pub path: String,
    pub process: Option<Process>,
}

#[derive(Debug, Clone)]
pub struct ProcessSnapshot {
    pub pid: ProcessId,
    pub parent: Option<ProcessId>,
    pub state: ProcessState,
    pub status: Option<ProcessExitStatus>,
    pub has_run: bool,
    pub waitable: bool,
    pub path: String,
}

#[derive(Debug, Clone, Copy, Default)]
pub struct ProcessStats {
    pub total: u64,
    pub prepared: u64,
    pub ready: u64,
    pub running: u64,
    pub blocked: u64,
    pub dead: u64,
    pub reaped: u64,
}

#[derive(Debug, Clone, Copy, PartialEq, Eq, Structural)]
pub struct WaitRecord {
    pub pid: ProcessId,
    pub kind: i32,
    pub code: i32,
}

/// What a blocked entity waits for.
#[derive(Clone, Copy, PartialEq, Eq, Structural)]
pub enum WaitKey {
    Timer,
    Ipc(ProcessId),
    /// A futex word: the owning process and the user address of the word.
    Word { owner: ProcessId, addr: u64 },
}

#[derive(Clone, Copy, PartialEq, Eq, Structural)]
pub struct WaitEntry {
    pub entity: ProcessId,
    pub key: WaitKey,
    pub deadline: Option<u64>,
}

/// The stdin line handed to the process waiting for terminal input.
pub struct TerminalStdin {
    pub buffer: [u8; 256],
    pub len: usize,
    pub ready: bool,
}

/// Result of a futex compare-and-block.
#[derive(Debug, Clone, Copy, PartialEq, Eq, Structural)]
pub enum FutexWaitOutcome {
    /// The word matched and the caller is blocked until woken.
    Parked,
    /// The word did not match; nothing changed.
    ValueMismatch,
}

/// The whole process-management state.
pub struct ProcessSystem {
    pub table: Vec<ProcessRecord>,
    pub wait_queue: Vec<WaitEntry>,
    pub scheduler: Option<Scheduler>,
    pub current_pid: u64,
    pub next_pid: u64,
    pub exit_requested: bool,
    pub yield_requested: bool,
    pub schedule_hint: u64,
    pub exit_code: i32,
    pub exit_kind: i32,
    pub foreground_pid: u64,
    pub foreground_sink: u64,
    pub stdin_waiting_pid: u64,
    pub stdin: TerminalStdin,
    pub preempt_switch_requested: bool,
    pub preemption_count: u64,
    pub preemption_enabled: bool,
}

/// No pid occurs twice in the table.
pub open spec fn pids_unique(t: Seq<ProcessRecord>) -> bool {
    forall|i: int, j: int| 0 <= i < t.len() && 0 <= j < t.len() && i != j ==> t[i].pid != t[j].pid
}

pub open spec fn has_pid(t: Seq<ProcessRecord>, pid: ProcessId) -> bool {
    exists|i: int| 0 <= i < t.len() && t[i].pid == pid
}

/// Position of `pid` in the table (meaningful when present).
pub open spec fn pid_index(t: Seq<ProcessRecord>, pid: ProcessId) -> int {
    choose|i: int| 0 <= i < t.len() && t[i].pid == pid
}

pub proof fn lemma_pid_index(t: Seq<ProcessRecord>, i: int)
    requires
        pids_unique(t),
        0 <= i < t.len(),
    ensures
        has_pid(t, t[i].pid),
        pid_index(t, t[i].pid) == i,
{
    assert(has_pid(t, t[i].pid));
    let j = pid_index(t, t[i].pid);
    assert(t[j].pid == t[i].pid);
}

/// Moving another record to `Ready` does not change whether `e` can run.
pub proof fn lemma_moved_runnable(t: Seq<ProcessRecord>, i: int, e: ProcessId)
    requires
        pids_unique(t),
        0 <= i < t.len(),
        t[i].pid != e,
    ensures
        pids_unique(t.update(i, moved_to(t[i], ProcessState::Ready))),
        pid_runnable(t.update(i, moved_to(t[i], ProcessState::Ready)), e) == pid_runnable(t, e),
{
    let u = t.update(i, moved_to(t[i], ProcessState::Ready));
    assert forall|a: int, b: int| 0 <= a < u.len() && 0 <= b < u.len() && a != b implies u[a].pid != u[b].pid by {
        assert(u[a].pid == t[a].pid && u[b].pid == t[b].pid);
    }
    assert forall|q: ProcessId| has_pid(u, q) == has_pid(t, q) && (has_pid(t, q) ==> pid_index(u, q) == pid_index(t, q)) by {
        if has_pid(t, q) {
            let j = pid_index(t, q);
            assert(u[j].pid == q);
            lemma_pid_index(u, j);
        }
        if has_pid(u, q) {
            let j = pid_index(u, q);
            assert(t[j].pid == q);
        }
    }
    if has_pid(t, e) {
        let j = pid_index(t, e);
        assert(j != i);
        assert(u[j] == t[j]);
        let o = owner_pid(t[j]);
        if has_pid(t, o) {
            let oi = pid_index(t, o);
            if oi == i {
                match t[i].process {
                    Some(p) => { p.lemma_with_state(ProcessState::Ready); },
                    None => {},
                }
            }
        }
    }
}

/// The pid of the process an entity belongs to: itself or its owner.
pub open spec fn owner_pid(rec: ProcessRecord) -> ProcessId {
    match rec.owner {
        Some(o) => o,
        None => rec.pid,
    }
}

/// An entity can be scheduled: it is ready, a user entity with an entry
/// point, a stack and a kernel stack, and its process has an address space.
pub open spec fn record_runnable(t: Seq<ProcessRecord>, i: int) -> bool {
    let rec = t[i];
    let owner = owner_pid(rec);
    &&& rec.state == ProcessState::Ready
    &&& rec.process is Some
    &&& !rec.process->0.is_kernel
    &&& rec.process->0.context.rip != 0
    &&& rec.process->0.context.rsp != 0
    &&& rec.process->0.spec_has_kernel_stack()
    &&& has_pid(t, owner)
    &&& t[pid_index(t, owner)].process is Some
    &&& t[pid_index(t, owner)].process->0.spec_has_address_space()
}

pub open spec fn pid_runnable(t: Seq<ProcessRecord>, pid: ProcessId) -> bool {
    has_pid(t, pid) && record_runnable(t, pid_index(t, pid))
}

/// Position of `pid` in the table.
pub fn process_record_index(table: &Vec<ProcessRecord>, pid: ProcessId) -> (r: Option<usize>)
    requires
        pids_unique(table@),
    ensures
        r matches Some(i) ==> i < table@.len() && table@[i as int].pid == pid && pid_index(table@, pid) == i,
        r is None <==> !has_pid(table@, pid),
{
    let mut i: usize = 0;
    while i < table.len()
        invariant
            i <= table@.len(),
            pids_unique(table@),
            forall|j: int| 0 <= j < i ==> table@[j].pid != pid,
        decreases table@.len() - i,
    {
        if table[i].pid == pid {
            proof {
                lemma_pid_index(table@, i as int);
            }
            return Some(i);
        }
        i = i + 1;
    }
    None
}

/// Whether the table lets `pid` be scheduled.
pub fn is_pid_runnable_in(table: &Vec<ProcessRecord>, pid: ProcessId) -> (r: bool)
    requires
        pids_unique(table@),
    ensures
        r == pid_runnable(table@, pid),
{
    let i = match process_record_index(table, pid) {
        Some(i) => i,
        None => return false,
    };
    let record = &table[i];
    if record.state != ProcessState::Ready {
        return false;
    }
    let process = match &record.process {
        Some(p) => p,
        None => return false,
    };
    let owner = match record.owner {
        Some(o) => o,
        None => pid,
    };
    let owner_has_space = match process_record_index(table, owner) {
        Some(j) => match &table[j].process {
            Some(op) => op.address_space().is_some(),
            None => false,
        },
        None => false,
    };
    !process.is_kernel && process.context.rip != 0 && process.context.rsp != 0 && owner_has_space
        && process.kernel_stack_top().is_some()
}

/// `t2` is `t` with record `i` replaced by one of the same pid.
pub open spec fn record_replaced(t: Seq<ProcessRecord>, t2: Seq<ProcessRecord>, i: int) -> bool {
    &&& 0 <= i < t.len()
    &&& t2.len() == t.len()
    &&& t2[i].pid == t[i].pid
    &&& forall|j: int| 0 <= j < t.len() && j != i ==> t2[j] == t[j]
}

/// The state of a record after a lifecycle move to `s`: record and process
/// object both take the state.
pub open spec fn moved_to(rec: ProcessRecord, s: ProcessState) -> ProcessRecord {
    ProcessRecord {
        state: s,
        process: match rec.process {
            Some(p) => Some(Process { state: s, ..p }),
            None => None,
        },
        ..rec
    }
}

fn move_record_state(rec: ProcessRecord, s: ProcessState) -> (r: ProcessRecord)
    ensures
        r == moved_to(rec, s),
{
    let mut rec = rec;
    rec.state = s;
    match rec.process.take() {
        Some(mut p) => {
            p.state = s;
            rec.process = Some(p);
        },
        None => {},
    }
    rec
}

/// Replaces record `i` with `rec`, which has the same pid.
fn put_record(table: &mut Vec<ProcessRecord>, i: usize, rec: ProcessRecord)
    requires
        i < old(table)@.len(),
        rec.pid == old(table)@[i as int].pid,
        pids_unique(old(table)@),
    ensures
        final(table)@ == old(table)@.update(i as int, rec),
        pids_unique(final(table)@),
{
    let _ = table.remove(i);
    table.insert(i, rec);
    proof {
        assert(table@ =~= old(table)@.update(i as int, rec));
    }
}

/// Every live process object in the table is well formed.
pub open spec fn records_wf(t: Seq<ProcessRecord>) -> bool {
    forall|i: int| 0 <= i < t.len() && (#[trigger] t[i]).process is Some ==> t[i].process->0.wf()
}

impl ProcessSystem {
    pub open spec fn wf(&self) -> bool {
        &&& pids_unique(self.table@)
        &&& records_wf(self.table@)
    }

    /// An empty table with preemption on and no scheduler yet.
    pub fn new() -> (r: Self)
        ensures
            r.wf(),
            r.table@.len() == 0,
            r.wait_queue@.len() == 0,
            r.scheduler is None,
            r.current_pid == 0,
            r.next_pid == 1,
            !r.exit_requested,
            !r.yield_requested,
            r.foreground_pid == 0,
            r.foreground_sink == 0,
            r.stdin_waiting_pid == 0,
            r.preemption_enabled,
            r.preemption_count == 0,
    {
        ProcessSystem {
            table: Vec::new(),
            wait_queue: Vec::new(),
            scheduler: None,
            current_pid: 0,
            next_pid: 1,
            exit_requested: false,
            yield_requested: false,
            schedule_hint: 0,
            exit_code: 0,
            exit_kind: 0,
            foreground_pid: 0,
            foreground_sink: 0,
            stdin_waiting_pid: 0,
            stdin: TerminalStdin { buffer: [0u8; 256], len: 0, ready: false },
            preempt_switch_requested: false,
            preemption_count: 0,
            preemption_enabled: true,
        }
    }
}

/// Hands out the next pid (the counter wraps like the atomic it models).
pub fn allocate_pid(sys: &mut ProcessSystem) -> (r: ProcessId)
    ensures
        r.0 == old(sys).next_pid,
        final(sys).next_pid == old(sys).next_pid.wrapping_add(1),
        final(sys).table == old(sys).table,
        final(sys).wait_queue == old(sys).wait_queue,
        final(sys).scheduler == old(sys).scheduler,
        final(sys).current_pid == old(sys).current_pid,
{
    let pid = sys.next_pid;
    sys.next_pid = sys.next_pid.wrapping_add(1);
    ProcessId(pid)
}

/// The entity on the CPU, if any.
pub open spec fn current_entity(sys: &ProcessSystem) -> Option<ProcessId> {
    if sys.current_pid == 0 { None } else { Some(ProcessId(sys.current_pid)) }
}

/// The process an entity belongs to, if the entity is in the table.
pub open spec fn spec_owner_of(t: Seq<ProcessRecord>, entity: ProcessId) -> Option<ProcessId> {
    if has_pid(t, entity) { Some(owner_pid(t[pid_index(t, entity)])) } else { None }
}

/// The process on the CPU (the owner of the current entity).
pub open spec fn spec_current_pid(sys: &ProcessSystem) -> Option<ProcessId> {
    match current_entity(sys) {
        Some(e) => spec_owner_of(sys.table@, e),
        None => None,
    }
}

fn current_entity_id(sys: &ProcessSystem) -> (r: Option<ProcessId>)
    ensures
        r == current_entity(sys),
{
    if sys.current_pid == 0 { None } else { Some(ProcessId(sys.current_pid)) }
}

fn owner_of(sys: &ProcessSystem, entity: ProcessId) -> (r: Option<ProcessId>)
    requires
        sys.wf(),
    ensures
        r == spec_owner_of(sys.table@, entity),
{
    match process_record_index(&sys.table, entity) {
        Some(i) => match sys.table[i].owner {
            Some(o) => Some(o),
            None => Some(entity),
        },
        None => None,
    }
}

fn current_pid(sys: &ProcessSystem) -> (r: Option<ProcessId>)
    requires
        sys.wf(),
    ensures
        r == spec_current_pid(sys),
{
    match current_entity_id(sys) {
        Some(e) => owner_of(sys, e),
        None => None,
    }
}

pub fn current_tid(sys: &ProcessSystem) -> (r: Option<ThreadId>)
    ensures
        sys.current_pid == 0 ==> r is None,
        sys.current_pid != 0 ==> r == Some(ThreadId(sys.current_pid)),
{
    match current_entity_id(sys) {
        Some(id) => Some(ThreadId(id.0)),
        None => None,
    }
}

/// The process object of the current entity.
pub fn current_thread_pointer(sys: &ProcessSystem) -> (r: Option<u64>)
    requires
        sys.wf(),
    ensures
        match current_entity(sys) {
            Some(e) => if has_pid(sys.table@, e) && sys.table@[pid_index(sys.table@, e)].process is Some {
                r == Some(sys.table@[pid_index(sys.table@, e)].process->0.fs_base)
            } else {
                r is None
            },
            None => r is None,
        },
{
    let e = match current_entity_id(sys) {
        Some(e) => e,
        None => return None,
    };
    match process_record_index(&sys.table, e) {
        Some(i) => match &sys.table[i].process {
            Some(p) => Some(p.fs_base),
            None => None,
        },
        None => None,
    }
}

/// Sets the foreground of the terminal.
pub fn set_terminal_foreground_process(sys: &mut ProcessSystem, pid: Option<ProcessId>)
    ensures
        final(sys).foreground_pid == (match pid { Some(p) => p.0, None => 0 }),
        final(sys).foreground_sink == (if pid is Some { 1u64 } else { 0u64 }),
        pid is None ==> final(sys).stdin_waiting_pid == 0 && final(sys).stdin.len == 0 && !final(sys).stdin.ready,
        pid is Some ==> final(sys).stdin_waiting_pid == old(sys).stdin_waiting_pid,
        final(sys).table == old(sys).table,
{
    set_foreground_process(sys, pid, ProcessOutputSink::Terminal);
}

/// Makes `pid`'s process tree the foreground with output to `sink`; with no
/// foreground, output goes to serial only and a pending stdin line is
/// dropped.
pub fn set_foreground_process(sys: &mut ProcessSystem, pid: Option<ProcessId>, sink: ProcessOutputSink)
    ensures
        final(sys).foreground_pid == (match pid { Some(p) => p.0, None => 0 }),
        final(sys).foreground_sink == (if pid is Some { sink_code(sink) } else { 0u64 }),
        pid is None ==> final(sys).stdin_waiting_pid == 0 && final(sys).stdin.len == 0 && !final(sys).stdin.ready,
        pid is Some ==> final(sys).stdin_waiting_pid == old(sys).stdin_waiting_pid
            && final(sys).stdin == old(sys).stdin,
        final(sys).table == old(sys).table,
        final(sys).wait_queue == old(sys).wait_queue,
        final(sys).current_pid == old(sys).current_pid,
{
    sys.foreground_pid = match pid {
        Some(p) => p.0,
        None => 0,
    };
    sys.foreground_sink = if pid.is_some() { sink.as_u64() } else { 0 };
    if pid.is_none() {
        sys.stdin_waiting_pid = 0;
        sys.stdin.len = 0;
        sys.stdin.ready = false;
    }
}

/// Whether `foreground` is `pid` or one of its ancestors within `fuel`
/// steps up the parent chain.
pub open spec fn chain_reaches(t: Seq<ProcessRecord>, pid: u64, foreground: u64, fuel: nat) -> bool
    decreases fuel,
{
    if pid == 0 {
        false
    } else if pid == foreground {
        true
    } else if fuel == 0 || !has_pid(t, ProcessId(pid)) {
        false
    } else {
        let parent = t[pid_index(t, ProcessId(pid))].parent;
        chain_reaches(t, match parent { Some(p) => p.0, None => 0 }, foreground, (fuel - 1) as nat)
    }
}

/// Where output of the current process goes: the foreground sink when the
/// foreground is the current process or one of its ancestors (the walk is
/// bounded by the table size), else `None`.
pub fn current_process_output_sink(sys: &ProcessSystem) -> (r: Option<ProcessOutputSink>)
    requires
        sys.wf(),
    ensures
        sys.foreground_pid == 0 ==> r is None,
        sys.foreground_pid != 0 ==> ({
            let start = match spec_current_pid(sys) { Some(p) => p.0, None => 0 };
            if chain_reaches(sys.table@, start, sys.foreground_pid, sys.table@.len()) {
                r matches Some(s) && (sys.foreground_sink <= 2 ==> sink_code(s) == sys.foreground_sink)
                    && (sys.foreground_sink > 2 ==> s == ProcessOutputSink::SerialOnly)
            } else {
                r is None
            }
        }),
{
    let foreground = sys.foreground_pid;
    if foreground == 0 {
        return None;
    }
    let mut pid = match current_pid(sys) {
        Some(p) => p.0,
        None => 0,
    };
    let mut fuel: usize = sys.table.len();
    let ghost start = pid;
    loop
        invariant
            sys.wf(),
            foreground == sys.foreground_pid,
            foreground != 0,
            fuel <= sys.table@.len(),
            start == (match spec_current_pid(sys) { Some(p) => p.0, None => 0 }),
            chain_reaches(sys.table@, start, foreground, sys.table@.len())
                == chain_reaches(sys.table@, pid, foreground, fuel as nat),
        decreases fuel,
    {
        if pid == 0 {
            return None;
        }
        if pid == foreground {
            return Some(ProcessOutputSink::from_u64(sys.foreground_sink));
        }
        if fuel == 0 {
            return None;
        }
        let i = match process_record_index(&sys.table, ProcessId(pid)) {
            Some(i) => i,
            None => return None,
        };
        pid = match sys.table[i].parent {
            Some(p) => p.0,
            None => 0,
        };
        fuel = fuel - 1;
    }
}

pub fn current_process_is_terminal_foreground(sys: &ProcessSystem) -> (r: bool)
    requires
        sys.wf(),
    ensures
        r == (sys.foreground_pid != 0 && sys.foreground_sink == 1 && chain_reaches(sys.table@,
            match spec_current_pid(sys) { Some(p) => p.0, None => 0 }, sys.foreground_pid, sys.table@.len())),
{
    match current_process_output_sink(sys) {
        Some(ProcessOutputSink::Terminal) => true,
        _ => false,
    }
}

/// Registers the current process as the one waiting for a terminal line;
/// it must be in the terminal foreground.
pub fn request_terminal_stdin_for_current(sys: &mut ProcessSystem) -> (r: Result<(), ProcessError>)
    requires
        old(sys).wf(),
    ensures
        final(sys).table == old(sys).table,
        r is Ok <==> spec_current_pid(&*old(sys)) is Some && old(sys).foreground_pid != 0
            && old(sys).foreground_sink == 1 && chain_reaches(old(sys).table@,
            (spec_current_pid(&*old(sys))->0).0, old(sys).foreground_pid, old(sys).table@.len()),
        r is Err ==> r == Err::<(), ProcessError>(ProcessError::NoCurrentProcess)
            && final(sys).stdin_waiting_pid == old(sys).stdin_waiting_pid,
        r is Ok ==> final(sys).stdin_waiting_pid == (spec_current_pid(&*old(sys))->0).0,
{
    let pid = match current_pid(sys) {
        Some(p) => p,
        None => return Err(ProcessError::NoCurrentProcess),
    };
    if !current_process_is_terminal_foreground(sys) {
        return Err(ProcessError::NoCurrentProcess);
    }
    sys.stdin_waiting_pid = pid.0;
    Ok(())
}

pub fn terminal_stdin_waiting_pid(sys: &ProcessSystem) -> (r: Option<ProcessId>)
    ensures
        sys.stdin_waiting_pid == 0 ==> r is None,
        sys.stdin_waiting_pid != 0 ==> r == Some(ProcessId(sys.stdin_waiting_pid)),
{
    if sys.stdin_waiting_pid == 0 {
        None
    } else {
        Some(ProcessId(sys.stdin_waiting_pid))
    }
}

/// Hands a terminal line (cut to 256 bytes) to `pid`, which must be the
/// waiting process.
pub fn provide_terminal_stdin(sys: &mut ProcessSystem, pid: ProcessId, data: &[u8]) -> (r: Result<(), ProcessError>)
    ensures
        final(sys).table == old(sys).table,
        final(sys).stdin_waiting_pid == old(sys).stdin_waiting_pid,
        old(sys).stdin_waiting_pid != pid.0 ==> r == Err::<(), ProcessError>(ProcessError::NoSuchProcess)
            && final(sys).stdin == old(sys).stdin,
        old(sys).stdin_waiting_pid == pid.0 ==> {
            let n = if data@.len() < 256 { data@.len() } else { 256 };
            &&& r is Ok
            &&& final(sys).stdin.ready
            &&& final(sys).stdin.len == n
            &&& final(sys).stdin.buffer@.subrange(0, n as int) == data@.subrange(0, n as int)
        },
{
    if sys.stdin_waiting_pid != pid.0 {
        return Err(ProcessError::NoSuchProcess);
    }
    let n = if data.len() < 256 { data.len() } else { 256 };
    let mut k: usize = 0;
    while k < n
        invariant
            n <= data@.len(),
            n <= 256,
            k <= n,
            sys.stdin.buffer@.len() == 256,
            sys.table == old(sys).table,
            sys.stdin_waiting_pid == old(sys).stdin_waiting_pid,
            forall|j: int| 0 <= j < k ==> sys.stdin.buffer@[j] == data@[j],
        decreases n - k,
    {
        sys.stdin.buffer[k] = data[k];
        k = k + 1;
    }
    sys.stdin.len = n;
    sys.stdin.ready = true;
    proof {
        assert(sys.stdin.buffer@.subrange(0, n as int) =~= data@.subrange(0, n as int));
    }
    Ok(())
}

/// Gives the current process its pending terminal line, if it is the
/// waiting process and the line is there: copies what fits into `out` and
/// clears the wait.
pub fn take_terminal_stdin_for_current(sys: &mut ProcessSystem, out: &mut [u8]) -> (r: Result<Option<usize>, ProcessError>)
    requires
        old(sys).wf(),
        old(sys).stdin.len <= 256,
    ensures
        final(sys).table == old(sys).table,
        final(out)@.len() == old(out)@.len(),
        spec_current_pid(&*old(sys)) is None ==> r == Err::<Option<usize>, ProcessError>(ProcessError::NoCurrentProcess),
        spec_current_pid(&*old(sys)) matches Some(p) ==> {
            &&& (old(sys).stdin_waiting_pid != p.0 || !old(sys).stdin.ready) ==>
                r == Ok::<Option<usize>, ProcessError>(None) && final(sys).stdin == old(sys).stdin
                && final(sys).stdin_waiting_pid == old(sys).stdin_waiting_pid
            &&& (old(sys).stdin_waiting_pid == p.0 && old(sys).stdin.ready) ==> {
                let n = if old(sys).stdin.len < old(out)@.len() { old(sys).stdin.len as int } else { old(out)@.len() as int };
                &&& r == Ok::<Option<usize>, ProcessError>(Some(n as usize))
                &&& final(out)@.subrange(0, n) == old(sys).stdin.buffer@.subrange(0, n)
                &&& final(sys).stdin.len == 0 && !final(sys).stdin.ready
                &&& final(sys).stdin_waiting_pid == 0
            }
        },
{
    let pid = match current_pid(sys) {
        Some(p) => p,
        None => return Err(ProcessError::NoCurrentProcess),
    };
    if sys.stdin_waiting_pid != pid.0 || !sys.stdin.ready {
        return Ok(None);
    }
    let n = if sys.stdin.len < out.len() { sys.stdin.len } else { out.len() };
    let mut k: usize = 0;
    while k < n
        invariant
            n <= out@.len(),
            n <= 256,
            k <= n,
            sys.stdin.buffer@.len() == 256,
            sys.stdin == old(sys).stdin,
            out@.len() == old(out)@.len(),
            forall|j: int| 0 <= j < k ==> out@[j] == sys.stdin.buffer@[j],
        decreases n - k,
    {
        out[k] = sys.stdin.buffer[k];
        k = k + 1;
    }
    proof {
        assert(out@.subrange(0, n as int) =~= old(sys).stdin.buffer@.subrange(0, n as int));
    }
    sys.stdin.len = 0;
    sys.stdin.ready = false;
    sys.stdin_waiting_pid = 0;
    Ok(Some(n))
}

/// A process shows as running while it is ready and one of its threads is
/// on the CPU.
pub open spec fn effective_state(t: Seq<ProcessRecord>, rec: ProcessRecord) -> ProcessState {
    if rec.state == ProcessState::Ready && exists|j: int| 0 <= j < t.len() && (#[trigger] t[j]).owner == Some(rec.pid)
        && t[j].state == ProcessState::Running {
        ProcessState::Running
    } else {
        rec.state
    }
}

fn effective_process_state(table: &Vec<ProcessRecord>, record: &ProcessRecord) -> (r: ProcessState)
    ensures
        r == effective_state(table@, *record),
{
    if record.state == ProcessState::Ready {
        let mut j: usize = 0;
        while j < table.len()
            invariant
                j <= table@.len(),
                record.state == ProcessState::Ready,
                forall|k: int| 0 <= k < j ==> !((#[trigger] table@[k]).owner == Some(record.pid) && table@[k].state == ProcessState::Running),
            decreases table@.len() - j,
        {
            if table[j].owner == Some(record.pid) && table[j].state == ProcessState::Running {
                proof {
                    assert(table@[j as int].owner == Some(record.pid) && table@[j as int].state == ProcessState::Running);
                }
                return ProcessState::Running;
            }
            j = j + 1;
        }
    }
    record.state
}

/// The records of processes (not threads), in table order.
pub open spec fn process_records(t: Seq<ProcessRecord>) -> Seq<ProcessRecord> {
    t.filter(|r: ProcessRecord| r.owner is None)
}

/// `s` shows record `rec` of table `t`.
pub open spec fn snapshot_of(t: Seq<ProcessRecord>, rec: ProcessRecord, s: ProcessSnapshot) -> bool {
    &&& s.pid == rec.pid
    &&& s.parent == rec.parent
    &&& s.state == effective_state(t, rec)
    &&& s.status == rec.status
    &&& s.has_run == rec.has_run
    &&& s.waitable == rec.waitable
    &&& s.path@ == rec.path@
}

/// Replaces the contents of `out` with a snapshot of every process (threads
/// left out), in table order.
pub fn snapshot_processes(sys: &ProcessSystem, out: &mut Vec<ProcessSnapshot>)
    ensures
        final(out)@.len() == process_records(sys.table@).len(),
        forall|i: int| 0 <= i < final(out)@.len() ==>
            snapshot_of(sys.table@, #[trigger] process_records(sys.table@)[i], final(out)@[i]),
{
    out.clear();
    let mut i: usize = 0;
    while i < sys.table.len()
        invariant
            i <= sys.table@.len(),
            out@.len() == process_records(sys.table@.subrange(0, i as int)).len(),
            forall|k: int| 0 <= k < out@.len() ==>
                snapshot_of(sys.table@, #[trigger] process_records(sys.table@.subrange(0, i as int))[k], out@[k]),
        decreases sys.table@.len() - i,
    {
        let ghost prev = sys.table@.subrange(0, i as int);
        let ghost next = sys.table@.subrange(0, i as int + 1);
        proof {
            assert(next.drop_last() =~= prev);
            reveal_with_fuel(Seq::filter, 1);
        }
        let record = &sys.table[i];
        if record.owner.is_none() {
            let state = effective_process_state(&sys.table, record);
            let path = record.path.clone();
            out.push(ProcessSnapshot {
                pid: record.pid,
                parent: record.parent,
                state,
                status: record.status,
                has_run: record.has_run,
                waitable: record.waitable,
                path,
            });
            proof {
                assert(process_records(next) =~= process_records(prev).push(sys.table@[i as int]));
            }
        } else {
            proof {
                assert(process_records(next) =~= process_records(prev));
            }
        }
        i = i + 1;
    }
    proof {
        assert(sys.table@.subrange(0, sys.table@.len() as int) =~= sys.table@);
    }
}

/// A snapshot of every process, in table order.
pub fn get_process_snapshots(sys: &ProcessSystem) -> (r: Vec<ProcessSnapshot>)
    ensures
        r@.len() == process_records(sys.table@).len(),
        forall|i: int| 0 <= i < r@.len() ==>
            snapshot_of(sys.table@, #[trigger] process_records(sys.table@)[i], r@[i]),
{
    let mut out: Vec<ProcessSnapshot> = Vec::new();
    snapshot_processes(sys, &mut out);
    out
}

/// Number of processes among `recs` whose effective state in `t` is `s`.
pub open spec fn count_in_state(t: Seq<ProcessRecord>, recs: Seq<ProcessRecord>, s: ProcessState) -> nat
    decreases recs.len(),
{
    if recs.len() == 0 {
        0
    } else {
        count_in_state(t, recs.drop_last(), s) + if effective_state(t, recs.last()) == s { 1nat } else { 0nat }
    }
}

proof fn lemma_count_le(t: Seq<ProcessRecord>, recs: Seq<ProcessRecord>, s: ProcessState)
    ensures
        count_in_state(t, recs, s) <= recs.len(),
    decreases recs.len(),
{
    if recs.len() > 0 {
        lemma_count_le(t, recs.drop_last(), s);
    }
}

/// Counts of processes (threads left out) by effective state.
pub fn process_stats(sys: &ProcessSystem) -> (r: ProcessStats)
    ensures
        r.total == process_records(sys.table@).len(),
        r.prepared == count_in_state(sys.table@, process_records(sys.table@), ProcessState::Prepared),
        r.ready == count_in_state(sys.table@, process_records(sys.table@), ProcessState::Ready),
        r.running == count_in_state(sys.table@, process_records(sys.table@), ProcessState::Running),
        r.blocked == count_in_state(sys.table@, process_records(sys.table@), ProcessState::Blocked),
        r.dead == count_in_state(sys.table@, process_records(sys.table@), ProcessState::Dead),
        r.reaped == count_in_state(sys.table@, process_records(sys.table@), ProcessState::Reaped),
{
    let ghost t = sys.table@;
    let mut st = ProcessStats { total: 0, prepared: 0, ready: 0, running: 0, blocked: 0, dead: 0, reaped: 0 };
    let mut i: usize = 0;
    while i < sys.table.len()
        invariant
            t == sys.table@,
            i <= t.len(),
            st.total == process_records(t.subrange(0, i as int)).len(),
            st.prepared == count_in_state(t, process_records(t.subrange(0, i as int)), ProcessState::Prepared),
            st.ready == count_in_state(t, process_records(t.subrange(0, i as int)), ProcessState::Ready),
            st.running == count_in_state(t, process_records(t.subrange(0, i as int)), ProcessState::Running),
            st.blocked == count_in_state(t, process_records(t.subrange(0, i as int)), ProcessState::Blocked),
            st.dead == count_in_state(t, process_records(t.subrange(0, i as int)), ProcessState::Dead),
            st.reaped == count_in_state(t, process_records(t.subrange(0, i as int)), ProcessState::Reaped),
            process_records(t.subrange(0, i as int)).len() <= i,
        decreases t.len() - i,
    {
        let ghost prev = t.subrange(0, i as int);
        let ghost next = t.subrange(0, i as int + 1);
        proof {
            assert(next.drop_last() =~= prev);
            reveal_with_fuel(Seq::filter, 1);
            lemma_count_le(t, process_records(prev), ProcessState::Prepared);
            lemma_count_le(t, process_records(prev), ProcessState::Ready);
            lemma_count_le(t, process_records(prev), ProcessState::Running);
            lemma_count_le(t, process_records(prev), ProcessState::Blocked);
            lemma_count_le(t, process_records(prev), ProcessState::Dead);
            lemma_count_le(t, process_records(prev), ProcessState::Reaped);
        }
        let record = &sys.table[i];
        if record.owner.is_none() {
            proof {
                assert(process_records(next) =~= process_records(prev).push(t[i as int]));
                assert(process_records(next).drop_last() =~= process_records(prev));
            }
            st.total = st.total + 1;
            match effective_process_state(&sys.table, record) {
                ProcessState::Prepared => st.prepared = st.prepared + 1,
                ProcessState::Ready => st.ready = st.ready + 1,
                ProcessState::Running => st.running = st.running + 1,
                ProcessState::Blocked => st.blocked = st.blocked + 1,
                ProcessState::Dead => st.dead = st.dead + 1,
                ProcessState::Reaped => st.reaped = st.reaped + 1,
            }
        } else {
            proof {
                assert(process_records(next) =~= process_records(prev));
            }
        }
        i = i + 1;
    }
    proof {
        assert(t.subrange(0, t.len() as int) =~= t);
    }
    st
}

/// Whether `pid` names a process (not a thread) of the table.
pub fn process_exists(sys: &ProcessSystem, pid: ProcessId) -> (r: bool)
    requires
        sys.wf(),
    ensures
        r == (has_pid(sys.table@, pid) && sys.table@[pid_index(sys.table@, pid)].owner is None),
{
    match process_record_index(&sys.table, pid) {
        Some(i) => sys.table[i].owner.is_none(),
        None => false,
    }
}

/// Number of `owner`'s threads in the table.
pub fn thread_count_for_pid(sys: &ProcessSystem, owner: ProcessId) -> (r: usize)
    ensures
        r == sys.table@.filter(|rec: ProcessRecord| rec.owner == Some(owner)).len(),
{
    let mut n: usize = 0;
    let mut i: usize = 0;
    while i < sys.table.len()
        invariant
            i <= sys.table@.len(),
            n == sys.table@.subrange(0, i as int).filter(|rec: ProcessRecord| rec.owner == Some(owner)).len(),
            n <= i,
        decreases sys.table@.len() - i,
    {
        proof {
            let next = sys.table@.subrange(0, i as int + 1);
            assert(next.drop_last() =~= sys.table@.subrange(0, i as int));
            reveal_with_fuel(Seq::filter, 1);
        }
        if sys.table[i].owner == Some(owner) {
            n = n + 1;
        }
        i = i + 1;
    }
    proof {
        assert(sys.table@.subrange(0, sys.table@.len() as int) =~= sys.table@);
    }
    n
}

pub fn is_pid_runnable(sys: &ProcessSystem, pid: ProcessId) -> (r: bool)
    requires
        sys.wf(),
    ensures
        r == pid_runnable(sys.table@, pid),
{
    is_pid_runnable_in(&sys.table, pid)
}

pub fn is_pid_blocked(sys: &ProcessSystem, pid: ProcessId) -> (r: bool)
    requires
        sys.wf(),
    ensures
        r == (has_pid(sys.table@, pid) && sys.table@[pid_index(sys.table@, pid)].state == ProcessState::Blocked),
{
    match process_record_index(&sys.table, pid) {
        Some(i) => sys.table[i].state == ProcessState::Blocked,
        None => false,
    }
}

/// Adds a record for `pid`, or overwrites the record that already has it
/// (keeping its place) as a process record with no status.
pub fn insert_process_record(
    sys: &mut ProcessSystem,
    pid: ProcessId,
    parent: Option<ProcessId>,
    path: String,
    state: ProcessState,
    waitable: bool,
    has_run: bool,
    process: Option<Process>,
)
    requires
        old(sys).wf(),
        process matches Some(p) ==> p.wf(),
    ensures
        final(sys).wf(),
        ({
            let rec = ProcessRecord { pid, owner: None, parent, state, status: None, has_run, waitable, path, process };
            if has_pid(old(sys).table@, pid) {
                final(sys).table@ == old(sys).table@.update(pid_index(old(sys).table@, pid), rec)
            } else {
                final(sys).table@ == old(sys).table@.push(rec)
            }
        }),
        final(sys).wait_queue == old(sys).wait_queue,
        final(sys).scheduler == old(sys).scheduler,
        final(sys).current_pid == old(sys).current_pid,
        final(sys).next_pid == old(sys).next_pid,
{
    let rec = ProcessRecord { pid, owner: None, parent, state, status: None, has_run, waitable, path, process };
    match process_record_index(&sys.table, pid) {
        Some(i) => {
            put_record(&mut sys.table, i, rec);
            proof {
                assert forall|j: int| 0 <= j < sys.table@.len() && (#[trigger] sys.table@[j]).process is Some implies
                    sys.table@[j].process->0.wf() by {
                    if j != i {
                        assert(sys.table@[j] == old(sys).table@[j]);
                    }
                }
            }
        },
        None => {
            sys.table.push(rec);
            proof {
                assert forall|a: int, b: int| 0 <= a < sys.table@.len() && 0 <= b < sys.table@.len() && a != b implies
                    sys.table@[a].pid != sys.table@[b].pid by {
                    if a == old(sys).table@.len() {
                        assert(old(sys).table@[b].pid != pid);
                    } else if b == old(sys).table@.len() {
                        assert(old(sys).table@[a].pid != pid);
                    }
                }
                assert forall|j: int| 0 <= j < sys.table@.len() && (#[trigger] sys.table@[j]).process is Some implies
                    sys.table@[j].process->0.wf() by {
                    if j < old(sys).table@.len() {
                        assert(sys.table@[j] == old(sys).table@[j]);
                    }
                }
            }
        },
    }
}

/// The process object of the current process, if it has one.
pub fn current_process(sys: &ProcessSystem) -> (r: Option<&Process>)
    requires
        sys.wf(),
    ensures
        match spec_current_pid(sys) {
            Some(p) => if sys.table@[pid_index(sys.table@, p)].process is Some && has_pid(sys.table@, p) {
                r == Some(&sys.table@[pid_index(sys.table@, p)].process->0)
            } else {
                r is None
            },
            None => r is None,
        },
{
    let pid = match current_pid(sys) {
        Some(p) => p,
        None => return None,
    };
    match process_record_index(&sys.table, pid) {
        Some(i) => match &sys.table[i].process {
            Some(p) => Some(p),
            None => None,
        },
        None => None,
    }
}

/// Creates a prepared user process for `path` as a child of the current
/// process, inheriting its working directory.
pub fn create_user_process_record(sys: &mut ProcessSystem, path: String, waitable: bool, mem: &mut KernelMemory) -> (r: Result<ProcessId, ProcessError>)
    requires
        old(sys).wf(),
        old(mem).wf(),
    ensures
        final(sys).wf(),
        final(mem).wf(),
        final(sys).next_pid == old(sys).next_pid.wrapping_add(1),
        final(sys).current_pid == old(sys).current_pid,
        final(sys).wait_queue == old(sys).wait_queue,
        r is Ok <==> old(mem).pmm.spec_free_frames() > 0,
        r is Err ==> r == Err::<ProcessId, ProcessError>(ProcessError::AddressSpaceCreateFailed)
            && final(sys).table == old(sys).table,
        r matches Ok(pid) ==> {
            let t = final(sys).table@;
            &&& pid.0 == old(sys).next_pid
            &&& has_pid(t, pid)
            &&& t[pid_index(t, pid)].parent == spec_current_pid(&*old(sys))
            &&& t[pid_index(t, pid)].state == ProcessState::Prepared
            &&& t[pid_index(t, pid)].owner is None
            &&& t[pid_index(t, pid)].waitable == waitable
            &&& !t[pid_index(t, pid)].has_run
            &&& t[pid_index(t, pid)].status is None
            &&& t[pid_index(t, pid)].path@ == path@
            &&& t[pid_index(t, pid)].process matches Some(p) && p.pid == pid && p.state == ProcessState::Prepared
                && !p.is_kernel && p.spec_has_address_space()
        },
{
    let pid = allocate_pid(sys);
    let parent = current_pid(sys);
    let mut process = match Process::new_user(pid, &mut mem.pmm) {
        Ok(p) => p,
        Err(e) => return Err(e),
    };
    process.state = ProcessState::Prepared;
    match current_process(sys) {
        Some(current) => {
            process.cwd = current.cwd.clone();
        },
        None => {},
    }
    insert_process_record(sys, pid, parent, path, ProcessState::Prepared, waitable, false, Some(process));
    proof {
        let t = sys.table@;
        if has_pid(old(sys).table@, pid) {
            let i = pid_index(old(sys).table@, pid);
            lemma_pid_index(t, i);
        } else {
            lemma_pid_index(t, t.len() - 1);
        }
    }
    Ok(pid)
}

/// Moves a prepared (or ready) process to ready and queues it.
pub fn mark_process_prepared_as_ready(sys: &mut ProcessSystem, pid: ProcessId) -> (r: Result<(), ProcessError>)
    requires
        old(sys).wf(),
    ensures
        final(sys).wf(),
        final(sys).wait_queue == old(sys).wait_queue,
        final(sys).current_pid == old(sys).current_pid,
        !has_pid(old(sys).table@, pid) ==> r == Err::<(), ProcessError>(ProcessError::NoSuchProcess)
            && final(sys).table == old(sys).table,
        has_pid(old(sys).table@, pid) ==> {
            let i = pid_index(old(sys).table@, pid);
            let rec = old(sys).table@[i];
            &&& (rec.state == ProcessState::Dead || rec.state == ProcessState::Reaped || rec.process is None) ==>
                r == Err::<(), ProcessError>(ProcessError::ProcessNotPrepared) && final(sys).table == old(sys).table
            &&& !(rec.state == ProcessState::Dead || rec.state == ProcessState::Reaped || rec.process is None) ==> {
                &&& final(sys).table@ == old(sys).table@.update(i, moved_to(rec, ProcessState::Ready))
                &&& (r is Ok <==> old(sys).scheduler is Some && pid_runnable(final(sys).table@, pid))
                &&& r is Err ==> r == Err::<(), ProcessError>(ProcessError::NotRunnable)
            }
        },
{
    let i = match process_record_index(&sys.table, pid) {
        Some(i) => i,
        None => return Err(ProcessError::NoSuchProcess),
    };
    if sys.table[i].state == ProcessState::Dead || sys.table[i].state == ProcessState::Reaped || sys.table[i].process.is_none() {
        return Err(ProcessError::ProcessNotPrepared);
    }
    let rec = sys.table.remove(i);
    let rec = move_record_state(rec, ProcessState::Ready);
    sys.table.insert(i, rec);
    proof {
        assert(sys.table@ =~= old(sys).table@.update(i as int, moved_to(old(sys).table@[i as int], ProcessState::Ready)));
        assert forall|a: int, b: int| 0 <= a < sys.table@.len() && 0 <= b < sys.table@.len() && a != b implies
            sys.table@[a].pid != sys.table@[b].pid by {
            assert(old(sys).table@[a].pid != old(sys).table@[b].pid);
        }
        assert forall|j: int| 0 <= j < sys.table@.len() && (#[trigger] sys.table@[j]).process is Some implies
            sys.table@[j].process->0.wf() by {
            assert(old(sys).table@[j].process is Some);
        }
    }
    match enqueue_ready(sys, pid) {
        Ok(()) => Ok(()),
        Err(_) => Err(ProcessError::NotRunnable),
    }
}

/// Moves a live process to ready and queues it if it can run.
pub fn mark_process_ready(sys: &mut ProcessSystem, pid: ProcessId)
    requires
        old(sys).wf(),
    ensures
        final(sys).wf(),
        final(sys).wait_queue == old(sys).wait_queue,
        final(sys).current_pid == old(sys).current_pid,
        ({
            let i = pid_index(old(sys).table@, pid);
            if has_pid(old(sys).table@, pid) && old(sys).table@[i].state != ProcessState::Dead
                && old(sys).table@[i].state != ProcessState::Reaped {
                final(sys).table@ == old(sys).table@.update(i, moved_to(old(sys).table@[i], ProcessState::Ready))
            } else {
                final(sys).table == old(sys).table
            }
        }),
{
    let i = match process_record_index(&sys.table, pid) {
        Some(i) => i,
        None => return,
    };
    if sys.table[i].state == ProcessState::Dead || sys.table[i].state == ProcessState::Reaped {
        return;
    }
    let rec = sys.table.remove(i);
    let rec = move_record_state(rec, ProcessState::Ready);
    sys.table.insert(i, rec);
    proof {
        assert(sys.table@ =~= old(sys).table@.update(i as int, moved_to(old(sys).table@[i as int], ProcessState::Ready)));
        assert forall|a: int, b: int| 0 <= a < sys.table@.len() && 0 <= b < sys.table@.len() && a != b implies
            sys.table@[a].pid != sys.table@[b].pid by {
            assert(old(sys).table@[a].pid != old(sys).table@[b].pid);
        }
        assert forall|j: int| 0 <= j < sys.table@.len() && (#[trigger] sys.table@[j]).process is Some implies
            sys.table@[j].process->0.wf() by {
            assert(old(sys).table@[j].process is Some);
        }
    }
    let _ = enqueue_ready(sys, pid);
}

/// Records that `pid` entered user mode: running, has run, off the ready
/// queue.
pub fn mark_process_started(sys: &mut ProcessSystem, pid: ProcessId)
    requires
        old(sys).wf(),
    ensures
        final(sys).wf(),
        final(sys).wait_queue == old(sys).wait_queue,
        final(sys).current_pid == old(sys).current_pid,
        has_pid(old(sys).table@, pid) ==> final(sys).table@ == old(sys).table@.update(pid_index(old(sys).table@, pid),
            ProcessRecord { state: ProcessState::Running, has_run: true, ..old(sys).table@[pid_index(old(sys).table@, pid)] }),
        !has_pid(old(sys).table@, pid) ==> final(sys).table == old(sys).table,
        has_pid(old(sys).table@, pid) ==> (old(sys).scheduler matches Some(s0) ==>
            final(sys).scheduler->0.ready_queue@ == s0.ready_queue@.filter(|p: ProcessId| p != pid)),
{
    let i = match process_record_index(&sys.table, pid) {
        Some(i) => i,
        None => return,
    };
    let mut rec = sys.table.remove(i);
    rec.state = ProcessState::Running;
    rec.has_run = true;
    sys.table.insert(i, rec);
    proof {
        assert(sys.table@ =~= old(sys).table@.update(i as int, ProcessRecord { state: ProcessState::Running, has_run: true, ..old(sys).table@[i as int] }));
        assert forall|a: int, b: int| 0 <= a < sys.table@.len() && 0 <= b < sys.table@.len() && a != b implies
            sys.table@[a].pid != sys.table@[b].pid by {
            assert(old(sys).table@[a].pid != old(sys).table@[b].pid);
        }
        assert forall|j: int| 0 <= j < sys.table@.len() && (#[trigger] sys.table@[j]).process is Some implies
            sys.table@[j].process->0.wf() by {
            assert(old(sys).table@[j].process is Some);
        }
    }
    scheduler_remove(sys, pid);
}

/// The table after waking the entities of `w`: each blocked record named
/// by an entry becomes ready.
pub open spec fn woken_table(t: Seq<ProcessRecord>, w: Seq<WaitEntry>) -> Seq<ProcessRecord> {
    Seq::new(t.len(), |j: int| if t[j].state == ProcessState::Blocked
        && exists|k: int| 0 <= k < w.len() && (#[trigger] w[k]).entity == t[j].pid {
        moved_to(t[j], ProcessState::Ready)
    } else {
        t[j]
    })
}

/// A woken entity `e` that was blocked in `t0` and can run in `t` is queued.
pub open spec fn woken_queued(t0: Seq<ProcessRecord>, t: Seq<ProcessRecord>, q: Seq<ProcessId>, e: ProcessId) -> bool {
    has_pid(t0, e) && t0[pid_index(t0, e)].state == ProcessState::Blocked && pid_runnable(t, e) ==> q.contains(e)
}

/// Wakes the entities of `woken`, in order: a blocked record becomes ready
/// and is queued.
fn wake_entries(sys: &mut ProcessSystem, woken: &Vec<WaitEntry>)
    requires
        old(sys).wf(),
    ensures
        final(sys).wf(),
        final(sys).table@ == woken_table(old(sys).table@, woken@),
        final(sys).wait_queue == old(sys).wait_queue,
        final(sys).current_pid == old(sys).current_pid,
        final(sys).scheduler is Some == old(sys).scheduler is Some,
        old(sys).scheduler is Some ==> forall|p: ProcessId| #[trigger] old(sys).scheduler->0.ready_queue@.contains(p)
            ==> final(sys).scheduler->0.ready_queue@.contains(p),
        old(sys).scheduler is Some ==> forall|m: int| 0 <= m < woken@.len() ==>
            woken_queued(old(sys).table@, final(sys).table@, final(sys).scheduler->0.ready_queue@, (#[trigger] woken@[m]).entity),
{
    let ghost t0 = sys.table@;
    let mut k: usize = 0;
    while k < woken.len()
        invariant
            sys.wf(),
            k <= woken@.len(),
            t0 == old(sys).table@,
            sys.table@ == woken_table(t0, woken@.subrange(0, k as int)),
            sys.wait_queue == old(sys).wait_queue,
            sys.current_pid == old(sys).current_pid,
            sys.scheduler is Some == old(sys).scheduler is Some,
            old(sys).scheduler is Some ==> forall|p: ProcessId| #[trigger] old(sys).scheduler->0.ready_queue@.contains(p)
                ==> sys.scheduler->0.ready_queue@.contains(p),
            old(sys).scheduler is Some ==> forall|m: int| 0 <= m < k ==>
                woken_queued(t0, sys.table@, sys.scheduler->0.ready_queue@, (#[trigger] woken@[m]).entity),
        decreases woken@.len() - k,
    {
        let entity = woken[k].entity;
        let ghost q0 = sys.scheduler;
        let ghost before = sys.table@;
        let ghost w0 = woken@.subrange(0, k as int);
        let ghost w1 = woken@.subrange(0, k as int + 1);
        match process_record_index(&sys.table, entity) {
            Some(i) => {
                if sys.table[i].state == ProcessState::Blocked {
                    let rec = sys.table.remove(i);
                    let rec = move_record_state(rec, ProcessState::Ready);
                    sys.table.insert(i, rec);
                    assert(sys.table@ =~= before.update(i as int, moved_to(before[i as int], ProcessState::Ready)));
                    proof {
                        assert forall|a: int, b: int| 0 <= a < sys.table@.len() && 0 <= b < sys.table@.len() && a != b implies
                            sys.table@[a].pid != sys.table@[b].pid by {
                            assert(before[a].pid != before[b].pid);
                        }
                        assert forall|j: int| 0 <= j < sys.table@.len() && (#[trigger] sys.table@[j]).process is Some implies
                            sys.table@[j].process->0.wf() by {
                            assert(before[j].process is Some);
                        }
                    }
                    let _ = enqueue_ready(sys, entity);
                    proof {
                        if old(sys).scheduler is Some {
                            let qn = sys.scheduler->0.ready_queue@;
                            let qb = q0->0.ready_queue@;
                            assert forall|p: ProcessId| qb.contains(p) implies qn.contains(p) by {
                                if qb.contains(p) && qn != qb {
                                    let j = choose|j: int| 0 <= j < qb.len() && qb[j] == p;
                                    assert(qn[j] == qb[j]);
                                }
                            }
                            if pid_runnable(sys.table@, entity) && !qb.contains(entity) {
                                assert(qn[qb.len() as int] == entity);
                            }
                            assert forall|m: int| 0 <= m < k + 1 implies
                                woken_queued(t0, sys.table@, qn, (#[trigger] woken@[m]).entity) by {
                                let e = woken@[m].entity;
                                if e != entity {
                                    assert(before[i as int].pid == entity);
                                    lemma_moved_runnable(before, i as int, e);
                                    if m == k {
                                        assert(e == entity);
                                    }
                                    assert(woken_queued(t0, before, q0->0.ready_queue@, woken@[m].entity));
                                }
                            }
                        }
                    }
                    proof {
                        assert forall|j: int| 0 <= j < t0.len() implies #[trigger] sys.table@[j] == woken_table(t0, w1)[j] by {
                            assert(w1[k as int].entity == entity);
                            if j == i {
                                assert(before[j] == woken_table(t0, w0)[j]);
                                if t0[j].state != ProcessState::Blocked || !(exists|m: int| 0 <= m < w0.len() && (#[trigger] w0[m]).entity == t0[j].pid) {
                                    assert(t0[j].state == ProcessState::Blocked);
                                }
                            } else {
                                if exists|m: int| 0 <= m < w1.len() && (#[trigger] w1[m]).entity == t0[j].pid {
                                    let m = choose|m: int| 0 <= m < w1.len() && (#[trigger] w1[m]).entity == t0[j].pid;
                                    if m == k {
                                        assert(t0[j].pid == before[j].pid);
                                        assert(before[i as int].pid == entity);
                                    } else {
                                        assert(w0[m] == w1[m]);
                                    }
                                }
                                if exists|m: int| 0 <= m < w0.len() && (#[trigger] w0[m]).entity == t0[j].pid {
                                    let m = choose|m: int| 0 <= m < w0.len() && (#[trigger] w0[m]).entity == t0[j].pid;
                                    assert(w1[m] == w0[m]);
                                }
                            }
                        }
                        assert(sys.table@ =~= woken_table(t0, w1));
                    }
                } else {
                    proof {
                        if old(sys).scheduler is Some {
                            let q = sys.scheduler->0.ready_queue@;
                            if has_pid(t0, entity) && t0[pid_index(t0, entity)].state == ProcessState::Blocked && pid_runnable(before, entity) {
                                let j = pid_index(t0, entity);
                                assert(before[j].pid == t0[j].pid);
                                lemma_pid_index(before, j);
                                assert(exists|m: int| 0 <= m < w0.len() && (#[trigger] w0[m]).entity == t0[j].pid);
                                let m = choose|m: int| 0 <= m < w0.len() && (#[trigger] w0[m]).entity == t0[j].pid;
                                assert(w0[m] == woken@[m]);
                                assert(woken_queued(t0, before, q, woken@[m].entity));
                            }
                            assert(woken_queued(t0, sys.table@, q, woken@[k as int].entity));
                        }
                        assert forall|j: int| 0 <= j < t0.len() implies #[trigger] sys.table@[j] == woken_table(t0, w1)[j] by {
                            if exists|m: int| 0 <= m < w1.len() && (#[trigger] w1[m]).entity == t0[j].pid {
                                let m = choose|m: int| 0 <= m < w1.len() && (#[trigger] w1[m]).entity == t0[j].pid;
                                if m == k {
                                    assert(before[j].pid == t0[j].pid);
                                    if j != i {
                                        assert(before[i as int].pid == entity);
                                    }
                                } else {
                                    assert(w0[m] == w1[m]);
                                }
                            }
                            if exists|m: int| 0 <= m < w0.len() && (#[trigger] w0[m]).entity == t0[j].pid {
                                let m = choose|m: int| 0 <= m < w0.len() && (#[trigger] w0[m]).entity == t0[j].pid;
                                assert(w1[m] == w0[m]);
                            }
                        }
                        assert(sys.table@ =~= woken_table(t0, w1));
                    }
                }
            },
            None => {
                proof {
                    if has_pid(t0, entity) {
                        let j = pid_index(t0, entity);
                        assert(before[j].pid == t0[j].pid);
                        assert(has_pid(before, entity));
                    }
                    assert forall|j: int| 0 <= j < t0.len() implies #[trigger] sys.table@[j] == woken_table(t0, w1)[j] by {
                        if exists|m: int| 0 <= m < w1.len() && (#[trigger] w1[m]).entity == t0[j].pid {
                            let m = choose|m: int| 0 <= m < w1.len() && (#[trigger] w1[m]).entity == t0[j].pid;
                            if m == k {
                                assert(before[j].pid == t0[j].pid);
                                assert(has_pid(before, entity));
                            } else {
                                assert(w0[m] == w1[m]);
                            }
                        }
                        if exists|m: int| 0 <= m < w0.len() && (#[trigger] w0[m]).entity == t0[j].pid {
                            let m = choose|m: int| 0 <= m < w0.len() && (#[trigger] w0[m]).entity == t0[j].pid;
                            assert(w1[m] == w0[m]);
                        }
                    }
                    assert(sys.table@ =~= woken_table(t0, w1));
                }
            },
        }
        k = k + 1;
    }
    proof {
        assert(woken@.subrange(0, woken@.len() as int) =~= woken@);
    }
}

/// Splits a wait queue, front to back, into the entries that stay and the
/// entries to wake: an entry with key `key` (any key when `key` is `None`)
/// whose deadline test passes is woken while fewer than `limit` have been.
pub open spec fn split_waiters(q: Seq<WaitEntry>, sel: spec_fn(WaitEntry) -> bool, limit: nat) -> (Seq<WaitEntry>, Seq<WaitEntry>)
    decreases q.len(),
{
    if q.len() == 0 {
        (Seq::empty(), Seq::empty())
    } else {
        let (kept, woken) = split_waiters(q.drop_last(), sel, limit);
        let e = q.last();
        if sel(e) && woken.len() < limit {
            (kept, woken.push(e))
        } else {
            (kept.push(e), woken)
        }
    }
}

/// What a split keeps comes from the queue, and when the limit covers the
/// whole queue nothing selected is kept.
pub proof fn lemma_split_waiters(q: Seq<WaitEntry>, sel: spec_fn(WaitEntry) -> bool, limit: nat)
    ensures
        split_waiters(q, sel, limit).1.len() <= q.len(),
        forall|i: int| 0 <= i < split_waiters(q, sel, limit).0.len() ==> q.contains(#[trigger] split_waiters(q, sel, limit).0[i]),
        limit >= q.len() ==> forall|i: int| 0 <= i < split_waiters(q, sel, limit).0.len() ==> !sel(#[trigger] split_waiters(q, sel, limit).0[i]),
    decreases q.len(),
{
    if q.len() > 0 {
        let r = q.drop_last();
        lemma_split_waiters(r, sel, limit);
        let (kept, woken) = split_waiters(r, sel, limit);
        let out = split_waiters(q, sel, limit).0;
        assert forall|i: int| 0 <= i < out.len() implies q.contains(#[trigger] out[i]) by {
            if i < kept.len() {
                assert(out[i] == kept[i]);
                let j = choose|j: int| 0 <= j < r.len() && r[j] == kept[i];
                assert(q[j] == r[j]);
            } else {
                assert(out[i] == q[q.len() - 1]);
            }
        }
        if limit >= q.len() {
            assert forall|i: int| 0 <= i < out.len() implies !sel(#[trigger] out[i]) by {
                if i < kept.len() {
                    assert(out[i] == kept[i]);
                }
            }
        }
    }
}

pub open spec fn ipc_sel(pid: ProcessId) -> spec_fn(WaitEntry) -> bool {
    |e: WaitEntry| e.key == WaitKey::Ipc(pid)
}

pub open spec fn expired_sel(now: u64) -> spec_fn(WaitEntry) -> bool {
    |e: WaitEntry| e.deadline matches Some(d) && now >= d
}

pub open spec fn word_sel(key: WaitKey) -> spec_fn(WaitEntry) -> bool {
    |e: WaitEntry| e.key == key
}

pub open spec fn entity_sel(entity: ProcessId) -> spec_fn(WaitEntry) -> bool {
    |e: WaitEntry| e.entity == entity
}

/// Which selection a wait-queue split applies.
enum WaitSel {
    Ipc(ProcessId),
    Expired(u64),
    Word(WaitKey),
    Entity(ProcessId),
}

spec fn sel_of(s: WaitSel) -> spec_fn(WaitEntry) -> bool {
    match s {
        WaitSel::Ipc(p) => ipc_sel(p),
        WaitSel::Expired(now) => expired_sel(now),
        WaitSel::Word(k) => word_sel(k),
        WaitSel::Entity(e) => entity_sel(e),
    }
}

fn selects(s: &WaitSel, e: &WaitEntry) -> (r: bool)
    ensures
        r == (sel_of(*s))(*e),
{
    match s {
        WaitSel::Ipc(p) => e.key == WaitKey::Ipc(*p),
        WaitSel::Expired(now) => match e.deadline {
            Some(d) => *now >= d,
            None => false,
        },
        WaitSel::Word(k) => e.key == *k,
        WaitSel::Entity(ent) => e.entity == *ent,
    }
}

/// Removes the selected entries (at most `limit`) from the wait queue and
/// returns them in queue order.
fn take_waiters(queue: &mut Vec<WaitEntry>, sel: WaitSel, limit: usize) -> (r: Vec<WaitEntry>)
    ensures
        final(queue)@ == split_waiters(old(queue)@, sel_of(sel), limit as nat).0,
        r@ == split_waiters(old(queue)@, sel_of(sel), limit as nat).1,
{
    let ghost q0 = queue@;
    let mut kept: Vec<WaitEntry> = Vec::new();
    let mut woken: Vec<WaitEntry> = Vec::new();
    let mut i: usize = 0;
    while i < queue.len()
        invariant
            queue@ == q0,
            i <= q0.len(),
            (kept@, woken@) == split_waiters(q0.subrange(0, i as int), sel_of(sel), limit as nat),
        decreases q0.len() - i,
    {
        let e = queue[i];
        proof {
            assert(q0.subrange(0, i as int + 1).drop_last() =~= q0.subrange(0, i as int));
        }
        if selects(&sel, &e) && woken.len() < limit {
            woken.push(e);
        } else {
            kept.push(e);
        }
        i = i + 1;
    }
    proof {
        assert(q0.subrange(0, q0.len() as int) =~= q0);
    }
    *queue = kept;
    woken
}

/// Drops every wait entry of `entity`.
fn remove_waiter(sys: &mut ProcessSystem, entity: ProcessId)
    ensures
        final(sys).wait_queue@ == split_waiters(old(sys).wait_queue@, entity_sel(entity), old(sys).wait_queue@.len()).0,
        final(sys).table == old(sys).table,
        final(sys).scheduler == old(sys).scheduler,
        final(sys).current_pid == old(sys).current_pid,
{
    let limit = sys.wait_queue.len();
    let _ = take_waiters(&mut sys.wait_queue, WaitSel::Entity(entity), limit);
}

/// Wakes every entity waiting for IPC from `pid`.
pub fn wake_ipc_waiters(sys: &mut ProcessSystem, pid: ProcessId)
    requires
        old(sys).wf(),
    ensures
        final(sys).wf(),
        final(sys).wait_queue@ == split_waiters(old(sys).wait_queue@, ipc_sel(pid), old(sys).wait_queue@.len()).0,
        final(sys).table@ == woken_table(old(sys).table@, split_waiters(old(sys).wait_queue@, ipc_sel(pid), old(sys).wait_queue@.len()).1),
        final(sys).current_pid == old(sys).current_pid,
{
    let limit = sys.wait_queue.len();
    let woken = take_waiters(&mut sys.wait_queue, WaitSel::Ipc(pid), limit);
    wake_entries(sys, &woken);
}

/// Wakes every entity whose deadline has passed on `clock`.
pub fn wake_expired_waiters(sys: &mut ProcessSystem, clock: &MonotonicClock)
    requires
        old(sys).wf(),
    ensures
        final(sys).wf(),
        final(sys).wait_queue@ == split_waiters(old(sys).wait_queue@, expired_sel(clock.ticks), old(sys).wait_queue@.len()).0,
        final(sys).table@ == woken_table(old(sys).table@, split_waiters(old(sys).wait_queue@, expired_sel(clock.ticks), old(sys).wait_queue@.len()).1),
        final(sys).current_pid == old(sys).current_pid,
{
    let now = monotonic_ticks(clock);
    let limit = sys.wait_queue.len();
    let woken = take_waiters(&mut sys.wait_queue, WaitSel::Expired(now), limit);
    wake_entries(sys, &woken);
}

/// Wakes up to `max` entities (all when `max` is 0), oldest first, parked
/// on the futex word at `addr` of the current process; returns how many.
pub fn futex_wake(sys: &mut ProcessSystem, addr: u64, max: usize) -> (r: usize)
    requires
        old(sys).wf(),
    ensures
        final(sys).wf(),
        final(sys).current_pid == old(sys).current_pid,
        spec_current_pid(&*old(sys)) is None ==> r == 0 && final(sys).table == old(sys).table
            && final(sys).wait_queue == old(sys).wait_queue,
        spec_current_pid(&*old(sys)) matches Some(owner) ==> {
            let limit = if max == 0 { old(sys).wait_queue@.len() } else { max as nat };
            let split = split_waiters(old(sys).wait_queue@, word_sel(WaitKey::Word { owner, addr }), limit);
            &&& final(sys).wait_queue@ == split.0
            &&& final(sys).table@ == woken_table(old(sys).table@, split.1)
            &&& r == split.1.len()
            &&& old(sys).scheduler is Some ==> forall|p: ProcessId| #[trigger] old(sys).scheduler->0.ready_queue@.contains(p)
                ==> final(sys).scheduler->0.ready_queue@.contains(p)
            &&& old(sys).scheduler is Some ==> forall|m: int| 0 <= m < split.1.len() ==>
                woken_queued(old(sys).table@, final(sys).table@, final(sys).scheduler->0.ready_queue@, (#[trigger] split.1[m]).entity)
        },
{
    let owner = match current_pid(sys) {
        Some(o) => o,
        None => return 0,
    };
    let limit = if max == 0 { sys.wait_queue.len() } else { max };
    let woken = take_waiters(&mut sys.wait_queue, WaitSel::Word(WaitKey::Word { owner, addr }), limit);
    wake_entries(sys, &woken);
    woken.len()
}

/// Blocks the current entity: saves `context` (its user registers at the
/// system call), marks it blocked and queues a wait on `key`.
fn park_current(sys: &mut ProcessSystem, key: WaitKey, deadline: Option<u64>, context: CpuContext) -> (r: Result<(), ProcessError>)
    requires
        old(sys).wf(),
    ensures
        final(sys).wf(),
        final(sys).current_pid == old(sys).current_pid,
        final(sys).scheduler == old(sys).scheduler,
        current_entity(&*old(sys)) is None ==> r == Err::<(), ProcessError>(ProcessError::NoCurrentProcess),
        current_entity(&*old(sys)) matches Some(e) ==> {
            let i = pid_index(old(sys).table@, e);
            let rec = old(sys).table@[i];
            &&& !has_pid(old(sys).table@, e) ==> r == Err::<(), ProcessError>(ProcessError::NoSuchProcess)
            &&& has_pid(old(sys).table@, e) && rec.state != ProcessState::Running ==> r == Err::<(), ProcessError>(ProcessError::NotRunnable)
            &&& has_pid(old(sys).table@, e) && rec.state == ProcessState::Running && rec.process is None ==>
                r == Err::<(), ProcessError>(ProcessError::ProcessNotPrepared)
            &&& has_pid(old(sys).table@, e) && rec.state == ProcessState::Running && rec.process is Some ==> {
                let p = rec.process->0;
                &&& p.is_kernel ==> r == Err::<(), ProcessError>(ProcessError::InvalidUserContext)
                &&& !p.is_kernel ==> r is Ok
                    && final(sys).table@ == old(sys).table@.update(i, ProcessRecord {
                        state: ProcessState::Blocked,
                        process: Some(Process { state: ProcessState::Blocked, context, ..p }),
                        ..rec })
                    && final(sys).wait_queue@ == old(sys).wait_queue@.push(WaitEntry { entity: e, key, deadline })
                    && final(sys).yield_requested && final(sys).schedule_hint == 0
            }
        },
        r is Err ==> final(sys).table == old(sys).table && final(sys).wait_queue == old(sys).wait_queue
            && final(sys).yield_requested == old(sys).yield_requested,
{
    let entity = match current_entity_id(sys) {
        Some(e) => e,
        None => return Err(ProcessError::NoCurrentProcess),
    };
    let i = match process_record_index(&sys.table, entity) {
        Some(i) => i,
        None => return Err(ProcessError::NoSuchProcess),
    };
    if sys.table[i].state != ProcessState::Running {
        return Err(ProcessError::NotRunnable);
    }
    match &sys.table[i].process {
        Some(p) => {
            if p.is_kernel {
                return Err(ProcessError::InvalidUserContext);
            }
        },
        None => return Err(ProcessError::ProcessNotPrepared),
    }
    let mut rec = sys.table.remove(i);
    rec.state = ProcessState::Blocked;
    match rec.process.take() {
        Some(mut p) => {
            p.context = context;
            p.state = ProcessState::Blocked;
            rec.process = Some(p);
        },
        None => {},
    }
    sys.table.insert(i, rec);
    proof {
        let p = old(sys).table@[i as int].process->0;
        assert(sys.table@ =~= old(sys).table@.update(i as int, ProcessRecord {
            state: ProcessState::Blocked,
            process: Some(Process { state: ProcessState::Blocked, context, ..p }),
            ..old(sys).table@[i as int] }));
        assert forall|a: int, b: int| 0 <= a < sys.table@.len() && 0 <= b < sys.table@.len() && a != b implies
            sys.table@[a].pid != sys.table@[b].pid by {
            assert(old(sys).table@[a].pid != old(sys).table@[b].pid);
        }
        assert forall|j: int| 0 <= j < sys.table@.len() && (#[trigger] sys.table@[j]).process is Some implies
            sys.table@[j].process->0.wf() by {
            assert(old(sys).table@[j].process is Some);
        }
    }
    sys.wait_queue.push(WaitEntry { entity, key, deadline });
    sys.yield_requested = true;
    sys.schedule_hint = 0;
    Ok(())
}

/// Blocks the current entity until IPC from `key_ipc` (a timer wait when
/// `None`) or until `deadline`; `context` is its saved user register state.
pub fn block_current(sys: &mut ProcessSystem, key_ipc: Option<ProcessId>, deadline: Option<u64>, context: CpuContext) -> (r: Result<(), ProcessError>)
    requires
        old(sys).wf(),
    ensures
        final(sys).wf(),
        current_entity(&*old(sys)) is None ==> r == Err::<(), ProcessError>(ProcessError::NoCurrentProcess),
        r is Err ==> final(sys).table == old(sys).table && final(sys).wait_queue == old(sys).wait_queue,
        r is Ok ==> {
            let e = current_entity(&*old(sys))->0;
            let i = pid_index(old(sys).table@, e);
            &&& has_pid(old(sys).table@, e)
            &&& old(sys).table@[i].state == ProcessState::Running
            &&& final(sys).table@[i].state == ProcessState::Blocked
            &&& final(sys).table@[i].process->0.context == context
            &&& final(sys).wait_queue@ == old(sys).wait_queue@.push(WaitEntry {
                    entity: e,
                    key: match key_ipc { Some(p) => WaitKey::Ipc(p), None => WaitKey::Timer },
                    deadline })
            &&& final(sys).yield_requested
        },
{
    let key = match key_ipc {
        Some(p) => WaitKey::Ipc(p),
        None => WaitKey::Timer,
    };
    park_current(sys, key, deadline, context)
}

/// Compare-and-block on the futex word at `addr` of the current process.
/// `word` is the word's value read from the process's memory (`None` when
/// the page is not a present user mapping). On a match the current entity
/// is parked exactly as `block_current` does.
pub fn futex_wait(sys: &mut ProcessSystem, addr: u64, expected: u32, deadline: Option<u64>, word: Option<u32>, context: CpuContext) -> (r: Result<FutexWaitOutcome, ProcessError>)
    requires
        old(sys).wf(),
    ensures
        final(sys).wf(),
        current_entity(&*old(sys)) is None ==> r == Err::<FutexWaitOutcome, ProcessError>(ProcessError::NoCurrentProcess),
        current_entity(&*old(sys)) is Some && spec_owner_of(old(sys).table@, current_entity(&*old(sys))->0) is None ==>
            r == Err::<FutexWaitOutcome, ProcessError>(ProcessError::NoSuchProcess),
        current_entity(&*old(sys)) is Some && spec_owner_of(old(sys).table@, current_entity(&*old(sys))->0) is Some ==> {
            &&& word is None ==> r == Err::<FutexWaitOutcome, ProcessError>(ProcessError::InvalidMemoryRange)
            &&& (word matches Some(w) && w != expected) ==> r == Ok::<FutexWaitOutcome, ProcessError>(FutexWaitOutcome::ValueMismatch)
            &&& (word matches Some(w) && w == expected) ==> (r is Ok ==> r == Ok::<FutexWaitOutcome, ProcessError>(FutexWaitOutcome::Parked)
                && final(sys).wait_queue@ == old(sys).wait_queue@.push(WaitEntry {
                    entity: current_entity(&*old(sys))->0,
                    key: WaitKey::Word { owner: spec_owner_of(old(sys).table@, current_entity(&*old(sys))->0)->0, addr },
                    deadline }))
        },
        r != Ok::<FutexWaitOutcome, ProcessError>(FutexWaitOutcome::Parked) ==>
            final(sys).table == old(sys).table && final(sys).wait_queue == old(sys).wait_queue,
{
    let entity = match current_entity_id(sys) {
        Some(e) => e,
        None => return Err(ProcessError::NoCurrentProcess),
    };
    let owner = match owner_of(sys, entity) {
        Some(o) => o,
        None => return Err(ProcessError::NoSuchProcess),
    };
    let current = match word {
        Some(w) => w,
        None => return Err(ProcessError::InvalidMemoryRange),
    };
    if current != expected {
        return Ok(FutexWaitOutcome::ValueMismatch);
    }
    match park_current(sys, WaitKey::Word { owner, addr }, deadline, context) {
        Ok(()) => Ok(FutexWaitOutcome::Parked),
        Err(e) => Err(e),
    }
}

/// Yields the running current entity: saves `context`, marks it ready,
/// requeues it and asks the dispatcher to switch to `next_pid`.
pub fn save_current_user_context_for_yield(sys: &mut ProcessSystem, next_pid: ProcessId, context: CpuContext) -> (r: Result<ProcessId, ProcessError>)
    requires
        old(sys).wf(),
    ensures
        final(sys).wf(),
        current_entity(&*old(sys)) is None ==> r == Err::<ProcessId, ProcessError>(ProcessError::NoCurrentProcess),
        r matches Ok(e) ==> {
            let i = pid_index(old(sys).table@, e);
            &&& current_entity(&*old(sys)) == Some(e)
            &&& has_pid(old(sys).table@, e)
            &&& old(sys).table@[i].state == ProcessState::Running
            &&& final(sys).table@[i].state == ProcessState::Ready
            &&& final(sys).table@[i].process->0.context == context
            &&& final(sys).yield_requested
            &&& final(sys).schedule_hint == next_pid.0
        },
{
    let pid = match current_entity_id(sys) {
        Some(e) => e,
        None => return Err(ProcessError::NoCurrentProcess),
    };
    let i = match process_record_index(&sys.table, pid) {
        Some(i) => i,
        None => return Err(ProcessError::NoSuchProcess),
    };
    if sys.table[i].state != ProcessState::Running {
        return Err(ProcessError::NotRunnable);
    }
    match &sys.table[i].process {
        Some(p) => {
            if p.is_kernel {
                return Err(ProcessError::InvalidUserContext);
            }
        },
        None => return Err(ProcessError::ProcessNotPrepared),
    }
    let mut rec = sys.table.remove(i);
    rec.state = ProcessState::Ready;
    match rec.process.take() {
        Some(mut p) => {
            p.context = context;
            p.state = ProcessState::Ready;
            rec.process = Some(p);
        },
        None => {},
    }
    sys.table.insert(i, rec);
    proof {
        assert(sys.table@[i as int].state == ProcessState::Ready);
        assert forall|a: int, b: int| 0 <= a < sys.table@.len() && 0 <= b < sys.table@.len() && a != b implies
            sys.table@[a].pid != sys.table@[b].pid by {
            if a != i && b != i {
                assert(old(sys).table@[a].pid != old(sys).table@[b].pid);
            } else if a == i {
                assert(old(sys).table@[b].pid != old(sys).table@[i as int].pid);
            } else {
                assert(old(sys).table@[a].pid != old(sys).table@[i as int].pid);
            }
        }
        assert forall|j: int| 0 <= j < sys.table@.len() && (#[trigger] sys.table@[j]).process is Some implies
            sys.table@[j].process->0.wf() by {
            if j != i {
                assert(sys.table@[j] == old(sys).table@[j]);
            }
            assert(old(sys).table@[j].process is Some);
        }
    }
    sys.yield_requested = true;
    sys.schedule_hint = next_pid.0;
    match enqueue_ready(sys, pid) {
        Ok(()) => Ok(pid),
        Err(e) => Err(e),
    }
}

/// Records the exit of `exit.pid`: dead with its status, off the wait and
/// ready queues.
pub fn mark_process_finished(sys: &mut ProcessSystem, exit: ProcessExit)
    requires
        old(sys).wf(),
    ensures
        final(sys).wf(),
        final(sys).current_pid == old(sys).current_pid,
        final(sys).wait_queue@ == split_waiters(old(sys).wait_queue@, entity_sel(exit.pid), old(sys).wait_queue@.len()).0,
        has_pid(old(sys).table@, exit.pid) ==> {
            let i = pid_index(old(sys).table@, exit.pid);
            let rec = old(sys).table@[i];
            final(sys).table@ == old(sys).table@.update(i, ProcessRecord {
                state: ProcessState::Dead,
                status: Some(exit.status),
                has_run: true,
                process: match rec.process {
                    Some(p) => Some(Process { state: ProcessState::Dead, status: Some(exit.status), ..p }),
                    None => None,
                },
                ..rec
            })
        },
        !has_pid(old(sys).table@, exit.pid) ==> final(sys).table == old(sys).table,
{
    remove_waiter(sys, exit.pid);
    let i = match process_record_index(&sys.table, exit.pid) {
        Some(i) => i,
        None => return,
    };
    let mut rec = sys.table.remove(i);
    rec.state = ProcessState::Dead;
    rec.status = Some(exit.status);
    rec.has_run = true;
    match rec.process.take() {
        Some(mut p) => {
            p.state = ProcessState::Dead;
            p.status = Some(exit.status);
            rec.process = Some(p);
        },
        None => {},
    }
    sys.table.insert(i, rec);
    proof {
        let rec0 = old(sys).table@[i as int];
        assert(sys.table@ =~= old(sys).table@.update(i as int, ProcessRecord {
            state: ProcessState::Dead,
            status: Some(exit.status),
            has_run: true,
            process: match rec0.process {
                Some(p) => Some(Process { state: ProcessState::Dead, status: Some(exit.status), ..p }),
                None => None,
            },
            ..rec0
        }));
        assert forall|a: int, b: int| 0 <= a < sys.table@.len() && 0 <= b < sys.table@.len() && a != b implies
            sys.table@[a].pid != sys.table@[b].pid by {
            assert(old(sys).table@[a].pid != old(sys).table@[b].pid);
        }
        assert forall|j: int| 0 <= j < sys.table@.len() && (#[trigger] sys.table@[j]).process is Some implies
            sys.table@[j].process->0.wf() by {
            assert(old(sys).table@[j].process is Some);
        }
    }
    scheduler_remove(sys, exit.pid);
}

/// Releases a dead process: its process object gives back its memory and
/// handles, the record stays as reaped and no longer waitable, and its
/// message queue is dropped.
pub fn reap_process(sys: &mut ProcessSystem, pid: ProcessId, ipc: &mut IpcManager, mem: &mut KernelMemory) -> (r: Result<(), ProcessError>)
    requires
        old(sys).wf(),
        old(ipc).wf(),
        old(mem).wf(),
    ensures
        final(sys).wf(),
        final(ipc).wf(),
        final(mem).wf(),
        final(sys).current_pid == old(sys).current_pid,
        final(sys).wait_queue@ == split_waiters(old(sys).wait_queue@, entity_sel(pid), old(sys).wait_queue@.len()).0,
        !has_pid(old(sys).table@, pid) ==> r == Err::<(), ProcessError>(ProcessError::NoSuchProcess),
        has_pid(old(sys).table@, pid) && old(sys).table@[pid_index(old(sys).table@, pid)].state != ProcessState::Dead ==>
            r == Err::<(), ProcessError>(ProcessError::NotRunnable),
        r is Err ==> final(sys).table == old(sys).table && final(ipc).queues() == old(ipc).queues(),
        r is Ok ==> {
            let i = pid_index(old(sys).table@, pid);
            &&& has_pid(old(sys).table@, pid)
            &&& old(sys).table@[i].state == ProcessState::Dead
            &&& final(sys).table@ == old(sys).table@.update(i, ProcessRecord {
                    process: None,
                    state: ProcessState::Reaped,
                    waitable: false,
                    ..old(sys).table@[i] })
            &&& final(ipc).queues() == old(ipc).queues().remove(pid)
        },
{
    remove_waiter(sys, pid);
    let i = match process_record_index(&sys.table, pid) {
        Some(i) => i,
        None => return Err(ProcessError::NoSuchProcess),
    };
    if sys.table[i].state != ProcessState::Dead {
        return Err(ProcessError::NotRunnable);
    }
    let mut rec = sys.table.remove(i);
    match rec.process.take() {
        Some(mut p) => {
            p.release_vm_resources(mem);
        },
        None => {},
    }
    rec.state = ProcessState::Reaped;
    rec.waitable = false;
    sys.table.insert(i, rec);
    proof {
        assert(sys.table@ =~= old(sys).table@.update(i as int, ProcessRecord {
            process: None, state: ProcessState::Reaped, waitable: false, ..old(sys).table@[i as int] }));
        assert forall|a: int, b: int| 0 <= a < sys.table@.len() && 0 <= b < sys.table@.len() && a != b implies
            sys.table@[a].pid != sys.table@[b].pid by {
            assert(old(sys).table@[a].pid != old(sys).table@[b].pid);
        }
        assert forall|j: int| 0 <= j < sys.table@.len() && (#[trigger] sys.table@[j]).process is Some implies
            sys.table@[j].process->0.wf() by {
            assert(old(sys).table@[j].process is Some);
        }
    }
    scheduler_remove(sys, pid);
    ipc.clear_messages(pid);
    Ok(())
}

/// Removes every thread record of `owner`, releasing the thread objects and
/// their waits.
fn cleanup_owned_threads(sys: &mut ProcessSystem, owner: ProcessId, mem: &mut KernelMemory)
    requires
        old(sys).wf(),
        old(mem).wf(),
    ensures
        final(sys).wf(),
        final(mem).wf(),
        final(sys).current_pid == old(sys).current_pid,
        final(sys).table@ == old(sys).table@.filter(|rec: ProcessRecord| rec.owner != Some(owner)),
        final(sys).scheduler is Some == old(sys).scheduler is Some,
        old(sys).scheduler is Some ==> forall|p: ProcessId| #[trigger] final(sys).scheduler->0.ready_queue@.contains(p)
            ==> old(sys).scheduler->0.ready_queue@.contains(p),
        forall|w: WaitEntry| #[trigger] final(sys).wait_queue@.contains(w) ==> old(sys).wait_queue@.contains(w),
{
    let ghost t0 = sys.table@;
    let mut kept: Vec<ProcessRecord> = Vec::new();
    let mut remaining: Vec<ProcessRecord> = Vec::new();
    core::mem::swap(&mut remaining, &mut sys.table);
    while remaining.len() > 0
        invariant
            mem.wf(),
            t0 == old(sys).table@,
            pids_unique(t0),
            records_wf(t0),
            remaining@.len() <= t0.len(),
            remaining@ =~= t0.subrange(t0.len() - remaining@.len(), t0.len() as int),
            kept@ == t0.subrange(0, t0.len() - remaining@.len()).filter(|rec: ProcessRecord| rec.owner != Some(owner)),
            pids_unique(kept@),
            records_wf(kept@),
            forall|a: int| 0 <= a < kept@.len() ==> exists|j: int| 0 <= j < t0.len() - remaining@.len() && #[trigger] kept@[a].pid == t0[j].pid,
            sys.current_pid == old(sys).current_pid,
            sys.scheduler is Some == old(sys).scheduler is Some,
            old(sys).scheduler is Some ==> forall|p: ProcessId| #[trigger] sys.scheduler->0.ready_queue@.contains(p)
                ==> old(sys).scheduler->0.ready_queue@.contains(p),
            forall|w: WaitEntry| #[trigger] sys.wait_queue@.contains(w) ==> old(sys).wait_queue@.contains(w),
        decreases remaining@.len(),
    {
        let ghost k = t0.len() - remaining@.len();
        let rec = remaining.remove(0);
        proof {
            assert(rec == t0[k]);
            assert(t0.subrange(0, k + 1).drop_last() =~= t0.subrange(0, k));
            reveal_with_fuel(Seq::filter, 1);
        }
        if rec.owner == Some(owner) {
            let ghost wq0 = sys.wait_queue@;
            let ghost s0 = sys.scheduler;
            remove_waiter(sys, rec.pid);
            proof {
                lemma_split_waiters(wq0, entity_sel(rec.pid), wq0.len());
            }
            scheduler_remove(sys, rec.pid);
            proof {
                if s0 is Some {
                    let q = s0->0.ready_queue@;
                    assert forall|p: ProcessId| #[trigger] sys.scheduler->0.ready_queue@.contains(p) implies q.contains(p) by {
                        q.lemma_filter_contains_rev(|x: ProcessId| x != rec.pid, p);
                    }
                }
            }
            let mut rec = rec;
            match rec.process.take() {
                Some(mut p) => {
                    proof {
                        assert(t0[k].process is Some);
                    }
                    p.release_vm_resources(mem);
                },
                None => {},
            }
        } else {
            let ghost kept0 = kept@;
            kept.push(rec);
            proof {
                assert forall|a: int, b: int| 0 <= a < kept@.len() && 0 <= b < kept@.len() && a != b implies
                    kept@[a].pid != kept@[b].pid by {
                    if a == kept0.len() && b < kept0.len() {
                        let j = choose|j: int| 0 <= j < k && #[trigger] kept0[b].pid == t0[j].pid;
                        assert(t0[j].pid != t0[k].pid);
                    } else if b == kept0.len() && a < kept0.len() {
                        let j = choose|j: int| 0 <= j < k && #[trigger] kept0[a].pid == t0[j].pid;
                        assert(t0[j].pid != t0[k].pid);
                    } else if a < kept0.len() && b < kept0.len() {
                        assert(kept0[a].pid != kept0[b].pid);
                    }
                }
                assert forall|a: int| 0 <= a < kept@.len() implies exists|j: int| 0 <= j < k + 1 && #[trigger] kept@[a].pid == t0[j].pid by {
                    if a < kept0.len() {
                        let j = choose|j: int| 0 <= j < k && #[trigger] kept0[a].pid == t0[j].pid;
                        assert(kept@[a].pid == t0[j].pid);
                    } else {
                        assert(kept@[a].pid == t0[k].pid);
                    }
                }
                assert forall|j: int| 0 <= j < kept@.len() && (#[trigger] kept@[j]).process is Some implies kept@[j].process->0.wf() by {
                    if j < kept0.len() {
                        assert(kept0[j] == kept@[j]);
                    } else {
                        assert(t0[k].process is Some);
                    }
                }
            }
        }
        proof {
            assert(remaining@ =~= t0.subrange(t0.len() - remaining@.len(), t0.len() as int));
        }
    }
    proof {
        assert(t0.subrange(0, t0.len() as int) =~= t0);
    }
    sys.table = kept;
}

/// Terminates a user process with exit `code`, leaving a waitable status.
/// For the current process only the exit request is raised (`Ok(true)`);
/// another live process is marked dead at once, its memory released, its
/// waits, queue slot, messages and threads removed (`Ok(false)`).
pub fn kill_process(sys: &mut ProcessSystem, pid: ProcessId, code: i32, ipc: &mut IpcManager, mem: &mut KernelMemory) -> (r: Result<bool, ProcessError>)
    requires
        old(sys).wf(),
        old(ipc).wf(),
        old(mem).wf(),
    ensures
        final(sys).wf(),
        final(ipc).wf(),
        final(mem).wf(),
        spec_current_pid(&*old(sys)) == Some(pid) ==> {
            &&& current_entity(&*old(sys)) != Some(pid) ==> r == Err::<bool, ProcessError>(ProcessError::InvalidUserContext)
            &&& r is Ok ==> r == Ok::<bool, ProcessError>(true) && final(sys).exit_requested
                && final(sys).exit_code == code && final(sys).exit_kind == 0
                && final(sys).table == old(sys).table
        },
        spec_current_pid(&*old(sys)) != Some(pid) ==> {
            let i = pid_index(old(sys).table@, pid);
            let rec = old(sys).table@[i];
            &&& !has_pid(old(sys).table@, pid) ==> r == Err::<bool, ProcessError>(ProcessError::NoSuchProcess)
            &&& has_pid(old(sys).table@, pid) && rec.owner is Some ==> r == Err::<bool, ProcessError>(ProcessError::NoSuchProcess)
            &&& has_pid(old(sys).table@, pid) && rec.owner is None && rec.process is None ==>
                r == Err::<bool, ProcessError>(ProcessError::ProcessNotPrepared)
            &&& has_pid(old(sys).table@, pid) && rec.owner is None && rec.process is Some && rec.process->0.is_kernel ==>
                r == Err::<bool, ProcessError>(ProcessError::InvalidUserContext)
            &&& has_pid(old(sys).table@, pid) && rec.owner is None && rec.process is Some && !rec.process->0.is_kernel
                && (rec.state == ProcessState::Dead || rec.state == ProcessState::Reaped) ==>
                r == Err::<bool, ProcessError>(ProcessError::NotRunnable)
            &&& has_pid(old(sys).table@, pid) && rec.owner is None && rec.process is Some && !rec.process->0.is_kernel
                && !(rec.state == ProcessState::Dead || rec.state == ProcessState::Reaped) ==> {
                &&& r == Ok::<bool, ProcessError>(false)
                &&& has_pid(final(sys).table@, pid)
                &&& ({
                    let k = final(sys).table@[pid_index(final(sys).table@, pid)];
                    &&& k.state == ProcessState::Dead
                    &&& k.status == Some(ProcessExitStatus::Exited(code))
                    &&& k.has_run
                    &&& k.process matches Some(p) && p.state == ProcessState::Dead
                        && p.status == Some(ProcessExitStatus::Exited(code)) && !p.spec_has_address_space()
                    &&& final(sys).table@ == old(sys).table@.update(i, k).filter(|x: ProcessRecord| x.owner != Some(pid))
                })
                &&& final(ipc).queues() == old(ipc).queues().remove(pid)
                &&& final(sys).scheduler is Some ==> !final(sys).scheduler->0.ready_queue@.contains(pid)
                &&& forall|w: int| 0 <= w < final(sys).wait_queue@.len() ==> (#[trigger] final(sys).wait_queue@[w]).entity != pid
            }
        },
        r is Err ==> final(sys).table == old(sys).table,
{
    let cur = current_pid(sys);
    if cur == Some(pid) {
        if current_entity_id(sys) != Some(pid) {
            return Err(ProcessError::InvalidUserContext);
        }
        match current_process(sys) {
            Some(p) => {
                if p.is_kernel {
                    return Err(ProcessError::InvalidUserContext);
                }
            },
            None => return Err(ProcessError::NoCurrentProcess),
        }
        sys.exit_code = code;
        sys.exit_kind = 0;
        sys.exit_requested = true;
        return Ok(true);
    }
    let i = match process_record_index(&sys.table, pid) {
        Some(i) => i,
        None => return Err(ProcessError::NoSuchProcess),
    };
    if sys.table[i].owner.is_some() {
        return Err(ProcessError::NoSuchProcess);
    }
    match &sys.table[i].process {
        Some(p) => {
            if p.is_kernel {
                return Err(ProcessError::InvalidUserContext);
            }
        },
        None => return Err(ProcessError::ProcessNotPrepared),
    }
    if sys.table[i].state == ProcessState::Dead || sys.table[i].state == ProcessState::Reaped {
        return Err(ProcessError::NotRunnable);
    }
    let mut rec = sys.table.remove(i);
    match rec.process.take() {
        Some(mut p) => {
            p.exit(code);
            p.release_vm_resources(mem);
            rec.process = Some(p);
        },
        None => {},
    }
    rec.state = ProcessState::Dead;
    rec.status = Some(ProcessExitStatus::Exited(code));
    rec.has_run = true;
    sys.table.insert(i, rec);
    let ghost mid = sys.table@;
    proof {
        assert(mid =~= old(sys).table@.update(i as int, mid[i as int]));
        assert forall|a: int, b: int| 0 <= a < sys.table@.len() && 0 <= b < sys.table@.len() && a != b implies
            sys.table@[a].pid != sys.table@[b].pid by {
            assert(old(sys).table@[a].pid != old(sys).table@[b].pid);
        }
        assert forall|j: int| 0 <= j < sys.table@.len() && (#[trigger] sys.table@[j]).process is Some implies
            sys.table@[j].process->0.wf() by {
            assert(old(sys).table@[j].process is Some);
        }
    }
    let ghost sq = sys.scheduler;
    scheduler_remove(sys, pid);
    proof {
        if sq is Some {
            let q = sq->0.ready_queue@;
            if sys.scheduler->0.ready_queue@.contains(pid) {
                let k = choose|k: int| 0 <= k < sys.scheduler->0.ready_queue@.len() && sys.scheduler->0.ready_queue@[k] == pid;
                q.lemma_filter_pred(|x: ProcessId| x != pid, k);
            }
        }
    }
    ipc.clear_messages(pid);
    let ghost wq = sys.wait_queue@;
    remove_waiter(sys, pid);
    proof {
        lemma_split_waiters(wq, entity_sel(pid), wq.len());
    }
    let ghost wq1 = sys.wait_queue@;
    cleanup_owned_threads(sys, pid, mem);
    proof {
        assert forall|w: int| 0 <= w < sys.wait_queue@.len() implies (#[trigger] sys.wait_queue@[w]).entity != pid by {
            assert(sys.wait_queue@.contains(sys.wait_queue@[w]));
            assert(wq1.contains(sys.wait_queue@[w]));
            let j = choose|j: int| 0 <= j < wq1.len() && wq1[j] == sys.wait_queue@[w];
            assert(!entity_sel(pid)(wq1[j]));
        }
    }
    proof {
        let f = mid.filter(|x: ProcessRecord| x.owner != Some(pid));
        assert(mid[i as int].owner is None);
        mid.lemma_filter_contains(|x: ProcessRecord| x.owner != Some(pid), i as int);
        assert(f.contains(mid[i as int]));
        let j = choose|j: int| 0 <= j < f.len() && f[j] == mid[i as int];
        assert(f[j].pid == pid);
        assert(has_pid(f, pid));
        lemma_pid_index(f, j);
    }
    Ok(false)
}

/// Makes the first kernel process the current entity (once).
pub fn init_current_kernel_process(sys: &mut ProcessSystem)
    requires
        old(sys).wf(),
    ensures
        final(sys).wf(),
        old(sys).current_pid != 0 ==> *final(sys) == *old(sys),
        old(sys).current_pid == 0 ==> {
            let pid = ProcessId(old(sys).next_pid);
            &&& final(sys).current_pid == old(sys).next_pid
            &&& final(sys).next_pid == old(sys).next_pid.wrapping_add(1)
            &&& has_pid(final(sys).table@, pid)
            &&& final(sys).table@[pid_index(final(sys).table@, pid)].state == ProcessState::Running
            &&& final(sys).table@[pid_index(final(sys).table@, pid)].has_run
            &&& final(sys).table@[pid_index(final(sys).table@, pid)].process matches Some(p) && p.is_kernel
                && p.state == ProcessState::Running
        },
{
    if sys.current_pid != 0 {
        return;
    }
    let pid = allocate_pid(sys);
    let mut process = Process::new_kernel(pid);
    process.state = ProcessState::Running;
    insert_process_record(sys, pid, None, "kernel".to_owned(), ProcessState::Running, false, true, Some(process));
    proof {
        let t = sys.table@;
        if has_pid(old(sys).table@, pid) {
            lemma_pid_index(t, pid_index(old(sys).table@, pid));
        } else {
            lemma_pid_index(t, t.len() - 1);
        }
    }
    sys.current_pid = pid.0;
}

/// Applies `f` to the process object of the current process: `index` is
/// its table position, found by the caller.
fn current_index(sys: &ProcessSystem) -> (r: Option<usize>)
    requires
        sys.wf(),
    ensures
        r matches Some(i) ==> i < sys.table@.len() && spec_current_pid(sys) is Some
            && has_pid(sys.table@, spec_current_pid(sys)->0)
            && i == pid_index(sys.table@, spec_current_pid(sys)->0)
            && sys.table@[i as int].process is Some,
        r is None ==> spec_current_pid(sys) is None || !has_pid(sys.table@, spec_current_pid(sys)->0)
            || sys.table@[pid_index(sys.table@, spec_current_pid(sys)->0)].process is None,
{
    let pid = match current_pid(sys) {
        Some(p) => p,
        None => return None,
    };
    match process_record_index(&sys.table, pid) {
        Some(i) => if sys.table[i].process.is_some() { Some(i) } else { None },
        None => None,
    }
}

/// Whether the table has a current process with a process object.
pub open spec fn has_current_process(sys: &ProcessSystem) -> bool {
    spec_current_pid(sys) is Some && has_pid(sys.table@, spec_current_pid(sys)->0)
        && sys.table@[pid_index(sys.table@, spec_current_pid(sys)->0)].process is Some
}

pub open spec fn current_process_of(sys: &ProcessSystem) -> Process {
    sys.table@[pid_index(sys.table@, spec_current_pid(sys)->0)].process->0
}

/// Installs `entry` in the current process's descriptor table.
pub fn allocate_fd(sys: &mut ProcessSystem, entry: FdEntry) -> (r: Result<ProcessFd, ProcessError>)
    requires
        old(sys).wf(),
    ensures
        final(sys).wf(),
        final(sys).current_pid == old(sys).current_pid,
        !has_current_process(&*old(sys)) ==> r == Err::<ProcessFd, ProcessError>(ProcessError::NoCurrentProcess)
            && final(sys).table == old(sys).table,
        has_current_process(&*old(sys)) ==> {
            let i = pid_index(old(sys).table@, spec_current_pid(&*old(sys))->0);
            let p0 = current_process_of(&*old(sys));
            let p1 = final(sys).table@[i].process->0;
            &&& final(sys).table@.len() == old(sys).table@.len()
            &&& forall|j: int| 0 <= j < old(sys).table@.len() && j != i ==> #[trigger] final(sys).table@[j] == old(sys).table@[j]
            &&& final(sys).table@[i].process is Some
            &&& (r matches Ok(fd) ==> !p0.fds().contains_key(fd) && crate::process::FIRST_PROCESS_FD <= fd < crate::process::MAX_PROCESS_FD
                && p1.fds() == p0.fds().insert(fd, entry))
            &&& (r is Err ==> r == Err::<ProcessFd, ProcessError>(ProcessError::FdTableFull) && p1.fds() == p0.fds())
        },
{
    let i = match current_index(sys) {
        Some(i) => i,
        None => return Err(ProcessError::NoCurrentProcess),
    };
    let mut rec = sys.table.remove(i);
    let mut p = rec.process.take().unwrap();
    proof {
        assert(old(sys).table@[i as int].process is Some);
    }
    let r = p.allocate_fd(entry);
    rec.process = Some(p);
    sys.table.insert(i, rec);
    proof {
        assert forall|a: int, b: int| 0 <= a < sys.table@.len() && 0 <= b < sys.table@.len() && a != b implies
            sys.table@[a].pid != sys.table@[b].pid by {
            assert(old(sys).table@[a].pid != old(sys).table@[b].pid);
        }
        assert forall|j: int| 0 <= j < sys.table@.len() && (#[trigger] sys.table@[j]).process is Some implies
            sys.table@[j].process->0.wf() by {
            if j != i {
                assert(old(sys).table@[j].process is Some);
            }
        }
    }
    r
}


/// The entry of descriptor `fd` of the current process.
pub fn get_fd(sys: &ProcessSystem, fd: ProcessFd) -> (r: Option<&FdEntry>)
    requires
        sys.wf(),
    ensures
        !has_current_process(sys) ==> r is None,
        has_current_process(sys) ==> (current_process_of(sys).fds().contains_key(fd) ==> r == Some(&current_process_of(sys).fds()[fd]))
            && (!current_process_of(sys).fds().contains_key(fd) ==> r is None),
{
    match current_index(sys) {
        Some(i) => match &sys.table[i].process {
            Some(p) => p.get_fd(fd),
            None => None,
        },
        None => None,
    }
}

/// Closes descriptor `fd` of the current process.
pub fn close_fd(sys: &mut ProcessSystem, fd: ProcessFd) -> (r: Result<FdEntry, ProcessError>)
    requires
        old(sys).wf(),
    ensures
        final(sys).wf(),
        final(sys).current_pid == old(sys).current_pid,
        !has_current_process(&*old(sys)) ==> r == Err::<FdEntry, ProcessError>(ProcessError::NoCurrentProcess)
            && final(sys).table == old(sys).table,
        has_current_process(&*old(sys)) ==> {
            let i = pid_index(old(sys).table@, spec_current_pid(&*old(sys))->0);
            let p0 = current_process_of(&*old(sys));
            let p1 = final(sys).table@[i].process->0;
            &&& final(sys).table@.len() == old(sys).table@.len()
            &&& forall|j: int| 0 <= j < old(sys).table@.len() && j != i ==> #[trigger] final(sys).table@[j] == old(sys).table@[j]
            &&& final(sys).table@[i].process is Some
            &&& p0.fds().contains_key(fd) ==> r == Ok::<FdEntry, ProcessError>(p0.fds()[fd]) && p1.fds() == p0.fds().remove(fd)
            &&& !p0.fds().contains_key(fd) ==> r == Err::<FdEntry, ProcessError>(ProcessError::InvalidFd) && p1.fds() == p0.fds()
        },
{
    let i = match current_index(sys) {
        Some(i) => i,
        None => return Err(ProcessError::NoCurrentProcess),
    };
    let mut rec = sys.table.remove(i);
    let mut p = rec.process.take().unwrap();
    proof {
        assert(old(sys).table@[i as int].process is Some);
    }
    let r = p.close_fd(fd);
    rec.process = Some(p);
    sys.table.insert(i, rec);
    proof {
        assert forall|a: int, b: int| 0 <= a < sys.table@.len() && 0 <= b < sys.table@.len() && a != b implies
            sys.table@[a].pid != sys.table@[b].pid by {
            assert(old(sys).table@[a].pid != old(sys).table@[b].pid);
        }
        assert forall|j: int| 0 <= j < sys.table@.len() && (#[trigger] sys.table@[j]).process is Some implies
            sys.table@[j].process->0.wf() by {
            if j != i {
                assert(old(sys).table@[j].process is Some);
            }
        }
    }
    r
}

/// Records exit `code` on the current process object and returns its pid.
pub fn exit_current_process(sys: &mut ProcessSystem, code: i32) -> (r: Option<ProcessId>)
    requires
        old(sys).wf(),
    ensures
        final(sys).wf(),
        !has_current_process(&*old(sys)) ==> r is None && final(sys).table == old(sys).table,
        has_current_process(&*old(sys)) ==> {
            let i = pid_index(old(sys).table@, spec_current_pid(&*old(sys))->0);
            let p0 = current_process_of(&*old(sys));
            &&& r == Some(p0.pid)
            &&& final(sys).table@ == old(sys).table@.update(i, ProcessRecord {
                    process: Some(Process { state: ProcessState::Dead, status: Some(ProcessExitStatus::Exited(code)), ..p0 }),
                    ..old(sys).table@[i] })
        },
{
    let i = match current_index(sys) {
        Some(i) => i,
        None => return None,
    };
    let mut rec = sys.table.remove(i);
    let mut p = rec.process.take().unwrap();
    proof {
        assert(old(sys).table@[i as int].process is Some);
    }
    p.exit(code);
    let pid = p.pid;
    rec.process = Some(p);
    sys.table.insert(i, rec);
    proof {
        assert(sys.table@ =~= old(sys).table@.update(i as int, ProcessRecord {
            process: Some(Process { state: ProcessState::Dead, status: Some(ProcessExitStatus::Exited(code)), ..current_process_of(&*old(sys)) }),
            ..old(sys).table@[i as int] }));
        assert forall|a: int, b: int| 0 <= a < sys.table@.len() && 0 <= b < sys.table@.len() && a != b implies
            sys.table@[a].pid != sys.table@[b].pid by {
            assert(old(sys).table@[a].pid != old(sys).table@[b].pid);
        }
        assert forall|j: int| 0 <= j < sys.table@.len() && (#[trigger] sys.table@[j]).process is Some implies
            sys.table@[j].process->0.wf() by {
            assert(old(sys).table@[j].process is Some);
        }
    }
    Some(pid)
}

/// Asks the dispatcher to end the current user process with `code`.
pub fn request_current_user_exit(sys: &mut ProcessSystem, code: i32) -> (r: Option<ProcessId>)
    requires
        old(sys).wf(),
    ensures
        final(sys).table == old(sys).table,
        !has_current_process(&*old(sys)) || current_process_of(&*old(sys)).is_kernel ==> r is None && *final(sys) == *old(sys),
        has_current_process(&*old(sys)) && !current_process_of(&*old(sys)).is_kernel ==>
            r == Some(current_process_of(&*old(sys)).pid)
            && *final(sys) == (ProcessSystem { exit_code: code, exit_kind: 0, exit_requested: true, ..*old(sys) }),
{
    let pid = match current_process(sys) {
        Some(p) => {
            if p.is_kernel {
                return None;
            }
            p.pid
        },
        None => return None,
    };
    sys.exit_code = code;
    sys.exit_kind = 0;
    sys.exit_requested = true;
    Some(pid)
}

/// Asks the dispatcher to end the current user process with `fault`.
pub fn request_current_user_fault(sys: &mut ProcessSystem, fault: ProcessFault) -> (r: Option<ProcessId>)
    requires
        old(sys).wf(),
    ensures
        final(sys).table == old(sys).table,
        !has_current_process(&*old(sys)) || current_process_of(&*old(sys)).is_kernel ==> r is None && *final(sys) == *old(sys),
        has_current_process(&*old(sys)) && !current_process_of(&*old(sys)).is_kernel ==>
            r == Some(current_process_of(&*old(sys)).pid)
            && *final(sys) == (ProcessSystem { exit_code: fault_exit_code(fault), exit_kind: fault_kind(fault), exit_requested: true, ..*old(sys) }),
{
    let pid = match current_process(sys) {
        Some(p) => {
            if p.is_kernel {
                return None;
            }
            p.pid
        },
        None => return None,
    };
    sys.exit_code = fault.exit_code();
    sys.exit_kind = fault_kind_to_i32(fault);
    sys.exit_requested = true;
    Some(pid)
}

/// Whether a fault exit is pending.
pub fn user_fault_escape_requested(sys: &ProcessSystem) -> (r: bool)
    ensures
        r == (sys.exit_requested && sys.exit_kind != 0),
{
    sys.exit_requested && sys.exit_kind != 0
}

pub fn preempt_switch_requested(sys: &ProcessSystem) -> (r: bool)
    ensures
        r == sys.preempt_switch_requested,
{
    sys.preempt_switch_requested
}

pub fn clear_preempt_switch(sys: &mut ProcessSystem)
    ensures
        *final(sys) == (ProcessSystem { preempt_switch_requested: false, ..*old(sys) }),
{
    sys.preempt_switch_requested = false;
}

pub fn set_preemption_enabled(sys: &mut ProcessSystem, enabled: bool)
    ensures
        *final(sys) == (ProcessSystem { preemption_enabled: enabled, ..*old(sys) }),
{
    sys.preemption_enabled = enabled;
}

pub fn preemption_enabled(sys: &ProcessSystem) -> (r: bool)
    ensures
        r == sys.preemption_enabled,
{
    sys.preemption_enabled
}

/// Number of timer-driven switches committed so far.
pub fn preemption_count(sys: &ProcessSystem) -> (r: u64)
    ensures
        r == sys.preemption_count,
{
    sys.preemption_count
}

pub fn reset_preemption_count(sys: &mut ProcessSystem)
    ensures
        *final(sys) == (ProcessSystem { preemption_count: 0, ..*old(sys) }),
{
    sys.preemption_count = 0;
}

/// The status an exit request of `code` and `kind` asks for: a normal exit
/// with `code` for kind 0, else the fault the kind stands for.
pub open spec fn requested_status(code: i32, kind: i32) -> ProcessExitStatus {
    if kind == 0 { ProcessExitStatus::Exited(code) } else { ProcessExitStatus::Fault(fault_of_kind(kind)) }
}

/// Takes a pending exit request: its code and status.
pub fn take_process_exit_request(sys: &mut ProcessSystem) -> (r: Option<(i32, ProcessExitStatus)>)
    ensures
        !old(sys).exit_requested ==> r is None && *final(sys) == *old(sys),
        old(sys).exit_requested ==> *final(sys) == (ProcessSystem { exit_requested: false, exit_kind: 0, ..*old(sys) })
            && (r matches Some((code, status)) && code == old(sys).exit_code
            && status == requested_status(old(sys).exit_code, old(sys).exit_kind)),
{
    if sys.exit_requested {
        sys.exit_requested = false;
        let code = sys.exit_code;
        let kind = sys.exit_kind;
        sys.exit_kind = 0;
        let status = if kind == 0 {
            ProcessExitStatus::Exited(code)
        } else {
            ProcessExitStatus::Fault(fault_kind_from_i32(kind))
        };
        Some((code, status))
    } else {
        None
    }
}

/// Takes a pending yield request.
pub fn take_process_yield_request(sys: &mut ProcessSystem) -> (r: bool)
    ensures
        r == old(sys).yield_requested,
        *final(sys) == (ProcessSystem { yield_requested: false, ..*old(sys) }),
{
    let r = sys.yield_requested;
    sys.yield_requested = false;
    r
}

/// Takes the pid the dispatcher should run next, if one was named.
pub fn take_schedule_hint(sys: &mut ProcessSystem) -> (r: Option<ProcessId>)
    ensures
        old(sys).schedule_hint == 0 ==> r is None,
        old(sys).schedule_hint != 0 ==> r == Some(ProcessId(old(sys).schedule_hint)),
        *final(sys) == (ProcessSystem { schedule_hint: 0, ..*old(sys) }),
{
    let pid = sys.schedule_hint;
    sys.schedule_hint = 0;
    if pid == 0 { None } else { Some(ProcessId(pid)) }
}

/// Whether the timer may preempt the current entity: preemption is enabled
/// and the current entity is a running user entity of the table.
pub open spec fn preemptible(sys: &ProcessSystem) -> bool {
    &&& sys.preemption_enabled
    &&& current_entity(sys) is Some
    &&& has_pid(sys.table@, current_entity(sys)->0)
    &&& sys.table@[pid_index(sys.table@, current_entity(sys)->0)].state == ProcessState::Running
    &&& sys.table@[pid_index(sys.table@, current_entity(sys)->0)].process is Some
    &&& !sys.table@[pid_index(sys.table@, current_entity(sys)->0)].process->0.is_kernel
}

/// Whether a queued entity other than `e` can run.
pub open spec fn other_runnable(sys: &ProcessSystem, e: ProcessId) -> bool {
    &&& sys.scheduler is Some
    &&& exists|p: ProcessId| #[trigger] sys.scheduler->0.ready_queue@.contains(p) && p != e && pid_runnable(sys.table@, p)
}

/// Timer preemption: when enabled and the current entity is a running user
/// entity and another entity can run, saves `frame` (the interrupted user
/// registers) into it, marks it ready and requeues it, counts the switch
/// and asks the dispatcher to run the chosen entity.
pub fn timer_preempt_save_and_schedule(sys: &mut ProcessSystem, frame: CpuContext)
    requires
        old(sys).wf(),
    ensures
        final(sys).wf(),
        !old(sys).preemption_enabled || current_entity(&*old(sys)) is None ==> *final(sys) == *old(sys),
        !preemptible(&*old(sys)) ==> *final(sys) == *old(sys),
        final(sys).preemption_count != old(sys).preemption_count <==>
            preemptible(&*old(sys)) && other_runnable(&*old(sys), current_entity(&*old(sys))->0),
        final(sys).preemption_count != old(sys).preemption_count ==> {
            let e = current_entity(&*old(sys))->0;
            let i = pid_index(old(sys).table@, e);
            &&& old(sys).preemption_enabled
            &&& has_pid(old(sys).table@, e)
            &&& old(sys).table@[i].state == ProcessState::Running
            &&& final(sys).table@[i].state == ProcessState::Ready
            &&& final(sys).table@[i].process->0.context == frame
            &&& final(sys).table@.len() == old(sys).table@.len()
            &&& forall|j: int| 0 <= j < old(sys).table@.len() && j != i ==> #[trigger] final(sys).table@[j] == old(sys).table@[j]
            &&& final(sys).yield_requested
            &&& final(sys).preemption_count == old(sys).preemption_count.wrapping_add(1)
            &&& final(sys).schedule_hint != e.0
            &&& pid_runnable(old(sys).table@, ProcessId(final(sys).schedule_hint))
            &&& final(sys).preempt_switch_requested
        },
        final(sys).preemption_count == old(sys).preemption_count ==> final(sys).table == old(sys).table
            && final(sys).schedule_hint == old(sys).schedule_hint
            && final(sys).preempt_switch_requested == old(sys).preempt_switch_requested
            && final(sys).yield_requested == old(sys).yield_requested,
{
    if !sys.preemption_enabled {
        return;
    }
    let current = match current_entity_id(sys) {
        Some(e) => e,
        None => return,
    };
    let i = match process_record_index(&sys.table, current) {
        Some(i) => i,
        None => return,
    };
    if sys.table[i].state != ProcessState::Running {
        return;
    }
    match &sys.table[i].process {
        Some(p) => {
            if p.is_kernel {
                return;
            }
        },
        None => return,
    }
    let next = match crate::process::scheduler::pick_next_candidate_excluding(sys, current) {
        Some(p) => p,
        None => return,
    };
    let mut rec = sys.table.remove(i);
    rec.state = ProcessState::Ready;
    match rec.process.take() {
        Some(mut p) => {
            p.context = frame;
            p.state = ProcessState::Ready;
            rec.process = Some(p);
        },
        None => {},
    }
    sys.table.insert(i, rec);
    proof {
        assert forall|a: int, b: int| 0 <= a < sys.table@.len() && 0 <= b < sys.table@.len() && a != b implies
            sys.table@[a].pid != sys.table@[b].pid by {
            assert(old(sys).table@[a].pid != old(sys).table@[b].pid);
        }
        assert forall|j: int| 0 <= j < sys.table@.len() && (#[trigger] sys.table@[j]).process is Some implies
            sys.table@[j].process->0.wf() by {
            assert(old(sys).table@[j].process is Some);
        }
    }
    let _ = enqueue_ready(sys, current);
    sys.preemption_count = sys.preemption_count.wrapping_add(1);
    sys.yield_requested = true;
    sys.schedule_hint = next.0;
    sys.preempt_switch_requested = true;
    proof {
        assert(has_pid(old(sys).table@, next));
    }
}


/// Whether the process that owns `entity` has an address space.
pub open spec fn owner_space_ready(t: Seq<ProcessRecord>, entity: ProcessId) -> bool {
    spec_owner_of(t, entity) matches Some(o) && has_pid(t, o)
        && t[pid_index(t, o)].process is Some && t[pid_index(t, o)].process->0.spec_has_address_space()
}

/// What entering user mode as `pid` needs: a prepared user entity with an
/// entry point and a stack, an address space of its process and a kernel
/// stack. The saved registers on success.
pub open spec fn user_entry(t: Seq<ProcessRecord>, pid: ProcessId) -> Result<CpuContext, ProcessError> {
    if !has_pid(t, pid) {
        Err(ProcessError::NoSuchProcess)
    } else {
        match t[pid_index(t, pid)].process {
            None => Err(ProcessError::ProcessNotPrepared),
            Some(p) => if p.is_kernel || p.context.rip == 0 || p.context.rsp == 0 {
                Err(ProcessError::InvalidUserContext)
            } else if !owner_space_ready(t, pid) {
                Err(ProcessError::NoAddressSpace)
            } else if !p.spec_has_kernel_stack() {
                Err(ProcessError::NoKernelStack)
            } else {
                Ok(p.context)
            },
        }
    }
}

/// Checks that `pid` can enter user mode and marks its process running;
/// returns the registers to enter with.
pub fn enter_user_check(sys: &mut ProcessSystem, pid: ProcessId) -> (r: Result<CpuContext, ProcessError>)
    requires
        old(sys).wf(),
    ensures
        final(sys).wf(),
        r == user_entry(old(sys).table@, pid),
        r is Err ==> *final(sys) == *old(sys),
        r is Ok ==> {
            let i = pid_index(old(sys).table@, pid);
            let rec = old(sys).table@[i];
            &&& final(sys).table@ == old(sys).table@.update(i,
                ProcessRecord { process: Some(Process { state: ProcessState::Running, ..rec.process->0 }), ..rec })
            &&& *final(sys) == (ProcessSystem { table: final(sys).table, ..*old(sys) })
        },
{
    let ready = match owner_of(sys, pid) {
        Some(owner) => match process_record_index(&sys.table, owner) {
            Some(j) => match &sys.table[j].process {
                Some(q) => q.address_space().is_some(),
                None => false,
            },
            None => false,
        },
        None => false,
    };
    let i = match process_record_index(&sys.table, pid) {
        Some(i) => i,
        None => return Err(ProcessError::NoSuchProcess),
    };
    let context = match &sys.table[i].process {
        None => return Err(ProcessError::ProcessNotPrepared),
        Some(p) => {
            if p.is_kernel {
                return Err(ProcessError::InvalidUserContext);
            }
            if p.context.rip == 0 || p.context.rsp == 0 {
                return Err(ProcessError::InvalidUserContext);
            }
            if !ready {
                return Err(ProcessError::NoAddressSpace);
            }
            if p.kernel_stack_top().is_none() {
                return Err(ProcessError::NoKernelStack);
            }
            p.context
        },
    };
    let mut rec = sys.table.remove(i);
    match rec.process.take() {
        Some(mut p) => {
            p.state = ProcessState::Running;
            rec.process = Some(p);
        },
        None => {},
    }
    sys.table.insert(i, rec);
    proof {
        assert(sys.table@ =~= old(sys).table@.update(i as int, sys.table@[i as int]));
        assert forall|a: int, b: int| 0 <= a < sys.table@.len() && 0 <= b < sys.table@.len() && a != b implies
            sys.table@[a].pid != sys.table@[b].pid by {
            assert(old(sys).table@[a].pid != old(sys).table@[b].pid);
        }
        assert forall|j: int| 0 <= j < sys.table@.len() && (#[trigger] sys.table@[j]).process is Some implies
            sys.table@[j].process->0.wf() by {
            assert(old(sys).table@[j].process is Some);
        }
    }
    Ok(context)
}

/// How a run of `p` that did not yield ends, given the pending exit
/// request: the requested status, else an unknown fault for a process still
/// alive, else the status it recorded (an unknown fault when none).
pub open spec fn finish_status(p: Process, request: Option<ProcessExitStatus>) -> ProcessExitStatus {
    match request {
        Some(st) => st,
        None => if p.state != ProcessState::Dead {
            ProcessExitStatus::Fault(ProcessFault::Unknown)
        } else {
            match p.status {
                Some(st) => st,
                None => ProcessExitStatus::Fault(ProcessFault::Unknown),
            }
        },
    }
}

/// Settles the status of `pid` after a run that did not yield: takes the
/// pending exit request and marks the process dead with the status that
/// `finish_status` gives. Fails, taking nothing, when `pid` has no process.
pub fn finish_user_run(sys: &mut ProcessSystem, pid: ProcessId) -> (r: Result<ProcessExitStatus, ProcessError>)
    requires
        old(sys).wf(),
    ensures
        final(sys).wf(),
        !has_pid(old(sys).table@, pid) ==> r == Err::<ProcessExitStatus, ProcessError>(ProcessError::NoSuchProcess) && *final(sys) == *old(sys),
        has_pid(old(sys).table@, pid) && old(sys).table@[pid_index(old(sys).table@, pid)].process is None ==>
            r == Err::<ProcessExitStatus, ProcessError>(ProcessError::ProcessNotPrepared) && *final(sys) == *old(sys),
        has_pid(old(sys).table@, pid) ==> (old(sys).table@[pid_index(old(sys).table@, pid)].process matches Some(p) ==> {
            let i = pid_index(old(sys).table@, pid);
            let rec = old(sys).table@[i];
            let request: Option<ProcessExitStatus> = if old(sys).exit_requested {
                Some(requested_status(old(sys).exit_code, old(sys).exit_kind))
            } else {
                None
            };
            &&& r is Ok
            &&& r->Ok_0 == finish_status(p, request)
            &&& (old(sys).exit_requested || p.state != ProcessState::Dead) ==> final(sys).table@ == old(sys).table@.update(i,
                ProcessRecord { process: Some(Process { state: ProcessState::Dead, status: Some(r->Ok_0), ..p }), ..rec })
            &&& !(old(sys).exit_requested || p.state != ProcessState::Dead) ==> final(sys).table@ == old(sys).table@
            &&& *final(sys) == (ProcessSystem { table: final(sys).table, exit_requested: false,
                exit_kind: if old(sys).exit_requested { 0 } else { old(sys).exit_kind }, ..*old(sys) })
        }),
{
    let i = match process_record_index(&sys.table, pid) {
        Some(i) => i,
        None => return Err(ProcessError::NoSuchProcess),
    };
    if sys.table[i].process.is_none() {
        return Err(ProcessError::ProcessNotPrepared);
    }
    let request = take_process_exit_request(sys);
    let mut rec = sys.table.remove(i);
    let mut p = match rec.process.take() {
        Some(p) => p,
        None => return Err(ProcessError::ProcessNotPrepared),
    };
    let status = match request {
        Some((_code, requested)) => {
            match requested {
                ProcessExitStatus::Exited(code) => p.exit(code),
                ProcessExitStatus::Fault(fault) => p.fault(fault),
            }
            requested
        },
        None => {
            if p.state != ProcessState::Dead {
                p.fault(ProcessFault::Unknown);
                ProcessExitStatus::Fault(ProcessFault::Unknown)
            } else {
                match p.status {
                    Some(st) => st,
                    None => ProcessExitStatus::Fault(ProcessFault::Unknown),
                }
            }
        },
    };
    rec.process = Some(p);
    sys.table.insert(i, rec);
    proof {
        assert forall|a: int, b: int| 0 <= a < sys.table@.len() && 0 <= b < sys.table@.len() && a != b implies
            sys.table@[a].pid != sys.table@[b].pid by {
            assert(old(sys).table@[a].pid != old(sys).table@[b].pid);
        }
        assert forall|j: int| 0 <= j < sys.table@.len() && (#[trigger] sys.table@[j]).process is Some implies
            sys.table@[j].process->0.wf() by {
            assert(old(sys).table@[j].process is Some);
        }
        if !(old(sys).exit_requested || old(sys).table@[i as int].process->0.state != ProcessState::Dead) {
            assert(sys.table@ =~= old(sys).table@);
        } else {
            assert(sys.table@ =~= old(sys).table@.update(i as int, sys.table@[i as int]));
        }
    }
    Ok(status)
}

/// Who runs after `current` returned from user mode with `root` the entity
/// the run started from: the scheduling hint when it names another
/// runnable entity, else `root` when it is another runnable entity, else
/// the scheduler's next candidate other than `current`. The hint is taken.
pub fn next_user_pid(sys: &mut ProcessSystem, current: ProcessId, root: ProcessId) -> (r: Option<ProcessId>)
    requires
        old(sys).wf(),
    ensures
        final(sys).wf(),
        final(sys).table == old(sys).table,
        final(sys).schedule_hint == 0,
        ({
            let t = old(sys).table@;
            let h = ProcessId(old(sys).schedule_hint);
            if old(sys).schedule_hint != 0 && h != current && pid_runnable(t, h) {
                r == Some(h) && final(sys).scheduler == old(sys).scheduler
            } else if current != root && pid_runnable(t, root) {
                r == Some(root) && final(sys).scheduler == old(sys).scheduler
            } else {
                &&& old(sys).scheduler is None ==> r is None
                &&& r matches Some(p) ==> p != current && pid_runnable(t, p) && old(sys).scheduler->0.ready_queue@.contains(p)
                &&& old(sys).scheduler is Some && r is None ==> forall|p: ProcessId| #[trigger] old(sys).scheduler->0.ready_queue@.contains(p)
                    && p != current ==> !pid_runnable(t, p)
                &&& old(sys).scheduler is Some ==> final(sys).scheduler is Some
                    && crate::process::scheduler::excluded_pick(old(sys).scheduler->0, current, final(sys).scheduler->0, t, r)
            }
        }),
{
    let hint = take_schedule_hint(sys);
    match hint {
        Some(h) => {
            if h != current && is_pid_runnable(sys, h) {
                return Some(h);
            }
        },
        None => {},
    }
    if current != root && is_pid_runnable(sys, root) {
        return Some(root);
    }
    crate::process::scheduler::pick_next_candidate_excluding(sys, current)
}

/// A record `wait_for_child` may collect for `parent`.
pub open spec fn wait_match(rec: ProcessRecord, parent: ProcessId, requested: ProcessId) -> bool {
    rec.parent == Some(parent) && rec.waitable && (requested.0 == 0 || rec.pid == requested)
}

/// Whether some record matches.
pub open spec fn has_wait_match(t: Seq<ProcessRecord>, parent: ProcessId, requested: ProcessId) -> bool {
    exists|i: int| 0 <= i < t.len() && wait_match(#[trigger] t[i], parent, requested)
}

/// The first matching record.
pub open spec fn first_wait_match(t: Seq<ProcessRecord>, parent: ProcessId, requested: ProcessId) -> int {
    choose|i: int| 0 <= i < t.len() && wait_match(t[i], parent, requested)
        && forall|j: int| 0 <= j < i ==> !wait_match(#[trigger] t[j], parent, requested)
}

/// The (kind, code) a wait reports for `rec`, or the error it fails with.
pub open spec fn wait_outcome(rec: ProcessRecord) -> Result<(i32, i32), ProcessError> {
    if rec.status is Some && rec.has_run {
        Ok((status_kind_code(rec.status->0), status_exit_code(rec.status->0)))
    } else if rec.state == ProcessState::Prepared && !rec.has_run {
        Ok((WAIT_KIND_SPAWN_PREPARED, 0))
    } else if rec.state == ProcessState::Ready || rec.state == ProcessState::Running || rec.state == ProcessState::Blocked {
        Err(ProcessError::NotRunnable)
    } else {
        Err(ProcessError::ProcessNotPrepared)
    }
}

/// A wait reports how a child that ran ended: a child that exited with code
/// `c` is reported as a normal exit, kind 0, with code `c`; a child that
/// faulted is reported with a non-zero kind that decodes back to its fault.
pub proof fn law_wait_reports_exit(rec: ProcessRecord)
    requires
        rec.has_run,
        rec.status is Some,
    ensures
        rec.status matches Some(ProcessExitStatus::Exited(c)) ==> wait_outcome(rec) == Ok::<(i32, i32), ProcessError>((0i32, c)),
        rec.status matches Some(ProcessExitStatus::Fault(f)) ==> (wait_outcome(rec) matches Ok((kind, code))
            && kind != 0 && fault_of_kind(kind) == f),
{
}

/// Removes record `i`, closing its descriptors and releasing its process
/// object, its queue slot and its messages.
fn discard_record<F: FileSystem>(sys: &mut ProcessSystem, i: usize, ipc: &mut IpcManager, vfs: &mut VirtualFileSystem<F>, mem: &mut KernelMemory) -> (r: usize)
    requires
        old(sys).wf(),
        old(ipc).wf(),
        old(vfs).wf(),
        old(mem).wf(),
        i < old(sys).table@.len(),
    ensures
        final(sys).wf(),
        final(ipc).wf(),
        final(vfs).wf(),
        final(mem).wf(),
        final(sys).table@ == old(sys).table@.remove(i as int),
        final(sys).current_pid == old(sys).current_pid,
        final(sys).wait_queue == old(sys).wait_queue,
        final(ipc).queues() == old(ipc).queues().remove(old(sys).table@[i as int].pid),
{
    let pid = sys.table[i].pid;
    scheduler_remove(sys, pid);
    ipc.clear_messages(pid);
    let mut rec = sys.table.remove(i);
    proof {
        assert forall|a: int, b: int| 0 <= a < sys.table@.len() && 0 <= b < sys.table@.len() && a != b implies
            sys.table@[a].pid != sys.table@[b].pid by {
            let a2 = if a < i { a } else { a + 1 };
            let b2 = if b < i { b } else { b + 1 };
            assert(old(sys).table@[a2].pid != old(sys).table@[b2].pid);
        }
        assert forall|j: int| 0 <= j < sys.table@.len() && (#[trigger] sys.table@[j]).process is Some implies
            sys.table@[j].process->0.wf() by {
            let j2 = if j < i { j } else { j + 1 };
            assert(old(sys).table@[j2].process is Some);
        }
    }
    let mut closed: usize = 0;
    match rec.process.take() {
        Some(mut p) => {
            proof {
                assert(old(sys).table@[i as int].process is Some);
            }
            closed = p.cleanup_fds(vfs);
            p.release_vm_resources(mem);
        },
        None => {},
    }
    closed
}

fn find_wait_match(table: &Vec<ProcessRecord>, parent: ProcessId, requested: ProcessId) -> (r: Option<usize>)
    ensures
        r is None <==> !has_wait_match(table@, parent, requested),
        r matches Some(i) ==> i == first_wait_match(table@, parent, requested) && i < table@.len(),
{
    let mut index: usize = 0;
    while index < table.len()
        invariant
            index <= table@.len(),
            forall|j: int| 0 <= j < index ==> !wait_match(#[trigger] table@[j], parent, requested),
        decreases table@.len() - index,
    {
        let rec = &table[index];
        if rec.parent == Some(parent) && rec.waitable && (requested.0 == 0 || rec.pid == requested) {
            proof {
                let t = table@;
                assert(wait_match(t[index as int], parent, requested));
                assert(has_wait_match(t, parent, requested));
                let c = first_wait_match(t, parent, requested);
                if c < index {
                    assert(!wait_match(t[c], parent, requested));
                }
                if c > index {
                    assert(!wait_match(t[index as int], parent, requested));
                }
            }
            return Some(index);
        }
        index = index + 1;
    }
    None
}

fn wait_outcome_of(record: &ProcessRecord) -> (r: Result<(i32, i32), ProcessError>)
    ensures
        r == wait_outcome(*record),
{
    match record.status {
        Some(status) => {
            if record.has_run {
                return Ok((status.kind_code(), status.exit_code()));
            }
        },
        None => {},
    }
    if record.state == ProcessState::Prepared && !record.has_run {
        Ok((crate::process::WAIT_KIND_SPAWN_PREPARED, 0i32))
    } else if record.state == ProcessState::Ready || record.state == ProcessState::Running
        || record.state == ProcessState::Blocked {
        Err(ProcessError::NotRunnable)
    } else {
        Err(ProcessError::ProcessNotPrepared)
    }
}

/// Collects an exited (or never started) waitable child of the current
/// process: any child when `requested_pid` is 0, else that one. The child's
/// record leaves the table, its descriptors are closed and its resources
/// released.
pub fn wait_for_child<F: FileSystem>(sys: &mut ProcessSystem, requested_pid: ProcessId, ipc: &mut IpcManager, vfs: &mut VirtualFileSystem<F>, mem: &mut KernelMemory) -> (r: Result<WaitRecord, ProcessError>)
    requires
        old(sys).wf(),
        old(ipc).wf(),
        old(vfs).wf(),
        old(mem).wf(),
    ensures
        final(sys).wf(),
        final(ipc).wf(),
        final(vfs).wf(),
        final(mem).wf(),
        !has_current_process(&*old(sys)) ==> r == Err::<WaitRecord, ProcessError>(ProcessError::NoCurrentProcess),
        has_current_process(&*old(sys)) ==> {
            let t = old(sys).table@;
            let parent = current_process_of(&*old(sys)).pid;
            let i = first_wait_match(t, parent, requested_pid);
            &&& !has_wait_match(t, parent, requested_pid) ==>
                r == Err::<WaitRecord, ProcessError>(
                    if requested_pid.0 == 0 || has_pid(t, requested_pid) { ProcessError::NotChild } else { ProcessError::NoSuchProcess })
            &&& has_wait_match(t, parent, requested_pid) ==> match wait_outcome(t[i]) {
                Ok((kind, code)) => r == Ok::<WaitRecord, ProcessError>(WaitRecord { pid: t[i].pid, kind, code })
                    && final(sys).table@ == t.remove(i)
                    && final(ipc).queues() == old(ipc).queues().remove(t[i].pid),
                Err(e) => r == Err::<WaitRecord, ProcessError>(e),
            }
        },
        r is Err ==> final(sys).table == old(sys).table,
{
    let parent_pid = match current_process(sys) {
        Some(p) => p.pid,
        None => return Err(ProcessError::NoCurrentProcess),
    };
    let has_requested = requested_pid.0 == 0 || process_record_index(&sys.table, requested_pid).is_some();
    let index = match find_wait_match(&sys.table, parent_pid, requested_pid) {
        Some(i) => i,
        None => {
            if has_requested {
                return Err(ProcessError::NotChild);
            }
            return Err(ProcessError::NoSuchProcess);
        },
    };
    let (kind, code) = match wait_outcome_of(&sys.table[index]) {
        Ok(v) => v,
        Err(e) => return Err(e),
    };
    let pid = sys.table[index].pid;
    let _ = discard_record(sys, index, ipc, vfs, mem);
    Ok(WaitRecord { pid, kind, code })
}

/// A prepared child of `parent` that never ran and still holds its process
/// object.
pub open spec fn prepared_child(rec: ProcessRecord, parent: ProcessId) -> bool {
    rec.parent == Some(parent) && !rec.has_run && rec.process is Some
}

/// Removes every prepared child of `parent` that never ran (when the parent
/// exits), closing their descriptors; returns how many.
pub fn cleanup_prepared_children<F: FileSystem>(sys: &mut ProcessSystem, parent_pid: ProcessId, ipc: &mut IpcManager, vfs: &mut VirtualFileSystem<F>, mem: &mut KernelMemory) -> (r: usize)
    requires
        old(sys).wf(),
        old(ipc).wf(),
        old(vfs).wf(),
        old(mem).wf(),
    ensures
        final(sys).wf(),
        final(ipc).wf(),
        final(vfs).wf(),
        final(mem).wf(),
        final(sys).table@ == old(sys).table@.filter(|rec: ProcessRecord| !prepared_child(rec, parent_pid)),
        r + final(sys).table@.len() == old(sys).table@.len(),
{
    let ghost t0 = sys.table@;
    let n0 = sys.table.len();
    let mut removed: usize = 0;
    let mut index: usize = 0;
    while index < sys.table.len()
        invariant
            t0.len() == n0,
            sys.wf(),
            ipc.wf(),
            vfs.wf(),
            mem.wf(),
            index <= sys.table@.len(),
            removed + sys.table@.len() == t0.len(),
            ({
                let done = sys.table@.subrange(0, index as int);
                let rest = sys.table@.subrange(index as int, sys.table@.len() as int);
                &&& done == t0.subrange(0, removed + index).filter(|rec: ProcessRecord| !prepared_child(rec, parent_pid))
                &&& rest == t0.subrange(removed + index, t0.len() as int)
            }),
        decreases sys.table@.len() - index,
    {
        let ghost t1 = sys.table@;
        let ghost k = removed + index;
        proof {
            assert(t1[index as int] == t0[k]) by {
                assert(t1.subrange(index as int, t1.len() as int)[0] == t1[index as int]);
            }
            assert(t0.subrange(0, k + 1).drop_last() =~= t0.subrange(0, k));
            reveal_with_fuel(Seq::filter, 1);
        }
        let should_remove = sys.table[index].parent == Some(parent_pid) && !sys.table[index].has_run
            && sys.table[index].process.is_some();
        if should_remove {
            let _ = discard_record(sys, index, ipc, vfs, mem);
            removed = removed + 1;
            proof {
                assert(sys.table@ == t1.remove(index as int));
                let rest = t1.subrange(index as int, t1.len() as int);
                assert(rest == t0.subrange(k, t0.len() as int));
                assert(rest.subrange(1, rest.len() as int) =~= t0.subrange(k + 1, t0.len() as int));
                assert(sys.table@.subrange(index as int, sys.table@.len() as int) =~= rest.subrange(1, rest.len() as int));
                assert(sys.table@.subrange(0, index as int) =~= t1.subrange(0, index as int));
                assert(sys.table@.subrange(index as int, sys.table@.len() as int) =~= t0.subrange(k + 1, t0.len() as int));
            }
        } else {
            index = index + 1;
            proof {
                let rest = t1.subrange(index as int - 1, t1.len() as int);
                assert(rest == t0.subrange(k, t0.len() as int));
                assert(rest.subrange(1, rest.len() as int) =~= t0.subrange(k + 1, t0.len() as int));
                assert(sys.table@.subrange(index as int, sys.table@.len() as int) =~= rest.subrange(1, rest.len() as int));
                assert(sys.table@.subrange(0, index as int) =~= t1.subrange(0, index as int - 1).push(t0[k]));
                assert(sys.table@.subrange(index as int, sys.table@.len() as int) =~= t0.subrange(k + 1, t0.len() as int));
            }
        }
    }
    proof {
        assert(sys.table@.subrange(0, index as int) =~= sys.table@);
        assert(t0.subrange(0, t0.len() as int) =~= t0);
    }
    removed
}

/// Drops the record of `pid` outright (a process nobody will wait for),
/// closing its descriptors and releasing its resources.
pub fn autoreap_process<F: FileSystem>(sys: &mut ProcessSystem, pid: ProcessId, ipc: &mut IpcManager, vfs: &mut VirtualFileSystem<F>, mem: &mut KernelMemory) -> (r: Result<(), ProcessError>)
    requires
        old(sys).wf(),
        old(ipc).wf(),
        old(vfs).wf(),
        old(mem).wf(),
    ensures
        final(sys).wf(),
        final(ipc).wf(),
        final(vfs).wf(),
        final(mem).wf(),
        !has_pid(old(sys).table@, pid) ==> r == Err::<(), ProcessError>(ProcessError::NoSuchProcess)
            && final(sys).table == old(sys).table,
        has_pid(old(sys).table@, pid) ==> r is Ok
            && final(sys).table@ == old(sys).table@.remove(pid_index(old(sys).table@, pid))
            && final(ipc).queues() == old(ipc).queues().remove(pid),
{
    let i = match process_record_index(&sys.table, pid) {
        Some(i) => i,
        None => return Err(ProcessError::NoSuchProcess),
    };
    let _ = discard_record(sys, i, ipc, vfs, mem);
    Ok(())
}

/// A successful wait consumes the child: its pid leaves the table.
pub proof fn law_wait_consumes_child(t: Seq<ProcessRecord>, i: int)
    requires
        pids_unique(t),
        0 <= i < t.len(),
    ensures
        !has_pid(t.remove(i), t[i].pid),
        pids_unique(t.remove(i)),
{
    let u = t.remove(i);
    if has_pid(u, t[i].pid) {
        let j = choose|j: int| 0 <= j < u.len() && u[j].pid == t[i].pid;
        let j2 = if j < i { j } else { j + 1 };
        assert(t[j2].pid == t[i].pid);
    }
    assert forall|a: int, b: int| 0 <= a < u.len() && 0 <= b < u.len() && a != b implies u[a].pid != u[b].pid by {
        let a2 = if a < i { a } else { a + 1 };
        let b2 = if b < i { b } else { b + 1 };
        assert(t[a2].pid != t[b2].pid);
    }
}

} // verus!
