//! Pseudo-terminals: byte channels between a terminal emulator (the master)
//! and the child whose stdin and stdout it drives (the slave). Each pty has a
//! ring towards the slave (keystrokes) and one towards the master (output).
use vstd::prelude::*;
use crate::assoc::{keys_unique, has_key, lookup, to_map, lemma_lookup_at, lemma_lookup_none, lemma_push, lemma_remove, lemma_update_value};
use crate::process::ProcessId;
use crate::process::table::{ProcessSystem, process_exists, has_pid, pid_index};

verus! {

/// Capacity of each ring; bytes beyond it are dropped, never blocked on.
pub const PTY_RING_CAP: usize = 8192;

/// Outcome of a slave-side stdin read.
#[derive(Debug, Clone, Copy, PartialEq, Eq, Structural)]
pub enum SlaveRead {
    /// Bytes were copied into the caller's buffer.
    Data(usize),
    /// Nothing to read while the master lives: retry later.
    WouldBlock,
    /// Nothing to read and the master is gone: end of input.
    Eof,
}

/// One pty: its owner, the attached child, and the two rings.
pub struct Pty {
    pub master: ProcessId,
    pub slave: Option<ProcessId>,
    pub to_slave: Vec<u8>,
    pub to_master: Vec<u8>,
}

/// A pty as plain values.
#[verifier::ext_equal]
pub struct PtyView {
    pub master: ProcessId,
    pub slave: Option<ProcessId>,
    pub to_slave: Seq<u8>,
    pub to_master: Seq<u8>,
}

impl View for Pty {
    type V = PtyView;

    open spec fn view(&self) -> PtyView {
        PtyView { master: self.master, slave: self.slave, to_slave: self.to_slave@, to_master: self.to_master@ }
    }
}

/// The ptys by id, and the counter the next id is cut from.
pub struct PtyTable {
    pub ptys: Vec<(u32, Pty)>,
    pub next_id: u64,
}

/// How many of `n` offered bytes a ring holding `len` bytes accepts.
pub open spec fn ring_room(len: int, n: int) -> int {
    let space = if PTY_RING_CAP >= len { PTY_RING_CAP - len } else { 0 };
    if space < n { space } else { n }
}

/// A ring after `data` is offered to it.
pub open spec fn ring_after_push(ring: Seq<u8>, data: Seq<u8>) -> Seq<u8> {
    ring + data.subrange(0, ring_room(ring.len() as int, data.len() as int))
}

/// How many bytes a read into a buffer of `cap` bytes takes from a ring
/// holding `len`.
pub open spec fn pop_count(len: int, cap: int) -> int {
    if len < cap { len } else { cap }
}

/// A caller's buffer after `bytes` were copied to its start.
pub open spec fn buffer_after(out: Seq<u8>, bytes: Seq<u8>) -> Seq<u8> {
    bytes + out.subrange(bytes.len() as int, out.len() as int)
}

impl PtyTable {
    /// Id/view pairs in storage order.
    pub open spec fn entries(&self) -> Seq<(u32, PtyView)> {
        self.ptys@.map_values(|e: (u32, Pty)| (e.0, e.1@))
    }

    pub open spec fn wf(&self) -> bool {
        keys_unique(self.entries())
    }

    /// The ptys by id.
    pub open spec fn view(&self) -> Map<u32, PtyView> {
        to_map(self.entries())
    }

    /// An empty table whose first pty gets id 1.
    pub fn new() -> (r: Self)
        ensures
            r.wf(),
            r.view() == Map::<u32, PtyView>::empty(),
            r.next_id == 1,
    {
        let r = PtyTable { ptys: Vec::new(), next_id: 1 };
        assert(r.view() =~= Map::<u32, PtyView>::empty());
        r
    }

    fn index_of(&self, id: u32) -> (r: Option<usize>)
        requires
            self.wf(),
        ensures
            r matches Some(i) ==> i < self.ptys@.len() && self.ptys@[i as int].0 == id
                && self.view().contains_key(id) && self.view()[id] == self.ptys@[i as int].1@,
            r is None <==> !self.view().contains_key(id),
    {
        let ghost es = self.entries();
        let mut i: usize = 0;
        while i < self.ptys.len()
            invariant
                es == self.entries(),
                es.len() == self.ptys@.len(),
                keys_unique(es),
                i <= es.len(),
                forall|j: int| 0 <= j < i ==> es[j].0 != id,
            decreases self.ptys.len() - i,
        {
            if self.ptys[i].0 == id {
                proof {
                    lemma_lookup_at(es, i as int);
                }
                return Some(i);
            }
            i = i + 1;
        }
        proof {
            lemma_lookup_none(es, id);
        }
        None
    }

    /// Moves the pty stored at `i` out, leaving an empty one under the
    /// same id until it is put back.
    fn take_pty(&mut self, i: usize) -> (p: Pty)
        requires
            old(self).wf(),
            i < old(self).ptys@.len(),
        ensures
            p == old(self).ptys@[i as int].1,
            final(self).wf(),
            final(self).next_id == old(self).next_id,
            final(self).view() == old(self).view().insert(old(self).ptys@[i as int].0, empty_pty_view()),
            final(self).ptys@.len() == old(self).ptys@.len(),
            final(self).ptys@[i as int].0 == old(self).ptys@[i as int].0,
    {
        let ghost es = self.entries();
        let id = self.ptys[i].0;
        let mut tmp = (id, Pty { master: ProcessId(0), slave: None, to_slave: Vec::new(), to_master: Vec::new() });
        let ghost tv = tmp.1@;
        self.ptys.set_and_swap(i, &mut tmp);
        proof {
            assert(tv =~= empty_pty_view());
            lemma_update_value(es, i as int, tv);
            assert(self.entries() =~= es.update(i as int, (es[i as int].0, tv)));
            assert(self.view() =~= to_map(es).insert(id, tv));
        }
        tmp.1
    }
}

/// The placeholder left while a pty is being updated.
pub open spec fn empty_pty_view() -> PtyView {
    PtyView { master: ProcessId(0), slave: None, to_slave: Seq::empty(), to_master: Seq::empty() }
}

/// Appends as much of `data` as fits; returns how many bytes were taken.
fn ring_push(ring: &mut Vec<u8>, data: &[u8]) -> (n: usize)
    ensures
        n == ring_room(old(ring)@.len() as int, data@.len() as int),
        final(ring)@ == ring_after_push(old(ring)@, data@),
{
    let space = if PTY_RING_CAP >= ring.len() { PTY_RING_CAP - ring.len() } else { 0 };
    let n = if space < data.len() { space } else { data.len() };
    let mut j: usize = 0;
    while j < n
        invariant
            n <= data@.len(),
            j <= n,
            ring@ == old(ring)@ + data@.subrange(0, j as int),
        decreases n - j,
    {
        ring.push(data[j]);
        assert(ring@ =~= old(ring)@ + data@.subrange(0, j + 1));
        j = j + 1;
    }
    n
}

/// Moves the oldest bytes of the ring into `out`; returns how many.
fn ring_pop(ring: &mut Vec<u8>, out: &mut [u8]) -> (n: usize)
    ensures
        n == pop_count(old(ring)@.len() as int, old(out)@.len() as int),
        final(out)@ == buffer_after(old(out)@, old(ring)@.subrange(0, n as int)),
        final(ring)@ == old(ring)@.subrange(n as int, old(ring)@.len() as int),
{
    let n = if ring.len() < out.len() { ring.len() } else { out.len() };
    let mut j: usize = 0;
    while j < n
        invariant
            n <= ring@.len(),
            n <= out@.len(),
            ring@ == old(ring)@,
            out@.len() == old(out)@.len(),
            j <= n,
            forall|m: int| 0 <= m < j ==> out@[m] == ring@[m],
            forall|m: int| j <= m < out@.len() ==> out@[m] == old(out)@[m],
        decreases n - j,
    {
        out[j] = ring[j];
        j = j + 1;
    }
    let mut rest: Vec<u8> = Vec::new();
    let mut k = n;
    while k < ring.len()
        invariant
            n <= k <= ring@.len(),
            ring@ == old(ring)@,
            rest@ == ring@.subrange(n as int, k as int),
        decreases ring.len() - k,
    {
        rest.push(ring[k]);
        assert(rest@ =~= ring@.subrange(n as int, k + 1));
        k = k + 1;
    }
    assert(out@ =~= buffer_after(old(out)@, old(ring)@.subrange(0, n as int)));
    *ring = rest;
    n
}


/// Whether `pid` is a live process of the table.
pub open spec fn process_alive(sys: ProcessSystem, pid: ProcessId) -> bool {
    has_pid(sys.table@, pid) && sys.table@[pid_index(sys.table@, pid)].owner is None
}

/// `id` is the smallest id of a pty whose slave is `pid`.
pub open spec fn is_min_slave(m: Map<u32, PtyView>, pid: ProcessId, id: u32) -> bool {
    &&& m.contains_key(id)
    &&& m[id].slave == Some(pid)
    &&& forall|k: u32| #[trigger] m.contains_key(k) && m[k].slave == Some(pid) ==> id <= k
}

/// The pty whose slave is `pid` (the one with the smallest id), if any.
pub open spec fn slave_pty(m: Map<u32, PtyView>, pid: ProcessId) -> Option<u32> {
    if exists|id: u32| is_min_slave(m, pid, id) {
        Some(choose|id: u32| is_min_slave(m, pid, id))
    } else {
        None
    }
}

/// Whether the pty `id` exists and belongs to `master`.
pub open spec fn owned_by(m: Map<u32, PtyView>, id: u32, master: ProcessId) -> bool {
    m.contains_key(id) && m[id].master == master
}

proof fn lemma_map_key_index(es: Seq<(u32, PtyView)>, k: u32)
    requires
        keys_unique(es),
        to_map(es).contains_key(k),
    ensures
        exists|j: int| 0 <= j < es.len() && es[j].0 == k && to_map(es)[k] == es[j].1,
{
    let j = choose|j: int| 0 <= j < es.len() && es[j].0 == k;
    lemma_lookup_at(es, j);
}

impl PtyTable {
    fn replace_at(&mut self, i: usize, p: Pty)
        requires
            old(self).wf(),
            i < old(self).ptys@.len(),
        ensures
            final(self).wf(),
            final(self).next_id == old(self).next_id,
            final(self).view() == old(self).view().insert(old(self).ptys@[i as int].0, p@),
            final(self).ptys@.len() == old(self).ptys@.len(),
    {
        let ghost es = self.entries();
        let id = self.ptys[i].0;
        let ghost pv = p@;
        self.ptys.set(i, (id, p));
        proof {
            lemma_update_value(es, i as int, pv);
            assert(self.entries() =~= es.update(i as int, (es[i as int].0, pv)));
            assert(self.view() =~= to_map(es).insert(id, pv));
        }
    }
}

/// Creates a pty owned by `master`; its id is the low 32 bits of the
/// counter, which then advances (wrapping).
pub fn create(t: &mut PtyTable, master: ProcessId) -> (id: u32)
    requires
        old(t).wf(),
    ensures
        final(t).wf(),
        id == old(t).next_id as u32,
        final(t).next_id == (if old(t).next_id == u64::MAX { 0 } else { (old(t).next_id + 1) as u64 }),
        final(t).view() == old(t).view().insert(id, PtyView { master, slave: None, to_slave: Seq::empty(), to_master: Seq::empty() }),
{
    let id = t.next_id as u32;
    t.next_id = if t.next_id == u64::MAX { 0 } else { t.next_id + 1 };
    let p = Pty { master, slave: None, to_slave: Vec::new(), to_master: Vec::new() };
    match t.index_of(id) {
        Some(i) => {
            t.replace_at(i, p);
        },
        None => {
            let ghost es = t.entries();
            let ghost pv = p@;
            t.ptys.push((id, p));
            proof {
                lemma_push(es, id, pv);
                assert(t.entries() =~= es.push((id, pv)));
                assert(t.view() =~= to_map(es).insert(id, pv));
            }
        },
    }
    proof {
        assert(p@ =~= PtyView { master, slave: None, to_slave: Seq::empty(), to_master: Seq::empty() });
    }
    id
}

/// Records `slave` as the child attached to `id`; refused (false) for an
/// unknown pty or one that `master` does not own.
pub fn attach_slave(t: &mut PtyTable, id: u32, master: ProcessId, slave: ProcessId) -> (ok: bool)
    requires
        old(t).wf(),
    ensures
        final(t).wf(),
        final(t).next_id == old(t).next_id,
        ok == owned_by(old(t).view(), id, master),
        ok ==> final(t).view() == old(t).view().insert(id, PtyView { slave: Some(slave), ..old(t).view()[id] }),
        !ok ==> final(t).view() == old(t).view(),
{
    match t.index_of(id) {
        Some(i) => {
            if t.ptys[i].1.master != master {
                return false;
            }
            let mut p = t.take_pty(i);
            p.slave = Some(slave);
            t.replace_at(i, p);
            proof {
                assert(t.view() =~= old(t).view().insert(id, PtyView { slave: Some(slave), ..old(t).view()[id] }));
            }
            true
        },
        None => false,
    }
}


/// Master to slave: queues keystrokes for the child's stdin. Returns how
/// many bytes the ring took, or `None` for an unknown pty or one that
/// `master` does not own.
pub fn master_write(t: &mut PtyTable, id: u32, master: ProcessId, data: &[u8]) -> (r: Option<usize>)
    requires
        old(t).wf(),
    ensures
        final(t).wf(),
        final(t).next_id == old(t).next_id,
        !owned_by(old(t).view(), id, master) ==> r is None && final(t).view() == old(t).view(),
        owned_by(old(t).view(), id, master) ==> ({
            let p = old(t).view()[id];
            &&& r == Some(ring_room(p.to_slave.len() as int, data@.len() as int) as usize)
            &&& final(t).view() == old(t).view().insert(id, PtyView { to_slave: ring_after_push(p.to_slave, data@), ..p })
        }),
{
    match t.index_of(id) {
        Some(i) => {
            if t.ptys[i].1.master != master {
                return None;
            }
            let mut p = t.take_pty(i);
            let n = ring_push(&mut p.to_slave, data);
            t.replace_at(i, p);
            proof {
                let q = old(t).view()[id];
                assert(t.view() =~= old(t).view().insert(id, PtyView { to_slave: ring_after_push(q.to_slave, data@), ..q }));
            }
            Some(n)
        },
        None => None,
    }
}

/// Master from slave: drains the child's output into `out`. Returns the
/// byte count and whether the slave is gone with nothing left to read, or
/// `None` for an unknown pty or one that `master` does not own.
pub fn master_read(t: &mut PtyTable, sys: &ProcessSystem, id: u32, master: ProcessId, out: &mut [u8]) -> (r: Option<(usize, bool)>)
    requires
        old(t).wf(),
        sys.wf(),
    ensures
        final(t).wf(),
        final(t).next_id == old(t).next_id,
        !owned_by(old(t).view(), id, master) ==> r is None && final(t).view() == old(t).view() && final(out)@ == old(out)@,
        owned_by(old(t).view(), id, master) ==> ({
            let p = old(t).view()[id];
            let n = pop_count(p.to_master.len() as int, old(out)@.len() as int);
            let rest = p.to_master.subrange(n, p.to_master.len() as int);
            let gone = match p.slave {
                Some(s) => !process_alive(*sys, s),
                None => false,
            };
            &&& r == Some((n as usize, gone && rest.len() == 0))
            &&& final(out)@ == buffer_after(old(out)@, p.to_master.subrange(0, n))
            &&& final(t).view() == old(t).view().insert(id, PtyView { to_master: rest, ..p })
        }),
{
    match t.index_of(id) {
        Some(i) => {
            if t.ptys[i].1.master != master {
                return None;
            }
            let mut p = t.take_pty(i);
            let n = ring_pop(&mut p.to_master, out);
            let slave_gone = match p.slave {
                Some(s) => !process_exists(sys, s),
                None => false,
            };
            let empty = p.to_master.len() == 0;
            t.replace_at(i, p);
            proof {
                let q = old(t).view()[id];
                let rest = q.to_master.subrange(n as int, q.to_master.len() as int);
                assert(t.view() =~= old(t).view().insert(id, PtyView { to_master: rest, ..q }));
            }
            Some((n, slave_gone && empty))
        },
        None => None,
    }
}

/// The master closes its pty; refused (false) for an unknown pty or one
/// that `master` does not own.
pub fn close(t: &mut PtyTable, id: u32, master: ProcessId) -> (ok: bool)
    requires
        old(t).wf(),
    ensures
        final(t).wf(),
        final(t).next_id == old(t).next_id,
        ok == owned_by(old(t).view(), id, master),
        ok ==> final(t).view() == old(t).view().remove(id),
        !ok ==> final(t).view() == old(t).view(),
{
    match t.index_of(id) {
        Some(i) => {
            if t.ptys[i].1.master != master {
                return false;
            }
            let ghost es = t.entries();
            t.ptys.remove(i);
            proof {
                lemma_remove(es, i as int);
                assert(t.entries() =~= es.remove(i as int));
                assert(t.view() =~= to_map(es).remove(id));
            }
            true
        },
        None => false,
    }
}

/// The id of the pty whose slave is `pid` (the smallest, should several
/// name it).
pub fn find_by_slave(t: &PtyTable, pid: ProcessId) -> (r: Option<u32>)
    requires
        t.wf(),
    ensures
        r == slave_pty(t.view(), pid),
{
    let ghost es = t.entries();
    let mut best: Option<u32> = None;
    let mut i: usize = 0;
    while i < t.ptys.len()
        invariant
            es == t.entries(),
            es.len() == t.ptys@.len(),
            keys_unique(es),
            i <= es.len(),
            best is None ==> forall|j: int| 0 <= j < i ==> es[j].1.slave != Some(pid),
            best matches Some(b) ==> (exists|j: int| 0 <= j < i && es[j].0 == b && es[j].1.slave == Some(pid))
                && forall|j: int| 0 <= j < i && es[j].1.slave == Some(pid) ==> b <= es[j].0,
        decreases t.ptys.len() - i,
    {
        proof {
            assert(es[i as int].0 == t.ptys@[i as int].0);
            assert(es[i as int].1.slave == t.ptys@[i as int].1.slave);
        }
        if t.ptys[i].1.slave == Some(pid) {
            let id = t.ptys[i].0;
            match best {
                Some(b) => {
                    if id < b {
                        best = Some(id);
                    }
                },
                None => {
                    best = Some(id);
                },
            }
        }
        i = i + 1;
    }
    let ghost m = t.view();
    proof {
        match best {
            Some(b) => {
                let j = choose|j: int| 0 <= j < es.len() && es[j].0 == b && es[j].1.slave == Some(pid);
                lemma_lookup_at(es, j);
                assert forall|k: u32| #[trigger] m.contains_key(k) && m[k].slave == Some(pid) implies b <= k by {
                    lemma_map_key_index(es, k);
                }
                assert(is_min_slave(m, pid, b));
                let c = choose|c: u32| is_min_slave(m, pid, c);
                assert(c <= b && b <= c);
            },
            None => {
                if exists|c: u32| is_min_slave(m, pid, c) {
                    let c = choose|c: u32| is_min_slave(m, pid, c);
                    lemma_map_key_index(es, c);
                }
            },
        }
    }
    best
}

/// Slave-side stdin read for process `pid`: `None` when `pid` is no pty's
/// slave; otherwise the bytes taken, or, with nothing queued, whether the
/// master is still alive (retry) or gone (end of input).
pub fn slave_read_stdin(t: &mut PtyTable, sys: &ProcessSystem, pid: ProcessId, out: &mut [u8]) -> (r: Option<SlaveRead>)
    requires
        old(t).wf(),
        sys.wf(),
    ensures
        final(t).wf(),
        final(t).next_id == old(t).next_id,
        slave_pty(old(t).view(), pid) is None ==> r is None && final(t).view() == old(t).view() && final(out)@ == old(out)@,
        slave_pty(old(t).view(), pid) matches Some(id) ==> ({
            let p = old(t).view()[id];
            let n = pop_count(p.to_slave.len() as int, old(out)@.len() as int);
            &&& final(out)@ == buffer_after(old(out)@, p.to_slave.subrange(0, n))
            &&& final(t).view() == old(t).view().insert(id, PtyView { to_slave: p.to_slave.subrange(n, p.to_slave.len() as int), ..p })
            &&& n > 0 ==> r == Some(SlaveRead::Data(n as usize))
            &&& n == 0 && process_alive(*sys, p.master) ==> r == Some(SlaveRead::WouldBlock)
            &&& n == 0 && !process_alive(*sys, p.master) ==> r == Some(SlaveRead::Eof)
        }),
{
    let id = match find_by_slave(t, pid) {
        Some(id) => id,
        None => return None,
    };
    let i = match t.index_of(id) {
        Some(i) => i,
        None => return None,
    };
    let mut p = t.take_pty(i);
    let n = ring_pop(&mut p.to_slave, out);
    let master = p.master;
    t.replace_at(i, p);
    proof {
        let q = old(t).view()[id];
        assert(t.view() =~= old(t).view().insert(id, PtyView { to_slave: q.to_slave.subrange(n as int, q.to_slave.len() as int), ..q }));
    }
    if n > 0 {
        return Some(SlaveRead::Data(n));
    }
    if process_exists(sys, master) {
        Some(SlaveRead::WouldBlock)
    } else {
        Some(SlaveRead::Eof)
    }
}

/// Slave-side stdout write for process `pid`: true when `pid` is a pty's
/// slave and the bytes went to its master's ring (as many as fit).
pub fn slave_write_stdout(t: &mut PtyTable, pid: ProcessId, data: &[u8]) -> (routed: bool)
    requires
        old(t).wf(),
    ensures
        final(t).wf(),
        final(t).next_id == old(t).next_id,
        routed == (slave_pty(old(t).view(), pid) is Some),
        slave_pty(old(t).view(), pid) is None ==> final(t).view() == old(t).view(),
        slave_pty(old(t).view(), pid) matches Some(id) ==> final(t).view() == old(t).view().insert(
            id,
            PtyView { to_master: ring_after_push(old(t).view()[id].to_master, data@), ..old(t).view()[id] },
        ),
{
    let id = match find_by_slave(t, pid) {
        Some(id) => id,
        None => return false,
    };
    let i = match t.index_of(id) {
        Some(i) => i,
        None => return false,
    };
    let mut p = t.take_pty(i);
    let _ = ring_push(&mut p.to_master, data);
    t.replace_at(i, p);
    proof {
        let q = old(t).view()[id];
        assert(t.view() =~= old(t).view().insert(id, PtyView { to_master: ring_after_push(q.to_master, data@), ..q }));
    }
    true
}

/// The ptys that survive the exit of `pid`: those it did not own.
pub open spec fn survivors(m: Map<u32, PtyView>, pid: ProcessId) -> Map<u32, PtyView> {
    Map::new(|k: u32| m.contains_key(k) && m[k].master != pid, |k: u32| m[k])
}

/// Exit hook: drops every pty that `pid` owned.
pub fn on_process_exit(t: &mut PtyTable, pid: ProcessId)
    requires
        old(t).wf(),
    ensures
        final(t).wf(),
        final(t).next_id == old(t).next_id,
        final(t).view() == survivors(old(t).view(), pid),
{
    let ghost m0 = old(t).view();
    loop
        invariant
            t.wf(),
            t.next_id == old(t).next_id,
            m0 == old(t).view(),
            forall|k: u32| #[trigger] t.view().contains_key(k) ==> m0.contains_key(k) && t.view()[k] == m0[k],
            forall|k: u32| #[trigger] m0.contains_key(k) && m0[k].master != pid ==> t.view().contains_key(k),
        ensures
            t.wf(),
            t.next_id == old(t).next_id,
            t.view() == survivors(m0, pid),
        decreases t.ptys@.len(),
    {
        let ghost es = t.entries();
        let mut found: Option<usize> = None;
        let mut i: usize = 0;
        while i < t.ptys.len()
            invariant
                es == t.entries(),
                es.len() == t.ptys@.len(),
                i <= es.len(),
                found matches Some(j) ==> j < es.len() && es[j as int].1.master == pid,
                found is None ==> forall|j: int| 0 <= j < i ==> es[j].1.master != pid,
            decreases t.ptys.len() - i,
        {
            proof {
                assert(es[i as int].1.master == t.ptys@[i as int].1.master);
            }
            if found.is_none() && t.ptys[i].1.master == pid {
                found = Some(i);
            }
            i = i + 1;
        }
        match found {
            Some(j) => {
                let ghost k = es[j as int].0;
                t.ptys.remove(j);
                proof {
                    lemma_remove(es, j as int);
                    assert(t.entries() =~= es.remove(j as int));
                    lemma_lookup_at(es, j as int);
                    assert forall|k2: u32| #[trigger] t.view().contains_key(k2) implies m0.contains_key(k2) && t.view()[k2] == m0[k2] by {
                        assert(to_map(es).contains_key(k2));
                    }
                    assert forall|k2: u32| #[trigger] m0.contains_key(k2) && m0[k2].master != pid implies t.view().contains_key(k2) by {
                        assert(to_map(es).contains_key(k2));
                        if k2 == k {
                            assert(to_map(es)[k2] == m0[k2]);
                        }
                    }
                }
            },
            None => {
                proof {
                    assert forall|k: u32| #[trigger] t.view().contains_key(k) implies t.view()[k].master != pid by {
                        lemma_map_key_index(es, k);
                    }
                    assert(t.view() =~= survivors(m0, pid));
                }
                break;
            },
        }
    }
}

} // verus!
