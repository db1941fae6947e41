//! Message queues between processes and the registry of shared memory
//! regions. Each process has a bounded FIFO queue of fixed-size messages.
use vstd::prelude::*;
use crate::assoc::{keys_unique, has_key, to_map, lemma_lookup_at, lemma_lookup_none, lemma_push, lemma_remove, lemma_update_value};
use crate::memory::pmm::{PhysicalAddress, PhysicalMemoryManager, holds_frames};
use crate::process::ProcessId;

verus! {

pub const MAX_MESSAGE_SIZE: usize = 256;
pub const MAX_QUEUE_MESSAGES: usize = 128;

#[derive(Debug, Clone, Copy, PartialEq, Eq, PartialOrd, Ord, Hash, Structural)]
pub struct SharedMemoryId(pub u64);

pub struct SharedMemoryRegion {
    pub id: SharedMemoryId,
    pub physical_addr: u64,
    pub size: usize,
    pub owners: Vec<ProcessId>,
}

impl SharedMemoryRegion {
    pub fn new(id: SharedMemoryId, physical_addr: u64, size: usize) -> (r: Self)
        ensures
            r.id == id,
            r.physical_addr == physical_addr,
            r.size == size,
            r.owners@ == Seq::<ProcessId>::empty(),
    {
        SharedMemoryRegion { id, physical_addr, size, owners: Vec::new() }
    }

    /// Adds `pid` to the owners unless it is one already.
    pub fn add_owner(&mut self, pid: ProcessId)
        ensures
            final(self).id == old(self).id,
            final(self).physical_addr == old(self).physical_addr,
            final(self).size == old(self).size,
            final(self).owners@ == if old(self).owners@.contains(pid) {
                old(self).owners@
            } else {
                old(self).owners@.push(pid)
            },
    {
        let mut i: usize = 0;
        while i < self.owners.len()
            invariant
                i <= self.owners@.len(),
                forall|j: int| 0 <= j < i ==> self.owners@[j] != pid,
            decreases self.owners@.len() - i,
        {
            if self.owners[i] == pid {
                return;
            }
            i = i + 1;
        }
        self.owners.push(pid);
    }

    /// Removes every occurrence of `pid` from the owners.
    pub fn remove_owner(&mut self, pid: ProcessId)
        ensures
            final(self).id == old(self).id,
            final(self).physical_addr == old(self).physical_addr,
            final(self).size == old(self).size,
            final(self).owners@ == old(self).owners@.filter(|p: ProcessId| p != pid),
    {
        let mut kept: Vec<ProcessId> = Vec::new();
        let mut i: usize = 0;
        while i < self.owners.len()
            invariant
                i <= self.owners@.len(),
                kept@ == self.owners@.subrange(0, i as int).filter(|p: ProcessId| p != pid),
            decreases self.owners@.len() - i,
        {
            let p = self.owners[i];
            proof {
                let s = self.owners@.subrange(0, i as int + 1);
                assert(s.drop_last() =~= self.owners@.subrange(0, i as int));
                assert(s.last() == p);
                assert(s.filter(|p: ProcessId| p != pid) == if p != pid {
                    s.drop_last().filter(|p: ProcessId| p != pid).push(p)
                } else {
                    s.drop_last().filter(|p: ProcessId| p != pid)
                }) by {
                    reveal_with_fuel(Seq::filter, 1);
                }
            }
            if p != pid {
                kept.push(p);
            }
            i = i + 1;
        }
        proof {
            assert(self.owners@.subrange(0, self.owners@.len() as int) =~= self.owners@);
        }
        self.owners = kept;
    }
}

#[derive(Debug, Clone, Copy)]
pub enum MessageType {
    MouseEvent { x: i32, y: i32, buttons: u8 },
    KeyboardEvent { scancode: u8, pressed: bool },
    RenderFrame { buffer_id: u64 },
    WindowCreate { width: u32, height: u32 },
    WindowClose { window_id: u32 },
}

/// Every message of `q` holds at most a buffer's worth of bytes.
pub open spec fn messages_fit(q: Seq<Message>) -> bool {
    forall|j: int| 0 <= j < q.len() ==> (#[trigger] q[j]).len <= MAX_MESSAGE_SIZE
}

#[derive(Debug, Clone)]
pub struct Message {
    pub sender: ProcessId,
    pub msg_type: MessageType,
    pub len: usize,
    pub data: [u8; MAX_MESSAGE_SIZE],
}

impl Message {
    /// An empty message.
    pub fn new(sender: ProcessId, msg_type: MessageType) -> (r: Self)
        ensures
            r.sender == sender,
            r.msg_type == msg_type,
            r.len == 0,
            forall|i: int| 0 <= i < MAX_MESSAGE_SIZE ==> r.data@[i] == 0,
    {
        Message { sender, msg_type, len: 0, data: [0u8; MAX_MESSAGE_SIZE] }
    }

    /// A message carrying the first `MAX_MESSAGE_SIZE` bytes of `data`.
    pub fn with_data(sender: ProcessId, msg_type: MessageType, data: &[u8]) -> (r: Self)
        ensures
            r.sender == sender,
            r.msg_type == msg_type,
            r.len == (if data@.len() < MAX_MESSAGE_SIZE { data@.len() } else { MAX_MESSAGE_SIZE as nat }),
            r.data@.subrange(0, r.len as int) == data@.subrange(0, r.len as int),
            forall|i: int| r.len <= i < MAX_MESSAGE_SIZE ==> r.data@[i] == 0,
    {
        let mut msg = Message::new(sender, msg_type);
        let len = if data.len() < MAX_MESSAGE_SIZE { data.len() } else { MAX_MESSAGE_SIZE };
        let mut i: usize = 0;
        while i < len
            invariant
                len <= data@.len(),
                len <= MAX_MESSAGE_SIZE,
                i <= len,
                msg.sender == sender,
                msg.msg_type == msg_type,
                msg.len == 0,
                msg.data@.len() == MAX_MESSAGE_SIZE,
                forall|j: int| 0 <= j < i ==> msg.data@[j] == data@[j],
                forall|j: int| i <= j < MAX_MESSAGE_SIZE ==> msg.data@[j] == 0,
            decreases len - i,
        {
            msg.data[i] = data[i];
            i = i + 1;
        }
        msg.len = len;
        proof {
            assert(msg.data@.subrange(0, len as int) =~= data@.subrange(0, len as int));
        }
        msg
    }
}

#[derive(Debug, Clone, Copy, PartialEq, Eq, Structural)]
pub enum IpcError {
    InvalidTarget,
    MessageTooLarge,
    QueueFull,
    NoMessage,
    Unavailable,
}

#[derive(Debug, Clone, Copy, Default)]
pub struct IpcStats {
    pub queue_count: u64,
    pub queued_messages: u64,
    pub shared_regions: u64,
    pub max_queue_messages: u64,
}

/// Shared regions keyed by id and one message queue per receiving process.
pub struct IpcManager {
    shared_regions: Vec<(SharedMemoryId, SharedMemoryRegion)>,
    message_queues: Vec<(ProcessId, Vec<Message>)>,
    next_shared_id: u64,
}

/// Total number of messages over all queues.
pub open spec fn queued_total(qs: Seq<(ProcessId, Vec<Message>)>) -> int
    decreases qs.len(),
{
    if qs.len() == 0 {
        0
    } else {
        queued_total(qs.drop_last()) + qs.last().1@.len()
    }
}

/// The messages waiting for `t`, oldest first (none when it has no queue).
pub open spec fn queue_of(qs: Map<ProcessId, Seq<Message>>, t: ProcessId) -> Seq<Message> {
    if qs.contains_key(t) { qs[t] } else { Seq::empty() }
}

/// The queues after `msg` is appended to the queue of `t`.
pub open spec fn sent_to(qs: Map<ProcessId, Seq<Message>>, t: ProcessId, msg: Message) -> Map<ProcessId, Seq<Message>> {
    qs.insert(t, queue_of(qs, t).push(msg))
}

/// What a receive for `t` returns, and the queues after it: the oldest
/// message, taken off its queue, or nothing when the queue is empty.
pub open spec fn taken_from(qs: Map<ProcessId, Seq<Message>>, t: ProcessId) -> (Option<Message>, Map<ProcessId, Seq<Message>>) {
    if queue_of(qs, t).len() == 0 {
        (None, qs)
    } else {
        (Some(qs[t][0]), qs.insert(t, qs[t].drop_first()))
    }
}

/// The messages that `n` receives for `t` in a row return.
pub open spec fn received(qs: Map<ProcessId, Seq<Message>>, t: ProcessId, n: nat) -> Seq<Message>
    decreases n,
{
    if n == 0 {
        Seq::empty()
    } else {
        match taken_from(qs, t).0 {
            Some(m) => seq![m] + received(taken_from(qs, t).1, t, (n - 1) as nat),
            None => Seq::empty(),
        }
    }
}

/// `n` receives in a row return the `n` oldest messages, oldest first.
proof fn lemma_received_prefix(qs: Map<ProcessId, Seq<Message>>, t: ProcessId, n: nat)
    requires
        n <= queue_of(qs, t).len(),
    ensures
        received(qs, t, n) == queue_of(qs, t).subrange(0, n as int),
    decreases n,
{
    if n > 0 {
        let q = queue_of(qs, t);
        let q1 = taken_from(qs, t).1;
        assert(queue_of(q1, t) == q.drop_first());
        lemma_received_prefix(q1, t, (n - 1) as nat);
        assert(seq![q[0]] + q.drop_first().subrange(0, n - 1) =~= q.subrange(0, n as int));
    }
}

/// Message queues are first in, first out: after `msg` is sent to `t`,
/// whose queue holds `k` messages, the next `k + 1` receives for `t`
/// return those `k` messages in their order and then `msg`.
pub proof fn law_send_then_receive(qs: Map<ProcessId, Seq<Message>>, t: ProcessId, msg: Message)
    ensures
        received(sent_to(qs, t, msg), t, queue_of(qs, t).len() + 1) == queue_of(qs, t).push(msg),
{
    let q2 = sent_to(qs, t, msg);
    assert(queue_of(q2, t) == queue_of(qs, t).push(msg));
    lemma_received_prefix(q2, t, queue_of(qs, t).len() + 1);
    assert(queue_of(qs, t).push(msg).subrange(0, queue_of(qs, t).len() as int + 1) =~= queue_of(qs, t).push(msg));
}

impl IpcManager {
    /// The queues as a map from receiver to its messages, oldest first.
    pub closed spec fn queues(&self) -> Map<ProcessId, Seq<Message>> {
        to_map(self.message_queues@).map_values(|q: Vec<Message>| q@)
    }

    /// The shared regions by id.
    pub closed spec fn regions(&self) -> Map<SharedMemoryId, SharedMemoryRegion> {
        to_map(self.shared_regions@)
    }

    pub closed spec fn spec_next_shared_id(&self) -> u64 {
        self.next_shared_id
    }

    pub closed spec fn spec_queue_count(&self) -> nat {
        self.message_queues@.len()
    }

    pub closed spec fn spec_queued_messages(&self) -> int {
        queued_total(self.message_queues@)
    }

    pub closed spec fn spec_region_count(&self) -> nat {
        self.shared_regions@.len()
    }

    pub closed spec fn wf(&self) -> bool {
        &&& keys_unique(self.shared_regions@)
        &&& keys_unique(self.message_queues@)
        &&& forall|i: int| 0 <= i < self.message_queues@.len() ==>
            (#[trigger] self.message_queues@[i]).1@.len() <= MAX_QUEUE_MESSAGES
        &&& forall|i: int| 0 <= i < self.message_queues@.len() ==> messages_fit((#[trigger] self.message_queues@[i]).1@)
        &&& forall|i: int| 0 <= i < self.shared_regions@.len() ==>
            (#[trigger] self.shared_regions@[i]).0.0 < self.next_shared_id
    }

    pub fn new() -> (r: Self)
        ensures
            r.wf(),
            r.queues() == Map::<ProcessId, Seq<Message>>::empty(),
            r.regions() == Map::<SharedMemoryId, SharedMemoryRegion>::empty(),
            r.spec_next_shared_id() == 1,
    {
        let r = IpcManager { shared_regions: Vec::new(), message_queues: Vec::new(), next_shared_id: 1 };
        proof {
            assert(r.queues() =~= Map::<ProcessId, Seq<Message>>::empty());
            assert(r.regions() =~= Map::<SharedMemoryId, SharedMemoryRegion>::empty());
        }
        r
    }

    fn find_queue(&self, pid: ProcessId) -> (r: Option<usize>)
        requires
            self.wf(),
        ensures
            r matches Some(i) ==> i < self.message_queues@.len() && self.message_queues@[i as int].0 == pid
                && self.queues().contains_key(pid) && self.queues()[pid] == self.message_queues@[i as int].1@,
            r is None <==> !self.queues().contains_key(pid),
    {
        let mut i: usize = 0;
        while i < self.message_queues.len()
            invariant
                i <= self.message_queues@.len(),
                keys_unique(self.message_queues@),
                forall|j: int| 0 <= j < i ==> self.message_queues@[j].0 != pid,
            decreases self.message_queues@.len() - i,
        {
            if self.message_queues[i].0 == pid {
                proof {
                    lemma_lookup_at(self.message_queues@, i as int);
                }
                return Some(i);
            }
            i = i + 1;
        }
        proof {
            lemma_lookup_none(self.message_queues@, pid);
        }
        None
    }

    fn find_region(&self, id: SharedMemoryId) -> (r: Option<usize>)
        requires
            self.wf(),
        ensures
            r matches Some(i) ==> i < self.shared_regions@.len() && self.shared_regions@[i as int].0 == id
                && self.regions().contains_key(id) && self.regions()[id] == self.shared_regions@[i as int].1,
            r is None <==> !self.regions().contains_key(id),
    {
        let mut i: usize = 0;
        while i < self.shared_regions.len()
            invariant
                i <= self.shared_regions@.len(),
                keys_unique(self.shared_regions@),
                forall|j: int| 0 <= j < i ==> self.shared_regions@[j].0 != id,
            decreases self.shared_regions@.len() - i,
        {
            if self.shared_regions[i].0 == id {
                proof {
                    lemma_lookup_at(self.shared_regions@, i as int);
                }
                return Some(i);
            }
            i = i + 1;
        }
        proof {
            lemma_lookup_none(self.shared_regions@, id);
        }
        None
    }

    /// Allocates the frames of a region of `size` bytes and registers it
    /// under a fresh id at the address of its first frame. `None` when the
    /// pool has too few free frames; the pool is then unchanged.
    pub fn create_shared_memory(&mut self, size: usize, pmm: &mut PhysicalMemoryManager) -> (r: Option<SharedMemoryId>)
        requires
            old(self).wf(),
            old(pmm).wf(),
            0 < size <= usize::MAX - 4095,
            old(self).spec_next_shared_id() < u64::MAX,
        ensures
            final(self).wf(),
            final(pmm).wf(),
            final(self).queues() == old(self).queues(),
            r is Some <==> (size + 4095) / 4096 <= old(pmm).spec_free_frames(),
            r matches Some(id) ==> {
                &&& id.0 == old(self).spec_next_shared_id()
                &&& !old(self).regions().contains_key(id)
                &&& final(self).regions().contains_key(id)
                &&& final(self).regions()[id].size == size
                &&& final(self).regions()[id].id == id
                &&& final(self).regions()[id].owners@.len() == 0
                &&& forall|k: SharedMemoryId| k != id ==> #[trigger] final(self).regions().contains_key(k) == old(self).regions().contains_key(k)
                &&& final(self).spec_next_shared_id() == old(self).spec_next_shared_id() + 1
                &&& final(pmm).spec_free_frames() + (size + 4095) / 4096 == old(pmm).spec_free_frames()
            },
            r is None ==> final(self).regions() == old(self).regions()
                && final(pmm).spec_free_frames() == old(pmm).spec_free_frames(),
    {
        let num_pages = (size + 4095) / 4096;
        let frames = match pmm.alloc_frames(num_pages) {
            Some(f) => f,
            None => return None,
        };
        let id = SharedMemoryId(self.next_shared_id);
        let physical_addr = frames[0].0 as u64;
        let region = SharedMemoryRegion::new(id, physical_addr, size);
        proof {
            assert(!has_key(self.shared_regions@, id)) by {
                if has_key(self.shared_regions@, id) {
                    let i = choose|i: int| 0 <= i < self.shared_regions@.len() && self.shared_regions@[i].0 == id;
                    assert(self.shared_regions@[i].0.0 < self.next_shared_id);
                }
            }
            lemma_push(self.shared_regions@, id, region);
        }
        self.shared_regions.push((id, region));
        self.next_shared_id = self.next_shared_id + 1;
        proof {
            assert forall|i: int| 0 <= i < self.shared_regions@.len() implies
                (#[trigger] self.shared_regions@[i]).0.0 < self.next_shared_id by {
                if i < old(self).shared_regions@.len() {
                    assert(self.shared_regions@[i] == old(self).shared_regions@[i]);
                }
            }
            assert(self.queues() =~= old(self).queues());
        }
        Some(id)
    }

    /// Adds `pid` to the owners of region `id`; its address, if it exists.
    pub fn attach_shared_memory(&mut self, id: SharedMemoryId, pid: ProcessId) -> (r: Option<u64>)
        requires
            old(self).wf(),
        ensures
            final(self).wf(),
            final(self).queues() == old(self).queues(),
            !old(self).regions().contains_key(id) ==> r is None && final(self).regions() == old(self).regions(),
            old(self).regions().contains_key(id) ==> {
                let reg = old(self).regions()[id];
                &&& r == Some(reg.physical_addr)
                &&& final(self).regions().dom() == old(self).regions().dom()
                &&& final(self).regions()[id].physical_addr == reg.physical_addr
                &&& final(self).regions()[id].size == reg.size
                &&& final(self).regions()[id].owners@.contains(pid)
                &&& final(self).regions()[id].owners@ == if reg.owners@.contains(pid) { reg.owners@ } else { reg.owners@.push(pid) }
                &&& forall|k: SharedMemoryId| k != id && #[trigger] old(self).regions().contains_key(k) ==>
                    final(self).regions()[k] == old(self).regions()[k]
            },
    {
        match self.find_region(id) {
            None => None,
            Some(i) => {
                let (rid, mut region) = self.shared_regions.remove(i);
                proof {
                    assert(region == old(self).regions()[id]);
                }
                let ghost owners0 = region.owners@;
                region.add_owner(pid);
                proof {
                    if !owners0.contains(pid) {
                        assert(region.owners@[owners0.len() as int] == pid);
                    }
                }
                let addr = region.physical_addr;
                self.shared_regions.insert(i, (rid, region));
                proof {
                    assert(self.shared_regions@ == old(self).shared_regions@.update(i as int, (id, region)));
                    lemma_update_value(old(self).shared_regions@, i as int, region);
                    assert forall|j: int| 0 <= j < self.shared_regions@.len() implies
                        (#[trigger] self.shared_regions@[j]).0.0 < self.next_shared_id by {
                        assert(self.shared_regions@[j].0 == old(self).shared_regions@[j].0);
                    }
                    assert(self.regions().dom() =~= old(self).regions().dom());
                    assert(self.queues() =~= old(self).queues());
                }
                Some(addr)
            },
        }
    }

    /// Removes `pid` from the owners of region `id`, dropping the region
    /// when no owner is left.
    pub fn detach_shared_memory(&mut self, id: SharedMemoryId, pid: ProcessId)
        requires
            old(self).wf(),
        ensures
            final(self).wf(),
            final(self).queues() == old(self).queues(),
            !old(self).regions().contains_key(id) ==> final(self).regions() == old(self).regions(),
            old(self).regions().contains_key(id) ==> {
                let left = old(self).regions()[id].owners@.filter(|p: ProcessId| p != pid);
                &&& left.len() == 0 ==> final(self).regions() == old(self).regions().remove(id)
                &&& left.len() > 0 ==> final(self).regions().dom() == old(self).regions().dom()
                    && final(self).regions()[id].owners@ == left
                    && final(self).regions()[id].physical_addr == old(self).regions()[id].physical_addr
                    && final(self).regions()[id].size == old(self).regions()[id].size
                    && forall|k: SharedMemoryId| k != id && #[trigger] old(self).regions().contains_key(k) ==>
                        final(self).regions()[k] == old(self).regions()[k]
            },
    {
        match self.find_region(id) {
            None => {},
            Some(i) => {
                let (rid, mut region) = self.shared_regions.remove(i);
                region.remove_owner(pid);
                if region.owners.len() == 0 {
                    proof {
                        lemma_remove(old(self).shared_regions@, i as int);
                        assert forall|j: int| 0 <= j < self.shared_regions@.len() implies
                            (#[trigger] self.shared_regions@[j]).0.0 < self.next_shared_id by {
                            let k = if j < i { j } else { j + 1 };
                            assert(self.shared_regions@[j] == old(self).shared_regions@[k]);
                        }
                        assert(self.regions() =~= old(self).regions().remove(id));
                        assert(self.queues() =~= old(self).queues());
                    }
                } else {
                    self.shared_regions.insert(i, (rid, region));
                    proof {
                        assert(self.shared_regions@ == old(self).shared_regions@.update(i as int, (id, region)));
                        lemma_update_value(old(self).shared_regions@, i as int, region);
                        assert forall|j: int| 0 <= j < self.shared_regions@.len() implies
                            (#[trigger] self.shared_regions@[j]).0.0 < self.next_shared_id by {
                            assert(self.shared_regions@[j].0 == old(self).shared_regions@[j].0);
                        }
                        assert(self.regions().dom() =~= old(self).regions().dom());
                        assert(self.queues() =~= old(self).queues());
                    }
                }
            },
        }
    }

    pub fn get_shared_region(&self, id: SharedMemoryId) -> (r: Option<&SharedMemoryRegion>)
        requires
            self.wf(),
        ensures
            self.regions().contains_key(id) ==> r == Some(&self.regions()[id]),
            !self.regions().contains_key(id) ==> r is None,
    {
        match self.find_region(id) {
            Some(i) => Some(&self.shared_regions[i].1),
            None => None,
        }
    }

    /// Appends `msg` to the queue of `target` (created when missing).
    /// `target_exists` says whether `target` is a live process.
    pub fn send_message(&mut self, target: ProcessId, msg: Message, target_exists: bool) -> (r: Result<(), IpcError>)
        requires
            old(self).wf(),
            msg.len <= MAX_MESSAGE_SIZE,
        ensures
            final(self).wf(),
            final(self).regions() == old(self).regions(),
            !target_exists ==> r == Err::<(), IpcError>(IpcError::InvalidTarget) && final(self).queues() == old(self).queues(),
            target_exists && old(self).queues().contains_key(target)
                && old(self).queues()[target].len() >= MAX_QUEUE_MESSAGES ==>
                r == Err::<(), IpcError>(IpcError::QueueFull) && final(self).queues() == old(self).queues(),
            target_exists && !(old(self).queues().contains_key(target)
                && old(self).queues()[target].len() >= MAX_QUEUE_MESSAGES) ==>
                r is Ok && final(self).queues() == old(self).queues().insert(target,
                    if old(self).queues().contains_key(target) { old(self).queues()[target].push(msg) } else { seq![msg] }),
            r is Ok ==> final(self).queues() == sent_to(old(self).queues(), target, msg),
    {
        if !target_exists {
            return Err(IpcError::InvalidTarget);
        }
        match self.find_queue(target) {
            Some(i) => {
                if self.message_queues[i].1.len() >= MAX_QUEUE_MESSAGES {
                    return Err(IpcError::QueueFull);
                }
                let (pid, mut queue) = self.message_queues.remove(i);
                queue.push(msg);
                self.message_queues.insert(i, (pid, queue));
                proof {
                    assert(self.message_queues@ == old(self).message_queues@.update(i as int, (target, queue)));
                    lemma_update_value(old(self).message_queues@, i as int, queue);
                    assert forall|j: int| 0 <= j < self.message_queues@.len() implies
                        (#[trigger] self.message_queues@[j]).1@.len() <= MAX_QUEUE_MESSAGES by {
                        if j != i {
                            assert(self.message_queues@[j] == old(self).message_queues@[j]);
                        }
                    }
                    assert(self.queues() =~= old(self).queues().insert(target, old(self).queues()[target].push(msg)));
                }
                Ok(())
            },
            None => {
                let mut queue: Vec<Message> = Vec::new();
                queue.push(msg);
                proof {
                    lemma_push(self.message_queues@, target, queue);
                }
                self.message_queues.push((target, queue));
                proof {
                    assert forall|j: int| 0 <= j < self.message_queues@.len() implies
                        (#[trigger] self.message_queues@[j]).1@.len() <= MAX_QUEUE_MESSAGES by {
                        if j < old(self).message_queues@.len() {
                            assert(self.message_queues@[j] == old(self).message_queues@[j]);
                        }
                    }
                    assert(self.queues() =~= old(self).queues().insert(target, seq![msg]));
                }
                Ok(())
            },
        }
    }

    /// Takes the oldest message of `pid`'s queue.
    pub fn receive_message(&mut self, pid: ProcessId) -> (r: Option<Message>)
        requires
            old(self).wf(),
        ensures
            final(self).wf(),
            final(self).regions() == old(self).regions(),
            !old(self).queues().contains_key(pid) || old(self).queues()[pid].len() == 0 ==>
                r is None && final(self).queues() == old(self).queues(),
            old(self).queues().contains_key(pid) && old(self).queues()[pid].len() > 0 ==>
                r == Some(old(self).queues()[pid][0])
                && final(self).queues() == old(self).queues().insert(pid, old(self).queues()[pid].drop_first()),
            r == taken_from(old(self).queues(), pid).0,
            final(self).queues() == taken_from(old(self).queues(), pid).1,
    {
        match self.find_queue(pid) {
            None => None,
            Some(i) => {
                if self.message_queues[i].1.len() == 0 {
                    return None;
                }
                let (p, mut queue) = self.message_queues.remove(i);
                let msg = queue.remove(0);
                self.message_queues.insert(i, (p, queue));
                proof {
                    assert(self.message_queues@ == old(self).message_queues@.update(i as int, (pid, queue)));
                    lemma_update_value(old(self).message_queues@, i as int, queue);
                    assert forall|j: int| 0 <= j < self.message_queues@.len() implies
                        (#[trigger] self.message_queues@[j]).1@.len() <= MAX_QUEUE_MESSAGES by {
                        if j != i {
                            assert(self.message_queues@[j] == old(self).message_queues@[j]);
                        }
                    }
                    assert(queue@ =~= old(self).queues()[pid].drop_first());
                    assert(self.queues() =~= old(self).queues().insert(pid, old(self).queues()[pid].drop_first()));
                }
                Some(msg)
            },
        }
    }

    pub fn has_messages(&self, pid: ProcessId) -> (r: bool)
        requires
            self.wf(),
        ensures
            r == (self.queues().contains_key(pid) && self.queues()[pid].len() > 0),
    {
        match self.find_queue(pid) {
            None => false,
            Some(i) => self.message_queues[i].1.len() > 0,
        }
    }

    /// Drops `pid`'s queue.
    pub fn clear_messages(&mut self, pid: ProcessId)
        requires
            old(self).wf(),
        ensures
            final(self).wf(),
            final(self).regions() == old(self).regions(),
            final(self).queues() == old(self).queues().remove(pid),
            final(self).spec_next_shared_id() == old(self).spec_next_shared_id(),
    {
        match self.find_queue(pid) {
            None => {
                proof {
                    assert(self.queues() =~= old(self).queues().remove(pid));
                }
            },
            Some(i) => {
                proof {
                    lemma_remove(self.message_queues@, i as int);
                }
                self.message_queues.remove(i);
                proof {
                    assert forall|j: int| 0 <= j < self.message_queues@.len() implies
                        (#[trigger] self.message_queues@[j]).1@.len() <= MAX_QUEUE_MESSAGES by {
                        let k = if j < i { j } else { j + 1 };
                        assert(self.message_queues@[j] == old(self).message_queues@[k]);
                    }
                    assert(self.queues() =~= old(self).queues().remove(pid));
                }
            },
        }
    }

    /// Queue, message and region counts.
    pub fn stats(&self) -> (r: IpcStats)
        requires
            self.wf(),
            self.spec_queue_count() * MAX_QUEUE_MESSAGES <= u64::MAX,
        ensures
            r.queue_count == self.spec_queue_count(),
            r.queued_messages == self.spec_queued_messages(),
            r.shared_regions == self.spec_region_count(),
            r.max_queue_messages == MAX_QUEUE_MESSAGES,
    {
        let mut queued: u64 = 0;
        let mut i: usize = 0;
        while i < self.message_queues.len()
            invariant
                i <= self.message_queues@.len(),
                forall|j: int| 0 <= j < self.message_queues@.len() ==>
                    (#[trigger] self.message_queues@[j]).1@.len() <= MAX_QUEUE_MESSAGES,
                queued == queued_total(self.message_queues@.subrange(0, i as int)),
                queued <= i * MAX_QUEUE_MESSAGES,
                self.message_queues@.len() * MAX_QUEUE_MESSAGES <= u64::MAX,
            decreases self.message_queues@.len() - i,
        {
            proof {
                let s = self.message_queues@.subrange(0, i as int + 1);
                assert(s.drop_last() =~= self.message_queues@.subrange(0, i as int));
            }
            queued = queued + self.message_queues[i].1.len() as u64;
            i = i + 1;
        }
        proof {
            assert(self.message_queues@.subrange(0, self.message_queues@.len() as int) =~= self.message_queues@);
        }
        IpcStats {
            queue_count: self.message_queues.len() as u64,
            queued_messages: queued,
            shared_regions: self.shared_regions.len() as u64,
            max_queue_messages: MAX_QUEUE_MESSAGES as u64,
        }
    }
}

/// Sends `data` from `sender` to `target` as one message; the payload must
/// be between 1 and `MAX_MESSAGE_SIZE` bytes.
pub fn send_bytes(manager: &mut IpcManager, sender: ProcessId, target: ProcessId, data: &[u8], target_exists: bool) -> (r: Result<(), IpcError>)
    requires
        old(manager).wf(),
    ensures
        final(manager).wf(),
        data@.len() == 0 || data@.len() > MAX_MESSAGE_SIZE ==>
            r == Err::<(), IpcError>(IpcError::MessageTooLarge) && final(manager).queues() == old(manager).queues(),
        0 < data@.len() <= MAX_MESSAGE_SIZE && !target_exists ==> r == Err::<(), IpcError>(IpcError::InvalidTarget),
        0 < data@.len() <= MAX_MESSAGE_SIZE && target_exists && old(manager).queues().contains_key(target)
            && old(manager).queues()[target].len() >= MAX_QUEUE_MESSAGES ==>
            r == Err::<(), IpcError>(IpcError::QueueFull),
        r is Ok ==> {
            let q = final(manager).queues()[target];
            &&& final(manager).queues().contains_key(target)
            &&& q.len() >= 1
            &&& q.last().sender == sender
            &&& q.last().len == data@.len()
            &&& q.last().data@.subrange(0, data@.len() as int) == data@
            &&& q.drop_last() == if old(manager).queues().contains_key(target) { old(manager).queues()[target] } else { Seq::<Message>::empty() }
        },
{
    if data.len() == 0 || data.len() > MAX_MESSAGE_SIZE {
        return Err(IpcError::MessageTooLarge);
    }
    let msg = Message::with_data(sender, MessageType::WindowClose { window_id: 0 }, data);
    proof {
        assert(data@.subrange(0, data@.len() as int) =~= data@);
    }
    let r = manager.send_message(target, msg, target_exists);
    proof {
        if r is Ok {
            let q = manager.queues()[target];
            if old(manager).queues().contains_key(target) {
                assert(q.drop_last() =~= old(manager).queues()[target]);
            } else {
                assert(q.drop_last() =~= Seq::<Message>::empty());
            }
        }
    }
    r
}

/// Copies the oldest message of `pid` into `out` and removes it; the
/// message stays queued when `out` is too short.
pub fn recv_bytes(manager: &mut IpcManager, pid: ProcessId, out: &mut [u8]) -> (r: Result<usize, IpcError>)
    requires
        old(manager).wf(),
    ensures
        final(manager).wf(),
        final(out)@.len() == old(out)@.len(),
        !old(manager).queues().contains_key(pid) || old(manager).queues()[pid].len() == 0 ==>
            r == Err::<usize, IpcError>(IpcError::NoMessage) && final(manager).queues() == old(manager).queues(),
        old(manager).queues().contains_key(pid) && old(manager).queues()[pid].len() > 0 ==> {
            let m = old(manager).queues()[pid][0];
            &&& old(out)@.len() < m.len ==> r == Err::<usize, IpcError>(IpcError::MessageTooLarge)
                && final(manager).queues() == old(manager).queues()
            &&& old(out)@.len() >= m.len ==> r == Ok::<usize, IpcError>(m.len)
                && final(out)@.subrange(0, m.len as int) == m.data@.subrange(0, m.len as int)
                && final(out)@.subrange(m.len as int, old(out)@.len() as int) == old(out)@.subrange(m.len as int, old(out)@.len() as int)
                && final(manager).queues() == old(manager).queues().insert(pid, old(manager).queues()[pid].drop_first())
        },
{
    let i = match manager.find_queue(pid) {
        Some(i) => i,
        None => return Err(IpcError::NoMessage),
    };
    if manager.message_queues[i].1.len() == 0 {
        return Err(IpcError::NoMessage);
    }
    let len = manager.message_queues[i].1[0].len;
    if out.len() < len {
        return Err(IpcError::MessageTooLarge);
    }
    let message = match manager.receive_message(pid) {
        Some(m) => m,
        None => return Err(IpcError::NoMessage),
    };
    proof {
        assert(message.data@.len() == MAX_MESSAGE_SIZE);
    }
    let ghost out0 = out@;
    let copy_len = len;
    let mut k: usize = 0;
    while k < copy_len
        invariant
            copy_len <= len,
            copy_len <= MAX_MESSAGE_SIZE,
            len <= out@.len(),
            out@.len() == out0.len(),
            k <= copy_len,
            message.data@.len() == MAX_MESSAGE_SIZE,
            forall|j: int| 0 <= j < k ==> out@[j] == message.data@[j],
            forall|j: int| k <= j < out@.len() ==> out@[j] == out0[j],
        decreases copy_len - k,
    {
        out[k] = message.data[k];
        k = k + 1;
    }
    proof {
        assert(out@.subrange(0, len as int) =~= message.data@.subrange(0, len as int));
        assert(out@.subrange(len as int, out0.len() as int) =~= out0.subrange(len as int, out0.len() as int));
    }
    Ok(len)
}

/// The manager's statistics.
pub fn ipc_stats(manager: &IpcManager) -> (r: IpcStats)
    requires
        manager.wf(),
        manager.spec_queue_count() * MAX_QUEUE_MESSAGES <= u64::MAX,
    ensures
        r.queue_count == manager.spec_queue_count(),
        r.queued_messages == manager.spec_queued_messages(),
        r.shared_regions == manager.spec_region_count(),
        r.max_queue_messages == MAX_QUEUE_MESSAGES,
{
    manager.stats()
}

} // verus!
