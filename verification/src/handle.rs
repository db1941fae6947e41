//! Per-process capability tables. A handle names a kernel object together
//! with a mask of rights; an operation is allowed only when every bit it needs
//! is in the mask, and rights can only be narrowed (on duplicate or transfer),
//! never widened.
use vstd::prelude::*;
use crate::assoc::{keys_unique, has_key, to_map, lemma_lookup_at, lemma_lookup_none, lemma_push, lemma_remove, lemma_distinct_keys_bound};
use crate::process::ProcessId;

verus! {

pub const RIGHT_READ: u32 = 1;
pub const RIGHT_WRITE: u32 = 2;
pub const RIGHT_MAP: u32 = 4;
pub const RIGHT_SIGNAL: u32 = 8;
pub const RIGHT_TRANSFER: u32 = 16;
pub const RIGHT_DISPLAY_MASTER: u32 = 32;
pub const RIGHT_INPUT_MASTER: u32 = 64;
/// Every right.
pub const RIGHTS_ALL: u32 = 127;

/// Largest memory object one handle may name.
pub const MAX_MEMORY_OBJECT: usize = 1048576;

pub type Handle = u32;

#[derive(Debug, Clone, Copy, PartialEq, Eq, Structural)]
pub enum HandleError {
    /// The handle is not in the caller's table.
    BadHandle,
    /// A needed right is missing from the mask.
    AccessDenied,
    /// The object does not support the operation.
    WrongType,
    /// Another process owns the exclusive resource.
    DisplayBusy,
    /// The requested memory object is too large.
    TooLarge,
    /// The object could not be mapped into the address space.
    MapFailed,
    /// The receiving process does not exist.
    NoSuchTarget,
}

/// The kernel object a handle names.
pub enum HandleObject {
    /// A kernel byte buffer (READ, WRITE, MAP).
    Memory(Vec<u8>),
    /// A process that receives signals (SIGNAL).
    Endpoint(ProcessId),
    /// Exclusive ownership of the display (DISPLAY_MASTER).
    Display,
    /// Exclusive ownership of the input source (INPUT_MASTER).
    Input,
    /// A shared frame object of the shared-memory registry.
    SharedFrames { id: u64 },
}

pub struct HandleEntry {
    pub object: HandleObject,
    pub rights: u32,
}

/// Whether `rights` has every bit of `required`.
pub open spec fn has_rights(rights: u32, required: u32) -> bool {
    rights & required == required
}

/// A capability table: handle numbers to entries.
pub struct HandleTable {
    entries: Vec<(Handle, HandleEntry)>,
    next: Handle,
}

impl HandleTable {
    /// The table as a map from handle to entry.
    pub closed spec fn view(&self) -> Map<Handle, HandleEntry> {
        to_map(self.entries@)
    }

    /// Handles are distinct and nonzero, and every mask is within `RIGHTS_ALL`.
    pub closed spec fn wf(&self) -> bool {
        &&& keys_unique(self.entries@)
        &&& forall|i: int| 0 <= i < self.entries@.len() ==> (#[trigger] self.entries@[i]).0 != 0
        &&& forall|i: int| 0 <= i < self.entries@.len() ==>
            (#[trigger] self.entries@[i]).1.rights & RIGHTS_ALL == self.entries@[i].1.rights
    }

    /// The counter from which the next handle number is sought.
    pub closed spec fn spec_next(&self) -> Handle {
        self.next
    }

    /// Number of live handles.
    pub closed spec fn spec_len(&self) -> nat {
        self.entries@.len()
    }

    pub proof fn lemma_wf(&self)
        requires
            self.wf(),
        ensures
            !self@.contains_key(0),
            forall|h: Handle| #[trigger] self@.contains_key(h) ==> self@[h].rights & RIGHTS_ALL == self@[h].rights,
            self@.dom().finite(),
            self@.dom().len() == self.spec_len(),
    {
        assert forall|h: Handle| #[trigger] self@.contains_key(h) implies
            h != 0 && self@[h].rights & RIGHTS_ALL == self@[h].rights by {
            let i = choose|i: int| 0 <= i < self.entries@.len() && self.entries@[i].0 == h;
            lemma_lookup_at(self.entries@, i);
        }
        self.lemma_dom_len();
    }

    proof fn lemma_dom_len(&self)
        requires
            keys_unique(self.entries@),
        ensures
            self@.dom().finite(),
            self@.dom().len() == self.entries@.len(),
    {
        let keys = self.entries@.map_values(|p: (Handle, HandleEntry)| p.0);
        assert(keys.no_duplicates()) by {
            assert forall|i: int, j: int| 0 <= i < keys.len() && 0 <= j < keys.len() && i != j
                implies keys[i] != keys[j] by {
                assert(self.entries@[i].0 != self.entries@[j].0);
            }
        }
        keys.unique_seq_to_set();
        assert(self@.dom() =~= keys.to_set()) by {
            assert forall|h: Handle| self@.dom().contains(h) <==> keys.to_set().contains(h) by {
                if self@.dom().contains(h) {
                    let i = choose|i: int| 0 <= i < self.entries@.len() && self.entries@[i].0 == h;
                    assert(keys[i] == h);
                }
                if keys.to_set().contains(h) {
                    let i = choose|i: int| 0 <= i < keys.len() && keys[i] == h;
                    assert(self.entries@[i].0 == h);
                    assert(has_key(self.entries@, h));
                }
            }
        }
        vstd::seq_lib::seq_to_set_is_finite(keys);
    }

    pub fn new() -> (r: Self)
        ensures
            r.wf(),
            r@ == Map::<Handle, HandleEntry>::empty(),
            r.spec_len() == 0,
            r.spec_next() == 1,
    {
        let r = HandleTable { entries: Vec::new(), next: 1 };
        assert(r@ =~= Map::<Handle, HandleEntry>::empty());
        r
    }

    fn find(&self, handle: Handle) -> (r: Option<usize>)
        requires
            self.wf(),
        ensures
            r matches Some(i) ==> i < self.entries@.len() && self.entries@[i as int].0 == handle,
            r is None <==> !self@.contains_key(handle),
    {
        let mut i: usize = 0;
        while i < self.entries.len()
            invariant
                i <= self.entries@.len(),
                keys_unique(self.entries@),
                forall|j: int| 0 <= j < i ==> self.entries@[j].0 != handle,
            decreases self.entries@.len() - i,
        {
            if self.entries[i].0 == handle {
                proof {
                    lemma_lookup_at(self.entries@, i as int);
                }
                return Some(i);
            }
            i = i + 1;
        }
        proof {
            lemma_lookup_none(self.entries@, handle);
        }
        None
    }

    /// Next free nonzero handle number, scanning upward from the counter and
    /// wrapping past zero.
    fn allocate_id(&mut self) -> (id: Handle)
        requires
            old(self).wf(),
            old(self).entries@.len() < u32::MAX,
        ensures
            final(self).entries@ == old(self).entries@,
            final(self).wf(),
            id != 0,
            !old(self)@.contains_key(id),
            old(self).next != 0 && !old(self)@.contains_key(old(self).next) ==> id == old(self).next,
            final(self).next as int == (id as int + 1) % 0x1_0000_0000,
    {
        let ghost n0: int = self.next as int;
        let ghost mut seen: Seq<u32> = Seq::empty();
        let ghost mut zero_seen: bool = false;
        let mut tries: u64 = 0;
        loop
            invariant
                self.entries@ == old(self).entries@,
                self.wf(),
                old(self).entries@.len() < u32::MAX,
                tries <= 0x1_0000_0000,
                self.next as int == (n0 + tries) % 0x1_0000_0000,
                0 <= n0 < 0x1_0000_0000,
                seen.no_duplicates(),
                forall|i: int| 0 <= i < seen.len() ==> #[trigger] has_key(self.entries@, seen[i]),
                forall|i: int| 0 <= i < seen.len() ==> ((#[trigger] seen[i]) - n0) % 0x1_0000_0000 < tries,
                zero_seen <==> (0 - n0) % 0x1_0000_0000 < tries,
                seen.len() + (if zero_seen { 1int } else { 0int }) == tries,
                n0 == old(self).next,
                tries > 0 ==> n0 == 0 || old(self)@.contains_key(n0 as u32),
            decreases 0x1_0000_0000 - tries,
        {
            proof {
                lemma_distinct_keys_bound(self.entries@, seen);
            }
            let id = self.next;
            self.next = self.next.wrapping_add(1);
            let found = self.find(id);
            if id != 0 && found.is_none() {
                return id;
            }
            proof {
                assert((id - n0) % 0x1_0000_0000 == tries);
                if tries == 0 {
                    assert(id == n0);
                }
                if id != 0 {
                    assert(!seen.contains(id)) by {
                        if seen.contains(id) {
                            let k = choose|k: int| 0 <= k < seen.len() && seen[k] == id;
                            assert((seen[k] - n0) % 0x1_0000_0000 < tries);
                        }
                    }
                    let old_seen = seen;
                    seen = seen.push(id);
                    assert(has_key(self.entries@, id));
                    assert forall|i: int, j: int| 0 <= i < seen.len() && 0 <= j < seen.len() && i != j
                        implies seen[i] != seen[j] by {
                        if i < old_seen.len() && j < old_seen.len() {
                            assert(old_seen[i] != old_seen[j]);
                        }
                    }
                } else {
                    zero_seen = true;
                }
            }
            tries = tries + 1;
        }
    }

    /// Publishes `object` with `rights` (cut to `RIGHTS_ALL`) under a fresh
    /// handle.
    pub fn insert(&mut self, object: HandleObject, rights: u32) -> (h: Handle)
        requires
            old(self).wf(),
            old(self).spec_len() < u32::MAX,
        ensures
            final(self).wf(),
            h != 0,
            !old(self)@.contains_key(h),
            final(self)@ == old(self)@.insert(h, HandleEntry { object, rights: rights & RIGHTS_ALL }),
            final(self).spec_len() == old(self).spec_len() + 1,
            old(self).spec_next() != 0 && !old(self)@.contains_key(old(self).spec_next()) ==> h == old(self).spec_next(),
            final(self).spec_next() as int == (h as int + 1) % 0x1_0000_0000,
    {
        let id = self.allocate_id();
        let r = rights & RIGHTS_ALL;
        assert(r & RIGHTS_ALL == r) by (bit_vector)
            requires r == rights & 127u32;
        proof {
            lemma_push(self.entries@, id, HandleEntry { object, rights: r });
        }
        self.entries.push((id, HandleEntry { object, rights: r }));
        proof {
            assert(self@ =~= old(self)@.insert(id, HandleEntry { object, rights: rights & RIGHTS_ALL }));
        }
        id
    }

    pub fn get(&self, handle: Handle) -> (r: Result<&HandleEntry, HandleError>)
        requires
            self.wf(),
        ensures
            self@.contains_key(handle) ==> r == Ok::<&HandleEntry, HandleError>(&self@[handle]),
            !self@.contains_key(handle) ==> r == Err::<&HandleEntry, HandleError>(HandleError::BadHandle),
    {
        match self.find(handle) {
            Some(i) => {
                proof {
                    lemma_lookup_at(self.entries@, i as int);
                }
                Ok(&self.entries[i].1)
            },
            None => Err(HandleError::BadHandle),
        }
    }

    pub fn remove(&mut self, handle: Handle) -> (r: Result<HandleEntry, HandleError>)
        requires
            old(self).wf(),
        ensures
            final(self).wf(),
            old(self)@.contains_key(handle) ==> r == Ok::<HandleEntry, HandleError>(old(self)@[handle])
                && final(self)@ == old(self)@.remove(handle)
                && final(self).spec_len() + 1 == old(self).spec_len(),
            !old(self)@.contains_key(handle) ==> r == Err::<HandleEntry, HandleError>(HandleError::BadHandle)
                && final(self)@ == old(self)@ && final(self).spec_len() == old(self).spec_len(),
            final(self).spec_next() == old(self).spec_next(),
    {
        match self.find(handle) {
            Some(i) => {
                proof {
                    lemma_lookup_at(self.entries@, i as int);
                    lemma_remove(self.entries@, i as int);
                }
                let (_, entry) = self.entries.remove(i);
                proof {
                    assert forall|j: int| 0 <= j < self.entries@.len() implies
                        (#[trigger] self.entries@[j]).0 != 0
                        && self.entries@[j].1.rights & RIGHTS_ALL == self.entries@[j].1.rights by {
                        let k = if j < i { j } else { j + 1 };
                        assert(self.entries@[j] == old(self).entries@[k]);
                    }
                    assert(self@ =~= old(self)@.remove(handle));
                }
                Ok(entry)
            },
            None => Err(HandleError::BadHandle),
        }
    }

    pub fn rights(&self, handle: Handle) -> (r: Result<u32, HandleError>)
        requires
            self.wf(),
        ensures
            self@.contains_key(handle) ==> r == Ok::<u32, HandleError>(self@[handle].rights),
            !self@.contains_key(handle) ==> r == Err::<u32, HandleError>(HandleError::BadHandle),
    {
        match self.get(handle) {
            Ok(entry) => Ok(entry.rights),
            Err(e) => Err(e),
        }
    }

    /// The entry, if it exists and holds every bit of `required`.
    pub fn require(&self, handle: Handle, required: u32) -> (r: Result<&HandleEntry, HandleError>)
        requires
            self.wf(),
        ensures
            !self@.contains_key(handle) ==> r == Err::<&HandleEntry, HandleError>(HandleError::BadHandle),
            self@.contains_key(handle) && !has_rights(self@[handle].rights, required) ==>
                r == Err::<&HandleEntry, HandleError>(HandleError::AccessDenied),
            self@.contains_key(handle) && has_rights(self@[handle].rights, required) ==>
                r == Ok::<&HandleEntry, HandleError>(&self@[handle]),
    {
        let entry = match self.get(handle) {
            Ok(e) => e,
            Err(e) => return Err(e),
        };
        if entry.rights & required != required {
            return Err(HandleError::AccessDenied);
        }
        Ok(entry)
    }

    /// A second handle to the same object with `new_rights` (cut to
    /// `RIGHTS_ALL`), which must be a subset of the original's rights.
    pub fn duplicate(&mut self, handle: Handle, new_rights: u32) -> (r: Result<Handle, HandleError>)
        requires
            old(self).wf(),
            old(self).spec_len() < u32::MAX,
        ensures
            final(self).wf(),
            !old(self)@.contains_key(handle) ==> r == Err::<Handle, HandleError>(HandleError::BadHandle)
                && final(self)@ == old(self)@,
            old(self)@.contains_key(handle) && (new_rights & RIGHTS_ALL) & !old(self)@[handle].rights != 0 ==>
                r == Err::<Handle, HandleError>(HandleError::AccessDenied) && final(self)@ == old(self)@,
            old(self)@.contains_key(handle) && (new_rights & RIGHTS_ALL) & !old(self)@[handle].rights == 0 ==>
                r is Ok,
            r matches Ok(h) ==> {
                &&& !old(self)@.contains_key(h)
                &&& final(self)@.dom() == old(self)@.dom().insert(h)
                &&& forall|k: Handle| k != h && old(self)@.contains_key(k) ==> #[trigger] final(self)@[k] == old(self)@[k]
                &&& final(self)@[h].rights == new_rights & RIGHTS_ALL
                &&& same_object(final(self)@[h].object, old(self)@[handle].object)
            },
    {
        let (object, rights) = match self.get(handle) {
            Ok(current) => {
                let new = new_rights & RIGHTS_ALL;
                if new & !current.rights != 0 {
                    return Err(HandleError::AccessDenied);
                }
                let object = match &current.object {
                    HandleObject::Memory(data) => HandleObject::Memory(data.clone()),
                    HandleObject::Endpoint(pid) => HandleObject::Endpoint(*pid),
                    HandleObject::Display => HandleObject::Display,
                    HandleObject::Input => HandleObject::Input,
                    HandleObject::SharedFrames { id } => HandleObject::SharedFrames { id: *id },
                };
                (object, new)
            },
            Err(e) => return Err(e),
        };
        let h = self.insert(object, rights);
        proof {
            assert((new_rights & 127u32) & 127u32 == new_rights & 127u32) by (bit_vector);
            assert(same_object(self@[h].object, old(self)@[handle].object));
            assert(self@.dom() =~= old(self)@.dom().insert(h));
        }
        Ok(h)
    }

    /// Copies the head of `src` into the memory object of `handle`, which
    /// needs the WRITE right; returns the number of bytes copied.
    pub(crate) fn write_memory(&mut self, handle: Handle, src: &[u8]) -> (r: Result<usize, HandleError>)
        requires
            old(self).wf(),
        ensures
            final(self).wf(),
            final(self).spec_len() == old(self).spec_len(),
            final(self).spec_next() == old(self).spec_next(),
            !old(self)@.contains_key(handle) ==> r == Err::<usize, HandleError>(HandleError::BadHandle),
            old(self)@.contains_key(handle) && !has_rights(old(self)@[handle].rights, RIGHT_WRITE) ==>
                r == Err::<usize, HandleError>(HandleError::AccessDenied),
            old(self)@.contains_key(handle) && has_rights(old(self)@[handle].rights, RIGHT_WRITE)
                && !(old(self)@[handle].object is Memory) ==> r == Err::<usize, HandleError>(HandleError::WrongType),
            r is Err ==> final(self)@ == old(self)@,
            old(self)@.contains_key(handle) && has_rights(old(self)@[handle].rights, RIGHT_WRITE)
                && old(self)@[handle].object is Memory ==> {
                let data = old(self)@[handle].object->Memory_0@;
                let n = if src@.len() < data.len() { src@.len() } else { data.len() };
                &&& r == Ok::<usize, HandleError>(n as usize)
                &&& final(self)@.dom() == old(self)@.dom()
                &&& final(self)@[handle].rights == old(self)@[handle].rights
                &&& final(self)@[handle].object is Memory
                &&& final(self)@[handle].object->Memory_0@ == src@.subrange(0, n as int) + data.subrange(n as int, data.len() as int)
                &&& forall|k: Handle| k != handle && #[trigger] old(self)@.contains_key(k) ==> final(self)@[k] == old(self)@[k]
            },
    {
        let i = match self.find(handle) {
            Some(i) => i,
            None => return Err(HandleError::BadHandle),
        };
        proof {
            lemma_lookup_at(self.entries@, i as int);
        }
        if self.entries[i].1.rights & RIGHT_WRITE != RIGHT_WRITE {
            return Err(HandleError::AccessDenied);
        }
        let is_memory = match &self.entries[i].1.object {
            HandleObject::Memory(_) => true,
            _ => false,
        };
        if !is_memory {
            return Err(HandleError::WrongType);
        }
        let (h, entry) = self.entries.remove(i);
        let HandleEntry { object, rights } = entry;
        let mut data = match object {
            HandleObject::Memory(d) => d,
            _ => Vec::new(),
        };
        let ghost data0 = data@;
        let n = if src.len() < data.len() { src.len() } else { data.len() };
        let mut k: usize = 0;
        while k < n
            invariant
                n <= src@.len(),
                n <= data0.len(),
                data@.len() == data0.len(),
                k <= n,
                forall|j: int| 0 <= j < k ==> data@[j] == src@[j],
                forall|j: int| k <= j < data@.len() ==> data@[j] == data0[j],
            decreases n - k,
        {
            data.set(k, src[k]);
            k = k + 1;
        }
        let new_entry = HandleEntry { object: HandleObject::Memory(data), rights };
        self.entries.insert(i, (h, new_entry));
        proof {
            assert(data@ =~= src@.subrange(0, n as int) + data0.subrange(n as int, data0.len() as int));
            assert(self.entries@ == old(self).entries@.update(i as int, (handle, new_entry)));
            crate::assoc::lemma_update_value(old(self).entries@, i as int, new_entry);
            assert forall|j: int| 0 <= j < self.entries@.len() implies
                (#[trigger] self.entries@[j]).0 != 0
                && self.entries@[j].1.rights & RIGHTS_ALL == self.entries@[j].1.rights by {
                if j != i {
                    assert(self.entries@[j] == old(self).entries@[j]);
                } else {
                    assert(self.entries@[j].1.rights == old(self).entries@[j].1.rights);
                }
            }
            assert(self@.dom() =~= old(self)@.dom());
        }
        Ok(n)
    }

    pub fn is_empty(&self) -> (r: bool)
        requires
            self.wf(),
        ensures
            r == (self@.dom().len() == 0),
    {
        proof {
            self.lemma_wf();
        }
        self.entries.len() == 0
    }

    /// Removes an entry to hand it to another table, rights unchanged.
    pub fn take_for_transfer(&mut self, handle: Handle) -> (r: Result<(HandleObject, u32), HandleError>)
        requires
            old(self).wf(),
        ensures
            final(self).wf(),
            old(self)@.contains_key(handle) ==> r == Ok::<(HandleObject, u32), HandleError>(
                (old(self)@[handle].object, old(self)@[handle].rights))
                && final(self)@ == old(self)@.remove(handle),
            !old(self)@.contains_key(handle) ==> r == Err::<(HandleObject, u32), HandleError>(HandleError::BadHandle)
                && final(self)@ == old(self)@,
            r matches Ok((o, rt)) ==> rt & RIGHTS_ALL == rt,
            final(self).spec_next() == old(self).spec_next(),
    {
        proof {
            self.lemma_wf();
        }
        match self.remove(handle) {
            Ok(entry) => Ok((entry.object, entry.rights)),
            Err(e) => Err(e),
        }
    }

    /// Empties the table and hands back every object it held.
    pub fn drain_objects(&mut self) -> (r: Vec<HandleObject>)
        requires
            old(self).wf(),
        ensures
            final(self).wf(),
            final(self)@ == Map::<Handle, HandleEntry>::empty(),
            final(self).spec_next() == old(self).spec_next(),
            r@.len() == old(self).spec_len(),
            forall|h: Handle| #[trigger] old(self)@.contains_key(h) ==> r@.contains(old(self)@[h].object),
    {
        let mut out: Vec<HandleObject> = Vec::new();
        let ghost old_entries = self.entries@;
        while self.entries.len() > 0
            invariant
                self.entries@ =~= old_entries.subrange(0, self.entries@.len() as int),
                self.next == old(self).next,
                self.entries@.len() + out@.len() == old_entries.len(),
                forall|i: int| 0 <= i < out@.len() ==> out@[i] == (#[trigger] old_entries[old_entries.len() - 1 - i]).1.object,
            decreases self.entries@.len(),
        {
            let (_, entry) = self.entries.pop().unwrap();
            out.push(entry.object);
        }
        proof {
            assert forall|h: Handle| #[trigger] old(self)@.contains_key(h) implies out@.contains(old(self)@[h].object) by {
                let i = choose|i: int| 0 <= i < old_entries.len() && old_entries[i].0 == h;
                lemma_lookup_at(old_entries, i);
                let k = old_entries.len() - 1 - i;
                assert(out@[k] == old_entries[old_entries.len() - 1 - k].1.object);
            }
            assert(self@ =~= Map::<Handle, HandleEntry>::empty());
        }
        out
    }
}

/// Whether `a` names the same object as `b` (a memory object by an equal copy
/// of its bytes).
pub open spec fn same_object(a: HandleObject, b: HandleObject) -> bool {
    match (a, b) {
        (HandleObject::Memory(x), HandleObject::Memory(y)) => x@ == y@,
        (HandleObject::Endpoint(x), HandleObject::Endpoint(y)) => x == y,
        (HandleObject::Display, HandleObject::Display) => true,
        (HandleObject::Input, HandleObject::Input) => true,
        (HandleObject::SharedFrames { id: x }, HandleObject::SharedFrames { id: y }) => x == y,
        _ => false,
    }
}

/// Rights never widen: a duplicate's mask is a subset of the original's.
pub proof fn law_duplicate_narrows(original: u32, requested: u32)
    requires
        (requested & RIGHTS_ALL) & !original == 0,
    ensures
        has_rights(original, requested & RIGHTS_ALL),
{
    assert((requested & 127u32) & !original == 0 ==> original & (requested & 127u32) == (requested & 127u32)) by (bit_vector);
}

/// System-wide owners of the exclusive display and input resources
/// (0 when free).
pub struct DeviceOwners {
    pub display: u64,
    pub input: u64,
}

impl DeviceOwners {
    pub fn new() -> (r: Self)
        ensures
            r.display == 0,
            r.input == 0,
    {
        DeviceOwners { display: 0, input: 0 }
    }
}

/// Claims the display for `pid`: succeeds when it is free or already held by
/// `pid`.
pub fn try_acquire_display(owners: &mut DeviceOwners, pid: ProcessId) -> (r: bool)
    ensures
        r == (old(owners).display == 0 || old(owners).display == pid.0),
        final(owners).display == (if old(owners).display == 0 { pid.0 } else { old(owners).display }),
        final(owners).input == old(owners).input,
{
    if owners.display == 0 {
        owners.display = pid.0;
        true
    } else {
        owners.display == pid.0
    }
}

/// Frees the display if `pid` holds it.
pub fn release_display(owners: &mut DeviceOwners, pid: ProcessId)
    ensures
        final(owners).display == (if old(owners).display == pid.0 { 0 } else { old(owners).display }),
        final(owners).input == old(owners).input,
{
    if owners.display == pid.0 {
        owners.display = 0;
    }
}

pub fn display_owner(owners: &DeviceOwners) -> (r: u64)
    ensures
        r == owners.display,
{
    owners.display
}

/// Claims the input source for `pid`: succeeds when it is free or already
/// held by `pid`.
pub fn try_acquire_input(owners: &mut DeviceOwners, pid: ProcessId) -> (r: bool)
    ensures
        r == (old(owners).input == 0 || old(owners).input == pid.0),
        final(owners).input == (if old(owners).input == 0 { pid.0 } else { old(owners).input }),
        final(owners).display == old(owners).display,
{
    if owners.input == 0 {
        owners.input = pid.0;
        true
    } else {
        owners.input == pid.0
    }
}

/// Frees the input source if `pid` holds it.
pub fn release_input(owners: &mut DeviceOwners, pid: ProcessId)
    ensures
        final(owners).input == (if old(owners).input == pid.0 { 0 } else { old(owners).input }),
        final(owners).display == old(owners).display,
{
    if owners.input == pid.0 {
        owners.input = 0;
    }
}

pub fn input_owner(owners: &DeviceOwners) -> (r: u64)
    ensures
        r == owners.input,
{
    owners.input
}

} // verus!
