//! User memory management of a process: the registry of shared frame
//! objects, anonymous mappings with optional guard pages, shared mappings,
//! range unmapping and protection, and the static TLS block.
use vstd::prelude::*;
use crate::assoc::{keys_unique, has_key, to_map, lemma_lookup_at, lemma_lookup_none, lemma_push, lemma_remove, lemma_update_value};
use crate::memory::pmm::{PhysicalAddress, PhysicalMemoryManager, holds_frames, frame_index, is_pool_frame};
use crate::process::{Process, ProcessError};
use crate::memory::vmm::{AddressSpace, PageFlags, VirtualAddress, valid_user_page, FLAG_NO_EXECUTE, FLAG_PRESENT, FLAG_USER, FLAG_WRITABLE, USER_SPACE_END};

verus! {

/// Lowest address handed out for anonymous mappings.
pub const USER_MMAP_BASE: usize = 0x0000_0010_0000;
/// First address past the anonymous mapping window.
pub const USER_MMAP_END: usize = 0x7000_0000;
pub const USER_PAGE_SIZE: usize = 4096;
/// Largest shared frame object.
pub const MAX_SHARED_OBJECT: usize = 16777216;

/// Frames of a shared object and the number of references to it (owner
/// ids, handles and mapped pages).
pub struct SharedVmObject {
    pub frames: Vec<PhysicalAddress>,
    pub refs: usize,
}

/// All shared frame objects, keyed by id.
pub struct SharedVmRegistry {
    objects: Vec<(u64, SharedVmObject)>,
    next_id: u64,
}

/// `length` rounded up to whole pages, if that fits.
pub open spec fn page_round_up(length: int) -> Option<int> {
    if length + 4095 <= usize::MAX {
        Some(((length + 4095) / 4096) * 4096)
    } else {
        None
    }
}

pub proof fn lemma_round_mask(x: usize)
    ensures
        x & !0xFFFusize == (x / 4096) * 4096,
        x & !0xFFFusize <= x,
        (x & !0xFFFusize) % 4096 == 0,
{
    assert(x & !0xFFFusize == x - x % 4096) by (bit_vector);
}

impl SharedVmRegistry {
    pub closed spec fn view(&self) -> Map<u64, SharedVmObject> {
        to_map(self.objects@)
    }

    pub closed spec fn spec_next_id(&self) -> u64 {
        self.next_id
    }

    pub closed spec fn wf(&self) -> bool {
        &&& keys_unique(self.objects@)
        &&& forall|i: int| 0 <= i < self.objects@.len() ==> (#[trigger] self.objects@[i]).0 < self.next_id
        &&& forall|i: int| 0 <= i < self.objects@.len() ==> (#[trigger] self.objects@[i]).1.frames@.len() <= 4096
    }

    pub proof fn lemma_wf(&self)
        requires
            self.wf(),
        ensures
            forall|id: u64| #[trigger] self@.contains_key(id) ==> self@[id].frames@.len() <= 4096 && id < self.spec_next_id(),
    {
        assert forall|id: u64| #[trigger] self@.contains_key(id) implies self@[id].frames@.len() <= 4096 && id < self.spec_next_id() by {
            let i = choose|i: int| 0 <= i < self.objects@.len() && self.objects@[i].0 == id;
            lemma_lookup_at(self.objects@, i);
        }
    }

    pub fn new() -> (r: Self)
        ensures
            r.wf(),
            r@ == Map::<u64, SharedVmObject>::empty(),
            r.spec_next_id() == 1,
    {
        let r = SharedVmRegistry { objects: Vec::new(), next_id: 1 };
        assert(r@ =~= Map::<u64, SharedVmObject>::empty());
        r
    }

    fn find(&self, id: u64) -> (r: Option<usize>)
        requires
            self.wf(),
        ensures
            r matches Some(i) ==> i < self.objects@.len() && self.objects@[i as int].0 == id
                && self@.contains_key(id) && self@[id] == self.objects@[i as int].1,
            r is None <==> !self@.contains_key(id),
    {
        let mut i: usize = 0;
        while i < self.objects.len()
            invariant
                i <= self.objects@.len(),
                keys_unique(self.objects@),
                forall|j: int| 0 <= j < i ==> self.objects@[j].0 != id,
            decreases self.objects@.len() - i,
        {
            if self.objects[i].0 == id {
                proof {
                    lemma_lookup_at(self.objects@, i as int);
                }
                return Some(i);
            }
            i = i + 1;
        }
        proof {
            lemma_lookup_none(self.objects@, id);
        }
        None
    }

    /// Number of frames of object `id`.
    pub fn frame_count(&self, id: u64) -> (r: Option<usize>)
        requires
            self.wf(),
        ensures
            self@.contains_key(id) ==> r == Some(self@[id].frames@.len() as usize),
            !self@.contains_key(id) ==> r is None,
    {
        match self.find(id) {
            Some(i) => Some(self.objects[i].1.frames.len()),
            None => None,
        }
    }

    /// A copy of the frame list of object `id`.
    pub fn frames_of(&self, id: u64) -> (r: Option<Vec<PhysicalAddress>>)
        requires
            self.wf(),
        ensures
            self@.contains_key(id) ==> (r matches Some(v) && v@ == self@[id].frames@),
            !self@.contains_key(id) ==> r is None,
    {
        match self.find(id) {
            Some(i) => {
                let v = self.objects[i].1.frames.clone();
                assert(v@ =~= self.objects@[i as int].1.frames@);
                Some(v)
            },
            None => None,
        }
    }

    /// Allocates the page-rounded frames of a new object of `length` bytes
    /// holding one reference; frames come from `pmm`.
    pub fn alloc_object(&mut self, length: usize, pmm: &mut PhysicalMemoryManager) -> (r: Result<u64, ProcessError>)
        requires
            old(self).wf(),
            old(pmm).wf(),
            old(self).spec_next_id() < u64::MAX,
        ensures
            final(self).wf(),
            final(pmm).wf(),
            final(pmm).spec_base() == old(pmm).spec_base(),
            final(pmm).spec_total_frames() == old(pmm).spec_total_frames(),
            ({
                let rounded = page_round_up(length as int);
                let len = rounded->0;
                &&& (rounded is None || rounded->0 == 0 || rounded->0 > MAX_SHARED_OBJECT) ==>
                    r == Err::<u64, ProcessError>(ProcessError::InvalidMemoryRange)
                &&& (rounded is Some && 0 < len <= MAX_SHARED_OBJECT) ==> {
                    &&& (len / 4096 > old(pmm).spec_free_frames() ==> r == Err::<u64, ProcessError>(ProcessError::OutOfMemory))
                    &&& (len / 4096 <= old(pmm).spec_free_frames() ==> r is Ok)
                    &&& (r matches Ok(id) ==> {
                        &&& id == old(self).spec_next_id()
                        &&& !old(self)@.contains_key(id)
                        &&& final(self)@ == old(self)@.insert(id, final(self)@[id])
                        &&& final(self)@[id].refs == 1
                        &&& final(self)@[id].frames@.len() == len / 4096
                        &&& final(self).spec_next_id() == id + 1
                        &&& final(pmm).spec_free_frames() + len / 4096 == old(pmm).spec_free_frames()
                    })
                }
            }),
            r is Err ==> final(self)@ == old(self)@ && final(self).spec_next_id() == old(self).spec_next_id()
                && final(pmm).spec_free_frames() == old(pmm).spec_free_frames(),
    {
        let length = match length.checked_add(USER_PAGE_SIZE - 1) {
            Some(v) => {
                proof {
                    lemma_round_mask(v);
                }
                v & !(USER_PAGE_SIZE - 1)
            },
            None => return Err(ProcessError::InvalidMemoryRange),
        };
        if length == 0 || length > MAX_SHARED_OBJECT {
            return Err(ProcessError::InvalidMemoryRange);
        }
        let frames = match pmm.alloc_frames(length / USER_PAGE_SIZE) {
            Some(f) => f,
            None => return Err(ProcessError::OutOfMemory),
        };
        let id = self.next_id;
        proof {
            assert(!has_key(self.objects@, id)) by {
                if has_key(self.objects@, id) {
                    let i = choose|i: int| 0 <= i < self.objects@.len() && self.objects@[i].0 == id;
                    assert(self.objects@[i].0 < self.next_id);
                }
            }
        }
        let object = SharedVmObject { frames, refs: 1 };
        proof {
            lemma_push(self.objects@, id, object);
        }
        self.objects.push((id, object));
        self.next_id = self.next_id + 1;
        proof {
            assert forall|i: int| 0 <= i < self.objects@.len() implies (#[trigger] self.objects@[i]).0 < self.next_id
                && self.objects@[i].1.frames@.len() <= 4096 by {
                if i < old(self).objects@.len() {
                    assert(self.objects@[i] == old(self).objects@[i]);
                }
            }
            assert(self@ =~= old(self)@.insert(id, object));
        }
        Ok(id)
    }

    /// Adds `count` references to object `id` (saturating), if it exists.
    pub fn add_refs(&mut self, id: u64, count: usize)
        requires
            old(self).wf(),
        ensures
            final(self).wf(),
            final(self).spec_next_id() == old(self).spec_next_id(),
            final(self)@.dom() == old(self)@.dom(),
            forall|k: u64| k != id && #[trigger] old(self)@.contains_key(k) ==> final(self)@[k] == old(self)@[k],
            old(self)@.contains_key(id) ==> final(self)@[id].frames == old(self)@[id].frames
                && final(self)@[id].refs == (if old(self)@[id].refs + count > usize::MAX { usize::MAX as int } else { old(self)@[id].refs + count }),
    {
        match self.find(id) {
            None => {
                assert(self@.dom() =~= old(self)@.dom());
            },
            Some(i) => {
                let (k, mut object) = self.objects.remove(i);
                object.refs = object.refs.saturating_add(count);
                self.objects.insert(i, (k, object));
                proof {
                    assert(self.objects@ == old(self).objects@.update(i as int, (id, object)));
                    lemma_update_value(old(self).objects@, i as int, object);
                    assert forall|j: int| 0 <= j < self.objects@.len() implies (#[trigger] self.objects@[j]).0 < self.next_id
                        && self.objects@[j].1.frames@.len() <= 4096 by {
                        assert(self.objects@[j].0 == old(self).objects@[j].0);
                        assert(self.objects@[j].1.frames == old(self).objects@[j].1.frames);
                    }
                    assert(self@.dom() =~= old(self)@.dom());
                }
            },
        }
    }

    /// Drops `count` references to object `id` (saturating at zero); at zero
    /// the object leaves the registry and its frames go back to `pmm`.
    pub fn release(&mut self, id: u64, count: usize, pmm: &mut PhysicalMemoryManager)
        requires
            old(self).wf(),
            old(pmm).wf(),
        ensures
            final(self).wf(),
            final(pmm).wf(),
            final(pmm).spec_base() == old(pmm).spec_base(),
            final(pmm).spec_total_frames() == old(pmm).spec_total_frames(),
            final(self).spec_next_id() == old(self).spec_next_id(),
            !old(self)@.contains_key(id) ==> final(self)@ == old(self)@ && *final(pmm) == *old(pmm),
            old(self)@.contains_key(id) && old(self)@[id].refs <= count ==> {
                &&& final(self)@ == old(self)@.remove(id)
                &&& forall|k: int| 0 <= k < old(self)@[id].frames@.len() && is_pool_frame(*old(pmm), #[trigger] old(self)@[id].frames@[k].0 as int)
                    ==> !final(pmm).used(frame_index(*old(pmm), old(self)@[id].frames@[k].0 as int))
            },
            old(self)@.contains_key(id) && old(self)@[id].refs > count ==>
                final(self)@ == old(self)@.insert(id, SharedVmObject { frames: old(self)@[id].frames, refs: (old(self)@[id].refs - count) as usize })
                && *final(pmm) == *old(pmm),
    {
        let i = match self.find(id) {
            Some(i) => i,
            None => return,
        };
        let (k, mut object) = self.objects.remove(i);
        if object.refs > count {
            object.refs = object.refs - count;
            self.objects.insert(i, (k, object));
            proof {
                assert(self.objects@ == old(self).objects@.update(i as int, (id, object)));
                lemma_update_value(old(self).objects@, i as int, object);
                assert forall|j: int| 0 <= j < self.objects@.len() implies (#[trigger] self.objects@[j]).0 < self.next_id
                    && self.objects@[j].1.frames@.len() <= 4096 by {
                    assert(self.objects@[j].0 == old(self).objects@[j].0);
                    assert(self.objects@[j].1.frames == old(self).objects@[j].1.frames);
                }
                assert(self@ =~= old(self)@.insert(id, object));
            }
            return;
        }
        proof {
            lemma_remove(old(self).objects@, i as int);
            assert forall|j: int| 0 <= j < self.objects@.len() implies (#[trigger] self.objects@[j]).0 < self.next_id
                && self.objects@[j].1.frames@.len() <= 4096 by {
                let m = if j < i { j } else { j + 1 };
                assert(self.objects@[j] == old(self).objects@[m]);
            }
            assert(self@ =~= old(self)@.remove(id));
        }
        let frames = object.frames;
        let ghost p0 = *pmm;
        let mut f: usize = 0;
        while f < frames.len()
            invariant
                pmm.wf(),
                pmm.spec_base() == p0.spec_base(),
                pmm.spec_total_frames() == p0.spec_total_frames(),
                f <= frames@.len(),
                forall|j: int| 0 <= j < f && is_pool_frame(p0, #[trigger] frames@[j].0 as int) ==>
                    !pmm.used(frame_index(p0, frames@[j].0 as int)),
            decreases frames@.len() - f,
        {
            let ghost before = *pmm;
            pmm.free_frame(frames[f]);
            proof {
                assert forall|j: int| 0 <= j < f + 1 && is_pool_frame(p0, #[trigger] frames@[j].0 as int) implies
                    !pmm.used(frame_index(p0, frames@[j].0 as int)) by {
                    if j < f {
                        let a = frame_index(p0, frames@[j].0 as int);
                        assert(!before.used(a));
                    }
                }
            }
            f = f + 1;
        }
    }
}

/// The memory state that process teardown and mapping work on: the frame
/// pool, the shared object registry and the owners of the exclusive devices.
pub struct KernelMemory {
    pub pmm: PhysicalMemoryManager,
    pub registry: SharedVmRegistry,
    pub owners: crate::handle::DeviceOwners,
}

impl KernelMemory {
    pub open spec fn wf(&self) -> bool {
        &&& self.pmm.wf()
        &&& self.registry.wf()
        &&& self.pmm.spec_base() % 4096 == 0
    }
}

/// Every guard reservation lies in the mapping window with page-aligned
/// ends and room for its two guard pages.
pub open spec fn guards_wf(g: Seq<(usize, usize)>) -> bool {
    forall|i: int| 0 <= i < g.len() ==> {
        let (usable, len) = #[trigger] g[i];
        &&& usable >= USER_MMAP_BASE + 4096
        &&& usable % 4096 == 0
        &&& len % 4096 == 0
        &&& usable + len + 4096 <= USER_MMAP_END
    }
}

/// `k` is a page base in `[start, end)` counted from `start`.
pub open spec fn page_in(k: int, start: int, end: int) -> bool {
    start <= k < end && (k - start) % 4096 == 0
}

/// Every page base in `[start, end)` is mapped in `m`.
pub open spec fn range_mapped(m: Map<usize, (PhysicalAddress, PageFlags)>, start: int, end: int) -> bool {
    forall|k: usize| page_in(k as int, start, end) ==> #[trigger] m.contains_key(k)
}

/// No page base in `[start, end)` is mapped in `m`.
pub open spec fn range_unmapped(m: Map<usize, (PhysicalAddress, PageFlags)>, start: int, end: int) -> bool {
    forall|k: usize| page_in(k as int, start, end) ==> !(#[trigger] m.contains_key(k))
}

/// A window inside the anonymous mapping area with aligned ends.
pub open spec fn mmap_window(start: int, end: int) -> bool {
    &&& USER_MMAP_BASE <= start <= end <= USER_MMAP_END
    &&& start % 4096 == 0
    &&& end % 4096 == 0
}

proof fn lemma_window_page(start: int, end: int, k: int)
    requires
        mmap_window(start, end),
        page_in(k, start, end),
    ensures
        valid_user_page(k),
        k + 4096 <= end,
{
    assert(k % 4096 == 0) by (nonlinear_arith)
        requires (k - start) % 4096 == 0, start % 4096 == 0, k >= start;
    assert(k + 4096 <= end) by (nonlinear_arith)
        requires k % 4096 == 0, end % 4096 == 0, k < end;
}

/// Whether every page of `[start, end)` is unmapped.
pub(crate) fn range_is_free(a: &AddressSpace, start: usize, end: usize) -> (r: bool)
    requires
        a.wf(),
        mmap_window(start as int, end as int),
    ensures
        r == range_unmapped(a@, start as int, end as int),
{
    let mut page = start;
    while page < end
        invariant
            a.wf(),
            mmap_window(start as int, end as int),
            start <= page <= end,
            (page - start) % 4096 == 0,
            range_unmapped(a@, start as int, page as int),
        decreases end - page,
    {
        proof {
            lemma_window_page(start as int, end as int, page as int);
        }
        match a.translate_user_page(VirtualAddress(page)) {
            Ok(Some(_)) => {
                proof {
                    assert(page as int % 4096 == 0);
                    assert(page_in(page as int, start as int, end as int));
                }
                return false;
            },
            _ => {},
        }
        proof {
            assert(page as int % 4096 == 0);
            assert(!a@.contains_key(page));
            assert forall|k: usize| page_in(k as int, start as int, page + 4096) implies !(#[trigger] a@.contains_key(k)) by {
                if k != page {
                    assert(k < page) by (nonlinear_arith)
                        requires (k - start) % 4096 == 0, (page - start) % 4096 == 0, start <= k < page + 4096, k != page, start <= page;
                }
            }
        }
        page = page + 4096;
    }
    true
}

/// Whether every page of `[start, end)` is mapped.
pub(crate) fn range_is_mapped(a: &AddressSpace, start: usize, end: usize) -> (r: bool)
    requires
        a.wf(),
        mmap_window(start as int, end as int),
    ensures
        r == range_mapped(a@, start as int, end as int),
{
    let mut page = start;
    while page < end
        invariant
            a.wf(),
            mmap_window(start as int, end as int),
            start <= page <= end,
            (page - start) % 4096 == 0,
            range_mapped(a@, start as int, page as int),
        decreases end - page,
    {
        proof {
            lemma_window_page(start as int, end as int, page as int);
        }
        match a.translate_user_page(VirtualAddress(page)) {
            Ok(Some(_)) => {},
            _ => {
                proof {
                    assert(page as int % 4096 == 0);
                    assert(page_in(page as int, start as int, end as int));
                }
                return false;
            },
        }
        proof {
            assert(page as int % 4096 == 0);
            assert forall|k: usize| page_in(k as int, start as int, page + 4096) implies #[trigger] a@.contains_key(k) by {
                if k != page {
                    assert(k < page) by (nonlinear_arith)
                        requires (k - start) % 4096 == 0, (page - start) % 4096 == 0, start <= k < page + 4096, k != page, start <= page;
                }
            }
        }
        page = page + 4096;
    }
    true
}

/// Entry flags of a fresh anonymous page.
pub open spec fn anon_flags(writable: bool, executable: bool) -> u64 {
    (if writable { FLAG_WRITABLE } else { 0u64 }) | (if !executable { FLAG_NO_EXECUTE } else { 0u64 })
}

/// Maps a fresh frame with `flags` at every page of a free range; when the
/// pool runs dry the pages mapped so far are unmapped again.
pub(crate) fn map_fresh_range(a: &mut AddressSpace, start: usize, end: usize, flags: PageFlags, pmm: &mut PhysicalMemoryManager) -> (r: bool)
    requires
        old(a).wf(),
        old(pmm).wf(),
        old(pmm).spec_base() % 4096 == 0,
        mmap_window(start as int, end as int),
        range_unmapped(old(a)@, start as int, end as int),
    ensures
        final(a).wf(),
        final(pmm).wf(),
        final(pmm).spec_base() == old(pmm).spec_base(),
        final(a).spec_root() == old(a).spec_root(),
        r <==> (end - start) / 4096 <= old(pmm).spec_free_frames(),
        r ==> (forall|k: usize| #[trigger] final(a)@.contains_key(k) <==> old(a)@.contains_key(k) || page_in(k as int, start as int, end as int))
            && (forall|k: usize| #[trigger] old(a)@.contains_key(k) ==> final(a)@[k] == old(a)@[k])
            && (forall|k: usize| page_in(k as int, start as int, end as int) ==>
                (#[trigger] final(a)@[k]).1.bits == flags.bits | FLAG_PRESENT | FLAG_USER | FLAG_PRESENT | FLAG_USER),
        !r ==> final(a)@ == old(a)@,
{
    let mut page = start;
    while page < end
        invariant
            a.wf(),
            pmm.wf(),
            pmm.spec_base() == old(pmm).spec_base(),
            old(pmm).spec_base() % 4096 == 0,
            a.spec_root() == old(a).spec_root(),
            mmap_window(start as int, end as int),
            start <= page <= end,
            (page - start) % 4096 == 0,
            range_unmapped(old(a)@, start as int, end as int),
            pmm.spec_free_frames() + (page - start) / 4096 == old(pmm).spec_free_frames(),
            forall|k: usize| #[trigger] a@.contains_key(k) <==> old(a)@.contains_key(k) || page_in(k as int, start as int, page as int),
            forall|k: usize| #[trigger] old(a)@.contains_key(k) ==> a@[k] == old(a)@[k],
            forall|k: usize| page_in(k as int, start as int, page as int) ==>
                (#[trigger] a@[k]).1.bits == flags.bits | FLAG_PRESENT | FLAG_USER | FLAG_PRESENT | FLAG_USER,
        decreases end - page,
    {
        proof {
            lemma_window_page(start as int, end as int, page as int);
            assert(page_in(page as int, start as int, end as int));
            assert(!old(a)@.contains_key(page));
            assert(!page_in(page as int, start as int, page as int));
        }
        let ghost a_before = a@;
        let ghost free_before = pmm.spec_free_frames();
        match a.map_user_page(VirtualAddress(page), flags, pmm) {
            Ok(_) => {
                proof {
                    assert forall|k: usize| #[trigger] a@.contains_key(k) <==> old(a)@.contains_key(k) || page_in(k as int, start as int, page + 4096) by {
                        if page_in(k as int, start as int, page + 4096) && k != page {
                            assert(k < page) by (nonlinear_arith)
                                requires (k - start) % 4096 == 0, (page - start) % 4096 == 0, start <= k < page + 4096, k != page, start <= page;
                        }
                    }
                    assert forall|k: usize| page_in(k as int, start as int, page + 4096) implies
                        (#[trigger] a@[k]).1.bits == flags.bits | FLAG_PRESENT | FLAG_USER | FLAG_PRESENT | FLAG_USER by {
                        if k != page {
                            assert(k < page) by (nonlinear_arith)
                                requires (k - start) % 4096 == 0, (page - start) % 4096 == 0, start <= k < page + 4096, k != page, start <= page;
                            assert(page_in(k as int, start as int, page as int));
                        }
                    }
                    assert((page + 4096 - start) / 4096 == (page - start) / 4096 + 1) by (nonlinear_arith)
                        requires (page - start) % 4096 == 0, page >= start;
                }
                page = page + 4096;
            },
            Err(_) => {
                proof {
                    assert(a_before.contains_key(page) == false);
                    assert(free_before == 0);
                    assert((page - start) / 4096 < (end - start) / 4096) by (nonlinear_arith)
                        requires (page - start) % 4096 == 0, page < end, end % 4096 == 0, start % 4096 == 0, page >= start;
                }
                unmap_range_pages(a, start, page, pmm);
                proof {
                    assert(a@ =~= old(a)@);
                }
                return false;
            },
        }
    }
    proof {
        assert(page == end);
    }
    true
}

/// Unmaps every page of `[start, end)` (mapped or not), giving the frames
/// back to the pool.
pub(crate) fn unmap_range_pages(a: &mut AddressSpace, start: usize, end: usize, pmm: &mut PhysicalMemoryManager)
    requires
        old(a).wf(),
        old(pmm).wf(),
        mmap_window(start as int, end as int),
    ensures
        final(a).wf(),
        final(pmm).wf(),
        final(pmm).spec_base() == old(pmm).spec_base(),
        final(pmm).spec_total_frames() == old(pmm).spec_total_frames(),
        final(a).spec_root() == old(a).spec_root(),
        final(a)@ == old(a)@.remove_keys(Set::new(|k: usize| page_in(k as int, start as int, end as int))),
{
    let mut page = start;
    while page < end
        invariant
            a.wf(),
            pmm.wf(),
            pmm.spec_base() == old(pmm).spec_base(),
            pmm.spec_total_frames() == old(pmm).spec_total_frames(),
            a.spec_root() == old(a).spec_root(),
            mmap_window(start as int, end as int),
            start <= page <= end,
            (page - start) % 4096 == 0,
            a@ == old(a)@.remove_keys(Set::new(|k: usize| page_in(k as int, start as int, page as int))),
        decreases end - page,
    {
        proof {
            lemma_window_page(start as int, end as int, page as int);
        }
        let _ = a.unmap_user_page(VirtualAddress(page), pmm);
        proof {
            assert(a@ =~= old(a)@.remove_keys(Set::new(|k: usize| page_in(k as int, start as int, page + 4096)))) by {
                assert forall|k: usize| page_in(k as int, start as int, page + 4096) <==> (page_in(k as int, start as int, page as int) || k == page) by {
                    if page_in(k as int, start as int, page + 4096) && k != page {
                        assert(k < page) by (nonlinear_arith)
                            requires (k - start) % 4096 == 0, (page - start) % 4096 == 0, start <= k < page + 4096, k != page, start <= page;
                    }
                }
            }
        }
        page = page + 4096;
    }
}

/// Rewrites the flags of every (mapped) page of `[start, end)`.
pub(crate) fn protect_range_pages(a: &mut AddressSpace, start: usize, end: usize, flags: PageFlags, present: bool)
    requires
        old(a).wf(),
        mmap_window(start as int, end as int),
        range_mapped(old(a)@, start as int, end as int),
    ensures
        final(a).wf(),
        final(a).spec_root() == old(a).spec_root(),
        final(a).owned_frames() == old(a).owned_frames(),
        final(a)@.dom() == old(a)@.dom(),
        forall|k: usize| #[trigger] old(a)@.contains_key(k) && !page_in(k as int, start as int, end as int) ==> final(a)@[k] == old(a)@[k],
        forall|k: usize| page_in(k as int, start as int, end as int) ==> (#[trigger] final(a)@[k]).0 == old(a)@[k].0
            && final(a)@[k].1.bits == (if present { flags.bits | FLAG_USER | FLAG_PRESENT } else { flags.bits | FLAG_USER }),
{
    let mut page = start;
    while page < end
        invariant
            a.wf(),
            a.spec_root() == old(a).spec_root(),
            a.owned_frames() == old(a).owned_frames(),
            mmap_window(start as int, end as int),
            range_mapped(old(a)@, start as int, end as int),
            start <= page <= end,
            (page - start) % 4096 == 0,
            a@.dom() == old(a)@.dom(),
            forall|k: usize| #[trigger] old(a)@.contains_key(k) && !page_in(k as int, start as int, page as int) ==> a@[k] == old(a)@[k],
            forall|k: usize| page_in(k as int, start as int, page as int) ==> (#[trigger] a@[k]).0 == old(a)@[k].0
                && a@[k].1.bits == (if present { flags.bits | FLAG_USER | FLAG_PRESENT } else { flags.bits | FLAG_USER }),
        decreases end - page,
    {
        proof {
            lemma_window_page(start as int, end as int, page as int);
            assert(page_in(page as int, start as int, end as int));
            assert(old(a)@.contains_key(page));
            assert(a@.contains_key(page));
        }
        let ghost before = a@;
        let _ = a.protect_user_page(VirtualAddress(page), flags, present);
        proof {
            assert(a@.dom() =~= old(a)@.dom());
            assert forall|k: usize| #[trigger] old(a)@.contains_key(k) && !page_in(k as int, start as int, page + 4096) implies a@[k] == old(a)@[k] by {
                assert(k != page);
                if page_in(k as int, start as int, page as int) {
                    assert(k < page + 4096);
                }
            }
            assert forall|k: usize| page_in(k as int, start as int, page + 4096) implies (#[trigger] a@[k]).0 == old(a)@[k].0
                && a@[k].1.bits == (if present { flags.bits | FLAG_USER | FLAG_PRESENT } else { flags.bits | FLAG_USER }) by {
                if k != page {
                    assert(k < page) by (nonlinear_arith)
                        requires (k - start) % 4096 == 0, (page - start) % 4096 == 0, start <= k < page + 4096, k != page, start <= page;
                    assert(page_in(k as int, start as int, page as int));
                } else {
                    assert(!page_in(page as int, start as int, page as int));
                    assert(before[page] == old(a)@[page]);
                }
            }
        }
        page = page + 4096;
    }
}

/// `len` rounded up to whole pages.
pub open spec fn round_page(len: int) -> int {
    ((len + 4095) / 4096) * 4096
}

/// The range an anonymous mapping request reserves, guard pages included:
/// `None` when the request is malformed or leaves the mapping window.
pub open spec fn anon_plan(p: Process, requested: usize, length: usize, guarded: bool) -> Option<(int, int)> {
    let map_len = round_page(length as int);
    let total = map_len + if guarded { 8192int } else { 0int };
    let start = if requested == 0 { p.next_mmap_addr as int } else { requested as int };
    if p.is_kernel || length == 0 || length as int + 4095 > usize::MAX || total > usize::MAX
        || (requested != 0 && requested % 4096 != 0) || start + total > usize::MAX
        || start < USER_MMAP_BASE || start + total > USER_MMAP_END {
        None
    } else {
        Some((start, start + total))
    }
}

/// Flags of page `k` of an anonymous mapping over `[start, end)`.
pub open spec fn anon_page_flags(k: int, start: int, end: int, writable: bool, executable: bool, guarded: bool, accessible: bool) -> u64 {
    if (guarded && (k == start || k == end - 4096)) || !accessible {
        FLAG_NO_EXECUTE | FLAG_USER
    } else {
        anon_flags(writable, executable) | FLAG_PRESENT | FLAG_USER | FLAG_PRESENT | FLAG_USER
    }
}

/// Page-rounded `length`, if that fits.
fn round_len(length: usize) -> (r: Option<usize>)
    ensures
        length as int + 4095 > usize::MAX ==> r is None,
        length as int + 4095 <= usize::MAX ==> r == Some(round_page(length as int) as usize),
        r matches Some(v) ==> v % 4096 == 0 && v >= length && (length > 0 ==> v >= 4096),
{
    match length.checked_add(USER_PAGE_SIZE - 1) {
        Some(v) => {
            proof {
                lemma_round_mask(v);
                assert((v / 4096) * 4096 >= length) by (nonlinear_arith)
                    requires v == length + 4095;
                assert(length > 0 ==> (v / 4096) * 4096 >= 4096) by (nonlinear_arith)
                    requires v == length + 4095;
            }
            Some(v & !(USER_PAGE_SIZE - 1))
        },
        None => None,
    }
}

/// `start` plus the page-rounded `length`, when `start` is an aligned
/// address of the mapping window and the range stays inside it.
pub fn vm_range_end(start: usize, length: usize) -> (r: Result<usize, ProcessError>)
    ensures
        (start < USER_MMAP_BASE || start % 4096 != 0 || length == 0 || length as int + 4095 > usize::MAX
            || start + round_page(length as int) > USER_MMAP_END) ==> r == Err::<usize, ProcessError>(ProcessError::InvalidMemoryRange),
        r matches Ok(end) ==> end == start + round_page(length as int) && mmap_window(start as int, end as int) && end > start,
        !(start < USER_MMAP_BASE || start % 4096 != 0 || length == 0 || length as int + 4095 > usize::MAX
            || start + round_page(length as int) > USER_MMAP_END) ==> r is Ok,
{
    proof {
        assert(start & 4095usize == start % 4096) by (bit_vector);
    }
    if start < USER_MMAP_BASE || start & (USER_PAGE_SIZE - 1) != 0 || length == 0 {
        return Err(ProcessError::InvalidMemoryRange);
    }
    let rounded = match round_len(length) {
        Some(v) => v,
        None => return Err(ProcessError::InvalidMemoryRange),
    };
    let end = match start.checked_add(rounded) {
        Some(e) => e,
        None => return Err(ProcessError::InvalidMemoryRange),
    };
    if end > USER_MMAP_END {
        return Err(ProcessError::InvalidMemoryRange);
    }
    Ok(end)
}

impl Process {
    /// The reserved range `[start, end)` and the usable length of an
    /// anonymous mapping request.
    fn anon_range(&self, requested_addr: usize, length: usize, guarded: bool) -> (r: Result<(usize, usize, usize), ProcessError>)
        requires
            self.wf(),
        ensures
            anon_plan(*self, requested_addr, length, guarded) is None ==> r == Err::<(usize, usize, usize), ProcessError>(ProcessError::InvalidMemoryRange),
            anon_plan(*self, requested_addr, length, guarded) matches Some((s, e)) ==>
                r == Ok::<(usize, usize, usize), ProcessError>((s as usize, e as usize, round_page(length as int) as usize))
                && mmap_window(s, e) && round_page(length as int) % 4096 == 0
                && e == s + round_page(length as int) + (if guarded { 8192int } else { 0int })
                && (guarded ==> s + 8192 <= e) && s < e,
    {
        if self.is_kernel || length == 0 {
            return Err(ProcessError::InvalidMemoryRange);
        }
        let map_length = match round_len(length) {
            Some(v) => v,
            None => return Err(ProcessError::InvalidMemoryRange),
        };
        let total_length = if guarded {
            match map_length.checked_add(2 * USER_PAGE_SIZE) {
                Some(v) => v,
                None => return Err(ProcessError::InvalidMemoryRange),
            }
        } else {
            map_length
        };
        proof {
            assert(requested_addr & 4095usize == requested_addr % 4096) by (bit_vector);
        }
        let start = if requested_addr == 0 {
            self.next_mmap_addr
        } else {
            if requested_addr & (USER_PAGE_SIZE - 1) != 0 {
                return Err(ProcessError::InvalidMemoryRange);
            }
            requested_addr
        };
        let end = match start.checked_add(total_length) {
            Some(e) => e,
            None => return Err(ProcessError::InvalidMemoryRange),
        };
        if start < USER_MMAP_BASE || end > USER_MMAP_END {
            return Err(ProcessError::InvalidMemoryRange);
        }
        Ok((start, end, map_length))
    }
}

/// Applies the access flags of an anonymous mapping to its freshly mapped
/// range: the usable part loses its presence when not `accessible`, and
/// the guard pages always do.
fn apply_anon_protection(a: &mut AddressSpace, start: usize, end: usize, guarded: bool, accessible: bool, Ghost(fresh): Ghost<u64>)
    requires
        old(a).wf(),
        mmap_window(start as int, end as int),
        start < end,
        guarded ==> start + 8192 <= end,
        range_mapped(old(a)@, start as int, end as int),
        forall|k: usize| page_in(k as int, start as int, end as int) ==> (#[trigger] old(a)@[k]).1.bits == fresh,
    ensures
        final(a).wf(),
        final(a).spec_root() == old(a).spec_root(),
        final(a)@.dom() == old(a)@.dom(),
        forall|k: usize| #[trigger] old(a)@.contains_key(k) && !page_in(k as int, start as int, end as int) ==> final(a)@[k] == old(a)@[k],
        forall|k: usize| page_in(k as int, start as int, end as int) ==> (#[trigger] final(a)@[k]).1.bits ==
            (if (guarded && (k == start || k == end - 4096)) || !accessible { FLAG_NO_EXECUTE | FLAG_USER } else { fresh }),
{
    let nx = PageFlags { bits: FLAG_NO_EXECUTE };
    let ghost m0 = a@;
    if !accessible {
        let acc_start = if guarded { start + USER_PAGE_SIZE } else { start };
        let acc_end = if guarded { end - USER_PAGE_SIZE } else { end };
        proof {
            assert forall|k: usize| page_in(k as int, acc_start as int, acc_end as int) implies #[trigger] a@.contains_key(k) by {
                assert(page_in(k as int, start as int, end as int)) by (nonlinear_arith)
                    requires (k - acc_start) % 4096 == 0, acc_start <= k < acc_end, (acc_start - start) % 4096 == 0,
                        start <= acc_start, acc_end <= end;
            }
        }
        protect_range_pages(a, acc_start, acc_end, nx, false);
        proof {
            assert forall|k: usize| page_in(k as int, start as int, end as int) && !(guarded && (k == start || k == end - 4096)) implies
                page_in(k as int, acc_start as int, acc_end as int) by {
                assert(page_in(k as int, acc_start as int, acc_end as int)) by (nonlinear_arith)
                    requires (k - start) % 4096 == 0, start <= k < end, k != start || !guarded, k != end - 4096 || !guarded,
                        acc_start == (if guarded { start + 4096 } else { start as int }),
                        acc_end == (if guarded { end - 4096 } else { end as int }),
                        end % 4096 == 0, start % 4096 == 0;
            }
            assert forall|k: usize| page_in(k as int, acc_start as int, acc_end as int) implies page_in(k as int, start as int, end as int) by {
                assert(page_in(k as int, start as int, end as int)) by (nonlinear_arith)
                    requires (k - acc_start) % 4096 == 0, acc_start <= k < acc_end, (acc_start - start) % 4096 == 0,
                        start <= acc_start, acc_end <= end;
            }
        }
    }
    let ghost m1 = a@;
    let ghost mut m2 = a@;
    if guarded {
        proof {
            assert forall|k: usize| page_in(k as int, start as int, start + 4096) implies #[trigger] a@.contains_key(k) by {
                assert(k == start) by (nonlinear_arith)
                    requires (k - start) % 4096 == 0, start <= k < start + 4096;
                assert(page_in(k as int, start as int, end as int));
            }
        }
        protect_range_pages(a, start, start + USER_PAGE_SIZE, nx, false);
        proof {
            m2 = a@;
            assert forall|k: usize| page_in(k as int, end - 4096, end as int) implies #[trigger] a@.contains_key(k) by {
                assert(k == end - 4096) by (nonlinear_arith)
                    requires (k - (end - 4096)) % 4096 == 0, end - 4096 <= k < end;
                assert(page_in(k as int, start as int, end as int)) by (nonlinear_arith)
                    requires k == end - 4096, end % 4096 == 0, start % 4096 == 0, start + 8192 <= end;
            }
        }
        protect_range_pages(a, end - USER_PAGE_SIZE, end, nx, false);
    }
    proof {
        assert(FLAG_NO_EXECUTE | FLAG_USER == nx.bits | FLAG_USER);
        assert forall|k: usize| page_in(k as int, start as int, end as int) implies (#[trigger] a@[k]).1.bits ==
            (if (guarded && (k == start || k == end - 4096)) || !accessible { FLAG_NO_EXECUTE | FLAG_USER } else { fresh }) by {
            if !accessible && !(guarded && (k == start || k == end - 4096)) {
                let acc_start = if guarded { start + 4096 } else { start as int };
                let acc_end = if guarded { end - 4096 } else { end as int };
                assert(page_in(k as int, acc_start, acc_end)) by (nonlinear_arith)
                    requires (k - start) % 4096 == 0, start <= k < end, k != start || !guarded, k != end - 4096 || !guarded,
                        acc_start == (if guarded { start + 4096 } else { start as int }),
                        acc_end == (if guarded { end - 4096 } else { end as int }),
                        end % 4096 == 0, start % 4096 == 0;
                assert(m1[k].1.bits == FLAG_NO_EXECUTE | FLAG_USER);
            }
            if accessible {
                assert(m1[k] == m0[k]);
            }
            if guarded {
                if k == start {
                    assert(page_in(k as int, start as int, start + 4096));
                    assert(m2[k].1.bits == FLAG_NO_EXECUTE | FLAG_USER);
                    assert(!page_in(k as int, end - 4096, end as int)) by (nonlinear_arith)
                        requires k == start, start + 8192 <= end;
                    assert(m0.contains_key(k));
                    assert(m2.contains_key(k));
                    assert(a@[k] == m2[k]);
                } else if k == end - 4096 {
                    assert(page_in(k as int, end - 4096, end as int));
                } else {
                    assert(!page_in(k as int, start as int, start + 4096)) by (nonlinear_arith)
                        requires k != start, (k - start) % 4096 == 0, k >= start;
                    assert(!page_in(k as int, end - 4096, end as int)) by (nonlinear_arith)
                        requires k != end - 4096, (k - start) % 4096 == 0, k >= start, end % 4096 == 0, start % 4096 == 0;
                    assert(m0.contains_key(k));
                    assert(m1.contains_key(k));
                    assert(m2[k] == m1[k]);
                    assert(m2.contains_key(k));
                    assert(a@[k] == m2[k]);
                }
            }
        }
        assert forall|k: usize| #[trigger] old(a)@.contains_key(k) && !page_in(k as int, start as int, end as int) implies a@[k] == old(a)@[k] by {
            if guarded {
                assert(!page_in(k as int, start as int, start + 4096)) by (nonlinear_arith)
                    requires !page_in(k as int, start as int, end as int), start + 8192 <= end;
                assert(!page_in(k as int, end - 4096, end as int)) by (nonlinear_arith)
                    requires !page_in(k as int, start as int, end as int), start + 8192 <= end, end % 4096 == 0, start % 4096 == 0;
            }
            if !accessible {
                let acc_start = if guarded { start + 4096 } else { start as int };
                let acc_end = if guarded { end - 4096 } else { end as int };
                assert(!page_in(k as int, acc_start, acc_end)) by (nonlinear_arith)
                    requires !page_in(k as int, start as int, end as int),
                        acc_start == (if guarded { start + 4096 } else { start as int }),
                        acc_end == (if guarded { end - 4096 } else { end as int }),
                        end % 4096 == 0, start % 4096 == 0, start < end, guarded ==> start + 8192 <= end;
            }
        }
    }
}

impl Process {
    /// Maps zero-filled private anonymous memory. Address 0 takes the next
    /// address of the mapping cursor, which then moves past the mapping; a
    /// non-zero address is an exact, page-aligned request. With `guarded`
    /// an inaccessible page is kept on each side and the address of the
    /// usable part is returned; without `accessible` the pages are reserved
    /// but not present.
    #[verifier::rlimit(40)]
    pub fn map_anonymous(&mut self, requested_addr: usize, length: usize, writable: bool, executable: bool, guarded: bool, accessible: bool, pmm: &mut PhysicalMemoryManager) -> (r: Result<usize, ProcessError>)
        requires
            old(self).wf(),
            old(pmm).wf(),
            old(pmm).spec_base() % 4096 == 0,
        ensures
            final(self).wf(),
            final(pmm).wf(),
            final(pmm).spec_base() == old(pmm).spec_base(),
            final(self).spec_has_address_space() == old(self).spec_has_address_space(),
            anon_plan(*old(self), requested_addr, length, guarded) is None ==>
                r == Err::<usize, ProcessError>(ProcessError::InvalidMemoryRange),
            anon_plan(*old(self), requested_addr, length, guarded) matches Some((start, end)) ==> {
                &&& !old(self).spec_has_address_space() ==> r == Err::<usize, ProcessError>(ProcessError::NoAddressSpace)
                &&& old(self).spec_has_address_space() && !range_unmapped(old(self).spec_address_space()@, start, end) ==>
                    r == Err::<usize, ProcessError>(ProcessError::AddressInUse)
                &&& old(self).spec_has_address_space() && range_unmapped(old(self).spec_address_space()@, start, end)
                    && (end - start) / 4096 > old(pmm).spec_free_frames() ==> r == Err::<usize, ProcessError>(ProcessError::OutOfMemory)
                &&& old(self).spec_has_address_space() && range_unmapped(old(self).spec_address_space()@, start, end)
                    && (end - start) / 4096 <= old(pmm).spec_free_frames() ==> {
                    let m0 = old(self).spec_address_space()@;
                    let m1 = final(self).spec_address_space()@;
                    &&& r == Ok::<usize, ProcessError>((if guarded { start + 4096 } else { start }) as usize)
                    &&& forall|k: usize| #[trigger] m1.contains_key(k) <==> m0.contains_key(k) || page_in(k as int, start, end)
                    &&& forall|k: usize| #[trigger] m0.contains_key(k) ==> m1[k] == m0[k]
                    &&& forall|k: usize| page_in(k as int, start, end) ==>
                        (#[trigger] m1[k]).1.bits == anon_page_flags(k as int, start, end, writable, executable, guarded, accessible)
                    &&& final(self).next_mmap_addr == (if requested_addr == 0 { end as usize } else { old(self).next_mmap_addr })
                    &&& final(self).guard_regions@ == (if guarded {
                            old(self).guard_regions@.push(((start + 4096) as usize, round_page(length as int) as usize))
                        } else {
                            old(self).guard_regions@
                        })
                }
            },
            r is Err ==> (final(self).spec_has_address_space() ==> final(self).spec_address_space()@ == old(self).spec_address_space()@)
                && final(self).next_mmap_addr == old(self).next_mmap_addr && final(self).guard_regions == old(self).guard_regions,
            *final(self) == (Process { address_space: final(self).address_space, next_mmap_addr: final(self).next_mmap_addr,
                guard_regions: final(self).guard_regions, ..*old(self) }),
            r matches Ok(a) ==> a % 4096 == 0,
    {
        let (start, end, map_length) = match self.anon_range(requested_addr, length, guarded) {
            Ok(v) => v,
            Err(e) => return Err(e),
        };
        let mut a = match self.address_space.take() {
            Some(a) => a,
            None => return Err(ProcessError::NoAddressSpace),
        };
        if !range_is_free(&a, start, end) {
            self.address_space = Some(a);
            return Err(ProcessError::AddressInUse);
        }
        let w: u64 = if writable { FLAG_WRITABLE } else { 0 };
        let x: u64 = if !executable { FLAG_NO_EXECUTE } else { 0 };
        let page_flags = PageFlags { bits: w | x };
        if !map_fresh_range(&mut a, start, end, page_flags, pmm) {
            self.address_space = Some(a);
            return Err(ProcessError::OutOfMemory);
        }
        let ghost mid = a@;
        apply_anon_protection(&mut a, start, end, guarded, accessible,
            Ghost(page_flags.bits | FLAG_PRESENT | FLAG_USER | FLAG_PRESENT | FLAG_USER));
        proof {
            let m0 = old(self).spec_address_space()@;
            assert forall|k: usize| #[trigger] m0.contains_key(k) implies a@[k] == m0[k] by {
                assert(!page_in(k as int, start as int, end as int));
                assert(mid.contains_key(k));
            }
        }
        if requested_addr == 0 {
            self.next_mmap_addr = end;
        }
        if guarded {
            let ghost g0 = self.guard_regions@;
            self.guard_regions.push((start + USER_PAGE_SIZE, map_length));
            proof {
                assert forall|i: int| 0 <= i < self.guard_regions@.len() implies {
                    let (usable, len) = #[trigger] self.guard_regions@[i];
                    &&& usable >= USER_MMAP_BASE + 4096
                    &&& usable % 4096 == 0
                    &&& len % 4096 == 0
                    &&& usable + len + 4096 <= USER_MMAP_END
                } by {
                    if i < g0.len() {
                        assert(self.guard_regions@[i] == g0[i]);
                    }
                }
            }
        }
        self.address_space = Some(a);
        if guarded {
            Ok(start + USER_PAGE_SIZE)
        } else {
            Ok(start)
        }
    }
}

/// The guard reservation `g` (usable start, usable length, one guard page
/// on each side) meets `[start, end)`.
pub open spec fn guard_overlaps(g: (usize, usize), start: int, end: int) -> bool {
    start < g.0 + g.1 + 4096 && end > g.0 - 4096
}

/// `[start, end)` is exactly the usable part of `g`.
pub open spec fn guard_exact(g: (usize, usize), start: int, end: int) -> bool {
    start == g.0 && end == g.0 + g.1
}

/// Unmapping `[start, end)` may touch guard reservations only by naming the
/// usable part of one exactly.
pub open spec fn guards_allow_unmap(gs: Seq<(usize, usize)>, start: int, end: int) -> bool {
    forall|i: int| 0 <= i < gs.len() && guard_overlaps(#[trigger] gs[i], start, end) ==> guard_exact(gs[i], start, end)
}

/// A guard page of some reservation lies in `[start, end)`.
pub open spec fn hits_guard_page(gs: Seq<(usize, usize)>, start: int, end: int) -> bool {
    exists|i: int| 0 <= i < gs.len() && {
        let g = #[trigger] gs[i];
        (start <= g.0 - 4096 < end) || (start <= g.0 + g.1 < end)
    }
}

/// Removes the entry of `page` from a page-to-object table, if present.
fn take_shared_page(pages: &mut Vec<(usize, u64)>, page: usize) -> (r: Option<u64>)
    ensures
        r matches Some(id) ==> exists|i: int| 0 <= i < old(pages)@.len() && old(pages)@[i] == (page, id)
            && final(pages)@ == old(pages)@.remove(i),
        r is None ==> final(pages)@ == old(pages)@ && forall|i: int| 0 <= i < old(pages)@.len() ==> old(pages)@[i].0 != page,
{
    let mut i: usize = 0;
    while i < pages.len()
        invariant
            i <= pages@.len(),
            pages@ == old(pages)@,
            forall|j: int| 0 <= j < i ==> pages@[j].0 != page,
        decreases pages@.len() - i,
    {
        if pages[i].0 == page {
            let (_, id) = pages.remove(i);
            return Some(id);
        }
        i = i + 1;
    }
    None
}

impl Process {
    /// Finds the guard reservation an unmap of `[start, end)` would release:
    /// `Err` when it meets one without naming its usable part exactly.
    fn guard_for_unmap(&self, start: usize, end: usize) -> (r: Result<Option<(usize, usize)>, ProcessError>)
        requires
            self.wf(),
        ensures
            r is Err <==> !guards_allow_unmap(self.guard_regions@, start as int, end as int),
            r is Err ==> r == Err::<Option<(usize, usize)>, ProcessError>(ProcessError::InvalidMemoryRange),
            r matches Ok(Some(g)) ==> self.guard_regions@.contains(g) && guard_exact(g, start as int, end as int),
            r matches Ok(None) ==> forall|i: int| 0 <= i < self.guard_regions@.len() ==>
                !guard_overlaps(#[trigger] self.guard_regions@[i], start as int, end as int),
    {
        let mut guard: Option<(usize, usize)> = None;
        let mut i: usize = 0;
        while i < self.guard_regions.len()
            invariant
                i <= self.guard_regions@.len(),
                guards_wf(self.guard_regions@),
                forall|j: int| 0 <= j < i && guard_overlaps(#[trigger] self.guard_regions@[j], start as int, end as int) ==>
                    guard_exact(self.guard_regions@[j], start as int, end as int),
                guard matches Some(g) ==> self.guard_regions@.contains(g) && guard_exact(g, start as int, end as int),
                guard is None ==> forall|j: int| 0 <= j < i ==> !guard_overlaps(#[trigger] self.guard_regions@[j], start as int, end as int),
            decreases self.guard_regions@.len() - i,
        {
            let (usable, len) = self.guard_regions[i];
            proof {
                assert(guards_wf(self.guard_regions@));
                let g = self.guard_regions@[i as int];
                assert(g.0 >= USER_MMAP_BASE + 4096 && g.0 + g.1 + 4096 <= USER_MMAP_END);
            }
            let reservation_start = usable - USER_PAGE_SIZE;
            let reservation_end = usable + len + USER_PAGE_SIZE;
            if start < reservation_end && end > reservation_start {
                if start != usable || end != usable + len {
                    return Err(ProcessError::InvalidMemoryRange);
                }
                guard = Some((usable, len));
                proof {
                    assert(self.guard_regions@[i as int] == (usable, len));
                }
            }
            i = i + 1;
        }
        Ok(guard)
    }

    /// Unmaps `[start, start + length)` (page-rounded), which must be fully
    /// mapped. A range that meets a guard reservation must be exactly its
    /// usable part; the guard pages and the reservation go with it. Pages
    /// of shared objects drop their reference.
    pub fn unmap_range(&mut self, start: usize, length: usize, pmm: &mut PhysicalMemoryManager, registry: &mut SharedVmRegistry) -> (r: Result<(), ProcessError>)
        requires
            old(self).wf(),
            old(pmm).wf(),
            old(registry).wf(),
        ensures
            final(self).wf(),
            final(pmm).wf(),
            final(registry).wf(),
            final(pmm).spec_base() == old(pmm).spec_base(),
            final(self).spec_has_address_space() == old(self).spec_has_address_space(),
            ({
                let end = start + round_page(length as int);
                let bad = start < USER_MMAP_BASE || start % 4096 != 0 || length == 0 || length as int + 4095 > usize::MAX
                    || end > USER_MMAP_END;
                &&& bad ==> r == Err::<(), ProcessError>(ProcessError::InvalidMemoryRange)
                &&& !bad && !guards_allow_unmap(old(self).guard_regions@, start as int, end) ==>
                    r == Err::<(), ProcessError>(ProcessError::InvalidMemoryRange)
                &&& !bad && guards_allow_unmap(old(self).guard_regions@, start as int, end) && !old(self).spec_has_address_space() ==>
                    r == Err::<(), ProcessError>(ProcessError::NoAddressSpace)
                &&& !bad && guards_allow_unmap(old(self).guard_regions@, start as int, end) && old(self).spec_has_address_space()
                    && !range_mapped(old(self).spec_address_space()@, start as int, end) ==>
                    r == Err::<(), ProcessError>(ProcessError::InvalidMemoryRange)
                &&& !bad && guards_allow_unmap(old(self).guard_regions@, start as int, end) && old(self).spec_has_address_space()
                    && range_mapped(old(self).spec_address_space()@, start as int, end) ==> r is Ok
                &&& r is Ok ==> forall|k: usize| #[trigger] final(self).spec_address_space()@.contains_key(k) ==>
                    old(self).spec_address_space()@.contains_key(k) && !page_in(k as int, start as int, end)
                        && final(self).spec_address_space()@[k] == old(self).spec_address_space()@[k]
                &&& r is Ok ==> forall|k: usize| #[trigger] old(self).spec_address_space()@.contains_key(k)
                    && !page_in(k as int, start as int, end)
                    && !(exists|i: int| 0 <= i < old(self).guard_regions@.len() && guard_exact(#[trigger] old(self).guard_regions@[i], start as int, end)
                        && (k == old(self).guard_regions@[i].0 - 4096 || k == old(self).guard_regions@[i].0 + old(self).guard_regions@[i].1))
                    ==> final(self).spec_address_space()@.contains_key(k)
            }),
            r is Err ==> final(self).spec_address_space()@ == old(self).spec_address_space()@
                && final(self).guard_regions == old(self).guard_regions,
            final(self).fds() == old(self).fds(),
            final(self).handles() == old(self).handles(),
            final(self).pid == old(self).pid,
            final(self).is_kernel == old(self).is_kernel,
    {
        let end = match vm_range_end(start, length) {
            Ok(e) => e,
            Err(e) => return Err(e),
        };
        let guard = match self.guard_for_unmap(start, end) {
            Ok(g) => g,
            Err(e) => return Err(e),
        };
        let mut a = match self.address_space.take() {
            Some(a) => a,
            None => return Err(ProcessError::NoAddressSpace),
        };
        if !range_is_mapped(&a, start, end) {
            self.address_space = Some(a);
            return Err(ProcessError::InvalidMemoryRange);
        }
        let ghost m0 = a@;
        let mut page = start;
        while page < end
            invariant
                *self == (Process { shared_pages: self.shared_pages, address_space: self.address_space, ..*old(self) }),
                old(self).wf(),
                a.wf(),
                pmm.wf(),
                registry.wf(),
                pmm.spec_base() == old(pmm).spec_base(),
                mmap_window(start as int, end as int),
                start <= page <= end,
                (page - start) % 4096 == 0,
                a@ == m0.remove_keys(Set::new(|k: usize| page_in(k as int, start as int, page as int))),
            decreases end - page,
        {
            proof {
                lemma_window_page(start as int, end as int, page as int);
            }
            let _ = a.unmap_user_page(VirtualAddress(page), pmm);
            match take_shared_page(&mut self.shared_pages, page) {
                Some(id) => registry.release(id, 1, pmm),
                None => {},
            }
            proof {
                assert(a@ =~= m0.remove_keys(Set::new(|k: usize| page_in(k as int, start as int, page + 4096)))) by {
                    assert forall|k: usize| page_in(k as int, start as int, page + 4096) <==> (page_in(k as int, start as int, page as int) || k == page) by {
                        if page_in(k as int, start as int, page + 4096) && k != page {
                            assert(k < page) by (nonlinear_arith)
                                requires (k - start) % 4096 == 0, (page - start) % 4096 == 0, start <= k < page + 4096, k != page, start <= page;
                        }
                    }
                }
            }
            page = page + 4096;
        }
        let ghost m1 = a@;
        match guard {
            Some((usable, len)) => {
                proof {
                    let i = choose|i: int| 0 <= i < self.guard_regions@.len() && self.guard_regions@[i] == (usable, len);
                    assert(guards_wf(self.guard_regions@));
                    assert(self.guard_regions@[i].0 >= USER_MMAP_BASE + 4096);
                    assert(valid_user_page(usable - 4096)) by (nonlinear_arith)
                        requires usable >= USER_MMAP_BASE + 4096, usable % 4096 == 0, usable <= USER_MMAP_END;
                    assert(valid_user_page(usable + len)) by (nonlinear_arith)
                        requires usable + len + 4096 <= USER_MMAP_END, usable % 4096 == 0, len % 4096 == 0, usable >= USER_MMAP_BASE;
                }
                let _ = a.unmap_user_page(VirtualAddress(usable - USER_PAGE_SIZE), pmm);
                let _ = a.unmap_user_page(VirtualAddress(usable + len), pmm);
                self.remove_guard(usable);
            },
            None => {},
        }
        proof {
            assert forall|k: usize| #[trigger] a@.contains_key(k) implies
                m0.contains_key(k) && !page_in(k as int, start as int, end as int) && a@[k] == m0[k] by {
                assert(m1.contains_key(k));
            }
            assert forall|k: usize| #[trigger] m0.contains_key(k) && !page_in(k as int, start as int, end as int)
                && !(exists|i: int| 0 <= i < old(self).guard_regions@.len() && guard_exact(#[trigger] old(self).guard_regions@[i], start as int, end as int)
                    && (k == old(self).guard_regions@[i].0 - 4096 || k == old(self).guard_regions@[i].0 + old(self).guard_regions@[i].1))
                implies a@.contains_key(k) by {
                assert(m1.contains_key(k));
                if guard is Some {
                    let g = guard->0;
                    let i = choose|i: int| 0 <= i < old(self).guard_regions@.len() && old(self).guard_regions@[i] == g;
                    assert(guard_exact(old(self).guard_regions@[i], start as int, end as int));
                }
            }
        }
        self.address_space = Some(a);
        Ok(())
    }

    /// Drops the guard reservation whose usable part starts at `usable`.
    fn remove_guard(&mut self, usable: usize)
        requires
            guards_wf(old(self).guard_regions@),
        ensures
            guards_wf(final(self).guard_regions@),
            *final(self) == (Process { guard_regions: final(self).guard_regions, ..*old(self) }),
            forall|i: int| 0 <= i < final(self).guard_regions@.len() ==> old(self).guard_regions@.contains(#[trigger] final(self).guard_regions@[i]),
            final(self).guard_regions@ == old(self).guard_regions@.filter(|g: (usize, usize)| g.0 != usable),
    {
        let mut kept: Vec<(usize, usize)> = Vec::new();
        let mut i: usize = 0;
        while i < self.guard_regions.len()
            invariant
                i <= self.guard_regions@.len(),
                *self == *old(self),
                kept@ == self.guard_regions@.subrange(0, i as int).filter(|g: (usize, usize)| g.0 != usable),
                forall|j: int| 0 <= j < kept@.len() ==> old(self).guard_regions@.contains(#[trigger] kept@[j]),
                guards_wf(kept@),
                guards_wf(old(self).guard_regions@),
            decreases self.guard_regions@.len() - i,
        {
            let g = self.guard_regions[i];
            proof {
                let s = self.guard_regions@.subrange(0, i as int + 1);
                assert(s.drop_last() =~= self.guard_regions@.subrange(0, i as int));
                reveal_with_fuel(Seq::filter, 1);
            }
            if g.0 != usable {
                let ghost k0 = kept@;
                kept.push(g);
                proof {
                    assert(old(self).guard_regions@[i as int] == g);
                    assert forall|j: int| 0 <= j < kept@.len() implies old(self).guard_regions@.contains(#[trigger] kept@[j]) by {
                        if j < k0.len() {
                            assert(kept@[j] == k0[j]);
                        }
                    }
                    assert forall|j: int| 0 <= j < kept@.len() implies {
                        let (u, l) = #[trigger] kept@[j];
                        &&& u >= USER_MMAP_BASE + 4096
                        &&& u % 4096 == 0
                        &&& l % 4096 == 0
                        &&& u + l + 4096 <= USER_MMAP_END
                    } by {
                        if j < k0.len() {
                            assert(kept@[j] == k0[j]);
                        } else {
                            assert(kept@[j] == old(self).guard_regions@[i as int]);
                        }
                    }
                }
            }
            i = i + 1;
        }
        proof {
            assert(self.guard_regions@.subrange(0, self.guard_regions@.len() as int) =~= self.guard_regions@);
        }
        self.guard_regions = kept;
    }

    /// Changes the protection of `[start, start + length)` (page-rounded),
    /// which must be fully mapped and hold no guard page.
    pub fn protect_range(&mut self, start: usize, length: usize, writable: bool, executable: bool, present: bool) -> (r: Result<(), ProcessError>)
        requires
            old(self).wf(),
        ensures
            final(self).wf(),
            final(self).spec_has_address_space() == old(self).spec_has_address_space(),
            ({
                let end = start + round_page(length as int);
                let bad = start < USER_MMAP_BASE || start % 4096 != 0 || length == 0 || length as int + 4095 > usize::MAX
                    || end > USER_MMAP_END;
                let flags = anon_flags(writable, executable);
                &&& bad ==> r == Err::<(), ProcessError>(ProcessError::InvalidMemoryRange)
                &&& !bad && hits_guard_page(old(self).guard_regions@, start as int, end) ==>
                    r == Err::<(), ProcessError>(ProcessError::InvalidMemoryRange)
                &&& !bad && !hits_guard_page(old(self).guard_regions@, start as int, end) && !old(self).spec_has_address_space() ==>
                    r == Err::<(), ProcessError>(ProcessError::NoAddressSpace)
                &&& !bad && !hits_guard_page(old(self).guard_regions@, start as int, end) && old(self).spec_has_address_space()
                    && !range_mapped(old(self).spec_address_space()@, start as int, end) ==>
                    r == Err::<(), ProcessError>(ProcessError::InvalidMemoryRange)
                &&& !bad && !hits_guard_page(old(self).guard_regions@, start as int, end) && old(self).spec_has_address_space()
                    && range_mapped(old(self).spec_address_space()@, start as int, end) ==> {
                    let m0 = old(self).spec_address_space()@;
                    let m1 = final(self).spec_address_space()@;
                    &&& r is Ok
                    &&& m1.dom() == m0.dom()
                    &&& forall|k: usize| #[trigger] m0.contains_key(k) && !page_in(k as int, start as int, end) ==> m1[k] == m0[k]
                    &&& forall|k: usize| page_in(k as int, start as int, end) ==> (#[trigger] m1[k]).0 == m0[k].0
                        && m1[k].1.bits == (if present { flags | FLAG_USER | FLAG_PRESENT } else { flags | FLAG_USER })
                }
            }),
            r is Err ==> final(self).spec_address_space()@ == old(self).spec_address_space()@,
            *final(self) == (Process { address_space: final(self).address_space, ..*old(self) }),
    {
        let end = match vm_range_end(start, length) {
            Ok(e) => e,
            Err(e) => return Err(e),
        };
        let mut i: usize = 0;
        while i < self.guard_regions.len()
            invariant
                *self == *old(self),
                old(self).wf(),
                end == start + round_page(length as int),
                mmap_window(start as int, end as int),
                i <= self.guard_regions@.len(),
                guards_wf(self.guard_regions@),
                forall|j: int| 0 <= j < i ==> {
                    let g = #[trigger] self.guard_regions@[j];
                    !((start <= g.0 - 4096 < end) || (start <= g.0 + g.1 < end))
                },
            decreases self.guard_regions@.len() - i,
        {
            let (usable, len) = self.guard_regions[i];
            proof {
                let g = self.guard_regions@[i as int];
                assert(g.0 >= USER_MMAP_BASE + 4096 && g.0 + g.1 + 4096 <= USER_MMAP_END);
            }
            if start <= usable - USER_PAGE_SIZE && end > usable - USER_PAGE_SIZE
                || start <= usable + len && end > usable + len {
                proof {
                    let g = self.guard_regions@[i as int];
                    assert(g == (usable, len));
                    assert((start <= g.0 - 4096 < end) || (start <= g.0 + g.1 < end));
                    assert(old(self).guard_regions@[i as int] == g);
                    assert(hits_guard_page(old(self).guard_regions@, start as int, end as int));
                }
                return Err(ProcessError::InvalidMemoryRange);
            }
            i = i + 1;
        }
        let mut a = match self.address_space.take() {
            Some(a) => a,
            None => return Err(ProcessError::NoAddressSpace),
        };
        if !range_is_mapped(&a, start, end) {
            self.address_space = Some(a);
            return Err(ProcessError::InvalidMemoryRange);
        }
        let w: u64 = if writable { FLAG_WRITABLE } else { 0 };
        let x: u64 = if executable { 0 } else { FLAG_NO_EXECUTE };
        protect_range_pages(&mut a, start, end, PageFlags { bits: w | x }, present);
        self.address_space = Some(a);
        Ok(())
    }

    /// A new shared object of `length` bytes owned by this process.
    pub fn create_shared_vm(&mut self, length: usize, pmm: &mut PhysicalMemoryManager, registry: &mut SharedVmRegistry) -> (r: Result<u64, ProcessError>)
        requires
            old(self).wf(),
            old(pmm).wf(),
            old(registry).wf(),
            old(registry).spec_next_id() < u64::MAX,
        ensures
            final(self).wf(),
            final(pmm).wf(),
            final(registry).wf(),
            old(self).is_kernel || length == 0 ==> r == Err::<u64, ProcessError>(ProcessError::InvalidMemoryRange),
            r matches Ok(id) ==> final(self).shared_owned@ == old(self).shared_owned@.push(id)
                && final(registry)@.contains_key(id) && final(registry)@[id].refs == 1
                && !old(registry)@.contains_key(id),
            r is Err ==> final(self).shared_owned == old(self).shared_owned && final(registry)@ == old(registry)@,
            !old(self).is_kernel && length > 0 && page_round_up(length as int) is Some
                && page_round_up(length as int)->0 <= MAX_SHARED_OBJECT
                && page_round_up(length as int)->0 / 4096 <= old(pmm).spec_free_frames() ==> r is Ok,
            *final(self) == (Process { shared_owned: final(self).shared_owned, ..*old(self) }),
    {
        if self.is_kernel || length == 0 {
            return Err(ProcessError::InvalidMemoryRange);
        }
        let id = match registry.alloc_object(length, pmm) {
            Ok(id) => id,
            Err(e) => return Err(e),
        };
        self.shared_owned.push(id);
        Ok(id)
    }

    /// Gives up this process's ownership of shared object `id`.
    pub fn close_shared_vm(&mut self, id: u64, pmm: &mut PhysicalMemoryManager, registry: &mut SharedVmRegistry) -> (r: Result<(), ProcessError>)
        requires
            old(self).wf(),
            old(pmm).wf(),
            old(registry).wf(),
        ensures
            final(self).wf(),
            final(pmm).wf(),
            final(registry).wf(),
            !old(self).shared_owned@.contains(id) ==> r == Err::<(), ProcessError>(ProcessError::InvalidMemoryRange)
                && final(self).shared_owned == old(self).shared_owned && final(registry)@ == old(registry)@,
            old(self).shared_owned@.contains(id) ==> r is Ok
                && (exists|i: int| 0 <= i < old(self).shared_owned@.len() && old(self).shared_owned@[i] == id
                    && (forall|j: int| 0 <= j < i ==> old(self).shared_owned@[j] != id)
                    && final(self).shared_owned@ == old(self).shared_owned@.update(i, old(self).shared_owned@.last()).drop_last())
                && (old(registry)@.contains_key(id) && old(registry)@[id].refs <= 1 ==> final(registry)@ == old(registry)@.remove(id))
                && (old(registry)@.contains_key(id) && old(registry)@[id].refs > 1 ==> final(registry)@.dom() == old(registry)@.dom()
                    && final(registry)@[id].refs == old(registry)@[id].refs - 1),
            *final(self) == (Process { shared_owned: final(self).shared_owned, ..*old(self) }),
    {
        let mut index: usize = 0;
        while index < self.shared_owned.len() && self.shared_owned[index] != id
            invariant
                index <= self.shared_owned@.len(),
                forall|j: int| 0 <= j < index ==> self.shared_owned@[j] != id,
            decreases self.shared_owned@.len() - index,
        {
            index = index + 1;
        }
        if index == self.shared_owned.len() {
            return Err(ProcessError::InvalidMemoryRange);
        }
        let ghost s0 = self.shared_owned@;
        self.shared_owned.swap_remove(index);
        proof {
            assert(self.shared_owned@ =~= s0.update(index as int, s0.last()).drop_last());
            assert(s0[index as int] == id);
        }
        registry.release(id, 1, pmm);
        proof {
            if old(registry)@.contains_key(id) && old(registry)@[id].refs > 1 {
                assert(registry@.dom() =~= old(registry)@.dom());
            }
        }
        Ok(())
    }
}

/// Records that `page` maps shared object `id` (replacing an older record
/// of the page).
fn record_shared_page(pages: &mut Vec<(usize, u64)>, page: usize, id: u64)
    ensures
        exists|i: int| 0 <= i < final(pages)@.len() && final(pages)@[i] == (page, id),
        forall|i: int| 0 <= i < old(pages)@.len() && old(pages)@[i].0 != page ==> final(pages)@.contains(old(pages)@[i]),
{
    let mut i: usize = 0;
    while i < pages.len()
        invariant
            i <= pages@.len(),
            pages@ == old(pages)@,
            forall|j: int| 0 <= j < i ==> pages@[j].0 != page,
        decreases pages@.len() - i,
    {
        if pages[i].0 == page {
            pages.set(i, (page, id));
            proof {
                assert(pages@[i as int] == (page, id));
                assert forall|k: int| 0 <= k < old(pages)@.len() && old(pages)@[k].0 != page implies pages@.contains(old(pages)@[k]) by {
                    assert(pages@[k] == old(pages)@[k]);
                }
            }
            return;
        }
        i = i + 1;
    }
    pages.push((page, id));
    proof {
        assert(pages@[pages@.len() - 1] == (page, id));
        assert forall|k: int| 0 <= k < old(pages)@.len() && old(pages)@[k].0 != page implies pages@.contains(old(pages)@[k]) by {
            assert(pages@[k] == old(pages)@[k]);
        }
    }
}

/// Entry flags of a shared mapping.
pub open spec fn shared_flags(writable: bool) -> u64 {
    FLAG_NO_EXECUTE | (if writable { FLAG_WRITABLE } else { 0u64 }) | FLAG_PRESENT | FLAG_USER
}

impl Process {
    /// Maps every frame of shared object `id` at consecutive pages, at the
    /// mapping cursor (address 0, which then moves past it) or at
    /// `requested_addr`. Each mapped page holds a reference to the object;
    /// on failure the references taken are dropped again and nothing stays
    /// mapped.
    pub fn map_shared_vm(&mut self, id: u64, requested_addr: usize, writable: bool, pmm: &mut PhysicalMemoryManager, registry: &mut SharedVmRegistry) -> (r: Result<usize, ProcessError>)
        requires
            old(self).wf(),
            old(pmm).wf(),
            old(registry).wf(),
        ensures
            final(self).wf(),
            final(pmm).wf(),
            final(registry).wf(),
            final(self).spec_has_address_space() == old(self).spec_has_address_space(),
            old(self).is_kernel ==> r == Err::<usize, ProcessError>(ProcessError::InvalidUserContext),
            !old(self).is_kernel && !old(registry)@.contains_key(id) ==> r == Err::<usize, ProcessError>(ProcessError::InvalidMemoryRange),
            r is Err ==> (final(self).spec_has_address_space() ==> final(self).spec_address_space()@ == old(self).spec_address_space()@)
                && final(self).next_mmap_addr == old(self).next_mmap_addr,
            r matches Ok(start) ==> {
                let frames = old(registry)@[id].frames@;
                let m0 = old(self).spec_address_space()@;
                let m1 = final(self).spec_address_space()@;
                &&& old(registry)@.contains_key(id)
                &&& start == (if requested_addr == 0 { old(self).next_mmap_addr } else { requested_addr })
                &&& mmap_window(start as int, start + frames.len() * 4096)
                &&& forall|i: int| 0 <= i < frames.len() ==> #[trigger] m1[(start + i * 4096) as usize] == (frames[i], PageFlags { bits: shared_flags(writable) })
                &&& forall|k: usize| #[trigger] m1.contains_key(k) <==> m0.contains_key(k) || page_in(k as int, start as int, start + frames.len() * 4096)
                &&& forall|k: usize| #[trigger] m0.contains_key(k) ==> m1[k] == m0[k]
                &&& final(registry)@[id].frames == old(registry)@[id].frames
                &&& final(self).next_mmap_addr == (if requested_addr == 0 { (start + frames.len() * 4096) as usize } else { old(self).next_mmap_addr })
            },
            final(self).fds() == old(self).fds(),
            final(self).handles() == old(self).handles(),
            final(self).pid == old(self).pid,
            final(self).is_kernel == old(self).is_kernel,
    {
        if self.is_kernel {
            return Err(ProcessError::InvalidUserContext);
        }
        let frames = match registry.frames_of(id) {
            Some(f) => f,
            None => return Err(ProcessError::InvalidMemoryRange),
        };
        proof {
            registry.lemma_wf();
        }
        let n = frames.len();
        registry.add_refs(id, n);
        let length = n * USER_PAGE_SIZE;
        let start = if requested_addr == 0 { self.next_mmap_addr } else { requested_addr };
        proof {
            assert(start & 4095usize == start % 4096) by (bit_vector);
        }
        let end = match start.checked_add(length) {
            Some(e) => e,
            None => {
                registry.release(id, n, pmm);
                return Err(ProcessError::InvalidMemoryRange);
            },
        };
        if !(start >= USER_MMAP_BASE && start & (USER_PAGE_SIZE - 1) == 0 && end <= USER_MMAP_END) {
            registry.release(id, n, pmm);
            return Err(ProcessError::InvalidMemoryRange);
        }
        proof {
            assert(length % 4096 == 0) by (nonlinear_arith)
                requires length == n * 4096;
            assert(mmap_window(start as int, end as int));
        }
        let mut a = match self.address_space.take() {
            Some(a) => a,
            None => {
                registry.release(id, n, pmm);
                return Err(ProcessError::NoAddressSpace);
            },
        };
        let ghost m0 = a@;
        let flags = PageFlags { bits: FLAG_NO_EXECUTE | (if writable { FLAG_WRITABLE } else { 0u64 }) };
        let mut index: usize = 0;
        while index < n
            invariant
                a.wf(),
                pmm.wf(),
                registry.wf(),
                n == frames@.len(),
                index <= n,
                end == start + n * 4096,
                mmap_window(start as int, end as int),
                flags.bits == FLAG_NO_EXECUTE | (if writable { FLAG_WRITABLE } else { 0u64 }),
                range_unmapped(m0, start as int, start + index * 4096),
                forall|k: usize| #[trigger] a@.contains_key(k) <==> m0.contains_key(k) || page_in(k as int, start as int, start + index * 4096),
                forall|k: usize| #[trigger] m0.contains_key(k) ==> a@[k] == m0[k],
                forall|i: int| 0 <= i < index ==> #[trigger] a@[(start + i * 4096) as usize] == (frames@[i], PageFlags { bits: shared_flags(writable) }),
                *self == (Process { address_space: self.address_space, ..*old(self) }),
                old(self).wf(),
                old(self).spec_has_address_space(),
                !old(self).is_kernel,
                m0 == old(self).spec_address_space()@,
                old(registry)@.contains_key(id),
                frames@ == old(registry)@[id].frames@,
                registry@.dom() == old(registry)@.dom(),
                registry@[id].frames == old(registry)@[id].frames,
                start == (if requested_addr == 0 { old(self).next_mmap_addr } else { requested_addr }),
            decreases n - index,
        {
            let page = start + index * USER_PAGE_SIZE;
            proof {
                assert(page_in(page as int, start as int, end as int)) by (nonlinear_arith)
                    requires page == start + index * 4096, index < n, end == start + n * 4096;
                lemma_window_page(start as int, end as int, page as int);
                assert(page as int % 4096 == 0);
            }
            let taken = match a.translate_user_page(VirtualAddress(page)) {
                Ok(Some(_)) => true,
                _ => false,
            };
            let ok = if taken {
                false
            } else {
                match a.map_user_frame(VirtualAddress(page), frames[index], flags) {
                    Ok(()) => true,
                    Err(_) => false,
                }
            };
            if !ok {
                proof {
                    assert(mmap_window(start as int, page as int));
                }
                unmap_range_pages(&mut a, start, page, pmm);
                proof {
                    assert(a@ =~= m0) by {
                        assert forall|k: usize| #[trigger] a@.contains_key(k) <==> m0.contains_key(k) by {
                            if m0.contains_key(k) && page_in(k as int, start as int, page as int) {
                                assert(!m0.contains_key(k));
                            }
                        }
                    }
                }
                self.address_space = Some(a);
                registry.release(id, n, pmm);
                return Err(ProcessError::AddressInUse);
            }
            proof {
                assert(!m0.contains_key(page));
                assert((FLAG_NO_EXECUTE | (if writable { FLAG_WRITABLE } else { 0u64 })) | FLAG_PRESENT | FLAG_USER == shared_flags(writable));
                assert forall|k: usize| #[trigger] a@.contains_key(k) <==> m0.contains_key(k) || page_in(k as int, start as int, start + (index + 1) * 4096) by {
                    if page_in(k as int, start as int, start + (index + 1) * 4096) && k != page {
                        assert(page_in(k as int, start as int, start + index * 4096)) by (nonlinear_arith)
                            requires (k - start) % 4096 == 0, start <= k < start + (index + 1) * 4096, k != page, page == start + index * 4096;
                    }
                    if page_in(k as int, start as int, start + index * 4096) {
                        assert(page_in(k as int, start as int, start + (index + 1) * 4096));
                    }
                    if k == page {
                        assert(page_in(k as int, start as int, start + (index + 1) * 4096));
                    }
                }
                assert forall|k: usize| page_in(k as int, start as int, start + (index + 1) * 4096) implies !(#[trigger] m0.contains_key(k)) by {
                    if k != page {
                        assert(page_in(k as int, start as int, start + index * 4096)) by (nonlinear_arith)
                            requires (k - start) % 4096 == 0, start <= k < start + (index + 1) * 4096, k != page, page == start + index * 4096;
                    }
                }
                assert forall|i: int| 0 <= i < index + 1 implies #[trigger] a@[(start + i * 4096) as usize] == (frames@[i], PageFlags { bits: shared_flags(writable) }) by {
                    if i < index {
                        assert(start + i * 4096 < page) by (nonlinear_arith)
                            requires 0 <= i < index, page == start + index * 4096;
                        assert((start + i * 4096) as usize != page);
                    }
                }
            }
            index = index + 1;
        }
        if requested_addr == 0 {
            self.next_mmap_addr = end;
        }
        self.address_space = Some(a);
        let ghost s_mid = *self;
        let mut k: usize = 0;
        while k < n
            invariant
                k <= n,
                end == start + n * 4096,
                *self == (Process { shared_pages: self.shared_pages, ..s_mid }),
            decreases n - k,
        {
            record_shared_page(&mut self.shared_pages, start + k * USER_PAGE_SIZE, id);
            k = k + 1;
        }
        proof {
            assert(end % 4096 == 0) by (nonlinear_arith)
                requires end == start + n * 4096, start % 4096 == 0;
        }
        Ok(start)
    }
}

/// One piece of the TLS image to place: `len` bytes from `offset` of the
/// image go to physical address `phys`.
#[derive(Debug, Clone, Copy, PartialEq, Eq, Structural)]
pub struct TlsCopy {
    pub phys: PhysicalAddress,
    pub offset: usize,
    pub len: usize,
}

/// A placed TLS block: its mapping, the thread pointer, where the image
/// bytes go, and the physical address of the thread pointer's own slot
/// (which holds the thread pointer, x86_64 variant II).
pub struct TlsInstance {
    pub base: usize,
    pub length: usize,
    pub thread_pointer: usize,
    pub copies: Vec<TlsCopy>,
    pub pointer_slot: Option<PhysicalAddress>,
}

/// `a` is a power of two.
pub open spec fn is_pow2(a: usize) -> bool {
    a != 0 && a & ((a - 1) as usize) == 0
}

/// The copies cover `image_len` bytes from `base` in order, each inside one
/// page and aimed at the frame that maps it in `m`.
pub open spec fn copies_cover(copies: Seq<TlsCopy>, image_len: int, base: int, m: Map<usize, (PhysicalAddress, PageFlags)>) -> bool {
    &&& (copies.len() == 0 <==> image_len == 0)
    &&& copies.len() > 0 ==> copies[0].offset == 0 && copies.last().offset + copies.last().len == image_len
    &&& forall|i: int| 0 <= i < copies.len() - 1 ==> #[trigger] copies[i + 1].offset == copies[i].offset + copies[i].len
    &&& forall|i: int| 0 <= i < copies.len() ==> {
        let c = #[trigger] copies[i];
        let addr = base + c.offset;
        let page = addr - addr % 4096;
        &&& 0 < c.len <= 4096 - addr % 4096
        &&& m.contains_key(page as usize)
        &&& c.phys.0 == m[page as usize].0.0 + addr % 4096
    }
}

impl Process {
    /// Maps a fresh TLS block for the current template and lays out where
    /// its bytes go: the data sits directly below the thread pointer, whose
    /// slot holds the pointer itself. An empty template gives an empty
    /// instance at 0.
    pub fn allocate_tls_instance(&mut self, pmm: &mut PhysicalMemoryManager) -> (r: Result<TlsInstance, ProcessError>)
        requires
            old(self).wf(),
            old(pmm).wf(),
            old(pmm).spec_base() % 4096 == 0,
            is_pow2(old(self).tls_align),
        ensures
            final(self).wf(),
            final(pmm).wf(),
            final(pmm).spec_base() == old(pmm).spec_base(),
            final(self).tls_image == old(self).tls_image,
            final(self).tls_mem_size == old(self).tls_mem_size,
            final(self).tls_align == old(self).tls_align,
            old(self).tls_mem_size == 0 ==> (r matches Ok(t) && t.base == 0 && t.length == 0 && t.thread_pointer == 0
                && t.copies@.len() == 0 && t.pointer_slot is None) && *final(self) == *old(self),
            r matches Ok(t) ==> old(self).tls_mem_size != 0 ==> {
                let tls_size = ((old(self).tls_mem_size + old(self).tls_align - 1) as usize) & !((old(self).tls_align - 1) as usize);
                &&& t.length == round_page(tls_size + 8)
                &&& t.thread_pointer == t.base + tls_size
                &&& final(self).spec_has_address_space()
                &&& copies_cover(t.copies@, old(self).tls_image@.len() as int, t.base as int, final(self).spec_address_space()@)
                &&& t.pointer_slot is Some
            },
            final(self).fds() == old(self).fds(),
            final(self).handles() == old(self).handles(),
            final(self).pid == old(self).pid,
            final(self).is_kernel == old(self).is_kernel,
    {
        if self.tls_mem_size == 0 {
            return Ok(TlsInstance { base: 0, length: 0, thread_pointer: 0, copies: Vec::new(), pointer_slot: None });
        }
        let mask = self.tls_align - 1;
        let tls_size = match self.tls_mem_size.checked_add(mask) {
            Some(v) => v & !mask,
            None => return Err(ProcessError::InvalidMemoryRange),
        };
        let mapped_length = match tls_size.checked_add(8) {
            Some(v) => match round_len(v) {
                Some(m) => m,
                None => return Err(ProcessError::InvalidMemoryRange),
            },
            None => return Err(ProcessError::InvalidMemoryRange),
        };
        let base = match self.map_anonymous(0, mapped_length, true, false, false, true, pmm) {
            Ok(b) => b,
            Err(e) => return Err(e),
        };
        let image_len = self.tls_image.len();
        let mut copies: Vec<TlsCopy> = Vec::new();
        let mut copied: usize = 0;
        let a = match &self.address_space {
            Some(a) => a,
            None => return Err(ProcessError::NoAddressSpace),
        };
        let ghost s_mid = *self;
        while copied < image_len
            invariant
                *self == s_mid,
                pmm.wf(),
                pmm.spec_base() == old(pmm).spec_base(),
                s_mid.wf(),
                s_mid.tls_image == old(self).tls_image,
                s_mid.tls_mem_size == old(self).tls_mem_size,
                s_mid.tls_align == old(self).tls_align,
                s_mid.fds() == old(self).fds(),
                s_mid.handles() == old(self).handles(),
                s_mid.pid == old(self).pid,
                s_mid.is_kernel == old(self).is_kernel,
                s_mid.address_space == Some(*a),
                old(self).tls_mem_size != 0,
                copied <= image_len,
                a.wf(),
                image_len == self.tls_image@.len(),
                base as int + image_len <= usize::MAX || true,
                (copies@.len() == 0 <==> copied == 0),
                copies@.len() > 0 ==> copies@[0].offset == 0 && copies@.last().offset + copies@.last().len == copied,
                forall|i: int| 0 <= i < copies@.len() - 1 ==> #[trigger] copies@[i + 1].offset == copies@[i].offset + copies@[i].len,
                forall|i: int| 0 <= i < copies@.len() ==> {
                    let c = #[trigger] copies@[i];
                    let addr = base + c.offset;
                    let page = addr - addr % 4096;
                    &&& 0 < c.len <= 4096 - addr % 4096
                    &&& a@.contains_key(page as usize)
                    &&& c.phys.0 == a@[page as usize].0.0 + addr % 4096
                },
            decreases image_len - copied,
        {
            let addr = match base.checked_add(copied) {
                Some(v) => v,
                None => return Err(ProcessError::InvalidMemoryRange),
            };
            let in_page = addr % USER_PAGE_SIZE;
            let room = USER_PAGE_SIZE - in_page;
            let chunk = if room < image_len - copied { room } else { image_len - copied };
            let phys = match a.translate_user_page(VirtualAddress(addr)) {
                Ok(Some(p)) => p,
                _ => return Err(ProcessError::InvalidMemoryRange),
            };
            let ghost c0 = copies@;
            copies.push(TlsCopy { phys, offset: copied, len: chunk });
            proof {
                assert forall|i: int| 0 <= i < copies@.len() - 1 implies #[trigger] copies@[i + 1].offset == copies@[i].offset + copies@[i].len by {
                    if i + 1 < c0.len() {
                        assert(copies@[i] == c0[i] && copies@[i + 1] == c0[i + 1]);
                    } else {
                        assert(copies@[i] == c0.last());
                    }
                }
                assert forall|i: int| 0 <= i < copies@.len() implies {
                    let c = #[trigger] copies@[i];
                    let addr = base + c.offset;
                    let page = addr - addr % 4096;
                    &&& 0 < c.len <= 4096 - addr % 4096
                    &&& a@.contains_key(page as usize)
                    &&& c.phys.0 == a@[page as usize].0.0 + addr % 4096
                } by {
                    if i < c0.len() {
                        assert(copies@[i] == c0[i]);
                    }
                }
            }
            copied = copied + chunk;
        }
        let thread_pointer = match base.checked_add(tls_size) {
            Some(v) => v,
            None => return Err(ProcessError::InvalidMemoryRange),
        };
        let slot = match a.translate_user_page(VirtualAddress(thread_pointer)) {
            Ok(Some(p)) => p,
            _ => return Err(ProcessError::InvalidMemoryRange),
        };
        Ok(TlsInstance { base, length: mapped_length, thread_pointer, copies, pointer_slot: Some(slot) })
    }
}

} // verus!
