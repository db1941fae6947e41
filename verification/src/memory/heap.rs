//! The kernel heap's free list: address-ordered free blocks, first-fit
//! allocation with a header before each payload, and freeing that merges a
//! block with its free neighbours.
use vstd::prelude::*;
use crate::memory::pmm::{PhysicalMemoryManager, PhysicalAddress, run_free};

verus! {

/// Bytes of the header stored before each payload.
pub const ALLOC_HEADER_SIZE: usize = 16;
/// Smallest free block: room for the block's own bookkeeping.
pub const FREE_BLOCK_SIZE: usize = 16;
/// Alignment of headers and of block ends.
pub const WORD: usize = 8;
/// Largest alignment a request can ask for.
pub const MAX_ALIGN: usize = 0x2000_0000;
/// Every heap block ends at or below this address.
pub const HEAP_TOP: usize = usize::MAX - 0x4000_0000;

/// Free blocks `(start, size)` in list order, the bytes the heap manages,
/// and for each live allocation its payload address and the block
/// `(start, size)` it took.
pub struct HeapInner {
    pub free_list: Vec<(usize, usize)>,
    pub total_bytes: usize,
    pub headers: Vec<(usize, (usize, usize))>,
}

/// `a` rounded up to a multiple of `al`.
pub open spec fn align_up(a: int, al: int) -> int {
    ((a + al - 1) / al) * al
}

/// The payload size of a request (at least one byte).
pub open spec fn payload(size: usize) -> int {
    if size == 0 { 1 } else { size as int }
}

/// The alignment of a payload (at least that of its header).
pub open spec fn payload_align(align: usize) -> int {
    if align < WORD { WORD as int } else { align as int }
}

/// Where the payload goes in free block `b`.
pub open spec fn user_addr(b: (usize, usize), align: usize) -> int {
    align_up(b.0 + ALLOC_HEADER_SIZE, payload_align(align))
}

/// Whether the request's end, rounded up to a word, would pass the last
/// address when placed in block `b`; the allocation then fails.
pub open spec fn overflows(b: (usize, usize), size: usize, align: usize) -> bool {
    user_addr(b, align) + payload(size) > usize::MAX - (WORD - 1)
}

/// The word-aligned end of the request in block `b`.
pub open spec fn request_end(b: (usize, usize), size: usize, align: usize) -> int {
    align_up(user_addr(b, align) + payload(size), WORD as int)
}

/// Whether the request fits in block `b`.
pub open spec fn fits(b: (usize, usize), size: usize, align: usize) -> bool {
    !overflows(b, size, align) && request_end(b, size, align) <= b.0 + b.1
}

/// The first block from `i` on where the search stops: one that fits, or
/// one past which the request overflows.
pub open spec fn first_stop(l: Seq<(usize, usize)>, size: usize, align: usize, i: int) -> Option<int>
    decreases l.len() - i,
{
    if i < 0 || i >= l.len() {
        None
    } else if overflows(l[i], size, align) || fits(l[i], size, align) {
        Some(i)
    } else {
        first_stop(l, size, align, i + 1)
    }
}

/// The free list after block `i` serves a request ending at `end`: the tail
/// stays free when it can hold a free block, else the whole block goes.
pub open spec fn after_take(l: Seq<(usize, usize)>, i: int, end: int) -> Seq<(usize, usize)> {
    let rest = l[i].0 + l[i].1 - end;
    if rest >= FREE_BLOCK_SIZE { l.update(i, (end as usize, rest as usize)) } else { l.remove(i) }
}

/// Where a region starting at `start` goes: before the first block that
/// does not start below it.
pub open spec fn insert_pos(l: Seq<(usize, usize)>, start: usize, i: int) -> int
    decreases l.len() - i,
{
    if i < 0 || i >= l.len() || l[i].0 >= start { if i < 0 { 0 } else { i } } else { insert_pos(l, start, i + 1) }
}

/// The free list after freeing `(start, size)`: inserted in place, merged
/// with the next block when they touch, then with the previous one.
pub open spec fn with_region(l: Seq<(usize, usize)>, start: usize, size: usize) -> Seq<(usize, usize)> {
    let p = insert_pos(l, start, 0);
    let l1 = l.insert(p, (start, size));
    let l2 = if p + 1 < l1.len() && start + size == l1[p + 1].0 {
        l1.update(p, (start, (size + l1[p + 1].1) as usize)).remove(p + 1)
    } else {
        l1
    };
    if p > 0 && l2[p - 1].0 + l2[p - 1].1 == start {
        l2.update(p - 1, (l2[p - 1].0, (l2[p - 1].1 + l2[p].1) as usize)).remove(p)
    } else {
        l2
    }
}

/// Every free block lies below `HEAP_TOP`.
pub open spec fn blocks_below_top(l: Seq<(usize, usize)>) -> bool {
    forall|i: int| 0 <= i < l.len() ==> (#[trigger] l[i]).0 + l[i].1 <= HEAP_TOP
}

/// The first record of the allocation at `ptr`.
pub open spec fn first_header(h: Seq<(usize, (usize, usize))>, ptr: usize) -> int {
    choose|k: int| 0 <= k < h.len() && (#[trigger] h[k]).0 == ptr && forall|j: int| 0 <= j < k ==> h[j].0 != ptr
}

/// `after` is `before` with the allocation at `ptr` freed: its record
/// dropped and its block given back to the free list.
pub open spec fn freed(before: HeapInner, after: HeapInner, ptr: usize) -> bool {
    let k = first_header(before.headers@, ptr);
    let b = before.headers@[k].1;
    &&& after.headers@ == before.headers@.remove(k)
    &&& after.free_list@ == with_region(before.free_list@, b.0, b.1)
    &&& after.total_bytes == before.total_bytes
}

/// Free bytes of `l`, summed with saturation.
pub open spec fn free_sum(l: Seq<(usize, usize)>) -> int
    decreases l.len(),
{
    if l.len() == 0 {
        0
    } else {
        let s = free_sum(l.drop_last()) + l.last().1;
        if s > usize::MAX { usize::MAX as int } else { s }
    }
}

/// Byte counters of the heap.
pub struct KernelHeapStats {
    pub total_bytes: u64,
    pub free_bytes: u64,
    pub used_bytes: u64,
    pub free_blocks: u64,
}

fn align_up_exec(a: usize, al: usize) -> (r: usize)
    requires
        al > 0,
        a + al - 1 <= usize::MAX,
    ensures
        r == align_up(a as int, al as int),
        r >= a,
{
    let x = a + (al - 1);
    let q = x / al;
    proof {
        vstd::arithmetic::div_mod::lemma_fundamental_div_mod(x as int, al as int);
        vstd::arithmetic::div_mod::lemma_mod_bound(x as int, al as int);
    }
    assert(q * al <= x && q * al >= a) by (nonlinear_arith)
        requires
            q == x as int / (al as int),
            al > 0,
            x >= 0,
            x == a + al - 1,
            x == (al as int) * (x as int / (al as int)) + (x as int % (al as int)),
            0 <= x as int % (al as int) < al;
    q * al
}

impl HeapInner {
    /// Free blocks and allocated blocks all lie below `HEAP_TOP`.
    pub open spec fn wf(&self) -> bool {
        &&& blocks_below_top(self.free_list@)
        &&& forall|i: int| 0 <= i < self.headers@.len() ==> (#[trigger] self.headers@[i]).1.0 + self.headers@[i].1.1 <= HEAP_TOP
    }

    /// An empty heap.
    pub fn new() -> (r: Self)
        ensures
            r.wf(),
            r.free_list@.len() == 0,
            r.total_bytes == 0,
            r.headers@.len() == 0,
    {
        HeapInner { free_list: Vec::new(), total_bytes: 0, headers: Vec::new() }
    }

    /// Makes `[start, start + size)` the whole heap.
    pub fn add_bootstrap(&mut self, start: usize, size: usize)
        requires
            old(self).wf(),
            start + size <= HEAP_TOP,
        ensures
            final(self).wf(),
            final(self).free_list@ == seq![(start, size)],
            final(self).total_bytes == size,
            final(self).headers@ == old(self).headers@,
    {
        self.free_list = Vec::new();
        self.free_list.push((start, size));
        self.total_bytes = size;
    }

    /// First fit: the first block in list order where the request fits
    /// serves it, unless an earlier block would take the request past the
    /// last address, which fails the allocation. The payload address comes
    /// back and its block is recorded; the free tail stays in the list when
    /// it can hold a free block.
    pub fn alloc_from_free_list(&mut self, size: usize, align: usize) -> (r: Option<usize>)
        requires
            old(self).wf(),
            0 < align <= MAX_ALIGN,
        ensures
            final(self).wf(),
            final(self).total_bytes == old(self).total_bytes,
            ({
                let l = old(self).free_list@;
                match first_stop(l, size, align, 0) {
                    None => r is None && *final(self) == *old(self),
                    Some(i) => if overflows(l[i], size, align) {
                        r is None && *final(self) == *old(self)
                    } else {
                        let end = request_end(l[i], size, align);
                        let taken = if l[i].0 + l[i].1 - end >= FREE_BLOCK_SIZE { end } else { l[i].0 + l[i].1 };
                        &&& r == Some(user_addr(l[i], align) as usize)
                        &&& final(self).free_list@ == after_take(l, i, end)
                        &&& final(self).headers@ == old(self).headers@.push((r->0, (l[i].0, (taken - l[i].0) as usize)))
                    },
                }
            }),
    {
        let ghost l = self.free_list@;
        let n = self.free_list.len();
        let mut i: usize = 0;
        while i < n
            invariant
                n == l.len(),
                l == self.free_list@,
                *self == *old(self),
                old(self).wf(),
                i <= n,
                first_stop(l, size, align, 0) == first_stop(l, size, align, i as int),
                blocks_below_top(l),
                0 < align <= MAX_ALIGN,
            decreases n - i,
        {
            let (start, bsize) = self.free_list[i];
            proof {
                assert(l[i as int].0 + l[i as int].1 <= HEAP_TOP);
            }
            let block_end = start + bsize;
            let ua = if align < WORD { WORD } else { align };
            let user = align_up_exec(start + ALLOC_HEADER_SIZE, ua);
            let pl = if size == 0 { 1 } else { size };
            proof {
                assert(user == user_addr(l[i as int], align));
                assert(pl == payload(size));
            }
            if pl > usize::MAX - (WORD - 1) || user > usize::MAX - (WORD - 1) - pl {
                proof {
                    assert(overflows(l[i as int], size, align));
                }
                return None;
            }
            let end = user + pl;
            let req = align_up_exec(end, WORD);
            if req <= block_end {
                let rest = block_end - req;
                let taken = if rest >= FREE_BLOCK_SIZE {
                    self.free_list.set(i, (req, rest));
                    req
                } else {
                    self.free_list.remove(i);
                    block_end
                };
                self.headers.push((user, (start, taken - start)));
                proof {
                    assert(fits(l[i as int], size, align));
                    assert(first_stop(l, size, align, i as int) == Some(i as int));
                    assert forall|j: int| 0 <= j < self.free_list@.len() implies (#[trigger] self.free_list@[j]).0 + self.free_list@[j].1 <= HEAP_TOP by {
                        if rest >= FREE_BLOCK_SIZE {
                            if j != i {
                                assert(self.free_list@[j] == l[j]);
                            }
                        } else {
                            let k = if j < i { j } else { j + 1 };
                            assert(self.free_list@[j] == l[k]);
                        }
                    }
                    assert forall|j: int| 0 <= j < self.headers@.len() implies (#[trigger] self.headers@[j]).1.0 + self.headers@[j].1.1 <= HEAP_TOP by {
                        if j < old(self).headers@.len() {
                            assert(self.headers@[j] == old(self).headers@[j]);
                        } else {
                            assert(self.headers@[j] == (user, (start, (taken - start) as usize)));
                            assert(taken <= block_end);
                        }
                    }
                }
                return Some(user);
            }
            i = i + 1;
        }
        None
    }

    /// Frees `[start, start + size)`: inserted before the first block that
    /// does not start below it, then merged with the next block and with the
    /// previous one where they touch.
    pub fn add_free_region(&mut self, start: usize, size: usize)
        requires
            old(self).wf(),
            start + size <= HEAP_TOP,
        ensures
            final(self).wf(),
            final(self).free_list@ == with_region(old(self).free_list@, start, size),
            final(self).total_bytes == old(self).total_bytes,
            final(self).headers@ == old(self).headers@,
    {
        let ghost l = self.free_list@;
        let n = self.free_list.len();
        let mut p: usize = 0;
        while p < n && self.free_list[p].0 < start
            invariant
                n == l.len(),
                l == self.free_list@,
                p <= n,
                insert_pos(l, start, 0) == insert_pos(l, start, p as int),
            decreases n - p,
        {
            p = p + 1;
        }
        proof {
            assert(insert_pos(l, start, p as int) == p);
        }
        self.free_list.insert(p, (start, size));
        let ghost l1 = self.free_list@;
        if p < self.free_list.len() - 1 && start + size == self.free_list[p + 1].0 {
            let next_size = self.free_list[p + 1].1;
            proof {
                assert(l1[p + 1] == l[p as int]);
                assert(l[p as int].0 + l[p as int].1 <= HEAP_TOP);
            }
            self.free_list.set(p, (start, size + next_size));
            self.free_list.remove(p + 1);
        }
        let ghost l2 = self.free_list@;
        proof {
            assert(l2[p as int].0 == start);
            assert(l2[p as int].0 + l2[p as int].1 <= HEAP_TOP);
            assert forall|j: int| 0 <= j < l2.len() implies (#[trigger] l2[j]).0 + l2[j].1 <= HEAP_TOP by {
                if j < p {
                    assert(l2[j] == l[j]);
                } else if j > p {
                    if l2.len() == l1.len() {
                        assert(l2[j] == l[j - 1]);
                    } else {
                        assert(l2[j] == l[j]);
                    }
                }
            }
        }
        if p > 0 {
            let (ps, psize) = self.free_list[p - 1];
            if ps + psize == start {
                let cur = self.free_list[p].1;
                self.free_list.set(p - 1, (ps, psize + cur));
                self.free_list.remove(p);
            }
        }
        proof {
            let l3 = self.free_list@;
            assert forall|j: int| 0 <= j < l3.len() implies (#[trigger] l3[j]).0 + l3[j].1 <= HEAP_TOP by {
                if l3.len() < l2.len() {
                    if j < p - 1 {
                        assert(l3[j] == l2[j]);
                    } else if j >= p {
                        assert(l3[j] == l2[j + 1]);
                    }
                } else {
                    assert(l3[j] == l2[j]);
                }
            }
            assert(l3 =~= with_region(l, start, size));
        }
    }

    /// Frees the allocation whose payload is at `ptr`, giving its whole
    /// block back to the free list.
    pub fn dealloc(&mut self, ptr: usize)
        requires
            old(self).wf(),
            exists|k: int| 0 <= k < old(self).headers@.len() && (#[trigger] old(self).headers@[k]).0 == ptr,
        ensures
            final(self).wf(),
            final(self).total_bytes == old(self).total_bytes,
            freed(*old(self), *final(self), ptr),
    {
        let ghost h = self.headers@;
        let mut k: usize = 0;
        while k < self.headers.len() && self.headers[k].0 != ptr
            invariant
                h == self.headers@,
                k <= h.len(),
                forall|j: int| 0 <= j < k ==> h[j].0 != ptr,
                exists|m: int| 0 <= m < h.len() && (#[trigger] h[m]).0 == ptr,
            decreases h.len() - k,
        {
            k = k + 1;
        }
        proof {
            if k == h.len() {
                let m = choose|m: int| 0 <= m < h.len() && (#[trigger] h[m]).0 == ptr;
                assert(h[m].0 != ptr);
            }
            assert(0 <= k < h.len() && h[k as int].0 == ptr && forall|j: int| 0 <= j < k ==> h[j].0 != ptr);
            let c = first_header(h, ptr);
            assert(c == k) by {
                if c < k {
                    assert(h[c].0 != ptr);
                } else if c > k {
                    assert(h[k as int].0 == ptr);
                }
            }
        }
        let (_, (start, size)) = self.headers.remove(k);
        proof {
            assert(h[k as int].1.0 + h[k as int].1.1 <= HEAP_TOP);
            assert forall|j: int| 0 <= j < self.headers@.len() implies (#[trigger] self.headers@[j]).1.0 + self.headers@[j].1.1 <= HEAP_TOP by {
                let m = if j < k { j } else { j + 1 };
                assert(self.headers@[j] == h[m]);
            }
        }
        self.add_free_region(start, size);
    }

    /// Total, free and used bytes and the number of free blocks; sums
    /// saturate.
    pub fn stats(&self) -> (r: KernelHeapStats)
        ensures
            r.total_bytes == self.total_bytes as u64,
            r.free_bytes == free_sum(self.free_list@) as u64,
            r.used_bytes == (if self.total_bytes >= free_sum(self.free_list@) { self.total_bytes - free_sum(self.free_list@) } else { 0 }) as u64,
            r.free_blocks == self.free_list@.len() as u64,
    {
        let mut free: usize = 0;
        let mut j: usize = 0;
        while j < self.free_list.len()
            invariant
                j <= self.free_list@.len(),
                free == free_sum(self.free_list@.take(j as int)),
            decreases self.free_list@.len() - j,
        {
            proof {
                assert(self.free_list@.take(j as int + 1).drop_last() =~= self.free_list@.take(j as int));
            }
            free = free.saturating_add(self.free_list[j].1);
            j = j + 1;
        }
        proof {
            assert(self.free_list@.take(self.free_list@.len() as int) =~= self.free_list@);
        }
        KernelHeapStats {
            total_bytes: self.total_bytes as u64,
            free_bytes: free as u64,
            used_bytes: self.total_bytes.saturating_sub(free) as u64,
            free_blocks: self.free_list.len() as u64,
        }
    }
}

/// Bytes the heap grows by at least.
pub const HEAP_GROW_CHUNK: usize = 0x10_0000;

/// The pages a growth for `min` bytes takes: at least a chunk, in whole
/// pages; none when the rounding passes the last address.
pub open spec fn grow_pages(min: usize) -> Option<int> {
    let m = if min < HEAP_GROW_CHUNK { HEAP_GROW_CHUNK as int } else { min as int };
    if m > usize::MAX - 4095 { None } else { Some((m + 4095) / 4096) }
}

/// What a first-fit search of `l` answers: the payload address, or none.
pub open spec fn alloc_answer(l: Seq<(usize, usize)>, size: usize, align: usize) -> Option<usize> {
    match first_stop(l, size, align, 0) {
        None => None,
        Some(i) => if overflows(l[i], size, align) { None } else { Some(user_addr(l[i], align) as usize) },
    }
}

/// The bytes a failed request asks the heap to grow by: the request, its
/// alignment, a header and a free block, summed with saturation.
pub open spec fn grow_request(size: usize, align: usize) -> usize {
    let a = if size + align > usize::MAX { usize::MAX as int } else { size + align };
    let b = if a + ALLOC_HEADER_SIZE > usize::MAX { usize::MAX as int } else { a + ALLOC_HEADER_SIZE };
    (if b + FREE_BLOCK_SIZE > usize::MAX { usize::MAX as int } else { b + FREE_BLOCK_SIZE }) as usize
}

/// Whether the pool of `pmm`, seen through the direct map at `hhdm`, lies
/// below `HEAP_TOP`, and the heap's byte count can take all of it.
pub open spec fn growth_fits(h: HeapInner, pmm: PhysicalMemoryManager, hhdm: usize) -> bool {
    &&& hhdm + pmm.spec_base() + pmm.spec_total_frames() * 4096 <= HEAP_TOP
    &&& h.total_bytes + pmm.spec_total_frames() * 4096 <= usize::MAX
}

impl HeapInner {
    /// Grows the heap by a run of free frames for at least `min_bytes`,
    /// reached through the direct map at `hhdm`; `false` when the size does
    /// not round or no run is free (a run seen at address zero is handed
    /// back, first frame only, as the kernel does).
    pub fn grow(&mut self, min_bytes: usize, pmm: &mut PhysicalMemoryManager, hhdm: usize) -> (r: bool)
        requires
            old(self).wf(),
            old(pmm).wf(),
            growth_fits(*old(self), *old(pmm), hhdm),
        ensures
            final(self).wf(),
            final(pmm).wf(),
            final(pmm).spec_base() == old(pmm).spec_base(),
            final(pmm).spec_total_frames() == old(pmm).spec_total_frames(),
            final(self).headers@ == old(self).headers@,
            grow_pages(min_bytes) is None ==> !r && *final(self) == *old(self) && *final(pmm) == *old(pmm),
            !r ==> final(self).free_list@ == old(self).free_list@ && final(self).total_bytes == old(self).total_bytes,
            r ==> (grow_pages(min_bytes) matches Some(n) && final(self).total_bytes == old(self).total_bytes + n * 4096
                && exists|s: int| #[trigger] run_free(*old(pmm), s, n)
                    && final(self).free_list@ == with_region(old(self).free_list@, (hhdm + old(pmm).frame_addr(s)) as usize, (n * 4096) as usize)),
    {
        let m = if min_bytes < HEAP_GROW_CHUNK { HEAP_GROW_CHUNK } else { min_bytes };
        if m > usize::MAX - 4095 {
            return false;
        }
        let frames = (m + 4095) / 4096;
        assert(frames * 4096 <= m + 4095) by (nonlinear_arith)
            requires
                frames == (m + 4095) as int / 4096;
        let want = frames * 4096;
        let phys = match pmm.alloc_contiguous(frames) {
            Some(p) => p,
            None => return false,
        };
        let ghost s = (phys.0 - old(pmm).spec_base()) / (4096 as int);
        proof {
            let base = old(pmm).spec_base() as int;
            let total = old(pmm).spec_total_frames() as int;
            assert(run_free(*old(pmm), s, frames as int));
            assert(s + frames <= total);
            assert(phys.0 == base + s * 4096);
            assert(phys.0 + want <= base + total * 4096) by (nonlinear_arith)
                requires
                    phys.0 == base + s * 4096,
                    s + frames <= total,
                    want == frames * 4096,
                    s >= 0;
            assert(want <= total * 4096) by (nonlinear_arith)
                requires
                    s + frames <= total,
                    want == frames * 4096,
                    s >= 0;
        }
        let virt = phys.0 + hhdm;
        if virt == 0 {
            pmm.free_frame(phys);
            return false;
        }
        self.add_free_region(virt, want);
        self.total_bytes = self.total_bytes + want;
        proof {
            assert(run_free(*old(pmm), s, frames as int));
            assert(grow_pages(min_bytes) == Some(frames as int));
            assert(virt == hhdm + old(pmm).frame_addr(s));
            assert(want == frames * 4096);
            assert(self.free_list@ == with_region(old(self).free_list@, (hhdm + old(pmm).frame_addr(s)) as usize, (frames * 4096) as usize));
        }
        true
    }
}

/// The kernel allocator: the heap, grown from the frame pool on demand.
pub struct KernelAllocator {
    pub inner: HeapInner,
}

impl KernelAllocator {
    /// An allocator with an empty heap.
    pub fn new() -> (r: Self)
        ensures
            r.inner.wf(),
            r.inner.free_list@.len() == 0,
            r.inner.total_bytes == 0,
            r.inner.headers@.len() == 0,
    {
        KernelAllocator { inner: HeapInner::new() }
    }

    /// Makes `[heap_start, heap_start + heap_size)` the heap.
    pub fn init(&mut self, heap_start: usize, heap_size: usize)
        requires
            old(self).inner.wf(),
            heap_start + heap_size <= HEAP_TOP,
        ensures
            final(self).inner.wf(),
            final(self).inner.free_list@ == seq![(heap_start, heap_size)],
            final(self).inner.total_bytes == heap_size,
            final(self).inner.headers@ == old(self).inner.headers@,
    {
        self.inner.add_bootstrap(heap_start, heap_size);
    }

    /// The heap's counters.
    pub fn stats(&self) -> (r: KernelHeapStats)
        ensures
            r.total_bytes == self.inner.total_bytes as u64,
            r.free_bytes == free_sum(self.inner.free_list@) as u64,
            r.free_blocks == self.inner.free_list@.len() as u64,
    {
        self.inner.stats()
    }

    /// Allocates `size` bytes aligned to `align`: first fit in the heap;
    /// when nothing fits, the heap grows by `grow_request(size, align)`
    /// bytes and the search runs once more.
    pub fn allocate(&mut self, size: usize, align: usize, pmm: &mut PhysicalMemoryManager, hhdm: usize) -> (r: Option<usize>)
        requires
            old(self).inner.wf(),
            old(pmm).wf(),
            0 < align <= MAX_ALIGN,
            growth_fits(old(self).inner, *old(pmm), hhdm),
        ensures
            final(self).inner.wf(),
            final(pmm).wf(),
            alloc_answer(old(self).inner.free_list@, size, align) is Some ==>
                r == alloc_answer(old(self).inner.free_list@, size, align) && *final(pmm) == *old(pmm)
                && final(self).inner.total_bytes == old(self).inner.total_bytes,
            alloc_answer(old(self).inner.free_list@, size, align) is None && grow_pages(grow_request(size, align)) is None ==>
                r is None && *final(self) == *old(self) && *final(pmm) == *old(pmm),
            alloc_answer(old(self).inner.free_list@, size, align) is None && r is Some ==>
                final(self).inner.total_bytes > old(self).inner.total_bytes,
    {
        let first = self.inner.alloc_from_free_list(size, align);
        if first.is_some() {
            return first;
        }
        let a = size.saturating_add(align);
        let b = a.saturating_add(ALLOC_HEADER_SIZE);
        let required = b.saturating_add(FREE_BLOCK_SIZE);
        proof {
            assert(required == grow_request(size, align));
        }
        if self.inner.grow(required, pmm, hhdm) {
            self.inner.alloc_from_free_list(size, align)
        } else {
            None
        }
    }

    /// Frees the allocation at `ptr`; a null pointer is ignored.
    pub fn dealloc(&mut self, ptr: usize)
        requires
            old(self).inner.wf(),
            ptr != 0 ==> exists|k: int| 0 <= k < old(self).inner.headers@.len() && (#[trigger] old(self).inner.headers@[k]).0 == ptr,
        ensures
            final(self).inner.wf(),
            ptr == 0 ==> *final(self) == *old(self),
            ptr != 0 ==> freed(old(self).inner, final(self).inner, ptr),
    {
        if ptr == 0 {
            return;
        }
        self.inner.dealloc(ptr);
    }
}

} // verus!
