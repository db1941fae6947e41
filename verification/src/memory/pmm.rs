//! Bitmap allocator for the physical frame pool.
use vstd::prelude::*;

verus! {


/// Size of one physical frame.
pub const PAGE_SIZE: usize = 4096;
/// Memory-map type of usable RAM.
pub const MEMMAP_USABLE: u32 = 0;
/// Largest number of memory-map regions the allocator reads.
pub const MAX_REGIONS: usize = 32;
/// Size of the static bitmap storage.
pub const BITMAP_BYTES: usize = 65536;

/// One entry of the boot memory map.
#[derive(Clone, Copy)]
pub struct MemRegion {
    pub base: u64,
    pub length: u64,
    pub region_type: u32,
    pub _pad: u32,
}

/// A physical address.
#[derive(Clone, Copy, Debug, PartialEq, Eq, Structural)]
pub struct PhysicalAddress(pub usize);

impl PhysicalAddress {
    pub fn as_usize(&self) -> (r: usize)
        ensures
            r == self.0,
    {
        self.0
    }

    pub fn from_usize(addr: usize) -> (r: Self)
        ensures
            r.0 == addr,
    {
        PhysicalAddress(addr)
    }
}

/// Bit `k` of byte `b`.
pub open spec fn byte_bit(b: u8, k: int) -> bool {
    ((b >> (k as u8)) & 1u8) == 1u8
}

/// Whether frame `i` is marked used in the bitmap.
pub open spec fn frame_used(bm: Seq<u8>, i: int) -> bool {
    byte_bit(bm[i / 8], i % 8)
}

/// Number of free frames among the first `n`.
pub open spec fn free_count(bm: Seq<u8>, n: int) -> nat
    decreases n,
{
    if n <= 0 {
        0
    } else {
        free_count(bm, n - 1) + if frame_used(bm, n - 1) { 0nat } else { 1nat }
    }
}

pub proof fn lemma_free_count_le(bm: Seq<u8>, n: int)
    requires
        n >= 0,
    ensures
        free_count(bm, n) <= n,
    decreases n,
{
    if n > 0 {
        lemma_free_count_le(bm, n - 1);
    }
}

/// Two bitmaps that agree on the first `n` frames have the same free count.
pub proof fn lemma_free_count_ext(a: Seq<u8>, b: Seq<u8>, n: int)
    requires
        forall|j: int| 0 <= j < n ==> frame_used(a, j) == frame_used(b, j),
    ensures
        free_count(a, n) == free_count(b, n),
    decreases n,
{
    if n > 0 {
        lemma_free_count_ext(a, b, n - 1);
    }
}

/// Flipping one frame `i < n` changes the free count by one.
pub proof fn lemma_free_count_flip(a: Seq<u8>, b: Seq<u8>, n: int, i: int)
    requires
        0 <= i < n,
        forall|j: int| 0 <= j < n && j != i ==> frame_used(a, j) == frame_used(b, j),
        frame_used(b, i) != frame_used(a, i),
    ensures
        !frame_used(a, i) ==> free_count(b, n) + 1 == free_count(a, n),
        frame_used(a, i) ==> free_count(b, n) == free_count(a, n) + 1,
    decreases n,
{
    if n - 1 == i {
        lemma_free_count_ext(a, b, n - 1);
    } else {
        lemma_free_count_flip(a, b, n - 1, i);
    }
}

pub proof fn lemma_set_bit(b: u8, k: u8)
    requires
        k < 8,
    ensures
        byte_bit(b | (1u8 << k), k as int),
        forall|j: u8| j < 8 && j != k ==> byte_bit(b | (1u8 << k), j as int) == byte_bit(b, j as int),
        (b & (1u8 << k)) == 0u8 <==> !byte_bit(b, k as int),
{
    assert(((b | (1u8 << k)) >> k) & 1u8 == 1u8) by (bit_vector)
        requires
            k < 8u8,
    ;
    assert forall|j: u8| j < 8 && j != k implies byte_bit(b | (1u8 << k), j as int) == byte_bit(b, j as int) by {
        assert((((b | (1u8 << k)) >> j) & 1u8 == 1u8) == (((b >> j) & 1u8) == 1u8)) by (bit_vector)
            requires
                k < 8u8,
                j < 8u8,
                j != k,
        ;
    }
    assert(((b & (1u8 << k)) == 0u8) == !(((b >> k) & 1u8) == 1u8)) by (bit_vector)
        requires
            k < 8u8,
    ;
}

pub proof fn lemma_clear_bit(b: u8, k: u8)
    requires
        k < 8,
    ensures
        !byte_bit(b & !(1u8 << k), k as int),
        forall|j: u8| j < 8 && j != k ==> byte_bit(b & !(1u8 << k), j as int) == byte_bit(b, j as int),
        (b & (1u8 << k)) == 0u8 <==> !byte_bit(b, k as int),
{
    assert(((b & !(1u8 << k)) >> k) & 1u8 == 0u8) by (bit_vector)
        requires
            k < 8u8,
    ;
    assert forall|j: u8| j < 8 && j != k implies byte_bit(b & !(1u8 << k), j as int) == byte_bit(b, j as int) by {
        assert((((b & !(1u8 << k)) >> j) & 1u8 == 1u8) == (((b >> j) & 1u8) == 1u8)) by (bit_vector)
            requires
                k < 8u8,
                j < 8u8,
                j != k,
        ;
    }
    assert(((b & (1u8 << k)) == 0u8) == !(((b >> k) & 1u8) == 1u8)) by (bit_vector)
        requires
            k < 8u8,
    ;
}

/// Replacing byte `byte_idx` by a value that differs from the old one only in
/// bit `k` changes only frame `byte_idx * 8 + k`.
pub proof fn lemma_byte_update(a: Seq<u8>, byte_idx: int, k: u8, nb: u8)
    requires
        0 <= byte_idx < a.len(),
        k < 8,
        forall|j: u8| j < 8 && j != k ==> byte_bit(nb, j as int) == byte_bit(a[byte_idx], j as int),
    ensures
        forall|i: int| 0 <= i < a.len() * 8 && i != byte_idx * 8 + k ==>
            frame_used(a.update(byte_idx, nb), i) == frame_used(a, i),
        frame_used(a.update(byte_idx, nb), byte_idx * 8 + k) == byte_bit(nb, k as int),
{
    let b = a.update(byte_idx, nb);
    assert forall|i: int| 0 <= i < a.len() * 8 && i != byte_idx * 8 + k implies
        frame_used(b, i) == frame_used(a, i) by {
        if i / 8 == byte_idx {
            let j = (i % 8) as u8;
            assert(j != k);
        }
    }
    assert((byte_idx * 8 + k) / 8 == byte_idx);
    assert((byte_idx * 8 + k) % 8 == k);
}

/// The frame pool: one bit per frame, set while the frame is in use.
pub struct PhysicalMemoryManager {
    bitmap: Vec<u8>,
    total_frames: usize,
    usable_frames: usize,
    free_frames: usize,
    base_addr: usize,
}

impl PhysicalMemoryManager {
    /// The bitmap contents.
    pub closed spec fn bits(&self) -> Seq<u8> {
        self.bitmap@
    }

    pub closed spec fn spec_total_frames(&self) -> nat {
        self.total_frames as nat
    }

    pub closed spec fn spec_free_frames(&self) -> nat {
        self.free_frames as nat
    }

    pub closed spec fn spec_usable_frames(&self) -> nat {
        self.usable_frames as nat
    }

    pub closed spec fn spec_base(&self) -> nat {
        self.base_addr as nat
    }

    /// Whether frame `i` of the pool is in use.
    pub open spec fn used(&self, i: int) -> bool {
        frame_used(self.bits(), i)
    }

    /// Address of frame `i`.
    pub open spec fn frame_addr(&self, i: int) -> int {
        self.spec_base() + i * PAGE_SIZE
    }

    pub closed spec fn wf(&self) -> bool {
        &&& self.total_frames <= self.bitmap@.len() * 8
        &&& self.bitmap@.len() * 8 <= usize::MAX
        &&& self.base_addr + self.total_frames * PAGE_SIZE <= usize::MAX
        &&& self.free_frames == free_count(self.bitmap@, self.total_frames as int)
    }

    pub proof fn lemma_wf(&self)
        requires
            self.wf(),
        ensures
            self.spec_total_frames() <= self.bits().len() * 8,
            self.spec_base() + self.spec_total_frames() * PAGE_SIZE <= usize::MAX,
            self.spec_free_frames() == free_count(self.bits(), self.spec_total_frames() as int),
            self.spec_free_frames() <= self.spec_total_frames(),
    {
        lemma_free_count_le(self.bitmap@, self.total_frames as int);
    }

    /// A pool of `memory_size / PAGE_SIZE` frames starting at `memory_start`,
    /// all free, with the first bitmap bytes cleared.
    pub fn new(memory_start: usize, memory_size: usize, bitmap_in: Vec<u8>) -> (r: Self)
        requires
            (memory_size / PAGE_SIZE + 7) / 8 <= bitmap_in@.len(),
            bitmap_in@.len() * 8 <= usize::MAX,
            memory_start + memory_size <= usize::MAX,
        ensures
            r.wf(),
            r.spec_total_frames() == memory_size / PAGE_SIZE,
            r.spec_usable_frames() == memory_size / PAGE_SIZE,
            r.spec_base() == memory_start,
            r.bits().len() == bitmap_in@.len(),
            forall|i: int| 0 <= i < (memory_size / PAGE_SIZE + 7) / 8 ==> r.bits()[i] == 0,
            forall|i: int| (memory_size / PAGE_SIZE + 7) / 8 <= i < bitmap_in@.len() ==> r.bits()[i] == bitmap_in@[i],
            forall|i: int| 0 <= i < memory_size / PAGE_SIZE ==> !r.used(i),
            r.spec_free_frames() == memory_size / PAGE_SIZE,
    {
        let total_frames = memory_size / PAGE_SIZE;
        let bitmap_size = (total_frames + 7) / 8;
        let mut bitmap = bitmap_in;
        let mut i: usize = 0;
        while i < bitmap_size
            invariant
                bitmap_size <= bitmap@.len(),
                bitmap@.len() == bitmap_in@.len(),
                forall|j: int| 0 <= j < i ==> bitmap@[j] == 0,
                forall|j: int| bitmap_size <= j < bitmap@.len() ==> bitmap@[j] == bitmap_in@[j],
            decreases bitmap_size - i,
        {
            bitmap.set(i, 0);
            i = i + 1;
        }
        proof {
            assert forall|j: int| 0 <= j < total_frames implies !frame_used(bitmap@, j) by {
                assert(j / 8 < bitmap_size);
                let k = (j % 8) as u8;
                assert(((0u8 >> k) & 1u8) == 0u8) by (bit_vector);
            }
            lemma_free_count_all_free(bitmap@, total_frames as int);
        }
        PhysicalMemoryManager {
            bitmap,
            total_frames,
            usable_frames: total_frames,
            free_frames: total_frames,
            base_addr: memory_start,
        }
    }
}


/// `new` is `old` with its lowest free frame `i`, at address `addr`, now used.
pub open spec fn allocated_lowest(old: PhysicalMemoryManager, new: PhysicalMemoryManager, addr: int, i: int) -> bool {
    &&& 0 <= i < old.spec_total_frames()
    &&& addr == old.frame_addr(i)
    &&& !old.used(i)
    &&& new.used(i)
    &&& (forall|j: int| 0 <= j < i ==> old.used(j))
    &&& (forall|j: int| 0 <= j < old.spec_total_frames() && j != i ==> new.used(j) == old.used(j))
    &&& new.spec_free_frames() + 1 == old.spec_free_frames()
}

/// `new` is `old` after `addr` is handed back: a used frame of the pool
/// becomes free and nothing else changes; any other address changes nothing.
pub open spec fn freed(old: PhysicalMemoryManager, new: PhysicalMemoryManager, addr: PhysicalAddress) -> bool {
    let i = (addr.0 - old.spec_base()) / (PAGE_SIZE as int);
    if addr.0 >= old.spec_base() && i < old.spec_total_frames() && old.used(i) {
        &&& !new.used(i)
        &&& new.spec_free_frames() == old.spec_free_frames() + 1
        &&& forall|j: int| 0 <= j < old.spec_total_frames() && j != i ==> new.used(j) == old.used(j)
    } else {
        &&& new.bits() == old.bits()
        &&& new.spec_free_frames() == old.spec_free_frames()
    }
}

/// Freeing what was allocated undoes the allocation: after `alloc_frame`
/// hands out `addr` and `free_frame(addr)` follows, every frame of the pool
/// is used exactly when it was before and the free count is back where it
/// was; freeing `addr` once more changes nothing.
pub proof fn law_alloc_then_free(p0: PhysicalMemoryManager, p1: PhysicalMemoryManager, p2: PhysicalMemoryManager, p3: PhysicalMemoryManager, addr: PhysicalAddress)
    requires
        p0.wf(),
        p1.spec_total_frames() == p0.spec_total_frames(),
        p1.spec_base() == p0.spec_base(),
        addr.0 >= p0.spec_base(),
        allocated_lowest(p0, p1, addr.0 as int, (addr.0 - p0.spec_base()) / (PAGE_SIZE as int)),
        p2.spec_total_frames() == p1.spec_total_frames(),
        p2.spec_base() == p1.spec_base(),
        freed(p1, p2, addr),
        freed(p2, p3, addr),
    ensures
        forall|j: int| 0 <= j < p0.spec_total_frames() ==> p2.used(j) == p0.used(j),
        p2.spec_free_frames() == p0.spec_free_frames(),
        p3.bits() == p2.bits(),
        p3.spec_free_frames() == p2.spec_free_frames(),
{
    let i = (addr.0 - p0.spec_base()) / (PAGE_SIZE as int);
    assert(p1.used(i));
    assert(!p2.used(i));
}

impl PhysicalMemoryManager {
    /// Marks frame `frame_idx` free if it is a used frame of the pool.
    /// Returns whether it changed.
    fn mark_frame_index_free(&mut self, frame_idx: usize) -> (changed: bool)
        requires
            old(self).wf(),
        ensures
            final(self).wf(),
            changed == (frame_idx < old(self).spec_total_frames() && old(self).used(frame_idx as int)),
            final(self).spec_total_frames() == old(self).spec_total_frames(),
            final(self).spec_base() == old(self).spec_base(),
            final(self).spec_usable_frames() == old(self).spec_usable_frames(),
            final(self).bits().len() == old(self).bits().len(),
            changed ==> !final(self).used(frame_idx as int),
            changed ==> final(self).spec_free_frames() == old(self).spec_free_frames() + 1,
            !changed ==> final(self).spec_free_frames() == old(self).spec_free_frames(),
            forall|j: int| 0 <= j < old(self).spec_total_frames() && j != frame_idx ==>
                final(self).used(j) == old(self).used(j),
            !changed ==> final(self).bits() == old(self).bits(),
    {
        if frame_idx >= self.total_frames {
            return false;
        }
        let byte_idx = frame_idx / 8;
        let bit_idx = (frame_idx % 8) as u8;
        let mask = 1u8 << bit_idx;
        proof {
            lemma_clear_bit(self.bitmap@[byte_idx as int], bit_idx);
        }
        if byte_idx < self.bitmap.len() && (self.bitmap[byte_idx] & mask) != 0 {
            let ghost old_bits = self.bitmap@;
            let nb = self.bitmap[byte_idx] & !mask;
            self.bitmap.set(byte_idx, nb);
            proof {
                lemma_byte_update(old_bits, byte_idx as int, bit_idx, nb);
                lemma_free_count_flip(old_bits, self.bitmap@, self.total_frames as int, frame_idx as int);
                lemma_free_count_le(self.bitmap@, self.total_frames as int);
            }
            self.free_frames = self.free_frames + 1;
            true
        } else {
            false
        }
    }

    /// Marks every frame (and every spare bitmap bit) used.
    fn reserve_all_frames(&mut self)
        requires
            old(self).wf(),
        ensures
            final(self).wf(),
            final(self).spec_total_frames() == old(self).spec_total_frames(),
            final(self).spec_base() == old(self).spec_base(),
            final(self).bits().len() == old(self).bits().len(),
            forall|i: int| 0 <= i < final(self).bits().len() ==> final(self).bits()[i] == 0xFFu8,
            forall|j: int| 0 <= j < old(self).spec_total_frames() ==> final(self).used(j),
            final(self).spec_usable_frames() == 0,
            final(self).spec_free_frames() == 0,
    {
        let mut i: usize = 0;
        while i < self.bitmap.len()
            invariant
                self.bitmap@.len() == old(self).bitmap@.len(),
                self.total_frames == old(self).total_frames,
                self.base_addr == old(self).base_addr,
                self.total_frames <= self.bitmap@.len() * 8,
                self.bitmap@.len() * 8 <= usize::MAX,
                self.base_addr + self.total_frames * PAGE_SIZE <= usize::MAX,
                forall|j: int| 0 <= j < i ==> self.bitmap@[j] == 0xFFu8,
            decreases self.bitmap@.len() - i,
        {
            self.bitmap.set(i, 0xFF);
            i = i + 1;
        }
        proof {
            assert forall|j: int| 0 <= j < self.total_frames implies frame_used(self.bitmap@, j) by {
                let k = (j % 8) as u8;
                assert(k < 8);
                assert(((0xFFu8 >> k) & 1u8) == 1u8) by (bit_vector)
                    requires
                        k < 8u8,
                ;
            }
            lemma_free_count_all_used(self.bitmap@, self.total_frames as int);
        }
        self.usable_frames = 0;
        self.free_frames = 0;
    }

    /// Returns the lowest free frame of the pool, now marked used, or `None`
    /// when every frame of the pool is in use. Spare bits past the pool that
    /// the scan passes are marked used too.
    pub fn alloc_frame(&mut self) -> (r: Option<PhysicalAddress>)
        requires
            old(self).wf(),
        ensures
            final(self).wf(),
            final(self).spec_total_frames() == old(self).spec_total_frames(),
            final(self).spec_base() == old(self).spec_base(),
            final(self).spec_usable_frames() == old(self).spec_usable_frames(),
            final(self).bits().len() == old(self).bits().len(),
            match r {
                Some(addr) => addr.0 >= old(self).spec_base()
                    && allocated_lowest(*old(self), *final(self), addr.0 as int, (addr.0 - old(self).spec_base()) / (PAGE_SIZE as int)),
                None => (forall|j: int| 0 <= j < old(self).spec_total_frames() ==> old(self).used(j))
                    && (forall|j: int| 0 <= j < old(self).spec_total_frames() ==>
                        final(self).used(j) == old(self).used(j))
                    && final(self).spec_free_frames() == 0
                    && old(self).spec_free_frames() == 0,
            },
    {
        let ghost start = self.bitmap@;
        let ghost entry = *self;
        let len = self.bitmap.len();
        let mut byte_idx: usize = 0;
        let mut found: Option<usize> = None;
        while byte_idx < len && found.is_none()
            invariant
                len == self.bitmap@.len(),
                self.bitmap@.len() == start.len(),
                self.total_frames == old(self).total_frames,
                self.base_addr == old(self).base_addr,
                self.usable_frames == old(self).usable_frames,
                start == old(self).bitmap@,
                entry == *old(self),
                old(self).wf(),
                byte_idx <= len,
                found.is_none() ==> self.free_frames == old(self).free_frames,
                found.is_none() ==> forall|j: int| 0 <= j < self.total_frames ==> frame_used(self.bitmap@, j) == frame_used(start, j),
                found.is_none() ==> forall|j: int| 0 <= j < byte_idx * 8 && j < self.total_frames ==> frame_used(start, j),
                found.is_none() ==> forall|j: int| byte_idx <= j < len ==> self.bitmap@[j] == start[j],
                found matches Some(i) ==> i < self.total_frames && allocated_lowest(entry, *self, self.base_addr + i * PAGE_SIZE, i as int),
                self.total_frames <= self.bitmap@.len() * 8,
                self.bitmap@.len() * 8 <= usize::MAX,
                self.base_addr + self.total_frames * PAGE_SIZE <= usize::MAX,
                self.free_frames == free_count(self.bitmap@, self.total_frames as int),
            decreases len - byte_idx,
        {
            let byte = self.bitmap[byte_idx];
            if byte != 0xFF {
                let mut bit_idx: u8 = 0;
                while bit_idx < 8 && found.is_none()
                    invariant
                        len == self.bitmap@.len(),
                        self.bitmap@.len() == start.len(),
                        self.total_frames == old(self).total_frames,
                        self.base_addr == old(self).base_addr,
                        self.usable_frames == old(self).usable_frames,
                        start == old(self).bitmap@,
                        entry == *old(self),
                        old(self).wf(),
                        byte_idx < len,
                        bit_idx <= 8,
                        byte == start[byte_idx as int],
                        found.is_none() ==> self.free_frames == old(self).free_frames,
                        found.is_none() ==> forall|j: int| 0 <= j < self.total_frames ==> frame_used(self.bitmap@, j) == frame_used(start, j),
                        found.is_none() ==> forall|j: int| 0 <= j < byte_idx * 8 + bit_idx && j < self.total_frames ==> frame_used(start, j),
                        found.is_none() ==> forall|k: u8| bit_idx <= k < 8 ==> byte_bit(self.bitmap@[byte_idx as int], k as int) == byte_bit(byte, k as int),
                        found.is_none() ==> forall|j: int| byte_idx < j < len ==> self.bitmap@[j] == start[j],
                        found matches Some(i) ==> i < self.total_frames && allocated_lowest(entry, *self, self.base_addr + i * PAGE_SIZE, i as int),
                        self.total_frames <= self.bitmap@.len() * 8,
                        self.bitmap@.len() * 8 <= usize::MAX,
                        self.base_addr + self.total_frames * PAGE_SIZE <= usize::MAX,
                        self.free_frames == free_count(self.bitmap@, self.total_frames as int),
                    decreases 8 - bit_idx,
                {
                    let mask = 1u8 << bit_idx;
                    proof {
                        lemma_set_bit(byte, bit_idx);
                        lemma_set_bit(self.bitmap@[byte_idx as int], bit_idx);
                        assert((byte_idx * 8 + bit_idx) / 8 == byte_idx);
                        assert((byte_idx * 8 + bit_idx) % 8 == bit_idx);
                    }
                    if (byte & mask) == 0 {
                        let ghost before = self.bitmap@;
                        let nb = self.bitmap[byte_idx] | mask;
                        self.bitmap.set(byte_idx, nb);
                        proof {
                            lemma_byte_update(before, byte_idx as int, bit_idx, nb);
                        }
                        let frame_idx = byte_idx * 8 + bit_idx as usize;
                        if frame_idx < self.total_frames {
                            proof {
                                lemma_free_count_ext(start, before, self.total_frames as int);
                                lemma_free_count_flip(before, self.bitmap@, self.total_frames as int, frame_idx as int);
                            }
                            self.free_frames = self.free_frames - 1;
                            found = Some(frame_idx);
                            proof {
                                let i = frame_idx as int;
                                assert(forall|j: int| 0 <= j < self.total_frames && j != i ==>
                                    frame_used(self.bitmap@, j) == frame_used(start, j));
                                assert(allocated_lowest(entry, *self, self.base_addr + i * PAGE_SIZE, i));
                            }
                        } else {
                            proof {
                                assert forall|j: int| 0 <= j < self.total_frames implies frame_used(self.bitmap@, j) == frame_used(start, j) by {
                                    assert(j != frame_idx);
                                }
                                lemma_free_count_ext(start, self.bitmap@, self.total_frames as int);
                            }
                        }
                    }
                    bit_idx = bit_idx + 1;
                }
            }
            if found.is_none() {
                proof {
                    assert forall|j: int| 0 <= j < (byte_idx + 1) * 8 && j < self.total_frames implies frame_used(start, j) by {
                        if j >= byte_idx * 8 {
                            let k = (j % 8) as u8;
                            assert(j / 8 == byte_idx);
                            if byte == 0xFFu8 {
                                assert(((0xFFu8 >> k) & 1u8) == 1u8) by (bit_vector)
                                    requires
                                        k < 8u8,
                                ;
                            }
                        }
                    }
                }
            }
            byte_idx = byte_idx + 1;
        }
        match found {
            Some(frame_idx) => {
                proof {
                    assert(frame_idx * PAGE_SIZE <= self.total_frames * PAGE_SIZE) by (nonlinear_arith)
                        requires
                            frame_idx < self.total_frames,
                    ;
                }
                let addr = self.base_addr + frame_idx * PAGE_SIZE;
                proof {
                    assert((addr - self.base_addr) / (PAGE_SIZE as int) == frame_idx) by (nonlinear_arith)
                        requires
                            addr == self.base_addr + frame_idx * PAGE_SIZE,
                    ;
                }
                Some(PhysicalAddress(addr))
            },
            None => {
                proof {
                    lemma_free_count_all_used(start, self.total_frames as int);
                    lemma_free_count_ext(start, self.bitmap@, self.total_frames as int);
                }
                None
            },
        }
    }

    /// Returns a frame to the pool if it belongs to the pool and is in use.
    pub fn free_frame(&mut self, addr: PhysicalAddress)
        requires
            old(self).wf(),
        ensures
            final(self).wf(),
            final(self).spec_total_frames() == old(self).spec_total_frames(),
            final(self).spec_base() == old(self).spec_base(),
            final(self).spec_usable_frames() == old(self).spec_usable_frames(),
            final(self).bits().len() == old(self).bits().len(),
            freed(*old(self), *final(self), addr),
    {
        if addr.0 < self.base_addr {
            return;
        }
        let frame_idx = (addr.0 - self.base_addr) / PAGE_SIZE;
        let _ = self.mark_frame_index_free(frame_idx);
    }

    /// Free memory in bytes.
    pub fn available_memory(&self) -> (r: usize)
        requires
            self.wf(),
        ensures
            r == self.spec_free_frames() * PAGE_SIZE,
    {
        proof {
            self.lemma_wf();
            assert(self.free_frames * PAGE_SIZE <= self.total_frames * PAGE_SIZE) by (nonlinear_arith)
                requires
                    self.free_frames <= self.total_frames,
            ;
        }
        self.free_frames * PAGE_SIZE
    }

    /// Memory that the boot map reported usable, in bytes (wrapping as the
    /// machine multiplication does).
    pub fn total_memory(&self) -> (r: usize)
        ensures
            r == (self.spec_usable_frames() * PAGE_SIZE) % (usize::MAX as int + 1),
    {
        self.usable_frames.wrapping_mul(PAGE_SIZE)
    }

    /// Usable frame count.
    pub fn usable_frames(&self) -> (r: usize)
        ensures
            r == self.spec_usable_frames(),
    {
        self.usable_frames
    }

    /// Frame count of the pool.
    pub fn total_frames(&self) -> (r: usize)
        ensures
            r == self.spec_total_frames(),
    {
        self.total_frames
    }

    /// Free frame count.
    pub fn free_frames(&self) -> (r: usize)
        ensures
            r == self.spec_free_frames(),
    {
        self.free_frames
    }
}


/// Frames `s .. s + count` all lie in the pool and are free.
pub open spec fn run_free(p: PhysicalMemoryManager, s: int, count: int) -> bool {
    &&& 0 <= s
    &&& s + count <= p.spec_total_frames()
    &&& forall|j: int| s <= j < s + count ==> !p.used(j)
}

impl PhysicalMemoryManager {
    /// Marks frame `frame_idx`, a frame of the pool, used.
    fn mark_frame_index_used(&mut self, frame_idx: usize)
        requires
            old(self).wf(),
            frame_idx < old(self).spec_total_frames(),
            !old(self).used(frame_idx as int),
        ensures
            final(self).wf(),
            final(self).used(frame_idx as int),
            final(self).spec_free_frames() + 1 == old(self).spec_free_frames(),
            final(self).spec_total_frames() == old(self).spec_total_frames(),
            final(self).spec_base() == old(self).spec_base(),
            final(self).spec_usable_frames() == old(self).spec_usable_frames(),
            final(self).bits().len() == old(self).bits().len(),
            forall|j: int| 0 <= j < old(self).spec_total_frames() && j != frame_idx ==>
                final(self).used(j) == old(self).used(j),
    {
        let byte_idx = frame_idx / 8;
        let bit_idx = (frame_idx % 8) as u8;
        let mask = 1u8 << bit_idx;
        let ghost before = self.bitmap@;
        proof {
            lemma_set_bit(self.bitmap@[byte_idx as int], bit_idx);
            lemma_free_count_le(before, self.total_frames as int);
        }
        let nb = self.bitmap[byte_idx] | mask;
        self.bitmap.set(byte_idx, nb);
        proof {
            lemma_byte_update(before, byte_idx as int, bit_idx, nb);
            lemma_free_count_flip(before, self.bitmap@, self.total_frames as int, frame_idx as int);
        }
        self.free_frames = self.free_frames - 1;
    }

    /// Claims the first run of `count` consecutive free frames and returns the
    /// address of its first frame; `None` when `count` is zero or no such run
    /// exists.
    pub fn alloc_contiguous(&mut self, count: usize) -> (r: Option<PhysicalAddress>)
        requires
            old(self).wf(),
        ensures
            final(self).wf(),
            final(self).spec_total_frames() == old(self).spec_total_frames(),
            final(self).spec_base() == old(self).spec_base(),
            final(self).spec_usable_frames() == old(self).spec_usable_frames(),
            count == 0 ==> r is None && *final(self) == *old(self),
            count >= 1 ==> match r {
                Some(addr) => {
                    let s = (addr.0 - old(self).spec_base()) / (PAGE_SIZE as int);
                    &&& addr.0 == old(self).frame_addr(s)
                    &&& run_free(*old(self), s, count as int)
                    &&& (forall|t: int| 0 <= t < s ==> !run_free(*old(self), t, count as int))
                    &&& (forall|j: int| s <= j < s + count ==> final(self).used(j))
                    &&& (forall|j: int| 0 <= j < old(self).spec_total_frames() && !(s <= j < s + count) ==>
                        final(self).used(j) == old(self).used(j))
                    &&& final(self).spec_free_frames() + count == old(self).spec_free_frames()
                },
                None => (forall|t: int| !run_free(*old(self), t, count as int))
                    && (forall|j: int| 0 <= j < old(self).spec_total_frames() ==> final(self).used(j) == old(self).used(j))
                    && final(self).spec_free_frames() == old(self).spec_free_frames(),
            },
    {
        if count == 0 {
            return None;
        }
        if count == 1 {
            let r = self.alloc_frame();
            proof {
                match r {
                    Some(addr) => {
                        let s = (addr.0 - old(self).spec_base()) / (PAGE_SIZE as int);
                        assert(run_free(*old(self), s, 1));
                        assert forall|t: int| 0 <= t < s implies !run_free(*old(self), t, 1) by {
                            assert(old(self).used(t));
                        }
                    },
                    None => {
                        assert forall|t: int| !run_free(*old(self), t, 1) by {
                            if run_free(*old(self), t, 1) {
                                assert(!old(self).used(t));
                            }
                        }
                    },
                }
            }
            return r;
        }
        let ghost entry = *self;
        let total = self.total_frames;
        let mut run_len: usize = 0;
        let mut frame_idx: usize = 0;
        let mut found: Option<usize> = None;
        while frame_idx < total && found.is_none()
            invariant
                *self == entry,
                entry == *old(self),
                self.wf(),
                total == self.total_frames,
                count > 1,
                frame_idx <= total,
                found.is_none() ==> run_len < count,
                found.is_none() ==> run_len <= frame_idx,
                found.is_none() ==> forall|j: int| frame_idx - run_len <= j < frame_idx ==> !self.used(j),
                found.is_none() ==> (run_len < frame_idx ==> self.used(frame_idx - run_len - 1)),
                found.is_none() ==> forall|t: int| 0 <= t && t + count <= frame_idx ==> !run_free(*self, t, count as int),
                found matches Some(st) ==> run_free(*self, st as int, count as int)
                    && st + count <= total
                    && forall|t: int| 0 <= t < st ==> !run_free(*self, t, count as int),
            decreases total - frame_idx,
        {
            let byte_idx = frame_idx / 8;
            let bit_idx = (frame_idx % 8) as u8;
            let mask = 1u8 << bit_idx;
            proof {
                lemma_set_bit(self.bitmap@[byte_idx as int], bit_idx);
            }
            let free = byte_idx < self.bitmap.len() && (self.bitmap[byte_idx] & mask) == 0;
            if free {
                run_len = run_len + 1;
                if run_len == count {
                    found = Some(frame_idx + 1 - count);
                    proof {
                        let st = (frame_idx + 1 - count) as int;
                        assert forall|t: int| 0 <= t < st implies !run_free(*self, t, count as int) by {
                            if run_free(*self, t, count as int) {
                                if t + count <= frame_idx {
                                } else {
                                    assert(self.used(frame_idx - (run_len - 1) - 1) || run_len - 1 == frame_idx);
                                }
                            }
                        }
                    }
                }
            } else {
                proof {
                    assert forall|t: int| 0 <= t && t + count <= frame_idx + 1 implies !run_free(*self, t, count as int) by {
                        if t + count == frame_idx + 1 {
                            assert(self.used(frame_idx as int));
                        }
                    }
                }
                run_len = 0;
            }
            frame_idx = frame_idx + 1;
        }
        match found {
            Some(start) => {
                let mut idx = start;
                while idx < start + count
                    invariant
                        self.wf(),
                        entry == *old(self),
                        start + count <= entry.spec_total_frames(),
                        start <= idx <= start + count,
                        run_free(entry, start as int, count as int),
                        self.spec_total_frames() == entry.spec_total_frames(),
                        self.spec_base() == entry.spec_base(),
                        self.spec_usable_frames() == entry.spec_usable_frames(),
                        forall|j: int| start <= j < idx ==> self.used(j),
                        forall|j: int| idx <= j < start + count ==> !self.used(j),
                        forall|j: int| 0 <= j < entry.spec_total_frames() && !(start <= j < idx) ==>
                            self.used(j) == entry.used(j),
                        self.spec_free_frames() + (idx - start) == entry.spec_free_frames(),
                    decreases start + count - idx,
                {
                    self.mark_frame_index_used(idx);
                    idx = idx + 1;
                }
                proof {
                    self.lemma_wf();
                    assert(start * PAGE_SIZE <= self.total_frames * PAGE_SIZE) by (nonlinear_arith)
                        requires
                            start <= self.total_frames,
                    ;
                }
                let addr = self.base_addr + start * PAGE_SIZE;
                proof {
                    assert((addr - self.base_addr) / (PAGE_SIZE as int) == start) by (nonlinear_arith)
                        requires
                            addr == self.base_addr + start * PAGE_SIZE,
                    ;
                }
                Some(PhysicalAddress(addr))
            },
            None => {
                proof {
                    assert forall|t: int| !run_free(*old(self), t, count as int) by {
                        if run_free(*old(self), t, count as int) {
                            assert(t + count <= frame_idx);
                        }
                    }
                }
                None
            },
        }
    }
}


/// `v` rounded down to a page boundary.
pub open spec fn page_floor(v: int) -> int {
    v - v % (PAGE_SIZE as int)
}

pub proof fn lemma_page_mask(v: usize)
    ensures
        v & !0xFFFusize == page_floor(v as int),
        (v & !0xFFFusize) % 4096 == 0,
{
    assert(v & !0xFFFusize == v - v % 4096) by (bit_vector);
    assert((v - v % 4096) % 4096 == 0) by (nonlinear_arith);
}

/// `a + b` for `usize`, clamped to `usize::MAX`.
pub open spec fn sat_add_usize(a: int, b: int) -> int {
    if a + b > usize::MAX { usize::MAX as int } else { a + b }
}

/// The first and one-past-last pool frame indices covered by whole pages of
/// a usable region, as `mark_region_free_in_pool` computes them.
pub open spec fn region_frame_span(p: PhysicalMemoryManager, base: int, length: int) -> (int, int) {
    let region_start = base;
    let region_end = sat_add_usize(region_start, length);
    let aligned_start = page_floor(sat_add_usize(region_start, PAGE_SIZE - 1));
    let aligned_end = page_floor(region_end);
    let pool_start = p.spec_base() as int;
    let pool_end = sat_add_usize(pool_start, p.spec_total_frames() * PAGE_SIZE);
    let start = if aligned_start > pool_start { aligned_start } else { pool_start };
    let end = if aligned_end < pool_end { aligned_end } else { pool_end };
    if start >= end {
        (0, 0)
    } else {
        ((start - pool_start) / PAGE_SIZE as int, (end - pool_start) / PAGE_SIZE as int)
    }
}

impl PhysicalMemoryManager {
    /// Makes the whole pages of a usable memory-map region that lie in the pool
    /// allocatable; returns how many frames became free.
    fn mark_region_free_in_pool(&mut self, base: usize, length: usize) -> (newly_free: usize)
        requires
            old(self).wf(),
            old(self).spec_free_frames() + old(self).spec_total_frames() <= usize::MAX,
            old(self).spec_usable_frames() + old(self).spec_total_frames() <= usize::MAX,
        ensures
            final(self).wf(),
            final(self).spec_total_frames() == old(self).spec_total_frames(),
            final(self).spec_base() == old(self).spec_base(),
            final(self).bits().len() == old(self).bits().len(),
            ({
                let (first, last) = region_frame_span(*old(self), base as int, length as int);
                &&& forall|j: int| first <= j < last && j < old(self).spec_total_frames() ==> !final(self).used(j)
                &&& forall|j: int| 0 <= j < old(self).spec_total_frames() && !(first <= j < last) ==>
                    final(self).used(j) == old(self).used(j)
            }),
            final(self).spec_free_frames() == old(self).spec_free_frames() + newly_free,
            final(self).spec_usable_frames() == old(self).spec_usable_frames() + newly_free,
    {
        let region_start = base;
        let region_end = region_start.saturating_add(length);
        let rounded = region_start.saturating_add(PAGE_SIZE - 1);
        let aligned_start = rounded & !(PAGE_SIZE - 1);
        let aligned_end = region_end & !(PAGE_SIZE - 1);
        proof {
            lemma_page_mask(rounded);
            lemma_page_mask(region_end);
            self.lemma_wf();
        }
        let pool_start = self.base_addr;
        let pool_end = pool_start.saturating_add(self.total_frames * PAGE_SIZE);
        let start = if aligned_start > pool_start { aligned_start } else { pool_start };
        let end = if aligned_end < pool_end { aligned_end } else { pool_end };
        if start >= end {
            return 0;
        }
        let first = (start - pool_start) / PAGE_SIZE;
        let last = (end - pool_start) / PAGE_SIZE;
        proof {
            assert(rounded == sat_add_usize(base as int, PAGE_SIZE - 1));
            assert(region_end == sat_add_usize(base as int, length as int));
            assert(pool_end == sat_add_usize(pool_start as int, self.total_frames * PAGE_SIZE));
            assert(region_frame_span(*old(self), base as int, length as int) == (first as int, last as int));
        }
        let stop = if last < self.total_frames { last } else { self.total_frames };
        let ghost entry = *self;
        let mut newly_free: usize = 0;
        let mut frame_idx = first;
        while frame_idx < stop
            invariant
                self.wf(),
                entry == *old(self),
                first <= frame_idx,
                frame_idx <= stop || stop < first,
                stop <= self.total_frames,
                self.spec_total_frames() == entry.spec_total_frames(),
                self.spec_base() == entry.spec_base(),
                self.bits().len() == entry.bits().len(),
                newly_free <= frame_idx - first,
                self.spec_free_frames() == entry.spec_free_frames() + newly_free,
                self.usable_frames == entry.usable_frames,
                entry.spec_free_frames() + entry.spec_total_frames() <= usize::MAX,
                forall|j: int| first <= j < frame_idx ==> !self.used(j),
                forall|j: int| 0 <= j < entry.spec_total_frames() && !(first <= j < frame_idx) ==>
                    self.used(j) == entry.used(j),
            decreases stop - frame_idx,
        {
            if self.mark_frame_index_free(frame_idx) {
                newly_free = newly_free + 1;
            }
            frame_idx = frame_idx + 1;
        }
        proof {
            assert(newly_free <= self.total_frames);
            assert(forall|j: int| first <= j < last && j < entry.spec_total_frames() ==> !self.used(j));
            assert(forall|j: int| 0 <= j < entry.spec_total_frames() && !(first <= j < last) ==>
                self.used(j) == entry.used(j));
        }
        let ghost before = *self;
        self.usable_frames = self.usable_frames + newly_free;
        proof {
            assert(self.bits() == before.bits());
            assert forall|j: int| first <= j < last && j < entry.spec_total_frames() implies !self.used(j) by {
                assert(!before.used(j));
            }
            assert forall|j: int| 0 <= j < entry.spec_total_frames() && !(first <= j < last) implies
                self.used(j) == entry.used(j) by {
                assert(before.used(j) == entry.used(j));
            }
        }
        newly_free
    }
}

/// The whole pages of a usable region of at least one page, as a
/// page-aligned `[start, end)`, when it holds one.
pub open spec fn region_pages(r: MemRegion) -> Option<(usize, usize)> {
    if r.region_type == MEMMAP_USABLE && r.length >= 4096 {
        let base = r.base as usize;
        let rounded = if base + 4095 > usize::MAX { usize::MAX } else { (base + 4095) as usize };
        let limit = if base + (r.length as usize) > usize::MAX { usize::MAX } else { (base + (r.length as usize)) as usize };
        let start = page_floor(rounded as int) as usize;
        let end = page_floor(limit as int) as usize;
        if start < end { Some((start, end)) } else { None }
    } else {
        None
    }
}

/// The lowest start and highest end of the pages of the first `n` regions
/// (`usize::MAX` and 0 when none has a page).
pub open spec fn bounds_of(rs: Seq<MemRegion>, n: int) -> (usize, usize)
    decreases n,
{
    if n <= 0 {
        (usize::MAX, 0)
    } else {
        let (f, l) = bounds_of(rs, n - 1);
        match region_pages(rs[n - 1]) {
            Some((s, e)) => (if s < f { s } else { f }, if e > l { e } else { l }),
            None => (f, l),
        }
    }
}

/// The span of the frame pool: from the lowest to the highest whole page of
/// the usable regions, if any usable region holds a whole page.
pub open spec fn pool_bounds(rs: Seq<MemRegion>) -> Option<(usize, usize)> {
    let (f, l) = bounds_of(rs, rs.len() as int);
    if f < l { Some((f, l)) } else { None }
}

proof fn lemma_bounds_aligned(rs: Seq<MemRegion>, n: int)
    requires
        0 <= n <= rs.len(),
    ensures
        bounds_of(rs, n).0 == usize::MAX || bounds_of(rs, n).0 % 4096 == 0,
        bounds_of(rs, n).1 % 4096 == 0,
    decreases n,
{
    if n > 0 {
        lemma_bounds_aligned(rs, n - 1);
        let r = rs[n - 1];
        if r.region_type == MEMMAP_USABLE && r.length >= 4096 {
            let base = r.base as usize;
            let rounded = if base + 4095 > usize::MAX { usize::MAX } else { (base + 4095) as usize };
            let limit = if base + (r.length as usize) > usize::MAX { usize::MAX } else { (base + (r.length as usize)) as usize };
            lemma_page_mask(rounded);
            lemma_page_mask(limit);
        }
    }
}

/// The lowest page-aligned start and highest page-aligned end over the usable
/// regions of at least one page, if some region holds a whole page.
pub fn usable_pool_bounds(regions: &[MemRegion]) -> (r: Option<(usize, usize)>)
    ensures
        r == pool_bounds(regions@),
        r matches Some((first, last)) ==> first < last && first % 4096 == 0 && last % 4096 == 0,
{
    let mut first = usize::MAX;
    let mut last: usize = 0;
    let mut i: usize = 0;
    while i < regions.len()
        invariant
            i <= regions@.len(),
            (first, last) == bounds_of(regions@, i as int),
        decreases regions@.len() - i,
    {
        let region = regions[i];
        if region.region_type == MEMMAP_USABLE && region.length >= PAGE_SIZE as u64 {
            let base = region.base as usize;
            let rounded = base.saturating_add(PAGE_SIZE - 1);
            let limit = base.saturating_add(region.length as usize);
            let start = rounded & !(PAGE_SIZE - 1);
            let end = limit & !(PAGE_SIZE - 1);
            proof {
                lemma_page_mask(rounded);
                lemma_page_mask(limit);
            }
            if start < end {
                if start < first {
                    first = start;
                }
                if end > last {
                    last = end;
                }
            }
        }
        i = i + 1;
    }
    proof {
        lemma_bounds_aligned(regions@, regions@.len() as int);
    }
    if first < last {
        Some((first, last))
    } else {
        None
    }
}

/// Where the whole pages of a region start (0 when it has none).
pub open spec fn page_start(r: MemRegion) -> usize {
    match region_pages(r) {
        Some((s, e)) => s,
        None => 0,
    }
}

/// Where the whole pages of a region end (0 when it has none).
pub open spec fn page_end(r: MemRegion) -> usize {
    match region_pages(r) {
        Some((s, e)) => e,
        None => 0,
    }
}

/// The lowest page of the pool.
pub open spec fn pool_first(rs: Seq<MemRegion>) -> usize {
    bounds_of(rs, rs.len() as int).0
}

/// The end of the highest page of the pool.
pub open spec fn pool_last(rs: Seq<MemRegion>) -> usize {
    bounds_of(rs, rs.len() as int).1
}

/// The region that gives the pool its lowest page: its pages start there and
/// end no later than the pool does.
proof fn lemma_bounds_witness(rs: Seq<MemRegion>, n: int) -> (k: int)
    requires
        0 <= n <= rs.len(),
        bounds_of(rs, n).0 != usize::MAX,
    ensures
        0 <= k < n,
        region_pages(rs[k]) is Some,
        page_start(rs[k]) == bounds_of(rs, n).0,
        page_start(rs[k]) < page_end(rs[k]),
        page_end(rs[k]) <= bounds_of(rs, n).1,
    decreases n,
{
    let (f0, l0) = bounds_of(rs, n - 1);
    match region_pages(rs[n - 1]) {
        Some((s, e)) => {
            if s < f0 {
                n - 1
            } else {
                lemma_bounds_witness(rs, n - 1)
            }
        },
        None => lemma_bounds_witness(rs, n - 1),
    }
}

/// A bitmap with a free frame among the first `n` has a positive free count.
proof fn lemma_free_count_pos(bm: Seq<u8>, n: int, j: int)
    requires
        0 <= j < n,
        !frame_used(bm, j),
    ensures
        free_count(bm, n) > 0,
    decreases n,
{
    if j < n - 1 {
        lemma_free_count_pos(bm, n - 1, j);
    }
}

/// The number of bitmap bytes the pool `[first, last)` needs.
pub open spec fn pool_bitmap_bytes(first: usize, last: usize) -> int {
    ((last - first) / 4096 + 7) / 8
}

/// Builds the frame pool from the boot memory map: the pool spans the usable
/// regions, every frame starts reserved and the whole pages of each usable
/// region are then released. `None` exactly when no usable region holds a
/// whole page or the bitmap would exceed `BITMAP_BYTES`.
pub fn init(regions: &[MemRegion]) -> (r: Option<PhysicalMemoryManager>)
    ensures
        r is None <==> (pool_bounds(regions@) is None
            || pool_bitmap_bytes(pool_first(regions@), pool_last(regions@)) > BITMAP_BYTES),
        r matches Some(p) ==> p.wf() && p.spec_free_frames() > 0 && (p.spec_total_frames() + 7) / 8 <= BITMAP_BYTES
            && p.spec_base() % 4096 == 0
            && p.spec_base() == pool_first(regions@)
            && p.spec_total_frames() == (pool_last(regions@) - pool_first(regions@)) / 4096
            && p.spec_usable_frames() == p.spec_free_frames(),
{
    let bounds = usable_pool_bounds(regions);
    let (pool_start, pool_end) = match bounds {
        Some(b) => b,
        None => return None,
    };
    let pool_size = pool_end - pool_start;
    proof {
        assert(pool_size >= 4096) by (nonlinear_arith)
            requires pool_start % 4096 == 0, pool_end % 4096 == 0, pool_start < pool_end, pool_size == pool_end - pool_start;
    }
    if pool_size < PAGE_SIZE {
        return None;
    }
    let total_frames = pool_size / PAGE_SIZE;
    let bitmap_size = (total_frames + 7) / 8;
    if bitmap_size > BITMAP_BYTES {
        return None;
    }
    let ghost k = lemma_bounds_witness(regions@, regions@.len() as int);
    let ghost ke = page_end(regions@[k]);
    proof {
        assert(total_frames * 4096 == pool_size) by (nonlinear_arith)
            requires pool_start % 4096 == 0, pool_end % 4096 == 0, pool_size == pool_end - pool_start, total_frames == pool_size / 4096;
        assert(ke % 4096 == 0) by {
            let r = regions@[k];
            let base = r.base as usize;
            let limit = if base + (r.length as usize) > usize::MAX { usize::MAX } else { (base + (r.length as usize)) as usize };
            lemma_page_mask(limit);
        }
        assert(ke - pool_start >= 4096) by (nonlinear_arith)
            requires pool_start % 4096 == 0, ke % 4096 == 0, pool_start < ke;
    }
    let bitmap = vec![0u8; bitmap_size];
    let mut pmm = PhysicalMemoryManager::new(pool_start, pool_size, bitmap);
    pmm.reserve_all_frames();
    proof {
        pmm.lemma_wf();
    }
    let mut i: usize = 0;
    while i < regions.len()
        invariant
            pmm.wf(),
            pmm.spec_total_frames() == total_frames,
            pmm.spec_base() == pool_start,
            pool_start % 4096 == 0,
            total_frames <= BITMAP_BYTES * 8,
            total_frames >= 1,
            total_frames * 4096 == pool_end - pool_start,
            pmm.spec_usable_frames() == pmm.spec_free_frames(),
            i <= regions@.len(),
            0 <= k < regions@.len(),
            region_pages(regions@[k]) is Some,
            page_start(regions@[k]) == pool_start,
            ke == page_end(regions@[k]),
            pool_start + 4096 <= ke <= pool_end,
            i > k ==> !pmm.used(0),
        decreases regions@.len() - i,
    {
        let region = regions[i];
        if region.region_type == MEMMAP_USABLE {
            proof {
                pmm.lemma_wf();
            }
            let ghost before = pmm;
            let _ = pmm.mark_region_free_in_pool(region.base as usize, region.length as usize);
            proof {
                pmm.lemma_wf();
                let (first, last) = region_frame_span(before, region.base as usize as int, region.length as usize as int);
                if i == k {
                    assert(first == 0 && last >= 1) by {
                        assert(pool_start + total_frames * 4096 <= usize::MAX);
                    }
                }
            }
        }
        i = i + 1;
    }
    proof {
        pmm.lemma_wf();
        lemma_free_count_pos(pmm.bits(), total_frames as int, 0);
    }
    if pmm.free_frames() == 0 {
        return None;
    }
    Some(pmm)
}

/// Index in the pool of the frame at address `a`.
pub open spec fn frame_index(p: PhysicalMemoryManager, a: int) -> int {
    (a - p.spec_base()) / (PAGE_SIZE as int)
}

/// `a` is the address of frame `frame_index(p, a)` of the pool.
pub open spec fn is_pool_frame(p: PhysicalMemoryManager, a: int) -> bool {
    &&& a >= p.spec_base()
    &&& frame_index(p, a) < p.spec_total_frames()
    &&& a == p.frame_addr(frame_index(p, a))
}

/// Whether frame `j` is one of `frames`.
pub open spec fn frame_listed(p: PhysicalMemoryManager, frames: Seq<PhysicalAddress>, j: int) -> bool {
    exists|k: int| 0 <= k < frames.len() && frame_index(p, frames[k].0 as int) == j
}

/// `frames` are distinct frames of the pool, all in use.
pub open spec fn holds_frames(p: PhysicalMemoryManager, frames: Seq<PhysicalAddress>) -> bool {
    &&& forall|k: int| 0 <= k < frames.len() ==> is_pool_frame(p, (#[trigger] frames[k]).0 as int)
    &&& forall|k: int| 0 <= k < frames.len() ==> p.used(frame_index(p, (#[trigger] frames[k]).0 as int))
    &&& forall|k: int, l: int| 0 <= k < frames.len() && 0 <= l < frames.len() && k != l ==>
        (#[trigger] frames[k]).0 != (#[trigger] frames[l]).0
}

impl PhysicalMemoryManager {
    /// Allocates `count` frames one at a time, lowest first; when the pool
    /// runs out part way, hands the ones taken back and reports `None`.
    pub(crate) fn alloc_frames(&mut self, count: usize) -> (r: Option<Vec<PhysicalAddress>>)
        requires
            old(self).wf(),
        ensures
            final(self).wf(),
            final(self).spec_total_frames() == old(self).spec_total_frames(),
            final(self).spec_base() == old(self).spec_base(),
            final(self).spec_usable_frames() == old(self).spec_usable_frames(),
            r is Some <==> count <= old(self).spec_free_frames(),
            r matches Some(v) ==> {
                &&& v@.len() == count
                &&& holds_frames(*final(self), v@)
                &&& forall|k: int| 0 <= k < v@.len() ==> !old(self).used(frame_index(*old(self), (#[trigger] v@[k]).0 as int))
                &&& forall|j: int| 0 <= j < old(self).spec_total_frames() && !frame_listed(*old(self), v@, j) ==>
                    final(self).used(j) == old(self).used(j)
                &&& final(self).spec_free_frames() + count == old(self).spec_free_frames()
            },
            r is None ==> final(self).spec_free_frames() == old(self).spec_free_frames()
                && forall|j: int| 0 <= j < old(self).spec_total_frames() ==> final(self).used(j) == old(self).used(j),
    {
        let ghost entry = *self;
        let mut frames: Vec<PhysicalAddress> = Vec::new();
        while frames.len() < count
            invariant
                entry == *old(self),
                self.wf(),
                self.spec_total_frames() == entry.spec_total_frames(),
                self.spec_base() == entry.spec_base(),
                self.spec_usable_frames() == entry.spec_usable_frames(),
                frames@.len() <= count,
                holds_frames(*self, frames@),
                forall|k: int| 0 <= k < frames@.len() ==> !entry.used(frame_index(entry, (#[trigger] frames@[k]).0 as int)),
                forall|j: int| 0 <= j < entry.spec_total_frames() && !frame_listed(entry, frames@, j) ==>
                    self.used(j) == entry.used(j),
                self.spec_free_frames() + frames@.len() == entry.spec_free_frames(),
            decreases count - frames@.len(),
        {
            let ghost before = *self;
            match self.alloc_frame() {
                Some(frame) => {
                    let ghost i = frame_index(before, frame.0 as int);
                    proof {
                        assert(!frame_listed(entry, frames@, i)) by {
                            if frame_listed(entry, frames@, i) {
                                let k = choose|k: int| 0 <= k < frames@.len() && frame_index(entry, frames@[k].0 as int) == i;
                                assert(before.used(frame_index(before, frames@[k].0 as int)));
                            }
                        }
                    }
                    let ghost old_frames = frames@;
                    frames.push(frame);
                    proof {
                        assert forall|k: int| 0 <= k < frames@.len() implies is_pool_frame(*self, (#[trigger] frames@[k]).0 as int)
                            && self.used(frame_index(*self, frames@[k].0 as int)) by {
                            if k < old_frames.len() {
                                assert(old_frames[k] == frames@[k]);
                                assert(frame_index(*self, frames@[k].0 as int) != i);
                            }
                        }
                        assert forall|k: int, l: int| 0 <= k < frames@.len() && 0 <= l < frames@.len() && k != l implies
                            (#[trigger] frames@[k]).0 != (#[trigger] frames@[l]).0 by {
                            if k < old_frames.len() && l < old_frames.len() {
                                assert(old_frames[k] == frames@[k] && old_frames[l] == frames@[l]);
                            } else if k < old_frames.len() {
                                assert(frame_index(*self, frames@[k].0 as int) != i);
                            } else if l < old_frames.len() {
                                assert(frame_index(*self, frames@[l].0 as int) != i);
                            }
                        }
                        assert forall|j: int| 0 <= j < entry.spec_total_frames() && !frame_listed(entry, frames@, j) implies
                            self.used(j) == entry.used(j) by {
                            assert(!frame_listed(entry, old_frames, j)) by {
                                if frame_listed(entry, old_frames, j) {
                                    let k = choose|k: int| 0 <= k < old_frames.len() && frame_index(entry, old_frames[k].0 as int) == j;
                                    assert(frames@[k] == old_frames[k]);
                                }
                            }
                            assert(j != i) by {
                                assert(frames@[old_frames.len() as int] == frame);
                            }
                        }
                        assert forall|k: int| 0 <= k < frames@.len() implies
                            !entry.used(frame_index(entry, (#[trigger] frames@[k]).0 as int)) by {
                            if k < old_frames.len() {
                                assert(old_frames[k] == frames@[k]);
                            }
                        }
                    }
                },
                None => {
                    self.release_frames(frames);
                    return None;
                },
            }
        }
        Some(frames)
    }

    /// Hands every frame of `frames` back to the pool.
    pub(crate) fn release_frames(&mut self, frames: Vec<PhysicalAddress>)
        requires
            old(self).wf(),
            holds_frames(*old(self), frames@),
        ensures
            final(self).wf(),
            final(self).spec_total_frames() == old(self).spec_total_frames(),
            final(self).spec_base() == old(self).spec_base(),
            final(self).spec_usable_frames() == old(self).spec_usable_frames(),
            final(self).spec_free_frames() == old(self).spec_free_frames() + frames@.len(),
            forall|j: int| 0 <= j < old(self).spec_total_frames() ==>
                final(self).used(j) == (old(self).used(j) && !frame_listed(*old(self), frames@, j)),
    {
        let ghost entry = *self;
        let ghost all = frames@;
        let mut rest = frames;
        while rest.len() > 0
            invariant
                self.wf(),
                self.spec_total_frames() == entry.spec_total_frames(),
                self.spec_base() == entry.spec_base(),
                self.spec_usable_frames() == entry.spec_usable_frames(),
                rest@.len() <= all.len(),
                rest@ =~= all.subrange(0, rest@.len() as int),
                holds_frames(entry, all),
                holds_frames(*self, rest@),
                self.spec_free_frames() == entry.spec_free_frames() + (all.len() - rest@.len()),
                forall|j: int| 0 <= j < entry.spec_total_frames() ==>
                    self.used(j) == (entry.used(j) && !(exists|k: int| rest@.len() <= k < all.len()
                        && frame_index(entry, (#[trigger] all[k]).0 as int) == j)),
            decreases rest@.len(),
        {
            let ghost before = *self;
            let ghost n = rest@.len() - 1;
            let ghost prev = rest@;
            let frame = rest.pop().unwrap();
            let ghost i = frame_index(before, frame.0 as int);
            proof {
                assert(frame == prev[n]);
                assert(prev[n] == all[n]);
                assert(rest@ =~= prev.subrange(0, n));
            }
            self.free_frame(frame);
            proof {
                assert forall|k: int| 0 <= k < rest@.len() implies is_pool_frame(*self, (#[trigger] rest@[k]).0 as int)
                    && self.used(frame_index(*self, rest@[k].0 as int)) by {
                    assert(rest@[k] == prev[k]);
                    assert(prev[k] == all[k]);
                    assert(all[k].0 != all[n].0);
                    assert(before.used(frame_index(before, rest@[k].0 as int)));
                }
                assert forall|j: int| 0 <= j < entry.spec_total_frames() implies
                    self.used(j) == (entry.used(j) && !(exists|k: int| rest@.len() <= k < all.len()
                        && frame_index(entry, (#[trigger] all[k]).0 as int) == j)) by {
                    if j == i {
                        assert(frame_index(entry, all[n].0 as int) == j);
                    } else {
                        if exists|k: int| rest@.len() <= k < all.len() && frame_index(entry, (#[trigger] all[k]).0 as int) == j {
                            let k = choose|k: int| rest@.len() <= k < all.len() && frame_index(entry, (#[trigger] all[k]).0 as int) == j;
                            assert(k != n);
                        }
                    }
                }
            }
        }
        proof {
            assert forall|j: int| 0 <= j < entry.spec_total_frames() implies
                self.used(j) == (entry.used(j) && !frame_listed(entry, all, j)) by {
                if frame_listed(entry, all, j) {
                    let k = choose|k: int| 0 <= k < all.len() && frame_index(entry, all[k].0 as int) == j;
                    assert(frame_index(entry, (all[k]).0 as int) == j);
                }
                if exists|k: int| 0 <= k < all.len() && frame_index(entry, (#[trigger] all[k]).0 as int) == j {
                    let k = choose|k: int| 0 <= k < all.len() && frame_index(entry, (#[trigger] all[k]).0 as int) == j;
                    assert(frame_listed(entry, all, j));
                }
            }
        }
    }
}

pub proof fn lemma_free_count_all_free(bm: Seq<u8>, n: int)
    requires
        n >= 0,
        forall|j: int| 0 <= j < n ==> !frame_used(bm, j),
    ensures
        free_count(bm, n) == n,
    decreases n,
{
    if n > 0 {
        lemma_free_count_all_free(bm, n - 1);
    }
}

pub proof fn lemma_free_count_all_used(bm: Seq<u8>, n: int)
    requires
        n >= 0,
        forall|j: int| 0 <= j < n ==> frame_used(bm, j),
    ensures
        free_count(bm, n) == 0,
    decreases n,
{
    if n > 0 {
        lemma_free_count_all_used(bm, n - 1);
    }
}

} // verus!
