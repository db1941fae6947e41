//! Virtual addresses, page-table entries and the per-process user address
//! space, kept as the set of leaf mappings it installs.
use vstd::prelude::*;
use crate::assoc::{keys_unique, to_map, lemma_lookup_at, lemma_push, lemma_remove, lemma_update_value};
use crate::memory::pmm::{PhysicalAddress, PhysicalMemoryManager, PAGE_SIZE};

verus! {

/// First address past the canonical lower half.
pub const USER_SPACE_END: u64 = 0x0000_8000_0000_0000;
/// First PML4 slot of the shared kernel half.
pub const PML4_KERNEL_START: usize = 256;
/// Base of the kernel MMIO window.
pub const KERNEL_MMIO_BASE: u64 = 0xFFFF_C000_0000_0000;
/// Size of the kernel MMIO window.
pub const KERNEL_MMIO_SIZE: u64 = 0x0000_0080_0000_0000;
/// Mask of the address bits of a page-table entry.
pub const ENTRY_ADDR_MASK: u64 = 0x000F_FFFF_FFFF_F000;

pub const FLAG_PRESENT: u64 = 1 << 0;
pub const FLAG_WRITABLE: u64 = 1 << 1;
pub const FLAG_USER: u64 = 1 << 2;
pub const FLAG_WRITE_THROUGH: u64 = 1 << 3;
pub const FLAG_NO_CACHE: u64 = 1 << 4;
pub const FLAG_ACCESSED: u64 = 1 << 5;
pub const FLAG_DIRTY: u64 = 1 << 6;
pub const FLAG_HUGE: u64 = 1 << 7;
pub const FLAG_GLOBAL: u64 = 1 << 8;
pub const FLAG_NO_EXECUTE: u64 = 1 << 63;
/// Every named flag.
pub const FLAGS_ALL: u64 = 0x8000_0000_0000_01FF;

/// x86_64 page-table entry flags.
#[derive(Clone, Copy, PartialEq, Eq, Structural)]
pub struct PageFlags {
    pub bits: u64,
}

impl PageFlags {
    pub fn empty() -> (r: Self)
        ensures
            r.bits == 0,
    {
        PageFlags { bits: 0 }
    }

    /// Flags from raw bits, dropping unknown bits.
    pub fn from_bits_truncate(bits: u64) -> (r: Self)
        ensures
            r.bits == bits & FLAGS_ALL,
    {
        PageFlags { bits: bits & FLAGS_ALL }
    }

    pub fn from_bits(bits: u64) -> (r: Self)
        ensures
            r.bits == bits,
    {
        PageFlags { bits }
    }

    pub fn bits(self) -> (r: u64)
        ensures
            r == self.bits,
    {
        self.bits
    }

    /// Whether every flag of `other` is set.
    pub fn contains(self, other: PageFlags) -> (r: bool)
        ensures
            r == ((self.bits & other.bits) == other.bits),
    {
        (self.bits & other.bits) == other.bits
    }

    pub fn union(self, other: PageFlags) -> (r: PageFlags)
        ensures
            r.bits == self.bits | other.bits,
    {
        PageFlags { bits: self.bits | other.bits }
    }

    pub fn remove(&mut self, other: PageFlags)
        ensures
            final(self).bits == old(self).bits & !other.bits,
    {
        self.bits = self.bits & !other.bits;
    }
}

/// A virtual address.
#[derive(Clone, Copy, Debug, PartialEq, Eq, Structural)]
pub struct VirtualAddress(pub usize);

impl VirtualAddress {
    pub fn as_usize(&self) -> (r: usize)
        ensures
            r == self.0,
    {
        self.0
    }

    pub fn from_usize(addr: usize) -> (r: Self)
        ensures
            r.0 == addr,
    {
        VirtualAddress(addr)
    }

    pub fn p4_index(&self) -> (r: usize)
        ensures
            r == (self.0 as int / 0x80_0000_0000int) % 512,
            r < 512,
    {
        let v = self.0 as u64;
        assert((v >> 39u64) & 0x1FFu64 == (v / 0x80_0000_0000u64) % 512 && (v >> 39u64) & 0x1FFu64 < 512) by (bit_vector);
        ((v >> 39) & 0x1FF) as usize
    }

    pub fn p3_index(&self) -> (r: usize)
        ensures
            r == (self.0 / 0x4000_0000) % 512,
            r < 512,
    {
        let v = self.0;
        assert((v >> 30usize) & 0x1FFusize == (v / 0x4000_0000) % 512 && (v >> 30usize) & 0x1FFusize < 512) by (bit_vector);
        (v >> 30) & 0x1FF
    }

    pub fn p2_index(&self) -> (r: usize)
        ensures
            r == (self.0 / 0x20_0000) % 512,
            r < 512,
    {
        let v = self.0;
        assert((v >> 21usize) & 0x1FFusize == (v / 0x20_0000) % 512 && (v >> 21usize) & 0x1FFusize < 512) by (bit_vector);
        (v >> 21) & 0x1FF
    }

    pub fn p1_index(&self) -> (r: usize)
        ensures
            r == (self.0 / 0x1000) % 512,
            r < 512,
    {
        let v = self.0;
        assert((v >> 12usize) & 0x1FFusize == (v / 0x1000) % 512 && (v >> 12usize) & 0x1FFusize < 512) by (bit_vector);
        (v >> 12) & 0x1FF
    }

    pub fn offset(&self) -> (r: usize)
        ensures
            r == self.0 % 4096,
    {
        let v = self.0;
        assert(v & 0xFFFusize == v % 4096) by (bit_vector);
        v & 0xFFF
    }
}

/// One 64-bit page-table entry.
#[derive(Clone, Copy, PartialEq, Eq, Structural)]
pub struct PageTableEntry {
    pub entry: u64,
}

impl PageTableEntry {
    pub fn new() -> (r: Self)
        ensures
            r.entry == 0,
    {
        PageTableEntry { entry: 0 }
    }

    pub fn is_unused(&self) -> (r: bool)
        ensures
            r == (self.entry == 0),
    {
        self.entry == 0
    }

    pub fn set_unused(&mut self)
        ensures
            final(self).entry == 0,
    {
        self.entry = 0;
    }

    pub fn flags(&self) -> (r: PageFlags)
        ensures
            r.bits == self.entry & FLAGS_ALL,
    {
        PageFlags::from_bits_truncate(self.entry)
    }

    pub fn addr(&self) -> (r: PhysicalAddress)
        ensures
            r.0 == (self.entry & ENTRY_ADDR_MASK) as usize,
    {
        PhysicalAddress((self.entry & ENTRY_ADDR_MASK) as usize)
    }

    /// Points the entry at `addr` with `flags`.
    pub fn set(&mut self, addr: PhysicalAddress, flags: PageFlags)
        ensures
            final(self).entry == (addr.0 as u64) | flags.bits,
    {
        self.entry = (addr.0 as u64) | flags.bits;
    }
}

/// A table of 512 entries.
pub struct PageTable {
    entries: Vec<PageTableEntry>,
}

impl PageTable {
    pub closed spec fn view(&self) -> Seq<PageTableEntry> {
        self.entries@
    }

    pub fn new() -> (r: Self)
        ensures
            r@.len() == 512,
            forall|i: int| 0 <= i < 512 ==> r@[i].entry == 0,
    {
        PageTable { entries: vec![PageTableEntry { entry: 0 }; 512] }
    }

    pub fn zero(&mut self)
        ensures
            final(self)@.len() == old(self)@.len(),
            forall|i: int| 0 <= i < final(self)@.len() ==> final(self)@[i].entry == 0,
    {
        let mut i: usize = 0;
        while i < self.entries.len()
            invariant
                self.entries@.len() == old(self)@.len(),
                forall|j: int| 0 <= j < i ==> self.entries@[j].entry == 0,
            decreases self.entries@.len() - i,
        {
            self.entries.set(i, PageTableEntry { entry: 0 });
            i = i + 1;
        }
    }

    pub fn get_entry(&self, index: usize) -> (r: &PageTableEntry)
        requires
            index < self@.len(),
        ensures
            *r == self@[index as int],
    {
        &self.entries[index]
    }

    /// Stores `entry` at `index`.
    pub fn set_entry(&mut self, index: usize, entry: PageTableEntry)
        requires
            index < old(self)@.len(),
        ensures
            final(self)@ == old(self)@.update(index as int, entry),
    {
        self.entries.set(index, entry);
    }
}

#[derive(Debug, Clone, Copy, PartialEq, Eq, Structural)]
pub enum AddressSpaceError {
    NoPhysicalMemoryManager,
    OutOfMemory,
    InvalidUserAddress,
    HugePageInPath,
    KernelRootNotInitialized,
}

/// Whether `v` may be the base of a user page.
pub open spec fn valid_user_page(v: int) -> bool {
    v != 0 && v < USER_SPACE_END && v % 4096 == 0
}

pub proof fn lemma_aligned_room(a: usize, off: usize)
    requires
        a % 4096 == 0,
        off < 4096,
    ensures
        a + off <= usize::MAX,
{
    assert(a + off <= usize::MAX) by (nonlinear_arith)
        requires
            a % 4096 == 0,
            off < 4096,
            a <= usize::MAX,
            usize::MAX % 4096 == 4095,
    ;
}

/// An isolated user address space: its root table frame, the frames it owns,
/// and the leaf mapping of each user page (page base, frame, entry flags).
pub struct AddressSpace {
    root_frame: PhysicalAddress,
    user_frames: Vec<PhysicalAddress>,
    page_table_frames: Vec<PhysicalAddress>,
    mappings: Vec<(usize, (PhysicalAddress, PageFlags))>,
}

impl AddressSpace {
    /// Leaf mappings keyed by page base.
    pub closed spec fn view(&self) -> Map<usize, (PhysicalAddress, PageFlags)> {
        to_map(self.mappings@)
    }

    pub closed spec fn owned_frames(&self) -> Seq<PhysicalAddress> {
        self.user_frames@
    }

    pub closed spec fn spec_root(&self) -> PhysicalAddress {
        self.root_frame
    }

    pub closed spec fn wf(&self) -> bool {
        &&& keys_unique(self.mappings@)
        &&& forall|i: int| 0 <= i < self.mappings@.len() ==> valid_user_page(self.mappings@[i].0 as int)
        &&& forall|i: int| 0 <= i < self.mappings@.len() ==> (#[trigger] self.mappings@[i].1).0.0 % 4096 == 0
    }

    pub proof fn lemma_wf(&self)
        requires
            self.wf(),
        ensures
            forall|k: usize| #[trigger] self@.contains_key(k) ==> valid_user_page(k as int) && self@[k].0.0 % 4096 == 0,
    {
        assert forall|k: usize| #[trigger] self@.contains_key(k) implies valid_user_page(k as int) && self@[k].0.0 % 4096 == 0 by {
            let i = choose|i: int| 0 <= i < self.mappings@.len() && self.mappings@[i].0 == k;
            lemma_lookup_at(self.mappings@, i);
        }
    }

    /// A fresh address space whose root table is a new frame.
    pub fn new(pmm: &mut PhysicalMemoryManager) -> (r: Result<Self, AddressSpaceError>)
        requires
            old(pmm).wf(),
        ensures
            final(pmm).wf(),
            final(pmm).spec_base() == old(pmm).spec_base(),
            final(pmm).spec_total_frames() == old(pmm).spec_total_frames(),
            match r {
                Ok(a) => a.wf() && a@ == Map::<usize, (PhysicalAddress, PageFlags)>::empty()
                    && a.owned_frames().len() == 0 && old(pmm).spec_free_frames() > 0
                    && final(pmm).spec_free_frames() + 1 == old(pmm).spec_free_frames(),
                Err(e) => e == AddressSpaceError::OutOfMemory && old(pmm).spec_free_frames() == 0,
            },
    {
        match pmm.alloc_frame() {
            Some(root_frame) => {
                let mut page_table_frames = Vec::new();
                page_table_frames.push(root_frame);
                let a = AddressSpace {
                    root_frame,
                    user_frames: Vec::new(),
                    page_table_frames,
                    mappings: Vec::new(),
                };
                proof {
                    assert(to_map(a.mappings@) =~= Map::<usize, (PhysicalAddress, PageFlags)>::empty());
                }
                Ok(a)
            },
            None => Err(AddressSpaceError::OutOfMemory),
        }
    }

    pub fn root_frame(&self) -> (r: PhysicalAddress)
        ensures
            r == self.spec_root(),
    {
        self.root_frame
    }

    pub fn user_frame_count(&self) -> (r: usize)
        ensures
            r == self.owned_frames().len(),
    {
        self.user_frames.len()
    }

    fn find_mapping(&self, page: usize) -> (r: Option<usize>)
        requires
            self.wf(),
        ensures
            match r {
                Some(i) => i < self.mappings@.len() && self.mappings@[i as int].0 == page,
                None => !self@.contains_key(page),
            },
    {
        let mut i: usize = 0;
        while i < self.mappings.len()
            invariant
                i <= self.mappings@.len(),
                forall|j: int| 0 <= j < i ==> self.mappings@[j].0 != page,
            decreases self.mappings@.len() - i,
        {
            if self.mappings[i].0 == page {
                return Some(i);
            }
            i = i + 1;
        }
        None
    }

    /// The frame and flags of the user page holding `virt`, with the address
    /// offset within the page added to the frame address.
    pub fn user_page_mapping(&self, virt: VirtualAddress) -> (r: Result<Option<(PhysicalAddress, PageFlags)>, AddressSpaceError>)
        requires
            self.wf(),
        ensures
            virt.0 >= USER_SPACE_END ==> r == Err::<Option<(PhysicalAddress, PageFlags)>, AddressSpaceError>(AddressSpaceError::InvalidUserAddress),
            virt.0 < USER_SPACE_END ==> r is Ok,
            r matches Ok(m) ==> {
                let page = (virt.0 - virt.0 % 4096) as usize;
                match m {
                    Some((p, f)) => self@.contains_key(page) && f == self@[page].1
                        && p.0 == self@[page].0.0 + virt.0 % 4096,
                    None => !self@.contains_key(page),
                }
            },
    {
        if virt.0 as u64 >= USER_SPACE_END {
            return Err(AddressSpaceError::InvalidUserAddress);
        }
        let offset = virt.offset();
        let page = virt.0 - offset;
        match self.find_mapping(page) {
            Some(i) => {
                proof {
                    lemma_lookup_at(self.mappings@, i as int);
                }
                let (frame, flags) = self.mappings[i].1;
                proof {
                    lemma_aligned_room(frame.0, offset);
                }
                Ok(Some((PhysicalAddress(frame.0 + offset), flags)))
            },
            None => Ok(None),
        }
    }
}


impl AddressSpace {
    /// The frame holding `virt` (plus the offset within the page), if mapped.
    pub fn translate_user_page(&self, virt: VirtualAddress) -> (r: Result<Option<PhysicalAddress>, AddressSpaceError>)
        requires
            self.wf(),
        ensures
            virt.0 >= USER_SPACE_END ==> r == Err::<Option<PhysicalAddress>, AddressSpaceError>(AddressSpaceError::InvalidUserAddress),
            virt.0 < USER_SPACE_END ==> r is Ok,
            r matches Ok(m) ==> {
                let page = (virt.0 - virt.0 % 4096) as usize;
                match m {
                    Some(p) => self@.contains_key(page) && p.0 == self@[page].0.0 + virt.0 % 4096,
                    None => !self@.contains_key(page),
                }
            },
    {
        match self.user_page_mapping(virt) {
            Ok(Some((p, _))) => Ok(Some(p)),
            Ok(None) => Ok(None),
            Err(e) => Err(e),
        }
    }

    /// The entry flags of the user page holding `virt`, if mapped.
    pub fn user_page_flags(&self, virt: VirtualAddress) -> (r: Result<Option<PageFlags>, AddressSpaceError>)
        requires
            self.wf(),
        ensures
            virt.0 >= USER_SPACE_END ==> r == Err::<Option<PageFlags>, AddressSpaceError>(AddressSpaceError::InvalidUserAddress),
            virt.0 < USER_SPACE_END ==> r is Ok,
            r matches Ok(m) ==> {
                let page = (virt.0 - virt.0 % 4096) as usize;
                match m {
                    Some(f) => self@.contains_key(page) && f == self@[page].1,
                    None => !self@.contains_key(page),
                }
            },
    {
        match self.user_page_mapping(virt) {
            Ok(Some((_, f))) => Ok(Some(f)),
            Ok(None) => Ok(None),
            Err(e) => Err(e),
        }
    }

    /// Maps `phys` at the unmapped user page `virt` with `flags` plus
    /// PRESENT and USER.
    pub fn map_user_frame(&mut self, virt: VirtualAddress, phys: PhysicalAddress, flags: PageFlags) -> (r: Result<(), AddressSpaceError>)
        requires
            old(self).wf(),
        ensures
            final(self).wf(),
            final(self).owned_frames() == old(self).owned_frames(),
            final(self).spec_root() == old(self).spec_root(),
            r is Ok <==> valid_user_page(virt.0 as int) && phys.0 % 4096 == 0 && !old(self)@.contains_key(virt.0),
            r is Ok ==> final(self)@ == old(self)@.insert(virt.0, (phys, PageFlags { bits: flags.bits | FLAG_PRESENT | FLAG_USER })),
            r is Err ==> final(self)@ == old(self)@ && r == Err::<(), AddressSpaceError>(AddressSpaceError::InvalidUserAddress),
    {
        let v = virt.0;
        if v == 0 || v as u64 >= USER_SPACE_END || (v & (PAGE_SIZE - 1)) != 0 || (phys.0 & (PAGE_SIZE - 1)) != 0 {
            proof {
                assert(v & 0xFFFusize == v % 4096) by (bit_vector);
                let p = phys.0;
                assert(p & 0xFFFusize == p % 4096) by (bit_vector);
            }
            return Err(AddressSpaceError::InvalidUserAddress);
        }
        proof {
            assert(v & 0xFFFusize == v % 4096) by (bit_vector);
            let p = phys.0;
            assert(p & 0xFFFusize == p % 4096) by (bit_vector);
        }
        match self.find_mapping(v) {
            Some(i) => {
                proof {
                    lemma_lookup_at(self.mappings@, i as int);
                }
                Err(AddressSpaceError::InvalidUserAddress)
            },
            None => {
                let entry_flags = PageFlags { bits: flags.bits | FLAG_PRESENT | FLAG_USER };
                let ghost before = self.mappings@;
                self.mappings.push((v, (phys, entry_flags)));
                proof {
                    lemma_push(before, v, (phys, entry_flags));
                    assert(to_map(self.mappings@) =~= to_map(before).insert(v, (phys, entry_flags)));
                }
                Ok(())
            },
        }
    }

    /// Allocates a frame and maps it at the unmapped user page `virt`; the
    /// frame becomes owned by this address space. The frame is released again
    /// when the mapping is refused.
    pub fn map_user_page(&mut self, virt: VirtualAddress, flags: PageFlags, pmm: &mut PhysicalMemoryManager) -> (r: Result<PhysicalAddress, AddressSpaceError>)
        requires
            old(self).wf(),
            old(pmm).wf(),
            old(pmm).spec_base() % 4096 == 0,
        ensures
            final(self).wf(),
            final(pmm).wf(),
            final(pmm).spec_base() == old(pmm).spec_base(),
            final(self).spec_root() == old(self).spec_root(),
            !valid_user_page(virt.0 as int) ==> r == Err::<PhysicalAddress, AddressSpaceError>(AddressSpaceError::InvalidUserAddress)
                && final(self)@ == old(self)@,
            valid_user_page(virt.0 as int) && old(pmm).spec_free_frames() == 0 ==> r == Err::<PhysicalAddress, AddressSpaceError>(AddressSpaceError::OutOfMemory)
                && final(self)@ == old(self)@,
            r is Ok <==> valid_user_page(virt.0 as int) && old(pmm).spec_free_frames() > 0 && !old(self)@.contains_key(virt.0),
            r matches Ok(frame) ==> final(self)@ == old(self)@.insert(virt.0, (frame, PageFlags { bits: flags.bits | FLAG_PRESENT | FLAG_USER | FLAG_PRESENT | FLAG_USER }))
                && final(self).owned_frames() == old(self).owned_frames().push(frame)
                && final(pmm).spec_free_frames() + 1 == old(pmm).spec_free_frames(),
            r is Err ==> final(self)@ == old(self)@ && final(self).owned_frames() == old(self).owned_frames()
                && final(pmm).spec_free_frames() == old(pmm).spec_free_frames(),
    {
        let v = virt.0;
        proof {
            assert(v & 0xFFFusize == v % 4096) by (bit_vector);
        }
        if v == 0 || v as u64 >= USER_SPACE_END || (v & (PAGE_SIZE - 1)) != 0 {
            return Err(AddressSpaceError::InvalidUserAddress);
        }
        let frame = match pmm.alloc_frame() {
            Some(f) => f,
            None => return Err(AddressSpaceError::OutOfMemory),
        };
        proof {
            let pi = (frame.0 - old(pmm).spec_base()) / (PAGE_SIZE as int);
            let b = old(pmm).spec_base() as int;
            assert(frame.0 == b + pi * 4096);
            assert((b + pi * 4096) % 4096 == 0) by (nonlinear_arith)
                requires
                    b % 4096 == 0,
            ;
        }
        let user_flags = PageFlags { bits: flags.bits | FLAG_PRESENT | FLAG_USER };
        match self.map_user_frame(virt, frame, user_flags) {
            Ok(()) => {
                self.user_frames.push(frame);
                Ok(frame)
            },
            Err(e) => {
                pmm.free_frame(frame);
                Err(e)
            },
        }
    }
}


impl AddressSpace {
    fn find_owned(&self, frame: PhysicalAddress) -> (r: Option<usize>)
        ensures
            match r {
                Some(i) => i < self.user_frames@.len() && self.user_frames@[i as int] == frame,
                None => !self.owned_frames().contains(frame),
            },
    {
        let mut i: usize = 0;
        while i < self.user_frames.len()
            invariant
                i <= self.user_frames@.len(),
                forall|j: int| 0 <= j < i ==> self.user_frames@[j] != frame,
            decreases self.user_frames@.len() - i,
        {
            if self.user_frames[i].0 == frame.0 {
                return Some(i);
            }
            i = i + 1;
        }
        None
    }

    /// Removes the mapping of the user page `virt`. A frame owned by this
    /// address space goes back to the frame pool. Returns whether a mapping
    /// existed.
    pub fn unmap_user_page(&mut self, virt: VirtualAddress, pmm: &mut PhysicalMemoryManager) -> (r: Result<bool, AddressSpaceError>)
        requires
            old(self).wf(),
            old(pmm).wf(),
        ensures
            final(self).wf(),
            final(pmm).wf(),
            final(self).spec_root() == old(self).spec_root(),
            final(pmm).spec_total_frames() == old(pmm).spec_total_frames(),
            final(pmm).spec_base() == old(pmm).spec_base(),
            !valid_user_page(virt.0 as int) ==> r == Err::<bool, AddressSpaceError>(AddressSpaceError::InvalidUserAddress),
            valid_user_page(virt.0 as int) ==> r == Ok::<bool, AddressSpaceError>(old(self)@.contains_key(virt.0)),
            final(self)@ == old(self)@.remove(virt.0),
    {
        let v = virt.0;
        proof {
            assert(v & 0xFFFusize == v % 4096) by (bit_vector);
        }
        if v == 0 || v as u64 >= USER_SPACE_END || (v & (PAGE_SIZE - 1)) != 0 {
            proof {
                self.lemma_wf();
                assert(to_map(self.mappings@) =~= to_map(self.mappings@).remove(v));
            }
            return Err(AddressSpaceError::InvalidUserAddress);
        }
        match self.find_mapping(v) {
            None => {
                proof {
                    assert(to_map(self.mappings@) =~= to_map(self.mappings@).remove(v));
                }
                Ok(false)
            },
            Some(i) => {
                let frame = (self.mappings[i].1).0;
                let ghost before = self.mappings@;
                self.mappings.remove(i);
                proof {
                    lemma_remove(before, i as int);
                    assert(to_map(self.mappings@) =~= to_map(before).remove(v));
                }
                match self.find_owned(frame) {
                    Some(j) => {
                        self.user_frames.swap_remove(j);
                        pmm.free_frame(frame);
                    },
                    None => {},
                }
                Ok(true)
            },
        }
    }

    /// Changes the flags of a mapped user page to `flags` plus USER, and
    /// PRESENT when `present`. Returns whether the page was mapped.
    pub fn protect_user_page(&mut self, virt: VirtualAddress, flags: PageFlags, present: bool) -> (r: Result<bool, AddressSpaceError>)
        requires
            old(self).wf(),
        ensures
            final(self).wf(),
            final(self).spec_root() == old(self).spec_root(),
            final(self).owned_frames() == old(self).owned_frames(),
            !valid_user_page(virt.0 as int) ==> r == Err::<bool, AddressSpaceError>(AddressSpaceError::InvalidUserAddress)
                && final(self)@ == old(self)@,
            valid_user_page(virt.0 as int) ==> r == Ok::<bool, AddressSpaceError>(old(self)@.contains_key(virt.0)),
            valid_user_page(virt.0 as int) && old(self)@.contains_key(virt.0) ==>
                final(self)@ == old(self)@.insert(virt.0, (old(self)@[virt.0].0,
                    PageFlags { bits: if present { flags.bits | FLAG_USER | FLAG_PRESENT } else { flags.bits | FLAG_USER } })),
            !(valid_user_page(virt.0 as int) && old(self)@.contains_key(virt.0)) ==> final(self)@ == old(self)@,
    {
        let v = virt.0;
        proof {
            assert(v & 0xFFFusize == v % 4096) by (bit_vector);
        }
        if v == 0 || v as u64 >= USER_SPACE_END || (v & (PAGE_SIZE - 1)) != 0 {
            return Err(AddressSpaceError::InvalidUserAddress);
        }
        match self.find_mapping(v) {
            None => Ok(false),
            Some(i) => {
                let frame = (self.mappings[i].1).0;
                let mut new_bits = flags.bits | FLAG_USER;
                if present {
                    new_bits = new_bits | FLAG_PRESENT;
                }
                let ghost before = self.mappings@;
                proof {
                    lemma_lookup_at(before, i as int);
                }
                self.mappings.set(i, (v, (frame, PageFlags { bits: new_bits })));
                proof {
                    lemma_update_value(before, i as int, (frame, PageFlags { bits: new_bits }));
                    assert(to_map(self.mappings@) =~= to_map(before).insert(v, (frame, PageFlags { bits: new_bits })));
                }
                Ok(true)
            },
        }
    }

    /// The frames the address space owns: its user frames, then its
    /// page-table frames.
    pub closed spec fn released_frames(&self) -> Seq<PhysicalAddress> {
        self.user_frames@ + self.page_table_frames@
    }

    /// Returns every owned user frame and page-table frame to the pool: each
    /// pool frame among them ends up free, every other frame keeps its state.
    pub fn release(self, pmm: &mut PhysicalMemoryManager)
        requires
            old(pmm).wf(),
        ensures
            final(pmm).wf(),
            final(pmm).spec_total_frames() == old(pmm).spec_total_frames(),
            final(pmm).spec_base() == old(pmm).spec_base(),
            final(pmm).spec_usable_frames() == old(pmm).spec_usable_frames(),
            forall|j: int| 0 <= j < old(pmm).spec_total_frames() ==> (#[trigger] final(pmm).used(j) == if listed_frame(old(pmm).spec_base() as int, self.released_frames(), self.released_frames().len() as int, j) {
                false
            } else {
                old(pmm).used(j)
            }),
    {
        let ghost all = self.released_frames();
        let ghost base = old(pmm).spec_base() as int;
        let ghost ulen = self.user_frames@.len();
        let mut i: usize = 0;
        while i < self.user_frames.len()
            invariant
                pmm.wf(),
                all == self.user_frames@ + self.page_table_frames@,
                ulen == self.user_frames@.len(),
                base == old(pmm).spec_base(),
                i <= ulen,
                pmm.spec_total_frames() == old(pmm).spec_total_frames(),
                pmm.spec_base() == old(pmm).spec_base(),
                pmm.spec_usable_frames() == old(pmm).spec_usable_frames(),
                forall|j: int| 0 <= j < old(pmm).spec_total_frames() ==> (#[trigger] pmm.used(j) == if listed_frame(base, all, i as int, j) {
                    false
                } else {
                    old(pmm).used(j)
                }),
            decreases self.user_frames@.len() - i,
        {
            let a = self.user_frames[i];
            let ghost before = *pmm;
            pmm.free_frame(a);
            proof {
                assert(all[i as int] == a);
                lemma_listed_step(base, all, i as int, before, *pmm, *old(pmm));
            }
            i = i + 1;
        }
        let mut j: usize = 0;
        while j < self.page_table_frames.len()
            invariant
                pmm.wf(),
                all == self.user_frames@ + self.page_table_frames@,
                ulen == self.user_frames@.len(),
                base == old(pmm).spec_base(),
                j <= self.page_table_frames@.len(),
                pmm.spec_total_frames() == old(pmm).spec_total_frames(),
                pmm.spec_base() == old(pmm).spec_base(),
                pmm.spec_usable_frames() == old(pmm).spec_usable_frames(),
                forall|x: int| 0 <= x < old(pmm).spec_total_frames() ==> (#[trigger] pmm.used(x) == if listed_frame(base, all, ulen + j, x) {
                    false
                } else {
                    old(pmm).used(x)
                }),
            decreases self.page_table_frames@.len() - j,
        {
            let a = self.page_table_frames[j];
            let ghost before = *pmm;
            pmm.free_frame(a);
            proof {
                assert(all[ulen + j] == a);
                lemma_listed_step(base, all, ulen + j, before, *pmm, *old(pmm));
            }
            j = j + 1;
        }
    }
}

/// The pool frame index of address `a` (negative below the pool).
pub open spec fn frame_of(base: int, a: int) -> int {
    if a >= base { (a - base) / (PAGE_SIZE as int) } else { -1 }
}

/// Whether one of the first `n` addresses of `s` is frame `j`.
pub open spec fn listed_frame(base: int, s: Seq<PhysicalAddress>, n: int, j: int) -> bool {
    exists|k: int| 0 <= k < n && #[trigger] frame_of(base, s[k].0 as int) == j
}

proof fn lemma_listed_step(base: int, s: Seq<PhysicalAddress>, n: int, before: PhysicalMemoryManager, after: PhysicalMemoryManager, orig: PhysicalMemoryManager)
    requires
        0 <= n < s.len(),
        before.spec_base() == base,
        before.spec_total_frames() == orig.spec_total_frames(),
        forall|j: int| 0 <= j < orig.spec_total_frames() ==> (#[trigger] before.used(j) == if listed_frame(base, s, n, j) {
            false
        } else {
            orig.used(j)
        }),
        ({
            let i = (s[n].0 - before.spec_base()) / (PAGE_SIZE as int);
            if s[n].0 >= before.spec_base() && i < before.spec_total_frames() && before.used(i) {
                !after.used(i)
                && forall|j: int| 0 <= j < before.spec_total_frames() && j != i ==> after.used(j) == before.used(j)
            } else {
                after.bits() == before.bits()
            }
        }),
    ensures
        forall|j: int| 0 <= j < orig.spec_total_frames() ==> (#[trigger] after.used(j) == if listed_frame(base, s, n + 1, j) {
            false
        } else {
            orig.used(j)
        }),
{
    let fi = frame_of(base, s[n].0 as int);
    assert forall|j: int| 0 <= j < orig.spec_total_frames() implies (#[trigger] after.used(j) == if listed_frame(base, s, n + 1, j) {
        false
    } else {
        orig.used(j)
    }) by {
        let i = (s[n].0 - before.spec_base()) / (PAGE_SIZE as int);
        if listed_frame(base, s, n, j) {
            let k = choose|k: int| 0 <= k < n && #[trigger] frame_of(base, s[k].0 as int) == j;
            assert(frame_of(base, s[k].0 as int) == j);
            assert(0 <= k < n + 1);
            assert(listed_frame(base, s, n + 1, j));
        }
        if fi == j {
            assert(frame_of(base, s[n].0 as int) == j);
            assert(listed_frame(base, s, n + 1, j));
            assert(s[n].0 >= base);
            assert(i == j);
            assert(!after.used(j));
        } else {
            if listed_frame(base, s, n + 1, j) {
                let k = choose|k: int| 0 <= k < n + 1 && #[trigger] frame_of(base, s[k].0 as int) == j;
                assert(k != n);
                assert(listed_frame(base, s, n, j));
            }
            if s[n].0 >= before.spec_base() && i < before.spec_total_frames() && before.used(i) {
                assert(i == fi);
                assert(after.used(j) == before.used(j));
            } else {
                assert(after.used(j) == before.used(j));
            }
        }
    }
}

/// The address of physical address `phys` in the direct map of all physical
/// memory, which starts at `hhdm`.
pub fn phys_to_virt(phys: usize, hhdm: usize) -> (r: usize)
    requires
        phys + hhdm <= usize::MAX,
    ensures
        r == phys + hhdm,
{
    phys + hhdm
}

/// The physical address behind direct-map address `virt` (the direct map
/// starts at `hhdm`).
pub fn virt_to_phys(virt: usize, hhdm: usize) -> (r: usize)
    requires
        virt >= hhdm,
    ensures
        r == virt - hhdm,
        phys_to_virt_spec(r, hhdm) == virt,
{
    virt - hhdm
}

/// Where `phys` lies in the direct map that starts at `hhdm`.
pub open spec fn phys_to_virt_spec(phys: usize, hhdm: usize) -> int {
    phys + hhdm
}

} // verus!
