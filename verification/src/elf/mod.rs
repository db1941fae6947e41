//! ELF64 executables: header and program-header decoding, the page plan
//! for loading segments into a user address space, and the initial user
//! stack of the exec ABI (argc, argv, envp).
use vstd::prelude::*;
use vstd::string::StringSliceAdditionalSpecFns;
use crate::memory::pmm::{PhysicalAddress, PhysicalMemoryManager};
use vstd::arithmetic::div_mod::lemma_div_denominator;
use crate::memory::vmm::{AddressSpace, PageFlags, VirtualAddress, valid_user_page, FLAG_NO_EXECUTE, FLAG_PRESENT, FLAG_USER, FLAG_WRITABLE, USER_SPACE_END};
use crate::process::{CpuContext, Process, ProcessId, ProcessState};
use crate::process::table::{ProcessSystem, has_pid, mark_process_prepared_as_ready, moved_to, pid_index, pid_runnable, process_record_index};

verus! {

/// The fixed part of an ELF64 file header, as stored little-endian.
#[derive(Debug, Clone, Copy)]
pub struct ElfHeader {
    pub magic: [u8; 4],
    pub class: u8,
    pub data: u8,
    pub version: u8,
    pub os_abi: u8,
    pub abi_version: u8,
    pub padding: [u8; 7],
    pub elf_type: u16,
    pub machine: u16,
    pub version2: u32,
    pub entry: u64,
    pub phoff: u64,
    pub shoff: u64,
    pub flags: u32,
    pub ehsize: u16,
    pub phentsize: u16,
    pub phnum: u16,
    pub shentsize: u16,
    pub shnum: u16,
    pub shstrndx: u16,
}

/// One ELF64 program header.
#[derive(Debug, Clone, Copy, PartialEq, Eq, Structural)]
pub struct ProgramHeader {
    pub p_type: u32,
    pub p_flags: u32,
    pub p_offset: u64,
    pub p_vaddr: u64,
    pub p_paddr: u64,
    pub p_filesz: u64,
    pub p_memsz: u64,
    pub p_align: u64,
}

/// Size of the file header.
pub const ELF_HEADER_SIZE: usize = 64;
/// Size of a program header.
pub const PROGRAM_HEADER_SIZE: usize = 56;
pub const ELF_CLASS_64: u8 = 2;
pub const ELF_DATA_LSB: u8 = 1;
pub const ELF_MACHINE_X86_64: u16 = 0x3E;
pub const ELF_TYPE_EXEC: u16 = 2;
pub const PT_LOAD: u32 = 1;
pub const PF_X: u32 = 0x1;
pub const PF_W: u32 = 0x2;
pub const PF_R: u32 = 0x4;

/// Why an image was refused.
#[derive(Debug, Clone, Copy, PartialEq, Eq, Structural)]
pub enum ElfError {
    InvalidMagic,
    InvalidClass,
    InvalidArchitecture,
    InvalidType,
    InvalidProgramHeader,
    TooManyProgramHeaders,
    ProcessCreateFailed,
}

/// The magic bytes `0x7F 'E' 'L' 'F'`.
pub open spec fn elf_magic() -> Seq<u8> {
    seq![0x7Fu8, 0x45u8, 0x4Cu8, 0x46u8]
}

pub open spec fn le16(s: Seq<u8>, o: int) -> int {
    s[o] + s[o + 1] * 0x100
}

pub open spec fn le32(s: Seq<u8>, o: int) -> int {
    le16(s, o) + le16(s, o + 2) * 0x1_0000
}

pub open spec fn le64(s: Seq<u8>, o: int) -> int {
    le32(s, o) + le32(s, o + 4) * 0x1_0000_0000
}

fn read_u16(s: &[u8], o: usize) -> (r: u16)
    requires
        o + 2 <= s@.len(),
    ensures
        r == le16(s@, o as int),
{
    s[o] as u16 + s[o + 1] as u16 * 0x100
}

fn read_u32(s: &[u8], o: usize) -> (r: u32)
    requires
        o + 4 <= s@.len(),
    ensures
        r == le32(s@, o as int),
{
    let _n = s.len();
    let lo = read_u16(s, o);
    let hi = read_u16(s, o + 2);
    lo as u32 + hi as u32 * 0x1_0000
}

fn read_u64(s: &[u8], o: usize) -> (r: u64)
    requires
        o + 8 <= s@.len(),
    ensures
        r == le64(s@, o as int),
{
    let _n = s.len();
    let lo = read_u32(s, o);
    let hi = read_u32(s, o + 4);
    lo as u64 + hi as u64 * 0x1_0000_0000
}

/// The header stored at the start of `s`.
pub open spec fn header_of(s: Seq<u8>) -> ElfHeader {
    ElfHeader {
        magic: arbitrary(),
        class: s[4],
        data: s[5],
        version: s[6],
        os_abi: s[7],
        abi_version: s[8],
        padding: arbitrary(),
        elf_type: le16(s, 16) as u16,
        machine: le16(s, 18) as u16,
        version2: le32(s, 20) as u32,
        entry: le64(s, 24) as u64,
        phoff: le64(s, 32) as u64,
        shoff: le64(s, 40) as u64,
        flags: le32(s, 48) as u32,
        ehsize: le16(s, 52) as u16,
        phentsize: le16(s, 54) as u16,
        phnum: le16(s, 56) as u16,
        shentsize: le16(s, 58) as u16,
        shnum: le16(s, 60) as u16,
        shstrndx: le16(s, 62) as u16,
    }
}

/// Whether `h` has the fields that `s` stores (the byte arrays included).
pub open spec fn is_header_of(h: ElfHeader, s: Seq<u8>) -> bool {
    &&& h.magic@ == s.subrange(0, 4)
    &&& h.padding@ == s.subrange(9, 16)
    &&& h == ElfHeader { magic: h.magic, padding: h.padding, ..header_of(s) }
}

/// Decodes the file header at the start of `s`.
pub fn parse_header(s: &[u8]) -> (h: ElfHeader)
    requires
        s@.len() >= 64,
    ensures
        is_header_of(h, s@),
{
    let mut magic = [0u8; 4];
    let mut i: usize = 0;
    while i < 4
        invariant
            i <= 4,
            s@.len() >= 64,
            forall|k: int| 0 <= k < i ==> magic@[k] == s@[k],
        decreases 4 - i,
    {
        magic[i] = s[i];
        i = i + 1;
    }
    let mut padding = [0u8; 7];
    let mut j: usize = 0;
    while j < 7
        invariant
            j <= 7,
            s@.len() >= 64,
            forall|k: int| 0 <= k < j ==> padding@[k] == s@[9 + k],
        decreases 7 - j,
    {
        padding[j] = s[9 + j];
        j = j + 1;
    }
    assert(magic@ =~= s@.subrange(0, 4));
    assert(padding@ =~= s@.subrange(9, 16));
    ElfHeader {
        magic,
        class: s[4],
        data: s[5],
        version: s[6],
        os_abi: s[7],
        abi_version: s[8],
        padding,
        elf_type: read_u16(s, 16),
        machine: read_u16(s, 18),
        version2: read_u32(s, 20),
        entry: read_u64(s, 24),
        phoff: read_u64(s, 32),
        shoff: read_u64(s, 40),
        flags: read_u32(s, 48),
        ehsize: read_u16(s, 52),
        phentsize: read_u16(s, 54),
        phnum: read_u16(s, 56),
        shentsize: read_u16(s, 58),
        shnum: read_u16(s, 60),
        shstrndx: read_u16(s, 62),
    }
}

/// The program header stored at `o` in `s`.
pub open spec fn program_header_of(s: Seq<u8>, o: int) -> ProgramHeader {
    ProgramHeader {
        p_type: le32(s, o) as u32,
        p_flags: le32(s, o + 4) as u32,
        p_offset: le64(s, o + 8) as u64,
        p_vaddr: le64(s, o + 16) as u64,
        p_paddr: le64(s, o + 24) as u64,
        p_filesz: le64(s, o + 32) as u64,
        p_memsz: le64(s, o + 40) as u64,
        p_align: le64(s, o + 48) as u64,
    }
}

/// Decodes the program header stored at `o`.
pub fn parse_program_header(s: &[u8], o: usize) -> (ph: ProgramHeader)
    requires
        o + 56 <= s@.len(),
    ensures
        ph == program_header_of(s@, o as int),
{
    let _n = s.len();
    ProgramHeader {
        p_type: read_u32(s, o),
        p_flags: read_u32(s, o + 4),
        p_offset: read_u64(s, o + 8),
        p_vaddr: read_u64(s, o + 16),
        p_paddr: read_u64(s, o + 24),
        p_filesz: read_u64(s, o + 32),
        p_memsz: read_u64(s, o + 40),
        p_align: read_u64(s, o + 48),
    }
}

/// Why an image is refused, checked in order: too short or wrong magic,
/// not 64-bit, not x86-64, not an executable.
pub open spec fn image_error(s: Seq<u8>) -> Option<ElfError> {
    if s.len() < 64 || s.subrange(0, 4) != elf_magic() {
        Some(ElfError::InvalidMagic)
    } else if s[4] != ELF_CLASS_64 {
        Some(ElfError::InvalidClass)
    } else if le16(s, 18) != ELF_MACHINE_X86_64 {
        Some(ElfError::InvalidArchitecture)
    } else if le16(s, 16) != ELF_TYPE_EXEC {
        Some(ElfError::InvalidType)
    } else {
        None
    }
}

/// A validated image and its decoded header.
pub struct ElfParser<'a> {
    pub data: &'a [u8],
    pub header: ElfHeader,
}

/// The program headers of an image, read one at a time.
pub struct ProgramHeaderIterator<'a> {
    pub data: &'a [u8],
    pub offset: usize,
    pub count: usize,
    pub index: usize,
    pub entsize: usize,
}

impl<'a> ElfParser<'a> {
    /// Checks the header of `data` and decodes it.
    pub fn new(data: &'a [u8]) -> (r: Result<Self, ElfError>)
        ensures
            image_error(data@) matches Some(e) ==> r == Err::<Self, ElfError>(e),
            image_error(data@) is None ==> (r matches Ok(p) && p.data@ == data@ && is_header_of(p.header, data@)),
    {
        if data.len() < 64 {
            return Err(ElfError::InvalidMagic);
        }
        let header = parse_header(data);
        if header.magic[0] != 0x7F || header.magic[1] != 0x45 || header.magic[2] != 0x4C || header.magic[3] != 0x46 {
            proof {
                assert(data@.subrange(0, 4) != elf_magic()) by {
                    if data@.subrange(0, 4) == elf_magic() {
                        assert(header.magic@[0] == data@.subrange(0, 4)[0]);
                        assert(header.magic@[1] == data@.subrange(0, 4)[1]);
                        assert(header.magic@[2] == data@.subrange(0, 4)[2]);
                        assert(header.magic@[3] == data@.subrange(0, 4)[3]);
                    }
                }
            }
            return Err(ElfError::InvalidMagic);
        }
        assert(data@.subrange(0, 4) =~= elf_magic());
        if header.class != ELF_CLASS_64 {
            return Err(ElfError::InvalidClass);
        }
        if header.machine != ELF_MACHINE_X86_64 {
            return Err(ElfError::InvalidArchitecture);
        }
        if header.elf_type != ELF_TYPE_EXEC {
            return Err(ElfError::InvalidType);
        }
        Ok(ElfParser { data, header })
    }

    /// The decoded header.
    pub fn header(&self) -> (r: &ElfHeader)
        ensures
            *r == self.header,
    {
        &self.header
    }

    /// The address execution starts at.
    pub fn entry_point(&self) -> (r: u64)
        ensures
            r == self.header.entry,
    {
        self.header.entry
    }

    /// The program-header table, refused when it does not fit in the image
    /// or holds more than 256 entries.
    pub fn program_headers(&self) -> (r: Result<ProgramHeaderIterator<'a>, ElfError>)
        ensures
            self.header.phoff + self.header.phnum * self.header.phentsize > self.data@.len()
                ==> r == Err::<ProgramHeaderIterator<'a>, ElfError>(ElfError::InvalidProgramHeader),
            self.header.phoff + self.header.phnum * self.header.phentsize <= self.data@.len() && self.header.phnum > 256
                ==> r == Err::<ProgramHeaderIterator<'a>, ElfError>(ElfError::TooManyProgramHeaders),
            self.header.phoff + self.header.phnum * self.header.phentsize <= self.data@.len() && self.header.phnum <= 256
                ==> (r matches Ok(it) && it.data@ == self.data@ && it.offset == self.header.phoff
                    && it.count == self.header.phnum && it.index == 0 && it.entsize == self.header.phentsize),
    {
        let phnum = self.header.phnum as usize;
        let phentsize = self.header.phentsize as usize;
        let len = self.data.len();
        assert(phnum * phentsize < 0x1_0000_0000) by (nonlinear_arith)
            requires
                phnum < 0x1_0000,
                phentsize < 0x1_0000,
        ;
        let table = phnum as u64 * phentsize as u64;
        if self.header.phoff > len as u64 || table > len as u64 - self.header.phoff {
            return Err(ElfError::InvalidProgramHeader);
        }
        if phnum > 256 {
            return Err(ElfError::TooManyProgramHeaders);
        }
        Ok(ProgramHeaderIterator {
            data: self.data,
            offset: self.header.phoff as usize,
            count: phnum,
            index: 0,
            entsize: phentsize,
        })
    }
}

impl<'a> ProgramHeaderIterator<'a> {
    /// The next program header, or `None` past the last one or when the
    /// next one would run past the end of the image.
    pub fn next(&mut self) -> (r: Option<ProgramHeader>)
        ensures
            final(self).data == old(self).data,
            final(self).offset == old(self).offset,
            final(self).count == old(self).count,
            final(self).entsize == old(self).entsize,
            old(self).index >= old(self).count ==> r is None && final(self).index == old(self).index,
            old(self).index < old(self).count
                && old(self).offset + old(self).index * old(self).entsize + 56 > old(self).data@.len()
                ==> r is None && final(self).index == old(self).index,
            old(self).index < old(self).count
                && old(self).offset + old(self).index * old(self).entsize + 56 <= old(self).data@.len()
                ==> r == Some(program_header_of(old(self).data@, old(self).offset + old(self).index * old(self).entsize))
                    && final(self).index == old(self).index + 1,
    {
        if self.index >= self.count {
            return None;
        }
        let len = self.data.len();
        if self.offset > len {
            return None;
        }
        let room = len - self.offset;
        let ix = self.index;
        let es = self.entsize;
        assert(ix * es <= 0xFFFF_FFFF_FFFF_FFFE_0000_0000_0000_0001) by (nonlinear_arith)
            requires
                ix <= 0xFFFF_FFFF_FFFF_FFFF,
                es <= 0xFFFF_FFFF_FFFF_FFFF,
        ;
        let step = ix as u128 * es as u128;
        if step + 56 > room as u128 {
            return None;
        }
        let ph_offset = self.offset + (self.index * self.entsize);
        let ph = parse_program_header(self.data, ph_offset);
        self.index = self.index + 1;
        Some(ph)
    }
}


/// Bytes in a page.
pub const PAGE_SIZE: usize = 4096;

/// Whether flag bits ask for no-execute.
pub open spec fn no_exec(bits: u64) -> bool {
    bits & FLAG_NO_EXECUTE == FLAG_NO_EXECUTE
}

/// The flags a page gets when a segment with `f` lands on a page already
/// mapped with `e`: the union, executable unless both forbid execution.
pub open spec fn merged_bits(e: u64, f: u64) -> u64 {
    if !no_exec(e) || !no_exec(f) { (e | f | FLAG_USER) & !FLAG_NO_EXECUTE } else { e | f | FLAG_USER }
}

/// Maps the user page `virt` with `flags`, or, when it is mapped already,
/// widens its flags; returns the page's frame.
pub fn ensure_process_page(space: &mut AddressSpace, virt: VirtualAddress, flags: PageFlags, pmm: &mut PhysicalMemoryManager) -> (r: Result<PhysicalAddress, ElfError>)
    requires
        old(space).wf(),
        old(pmm).wf(),
        old(pmm).spec_base() % 4096 == 0,
    ensures
        final(space).wf(),
        final(pmm).wf(),
        final(pmm).spec_base() == old(pmm).spec_base(),
        final(space).spec_root() == old(space).spec_root(),
        !valid_user_page(virt.0 as int) ==> r == Err::<PhysicalAddress, ElfError>(ElfError::InvalidProgramHeader)
            && final(space)@ == old(space)@ && final(pmm).spec_free_frames() == old(pmm).spec_free_frames(),
        valid_user_page(virt.0 as int) && old(space)@.contains_key(virt.0) ==> ({
            let e = old(space)@[virt.0];
            &&& r == Ok::<PhysicalAddress, ElfError>(e.0)
            &&& final(space)@ == old(space)@.insert(virt.0, (e.0, PageFlags { bits: merged_bits(e.1.bits, flags.bits) | FLAG_USER | FLAG_PRESENT }))
            &&& final(pmm).spec_free_frames() == old(pmm).spec_free_frames()
        }),
        valid_user_page(virt.0 as int) && !old(space)@.contains_key(virt.0) ==> ({
            &&& (r is Ok <==> old(pmm).spec_free_frames() > 0)
            &&& r matches Ok(frame) ==> final(space)@ == old(space)@.insert(virt.0, (frame, PageFlags { bits: flags.bits | FLAG_PRESENT | FLAG_USER | FLAG_PRESENT | FLAG_USER }))
                && final(pmm).spec_free_frames() + 1 == old(pmm).spec_free_frames()
            &&& r is Err ==> final(space)@ == old(space)@ && r == Err::<PhysicalAddress, ElfError>(ElfError::InvalidProgramHeader)
        }),
{
    proof {
        space.lemma_wf();
    }
    match space.translate_user_page(virt) {
        Ok(Some(phys)) => {
            let v = virt.0;
            proof {
                assert(v % 4096 < 4096);
            }
            let existing = match space.user_page_flags(virt) {
                Ok(Some(f)) => f,
                _ => PageFlags::empty(),
            };
            let mut merged = existing.bits | flags.bits | FLAG_USER;
            if (existing.bits & FLAG_NO_EXECUTE) != FLAG_NO_EXECUTE || (flags.bits & FLAG_NO_EXECUTE) != FLAG_NO_EXECUTE {
                merged = merged & !FLAG_NO_EXECUTE;
            }
            let base = PhysicalAddress(phys.0 - phys.0 % 4096);
            match space.protect_user_page(virt, PageFlags { bits: merged }, true) {
                Ok(_) => {},
                Err(_) => return Err(ElfError::InvalidProgramHeader),
            }
            proof {
                if valid_user_page(v as int) {
                    assert(v % 4096 == 0);
                    assert((v - v % 4096) as usize == v);
                    let fr = old(space)@[v].0;
                    assert(fr.0 % 4096 == 0);
                    assert(phys.0 == fr.0);
                    assert(base == fr);
                }
            }
            Ok(base)
        },
        Ok(None) => {
            proof {
                if valid_user_page(virt.0 as int) {
                    assert((virt.0 - virt.0 % 4096) as usize == virt.0);
                }
            }
            match space.map_user_page(virt, flags, pmm) {
                Ok(f) => Ok(f),
                Err(_) => Err(ElfError::InvalidProgramHeader),
            }
        },
        Err(_) => Err(ElfError::InvalidProgramHeader),
    }
}


/// One copy of file bytes into a loaded page: `len` bytes from `src_offset`
/// in the image to `dst_offset` in `frame` (nothing when `len` is 0).
#[derive(Debug, Clone, Copy, PartialEq, Eq, Structural)]
pub struct SegmentCopy {
    pub frame: PhysicalAddress,
    pub dst_offset: usize,
    pub src_offset: usize,
    pub len: usize,
}

/// The page flags of a loadable segment: user, writable when asked, and
/// not executable unless asked.
pub open spec fn segment_flags(p_flags: u32) -> u64 {
    let w = if p_flags & PF_W != 0 { FLAG_USER | FLAG_WRITABLE } else { FLAG_USER };
    if p_flags & PF_X == 0 { w | FLAG_NO_EXECUTE } else { w }
}

/// The pages of a loaded segment carry the segment's permissions: they are
/// user pages, writable exactly when the segment's flags hold the write bit
/// (2), and executable (no-execute bit clear) exactly when they hold the
/// execute bit (1).
pub proof fn law_segment_permissions(p_flags: u32)
    ensures
        segment_flags(p_flags) & FLAG_USER != 0,
        (segment_flags(p_flags) & FLAG_WRITABLE != 0) == (p_flags & 2u32 != 0),
        (segment_flags(p_flags) & FLAG_NO_EXECUTE == 0) == (p_flags & 1u32 != 0),
{
    let s = segment_flags(p_flags);
    assert(s & (1u64 << 2u64) != 0 && (s & (1u64 << 1u64) != 0) == (p_flags & 2u32 != 0)
        && (s & (1u64 << 63u64) == 0) == (p_flags & 1u32 != 0)) by (bit_vector)
        requires
            s == (if p_flags & 1u32 == 0 {
                (if p_flags & 2u32 != 0 { (1u64 << 2u64) | (1u64 << 1u64) } else { 1u64 << 2u64 }) | (1u64 << 63u64)
            } else {
                if p_flags & 2u32 != 0 { (1u64 << 2u64) | (1u64 << 1u64) } else { 1u64 << 2u64 }
            }),
    ;
}

/// Why a loadable segment is refused before any page is touched.
pub open spec fn segment_error(data_len: int, ph: ProgramHeader) -> bool {
    ||| ph.p_memsz < ph.p_filesz
    ||| ph.p_vaddr + ph.p_memsz > u64::MAX
    ||| ph.p_offset + ph.p_filesz > u64::MAX
    ||| ph.p_offset + ph.p_filesz > data_len
    ||| ph.p_vaddr + ph.p_memsz + 4095 > u64::MAX
}

/// First page a segment touches.
pub open spec fn seg_page_start(ph: ProgramHeader) -> int {
    ph.p_vaddr - ph.p_vaddr % 4096
}

/// End of the last page a segment touches.
pub open spec fn seg_page_end(ph: ProgramHeader) -> int {
    let e = ph.p_vaddr + ph.p_memsz + 4095;
    e - e % 4096
}

/// Number of pages a segment touches.
pub open spec fn seg_pages(ph: ProgramHeader) -> int {
    (seg_page_end(ph) - seg_page_start(ph)) / 4096
}

/// The `k`-th page of a segment.
pub open spec fn seg_page(ph: ProgramHeader, k: int) -> int {
    seg_page_start(ph) + 4096 * k
}

/// The file bytes that land on `page`: destination offset, source offset
/// and length (0 when none do).
pub open spec fn page_copy(ph: ProgramHeader, page: int) -> (int, int, int) {
    let cs = if page > ph.p_vaddr { page } else { ph.p_vaddr as int };
    let fe = ph.p_vaddr + ph.p_filesz;
    let ce = if page + 4096 < fe { page + 4096 } else { fe };
    if cs < ce { (cs - page, ph.p_offset + (cs - ph.p_vaddr), ce - cs) } else { (0, 0, 0) }
}


/// What loading a segment did to one page, relative to the mapping before.
pub open spec fn page_loaded(
    before: Map<usize, (PhysicalAddress, PageFlags)>,
    after: Map<usize, (PhysicalAddress, PageFlags)>,
    page: usize,
    bits: u64,
) -> bool {
    &&& after.contains_key(page)
    &&& before.contains_key(page) ==> after[page] == (before[page].0, PageFlags { bits: merged_bits(before[page].1.bits, bits) | FLAG_USER | FLAG_PRESENT })
    &&& !before.contains_key(page) ==> after[page].1 == PageFlags { bits: bits | FLAG_PRESENT | FLAG_USER | FLAG_PRESENT | FLAG_USER }
}

/// Whether `v` is one of the first `n` pages of the segment.
pub open spec fn in_seg_pages(ph: ProgramHeader, n: int, v: int) -> bool {
    exists|k: int| 0 <= k < n && v == seg_page(ph, k)
}

/// Maps every page that a loadable segment covers (widening the flags of
/// pages already mapped) and returns, page by page, which file bytes go
/// where; pages past the file part stay zero.
#[verifier::spinoff_prover]
pub fn load_segment_process(data: &[u8], space: &mut AddressSpace, ph: &ProgramHeader, pmm: &mut PhysicalMemoryManager) -> (r: Result<Vec<SegmentCopy>, ElfError>)
    requires
        old(space).wf(),
        old(pmm).wf(),
        old(pmm).spec_base() % 4096 == 0,
    ensures
        final(space).wf(),
        final(pmm).wf(),
        final(pmm).spec_base() == old(pmm).spec_base(),
        final(space).spec_root() == old(space).spec_root(),
        segment_error(data@.len() as int, *ph) ==> r == Err::<Vec<SegmentCopy>, ElfError>(ElfError::InvalidProgramHeader)
            && final(space)@ == old(space)@,
        !segment_error(data@.len() as int, *ph)
            && (forall|k: int| 0 <= k < seg_pages(*ph) ==> #[trigger] valid_user_page(seg_page(*ph, k)) && seg_page(*ph, k) <= usize::MAX)
            && old(pmm).spec_free_frames() >= seg_pages(*ph) ==> r is Ok,
        r matches Ok(copies) ==> {
            &&& !segment_error(data@.len() as int, *ph)
            &&& copies@.len() == seg_pages(*ph)
            &&& forall|k: int| 0 <= k < seg_pages(*ph) ==> page_loaded(old(space)@, final(space)@, #[trigger] seg_page(*ph, k) as usize, segment_flags(ph.p_flags))
            &&& forall|k: int| 0 <= k < seg_pages(*ph) ==> {
                let c = #[trigger] copies@[k];
                let pc = page_copy(*ph, seg_page(*ph, k));
                &&& c.frame == final(space)@[seg_page(*ph, k) as usize].0
                &&& c.dst_offset == pc.0 && c.src_offset == pc.1 && c.len == pc.2
                &&& c.src_offset + c.len <= data@.len()
                &&& c.dst_offset + c.len <= 4096
            }
            &&& forall|v: usize| !in_seg_pages(*ph, seg_pages(*ph), v as int) ==>
                (#[trigger] final(space)@.contains_key(v) == old(space)@.contains_key(v)) && (old(space)@.contains_key(v) ==> final(space)@[v] == old(space)@[v])
        },
{
    let vs = ph.p_vaddr;
    let ms = ph.p_memsz;
    let fs = ph.p_filesz;
    let fo = ph.p_offset;
    if ms < fs {
        return Err(ElfError::InvalidProgramHeader);
    }
    if vs > u64::MAX - ms {
        return Err(ElfError::InvalidProgramHeader);
    }
    let ve = vs + ms;
    if fo > u64::MAX - fs {
        return Err(ElfError::InvalidProgramHeader);
    }
    let fe = fo + fs;
    if fe > data.len() as u64 {
        return Err(ElfError::InvalidProgramHeader);
    }
    if ve > u64::MAX - 4095 {
        return Err(ElfError::InvalidProgramHeader);
    }
    let page_start = vs - vs % 4096;
    let page_end = (ve + 4095) - (ve + 4095) % 4096;
    let mut bits = FLAG_USER;
    if ph.p_flags & PF_W != 0 {
        bits = bits | FLAG_WRITABLE;
    }
    if ph.p_flags & PF_X == 0 {
        bits = bits | FLAG_NO_EXECUTE;
    }
    let flags = PageFlags { bits };
    let ghost n = seg_pages(*ph);
    let ghost m0 = old(space)@;
    let ghost free0 = old(pmm).spec_free_frames();
    proof {
        assert(page_start % 4096 == 0);
        assert(page_end % 4096 == 0);
        assert(page_start <= page_end);
    }
    let dl = data.len();
    let mut copies: Vec<SegmentCopy> = Vec::new();
    let mut page = page_start;
    let mut k: usize = 0;
    while page < page_end
        invariant
            dl == data@.len(),
            space.wf(),
            pmm.wf(),
            pmm.spec_base() == old(pmm).spec_base(),
            pmm.spec_base() % 4096 == 0,
            space.spec_root() == old(space).spec_root(),
            m0 == old(space)@,
            free0 == old(pmm).spec_free_frames(),
            !segment_error(data@.len() as int, *ph),
            vs == ph.p_vaddr && fs == ph.p_filesz && fo == ph.p_offset,
            page_start == seg_page_start(*ph),
            page_end == seg_page_end(*ph),
            n == seg_pages(*ph),
            page_start % 4096 == 0,
            page_end % 4096 == 0,
            bits == segment_flags(ph.p_flags),
            flags.bits == bits,
            page == page_start + 4096 * k,
            page <= page_end,
            k <= n,
            copies@.len() == k,
            free0 - k <= pmm.spec_free_frames(),
            forall|j: int| 0 <= j < k ==> page_loaded(m0, space@, #[trigger] seg_page(*ph, j) as usize, bits),
            forall|j: int| 0 <= j < k ==> {
                let c = #[trigger] copies@[j];
                let pc = page_copy(*ph, seg_page(*ph, j));
                &&& c.frame == space@[seg_page(*ph, j) as usize].0
                &&& c.dst_offset == pc.0 && c.src_offset == pc.1 && c.len == pc.2
                &&& c.src_offset + c.len <= data@.len()
                &&& c.dst_offset + c.len <= 4096
            },
            forall|v: usize| !in_seg_pages(*ph, k as int, v as int) ==>
                (#[trigger] space@.contains_key(v) == m0.contains_key(v)) && (m0.contains_key(v) ==> space@[v] == m0[v]),
            (forall|j: int| 0 <= j < n ==> #[trigger] valid_user_page(seg_page(*ph, j)) && seg_page(*ph, j) <= usize::MAX) && free0 >= n ==> free0 - k <= pmm.spec_free_frames(),
        decreases page_end - page,
    {
        assert(page == seg_page(*ph, k as int));
        assert(k < n) by {
            assert(page_end - page >= 4096);
        }
        if page > usize::MAX as u64 {
            assert(!(forall|j: int| 0 <= j < seg_pages(*ph) ==> #[trigger] valid_user_page(seg_page(*ph, j)) && seg_page(*ph, j) <= usize::MAX)) by {
                if forall|j: int| 0 <= j < seg_pages(*ph) ==> #[trigger] valid_user_page(seg_page(*ph, j)) && seg_page(*ph, j) <= usize::MAX {
                    assert(valid_user_page(seg_page(*ph, k as int)) && seg_page(*ph, k as int) <= usize::MAX);
                }
            }
            return Err(ElfError::InvalidProgramHeader);
        }
        let ghost before = space@;
        let ghost free_before = pmm.spec_free_frames();
        let frame = match ensure_process_page(space, VirtualAddress(page as usize), flags, pmm) {
            Ok(f) => f,
            Err(e) => return Err(e),
        };
        let cs = if page > vs { page } else { vs };
        let fe2 = vs + fs;
        let ce = if page + 4096 < fe2 { page + 4096 } else { fe2 };
        let c = if cs < ce {
            SegmentCopy { frame, dst_offset: (cs - page) as usize, src_offset: (fo + (cs - vs)) as usize, len: (ce - cs) as usize }
        } else {
            SegmentCopy { frame, dst_offset: 0, src_offset: 0, len: 0 }
        };
        proof {
            let pv = page as usize;
            assert(valid_user_page(pv as int));
            assert(space@.contains_key(pv));
            assert(frame == space@[pv].0);
            assert(c.src_offset + c.len <= data@.len());
            assert(c.dst_offset + c.len <= 4096);
            let pc = page_copy(*ph, seg_page(*ph, k as int));
            assert(c.dst_offset == pc.0);
            if cs < ce {
                assert(c.src_offset == fo + (cs - vs));
                assert(pc.1 == ph.p_offset + (cs - ph.p_vaddr));
            }
            assert(c.src_offset == pc.1);
            assert(c.len == pc.2);
        }
        copies.push(c);
        proof {
            let pv = page as usize;
            assert forall|v: usize| !in_seg_pages(*ph, k as int + 1, v as int) implies
                (#[trigger] space@.contains_key(v) == m0.contains_key(v)) && (m0.contains_key(v) ==> space@[v] == m0[v]) by {
                assert(!in_seg_pages(*ph, k as int, v as int)) by {
                    if in_seg_pages(*ph, k as int, v as int) {
                        let w = choose|w: int| 0 <= w < k && v == seg_page(*ph, w);
                        assert(0 <= w < k + 1 && v == seg_page(*ph, w));
                    }
                }
                assert(v != pv) by {
                    assert(0 <= k < k + 1 && pv == seg_page(*ph, k as int));
                }
                assert(before.contains_key(v) == m0.contains_key(v));
                assert(m0.contains_key(v) ==> before[v] == m0[v]);
                assert(space@.contains_key(v) == before.contains_key(v));
                assert(before.contains_key(v) ==> space@[v] == before[v]);
            }
            assert forall|j: int| 0 <= j < k + 1 implies page_loaded(m0, space@, #[trigger] seg_page(*ph, j) as usize, bits) by {
                if j < k {
                    assert(page_loaded(m0, before, seg_page(*ph, j) as usize, bits));
                    assert(seg_page(*ph, j) as usize != pv);
                } else {
                    assert(!in_seg_pages(*ph, k as int, pv as int)) by {
                        if in_seg_pages(*ph, k as int, pv as int) {
                            let w = choose|w: int| 0 <= w < k && pv == seg_page(*ph, w);
                        }
                    }
                }
            }
            assert forall|j: int| 0 <= j < k + 1 implies {
                let c2 = #[trigger] copies@[j];
                let pc = page_copy(*ph, seg_page(*ph, j));
                &&& c2.frame == space@[seg_page(*ph, j) as usize].0
                &&& c2.dst_offset == pc.0 && c2.src_offset == pc.1 && c2.len == pc.2
                &&& c2.src_offset + c2.len <= data@.len()
                &&& c2.dst_offset + c2.len <= 4096
            } by {
                if j < k {
                    assert(seg_page(*ph, j) as usize != pv);
                }
            }
        }
        page = page + 4096;
        k = k + 1;
    }
    proof {
        assert(k == n);
    }
    Ok(copies)
}


/// Top of the initial user stack.
pub const USER_STACK_TOP: u64 = 0x0000_7FFF_FFFF_F000;
/// Size of the user stack mapped at exec.
pub const USER_STACK_SIZE: u64 = 0x10000;
/// Most arguments (and most environment strings) an exec takes.
pub const MAX_EXEC_ARGS: usize = 16;
/// Longest argument or environment string.
pub const MAX_EXEC_ARG_LEN: usize = 128;

/// The initial stack pointer before anything is pushed: the top, 16-byte
/// aligned.
pub fn initial_user_stack() -> (r: u64)
    ensures
        r == USER_STACK_TOP - USER_STACK_TOP % 16,
{
    USER_STACK_TOP - USER_STACK_TOP % 16
}

/// Strings laid end to end, each followed by a NUL.
pub open spec fn joined(strs: Seq<Seq<u8>>) -> Seq<u8>
    decreases strs.len(),
{
    if strs.len() == 0 { Seq::empty() } else { joined(strs.drop_last()) + strs.last() + seq![0u8] }
}

/// The eight little-endian bytes of `w`.
pub open spec fn word_le(w: u64) -> Seq<u8> {
    Seq::new(8, |i: int| ((w as int / pow256(i)) % 256) as u8)
}

pub open spec fn pow256(i: int) -> int
    decreases i,
{
    if i <= 0 { 1 } else { 256 * pow256(i - 1) }
}

/// Words laid end to end, little-endian.
pub open spec fn words_le(ws: Seq<u64>) -> Seq<u8>
    decreases ws.len(),
{
    if ws.len() == 0 { Seq::empty() } else { words_le(ws.drop_last()) + word_le(ws.last()) }
}

/// Address of the `i`-th of `strs` when their joined image starts at `base`.
pub open spec fn string_addr(base: int, strs: Seq<Seq<u8>>, i: int) -> int {
    base + joined(strs.take(i)).len()
}

/// The addresses of all of `strs` placed from `base`.
pub open spec fn string_addrs(base: int, strs: Seq<Seq<u8>>) -> Seq<u64> {
    Seq::new(strs.len(), |i: int| string_addr(base, strs, i) as u64)
}

/// Where the exec ABI puts things, for `argv` and `env`: the strings
/// (environment first) end at the stack top; below them, after aligning
/// to 16 and one padding word when the word count is even, come argc, the
/// argv pointers, NULL, the envp pointers and NULL.
pub open spec fn strings_base(argv: Seq<Seq<u8>>, env: Seq<Seq<u8>>) -> int {
    USER_STACK_TOP - (joined(env) + joined(argv)).len()
}

pub open spec fn table_words(argv: Seq<Seq<u8>>, env: Seq<Seq<u8>>) -> Seq<u64> {
    let sb = strings_base(argv, env);
    seq![argv.len() as u64] + string_addrs(sb + joined(env).len(), argv) + seq![0u64]
        + string_addrs(sb, env) + seq![0u64]
}

/// The stack pointer on entry.
pub open spec fn entry_rsp(argv: Seq<Seq<u8>>, env: Seq<Seq<u8>>) -> int {
    let sb = strings_base(argv, env);
    let aligned = sb - sb % 16;
    let words = argv.len() + env.len() + 3;
    let pad = if words % 2 == 0 { 8int } else { 0 };
    aligned - pad - 8 * words
}

/// The table written at the entry stack pointer (the padding word
/// included).
pub open spec fn table_image(argv: Seq<Seq<u8>>, env: Seq<Seq<u8>>) -> Seq<u8> {
    let words = argv.len() + env.len() + 3;
    words_le(table_words(argv, env)) + (if words % 2 == 0 { word_le(0) } else { Seq::empty() })
}

/// Whether an exec with these arguments and environment is refused.
pub open spec fn exec_args_error(argv: Seq<Seq<u8>>, env: Seq<Seq<u8>>) -> bool {
    ||| argv.len() == 0
    ||| argv.len() > MAX_EXEC_ARGS
    ||| env.len() > MAX_EXEC_ARGS
    ||| exists|i: int| 0 <= i < argv.len() && (#[trigger] argv[i]).len() > MAX_EXEC_ARG_LEN
    ||| exists|i: int| 0 <= i < env.len() && (#[trigger] env[i]).len() > MAX_EXEC_ARG_LEN
}

/// The initial user stack of an exec: the registers' values and the two
/// byte blocks to write (the pointer table at `rsp`, the strings at
/// `strings_addr`).
pub struct InitialStack {
    pub rsp: u64,
    pub argc: usize,
    pub argv: u64,
    pub envp: u64,
    pub table: Vec<u8>,
    pub strings_addr: u64,
    pub strings: Vec<u8>,
}


/// The byte strings held by `strs`.
pub open spec fn views(strs: Seq<Vec<u8>>) -> Seq<Seq<u8>> {
    strs.map_values(|v: Vec<u8>| v@)
}

proof fn lemma_joined_len(strs: Seq<Seq<u8>>)
    requires
        forall|i: int| 0 <= i < strs.len() ==> (#[trigger] strs[i]).len() <= MAX_EXEC_ARG_LEN,
    ensures
        joined(strs).len() <= 129 * strs.len(),
    decreases strs.len(),
{
    if strs.len() > 0 {
        let d = strs.drop_last();
        assert forall|i: int| 0 <= i < d.len() implies (#[trigger] d[i]).len() <= MAX_EXEC_ARG_LEN by {
            assert(d[i] == strs[i]);
        }
        lemma_joined_len(d);
    }
}

proof fn lemma_joined_take(strs: Seq<Seq<u8>>, i: int)
    requires
        0 <= i < strs.len(),
    ensures
        joined(strs.take(i + 1)) == joined(strs.take(i)) + strs[i] + seq![0u8],
{
    assert(strs.take(i + 1).drop_last() =~= strs.take(i));
}

/// Appends each string and a NUL.
fn append_joined(out: &mut Vec<u8>, strs: &Vec<Vec<u8>>)
    ensures
        final(out)@ == old(out)@ + joined(views(strs@)),
{
    let ghost vs = views(strs@);
    let mut i: usize = 0;
    while i < strs.len()
        invariant
            vs == views(strs@),
            vs.len() == strs@.len(),
            i <= strs@.len(),
            out@ == old(out)@ + joined(vs.take(i as int)),
        decreases strs.len() - i,
    {
        proof {
            lemma_joined_take(vs, i as int);
            assert(vs[i as int] == strs@[i as int]@);
        }
        let s = &strs[i];
        let mut j: usize = 0;
        let ghost base = out@;
        while j < s.len()
            invariant
                j <= s@.len(),
                out@ == base + s@.subrange(0, j as int),
            decreases s.len() - j,
        {
            out.push(s[j]);
            assert(out@ =~= base + s@.subrange(0, j + 1));
            j = j + 1;
        }
        out.push(0u8);
        proof {
            assert(s@.subrange(0, s@.len() as int) =~= s@);
            assert(out@ =~= old(out)@ + joined(vs.take(i as int + 1)));
        }
        i = i + 1;
    }
    assert(vs.take(vs.len() as int) =~= vs);
}

/// Appends the eight little-endian bytes of `w`.
fn push_word(out: &mut Vec<u8>, w: u64)
    ensures
        final(out)@ == old(out)@ + word_le(w),
{
    let mut x = w;
    let mut i: usize = 0;
    while i < 8
        invariant
            i <= 8,
            x == w as int / pow256(i as int),
            pow256(i as int) > 0,
            out@ == old(out)@ + word_le(w).subrange(0, i as int),
        decreases 8 - i,
    {
        proof {
            lemma_div_denominator(w as int, pow256(i as int), 256);
            assert(pow256(i as int + 1) == 256 * pow256(i as int));
            assert(pow256(i as int) * 256 == 256 * pow256(i as int)) by (nonlinear_arith);
        }
        out.push((x % 256) as u8);
        proof {
            assert(word_le(w)[i as int] == ((w as int / pow256(i as int)) % 256) as u8);
            assert(out@ =~= old(out)@ + word_le(w).subrange(0, i as int + 1));
        }
        x = x / 256;
        i = i + 1;
    }
    assert(word_le(w).subrange(0, 8) =~= word_le(w));
}

proof fn lemma_entry_alignment(aligned: int, words: int)
    requires
        aligned % 16 == 0,
        words >= 0,
    ensures
        (aligned - (if words % 2 == 0 { 8int } else { 0 }) - 8 * words) % 16 == 8,
{
    if words % 2 == 0 {
        assert((aligned - 8 - 8 * words) % 16 == 8) by (nonlinear_arith)
            requires
                aligned % 16 == 0,
                words % 2 == 0,
        ;
    } else {
        assert((aligned - 8 * words) % 16 == 8) by (nonlinear_arith)
            requires
                aligned % 16 == 0,
                words % 2 == 1,
        ;
    }
}

/// Whether no string of `strs` is longer than the limit.
fn strings_fit(strs: &Vec<Vec<u8>>) -> (r: bool)
    ensures
        r == (forall|i: int| 0 <= i < strs@.len() ==> (#[trigger] views(strs@)[i]).len() <= MAX_EXEC_ARG_LEN),
{
    let ghost vs = views(strs@);
    let mut i: usize = 0;
    while i < strs.len()
        invariant
            vs == views(strs@),
            i <= strs@.len(),
            forall|k: int| 0 <= k < i ==> (#[trigger] vs[k]).len() <= MAX_EXEC_ARG_LEN,
        decreases strs.len() - i,
    {
        assert(vs[i as int] == strs@[i as int]@);
        if strs[i].len() > MAX_EXEC_ARG_LEN {
            return false;
        }
        i = i + 1;
    }
    true
}

/// Appends the pointers to each of `strs` when their joined image starts
/// at `base`.
fn push_string_addrs(table: &mut Vec<u8>, strs: &Vec<Vec<u8>>, base: u64, Ghost(prefix): Ghost<Seq<u64>>)
    requires
        old(table)@ == words_le(prefix),
        strs@.len() <= 16,
        forall|q: int| 0 <= q < strs@.len() ==> (#[trigger] views(strs@)[q]).len() <= MAX_EXEC_ARG_LEN,
        base + joined(views(strs@)).len() <= USER_STACK_TOP,
    ensures
        final(table)@ == words_le(prefix + string_addrs(base as int, views(strs@))),
{
    let ghost vs = views(strs@);
    let ghost addrs = string_addrs(base as int, vs);
    let mut off: u64 = base;
    let mut k: usize = 0;
    while k < strs.len()
        invariant
            vs == views(strs@),
            addrs == string_addrs(base as int, vs),
            k <= strs@.len(),
            strs@.len() <= 16,
            forall|q: int| 0 <= q < vs.len() ==> (#[trigger] vs[q]).len() <= MAX_EXEC_ARG_LEN,
            base + joined(vs).len() <= USER_STACK_TOP,
            off == base + joined(vs.take(k as int)).len(),
            table@ == words_le(prefix + addrs.take(k as int)),
        decreases strs.len() - k,
    {
        proof {
            lemma_joined_take(vs, k as int);
            let t = vs.take(k as int + 1);
            assert forall|q: int| 0 <= q < t.len() implies (#[trigger] t[q]).len() <= MAX_EXEC_ARG_LEN by {
                assert(t[q] == vs[q]);
            }
            lemma_joined_len(t);
            assert(vs[k as int] == strs@[k as int]@);
        }
        push_word(table, off);
        proof {
            let ws = prefix + addrs.take(k as int + 1);
            assert(ws.drop_last() =~= prefix + addrs.take(k as int));
            assert(ws.last() == off);
        }
        off = off + strs[k].len() as u64 + 1;
        k = k + 1;
    }
    assert(addrs.take(vs.len() as int) =~= addrs);
}

/// Appends a zero word.
fn push_null(table: &mut Vec<u8>, Ghost(prefix): Ghost<Seq<u64>>)
    requires
        old(table)@ == words_le(prefix),
    ensures
        final(table)@ == words_le(prefix + seq![0u64]),
{
    push_word(table, 0);
    assert((prefix + seq![0u64]).drop_last() =~= prefix);
}

proof fn lemma_words_le_len(ws: Seq<u64>)
    ensures
        words_le(ws).len() == 8 * ws.len(),
    decreases ws.len(),
{
    if ws.len() > 0 {
        lemma_words_le_len(ws.drop_last());
    }
}

proof fn lemma_joined_whole(a: Seq<Seq<u8>>)
    requires
        forall|q: int| 0 <= q < a.len() ==> (#[trigger] a[q]).len() <= MAX_EXEC_ARG_LEN,
    ensures
        joined(a).len() <= 129 * a.len(),
{
    lemma_joined_len(a);
}

/// Lays out the initial user stack of an exec (see [`entry_rsp`]): refused
/// without arguments, with more than 16 arguments or environment strings,
/// or with a string longer than 128 bytes. On entry the stack pointer is
/// 8 modulo 16, as a function entered by `call` expects.
pub fn prepare_initial_stack(argv: &Vec<Vec<u8>>, env: &Vec<Vec<u8>>) -> (r: Result<InitialStack, ElfError>)
    ensures
        exec_args_error(views(argv@), views(env@)) ==> r == Err::<InitialStack, ElfError>(ElfError::InvalidProgramHeader),
        !exec_args_error(views(argv@), views(env@)) ==> (r matches Ok(st) && {
            let a = views(argv@);
            let e = views(env@);
            &&& st.rsp == entry_rsp(a, e)
            &&& st.rsp % 16 == 8
            &&& st.argc == argv@.len()
            &&& st.argv == st.rsp + 8
            &&& st.envp == st.rsp + 16 + 8 * argv@.len()
            &&& st.table@ == table_image(a, e)
            &&& st.strings_addr == strings_base(a, e)
            &&& st.strings@ == joined(e) + joined(a)
            &&& st.rsp + st.table@.len() <= st.strings_addr
            &&& st.strings_addr + st.strings@.len() == USER_STACK_TOP
        }),
{
    let ghost a = views(argv@);
    let ghost e = views(env@);
    if argv.len() == 0 || argv.len() > MAX_EXEC_ARGS || env.len() > MAX_EXEC_ARGS {
        return Err(ElfError::InvalidProgramHeader);
    }
    if !strings_fit(argv) || !strings_fit(env) {
        return Err(ElfError::InvalidProgramHeader);
    }
    proof {
        lemma_joined_whole(a);
        lemma_joined_whole(e);
    }
    let mut strings: Vec<u8> = Vec::new();
    append_joined(&mut strings, env);
    let env_len = strings.len();
    append_joined(&mut strings, argv);
    assert(strings@ =~= joined(e) + joined(a));
    let sb: u64 = USER_STACK_TOP - strings.len() as u64;
    let aligned = sb - sb % 16;
    let words = argv.len() + env.len() + 3;
    let pad: u64 = if words % 2 == 0 { 8 } else { 0 };
    let rsp = aligned - pad - 8 * words as u64;
    proof {
        lemma_entry_alignment(aligned as int, words as int);
    }
    let mut table: Vec<u8> = Vec::new();
    push_word(&mut table, argv.len() as u64);
    let ghost w0 = seq![argv.len() as u64];
    assert(words_le(w0) =~= word_le(argv.len() as u64)) by {
        reveal_with_fuel(words_le, 2);
        assert(w0.drop_last() =~= Seq::<u64>::empty());
    }
    push_string_addrs(&mut table, argv, sb + env_len as u64, Ghost(w0));
    let ghost w1 = w0 + string_addrs(sb + joined(e).len(), a);
    push_null(&mut table, Ghost(w1));
    let ghost w2 = w1 + seq![0u64];
    push_string_addrs(&mut table, env, sb, Ghost(w2));
    let ghost w3 = w2 + string_addrs(sb as int, e);
    push_null(&mut table, Ghost(w3));
    proof {
        assert(w3 + seq![0u64] =~= table_words(a, e));
        lemma_words_le_len(table_words(a, e));
    }
    if pad == 8 {
        push_word(&mut table, 0);
    }
    Ok(InitialStack {
        rsp,
        argc: argv.len(),
        argv: rsp + 8,
        envp: rsp + 16 + 8 * argv.len() as u64,
        table,
        strings_addr: sb,
        strings,
    })
}


/// A piece of a write into user memory: `len` bytes from `src_offset` of
/// the source go to physical address `phys`.
#[derive(Debug, Clone, Copy, PartialEq, Eq, Structural)]
pub struct UserChunk {
    pub phys: PhysicalAddress,
    pub src_offset: usize,
    pub len: usize,
}

/// The physical address behind user byte `t`, if its page is mapped.
pub open spec fn byte_phys(m: Map<usize, (PhysicalAddress, PageFlags)>, t: int) -> Option<int> {
    if 0 <= t && t < USER_SPACE_END && t <= usize::MAX && m.contains_key((t - t % 4096) as usize) {
        Some(m[(t - t % 4096) as usize].0.0 + t % 4096)
    } else {
        None
    }
}

/// Whether every byte of `[addr, addr + len)` is mapped.
pub open spec fn range_writable(m: Map<usize, (PhysicalAddress, PageFlags)>, addr: int, len: int) -> bool {
    forall|t: int| addr <= t < addr + len ==> #[trigger] byte_phys(m, t) is Some
}

proof fn lemma_same_page(a: int, d: int)
    requires
        a >= 0,
        0 <= d < 4096 - a % 4096,
    ensures
        (a + d) % 4096 == a % 4096 + d,
        (a + d) - (a + d) % 4096 == a - a % 4096,
{
}

/// Splits a write of `len` bytes at user address `addr` at page
/// boundaries and finds the frame behind each piece; refused when a byte
/// of the range is not mapped.
pub fn user_write_plan(space: &AddressSpace, addr: u64, len: usize) -> (r: Result<Vec<UserChunk>, ElfError>)
    requires
        space.wf(),
    ensures
        r is Ok <==> range_writable(space@, addr as int, len as int),
        r is Err ==> r == Err::<Vec<UserChunk>, ElfError>(ElfError::InvalidProgramHeader),
        r matches Ok(chunks) ==> {
            &&& (forall|i: int| 0 <= i < chunks@.len() ==> {
                let c = #[trigger] chunks@[i];
                &&& c.len > 0
                &&& (addr + c.src_offset) % 4096 + c.len <= 4096
                &&& byte_phys(space@, addr + c.src_offset) == Some(c.phys.0 as int)
                &&& c.src_offset + c.len <= len
                &&& i + 1 < chunks@.len() ==> chunks@[i + 1].src_offset == c.src_offset + c.len
            })
            &&& (len > 0 ==> chunks@.len() > 0 && chunks@[0].src_offset == 0 && chunks@.last().src_offset + chunks@.last().len == len)
            &&& (len == 0 ==> chunks@.len() == 0)
        },
{
    let mut chunks: Vec<UserChunk> = Vec::new();
    let mut written: usize = 0;
    while written < len
        invariant
            space.wf(),
            written <= len,
            range_writable(space@, addr as int, written as int),
            forall|i: int| 0 <= i < chunks@.len() ==> {
                let c = #[trigger] chunks@[i];
                &&& c.len > 0
                &&& (addr + c.src_offset) % 4096 + c.len <= 4096
                &&& byte_phys(space@, addr + c.src_offset) == Some(c.phys.0 as int)
                &&& c.src_offset + c.len <= written
                &&& i + 1 < chunks@.len() ==> chunks@[i + 1].src_offset == c.src_offset + c.len
            },
            written > 0 ==> chunks@.len() > 0 && chunks@[0].src_offset == 0 && chunks@.last().src_offset + chunks@.last().len == written,
            written == 0 ==> chunks@.len() == 0,
        decreases len - written,
    {
        if addr > u64::MAX - written as u64 || addr + written as u64 > usize::MAX as u64 {
            assert(byte_phys(space@, addr + written) is None);
            return Err(ElfError::InvalidProgramHeader);
        }
        let ua = addr + written as u64;
        let page_left = 4096 - (ua % 4096) as usize;
        let chunk = if page_left < len - written { page_left } else { len - written };
        proof {
            space.lemma_wf();
        }
        let phys = match space.translate_user_page(VirtualAddress(ua as usize)) {
            Ok(Some(p)) => p,
            _ => {
                assert(byte_phys(space@, ua as int) is None);
                return Err(ElfError::InvalidProgramHeader);
            },
        };
        proof {
            assert forall|t: int| addr <= t < addr + written + chunk implies #[trigger] byte_phys(space@, t) is Some by {
                if t >= ua {
                    lemma_same_page(ua as int, t - ua);
                }
            }
        }
        let ghost before = chunks@;
        chunks.push(UserChunk { phys, src_offset: written, len: chunk });
        proof {
            assert forall|i: int| 0 <= i < chunks@.len() implies {
                let c = #[trigger] chunks@[i];
                &&& c.len > 0
                &&& (addr + c.src_offset) % 4096 + c.len <= 4096
                &&& byte_phys(space@, addr + c.src_offset) == Some(c.phys.0 as int)
                &&& c.src_offset + c.len <= written + chunk
                &&& i + 1 < chunks@.len() ==> chunks@[i + 1].src_offset == c.src_offset + c.len
            } by {
                if i < before.len() {
                    assert(chunks@[i] == before[i]);
                    if i + 1 == before.len() {
                        assert(before.last() == before[i]);
                    } else {
                        assert(chunks@[i + 1] == before[i + 1]);
                    }
                }
            }
        }
        written = written + chunk;
    }
    Ok(chunks)
}


/// Whether `frame` backs some page of `m`.
pub open spec fn frame_mapped(m: Map<usize, (PhysicalAddress, PageFlags)>, frame: PhysicalAddress) -> bool {
    exists|v: usize| m.contains_key(v) && m[v].0 == frame
}

/// The `p`-th page below the stack top.
pub open spec fn stack_page(p: int) -> int {
    USER_STACK_TOP - p * 4096
}


/// Loads one program header's segment (if loadable) and appends its copies.
fn load_header(data: &[u8], ph: &ProgramHeader, space: &mut AddressSpace, pmm: &mut PhysicalMemoryManager, copies: &mut Vec<SegmentCopy>) -> (r: Result<(), ElfError>)
    requires
        old(space).wf(),
        old(pmm).wf(),
        old(pmm).spec_base() % 4096 == 0,
        forall|i: int| 0 <= i < old(copies)@.len() ==> {
            let c = #[trigger] old(copies)@[i];
            &&& c.src_offset + c.len <= data@.len()
            &&& c.dst_offset + c.len <= 4096
            &&& frame_mapped(old(space)@, c.frame)
        },
    ensures
        final(space).wf(),
        final(pmm).wf(),
        final(pmm).spec_base() == old(pmm).spec_base(),
        final(space).spec_root() == old(space).spec_root(),
        r is Ok ==> forall|i: int| 0 <= i < final(copies)@.len() ==> {
            let c = #[trigger] final(copies)@[i];
            &&& c.src_offset + c.len <= data@.len()
            &&& c.dst_offset + c.len <= 4096
            &&& frame_mapped(final(space)@, c.frame)
        },
        ph.p_type != PT_LOAD ==> r is Ok && *final(space) == *old(space) && *final(pmm) == *old(pmm)
            && final(copies)@ == old(copies)@,
        ph.p_type == PT_LOAD && segment_error(data@.len() as int, *ph)
            ==> r == Err::<(), ElfError>(ElfError::InvalidProgramHeader) && final(space)@ == old(space)@,
        ph.p_type == PT_LOAD && !segment_error(data@.len() as int, *ph)
            && (forall|k: int| 0 <= k < seg_pages(*ph) ==> #[trigger] valid_user_page(seg_page(*ph, k)) && seg_page(*ph, k) <= usize::MAX)
            && old(pmm).spec_free_frames() >= seg_pages(*ph) ==> r is Ok,
        r is Err ==> final(copies)@ == old(copies)@,
        r is Ok && ph.p_type == PT_LOAD ==> !segment_error(data@.len() as int, *ph),
        r is Ok && ph.p_type == PT_LOAD ==> final(copies)@.len() == old(copies)@.len() + seg_pages(*ph),
        r is Ok && ph.p_type == PT_LOAD ==> final(copies)@.subrange(0, old(copies)@.len() as int) == old(copies)@,
        r is Ok && ph.p_type == PT_LOAD ==> forall|k: int| 0 <= k < seg_pages(*ph) ==> page_loaded(old(space)@, final(space)@, #[trigger] seg_page(*ph, k) as usize, segment_flags(ph.p_flags)),
        r is Ok && ph.p_type == PT_LOAD ==> forall|k: int| 0 <= k < seg_pages(*ph) ==> {
            let c = #[trigger] final(copies)@[old(copies)@.len() + k];
            let pc = page_copy(*ph, seg_page(*ph, k));
            &&& c.frame == final(space)@[seg_page(*ph, k) as usize].0
            &&& c.dst_offset == pc.0 && c.src_offset == pc.1 && c.len == pc.2
        },
        r is Ok && ph.p_type == PT_LOAD ==> forall|v: usize| #![trigger final(space)@.contains_key(v)] #![trigger old(space)@.contains_key(v)]
            !in_seg_pages(*ph, seg_pages(*ph), v as int) ==> final(space)@.contains_key(v) == old(space)@.contains_key(v)
                && (old(space)@.contains_key(v) ==> final(space)@[v] == old(space)@[v]),
{
    if ph.p_type != PT_LOAD {
        return Ok(());
    }
    let ghost before = space@;
    let seg = match load_segment_process(data, space, ph, pmm) {
        Ok(c) => c,
        Err(e) => return Err(e),
    };
    proof {
        assert forall|i: int| 0 <= i < copies@.len() implies frame_mapped(space@, (#[trigger] copies@[i]).frame) by {
            let c = copies@[i];
            let v = choose|v: usize| before.contains_key(v) && before[v].0 == c.frame;
            if in_seg_pages(*ph, seg_pages(*ph), v as int) {
                let k = choose|k: int| 0 <= k < seg_pages(*ph) && v as int == seg_page(*ph, k);
                assert(page_loaded(before, space@, seg_page(*ph, k) as usize, segment_flags(ph.p_flags)));
                assert(seg_page(*ph, k) as usize == v);
            } else {
                assert(space@.contains_key(v) == before.contains_key(v));
            }
        }
        assert forall|k: int| 0 <= k < seg@.len() implies frame_mapped(space@, (#[trigger] seg@[k]).frame) by {
            assert(space@.contains_key(seg_page(*ph, k) as usize));
        }
    }
    let ghost c0 = copies@;
    let mut j: usize = 0;
    while j < seg.len()
        invariant
            j <= seg@.len(),
            copies@ == c0 + seg@.subrange(0, j as int),
            forall|i: int| 0 <= i < copies@.len() ==> {
                let c = #[trigger] copies@[i];
                &&& c.src_offset + c.len <= data@.len()
                &&& c.dst_offset + c.len <= 4096
                &&& frame_mapped(space@, c.frame)
            },
            forall|k: int| 0 <= k < seg@.len() ==> {
                let c = #[trigger] seg@[k];
                &&& c.src_offset + c.len <= data@.len()
                &&& c.dst_offset + c.len <= 4096
                &&& frame_mapped(space@, c.frame)
            },
        decreases seg.len() - j,
    {
        copies.push(seg[j]);
        j = j + 1;
        proof {
            assert(copies@ =~= c0 + seg@.subrange(0, j as int));
        }
    }
    proof {
        assert(seg@.subrange(0, seg@.len() as int) =~= seg@);
        assert(copies@.subrange(0, c0.len() as int) =~= c0);
        assert forall|k: int| 0 <= k < seg_pages(*ph) implies #[trigger] copies@[c0.len() + k] == seg@[k] by {}
        assert forall|k: int| 0 <= k < seg_pages(*ph) implies page_loaded(old(space)@, space@, #[trigger] seg_page(*ph, k) as usize, segment_flags(ph.p_flags)) by {
            assert(page_loaded(before, space@, seg_page(*ph, k) as usize, segment_flags(ph.p_flags)));
        }
        assert forall|k: int| 0 <= k < seg_pages(*ph) implies {
            let c = #[trigger] copies@[c0.len() + k];
            let pc = page_copy(*ph, seg_page(*ph, k));
            &&& c.frame == space@[seg_page(*ph, k) as usize].0
            &&& c.dst_offset == pc.0 && c.src_offset == pc.1 && c.len == pc.2
        } by {
            assert(copies@[c0.len() + k] == seg@[k]);
        }
        assert forall|v: usize| #![trigger space@.contains_key(v)] #![trigger before.contains_key(v)]
            !in_seg_pages(*ph, seg_pages(*ph), v as int) implies space@.contains_key(v) == before.contains_key(v)
                && (before.contains_key(v) ==> space@[v] == before[v]) by {
            assert(space@.contains_key(v) == before.contains_key(v));
        }
    }
    Ok(())
}

/// Loads every loadable segment of the image and maps the user stack;
/// returns the file-byte copies of all segments in order.
pub fn load_into_process_address_space(parser: &ElfParser, space: &mut AddressSpace, pmm: &mut PhysicalMemoryManager) -> (r: Result<Vec<SegmentCopy>, ElfError>)
    requires
        old(space).wf(),
        old(pmm).wf(),
        old(pmm).spec_base() % 4096 == 0,
    ensures
        final(space).wf(),
        final(pmm).wf(),
        final(pmm).spec_base() == old(pmm).spec_base(),
        final(space).spec_root() == old(space).spec_root(),
        parser.header.phoff + parser.header.phnum * parser.header.phentsize > parser.data@.len()
            ==> r == Err::<Vec<SegmentCopy>, ElfError>(ElfError::InvalidProgramHeader) && final(space)@ == old(space)@,
        parser.header.phoff + parser.header.phnum * parser.header.phentsize <= parser.data@.len() && parser.header.phnum > 256
            ==> r == Err::<Vec<SegmentCopy>, ElfError>(ElfError::TooManyProgramHeaders) && final(space)@ == old(space)@,
        r matches Ok(copies) ==> {
            &&& forall|p: int| 1 <= p <= 16 ==> #[trigger] final(space)@.contains_key(stack_page(p) as usize)
            &&& forall|i: int| 0 <= i < copies@.len() ==> {
                let c = #[trigger] copies@[i];
                &&& c.src_offset + c.len <= parser.data@.len()
                &&& c.dst_offset + c.len <= 4096
                &&& frame_mapped(final(space)@, c.frame)
            }
        },
{
    let mut it = match parser.program_headers() {
        Ok(it) => it,
        Err(e) => return Err(e),
    };
    let mut copies: Vec<SegmentCopy> = Vec::new();
    loop
        invariant
            parser.header.phoff + parser.header.phnum * parser.header.phentsize <= parser.data@.len(),
            parser.header.phnum <= 256,
            space.wf(),
            pmm.wf(),
            pmm.spec_base() == old(pmm).spec_base(),
            pmm.spec_base() % 4096 == 0,
            space.spec_root() == old(space).spec_root(),
            it.data@ == parser.data@,
            forall|i: int| 0 <= i < copies@.len() ==> {
                let c = #[trigger] copies@[i];
                &&& c.src_offset + c.len <= parser.data@.len()
                &&& c.dst_offset + c.len <= 4096
                &&& frame_mapped(space@, c.frame)
            },
        decreases it.count - it.index,
    {
        let ph = match it.next() {
            Some(ph) => ph,
            None => break,
        };
        match load_header(it.data, &ph, space, pmm, &mut copies) {
            Ok(()) => {},
            Err(e) => return Err(e),
        }
    }
    let mut p: u64 = 1;
    while p <= 16
        invariant
            parser.header.phoff + parser.header.phnum * parser.header.phentsize <= parser.data@.len(),
            parser.header.phnum <= 256,
            1 <= p <= 17,
            space.wf(),
            pmm.wf(),
            pmm.spec_base() == old(pmm).spec_base(),
            pmm.spec_base() % 4096 == 0,
            space.spec_root() == old(space).spec_root(),
            forall|q: int| 1 <= q < p ==> #[trigger] space@.contains_key(stack_page(q) as usize),
            forall|i: int| 0 <= i < copies@.len() ==> {
                let c = #[trigger] copies@[i];
                &&& c.src_offset + c.len <= parser.data@.len()
                &&& c.dst_offset + c.len <= 4096
                &&& frame_mapped(space@, c.frame)
            },
        decreases 17 - p,
    {
        let virt = USER_STACK_TOP - p * 4096;
        let ghost before = space@;
        match ensure_process_page(space, VirtualAddress(virt as usize), PageFlags { bits: FLAG_WRITABLE }, pmm) {
            Ok(_) => {},
            Err(e) => return Err(e),
        }
        proof {
            assert(valid_user_page(virt as int));
            assert forall|q: int| 1 <= q < p + 1 implies #[trigger] space@.contains_key(stack_page(q) as usize) by {
                if q < p {
                    assert(before.contains_key(stack_page(q) as usize));
                }
            }
            assert forall|i: int| 0 <= i < copies@.len() implies frame_mapped(space@, (#[trigger] copies@[i]).frame) by {
                let c = copies@[i];
                let v = choose|v: usize| before.contains_key(v) && before[v].0 == c.frame;
                assert(space@.contains_key(v) && space@[v].0 == c.frame);
            }
        }
        p = p + 1;
    }
    Ok(copies)
}

/// The environment every exec starts with.
pub open spec fn exec_env_strings() -> Seq<Seq<u8>> {
    seq!["PATH=/app".spec_bytes(), "SHELL=dunit".spec_bytes(), "CWD=/".spec_bytes()]
}

/// The environment every exec starts with.
pub fn exec_env() -> (r: Vec<Vec<u8>>)
    ensures
        views(r@) == exec_env_strings(),
{
    let mut env: Vec<Vec<u8>> = Vec::new();
    env.push(copy_str("PATH=/app"));
    env.push(copy_str("SHELL=dunit"));
    env.push(copy_str("CWD=/"));
    assert(views(env@) =~= seq!["PATH=/app".spec_bytes(), "SHELL=dunit".spec_bytes(), "CWD=/".spec_bytes()]);
    env
}

fn copy_str(s: &str) -> (r: Vec<u8>)
    ensures
        r@ == s.spec_bytes(),
{
    let b = s.as_bytes();
    let mut out: Vec<u8> = Vec::new();
    let mut i: usize = 0;
    while i < b.len()
        invariant
            i <= b@.len(),
            out@ == b@.subrange(0, i as int),
        decreases b.len() - i,
    {
        out.push(b[i]);
        assert(out@ =~= b@.subrange(0, i + 1));
        i = i + 1;
    }
    assert(b@.subrange(0, b@.len() as int) =~= b@);
    out
}


/// What an exec still has to copy into the new image's memory: the file
/// bytes of each loaded page, and the initial stack's table and strings,
/// split at page boundaries.
pub struct ExecImage {
    pub copies: Vec<SegmentCopy>,
    pub stack: InitialStack,
    pub table_chunks: Vec<UserChunk>,
    pub string_chunks: Vec<UserChunk>,
}

/// Prepares `process` to run the executable `data` with arguments `argv`:
/// checks the image, loads its segments and the user stack into the
/// process's address space, lays out the initial stack with the standard
/// environment, and sets the entry registers; the process becomes ready.
/// The returned plan says which bytes go where.
pub fn prepare_process_image(process: &mut Process, data: &[u8], argv: &Vec<Vec<u8>>, pmm: &mut PhysicalMemoryManager) -> (r: Result<ExecImage, ElfError>)
    requires
        old(process).wf(),
        old(pmm).wf(),
        old(pmm).spec_base() % 4096 == 0,
    ensures
        final(process).wf(),
        final(pmm).wf(),
        final(pmm).spec_base() == old(pmm).spec_base(),
        image_error(data@) matches Some(e) ==> r == Err::<ExecImage, ElfError>(e) && *final(process) == *old(process),
        image_error(data@) is None && old(process).address_space is None
            ==> r == Err::<ExecImage, ElfError>(ElfError::InvalidProgramHeader) && *final(process) == *old(process),
        r is Err ==> final(process).address_space is Some <==> old(process).address_space is Some,
        r matches Ok(img) ==> {
            let st = img.stack;
            &&& image_error(data@) is None
            &&& !exec_args_error(views(argv@), exec_env_strings())
            &&& st.rsp == entry_rsp(views(argv@), exec_env_strings())
            &&& st.rsp % 16 == 8
            &&& final(process).address_space is Some
            &&& final(process).context == (CpuContext {
                rip: header_of(data@).entry, rsp: st.rsp, rflags: 0x202, rdi: st.argc as u64, rsi: st.argv, rdx: st.envp,
                ..old(process).context
            })
            &&& final(process).state == ProcessState::Ready
            &&& final(process).entry_argc == st.argc
            &&& final(process).pid == old(process).pid
        },
{
    let parser = match ElfParser::new(data) {
        Ok(p) => p,
        Err(e) => return Err(e),
    };
    let mut space = match process.take_address_space() {
        Some(a) => a,
        None => return Err(ElfError::InvalidProgramHeader),
    };
    let copies = match load_into_process_address_space(&parser, &mut space, pmm) {
        Ok(c) => c,
        Err(_) => {
            process.restore_address_space(space);
            return Err(ElfError::InvalidProgramHeader);
        },
    };
    let env = exec_env();
    let stack = match prepare_initial_stack(argv, &env) {
        Ok(st) => st,
        Err(_) => {
            process.restore_address_space(space);
            return Err(ElfError::InvalidProgramHeader);
        },
    };
    let string_chunks = match user_write_plan(&space, stack.strings_addr, stack.strings.len()) {
        Ok(c) => c,
        Err(_) => {
            process.restore_address_space(space);
            return Err(ElfError::InvalidProgramHeader);
        },
    };
    let table_chunks = match user_write_plan(&space, stack.rsp, stack.table.len()) {
        Ok(c) => c,
        Err(_) => {
            process.restore_address_space(space);
            return Err(ElfError::InvalidProgramHeader);
        },
    };
    process.restore_address_space(space);
    process.set_entry_state(parser.entry_point(), stack.rsp, stack.argc, stack.argv, stack.envp);
    Ok(ExecImage { copies, stack, table_chunks, string_chunks })
}

/// Prepares the process `pid` of the table to run the executable `data`
/// with arguments `argv`: the image is checked first (its error comes back
/// as it is); then the process's address space is loaded, its initial stack
/// laid out and its entry registers set (instruction pointer at the entry
/// point, stack pointer at the stack block, interrupts enabled, `argc`,
/// `argv` and `envp` in the first three argument registers), and it is
/// made ready and queued. Any later failure, a missing process among them,
/// is answered `InvalidProgramHeader`.
pub fn prepare_process_elf(sys: &mut ProcessSystem, pid: ProcessId, data: &[u8], argv: &Vec<Vec<u8>>, pmm: &mut PhysicalMemoryManager) -> (r: Result<ExecImage, ElfError>)
    requires
        old(sys).wf(),
        old(pmm).wf(),
        old(pmm).spec_base() % 4096 == 0,
    ensures
        final(sys).wf(),
        final(pmm).wf(),
        final(pmm).spec_base() == old(pmm).spec_base(),
        final(sys).table@.len() == old(sys).table@.len(),
        image_error(data@) matches Some(e) ==> r == Err::<ExecImage, ElfError>(e) && *final(sys) == *old(sys),
        image_error(data@) is None && !(has_pid(old(sys).table@, pid) && old(sys).table@[pid_index(old(sys).table@, pid)].process is Some)
            ==> r == Err::<ExecImage, ElfError>(ElfError::InvalidProgramHeader) && *final(sys) == *old(sys),
        r is Err && image_error(data@) is None ==> r == Err::<ExecImage, ElfError>(ElfError::InvalidProgramHeader),
        r matches Ok(img) ==> {
            let i = pid_index(old(sys).table@, pid);
            let before = old(sys).table@[i].process->0;
            let rec = final(sys).table@[i];
            let st = img.stack;
            &&& image_error(data@) is None
            &&& has_pid(old(sys).table@, pid)
            &&& !exec_args_error(views(argv@), exec_env_strings())
            &&& st.rsp == entry_rsp(views(argv@), exec_env_strings())
            &&& st.rsp % 16 == 8
            &&& rec.pid == pid
            &&& rec.state == ProcessState::Ready
            &&& rec.process is Some
            &&& rec.process->0.context == (CpuContext {
                rip: header_of(data@).entry, rsp: st.rsp, rflags: 0x202, rdi: st.argc as u64, rsi: st.argv, rdx: st.envp,
                ..before.context
            })
            &&& rec.process->0.state == ProcessState::Ready
            &&& rec.process->0.entry_argc == st.argc
            &&& rec.process->0.address_space is Some
            &&& old(sys).scheduler is Some
            &&& pid_runnable(final(sys).table@, pid)
            &&& forall|j: int| 0 <= j < old(sys).table@.len() && j != i ==> final(sys).table@[j] == old(sys).table@[j]
        },
{
    match ElfParser::new(data) {
        Ok(_) => {},
        Err(e) => return Err(e),
    }
    let i = match process_record_index(&sys.table, pid) {
        Some(i) => i,
        None => return Err(ElfError::InvalidProgramHeader),
    };
    if sys.table[i].process.is_none() {
        return Err(ElfError::InvalidProgramHeader);
    }
    let ghost t0 = sys.table@;
    let mut rec = sys.table.remove(i);
    let mut process = match rec.process.take() {
        Some(p) => p,
        None => {
            rec.process = None;
            sys.table.insert(i, rec);
            proof {
                assert(sys.table@ =~= t0);
            }
            return Err(ElfError::InvalidProgramHeader);
        },
    };
    let prepared = prepare_process_image(&mut process, data, argv, pmm);
    rec.process = Some(process);
    sys.table.insert(i, rec);
    proof {
        assert(sys.table@ =~= t0.update(i as int, rec));
        assert forall|a: int, b: int| 0 <= a < sys.table@.len() && 0 <= b < sys.table@.len() && a != b implies
            sys.table@[a].pid != sys.table@[b].pid by {
            assert(t0[a].pid != t0[b].pid);
        }
        assert forall|j: int| 0 <= j < sys.table@.len() && (#[trigger] sys.table@[j]).process is Some implies
            sys.table@[j].process->0.wf() by {
            if j != i {
                assert(sys.table@[j] == t0[j]);
            }
        }
        assert(has_pid(sys.table@, pid) && pid_index(sys.table@, pid) == i) by {
            crate::process::table::lemma_pid_index(sys.table@, i as int);
        }
    }
    let ghost t1 = sys.table@;
    match prepared {
        Ok(img) => match mark_process_prepared_as_ready(sys, pid) {
            Ok(()) => {
                proof {
                    assert(sys.table@ == t1.update(i as int, moved_to(rec, ProcessState::Ready)));
                }
                Ok(img)
            },
            Err(_) => Err(ElfError::InvalidProgramHeader),
        },
        Err(_) => Err(ElfError::InvalidProgramHeader),
    }
}

} // verus!
