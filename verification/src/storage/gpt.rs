//! GUID partition tables: decoding and checking a table read from a disk,
//! and building the protective MBR, headers and entry arrays of a new one.
use vstd::prelude::*;
use vstd::string::{StringSliceAdditionalSpecFns, StrSliceExecFns};
use crate::drivers::block::{BlockDeviceInfo, BlockError, BlockIo, same_blocks};
use crate::process::vm::is_pow2;

verus! {

/// Header revision 1.0.
pub const GPT_REVISION_1_0: u32 = 0x0001_0000;
/// Bytes of the header that its checksum covers.
pub const GPT_HEADER_SIZE: usize = 92;
/// Bytes per partition entry.
pub const GPT_ENTRY_SIZE: usize = 128;
/// Entries in a table this system writes.
pub const GPT_ENTRY_COUNT: u32 = 128;
/// Largest block size handled.
pub const MAX_BLOCK_SIZE: usize = 4096;
/// Most partitions kept from a table.
pub const MAX_PARTITIONS: usize = 32;

#[derive(Clone, Copy, Debug, PartialEq, Eq, Structural)]
pub enum GptError {
    UnsupportedBlockSize,
    DiskTooSmall,
    InvalidSignature,
    InvalidHeader,
    InvalidHeaderCrc,
    InvalidTableCrc,
    TooManyEntries,
    InvalidPartition,
    Block(BlockError),
}

impl From<BlockError> for GptError {
    fn from(error: BlockError) -> (r: Self) {
        GptError::Block(error)
    }
}

impl vstd::std_specs::convert::FromSpecImpl<BlockError> for GptError {
    open spec fn obeys_from_spec() -> bool {
        true
    }

    open spec fn from_spec(error: BlockError) -> GptError {
        GptError::Block(error)
    }
}

/// The value of bytes `o..o+4` of `s`, little-endian.
pub open spec fn le32_at(s: Seq<u8>, o: int) -> u32 {
    (s[o] as u32) | ((s[o + 1] as u32) << 8u32) | ((s[o + 2] as u32) << 16u32) | ((s[o + 3] as u32) << 24u32)
}

/// The value of bytes `o..o+8` of `s`, little-endian.
pub open spec fn le64_at(s: Seq<u8>, o: int) -> u64 {
    (le32_at(s, o) as u64) | ((le32_at(s, o + 4) as u64) << 32u64)
}

/// The four little-endian bytes of `v`.
pub open spec fn bytes32(v: u32) -> Seq<u8> {
    seq![(v & 0xff) as u8, ((v >> 8u32) & 0xff) as u8, ((v >> 16u32) & 0xff) as u8, ((v >> 24u32) & 0xff) as u8]
}

/// The eight little-endian bytes of `v`.
pub open spec fn bytes64(v: u64) -> Seq<u8> {
    bytes32((v & 0xffff_ffff) as u32) + bytes32((v >> 32u64) as u32)
}

pub fn le_u32(data: &[u8], offset: usize) -> (r: u32)
    requires
        offset + 4 <= data@.len(),
    ensures
        r == le32_at(data@, offset as int),
{
    let _n = data.len();
    (data[offset] as u32) | ((data[offset + 1] as u32) << 8u32) | ((data[offset + 2] as u32) << 16u32)
        | ((data[offset + 3] as u32) << 24u32)
}

pub fn le_u64(data: &[u8], offset: usize) -> (r: u64)
    requires
        offset + 8 <= data@.len(),
    ensures
        r == le64_at(data@, offset as int),
{
    let _n = data.len();
    let lo = le_u32(data, offset);
    let hi = le_u32(data, offset + 4);
    (lo as u64) | ((hi as u64) << 32u64)
}

/// Writes `v` little-endian at `o`.
pub fn put_u32(data: &mut Vec<u8>, o: usize, v: u32)
    requires
        o + 4 <= old(data)@.len(),
    ensures
        final(data)@ == old(data)@.subrange(0, o as int) + bytes32(v) + old(data)@.subrange(o + 4, old(data)@.len() as int),
{
    let _n = data.len();
    data.set(o, (v & 0xff) as u8);
    data.set(o + 1, ((v >> 8u32) & 0xff) as u8);
    data.set(o + 2, ((v >> 16u32) & 0xff) as u8);
    data.set(o + 3, ((v >> 24u32) & 0xff) as u8);
    assert(data@ =~= old(data)@.subrange(0, o as int) + bytes32(v) + old(data)@.subrange(o + 4, old(data)@.len() as int));
}

/// Writes `v` little-endian at `o`.
pub fn put_u64(data: &mut Vec<u8>, o: usize, v: u64)
    requires
        o + 8 <= old(data)@.len(),
    ensures
        final(data)@ == old(data)@.subrange(0, o as int) + bytes64(v) + old(data)@.subrange(o + 8, old(data)@.len() as int),
{
    let _n = data.len();
    put_u32(data, o, (v & 0xffff_ffff) as u32);
    put_u32(data, o + 4, (v >> 32u64) as u32);
    assert(data@ =~= old(data)@.subrange(0, o as int) + bytes64(v) + old(data)@.subrange(o + 8, old(data)@.len() as int));
}

/// Copies `src` to `o`.
pub fn put_bytes(data: &mut Vec<u8>, o: usize, src: &[u8])
    requires
        o + src@.len() <= old(data)@.len(),
    ensures
        final(data)@ == old(data)@.subrange(0, o as int) + src@ + old(data)@.subrange(o + src@.len(), old(data)@.len() as int),
{
    let n = data.len();
    let mut i: usize = 0;
    while i < src.len()
        invariant
            n == data@.len(),
            o + src@.len() <= data@.len(),
            data@.len() == old(data)@.len(),
            i <= src@.len(),
            forall|k: int| 0 <= k < o ==> data@[k] == old(data)@[k],
            forall|k: int| 0 <= k < i ==> data@[o + k] == src@[k],
            forall|k: int| o + i <= k < data@.len() ==> data@[k] == old(data)@[k],
        decreases src.len() - i,
    {
        data.set(o + i, src[i]);
        i = i + 1;
    }
    assert(data@ =~= old(data)@.subrange(0, o as int) + src@ + old(data)@.subrange(o + src@.len(), old(data)@.len() as int));
}

/// The CRC-32 register after one byte.
pub open spec fn crc_byte(c: u32, b: u8) -> u32 {
    let x0 = c ^ (b as u32);
    let x1 = crc_step(x0);
    let x2 = crc_step(x1);
    let x3 = crc_step(x2);
    let x4 = crc_step(x3);
    let x5 = crc_step(x4);
    let x6 = crc_step(x5);
    let x7 = crc_step(x6);
    crc_step(x7)
}

/// One bit of the reflected CRC-32 (polynomial 0xEDB88320).
pub open spec fn crc_step(x: u32) -> u32 {
    if x & 1 == 1 { (x >> 1u32) ^ 0xedb8_8320u32 } else { x >> 1u32 }
}

/// The CRC-32 register after the bytes of `s`.
pub open spec fn crc_update(c: u32, s: Seq<u8>) -> u32
    decreases s.len(),
{
    if s.len() == 0 { c } else { crc_byte(crc_update(c, s.drop_last()), s.last()) }
}

/// The CRC-32 of `s`.
pub open spec fn crc32_spec(s: Seq<u8>) -> u32 {
    !crc_update(0xffff_ffffu32, s)
}

/// A running CRC-32.
pub struct Crc32 {
    pub state: u32,
}

impl Crc32 {
    pub fn new() -> (r: Self)
        ensures
            r.state == 0xffff_ffffu32,
    {
        Crc32 { state: 0xffff_ffff }
    }

    /// Feeds `data[start..end]`.
    pub fn update(&mut self, data: &[u8], start: usize, end: usize)
        requires
            start <= end <= data@.len(),
        ensures
            final(self).state == crc_update(old(self).state, data@.subrange(start as int, end as int)),
    {
        let mut i = start;
        while i < end
            invariant
                start <= i <= end <= data@.len(),
                self.state == crc_update(old(self).state, data@.subrange(start as int, i as int)),
            decreases end - i,
        {
            let mut x = self.state ^ (data[i] as u32);
            let mut k: u32 = 0;
            let ghost x0 = x;
            while k < 8
                invariant
                    k <= 8,
                    x == crc_steps(x0, k as int),
                decreases 8 - k,
            {
                x = if x & 1 == 1 { (x >> 1u32) ^ 0xedb8_8320u32 } else { x >> 1u32 };
                k = k + 1;
            }
            proof {
                let s2 = data@.subrange(start as int, i + 1);
                assert(s2.drop_last() =~= data@.subrange(start as int, i as int));
                reveal_with_fuel(crc_steps, 9);
            }
            self.state = x;
            i = i + 1;
        }
    }

    /// Feeds `n` zero bytes.
    pub fn update_zeros(&mut self, n: usize)
        ensures
            final(self).state == crc_update(old(self).state, Seq::new(n as nat, |i: int| 0u8)),
    {
        let z = vec_of_zeros(n);
        self.update(z.as_slice(), 0, n);
        assert(z@.subrange(0, n as int) =~= Seq::new(n as nat, |i: int| 0u8));
    }

    /// The checksum.
    pub fn finish(&self) -> (r: u32)
        ensures
            r == !self.state,
    {
        !self.state
    }
}

/// `x` after `k` bits.
pub open spec fn crc_steps(x: u32, k: int) -> u32
    decreases k,
{
    if k <= 0 { x } else { crc_step(crc_steps(x, k - 1)) }
}

fn vec_of_zeros(n: usize) -> (r: Vec<u8>)
    ensures
        r@ == Seq::new(n as nat, |i: int| 0u8),
{
    let mut v: Vec<u8> = Vec::new();
    let mut i: usize = 0;
    while i < n
        invariant
            i <= n,
            v@ == Seq::new(i as nat, |k: int| 0u8),
        decreases n - i,
    {
        v.push(0u8);
        assert(v@ =~= Seq::new(i as nat + 1, |k: int| 0u8));
        i = i + 1;
    }
    v
}

/// The CRC-32 of `data`.
pub fn crc32(data: &[u8]) -> (r: u32)
    ensures
        r == crc32_spec(data@),
{
    let mut c = Crc32::new();
    c.update(data, 0, data.len());
    assert(data@.subrange(0, data@.len() as int) =~= data@);
    c.finish()
}


/// A partition found in a table.
#[derive(Clone, Copy)]
pub struct Partition {
    pub index: u32,
    pub type_guid: [u8; 16],
    pub unique_guid: [u8; 16],
    pub first_lba: u64,
    pub last_lba: u64,
    pub attributes: u64,
    pub name: [u8; 36],
    pub name_len: usize,
}

impl Partition {
    pub fn empty() -> (r: Self)
        ensures
            r.index == 0 && r.first_lba == 0 && r.last_lba == 0 && r.attributes == 0 && r.name_len == 0,
            r.type_guid@ == Seq::new(16, |i: int| 0u8),
            r.unique_guid@ == Seq::new(16, |i: int| 0u8),
    {
        let r = Partition {
            index: 0,
            type_guid: [0u8; 16],
            unique_guid: [0u8; 16],
            first_lba: 0,
            last_lba: 0,
            attributes: 0,
            name: [0u8; 36],
            name_len: 0,
        };
        assert(r.type_guid@ =~= Seq::new(16, |i: int| 0u8));
        assert(r.unique_guid@ =~= Seq::new(16, |i: int| 0u8));
        r
    }

    /// The partition's name (ASCII, other characters shown as `?`).
    pub fn name(&self) -> (r: Vec<u8>)
        requires
            self.name_len <= 36,
        ensures
            r@ == self.name@.subrange(0, self.name_len as int),
    {
        let mut out: Vec<u8> = Vec::new();
        let mut i: usize = 0;
        while i < self.name_len
            invariant
                self.name_len <= 36,
                i <= self.name_len,
                out@ == self.name@.subrange(0, i as int),
            decreases self.name_len - i,
        {
            out.push(self.name[i]);
            assert(out@ =~= self.name@.subrange(0, i + 1));
            i = i + 1;
        }
        out
    }

    /// Number of blocks the partition spans.
    pub fn blocks(&self) -> (r: u64)
        requires
            self.first_lba <= self.last_lba,
            self.last_lba - self.first_lba < u64::MAX,
        ensures
            r == self.last_lba - self.first_lba + 1,
    {
        self.last_lba - self.first_lba + 1
    }
}

/// A decoded table: the disk's GUID, the usable range, and the partitions
/// in entry order.
pub struct Table {
    pub disk_guid: [u8; 16],
    pub first_usable_lba: u64,
    pub last_usable_lba: u64,
    pub partitions: [Option<Partition>; 32],
    pub partition_count: usize,
}

/// A partition to create.
#[derive(Clone, Copy)]
pub struct PartitionSpec<'a> {
    pub type_guid: [u8; 16],
    pub unique_guid: [u8; 16],
    pub first_lba: u64,
    pub last_lba: u64,
    pub attributes: u64,
    pub name: &'a str,
}

/// The decoded primary header.
#[derive(Clone, Copy)]
pub struct Header {
    pub first_usable_lba: u64,
    pub last_usable_lba: u64,
    pub disk_guid: [u8; 16],
    pub entries_lba: u64,
    pub entry_count: u32,
    pub entry_size: usize,
    pub entries_crc32: u32,
}

/// Whether every byte of `s` is zero.
pub open spec fn all_zero(s: Seq<u8>) -> bool {
    forall|i: int| 0 <= i < s.len() ==> s[i] == 0
}

/// `a / b` rounded up.
pub open spec fn div_ceil(a: int, b: int) -> int {
    (a + b - 1) / b
}

/// The signature `EFI PART`.
pub open spec fn gpt_signature() -> Seq<u8> {
    seq![0x45u8, 0x46u8, 0x49u8, 0x20u8, 0x50u8, 0x41u8, 0x52u8, 0x54u8]
}

/// The bytes the header checksum covers: the header with its checksum
/// field read as zero.
pub open spec fn header_crc_input(d: Seq<u8>, hs: int) -> Seq<u8> {
    d.subrange(0, 16) + Seq::new(4, |i: int| 0u8) + d.subrange(20, hs)
}

/// Why a header block is refused, checked in order (`None` if it is
/// accepted).
pub open spec fn header_error(d: Seq<u8>, bs: int, blocks: u64) -> Option<GptError> {
    let hs = le32_at(d, 12) as int;
    let first = le64_at(d, 40);
    let last = le64_at(d, 48);
    let entries_lba = le64_at(d, 72);
    let count = le32_at(d, 80);
    let esize = le32_at(d, 84) as int;
    if d.subrange(0, 8) != gpt_signature() {
        Some(GptError::InvalidSignature)
    } else if le32_at(d, 8) != GPT_REVISION_1_0 || hs < 92 || hs > bs || le64_at(d, 24) != 1 || le64_at(d, 32) != blocks - 1 {
        Some(GptError::InvalidHeader)
    } else if crc32_spec(header_crc_input(d, hs)) != le32_at(d, 16) {
        Some(GptError::InvalidHeaderCrc)
    } else if count == 0 || count > GPT_ENTRY_COUNT || esize < 128 || !is_pow2(esize as usize) || esize > bs
        || first > last || last >= blocks - 1 || all_zero(d.subrange(56, 72)) {
        Some(GptError::InvalidHeader)
    } else if entries_lba + div_ceil(count * esize, bs) > u64::MAX {
        Some(GptError::InvalidHeader)
    } else if entries_lba < 2 || entries_lba + div_ceil(count * esize, bs) > first {
        Some(GptError::InvalidHeader)
    } else {
        None
    }
}

/// Whether `h` holds the fields a valid header block `d` stores.
pub open spec fn header_fields(h: Header, d: Seq<u8>) -> bool {
    &&& h.first_usable_lba == le64_at(d, 40)
    &&& h.last_usable_lba == le64_at(d, 48)
    &&& h.disk_guid@ == d.subrange(56, 72)
    &&& h.entries_lba == le64_at(d, 72)
    &&& h.entry_count == le32_at(d, 80)
    &&& h.entry_size == le32_at(d, 84)
    &&& h.entries_crc32 == le32_at(d, 88)
}

fn is_zero_range(d: &[u8], start: usize, end: usize) -> (r: bool)
    requires
        start <= end <= d@.len(),
    ensures
        r == all_zero(d@.subrange(start as int, end as int)),
{
    let mut i = start;
    while i < end
        invariant
            start <= i <= end <= d@.len(),
            forall|k: int| start <= k < i ==> d@[k] == 0,
        decreases end - i,
    {
        if d[i] != 0 {
            assert(d@.subrange(start as int, end as int)[i - start] != 0);
            return false;
        }
        i = i + 1;
    }
    true
}

fn is_power_of_two(n: usize) -> (r: bool)
    ensures
        r == is_pow2(n),
{
    n != 0 && (n & (n - 1)) == 0
}

fn copy16(d: &[u8], start: usize) -> (r: [u8; 16])
    requires
        start + 16 <= d@.len(),
    ensures
        r@ == d@.subrange(start as int, start + 16),
{
    let n = d.len();
    let mut g = [0u8; 16];
    let mut i: usize = 0;
    while i < 16
        invariant
            n == d@.len(),
            start + 16 <= d@.len(),
            i <= 16,
            forall|k: int| 0 <= k < i ==> g@[k] == d@[start + k],
        decreases 16 - i,
    {
        g[i] = d[start + i];
        i = i + 1;
    }
    assert(g@ =~= d@.subrange(start as int, start + 16));
    g
}

/// Decodes and checks the primary header stored in the block `data` of a
/// device of `blocks` blocks of `data.len()` bytes.
pub fn parse_header(data: &[u8], blocks: u64) -> (r: Result<Header, GptError>)
    requires
        92 <= data@.len() <= 4096,
        blocks >= 1,
    ensures
        header_error(data@, data@.len() as int, blocks) matches Some(e) ==> r == Err::<Header, GptError>(e),
        header_error(data@, data@.len() as int, blocks) is None ==> (r matches Ok(h) && header_fields(h, data@)),
{
    let bs = data.len();
    if data[0] != 0x45 || data[1] != 0x46 || data[2] != 0x49 || data[3] != 0x20 || data[4] != 0x50
        || data[5] != 0x41 || data[6] != 0x52 || data[7] != 0x54 {
        proof {
            if data@.subrange(0, 8) == gpt_signature() {
                assert(data@.subrange(0, 8)[0] == data@[0]);
                assert(data@.subrange(0, 8)[1] == data@[1]);
                assert(data@.subrange(0, 8)[2] == data@[2]);
                assert(data@.subrange(0, 8)[3] == data@[3]);
                assert(data@.subrange(0, 8)[4] == data@[4]);
                assert(data@.subrange(0, 8)[5] == data@[5]);
                assert(data@.subrange(0, 8)[6] == data@[6]);
                assert(data@.subrange(0, 8)[7] == data@[7]);
            }
        }
        return Err(GptError::InvalidSignature);
    }
    assert(data@.subrange(0, 8) =~= gpt_signature());
    let header_size = le_u32(data, 12) as usize;
    if le_u32(data, 8) != GPT_REVISION_1_0 || header_size < GPT_HEADER_SIZE || header_size > bs
        || le_u64(data, 24) != 1 || le_u64(data, 32) != blocks - 1 {
        return Err(GptError::InvalidHeader);
    }
    let expected_crc = le_u32(data, 16);
    let mut crc = Crc32::new();
    crc.update(data, 0, 16);
    crc.update_zeros(4);
    crc.update(data, 20, header_size);
    proof {
        let a = data@.subrange(0, 16);
        let z = Seq::new(4, |i: int| 0u8);
        let b = data@.subrange(20, header_size as int);
        lemma_crc_update_concat(0xffff_ffffu32, a, z);
        lemma_crc_update_concat(0xffff_ffffu32, a + z, b);
        assert(header_crc_input(data@, header_size as int) =~= a + z + b);
    }
    if crc.finish() != expected_crc {
        return Err(GptError::InvalidHeaderCrc);
    }
    let first_usable_lba = le_u64(data, 40);
    let last_usable_lba = le_u64(data, 48);
    let entries_lba = le_u64(data, 72);
    let entry_count = le_u32(data, 80);
    let entry_size = le_u32(data, 84) as usize;
    if entry_count == 0 || entry_count > GPT_ENTRY_COUNT || entry_size < GPT_ENTRY_SIZE
        || !is_power_of_two(entry_size) || entry_size > bs || first_usable_lba > last_usable_lba
        || last_usable_lba >= blocks - 1 || is_zero_range(data, 56, 72) {
        return Err(GptError::InvalidHeader);
    }
    assert(entry_count * entry_size <= 128 * 4096) by (nonlinear_arith)
        requires
            entry_count <= 128,
            entry_size <= 4096,
    ;
    let table_bytes = entry_count as usize * entry_size;
    let table_blocks = ((table_bytes + bs - 1) / bs) as u64;
    if entries_lba > u64::MAX - table_blocks {
        return Err(GptError::InvalidHeader);
    }
    let entries_end = entries_lba + table_blocks;
    if entries_lba < 2 || entries_end > first_usable_lba {
        return Err(GptError::InvalidHeader);
    }
    Ok(Header {
        first_usable_lba,
        last_usable_lba,
        disk_guid: copy16(data, 56),
        entries_lba,
        entry_count,
        entry_size,
        entries_crc32: le_u32(data, 88),
    })
}

/// The register after `a` then `b` is the register after `a + b`.
pub proof fn lemma_crc_update_concat(c: u32, a: Seq<u8>, b: Seq<u8>)
    ensures
        crc_update(crc_update(c, a), b) == crc_update(c, a + b),
    decreases b.len(),
{
    if b.len() > 0 {
        lemma_crc_update_concat(c, a, b.drop_last());
        assert((a + b).drop_last() =~= a + b.drop_last());
        assert((a + b).last() == b.last());
    } else {
        assert(a + b =~= a);
    }
}


/// The name code unit `i` of an entry.
pub open spec fn name_code(d: Seq<u8>, i: int) -> int {
    d[56 + 2 * i] + d[57 + 2 * i] * 256
}

/// Index of the first zero name unit of an entry at or after `i` (36 if
/// none).
pub open spec fn name_end(d: Seq<u8>, i: int) -> int
    decreases 36 - i,
{
    if i >= 36 { 36 } else if name_code(d, i) == 0 { i } else { name_end(d, i + 1) }
}

/// How a name unit is shown: ASCII as is, anything else as `?`.
pub open spec fn name_byte(c: int) -> u8 {
    if c <= 0x7f { c as u8 } else { 0x3Fu8 }
}

/// The name stored in an entry.
pub open spec fn entry_name(d: Seq<u8>) -> Seq<u8> {
    Seq::new(name_end(d, 0) as nat, |i: int| name_byte(name_code(d, i)))
}

/// Whether an entry is refused.
pub open spec fn partition_error(d: Seq<u8>) -> bool {
    le64_at(d, 32) == 0 || le64_at(d, 32) > le64_at(d, 40) || all_zero(d.subrange(16, 32))
}

/// Whether `p` holds what entry `d` stores, as partition number `index`.
pub open spec fn partition_fields(p: Partition, d: Seq<u8>, index: u32) -> bool {
    &&& p.index == index
    &&& p.type_guid@ == d.subrange(0, 16)
    &&& p.unique_guid@ == d.subrange(16, 32)
    &&& p.first_lba == le64_at(d, 32)
    &&& p.last_lba == le64_at(d, 40)
    &&& p.attributes == le64_at(d, 48)
    &&& p.name_len <= 36
    &&& p.name@.subrange(0, p.name_len as int) == entry_name(d)
}

/// Decodes a 128-byte partition entry as partition number `index`.
pub fn parse_partition(data: &[u8], index: u32) -> (r: Result<Partition, GptError>)
    requires
        data@.len() >= 128,
    ensures
        partition_error(data@) ==> r == Err::<Partition, GptError>(GptError::InvalidPartition),
        !partition_error(data@) ==> (r matches Ok(p) && partition_fields(p, data@, index)),
{
    let first_lba = le_u64(data, 32);
    let last_lba = le_u64(data, 40);
    if first_lba == 0 || first_lba > last_lba || is_zero_range(data, 16, 32) {
        return Err(GptError::InvalidPartition);
    }
    let mut name = [0u8; 36];
    let mut i: usize = 0;
    while i < 36
        invariant
            data@.len() >= 128,
            i <= 36,
            name_end(data@, 0) == name_end(data@, i as int),
            forall|k: int| 0 <= k < i ==> name@[k] == name_byte(name_code(data@, k)),
        ensures
            i <= 36,
            name_end(data@, 0) == i,
            forall|k: int| 0 <= k < i ==> name@[k] == name_byte(name_code(data@, k)),
        decreases 36 - i,
    {
        let code = data[56 + 2 * i] as u16 + data[57 + 2 * i] as u16 * 256;
        assert(code == name_code(data@, i as int));
        if code == 0 {
            break;
        }
        name[i] = if code <= 0x7f { code as u8 } else { 0x3Fu8 };
        i = i + 1;
    }
    proof {
        assert(name@.subrange(0, i as int) =~= entry_name(data@));
    }
    Ok(Partition {
        index,
        type_guid: copy16(data, 0),
        unique_guid: copy16(data, 16),
        first_lba,
        last_lba,
        attributes: le_u64(data, 48),
        name,
        name_len: i,
    })
}

/// Why a device cannot hold a table this system reads or writes.
pub open spec fn device_error(bs: int, blocks: u64) -> Option<GptError> {
    if bs < 512 || bs > 4096 || !is_pow2(bs as usize) {
        Some(GptError::UnsupportedBlockSize)
    } else if blocks < 2 + div_ceil(16384, bs) * 2 + 1 {
        Some(GptError::DiskTooSmall)
    } else {
        None
    }
}

/// Checks the block size and that the disk holds two headers, two entry
/// arrays and a protective MBR.
pub fn validate_device(device: BlockDeviceInfo) -> (r: Result<(), GptError>)
    ensures
        device_error(device.block_size as int, device.blocks) matches Some(e) ==> r == Err::<(), GptError>(e),
        device_error(device.block_size as int, device.blocks) is None ==> r is Ok,
{
    let bs = device.block_size;
    if bs < 512 || bs > MAX_BLOCK_SIZE || !is_power_of_two(bs) {
        return Err(GptError::UnsupportedBlockSize);
    }
    let table_blocks = ((16384 + bs - 1) / bs) as u64;
    if device.blocks < 2 + table_blocks * 2 + 1 {
        return Err(GptError::DiskTooSmall);
    }
    Ok(())
}

/// Whether two partitions clash: same unique GUID or overlapping ranges.
pub open spec fn clash(g1: Seq<u8>, f1: u64, l1: u64, g2: Seq<u8>, f2: u64, l2: u64) -> bool {
    g1 == g2 || (f1 <= l2 && f2 <= l1)
}

/// Whether spec `i` of `ps` is refused: a zero GUID, outside the usable
/// range, reversed, or clashing with an earlier one.
pub open spec fn spec_refused(ps: Seq<PartitionSpec>, i: int, first: u64, last: u64) -> bool {
    let p = ps[i];
    ||| all_zero(p.type_guid@)
    ||| all_zero(p.unique_guid@)
    ||| p.first_lba < first
    ||| p.first_lba > p.last_lba
    ||| p.last_lba > last
    ||| exists|j: int| 0 <= j < i && clash(p.unique_guid@, p.first_lba, p.last_lba, (#[trigger] ps[j]).unique_guid@, ps[j].first_lba, ps[j].last_lba)
}

fn guid_eq(a: &[u8; 16], b: &[u8; 16]) -> (r: bool)
    ensures
        r == (a@ == b@),
{
    let mut i: usize = 0;
    while i < 16
        invariant
            i <= 16,
            forall|k: int| 0 <= k < i ==> a@[k] == b@[k],
        decreases 16 - i,
    {
        if a[i] != b[i] {
            return false;
        }
        i = i + 1;
    }
    assert(a@ =~= b@);
    true
}

fn guid_is_zero(g: &[u8; 16]) -> (r: bool)
    ensures
        r == all_zero(g@),
{
    let mut i: usize = 0;
    while i < 16
        invariant
            i <= 16,
            forall|k: int| 0 <= k < i ==> g@[k] == 0,
        decreases 16 - i,
    {
        if g[i] != 0 {
            return false;
        }
        i = i + 1;
    }
    true
}

/// Checks the partitions to create against the usable range and each other.
pub fn validate_specs(partitions: &[PartitionSpec], first_usable: u64, last_usable: u64) -> (r: Result<(), GptError>)
    ensures
        (exists|i: int| 0 <= i < partitions@.len() && spec_refused(partitions@, i, first_usable, last_usable))
            ==> r == Err::<(), GptError>(GptError::InvalidPartition),
        !(exists|i: int| 0 <= i < partitions@.len() && spec_refused(partitions@, i, first_usable, last_usable)) ==> r is Ok,
{
    let mut i: usize = 0;
    while i < partitions.len()
        invariant
            i <= partitions@.len(),
            forall|k: int| 0 <= k < i ==> !spec_refused(partitions@, k, first_usable, last_usable),
        decreases partitions.len() - i,
    {
        let p = partitions[i];
        if guid_is_zero(&p.type_guid) || guid_is_zero(&p.unique_guid) || p.first_lba < first_usable
            || p.first_lba > p.last_lba || p.last_lba > last_usable {
            assert(spec_refused(partitions@, i as int, first_usable, last_usable));
            return Err(GptError::InvalidPartition);
        }
        let mut j: usize = 0;
        while j < i
            invariant
                i < partitions@.len(),
                p == partitions@[i as int],
                j <= i,
                forall|k: int| 0 <= k < j ==> !clash(p.unique_guid@, p.first_lba, p.last_lba,
                    partitions@[k].unique_guid@, partitions@[k].first_lba, partitions@[k].last_lba),
            decreases i - j,
        {
            let q = partitions[j];
            if guid_eq(&p.unique_guid, &q.unique_guid) || (p.first_lba <= q.last_lba && q.first_lba <= p.last_lba) {
                assert(clash(p.unique_guid@, p.first_lba, p.last_lba, partitions@[j as int].unique_guid@,
                    partitions@[j as int].first_lba, partitions@[j as int].last_lba));
                assert(spec_refused(partitions@, i as int, first_usable, last_usable));
                return Err(GptError::InvalidPartition);
            }
            j = j + 1;
        }
        i = i + 1;
    }
    Ok(())
}


/// The partitions held by `t`, in order.
pub open spec fn table_parts(t: &Table) -> Seq<Partition> {
    Seq::new(t.partition_count as nat, |i: int| t.partitions@[i]->Some_0)
}

/// The partitions are inside the usable range, not reversed, and pairwise
/// distinct and disjoint.
pub open spec fn parts_valid(ps: Seq<Partition>, first: u64, last: u64) -> bool {
    &&& forall|i: int| 0 <= i < ps.len() ==> {
        let p = #[trigger] ps[i];
        &&& first <= p.first_lba
        &&& p.last_lba <= last
        &&& p.first_lba <= p.last_lba
        &&& p.first_lba != 0
    }
    &&& forall|i: int, j: int| 0 <= j < i < ps.len() ==> !clash((#[trigger] ps[i]).unique_guid@, ps[i].first_lba, ps[i].last_lba,
        (#[trigger] ps[j]).unique_guid@, ps[j].first_lba, ps[j].last_lba)
}

/// A table holds its partitions in the first slots and satisfies
/// [`parts_valid`].
pub open spec fn table_wf(t: &Table) -> bool {
    &&& t.partition_count <= 32
    &&& forall|i: int| 0 <= i < t.partition_count ==> (#[trigger] t.partitions@[i]) is Some
    &&& forall|i: int| t.partition_count <= i < 32 ==> (#[trigger] t.partitions@[i]) is None
    &&& parts_valid(table_parts(t), t.first_usable_lba, t.last_usable_lba)
}

/// Adds a decoded partition to the table: refused when outside the usable
/// range (`InvalidPartition`), when the table is full (`TooManyEntries`)
/// or when it clashes with one already held (`InvalidPartition`).
pub fn add_partition(table: &mut Table, p: Partition) -> (r: Result<(), GptError>)
    requires
        table_wf(old(table)),
        p.first_lba <= p.last_lba,
        p.first_lba != 0,
    ensures
        table_wf(final(table)),
        final(table).first_usable_lba == old(table).first_usable_lba,
        final(table).last_usable_lba == old(table).last_usable_lba,
        final(table).disk_guid == old(table).disk_guid,
        p.first_lba < old(table).first_usable_lba || p.last_lba > old(table).last_usable_lba
            ==> r == Err::<(), GptError>(GptError::InvalidPartition) && table_parts(final(table)) == table_parts(old(table)),
        !(p.first_lba < old(table).first_usable_lba || p.last_lba > old(table).last_usable_lba) && old(table).partition_count >= 32
            ==> r == Err::<(), GptError>(GptError::TooManyEntries) && table_parts(final(table)) == table_parts(old(table)),
        r is Ok ==> table_parts(final(table)) == table_parts(old(table)).push(p),
        r is Err ==> table_parts(final(table)) == table_parts(old(table)),
        !(p.first_lba < old(table).first_usable_lba || p.last_lba > old(table).last_usable_lba) && old(table).partition_count < 32
            ==> (r is Ok <==> forall|j: int| 0 <= j < old(table).partition_count ==> !clash(p.unique_guid@, p.first_lba, p.last_lba,
                (#[trigger] table_parts(old(table))[j]).unique_guid@, table_parts(old(table))[j].first_lba, table_parts(old(table))[j].last_lba)),
{
    if p.first_lba < table.first_usable_lba || p.last_lba > table.last_usable_lba {
        return Err(GptError::InvalidPartition);
    }
    if table.partition_count >= MAX_PARTITIONS {
        return Err(GptError::TooManyEntries);
    }
    let ghost ps = table_parts(table);
    let mut j: usize = 0;
    while j < table.partition_count
        invariant
            table_wf(table),
            *table == *old(table),
            old(table).partition_count < 32,
            !(p.first_lba < old(table).first_usable_lba || p.last_lba > old(table).last_usable_lba),
            ps == table_parts(table),
            j <= table.partition_count,
            forall|k: int| 0 <= k < j ==> !clash(p.unique_guid@, p.first_lba, p.last_lba,
                (#[trigger] ps[k]).unique_guid@, ps[k].first_lba, ps[k].last_lba),
        decreases table.partition_count - j,
    {
        let q = match table.partitions[j] {
            Some(q) => q,
            None => {
                assert(false);
                return Err(GptError::InvalidPartition);
            },
        };
        assert(q == ps[j as int]);
        if guid_eq(&p.unique_guid, &q.unique_guid) || (p.first_lba <= q.last_lba && q.first_lba <= p.last_lba) {
            return Err(GptError::InvalidPartition);
        }
        j = j + 1;
    }
    let n = table.partition_count;
    table.partitions[n] = Some(p);
    table.partition_count = n + 1;
    proof {
        assert(table_parts(table) =~= ps.push(p));
        let qs = table_parts(table);
        assert forall|a: int, b: int| 0 <= b < a < qs.len() implies !clash((#[trigger] qs[a]).unique_guid@, qs[a].first_lba, qs[a].last_lba,
            (#[trigger] qs[b]).unique_guid@, qs[b].first_lba, qs[b].last_lba) by {
            if a == qs.len() - 1 {
                assert(qs[b] == ps[b]);
                assert(!clash(p.unique_guid@, p.first_lba, p.last_lba, ps[b].unique_guid@, ps[b].first_lba, ps[b].last_lba));
            } else {
                assert(qs[a] == ps[a] && qs[b] == ps[b]);
            }
        }
    }
    Ok(())
}

/// What a block transfer that must move `expected` bytes amounts to, given
/// what the device answered: all of them is success, a short count an I/O
/// error, a device error is passed on.
pub fn exact_outcome(res: Result<usize, BlockError>, expected: usize) -> (r: Result<(), GptError>)
    ensures
        res matches Ok(n) && n == expected ==> r is Ok,
        res matches Ok(n) && n != expected ==> r == Err::<(), GptError>(GptError::Block(BlockError::Io)),
        res matches Err(e) ==> r == Err::<(), GptError>(GptError::Block(e)),
{
    match res {
        Ok(n) => {
            if n != expected {
                return Err(GptError::Block(BlockError::Io));
            }
            Ok(())
        },
        Err(e) => Err(GptError::Block(e)),
    }
}

/// Reads block `lba` of `device` into `buf`, which must come back whole;
/// the device's answer decides as `exact_outcome` says.
fn read_exact<D: BlockIo>(dev: &mut D, device: &BlockDeviceInfo, lba: u64, buf: &mut Vec<u8>) -> (r: Result<(), GptError>)
    requires
        old(buf)@.len() == device.block_size,
    ensures
        final(buf)@.len() == old(buf)@.len(),
        r matches Err(e) ==> e is Block,
        same_blocks(*final(dev), *old(dev)),
        r is Ok ==> final(buf)@ == lba_bytes(*old(dev), *device, lba),
{
    let res = dev.read_block(device.name, lba, buf.as_mut_slice());
    proof {
        if res is Ok && res->Ok_0 == device.block_size {
            assert(buf@ =~= buf@.subrange(0, device.block_size as int));
        }
    }
    exact_outcome(res, device.block_size)
}


pub fn zeroed(n: usize) -> (r: Vec<u8>)
    ensures
        r@ == Seq::new(n as nat, |i: int| 0u8),
{
    vec_of_zeros(n)
}

/// Reads and checks the partition table of `device`: its primary header,
/// then the entry array block by block (each used entry decoded and
/// checked against the usable range and the entries before it), then the
/// entry array's checksum. Every table returned is well formed.
pub fn read<D: BlockIo>(dev: &mut D, device: BlockDeviceInfo) -> (r: Result<Table, GptError>)
    ensures
        device_error(device.block_size as int, device.blocks) matches Some(e) ==> r == Err::<Table, GptError>(e),
        r matches Ok(t) ==> table_wf(&t),
        same_blocks(*final(dev), *old(dev)),
        device_error(device.block_size as int, device.blocks) is None ==> read_header_answer(*old(dev), device, r),
{
    match validate_device(device) {
        Ok(()) => {},
        Err(e) => return Err(e),
    }
    let bs = device.block_size;
    let mut buf = zeroed(bs);
    match read_exact(dev, &device, 1, &mut buf) {
        Ok(()) => {},
        Err(e) => return Err(e),
    }
    let header = match parse_header(buf.as_slice(), device.blocks) {
        Ok(h) => h,
        Err(e) => return Err(e),
    };
    let mut table = Table {
        disk_guid: header.disk_guid,
        first_usable_lba: header.first_usable_lba,
        last_usable_lba: header.last_usable_lba,
        partitions: [None; 32],
        partition_count: 0,
    };
    assert(table_parts(&table) =~= Seq::<Partition>::empty());
    let esize = header.entry_size;
    assert(header.entry_count * esize <= 128 * 4096) by (nonlinear_arith)
        requires
            header.entry_count <= 128,
            esize <= 4096,
    ;
    let table_bytes = header.entry_count as usize * esize;
    assert(header.entry_count >= 1 && esize >= 128);
    assert(table_bytes >= 128) by (nonlinear_arith)
        requires
            table_bytes == header.entry_count * esize,
            header.entry_count >= 1,
            esize >= 128;
    let table_blocks = (table_bytes + bs - 1) / bs;
    assert(table_blocks <= table_bytes) by (nonlinear_arith)
        requires
            table_blocks == (table_bytes + bs - 1) / (bs as int),
            bs >= 512,
            table_bytes >= 128;
    assert(table_blocks * bs >= table_bytes) by (nonlinear_arith)
        requires
            table_blocks == (table_bytes + bs - 1) / (bs as int),
            bs > 0,
    ;
    let mut crc = Crc32::new();
    let mut entry_index: u64 = 0;
    proof {
        assert(table_blocks == div_ceil(header.entry_count * esize, bs as int));
    }
    let mut b: usize = 0;
    while b < table_blocks
        invariant
            device_error(device.block_size as int, device.blocks) is None,
            table_wf(&table),
            buf@.len() == bs,
            bs == device.block_size,
            512 <= bs <= 4096,
            128 <= esize <= bs,
            table_bytes <= 128 * 4096,
            table_blocks * bs >= table_bytes,
            table_blocks == (table_bytes + bs - 1) / (bs as int),
            table_blocks <= table_bytes,
            b <= table_blocks,
            header.entries_lba + table_blocks <= u64::MAX,
            entry_index <= b * 4096,
            same_blocks(*dev, *old(dev)),
            table.disk_guid == header.disk_guid,
            table.first_usable_lba == header.first_usable_lba,
            table.last_usable_lba == header.last_usable_lba,
        decreases table_blocks - b,
    {
        match read_exact(dev, &device, header.entries_lba + b as u64, &mut buf) {
            Ok(()) => {},
            Err(e) => return Err(e),
        }
        assert(b * bs <= table_bytes) by (nonlinear_arith)
            requires
                b < table_blocks,
                table_blocks * bs >= table_bytes,
                table_blocks == (table_bytes + bs - 1) / (bs as int),
                bs > 0;
        let consumed = b * bs;
        let bytes_here = if table_bytes - consumed < bs { table_bytes - consumed } else { bs };
        crc.update(buf.as_slice(), 0, bytes_here);
        let entries_here = bytes_here / esize;
        assert(entries_here <= 4096) by (nonlinear_arith)
            requires
                entries_here == bytes_here / esize,
                bytes_here <= 4096,
                esize >= 1;
        let mut slot: usize = 0;
        while slot < entries_here
            invariant
                device_error(device.block_size as int, device.blocks) is None,
                table_wf(&table),
                buf@.len() == bs,
                bytes_here <= bs,
                128 <= esize,
                entries_here == bytes_here / esize,
                entries_here <= 4096,
                slot <= entries_here,
                b < table_blocks,
                table_blocks <= 128 * 4096,
                entry_index <= b * 4096 + slot,
                table.disk_guid == header.disk_guid,
                table.first_usable_lba == header.first_usable_lba,
                table.last_usable_lba == header.last_usable_lba,
                same_blocks(*dev, *old(dev)),
            decreases entries_here - slot,
        {
            assert(slot * esize + esize <= bytes_here) by (nonlinear_arith)
                requires
                    slot < entries_here,
                    entries_here == bytes_here / esize,
                    esize > 0;
            let start = slot * esize;
            if !is_zero_range(buf.as_slice(), start, start + 16) {
                let entry = crate::fs::memfs::copy_range(buf.as_slice(), start, start + esize);
                let number = if entry_index < 0xFFFF_FFFF { entry_index as u32 + 1 } else { 0u32 };
                let part = match parse_partition(entry.as_slice(), number) {
                    Ok(p) => p,
                    Err(e) => return Err(e),
                };
                match add_partition(&mut table, part) {
                    Ok(()) => {},
                    Err(e) => return Err(e),
                }
            }
            assert(b * 4096 <= 0x8000_0000) by (nonlinear_arith)
                requires
                    b < table_blocks,
                    table_blocks <= 128 * 4096;
            entry_index = entry_index + 1;
            slot = slot + 1;
        }
        assert(entry_index <= (b + 1) * 4096) by (nonlinear_arith)
            requires
                entry_index <= b * 4096 + entries_here,
                entries_here == bytes_here / esize,
                bytes_here <= bs,
                bs <= 4096,
                esize >= 128;
        b = b + 1;
    }
    if crc.finish() != header.entries_crc32 {
        return Err(GptError::InvalidTableCrc);
    }
    Ok(table)
}


/// The UTF-16 code units of one character.
pub open spec fn utf16_char(c: char) -> Seq<u16> {
    let v = c as u32;
    if v < 0x10000 {
        seq![v as u16]
    } else {
        let w = (v - 0x10000) as u32;
        seq![(0xD800u32 + (w >> 10u32)) as u16, (0xDC00u32 + (w & 0x3FFu32)) as u16]
    }
}

/// The UTF-16 encoding of a character sequence.
pub open spec fn utf16_of(s: Seq<char>) -> Seq<u16>
    decreases s.len(),
{
    if s.len() == 0 { Seq::empty() } else { utf16_of(s.drop_last()) + utf16_char(s.last()) }
}

/// The UTF-16 code units of `s`: characters below U+10000 as one unit,
/// others as a surrogate pair.
fn utf16_units(s: &str) -> (r: Vec<u16>)
    ensures
        r@ == utf16_of(s@),
{
    let n = s.unicode_len();
    let mut out: Vec<u16> = Vec::new();
    let mut i: usize = 0;
    while i < n
        invariant
            n == s@.len(),
            i <= n,
            out@ == utf16_of(s@.take(i as int)),
        decreases n - i,
    {
        let c = s.get_char(i);
        let v = c as u32;
        let ghost before = out@;
        if v < 0x10000 {
            out.push(v as u16);
        } else {
            let w = v - 0x10000;
            assert(w >> 10u32 <= 0x3F_FFFFu32 && w & 0x3FFu32 <= 0x3FFu32) by (bit_vector);
            out.push((0xD800u32 + (w >> 10u32)) as u16);
            out.push((0xDC00u32 + (w & 0x3FFu32)) as u16);
        }
        proof {
            assert(s@.take(i as int + 1).drop_last() =~= s@.take(i as int));
            assert(s@.take(i as int + 1).last() == c);
            assert(out@ =~= before + utf16_char(c));
        }
        i = i + 1;
    }
    proof {
        assert(s@.take(n as int) =~= s@);
    }
    out
}

/// The name field of an entry: the first 36 UTF-16 units of the name,
/// little-endian, zero padded.
pub open spec fn name_field(units: Seq<u16>) -> Seq<u8> {
    Seq::new(72, |j: int| {
        let k = j / 2;
        if k < units.len() && k < 36 {
            if j % 2 == 0 { (units[k] & 0xff) as u8 } else { (units[k] >> 8u16) as u8 }
        } else {
            0u8
        }
    })
}

/// The 128-byte entry of a partition to create.
pub open spec fn entry_bytes(p: PartitionSpec) -> Seq<u8> {
    p.type_guid@ + p.unique_guid@ + bytes64(p.first_lba) + bytes64(p.last_lba) + bytes64(p.attributes)
        + name_field(utf16_of(p.name@))
}

/// A name of at most 36 ASCII characters, none of them NUL.
pub open spec fn plain_name(name: Seq<char>) -> bool {
    &&& name.len() <= 36
    &&& forall|i: int| 0 <= i < name.len() ==> 0 < (#[trigger] name[i]) as u32 && (name[i] as u32) < 128
}

/// A plain name is one UTF-16 unit per character.
proof fn lemma_utf16_plain(name: Seq<char>)
    requires
        forall|i: int| 0 <= i < name.len() ==> ((#[trigger] name[i]) as u32) < 128,
    ensures
        utf16_of(name) == Seq::new(name.len(), |i: int| name[i] as u32 as u16),
    decreases name.len(),
{
    if name.len() > 0 {
        let rest = name.drop_last();
        assert forall|i: int| 0 <= i < rest.len() implies ((#[trigger] rest[i]) as u32) < 128 by {
            assert(rest[i] == name[i]);
        }
        lemma_utf16_plain(rest);
        assert((name.last() as u32) < 128) by {
            assert(name[name.len() - 1] == name.last());
        }
        assert(utf16_of(name) =~= Seq::new(name.len(), |i: int| name[i] as u32 as u16));
    }
}

/// In an entry whose name units are `units`, every unit below `len` is
/// non-zero and the others are zero, the name ends at `len`.
proof fn lemma_name_end(d: Seq<u8>, len: int, i: int)
    requires
        d.len() >= 128,
        0 <= i <= len <= 36,
        forall|k: int| 0 <= k < len ==> #[trigger] name_code(d, k) != 0,
        forall|k: int| len <= k < 36 ==> #[trigger] name_code(d, k) == 0,
    ensures
        name_end(d, i) == len,
    decreases 36 - i,
{
    if i < len {
        lemma_name_end(d, len, i + 1);
    }
}

/// A partition entry this system writes is decoded back to what it was
/// made from: for a partition with a non-zero unique GUID, a non-zero first
/// block not after its last block and a name of at most 36 ASCII characters
/// (none of them NUL), the entry is accepted, and a partition decoded from
/// it as number `index` has the GUIDs, blocks, attributes and name that it
/// was written with.
pub proof fn law_entry_round_trip(s: PartitionSpec, p: Partition, index: u32)
    requires
        s.first_lba != 0,
        s.first_lba <= s.last_lba,
        !all_zero(s.unique_guid@),
        plain_name(s.name@),
        partition_fields(p, entry_bytes(s), index),
    ensures
        !partition_error(entry_bytes(s)),
        p.index == index,
        p.type_guid@ == s.type_guid@,
        p.unique_guid@ == s.unique_guid@,
        p.first_lba == s.first_lba,
        p.last_lba == s.last_lba,
        p.attributes == s.attributes,
        p.name@.subrange(0, p.name_len as int) == Seq::new(s.name@.len(), |i: int| s.name@[i] as u32 as u8),
{
    let d = entry_bytes(s);
    let n = s.name@;
    let units = utf16_of(n);
    lemma_utf16_plain(n);
    assert(d.len() == 128);
    assert(d.subrange(0, 16) =~= s.type_guid@);
    assert(d.subrange(16, 32) =~= s.unique_guid@);
    assert(d.subrange(32, 40) =~= bytes64(s.first_lba));
    assert(d.subrange(40, 48) =~= bytes64(s.last_lba));
    assert(d.subrange(48, 56) =~= bytes64(s.attributes));
    lemma_le64_at(d, 32, s.first_lba);
    lemma_le64_at(d, 40, s.last_lba);
    lemma_le64_at(d, 48, s.attributes);
    let f = name_field(units);
    assert forall|k: int| 0 <= k < 36 implies #[trigger] name_code(d, k) == (if k < n.len() { n[k] as u32 as int } else { 0 }) by {
        assert(d[56 + 2 * k] == f[2 * k]);
        assert(d[57 + 2 * k] == f[2 * k + 1]);
        assert((2 * k) / 2 == k && (2 * k) % 2 == 0);
        assert((2 * k + 1) / 2 == k && (2 * k + 1) % 2 == 1);
        if k < n.len() {
            let u = units[k];
            assert(u == n[k] as u32 as u16);
            assert(u < 128);
            assert(((u & 0xffu16) as u8) as u16 == u && ((u >> 8u16) as u8) == 0u8) by (bit_vector)
                requires
                    u < 128u16;
        }
    }
    lemma_name_end(d, n.len() as int, 0);
    assert(entry_name(d) =~= Seq::new(n.len(), |i: int| n[i] as u32 as u8));
}

/// Encodes a partition to create as a 128-byte entry.
pub fn encode_partition(spec: &PartitionSpec) -> (r: Vec<u8>)
    ensures
        r@ == entry_bytes(*spec),
{
    let mut data = zeroed(128);
    put_bytes(&mut data, 0, &spec.type_guid);
    put_bytes(&mut data, 16, &spec.unique_guid);
    put_u64(&mut data, 32, spec.first_lba);
    put_u64(&mut data, 40, spec.last_lba);
    put_u64(&mut data, 48, spec.attributes);
    let units = utf16_units(spec.name);
    let ghost head = data@.subrange(0, 56);
    let n = if units.len() < 36 { units.len() } else { 36 };
    let mut k: usize = 0;
    while k < n
        invariant
            data@.len() == 128,
            n <= 36,
            n <= units@.len(),
            k <= n,
            data@.subrange(0, 56) == head,
            forall|j: int| 56 <= j < 56 + 2 * k ==> data@[j] == name_field(units@)[j - 56],
            forall|j: int| 56 + 2 * k <= j < 128 ==> data@[j] == 0,
        decreases n - k,
    {
        let u = units[k];
        data.set(56 + 2 * k, (u & 0xff) as u8);
        data.set(57 + 2 * k, (u >> 8u16) as u8);
        proof {
            assert(data@.subrange(0, 56) =~= head);
        }
        k = k + 1;
    }
    proof {
        assert forall|j: int| 56 + 2 * n <= j < 128 implies #[trigger] name_field(units@)[j - 56] == 0 by {}
        assert(data@.subrange(56, 128) =~= name_field(units@));
        assert(head =~= spec.type_guid@ + spec.unique_guid@ + bytes64(spec.first_lba) + bytes64(spec.last_lba) + bytes64(spec.attributes));
        assert(data@ =~= data@.subrange(0, 56) + data@.subrange(56, 128));
    }
    data
}


/// Entry `i` of the array written for `ps`: the encoded spec, or zeros.
pub open spec fn entry_or_zero(ps: Seq<PartitionSpec>, i: int) -> Seq<u8> {
    if i < ps.len() { entry_bytes(ps[i]) } else { Seq::new(128, |j: int| 0u8) }
}

/// The first `n` entries of the array written for `ps`.
pub open spec fn entries_prefix(ps: Seq<PartitionSpec>, n: int) -> Seq<u8>
    decreases n,
{
    if n <= 0 { Seq::empty() } else { entries_prefix(ps, n - 1) + entry_or_zero(ps, n - 1) }
}

proof fn lemma_entries_prefix_len(ps: Seq<PartitionSpec>, n: int)
    requires
        n >= 0,
    ensures
        entries_prefix(ps, n).len() == 128 * n,
    decreases n,
{
    if n > 0 {
        lemma_entries_prefix_len(ps, n - 1);
    }
}

/// The whole entry array (128 entries) written for `ps`.
pub fn entries_image(partitions: &[PartitionSpec]) -> (r: Vec<u8>)
    ensures
        r@ == entries_prefix(partitions@, 128),
        r@.len() == 16384,
{
    let mut out: Vec<u8> = Vec::new();
    let mut i: usize = 0;
    while i < 128
        invariant
            i <= 128,
            out@ == entries_prefix(partitions@, i as int),
        decreases 128 - i,
    {
        let e = if i < partitions.len() { encode_partition(&partitions[i]) } else { zeroed(128) };
        let mut j: usize = 0;
        let ghost base = out@;
        while j < e.len()
            invariant
                j <= e@.len(),
                out@ == base + e@.subrange(0, j as int),
            decreases e.len() - j,
        {
            out.push(e[j]);
            assert(out@ =~= base + e@.subrange(0, j + 1));
            j = j + 1;
        }
        assert(e@.subrange(0, e@.len() as int) =~= e@);
        i = i + 1;
    }
    proof {
        lemma_entries_prefix_len(partitions@, 128);
    }
    out
}

/// CRC-32 of the entry array written for `ps`.
pub fn entries_crc32(partitions: &[PartitionSpec]) -> (r: u32)
    ensures
        r == crc32_spec(entries_prefix(partitions@, 128)),
{
    let image = entries_image(partitions);
    crc32(image.as_slice())
}

/// The 92 header bytes with the checksum field zero.
pub open spec fn header_body(cur: u64, backup: u64, first: u64, last: u64, guid: Seq<u8>, elba: u64, ecrc: u32) -> Seq<u8> {
    gpt_signature() + bytes32(GPT_REVISION_1_0) + bytes32(92) + Seq::new(8, |i: int| 0u8) + bytes64(cur)
        + bytes64(backup) + bytes64(first) + bytes64(last) + guid + bytes64(elba) + bytes32(GPT_ENTRY_COUNT)
        + bytes32(128) + bytes32(ecrc)
}

/// A header block: the body with its checksum filled in, zero padded to
/// the block size.
pub open spec fn header_block(bs: int, cur: u64, backup: u64, first: u64, last: u64, guid: Seq<u8>, elba: u64, ecrc: u32) -> Seq<u8> {
    let body = header_body(cur, backup, first, last, guid, elba, ecrc);
    body.subrange(0, 16) + bytes32(crc32_spec(body)) + body.subrange(20, 92) + Seq::new((bs - 92) as nat, |i: int| 0u8)
}

proof fn lemma_header_body_len(cur: u64, backup: u64, first: u64, last: u64, guid: Seq<u8>, elba: u64, ecrc: u32)
    requires
        guid.len() == 16,
    ensures
        header_body(cur, backup, first, last, guid, elba, ecrc).len() == 92,
{
    let z = Seq::new(8, |i: int| 0u8);
    let p1 = gpt_signature() + bytes32(GPT_REVISION_1_0);
    assert(p1.len() == 12);
    let p2 = p1 + bytes32(92) + z;
    assert(p2.len() == 24);
    let p3 = p2 + bytes64(cur) + bytes64(backup) + bytes64(first) + bytes64(last);
    assert(bytes64(cur).len() == 8);
    assert(bytes64(backup).len() == 8);
    assert(bytes64(first).len() == 8);
    assert(bytes64(last).len() == 8);
    assert(p3.len() == 56);
    let p4 = p3 + guid + bytes64(elba);
    assert(bytes64(elba).len() == 8);
    assert(p4.len() == 80);
    let p5 = p4 + bytes32(GPT_ENTRY_COUNT) + bytes32(128) + bytes32(ecrc);
    assert(p5.len() == 92);
    assert(header_body(cur, backup, first, last, guid, elba, ecrc) == p5);
}

proof fn lemma_bytes32_zero()
    ensures
        bytes32(0) == Seq::new(4, |i: int| 0u8),
        bytes32(0) + bytes32(0) == Seq::new(8, |i: int| 0u8),
{
    let z: u32 = 0;
    assert(z & 0xff == 0 && (z >> 8u32) & 0xff == 0 && (z >> 16u32) & 0xff == 0 && (z >> 24u32) & 0xff == 0) by (bit_vector)
        requires
            z == 0;
    assert(bytes32(0) =~= Seq::new(4, |i: int| 0u8));
    assert(bytes32(0) + bytes32(0) =~= Seq::new(8, |i: int| 0u8));
}

pub fn push_u32(out: &mut Vec<u8>, v: u32)
    ensures
        final(out)@ == old(out)@ + bytes32(v),
{
    out.push((v & 0xff) as u8);
    out.push(((v >> 8u32) & 0xff) as u8);
    out.push(((v >> 16u32) & 0xff) as u8);
    out.push(((v >> 24u32) & 0xff) as u8);
    assert(out@ =~= old(out)@ + bytes32(v));
}

pub fn push_u64(out: &mut Vec<u8>, v: u64)
    ensures
        final(out)@ == old(out)@ + bytes64(v),
{
    push_u32(out, (v & 0xffff_ffff) as u32);
    push_u32(out, (v >> 32u64) as u32);
    assert(out@ =~= old(out)@ + bytes64(v));
}

pub fn push_all(out: &mut Vec<u8>, src: &[u8])
    ensures
        final(out)@ == old(out)@ + src@,
{
    let mut i: usize = 0;
    while i < src.len()
        invariant
            i <= src@.len(),
            out@ == old(out)@ + src@.subrange(0, i as int),
        decreases src.len() - i,
    {
        out.push(src[i]);
        assert(out@ =~= old(out)@ + src@.subrange(0, i + 1));
        i = i + 1;
    }
    assert(src@.subrange(0, src@.len() as int) =~= src@);
}

/// Builds a header block.
pub fn header_image(bs: usize, cur: u64, backup: u64, first: u64, last: u64, guid: &[u8; 16], elba: u64, ecrc: u32) -> (r: Vec<u8>)
    requires
        92 <= bs <= 4096,
    ensures
        r@ == header_block(bs as int, cur, backup, first, last, guid@, elba, ecrc),
{
    let sig: [u8; 8] = [0x45, 0x46, 0x49, 0x20, 0x50, 0x41, 0x52, 0x54];
    assert(sig@ =~= gpt_signature());
    let mut body: Vec<u8> = Vec::new();
    push_all(&mut body, &sig);
    push_u32(&mut body, GPT_REVISION_1_0);
    push_u32(&mut body, 92);
    push_u32(&mut body, 0);
    push_u32(&mut body, 0);
    push_u64(&mut body, cur);
    push_u64(&mut body, backup);
    push_u64(&mut body, first);
    push_u64(&mut body, last);
    push_all(&mut body, guid);
    push_u64(&mut body, elba);
    push_u32(&mut body, GPT_ENTRY_COUNT);
    push_u32(&mut body, 128);
    push_u32(&mut body, ecrc);
    proof {
        lemma_bytes32_zero();
    }
    assert(body@ =~= header_body(cur, backup, first, last, guid@, elba, ecrc));
    let c = crc32(body.as_slice());
    let mut data = zeroed(bs);
    put_bytes(&mut data, 0, body.as_slice());
    let ghost d1 = data@;
    put_u32(&mut data, 16, c);
    proof {
        let hb = header_body(cur, backup, first, last, guid@, elba, ecrc);
        lemma_header_body_len(cur, backup, first, last, guid@, elba, ecrc);
        assert(d1 =~= hb + Seq::new((bs - 92) as nat, |i: int| 0u8));
    }
    assert(data@ =~= header_block(bs as int, cur, backup, first, last, guid@, elba, ecrc));
    data
}

/// The protective MBR block: one partition of type 0xEE covering the disk
/// (capped at 2^32 - 1 sectors) and the boot signature.
pub open spec fn mbr_block(bs: int, blocks: u64) -> Seq<u8> {
    let sectors = if blocks - 1 < u32::MAX { (blocks - 1) as u32 } else { u32::MAX };
    Seq::new(bs as nat, |j: int|
        if j == 450 { 0xeeu8 }
        else if 454 <= j < 458 { bytes32(1)[j - 454] }
        else if 458 <= j < 462 { bytes32(sectors)[j - 458] }
        else if j == 510 { 0x55u8 }
        else if j == 511 { 0xaau8 }
        else { 0u8 })
}

/// Builds the protective MBR block.
pub fn mbr_image(bs: usize, blocks: u64) -> (r: Vec<u8>)
    requires
        512 <= bs <= 4096,
        blocks >= 1,
    ensures
        r@ == mbr_block(bs as int, blocks),
{
    let mut data = zeroed(bs);
    data.set(450, 0xee);
    put_u32(&mut data, 454, 1);
    let sectors: u32 = if blocks - 1 < u32::MAX as u64 { (blocks - 1) as u32 } else { u32::MAX };
    put_u32(&mut data, 458, sectors);
    data.set(510, 0x55);
    data.set(511, 0xaa);
    assert(data@ =~= mbr_block(bs as int, blocks));
    data
}


pub proof fn lemma_le32_at(s: Seq<u8>, o: int, v: u32)
    requires
        0 <= o,
        o + 4 <= s.len(),
        s.subrange(o, o + 4) == bytes32(v),
    ensures
        le32_at(s, o) == v,
{
    assert(s[o] == bytes32(v)[0]);
    assert(s[o + 1] == bytes32(v)[1]);
    assert(s[o + 2] == bytes32(v)[2]);
    assert(s[o + 3] == bytes32(v)[3]);
    let b0 = s[o];
    let b1 = s[o + 1];
    let b2 = s[o + 2];
    let b3 = s[o + 3];
    assert((b0 as u32) | ((b1 as u32) << 8u32) | ((b2 as u32) << 16u32) | ((b3 as u32) << 24u32) == v) by (bit_vector)
        requires
            b0 == (v & 0xff) as u8,
            b1 == ((v >> 8u32) & 0xff) as u8,
            b2 == ((v >> 16u32) & 0xff) as u8,
            b3 == ((v >> 24u32) & 0xff) as u8;
}

pub proof fn lemma_le64_at(s: Seq<u8>, o: int, v: u64)
    requires
        0 <= o,
        o + 8 <= s.len(),
        s.subrange(o, o + 8) == bytes64(v),
    ensures
        le64_at(s, o) == v,
{
    let lo = (v & 0xffff_ffff) as u32;
    let hi = (v >> 32u64) as u32;
    assert(s.subrange(o, o + 4) =~= bytes32(lo)) by {
        assert(s.subrange(o, o + 4) =~= s.subrange(o, o + 8).subrange(0, 4));
    }
    assert(s.subrange(o + 4, o + 8) =~= bytes32(hi)) by {
        assert(s.subrange(o + 4, o + 8) =~= s.subrange(o, o + 8).subrange(4, 8));
    }
    lemma_le32_at(s, o, lo);
    lemma_le32_at(s, o + 4, hi);
    assert((lo as u64) | ((hi as u64) << 32u64) == v) by (bit_vector)
        requires
            lo == (v & 0xffff_ffff) as u32,
            hi == (v >> 32u64) as u32;
}

/// The parameters of a table this system writes on a disk of `blocks`
/// blocks of `bs` bytes.
pub open spec fn writable_layout(bs: int, blocks: u64, first: u64, last: u64, guid: Seq<u8>, elba: u64) -> bool {
    &&& 512 <= bs <= 4096
    &&& is_pow2(bs as usize)
    &&& blocks >= 2
    &&& guid.len() == 16
    &&& !all_zero(guid)
    &&& first <= last
    &&& last < blocks - 1
    &&& 2 <= elba
    &&& elba + div_ceil(16384, bs) <= first
}

/// A primary header this system writes is read back as it was written:
/// it passes every check and decodes to the fields it was built from.
#[verifier::spinoff_prover]
#[verifier::rlimit(60)]
pub proof fn law_header_round_trip(bs: int, blocks: u64, first: u64, last: u64, guid: Seq<u8>, elba: u64, ecrc: u32)
    requires
        writable_layout(bs, blocks, first, last, guid, elba),
    ensures
        ({
            let d = header_block(bs, 1, (blocks - 1) as u64, first, last, guid, elba, ecrc);
            &&& d.len() == bs
            &&& header_error(d, bs, blocks) is None
            &&& le64_at(d, 40) == first
            &&& le64_at(d, 48) == last
            &&& d.subrange(56, 72) == guid
            &&& le64_at(d, 72) == elba
            &&& le32_at(d, 80) == GPT_ENTRY_COUNT
            &&& le32_at(d, 84) == 128
            &&& le32_at(d, 88) == ecrc
        }),
{
    let backup = (blocks - 1) as u64;
    let body = header_body(1, backup, first, last, guid, elba, ecrc);
    lemma_header_body_len(1, backup, first, last, guid, elba, ecrc);
    let c = crc32_spec(body);
    let d = header_block(bs, 1, backup, first, last, guid, elba, ecrc);
    let z8 = Seq::new(8, |i: int| 0u8);
    assert(d.len() == bs);
    assert forall|k: int| 20 <= k < 92 implies d[k] == body[k] by {}
    assert(body.subrange(0, 8) =~= gpt_signature());
    assert(d.subrange(0, 8) =~= gpt_signature());
    assert(d.subrange(8, 12) =~= bytes32(GPT_REVISION_1_0));
    lemma_le32_at(d, 8, GPT_REVISION_1_0);
    assert(d.subrange(12, 16) =~= bytes32(92));
    lemma_le32_at(d, 12, 92);
    assert(d.subrange(16, 20) =~= bytes32(c));
    lemma_le32_at(d, 16, c);
    assert(d.subrange(24, 32) =~= bytes64(1));
    lemma_le64_at(d, 24, 1);
    assert(d.subrange(32, 40) =~= bytes64(backup));
    lemma_le64_at(d, 32, backup);
    assert(d.subrange(40, 48) =~= bytes64(first));
    lemma_le64_at(d, 40, first);
    assert(d.subrange(48, 56) =~= bytes64(last));
    lemma_le64_at(d, 48, last);
    assert(d.subrange(56, 72) =~= guid);
    assert(d.subrange(72, 80) =~= bytes64(elba));
    lemma_le64_at(d, 72, elba);
    assert(d.subrange(80, 84) =~= bytes32(GPT_ENTRY_COUNT));
    lemma_le32_at(d, 80, GPT_ENTRY_COUNT);
    assert(d.subrange(84, 88) =~= bytes32(128));
    lemma_le32_at(d, 84, 128);
    assert(d.subrange(88, 92) =~= bytes32(ecrc));
    lemma_le32_at(d, 88, ecrc);
    assert(body.subrange(16, 20) =~= Seq::new(4, |i: int| 0u8));
    assert(header_crc_input(d, 92) =~= body);
    let e: usize = 128;
    assert(is_pow2(e)) by (bit_vector)
        requires
            e == 128usize;
}


proof fn lemma_block_size_cases(bs: usize)
    requires
        512 <= bs <= 4096,
        is_pow2(bs),
    ensures
        bs == 512 || bs == 1024 || bs == 2048 || bs == 4096,
{
    assert(bs == 512 || bs == 1024 || bs == 2048 || bs == 4096) by (bit_vector)
        requires
            512 <= bs <= 4096,
            bs != 0 && bs & ((bs - 1) as usize) == 0;
}

/// Why a new table is refused on `device`, checked in order.
pub open spec fn write_refusal(device: BlockDeviceInfo, guid: Seq<u8>, ps: Seq<PartitionSpec>) -> Option<GptError> {
    let bs = device.block_size as int;
    let tb = div_ceil(16384, bs);
    let first = 2 + tb;
    let last = device.blocks - 1 - tb - 1;
    if device_error(bs, device.blocks) is Some {
        device_error(bs, device.blocks)
    } else if device.readonly {
        Some(GptError::Block(BlockError::Io))
    } else if ps.len() > GPT_ENTRY_COUNT {
        Some(GptError::TooManyEntries)
    } else if all_zero(guid) {
        Some(GptError::InvalidHeader)
    } else if first > last {
        Some(GptError::DiskTooSmall)
    } else if exists|i: int| 0 <= i < ps.len() && #[trigger] spec_refused(ps, i, first as u64, last as u64) {
        Some(GptError::InvalidPartition)
    } else {
        None
    }
}

/// Writes block `lba` of `device` from `data`, which must go out whole;
/// the device's answer decides as `exact_outcome` says.
fn write_exact<D: BlockIo>(dev: &mut D, device: &BlockDeviceInfo, lba: u64, data: &Vec<u8>) -> (r: Result<(), GptError>)
    ensures
        r matches Err(e) ==> e is Block,
        forall|d: Seq<u8>, l: u64| !(d == device.name.spec_bytes() && l == lba) ==> #[trigger] final(dev).block_at(d, l) == old(dev).block_at(d, l),
        r is Ok ==> data@.len() >= device.block_size
            && lba_bytes(*final(dev), *device, lba) == data@.subrange(0, device.block_size as int),
{
    let res = dev.write_block(device.name, lba, data.as_slice());
    proof {
        if res is Ok && res->Ok_0 == device.block_size {
            let b = dev.block_at(device.name.spec_bytes(), lba);
            assert(b.subrange(0, device.block_size as int) =~= data@.subrange(0, device.block_size as int));
        }
    }
    exact_outcome(res, device.block_size)
}

/// The first `block_size` bytes of block `lba` of `device` in `dev`.
pub open spec fn lba_bytes<D: BlockIo>(dev: D, device: BlockDeviceInfo, lba: u64) -> Seq<u8> {
    dev.block_at(device.name.spec_bytes(), lba).subrange(0, device.block_size as int)
}

/// Whether blocks `start ..` of `device` hold the `count` blocks of `image`.
pub open spec fn holds_image<D: BlockIo>(dev: D, device: BlockDeviceInfo, start: u64, image: Seq<u8>, count: int) -> bool {
    forall|b: int| 0 <= b < count ==> #[trigger] lba_bytes(dev, device, (start + b) as u64)
        == image.subrange(b * device.block_size, (b + 1) * device.block_size)
}

/// Writes the entry array `image` to `count` blocks from `start`.
fn write_entries<D: BlockIo>(dev: &mut D, device: &BlockDeviceInfo, start: u64, image: &Vec<u8>, count: usize) -> (r: Result<(), GptError>)
    requires
        count * device.block_size <= image@.len(),
        start + count <= u64::MAX,
    ensures
        count == 0 ==> r is Ok,
        r matches Err(e) ==> e is Block,
        forall|d: Seq<u8>, l: u64| !(d == device.name.spec_bytes() && start <= l < start + count)
            ==> #[trigger] final(dev).block_at(d, l) == old(dev).block_at(d, l),
        r is Ok ==> holds_image(*final(dev), *device, start, image@, count as int),
{
    let bs = device.block_size;
    let n = image.len();
    let mut b: usize = 0;
    while b < count
        invariant
            n == image@.len(),
            count * bs <= image@.len(),
            start + count <= u64::MAX,
            bs == device.block_size,
            b <= count,
            forall|d: Seq<u8>, l: u64| !(d == device.name.spec_bytes() && start <= l < start + b)
                ==> #[trigger] dev.block_at(d, l) == old(dev).block_at(d, l),
            holds_image(*dev, *device, start, image@, b as int),
        decreases count - b,
    {
        assert((b + 1) * bs <= count * bs) by (nonlinear_arith)
            requires
                b < count;
        assert((b + 1) * bs == b * bs + bs) by (nonlinear_arith);
        let block = crate::fs::memfs::copy_range(image.as_slice(), b * bs, (b + 1) * bs);
        let ghost before = *dev;
        match write_exact(dev, device, start + b as u64, &block) {
            Ok(()) => {},
            Err(e) => return Err(e),
        }
        proof {
            assert(block@.subrange(0, bs as int) =~= image@.subrange(b * bs, (b + 1) * bs));
            assert forall|j: int| 0 <= j < b + 1 implies #[trigger] lba_bytes(*dev, *device, (start + j) as u64)
                == image@.subrange(j * device.block_size, (j + 1) * device.block_size) by {
                if j < b {
                    assert(lba_bytes(before, *device, (start + j) as u64) == image@.subrange(j * device.block_size, (j + 1) * device.block_size));
                    assert(dev.block_at(device.name.spec_bytes(), (start + j) as u64) == before.block_at(device.name.spec_bytes(), (start + j) as u64));
                }
            }
        }
        b = b + 1;
    }
    Ok(())
}

/// Writes a complete protective MBR, primary table and backup table for
/// `partitions` on `device`, after every check of [`write_refusal`] passed.
/// The caller asks the user for confirmation first.
pub fn write<D: BlockIo>(dev: &mut D, device: BlockDeviceInfo, disk_guid: [u8; 16], partitions: &[PartitionSpec]) -> (r: Result<(), GptError>)
    ensures
        write_refusal(device, disk_guid@, partitions@) matches Some(e) ==> r == Err::<(), GptError>(e),
        r is Ok ==> write_refusal(device, disk_guid@, partitions@) is None,
        write_refusal(device, disk_guid@, partitions@) is Some ==> same_blocks(*final(dev), *old(dev)),
        forall|d: Seq<u8>, l: u64| d != device.name.spec_bytes() ==> #[trigger] final(dev).block_at(d, l) == old(dev).block_at(d, l),
        r is Ok ==> gpt_written(*final(dev), device, disk_guid@, partitions@),
{
    match validate_device(device) {
        Ok(()) => {},
        Err(e) => return Err(e),
    }
    if device.readonly {
        return Err(GptError::Block(BlockError::Io));
    }
    if partitions.len() > GPT_ENTRY_COUNT as usize {
        return Err(GptError::TooManyEntries);
    }
    if guid_is_zero(&disk_guid) {
        return Err(GptError::InvalidHeader);
    }
    let bs = device.block_size;
    let table_blocks = ((16384 + bs - 1) / bs) as u64;
    assert(table_blocks <= 32) by (nonlinear_arith)
        requires
            table_blocks == (16384 + bs - 1) / (bs as int),
            bs >= 512;
    let first_usable = 2 + table_blocks;
    let backup_header_lba = device.blocks - 1;
    let backup_entries_lba = backup_header_lba - table_blocks;
    let last_usable = backup_entries_lba - 1;
    if first_usable > last_usable {
        return Err(GptError::DiskTooSmall);
    }
    match validate_specs(partitions, first_usable, last_usable) {
        Ok(()) => {},
        Err(e) => return Err(e),
    }
    let image = entries_image(partitions);
    let entries_crc = crc32(image.as_slice());
    proof {
        lemma_block_size_cases(bs);
    }
    assert(table_blocks * bs <= 16384);
    let ghost name = device.name.spec_bytes();
    let ghost tb = table_blocks as int;
    assert(table_blocks == div_ceil(16384, bs as int));
    let mbr = mbr_image(bs, device.blocks);
    match write_exact(dev, &device, 0, &mbr) {
        Ok(()) => {},
        Err(e) => return Err(e),
    }
    let ghost d1 = *dev;
    proof {
        assert(mbr@.subrange(0, bs as int) =~= mbr@);
    }
    match write_entries(dev, &device, 2, &image, table_blocks as usize) {
        Ok(()) => {},
        Err(e) => return Err(e),
    }
    let ghost d2 = *dev;
    match write_entries(dev, &device, backup_entries_lba, &image, table_blocks as usize) {
        Ok(()) => {},
        Err(e) => return Err(e),
    }
    let ghost d3 = *dev;
    proof {
        lemma_holds_image_kept(d2, d3, device, 2, image@, tb);
    }
    let primary = header_image(bs, 1, backup_header_lba, first_usable, last_usable, &disk_guid, 2, entries_crc);
    match write_exact(dev, &device, 1, &primary) {
        Ok(()) => {},
        Err(e) => return Err(e),
    }
    let ghost d4 = *dev;
    proof {
        lemma_holds_image_kept(d3, d4, device, 2, image@, tb);
        lemma_holds_image_kept(d3, d4, device, backup_entries_lba, image@, tb);
        lemma_header_len(bs as int, 1, backup_header_lba, first_usable, last_usable, disk_guid@, 2, entries_crc);
        assert(primary@.subrange(0, bs as int) =~= primary@);
    }
    let backup = header_image(bs, backup_header_lba, 1, first_usable, last_usable, &disk_guid, backup_entries_lba, entries_crc);
    let r = write_exact(dev, &device, backup_header_lba, &backup);
    proof {
        if r is Ok {
            lemma_holds_image_kept(d4, *dev, device, 2, image@, tb);
            lemma_holds_image_kept(d4, *dev, device, backup_entries_lba, image@, tb);
            lemma_header_len(bs as int, backup_header_lba, 1, first_usable, last_usable, disk_guid@, backup_entries_lba, entries_crc);
            assert(backup@.subrange(0, bs as int) =~= backup@);
            assert(lba_bytes(*dev, device, 0) == lba_bytes(d1, device, 0));
            assert(lba_bytes(*dev, device, 1) == lba_bytes(d4, device, 1));
        }
    }
    r
}

/// What `read` answers as far as the primary header (block 1) decides:
/// a header that fails its checks is refused, and a table read has the
/// header's disk GUID and usable range.
pub open spec fn read_header_answer<D: BlockIo>(dev: D, device: BlockDeviceInfo, r: Result<Table, GptError>) -> bool {
    let hb = lba_bytes(dev, device, 1);
    &&& header_error(hb, device.block_size as int, device.blocks) is Some ==> r is Err
    &&& r matches Ok(t) ==> header_error(hb, device.block_size as int, device.blocks) is None
        && t.disk_guid@ == hb.subrange(56, 72) && t.first_usable_lba == le64_at(hb, 40) && t.last_usable_lba == le64_at(hb, 48)
}

/// A table this system writes is read back with the disk GUID and the
/// usable range it was written with: a read of the device right after a
/// completed `write` that returns a table returns that GUID, first usable
/// block `2 + t` and last usable block `blocks - 2 - t`, where `t` is the
/// number of blocks of the entry array.
pub proof fn law_write_then_read_header<D: BlockIo>(dev: D, device: BlockDeviceInfo, guid: Seq<u8>, ps: Seq<PartitionSpec>, r: Result<Table, GptError>)
    requires
        write_refusal(device, guid, ps) is None,
        guid.len() == 16,
        gpt_written(dev, device, guid, ps),
        read_header_answer(dev, device, r),
    ensures
        ({
            let tb = div_ceil(16384, device.block_size as int);
            r matches Ok(t) ==> t.disk_guid@ == guid && t.first_usable_lba == 2 + tb && t.last_usable_lba == device.blocks - 2 - tb
        }),
{
    let bs = device.block_size as int;
    let tb = div_ceil(16384, bs);
    let first = (2 + tb) as u64;
    let last = (device.blocks - 1 - tb - 1) as u64;
    let image = entries_prefix(ps, 128);
    let crc = crc32_spec(image);
    assert(tb >= 4 && tb <= 32) by (nonlinear_arith)
        requires
            tb == (16384 + bs - 1) / bs,
            512 <= bs <= 4096;
    assert(writable_layout(bs, device.blocks, first, last, guid, 2));
    law_header_round_trip(bs, device.blocks, first, last, guid, 2, crc);
    assert(lba_bytes(dev, device, 1) == header_block(bs, 1, (device.blocks - 1) as u64, first, last, guid, 2, crc));
}

/// What a completed `write` leaves on `device`: the protective MBR in
/// block 0, the primary header in block 1, the entry array from block 2
/// and again before the last block, and the backup header in the last
/// block.
pub open spec fn gpt_written<D: BlockIo>(dev: D, device: BlockDeviceInfo, guid: Seq<u8>, ps: Seq<PartitionSpec>) -> bool {
    let bs = device.block_size as int;
    let tb = div_ceil(16384, bs);
    let backup = (device.blocks - 1) as u64;
    let belba = (device.blocks - 1 - tb) as u64;
    let first = (2 + tb) as u64;
    let last = (device.blocks - 1 - tb - 1) as u64;
    let image = entries_prefix(ps, 128);
    let crc = crc32_spec(image);
    &&& lba_bytes(dev, device, 0) == mbr_block(bs, device.blocks)
    &&& lba_bytes(dev, device, 1) == header_block(bs, 1, backup, first, last, guid, 2, crc)
    &&& holds_image(dev, device, 2, image, tb)
    &&& holds_image(dev, device, belba, image, tb)
    &&& lba_bytes(dev, device, backup) == header_block(bs, backup, 1, first, last, guid, belba, crc)
}

proof fn lemma_holds_image_kept<D: BlockIo>(a: D, b: D, device: BlockDeviceInfo, start: u64, image: Seq<u8>, count: int)
    requires
        holds_image(a, device, start, image, count),
        0 <= count,
        start + count <= u64::MAX,
        forall|l: u64| start <= l < start + count ==> #[trigger] b.block_at(device.name.spec_bytes(), l) == a.block_at(device.name.spec_bytes(), l),
    ensures
        holds_image(b, device, start, image, count),
{
    assert forall|j: int| 0 <= j < count implies #[trigger] lba_bytes(b, device, (start + j) as u64)
        == image.subrange(j * device.block_size, (j + 1) * device.block_size) by {
        assert(lba_bytes(a, device, (start + j) as u64) == image.subrange(j * device.block_size, (j + 1) * device.block_size));
        let l = (start + j) as u64;
        assert(start <= l < start + count);
        assert(b.block_at(device.name.spec_bytes(), l) == a.block_at(device.name.spec_bytes(), l));
    }
}

proof fn lemma_header_len(bs: int, cur: u64, backup: u64, first: u64, last: u64, guid: Seq<u8>, elba: u64, ecrc: u32)
    requires
        guid.len() == 16,
        92 <= bs,
    ensures
        header_block(bs, cur, backup, first, last, guid, elba, ecrc).len() == bs,
{
    lemma_header_body_len(cur, backup, first, last, guid, elba, ecrc);
}

} // verus!
