//! Installing the system on a disk: where the EFI system partition, the
//! DunitFS root and the BIOS boot stages go, and the writes that put them
//! there.
use vstd::prelude::*;
use crate::drivers::block::{BlockDeviceInfo, BlockError, BlockIo};
use crate::storage::gpt::{self, PartitionSpec, bytes32, bytes64, crc32_spec, le32_at};
use crate::fs::dunitfs::{self, DunitFs, DunitFsError};
use crate::text::str_eq;

verus! {

pub const BLOCK_SIZE: usize = 512;
pub const ESP_START: u64 = 2048;
pub const GPT_TRAILING_BLOCKS: u64 = 34;
pub const GPT_PRIMARY_ENTRIES_LBA: u64 = 2;
pub const GPT_FULL_ENTRY_BLOCKS: u64 = 32;

#[derive(Clone, Copy, Debug, PartialEq, Eq, Structural)]
pub enum InstallError {
    PayloadUnavailable,
    InvalidPayload,
    BiosPayloadUnavailable,
    InvalidBiosPayload,
    UnsupportedDevice,
    DiskTooSmall,
    AlreadyMounted,
    Partitioning,
    WriteFailed,
    FormatFailed,
    MountFailed,
    BiosInstallFailed,
}

impl InstallError {
    /// The message shown for the error.
    pub fn as_str(self) -> (r: &'static str)
        ensures
            r@ == match self {
                InstallError::PayloadUnavailable => "installer payload is unavailable"@,
                InstallError::InvalidPayload => "installer payload is invalid"@,
                InstallError::BiosPayloadUnavailable => "BIOS installer payload is unavailable"@,
                InstallError::InvalidBiosPayload => "BIOS installer payload is invalid"@,
                InstallError::UnsupportedDevice => "installer currently requires a writable AHCI disk"@,
                InstallError::DiskTooSmall => "target disk is too small"@,
                InstallError::AlreadyMounted => "a DunitFS volume is already mounted"@,
                InstallError::Partitioning => "failed to write GPT"@,
                InstallError::WriteFailed => "failed to write EFI system partition"@,
                InstallError::FormatFailed => "failed to format DunitFS"@,
                InstallError::MountFailed => "installed DunitFS could not be mounted"@,
                InstallError::BiosInstallFailed => "failed to install Limine BIOS stages"@,
            },
    {
        match self {
            InstallError::PayloadUnavailable => "installer payload is unavailable",
            InstallError::InvalidPayload => "installer payload is invalid",
            InstallError::BiosPayloadUnavailable => "BIOS installer payload is unavailable",
            InstallError::InvalidBiosPayload => "BIOS installer payload is invalid",
            InstallError::UnsupportedDevice => "installer currently requires a writable AHCI disk",
            InstallError::DiskTooSmall => "target disk is too small",
            InstallError::AlreadyMounted => "a DunitFS volume is already mounted",
            InstallError::Partitioning => "failed to write GPT",
            InstallError::WriteFailed => "failed to write EFI system partition",
            InstallError::FormatFailed => "failed to format DunitFS",
            InstallError::MountFailed => "installed DunitFS could not be mounted",
            InstallError::BiosInstallFailed => "failed to install Limine BIOS stages",
        }
    }
}

/// Where the partitions go: the EFI system partition from block 2048 for
/// the payload's blocks, the root from right after it to the last block
/// before the backup GPT.
#[derive(Clone, Copy, Debug, PartialEq, Eq, Structural)]
pub struct InstallLayout {
    pub esp_blocks: u64,
    pub root_start: u64,
    pub root_end: u64,
}

/// The layout for a disk of `blocks` blocks and a payload of `payload_len`
/// bytes, or `DiskTooSmall` when the root would have under 2048 blocks.
pub open spec fn layout_spec(blocks: u64, payload_len: int) -> Option<InstallLayout> {
    let esp = payload_len / 512;
    let start = ESP_START + esp;
    if start > u64::MAX || blocks < GPT_TRAILING_BLOCKS {
        None
    } else {
        let end = blocks - GPT_TRAILING_BLOCKS;
        if start >= end || end - start < 2048 {
            None
        } else {
            Some(InstallLayout { esp_blocks: esp as u64, root_start: start as u64, root_end: end as u64 })
        }
    }
}

pub fn install_layout(blocks: u64, payload_len: usize) -> (r: Result<InstallLayout, InstallError>)
    ensures
        layout_spec(blocks, payload_len as int) matches Some(l) ==> r == Ok::<InstallLayout, InstallError>(l),
        layout_spec(blocks, payload_len as int) is None ==> r == Err::<InstallLayout, InstallError>(InstallError::DiskTooSmall),
{
    let esp = (payload_len / BLOCK_SIZE) as u64;
    let start = match ESP_START.checked_add(esp) {
        Some(s) => s,
        None => return Err(InstallError::DiskTooSmall),
    };
    let end = match blocks.checked_sub(GPT_TRAILING_BLOCKS) {
        Some(e) => e,
        None => return Err(InstallError::DiskTooSmall),
    };
    if start >= end || end - start < 2048 {
        return Err(InstallError::DiskTooSmall);
    }
    Ok(InstallLayout { esp_blocks: esp, root_start: start, root_end: end })
}

/// Where the two BIOS boot stages go: stage A in the tail of the primary
/// partition-entry area, stage B in the tail of the backup one; the primary
/// table keeps `entry_count` entries in front of stage A.
#[derive(Clone, Copy, Debug, PartialEq, Eq, Structural)]
pub struct BiosLayout {
    pub stage2_size: usize,
    pub stage_a_blocks: usize,
    pub stage_b_blocks: usize,
    pub stage_a_size: usize,
    pub stage_b_size: usize,
    pub stage_a_lba: u64,
    pub stage_b_lba: u64,
    pub entry_count: usize,
}

pub open spec fn ceil_div(a: int, b: int) -> int {
    (a + b - 1) / b
}

/// The stage layout for an image of `image_len` bytes (its first block is
/// the boot sector) on a disk of `blocks` blocks, if the stages fit.
pub open spec fn bios_layout_spec(blocks: u64, image_len: int) -> Option<BiosLayout> {
    let stage2 = image_len - 512;
    let s2_blocks = ceil_div(stage2, 512);
    let a = ceil_div(s2_blocks, 2);
    let b = s2_blocks / 2;
    let a_size = a * 512;
    let b_size = b * 512;
    if a_size > stage2 || a_size > 0xFFFF || b_size > 0xFFFF || a >= 32 {
        None
    } else {
        let a_lba = 2 + 32 - a;
        let b_lba = blocks - 1 - 32 + 32 - b;
        let entries = (a_lba - 2) * 4;
        if entries < 2 {
            None
        } else {
            Some(BiosLayout {
                stage2_size: stage2 as usize,
                stage_a_blocks: a as usize,
                stage_b_blocks: b as usize,
                stage_a_size: a_size as usize,
                stage_b_size: b_size as usize,
                stage_a_lba: a_lba as u64,
                stage_b_lba: b_lba as u64,
                entry_count: entries as usize,
            })
        }
    }
}

pub fn bios_layout(blocks: u64, image_len: usize) -> (r: Result<BiosLayout, InstallError>)
    requires
        image_len > 512,
        blocks >= GPT_TRAILING_BLOCKS,
    ensures
        bios_layout_spec(blocks, image_len as int) matches Some(l) ==> r == Ok::<BiosLayout, InstallError>(l),
        bios_layout_spec(blocks, image_len as int) is None ==> r == Err::<BiosLayout, InstallError>(InstallError::InvalidBiosPayload),
{
    let stage2 = image_len - BLOCK_SIZE;
    let s2_blocks = stage2 / BLOCK_SIZE + if stage2 % BLOCK_SIZE != 0 { 1 } else { 0 };
    proof {
        assert(s2_blocks == ceil_div(stage2 as int, 512)) by (nonlinear_arith)
            requires s2_blocks == stage2 / 512 + if stage2 % 512 != 0 { 1int } else { 0int }, stage2 >= 0;
    }
    let a = s2_blocks / 2 + s2_blocks % 2;
    let b = s2_blocks / 2;
    proof {
        assert(a == ceil_div(s2_blocks as int, 2));
    }
    if a >= 32 {
        return Err(InstallError::InvalidBiosPayload);
    }
    let a_size = a * BLOCK_SIZE;
    let b_size = b * BLOCK_SIZE;
    if a_size > stage2 || a_size > 0xFFFF || b_size > 0xFFFF {
        return Err(InstallError::InvalidBiosPayload);
    }
    let a_lba: u64 = GPT_PRIMARY_ENTRIES_LBA + GPT_FULL_ENTRY_BLOCKS - a as u64;
    let b_lba: u64 = blocks - 1 - GPT_FULL_ENTRY_BLOCKS + GPT_FULL_ENTRY_BLOCKS - b as u64;
    let entries = (a_lba - GPT_PRIMARY_ENTRIES_LBA) as usize * 4;
    if entries < 2 {
        return Err(InstallError::InvalidBiosPayload);
    }
    Ok(BiosLayout {
        stage2_size: stage2,
        stage_a_blocks: a,
        stage_b_blocks: b,
        stage_a_size: a_size,
        stage_b_size: b_size,
        stage_a_lba: a_lba,
        stage_b_lba: b_lba,
        entry_count: entries,
    })
}

/// The SplitMix64 finaliser.
#[verifier::opaque]
pub open spec fn mix_spec(v: u64) -> u64 {
    let a = v ^ (v >> 30u64);
    let b = vstd::wrapping::u64_specs::wrapping_mul(a, 0xbf58_476d_1ce4_e5b9u64);
    let c = b ^ (b >> 27u64);
    let d = vstd::wrapping::u64_specs::wrapping_mul(c, 0x94d0_49bb_1331_11ebu64);
    d ^ (d >> 31u64)
}

pub fn mix(value: u64) -> (r: u64)
    ensures
        r == mix_spec(value),
{
    let a = value ^ (value >> 30u64);
    let b = a.wrapping_mul(0xbf58_476d_1ce4_e5b9u64);
    let c = b ^ (b >> 27u64);
    let d = c.wrapping_mul(0x94d0_49bb_1331_11ebu64);
    proof {
        reveal(mix_spec);
    }
    d ^ (d >> 31u64)
}

/// The byte `k` of `v`, least significant first.
pub open spec fn byte_of(v: u64, k: int) -> u8 {
    ((v >> ((8 * k) as u64)) & 0xff) as u8
}

/// The GUID made from `seed` for `tag`: two mixed words, little-endian,
/// with the version-4 and variant bits set.
pub open spec fn guid_spec(seed: u64, tag: u64) -> Seq<u8> {
    let l0 = mix_spec(seed ^ vstd::wrapping::u64_specs::wrapping_mul(tag, 0x9e37_79b9_7f4a_7c15u64));
    let r = mix_spec(l0 ^ 0xa5a5_5a5a_d3c4_b2e1u64);
    let l = if l0 == 0 && r == 0 { 1u64 } else { l0 };
    Seq::new(16, |i: int|
        if i == 7 { (byte_of(l, 7) & 0x0f) | 0x40 }
        else if i == 8 { (byte_of(r, 0) & 0x3f) | 0x80 }
        else if i < 8 { byte_of(l, i) }
        else { byte_of(r, i - 8) })
}

pub fn make_guid(seed: u64, tag: u64) -> (r: [u8; 16])
    ensures
        r@ == guid_spec(seed, tag),
{
    let mut left = mix(seed ^ tag.wrapping_mul(0x9e37_79b9_7f4a_7c15u64));
    let right = mix(left ^ 0xa5a5_5a5a_d3c4_b2e1u64);
    if left == 0 && right == 0 {
        left = 1;
    }
    let r: [u8; 16] = [
        ((left >> 0u64) & 0xff) as u8,
        ((left >> 8u64) & 0xff) as u8,
        ((left >> 16u64) & 0xff) as u8,
        ((left >> 24u64) & 0xff) as u8,
        ((left >> 32u64) & 0xff) as u8,
        ((left >> 40u64) & 0xff) as u8,
        ((left >> 48u64) & 0xff) as u8,
        ((((left >> 56u64) & 0xff) as u8) & 0x0f) | 0x40,
        ((((right >> 0u64) & 0xff) as u8) & 0x3f) | 0x80,
        ((right >> 8u64) & 0xff) as u8,
        ((right >> 16u64) & 0xff) as u8,
        ((right >> 24u64) & 0xff) as u8,
        ((right >> 32u64) & 0xff) as u8,
        ((right >> 40u64) & 0xff) as u8,
        ((right >> 48u64) & 0xff) as u8,
        ((right >> 56u64) & 0xff) as u8,
    ];
    proof {
        assert(r@ =~= guid_spec(seed, tag));
    }
    r
}

/// The two little-endian bytes of `v`.
pub open spec fn bytes16(v: u16) -> Seq<u8> {
    seq![(v & 0xff) as u8, ((v >> 8u16) & 0xff) as u8]
}

/// The boot sector written for the BIOS stages: the image's boot sector with
/// the stage sizes and byte offsets patched in, keeping the disk's own
/// timestamp (bytes 218..224) and partition area (440..510).
pub open spec fn mbr_spec(image: Seq<u8>, old_mbr: Seq<u8>, l: BiosLayout) -> Seq<u8> {
    let a_off = l.stage_a_lba * 512;
    let b_off = l.stage_b_lba * 512;
    Seq::new(512, |i: int|
        if (218 <= i < 224) || (440 <= i < 510) { old_mbr[i] }
        else if 420 <= i < 422 { bytes16(l.stage_a_size as u16)[i - 420] }
        else if 422 <= i < 424 { bytes16(l.stage_b_size as u16)[i - 422] }
        else if 424 <= i < 432 { bytes64(a_off as u64)[i - 424] }
        else if 432 <= i < 440 { bytes64(b_off as u64)[i - 432] }
        else { image[i] })
}

pub fn mbr_image(image: &[u8], old_mbr: &[u8], l: BiosLayout) -> (r: Vec<u8>)
    requires
        image@.len() >= 512,
        old_mbr@.len() >= 512,
        l.stage_a_size <= 0xFFFF,
        l.stage_b_size <= 0xFFFF,
        l.stage_a_lba * 512 <= u64::MAX,
        l.stage_b_lba * 512 <= u64::MAX,
    ensures
        r@ == mbr_spec(image@, old_mbr@, l),
{
    let a_off = l.stage_a_lba * 512;
    let b_off = l.stage_b_lba * 512;
    let a16 = l.stage_a_size as u16;
    let b16 = l.stage_b_size as u16;
    let mut out: Vec<u8> = Vec::new();
    let mut i: usize = 0;
    let ghost spec = mbr_spec(image@, old_mbr@, l);
    let a_bytes = {
        let mut v: Vec<u8> = Vec::new();
        gpt::push_u64(&mut v, a_off);
        v
    };
    let b_bytes = {
        let mut v: Vec<u8> = Vec::new();
        gpt::push_u64(&mut v, b_off);
        v
    };
    proof {
        assert(a_bytes@ =~= bytes64(a_off));
        assert(b_bytes@ =~= bytes64(b_off));
    }
    while i < 512
        invariant
            i <= 512,
            image@.len() >= 512,
            old_mbr@.len() >= 512,
            spec == mbr_spec(image@, old_mbr@, l),
            a_off == l.stage_a_lba * 512,
            b_off == l.stage_b_lba * 512,
            a16 == l.stage_a_size as u16,
            b16 == l.stage_b_size as u16,
            a_bytes@ == bytes64(a_off),
            b_bytes@ == bytes64(b_off),
            out@ == spec.take(i as int),
        decreases 512 - i,
    {
        let v: u8 = if (218 <= i && i < 224) || (440 <= i && i < 510) {
            old_mbr[i]
        } else if i == 420 {
            (a16 & 0xff) as u8
        } else if i == 421 {
            ((a16 >> 8u16) & 0xff) as u8
        } else if i == 422 {
            (b16 & 0xff) as u8
        } else if i == 423 {
            ((b16 >> 8u16) & 0xff) as u8
        } else if 424 <= i && i < 432 {
            a_bytes[i - 424]
        } else if 432 <= i && i < 440 {
            b_bytes[i - 432]
        } else {
            image[i]
        };
        out.push(v);
        proof {
            assert(out@ =~= spec.take(i as int + 1));
        }
        i = i + 1;
    }
    proof {
        assert(spec.take(512) =~= spec);
    }
    out
}

/// `s` with bytes `o..o+4` replaced by `v`, little-endian.
pub open spec fn put32_spec(s: Seq<u8>, o: int, v: u32) -> Seq<u8> {
    s.subrange(0, o) + bytes32(v) + s.subrange(o + 4, s.len() as int)
}

/// The GPT header signature, `EFI PART`.
pub open spec fn efi_part() -> Seq<u8> {
    seq![69u8, 70u8, 73u8, 32u8, 80u8, 65u8, 82u8, 84u8]
}

/// A GPT header rewritten for a shorter entry array: the entry count and
/// entry CRC replaced and the header CRC recomputed over its declared size;
/// none when the block is not a GPT header or declares a size outside
/// 92..=512.
pub open spec fn patched_header(h: Seq<u8>, count: u32, ecrc: u32) -> Option<Seq<u8>> {
    let size = le32_at(h, 12);
    if h.take(8) != efi_part() || size < 92 || size > 512 {
        None
    } else {
        let h1 = put32_spec(put32_spec(put32_spec(h, 80, count), 88, ecrc), 16, 0);
        Some(put32_spec(h1, 16, crc32_spec(h1.take(size as int))))
    }
}

pub fn patch_gpt_header(header: &Vec<u8>, entry_count: u32, entries_crc: u32) -> (r: Result<Vec<u8>, InstallError>)
    requires
        header@.len() == 512,
    ensures
        patched_header(header@, entry_count, entries_crc) matches Some(p) ==> (r matches Ok(v) && v@ == p),
        patched_header(header@, entry_count, entries_crc) is None ==> r == Err::<Vec<u8>, InstallError>(InstallError::BiosInstallFailed),
{
    let magic: [u8; 8] = [69u8, 70u8, 73u8, 32u8, 80u8, 65u8, 82u8, 84u8];
    let mut k: usize = 0;
    while k < 8
        invariant
            k <= 8,
            header@.len() == 512,
            magic@ == efi_part(),
            forall|j: int| 0 <= j < k ==> header@[j] == efi_part()[j],
        decreases 8 - k,
    {
        if header[k] != magic[k] {
            proof {
                assert(header@.take(8)[k as int] != efi_part()[k as int]);
            }
            return Err(InstallError::BiosInstallFailed);
        }
        k = k + 1;
    }
    proof {
        assert(header@.take(8) =~= efi_part());
    }
    let size = gpt::le_u32(header.as_slice(), 12);
    if size < 92 || size > 512 {
        return Err(InstallError::BiosInstallFailed);
    }
    let mut h = header.clone();
    proof {
        assert(h@ == header@);
    }
    gpt::put_u32(&mut h, 80, entry_count);
    gpt::put_u32(&mut h, 88, entries_crc);
    gpt::put_u32(&mut h, 16, 0);
    let ghost h1 = h@;
    let crc = gpt::crc32(vstd::slice::slice_subrange(h.as_slice(), 0, size as usize));
    proof {
        assert(h@.subrange(0, size as int) =~= h1.take(size as int));
    }
    gpt::put_u32(&mut h, 16, crc);
    Ok(h)
}

/// What a transfer of `len` bytes for the boot stages amounts to, given the
/// device's answer: all of them is success, anything else a failed install.
pub fn transfer_outcome(res: Result<usize, BlockError>, len: usize) -> (r: Result<(), InstallError>)
    ensures
        (res matches Ok(n) && n == len) ==> r is Ok,
        !(res matches Ok(n) && n == len) ==> r == Err::<(), InstallError>(InstallError::BiosInstallFailed),
{
    match res {
        Ok(n) => {
            if n != len {
                return Err(InstallError::BiosInstallFailed);
            }
            Ok(())
        },
        Err(_) => Err(InstallError::BiosInstallFailed),
    }
}

/// Reads from block `lba` into all of `data`; the device's answer decides as
/// `transfer_outcome` says.
fn read_all<D: BlockIo>(dev: &mut D, device: &BlockDeviceInfo, lba: u64, data: &mut Vec<u8>) -> (r: Result<(), InstallError>)
    ensures
        final(data)@.len() == old(data)@.len(),
        r is Err ==> r == Err::<(), InstallError>(InstallError::BiosInstallFailed),
{
    let len = data.len();
    let res = dev.read_block(device.name, lba, data.as_mut_slice());
    transfer_outcome(res, len)
}

/// Writes all of `data` from block `lba`; the device's answer decides as
/// `transfer_outcome` says.
fn write_all<D: BlockIo>(dev: &mut D, device: &BlockDeviceInfo, lba: u64, data: &[u8]) -> (r: Result<(), InstallError>)
    ensures
        r is Err ==> r == Err::<(), InstallError>(InstallError::BiosInstallFailed),
{
    let res = dev.write_block(device.name, lba, data);
    transfer_outcome(res, data.len())
}

proof fn lemma_stage_b_fits(stage2: int, s2_blocks: int, a: int, b: int)
    requires
        stage2 >= 0,
        s2_blocks == ceil_div(stage2, 512),
        a == ceil_div(s2_blocks, 2),
        b == s2_blocks / 2,
        a * 512 <= stage2,
    ensures
        stage2 - a * 512 <= b * 512,
{
    assert(stage2 <= s2_blocks * 512) by (nonlinear_arith)
        requires stage2 >= 0, s2_blocks == (stage2 + 511) / 512;
    assert(a + b == s2_blocks);
    assert(stage2 - a * 512 <= b * 512) by (nonlinear_arith)
        requires stage2 <= s2_blocks * 512, a + b == s2_blocks;
}

/// Puts the BIOS boot stages on the disk: the boot code's second stage is
/// split between the tails of the primary and backup entry areas, both GPT
/// headers are shortened to the entries in front of it, and the boot sector
/// is replaced keeping the disk's timestamp and partition area.
pub fn install_bios<D: BlockIo>(dev: &mut D, device: &BlockDeviceInfo, image: &[u8]) -> (r: Result<(), InstallError>)
    requires
        image@.len() > 512,
        device.blocks >= GPT_TRAILING_BLOCKS,
        device.blocks * 512 <= u64::MAX,
    ensures
        bios_layout_spec(device.blocks, image@.len() as int) is None ==> r == Err::<(), InstallError>(InstallError::InvalidBiosPayload),
        r is Err ==> r == Err::<(), InstallError>(InstallError::InvalidBiosPayload) || r == Err::<(), InstallError>(InstallError::BiosInstallFailed),
{
    let l = match bios_layout(device.blocks, image.len()) {
        Ok(l) => l,
        Err(e) => return Err(e),
    };
    proof {
        let stage2 = image@.len() - 512;
        lemma_stage_b_fits(stage2, ceil_div(stage2, 512), l.stage_a_blocks as int, l.stage_b_blocks as int);
    }
    let mut entries = gpt::zeroed(l.entry_count * 128);
    match read_all(dev, device, GPT_PRIMARY_ENTRIES_LBA, &mut entries) {
        Ok(()) => {},
        Err(e) => return Err(e),
    }
    let entries_crc = gpt::crc32(entries.as_slice());
    let mut stage_b = gpt::zeroed(l.stage_b_size);
    let src_start = BLOCK_SIZE + l.stage_a_size;
    let mut i: usize = src_start;
    while i < image.len()
        invariant
            src_start <= i <= image@.len(),
            stage_b@.len() == l.stage_b_size,
            bios_layout_spec(device.blocks, image@.len() as int) == Some(l),
            image@.len() - src_start <= l.stage_b_size,
        decreases image@.len() - i,
    {
        stage_b.set(i - src_start, image[i]);
        i = i + 1;
    }
    let stage_a = vstd::slice::slice_subrange(image, BLOCK_SIZE, BLOCK_SIZE + l.stage_a_size);
    match write_all(dev, device, l.stage_a_lba, stage_a) {
        Ok(()) => {},
        Err(e) => return Err(e),
    }
    match write_all(dev, device, l.stage_b_lba, stage_b.as_slice()) {
        Ok(()) => {},
        Err(e) => return Err(e),
    }
    let headers: [u64; 2] = [1u64, device.blocks - 1];
    let mut h: usize = 0;
    while h < 2
        invariant
            h <= 2,
            bios_layout_spec(device.blocks, image@.len() as int) == Some(l),
        decreases 2 - h,
    {
        let lba = headers[h];
        let mut header = gpt::zeroed(BLOCK_SIZE);
        match read_all(dev, device, lba, &mut header) {
            Ok(()) => {},
            Err(e) => return Err(e),
        }
        let patched = match patch_gpt_header(&header, l.entry_count as u32, entries_crc) {
            Ok(p) => p,
            Err(e) => return Err(e),
        };
        match write_all(dev, device, lba, patched.as_slice()) {
            Ok(()) => {},
            Err(e) => return Err(e),
        }
        h = h + 1;
    }
    let mut old_mbr = gpt::zeroed(BLOCK_SIZE);
    match read_all(dev, device, 0, &mut old_mbr) {
        Ok(()) => {},
        Err(e) => return Err(e),
    }
    let mbr = mbr_image(image, old_mbr.as_slice(), l);
    write_all(dev, device, 0, mbr.as_slice())
}

/// The type GUID of an EFI system partition, as stored on disk.
pub fn esp_type_guid() -> (r: [u8; 16])
    ensures
        r@ == seq![0x28u8, 0x73u8, 0x2au8, 0xc1u8, 0x1fu8, 0xf8u8, 0xd2u8, 0x11u8, 0xbau8, 0x4bu8, 0x00u8, 0xa0u8, 0xc9u8, 0x3eu8, 0xc9u8, 0x3bu8],
{
    let r: [u8; 16] = [0x28u8, 0x73u8, 0x2au8, 0xc1u8, 0x1fu8, 0xf8u8, 0xd2u8, 0x11u8, 0xbau8, 0x4bu8, 0x00u8, 0xa0u8, 0xc9u8, 0x3eu8, 0xc9u8, 0x3bu8];
    proof {
        assert(r@ =~= seq![0x28u8, 0x73u8, 0x2au8, 0xc1u8, 0x1fu8, 0xf8u8, 0xd2u8, 0x11u8, 0xbau8, 0x4bu8, 0x00u8, 0xa0u8, 0xc9u8, 0x3eu8, 0xc9u8, 0x3bu8]);
    }
    r
}

/// The type GUID of a DunitFS partition, as stored on disk.
pub fn dunitfs_type_guid() -> (r: [u8; 16])
    ensures
        r@ == seq![0xafu8, 0x3du8, 0xc6u8, 0x0fu8, 0x83u8, 0x84u8, 0x72u8, 0x47u8, 0x8eu8, 0x79u8, 0x3du8, 0x69u8, 0xd8u8, 0x47u8, 0x7du8, 0xe4u8],
{
    let r: [u8; 16] = [0xafu8, 0x3du8, 0xc6u8, 0x0fu8, 0x83u8, 0x84u8, 0x72u8, 0x47u8, 0x8eu8, 0x79u8, 0x3du8, 0x69u8, 0xd8u8, 0x47u8, 0x7du8, 0xe4u8];
    proof {
        assert(r@ =~= seq![0xafu8, 0x3du8, 0xc6u8, 0x0fu8, 0x83u8, 0x84u8, 0x72u8, 0x47u8, 0x8eu8, 0x79u8, 0x3du8, 0x69u8, 0xd8u8, 0x47u8, 0x7du8, 0xe4u8]);
    }
    r
}

/// Whether the installer can write to this device: a writable AHCI disk of
/// 512-byte blocks.
pub open spec fn supported_device(device: BlockDeviceInfo) -> bool {
    !device.readonly && device.block_size == 512 && device.driver@ == "ahci"@
}

/// Whether a BIOS image is usable: more than a boot sector, which ends in
/// the 0x55 0xAA signature.
pub open spec fn bios_image_ok(image: Seq<u8>) -> bool {
    image.len() > 512 && image[510] == 0x55 && image[511] == 0xaa
}

/// The checks made before anything is written, in order; the first that
/// fails is the answer.
pub open spec fn install_refusal(device: BlockDeviceInfo, mounted: bool, payload: Option<Seq<u8>>, bios: Option<Seq<u8>>) -> Option<InstallError> {
    if !supported_device(device) {
        Some(InstallError::UnsupportedDevice)
    } else if mounted {
        Some(InstallError::AlreadyMounted)
    } else if payload is None {
        Some(InstallError::PayloadUnavailable)
    } else if payload->0.len() == 0 || payload->0.len() % 512 != 0 {
        Some(InstallError::InvalidPayload)
    } else if bios is None {
        Some(InstallError::BiosPayloadUnavailable)
    } else if !bios_image_ok(bios->0) {
        Some(InstallError::InvalidBiosPayload)
    } else if layout_spec(device.blocks, payload->0.len() as int) is None {
        Some(InstallError::DiskTooSmall)
    } else {
        None
    }
}

pub open spec fn slice_opt_view(o: Option<&[u8]>) -> Option<Seq<u8>> {
    match o {
        Some(s) => Some(s@),
        None => None,
    }
}

/// Installs the system on `device`: partitions it (an EFI system partition
/// holding `payload`, the rest a DunitFS root), writes the payload, formats
/// the root, installs the BIOS stages from `bios_payload`, and mounts the
/// root at `/persist`. `seed` makes the GUIDs. Only `/` can be mounted on,
/// so the last step always fails with `MountFailed`.
pub fn install<D: BlockIo>(dev: &mut D, device: BlockDeviceInfo, mounted: bool, payload: Option<&[u8]>, bios_payload: Option<&[u8]>, seed: u64) -> (r: Result<(), InstallError>)
    requires
        device.blocks * 512 <= u64::MAX,
    ensures
        install_refusal(device, mounted, slice_opt_view(payload), slice_opt_view(bios_payload)) matches Some(e) ==> r == Err::<(), InstallError>(e),
        r is Err,
{
    if device.readonly || device.block_size != BLOCK_SIZE || !str_eq(device.driver, "ahci") {
        return Err(InstallError::UnsupportedDevice);
    }
    if mounted {
        return Err(InstallError::AlreadyMounted);
    }
    let payload = match payload {
        Some(p) => p,
        None => return Err(InstallError::PayloadUnavailable),
    };
    if payload.len() == 0 || payload.len() % BLOCK_SIZE != 0 {
        return Err(InstallError::InvalidPayload);
    }
    let bios = match bios_payload {
        Some(b) => b,
        None => return Err(InstallError::BiosPayloadUnavailable),
    };
    if bios.len() <= BLOCK_SIZE || bios[510] != 0x55 || bios[511] != 0xaa {
        return Err(InstallError::InvalidBiosPayload);
    }
    let layout = match install_layout(device.blocks, payload.len()) {
        Ok(l) => l,
        Err(e) => return Err(e),
    };
    let disk_guid = make_guid(seed, 0);
    let parts: Vec<PartitionSpec> = vec![
        PartitionSpec {
            type_guid: esp_type_guid(),
            unique_guid: make_guid(seed, 1),
            first_lba: ESP_START,
            last_lba: layout.root_start - 1,
            attributes: 0,
            name: "DUNIT-ESP",
        },
        PartitionSpec {
            type_guid: dunitfs_type_guid(),
            unique_guid: make_guid(seed, 2),
            first_lba: layout.root_start,
            last_lba: layout.root_end,
            attributes: 0,
            name: "DUNIT-ROOT",
        },
    ];
    match gpt::write(dev, device, disk_guid, parts.as_slice()) {
        Ok(()) => {},
        Err(_) => return Err(InstallError::Partitioning),
    }
    match dev.write_block(device.name, ESP_START, payload) {
        Ok(n) => {
            if n != payload.len() {
                return Err(InstallError::WriteFailed);
            }
        },
        Err(_) => return Err(InstallError::WriteFailed),
    }
    let root_blocks = layout.root_end - layout.root_start + 1;
    match dunitfs::format(dev, false, device, layout.root_start, root_blocks) {
        Ok(()) => {},
        Err(_) => return Err(InstallError::FormatFailed),
    }
    match install_bios(dev, &device, bios) {
        Ok(()) => {},
        Err(e) => return Err(e),
    }
    match dunitfs::mount_global(dev, "/persist", false, device, layout.root_start, root_blocks) {
        Ok(_) => {
            proof {
                reveal_strlit("/persist");
                reveal_strlit("/");
                assert("/persist"@.len() != "/"@.len());
            }
            Ok(())
        },
        Err(_) => Err(InstallError::MountFailed),
    }
}

} // verus!
