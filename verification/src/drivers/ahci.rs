//! AHCI: error codes and status, the register-level decisions of a
//! command (the frame sent to the disk, the transfer checks) and the
//! IDENTIFY data that sizes a disk.
use vstd::prelude::*;
use crate::drivers::block::BlockError;

verus! {

pub const SECTOR_SIZE: usize = 512;
pub const SATA_SIG_ATA: u32 = 0x0000_0101;
pub const FIS_TYPE_REG_H2D: u8 = 0x27;
pub const ATA_CMD_IDENTIFY: u8 = 0xec;
pub const ATA_CMD_READ_DMA_EXT: u8 = 0x25;
pub const ATA_CMD_WRITE_DMA_EXT: u8 = 0x35;
pub const ATA_CMD_FLUSH_CACHE_EXT: u8 = 0xea;

#[derive(Clone, Copy, Debug, PartialEq, Eq, Structural)]
pub enum AhciError {
    NoAbar,
    MmioMap,
    BiosHandoffTimeout,
    ResetTimeout,
    PortStopTimeout,
    DmaAlloc,
    DmaAddress,
    DeviceBusy,
    CommandTimeout,
    TaskFile,
    IdentifyFailed,
    UnsupportedSectorSize,
    NoCapacity,
    UnsupportedDevice,
    UnsupportedLba48,
}

/// The code recorded for an error: its position in the list, from 1.
pub open spec fn ahci_code(e: AhciError) -> usize {
    match e {
        AhciError::NoAbar => 1,
        AhciError::MmioMap => 2,
        AhciError::BiosHandoffTimeout => 3,
        AhciError::ResetTimeout => 4,
        AhciError::PortStopTimeout => 5,
        AhciError::DmaAlloc => 6,
        AhciError::DmaAddress => 7,
        AhciError::DeviceBusy => 8,
        AhciError::CommandTimeout => 9,
        AhciError::TaskFile => 10,
        AhciError::IdentifyFailed => 11,
        AhciError::UnsupportedSectorSize => 12,
        AhciError::NoCapacity => 13,
        AhciError::UnsupportedDevice => 14,
        AhciError::UnsupportedLba48 => 15,
    }
}

/// The error recorded under `code`; none for 0 or an unknown code.
pub open spec fn ahci_from_code(code: usize) -> Option<AhciError> {
    if code == 1 { Some(AhciError::NoAbar) }
    else if code == 2 { Some(AhciError::MmioMap) }
    else if code == 3 { Some(AhciError::BiosHandoffTimeout) }
    else if code == 4 { Some(AhciError::ResetTimeout) }
    else if code == 5 { Some(AhciError::PortStopTimeout) }
    else if code == 6 { Some(AhciError::DmaAlloc) }
    else if code == 7 { Some(AhciError::DmaAddress) }
    else if code == 8 { Some(AhciError::DeviceBusy) }
    else if code == 9 { Some(AhciError::CommandTimeout) }
    else if code == 10 { Some(AhciError::TaskFile) }
    else if code == 11 { Some(AhciError::IdentifyFailed) }
    else if code == 12 { Some(AhciError::UnsupportedSectorSize) }
    else if code == 13 { Some(AhciError::NoCapacity) }
    else if code == 14 { Some(AhciError::UnsupportedDevice) }
    else if code == 15 { Some(AhciError::UnsupportedLba48) }
    else { None }
}

impl AhciError {
    pub fn as_str(self) -> (r: &'static str)
        ensures
            r@ == match self {
                AhciError::NoAbar => "ABAR missing"@,
                AhciError::MmioMap => "MMIO map failed"@,
                AhciError::BiosHandoffTimeout => "BIOS handoff timeout"@,
                AhciError::ResetTimeout => "controller reset timeout"@,
                AhciError::PortStopTimeout => "port stop timeout"@,
                AhciError::DmaAlloc => "DMA allocation failed"@,
                AhciError::DmaAddress => "controller requires 32-bit DMA"@,
                AhciError::DeviceBusy => "device stayed busy"@,
                AhciError::CommandTimeout => "command timeout"@,
                AhciError::TaskFile => "ATA task-file error"@,
                AhciError::IdentifyFailed => "IDENTIFY failed"@,
                AhciError::UnsupportedSectorSize => "logical sector is not 512 bytes"@,
                AhciError::NoCapacity => "disk capacity is zero"@,
                AhciError::UnsupportedDevice => "non-ATA device"@,
                AhciError::UnsupportedLba48 => "LBA48 is not supported"@,
            },
    {
        match self {
            AhciError::NoAbar => "ABAR missing",
            AhciError::MmioMap => "MMIO map failed",
            AhciError::BiosHandoffTimeout => "BIOS handoff timeout",
            AhciError::ResetTimeout => "controller reset timeout",
            AhciError::PortStopTimeout => "port stop timeout",
            AhciError::DmaAlloc => "DMA allocation failed",
            AhciError::DmaAddress => "controller requires 32-bit DMA",
            AhciError::DeviceBusy => "device stayed busy",
            AhciError::CommandTimeout => "command timeout",
            AhciError::TaskFile => "ATA task-file error",
            AhciError::IdentifyFailed => "IDENTIFY failed",
            AhciError::UnsupportedSectorSize => "logical sector is not 512 bytes",
            AhciError::NoCapacity => "disk capacity is zero",
            AhciError::UnsupportedDevice => "non-ATA device",
            AhciError::UnsupportedLba48 => "LBA48 is not supported",
        }
    }

    pub fn code(self) -> (r: usize)
        ensures
            r == ahci_code(self),
    {
        match self {
            AhciError::NoAbar => 1,
            AhciError::MmioMap => 2,
            AhciError::BiosHandoffTimeout => 3,
            AhciError::ResetTimeout => 4,
            AhciError::PortStopTimeout => 5,
            AhciError::DmaAlloc => 6,
            AhciError::DmaAddress => 7,
            AhciError::DeviceBusy => 8,
            AhciError::CommandTimeout => 9,
            AhciError::TaskFile => 10,
            AhciError::IdentifyFailed => 11,
            AhciError::UnsupportedSectorSize => 12,
            AhciError::NoCapacity => 13,
            AhciError::UnsupportedDevice => 14,
            AhciError::UnsupportedLba48 => 15,
        }
    }

    /// The error recorded under `code`; none for 0 or an unknown code.
    pub fn from_code(code: usize) -> (r: Option<Self>)
        ensures
            r == ahci_from_code(code),
    {
        match code {
            1 => Some(AhciError::NoAbar),
            2 => Some(AhciError::MmioMap),
            3 => Some(AhciError::BiosHandoffTimeout),
            4 => Some(AhciError::ResetTimeout),
            5 => Some(AhciError::PortStopTimeout),
            6 => Some(AhciError::DmaAlloc),
            7 => Some(AhciError::DmaAddress),
            8 => Some(AhciError::DeviceBusy),
            9 => Some(AhciError::CommandTimeout),
            10 => Some(AhciError::TaskFile),
            11 => Some(AhciError::IdentifyFailed),
            12 => Some(AhciError::UnsupportedSectorSize),
            13 => Some(AhciError::NoCapacity),
            14 => Some(AhciError::UnsupportedDevice),
            15 => Some(AhciError::UnsupportedLba48),
            _ => None,
        }
    }
}

/// The code of an error reads back as the same error, and every code that
/// names an error is that error's code.
pub proof fn law_ahci_code_round_trip(e: AhciError, code: usize)
    ensures
        ahci_from_code(ahci_code(e)) == Some(e),
        ahci_from_code(code) matches Some(x) ==> ahci_code(x) == code,
        ahci_from_code(code) is None <==> (code == 0 || code > 15),
{
}

#[derive(Clone, Copy, Debug, PartialEq, Eq, Structural)]
pub struct AhciStatus {
    pub controllers_found: usize,
    pub controllers_initialized: usize,
    pub disks: usize,
    pub last_error: Option<AhciError>,
}

/// The driver's status from its counters and the code of its last error.
pub fn status(found: usize, initialized: usize, disks: usize, last_error_code: usize) -> (r: AhciStatus)
    ensures
        r.controllers_found == found,
        r.controllers_initialized == initialized,
        r.disks == disks,
        r.last_error == ahci_from_code(last_error_code),
{
    AhciStatus {
        controllers_found: found,
        controllers_initialized: initialized,
        disks,
        last_error: AhciError::from_code(last_error_code),
    }
}

/// The command-header flags: a five-dword frame, marked as a write when
/// data goes to the disk.
pub fn header_flags(write: bool) -> (r: u16)
    ensures
        r == if write { 5u16 | 64u16 } else { 5u16 },
{
    if write { 5u16 | 64u16 } else { 5u16 }
}

/// The register host-to-device frame of an LBA48 command: type, command
/// bit, command, the six LBA bytes, LBA mode, and a count of one sector
/// when asked.
pub open spec fn h2d_fis(command: u8, lba: u64, sector_count: bool) -> Seq<u8> {
    seq![FIS_TYPE_REG_H2D, 0x80u8, command, 0u8,
        lba as u8, (lba >> 8u64) as u8, (lba >> 16u64) as u8, 0x40u8,
        (lba >> 24u64) as u8, (lba >> 32u64) as u8, (lba >> 40u64) as u8, 0u8,
        if sector_count { 1u8 } else { 0u8 }, 0u8, 0u8, 0u8, 0u8, 0u8, 0u8, 0u8]
}

pub fn command_fis(command: u8, lba: u64, sector_count: bool) -> (r: Vec<u8>)
    ensures
        r@ == h2d_fis(command, lba, sector_count),
{
    let r: Vec<u8> = vec![FIS_TYPE_REG_H2D, 0x80u8, command, 0u8,
        lba as u8, (lba >> 8u64) as u8, (lba >> 16u64) as u8, 0x40u8,
        (lba >> 24u64) as u8, (lba >> 32u64) as u8, (lba >> 40u64) as u8, 0u8,
        if sector_count { 1u8 } else { 0u8 }, 0u8, 0u8, 0u8, 0u8, 0u8, 0u8, 0u8];
    proof {
        assert(r@ =~= h2d_fis(command, lba, sector_count));
    }
    r
}

/// The checks before a one-sector transfer, and the command it uses: the
/// buffer must hold a sector, the disk must exist, and the sector must be
/// below its capacity.
pub fn transfer_command(buffer_len: usize, capacity: Option<u64>, lba: u64, write: bool) -> (r: Result<u8, BlockError>)
    ensures
        buffer_len < SECTOR_SIZE ==> r == Err::<u8, BlockError>(BlockError::BufferTooSmall),
        buffer_len >= SECTOR_SIZE && capacity is None ==> r == Err::<u8, BlockError>(BlockError::NotFound),
        buffer_len >= SECTOR_SIZE && (capacity matches Some(c) && lba >= c) ==> r == Err::<u8, BlockError>(BlockError::OutOfRange),
        buffer_len >= SECTOR_SIZE && (capacity matches Some(c) && lba < c) ==>
            r == Ok::<u8, BlockError>(if write { ATA_CMD_WRITE_DMA_EXT } else { ATA_CMD_READ_DMA_EXT }),
{
    if buffer_len < SECTOR_SIZE {
        return Err(BlockError::BufferTooSmall);
    }
    match capacity {
        None => Err(BlockError::NotFound),
        Some(c) => {
            if lba >= c {
                Err(BlockError::OutOfRange)
            } else if write {
                Ok(ATA_CMD_WRITE_DMA_EXT)
            } else {
                Ok(ATA_CMD_READ_DMA_EXT)
            }
        },
    }
}

/// The little-endian word `index` of IDENTIFY data.
pub open spec fn word_at(d: Seq<u8>, index: int) -> u16 {
    ((d[2 * index] as u16) | ((d[2 * index + 1] as u16) << 8u16)) as u16
}

pub fn identify_word(data: &[u8], index: usize) -> (r: u16)
    requires
        data@.len() >= 512,
        index < 256,
    ensures
        r == word_at(data@, index as int),
{
    ((data[2 * index] as u16) | ((data[2 * index + 1] as u16) << 8u16)) as u16
}

/// What IDENTIFY data says of a disk: its sectors must be 512 bytes where
/// it states a logical sector size, it must support LBA48, and its capacity
/// must be nonzero.
pub open spec fn identify_spec(d: Seq<u8>) -> Result<u64, AhciError> {
    let w106 = word_at(d, 106);
    let sized = (w106 & 0x4000) != 0 && (w106 & 0x8000) == 0 && (w106 & 0x1000) != 0;
    let logical = (word_at(d, 117) as u32) | ((word_at(d, 118) as u32) << 16u32);
    let capacity = (word_at(d, 100) as u64) | ((word_at(d, 101) as u64) << 16u64)
        | ((word_at(d, 102) as u64) << 32u64) | ((word_at(d, 103) as u64) << 48u64);
    if sized && logical != 256 {
        Err(AhciError::UnsupportedSectorSize)
    } else if (word_at(d, 83) & 0x400) == 0 {
        Err(AhciError::UnsupportedLba48)
    } else if capacity == 0 {
        Err(AhciError::NoCapacity)
    } else {
        Ok(capacity)
    }
}

/// The capacity in sectors that IDENTIFY data gives, or why the disk cannot
/// be used.
pub fn identify_capacity(data: &[u8]) -> (r: Result<u64, AhciError>)
    requires
        data@.len() >= 512,
    ensures
        r == identify_spec(data@),
{
    let w106 = identify_word(data, 106);
    if (w106 & 0x4000) != 0 && (w106 & 0x8000) == 0 && (w106 & 0x1000) != 0 {
        let logical = (identify_word(data, 117) as u32) | ((identify_word(data, 118) as u32) << 16u32);
        if logical != 256 {
            return Err(AhciError::UnsupportedSectorSize);
        }
    }
    if (identify_word(data, 83) & 0x400) == 0 {
        return Err(AhciError::UnsupportedLba48);
    }
    let capacity = (identify_word(data, 100) as u64) | ((identify_word(data, 101) as u64) << 16u64)
        | ((identify_word(data, 102) as u64) << 32u64) | ((identify_word(data, 103) as u64) << 48u64);
    if capacity == 0 {
        return Err(AhciError::NoCapacity);
    }
    Ok(capacity)
}

/// Whether a port's signature is that of an ATA disk.
pub fn is_ata_signature(signature: u32) -> (r: bool)
    ensures
        r == (signature == SATA_SIG_ATA),
{
    signature == SATA_SIG_ATA
}

} // verus!
