//! xHCI: error codes and status, and the register decisions of bring-up:
//! the interface version, which BAR holds the registers, and port power.
use vstd::prelude::*;
use crate::drivers::pci::PciBar;

verus! {

pub const PORTSC_CURRENT_CONNECT_STATUS: u32 = 1;
pub const PORTSC_PORT_ENABLED: u32 = 2;
pub const PORTSC_PORT_POWER: u32 = 0x200;
pub const PORTSC_CHANGE_BITS: u32 = 0x0076_0000;

#[derive(Clone, Copy, Debug, PartialEq, Eq, Structural)]
pub enum XhciError {
    NoMmioBar,
    MmioMap,
    BadCapabilityLength,
    UnsupportedVersion,
    DmaAlloc,
    HaltTimeout,
    ResetTimeout,
    NotReadyTimeout,
    RunTimeout,
    CommandTimeout,
    CommandFailed,
}

/// The code recorded for an error.
pub open spec fn xhci_code(e: XhciError) -> usize {
    match e {
        XhciError::NoMmioBar => 1,
        XhciError::MmioMap => 2,
        XhciError::BadCapabilityLength => 3,
        XhciError::UnsupportedVersion => 4,
        XhciError::HaltTimeout => 5,
        XhciError::ResetTimeout => 6,
        XhciError::NotReadyTimeout => 7,
        XhciError::DmaAlloc => 8,
        XhciError::RunTimeout => 9,
        XhciError::CommandTimeout => 10,
        XhciError::CommandFailed => 11,
    }
}

/// The error recorded under `code`; none for 0 or an unknown code.
pub open spec fn xhci_from_code(code: usize) -> Option<XhciError> {
    if code == 1 { Some(XhciError::NoMmioBar) }
    else if code == 2 { Some(XhciError::MmioMap) }
    else if code == 3 { Some(XhciError::BadCapabilityLength) }
    else if code == 4 { Some(XhciError::UnsupportedVersion) }
    else if code == 5 { Some(XhciError::HaltTimeout) }
    else if code == 6 { Some(XhciError::ResetTimeout) }
    else if code == 7 { Some(XhciError::NotReadyTimeout) }
    else if code == 8 { Some(XhciError::DmaAlloc) }
    else if code == 9 { Some(XhciError::RunTimeout) }
    else if code == 10 { Some(XhciError::CommandTimeout) }
    else if code == 11 { Some(XhciError::CommandFailed) }
    else { None }
}

impl XhciError {
    pub fn as_str(self) -> (r: &'static str)
        ensures
            r@ == match self {
                XhciError::NoMmioBar => "missing MMIO BAR"@,
                XhciError::MmioMap => "MMIO map failed"@,
                XhciError::BadCapabilityLength => "bad capability length"@,
                XhciError::UnsupportedVersion => "unsupported xHCI version"@,
                XhciError::DmaAlloc => "DMA allocation failed"@,
                XhciError::HaltTimeout => "halt timeout"@,
                XhciError::ResetTimeout => "reset timeout"@,
                XhciError::NotReadyTimeout => "controller not ready timeout"@,
                XhciError::RunTimeout => "run timeout"@,
                XhciError::CommandTimeout => "command timeout"@,
                XhciError::CommandFailed => "command failed"@,
            },
    {
        match self {
            XhciError::NoMmioBar => "missing MMIO BAR",
            XhciError::MmioMap => "MMIO map failed",
            XhciError::BadCapabilityLength => "bad capability length",
            XhciError::UnsupportedVersion => "unsupported xHCI version",
            XhciError::DmaAlloc => "DMA allocation failed",
            XhciError::HaltTimeout => "halt timeout",
            XhciError::ResetTimeout => "reset timeout",
            XhciError::NotReadyTimeout => "controller not ready timeout",
            XhciError::RunTimeout => "run timeout",
            XhciError::CommandTimeout => "command timeout",
            XhciError::CommandFailed => "command failed",
        }
    }

    pub fn code(self) -> (r: usize)
        ensures
            r == xhci_code(self),
    {
        match self {
            XhciError::NoMmioBar => 1,
            XhciError::MmioMap => 2,
            XhciError::BadCapabilityLength => 3,
            XhciError::UnsupportedVersion => 4,
            XhciError::HaltTimeout => 5,
            XhciError::ResetTimeout => 6,
            XhciError::NotReadyTimeout => 7,
            XhciError::DmaAlloc => 8,
            XhciError::RunTimeout => 9,
            XhciError::CommandTimeout => 10,
            XhciError::CommandFailed => 11,
        }
    }

    pub fn from_code(code: usize) -> (r: Option<Self>)
        ensures
            r == xhci_from_code(code),
    {
        match code {
            1 => Some(XhciError::NoMmioBar),
            2 => Some(XhciError::MmioMap),
            3 => Some(XhciError::BadCapabilityLength),
            4 => Some(XhciError::UnsupportedVersion),
            5 => Some(XhciError::HaltTimeout),
            6 => Some(XhciError::ResetTimeout),
            7 => Some(XhciError::NotReadyTimeout),
            8 => Some(XhciError::DmaAlloc),
            9 => Some(XhciError::RunTimeout),
            10 => Some(XhciError::CommandTimeout),
            11 => Some(XhciError::CommandFailed),
            _ => None,
        }
    }
}

/// The code of an error reads back as the same error, and every code that
/// names an error is that error's code.
pub proof fn law_xhci_code_round_trip(e: XhciError, code: usize)
    ensures
        xhci_from_code(xhci_code(e)) == Some(e),
        xhci_from_code(code) matches Some(x) ==> xhci_code(x) == code,
        xhci_from_code(code) is None <==> (code == 0 || code > 11),
{
}

#[derive(Clone, Copy, Debug, PartialEq, Eq, Structural)]
pub struct XhciStatus {
    pub found: usize,
    pub initialized: usize,
    pub connected_ports: usize,
    pub last_error: Option<XhciError>,
}

/// The driver's status from its counters and the code of its last error.
pub fn status(found: usize, initialized: usize, connected_ports: usize, last_error_code: usize) -> (r: XhciStatus)
    ensures
        r == (XhciStatus { found, initialized, connected_ports, last_error: xhci_from_code(last_error_code) }),
{
    XhciStatus { found, initialized, connected_ports, last_error: XhciError::from_code(last_error_code) }
}

/// The interface version: a value below 0.90 read with its bytes swapped is
/// taken swapped when that makes it at least 0.90.
pub open spec fn hci_version(raw: u16) -> u16 {
    let swapped = (((raw & 0xff) << 8u16) | (raw >> 8u16)) as u16;
    if raw < 0x0090 && swapped >= 0x0090 { swapped } else { raw }
}

pub fn normalize_hci_version(raw: u16) -> (r: u16)
    ensures
        r == hci_version(raw),
{
    if raw < 0x0090 {
        let swapped = (((raw & 0xff) << 8u16) | (raw >> 8u16)) as u16;
        if swapped >= 0x0090 {
            return swapped;
        }
    }
    raw
}

/// Whether the capability length is sane (0x20..=0x100).
pub fn cap_length_ok(cap_length: usize) -> (r: bool)
    ensures
        r == (0x20 <= cap_length <= 0x100),
{
    !(cap_length < 0x20 || cap_length > 0x100)
}

/// How a BAR scan goes on from BAR `index` given its decoding and whether
/// its registers look like an xHCI controller: the address to use, or the
/// next BAR to try (a 64-bit BAR takes two slots).
pub fn mmio_bar_step(index: u8, bar: PciBar, looks_like_xhci: bool) -> (r: Result<u64, u8>)
    requires
        index < 6,
    ensures
        (bar matches PciBar::Memory64(a) && a != 0) ==> r == if looks_like_xhci { Ok::<u64, u8>(bar->Memory64_0) } else { Err::<u64, u8>((index + 2) as u8) },
        (bar matches PciBar::Memory32(a) && a != 0) ==> r == if looks_like_xhci { Ok::<u64, u8>(bar->Memory32_0 as u64) } else { Err::<u64, u8>((index + 1) as u8) },
        !(bar matches PciBar::Memory64(a) && a != 0) && !(bar matches PciBar::Memory32(a) && a != 0) ==> r == Err::<u64, u8>((index + 1) as u8),
{
    match bar {
        PciBar::Memory64(a) => {
            if a != 0 {
                if looks_like_xhci { Ok(a) } else { Err(index + 2) }
            } else {
                Err(index + 1)
            }
        },
        PciBar::Memory32(a) => {
            if a != 0 {
                if looks_like_xhci { Ok(a as u64) } else { Err(index + 1) }
            } else {
                Err(index + 1)
            }
        },
        _ => Err(index + 1),
    }
}

/// The port-status value that powers an unpowered port without
/// acknowledging its change bits; none when the port has power.
pub fn port_power_write(portsc: u32) -> (r: Option<u32>)
    ensures
        portsc & PORTSC_PORT_POWER == 0 ==> r == Some((portsc & !PORTSC_CHANGE_BITS) | PORTSC_PORT_POWER),
        portsc & PORTSC_PORT_POWER != 0 ==> r is None,
{
    if portsc & PORTSC_PORT_POWER == 0 {
        Some((portsc & !PORTSC_CHANGE_BITS) | PORTSC_PORT_POWER)
    } else {
        None
    }
}

/// Whether a device is connected to the port.
pub fn port_connected(portsc: u32) -> (r: bool)
    ensures
        r == (portsc & PORTSC_CURRENT_CONNECT_STATUS != 0),
{
    portsc & PORTSC_CURRENT_CONNECT_STATUS != 0
}

/// The ports to look at: the controller's count, at most 32.
pub fn ports_to_scan(max_ports: u8) -> (r: usize)
    ensures
        r == if max_ports < 32 { max_ports as usize } else { 32 },
{
    if max_ports < 32 { max_ports as usize } else { 32 }
}

} // verus!
