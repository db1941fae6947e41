//! Network controllers: which PCI devices are known NICs, and the counts
//! the driver reports.
use vstd::prelude::*;
use crate::drivers::pci::PciDevice;

verus! {

pub const PCI_CLASS_NETWORK: u8 = 0x02;
pub const VENDOR_INTEL: u16 = 0x8086;
pub const VENDOR_REALTEK: u16 = 0x10ec;
pub const VENDOR_REDHAT: u16 = 0x1af4;

#[derive(Clone, Copy, Debug, PartialEq, Eq, Structural)]
pub enum NicKind {
    E1000,
    Rtl8139,
    VirtioNet,
    Unknown,
}

#[derive(Clone, Copy)]
pub struct NicInfo {
    pub pci: PciDevice,
    pub kind: NicKind,
}

#[derive(Clone, Copy, Debug, PartialEq, Eq, Structural)]
pub struct NetSnapshot {
    pub total_nics: usize,
    pub supported_nics: usize,
    pub mmio_ready_nics: usize,
    pub mac_ready_nics: usize,
}

/// The kind of controller a vendor and device ID name.
pub open spec fn nic_kind(vendor: u16, device: u16) -> NicKind {
    if vendor == VENDOR_INTEL && (device == 0x100e || device == 0x100f || device == 0x10d3) {
        NicKind::E1000
    } else if vendor == VENDOR_REALTEK && device == 0x8139 {
        NicKind::Rtl8139
    } else if vendor == VENDOR_REDHAT && device == 0x1000 {
        NicKind::VirtioNet
    } else {
        NicKind::Unknown
    }
}

pub fn classify_nic(dev: PciDevice) -> (r: NicKind)
    ensures
        r == nic_kind(dev.vendor_id, dev.device_id),
{
    if dev.vendor_id == VENDOR_INTEL && (dev.device_id == 0x100e || dev.device_id == 0x100f || dev.device_id == 0x10d3) {
        NicKind::E1000
    } else if dev.vendor_id == VENDOR_REALTEK && dev.device_id == 0x8139 {
        NicKind::Rtl8139
    } else if dev.vendor_id == VENDOR_REDHAT && dev.device_id == 0x1000 {
        NicKind::VirtioNet
    } else {
        NicKind::Unknown
    }
}

/// The driver name a controller is registered under.
pub fn driver_name(kind: NicKind) -> (r: &'static str)
    ensures
        r@ == match kind {
            NicKind::E1000 => "e1000-discovery"@,
            NicKind::Rtl8139 => "rtl8139-discovery"@,
            NicKind::VirtioNet => "virtio-net-discovery"@,
            NicKind::Unknown => "net-discovery"@,
        },
{
    match kind {
        NicKind::E1000 => "e1000-discovery",
        NicKind::Rtl8139 => "rtl8139-discovery",
        NicKind::VirtioNet => "virtio-net-discovery",
        NicKind::Unknown => "net-discovery",
    }
}

/// The short name of a controller kind.
pub fn kind_name(kind: NicKind) -> (r: &'static str)
    ensures
        r@ == match kind {
            NicKind::E1000 => "e1000"@,
            NicKind::Rtl8139 => "rtl8139"@,
            NicKind::VirtioNet => "virtio-net"@,
            NicKind::Unknown => "unknown"@,
        },
{
    match kind {
        NicKind::E1000 => "e1000",
        NicKind::Rtl8139 => "rtl8139",
        NicKind::VirtioNet => "virtio-net",
        NicKind::Unknown => "unknown",
    }
}

/// Whether an e1000 status register read is plausible (neither all zeros
/// nor all ones).
pub fn e1000_status_valid(status: u32) -> (r: bool)
    ensures
        r == (status != 0 && status != 0xFFFF_FFFF),
{
    status != 0 && status != 0xFFFF_FFFF
}

/// Whether the receive-address registers hold a MAC: the valid bit is set
/// and the address is not all zero.
pub fn mac_valid(ral: u32, rah: u32) -> (r: bool)
    ensures
        r == ((rah & 0x8000_0000) != 0 && (ral != 0 || (rah & 0xFFFF) != 0)),
{
    (rah & 0x8000_0000) != 0 && (ral != 0 || (rah & 0xFFFF) != 0)
}

/// Counts one network controller: found, supported when its kind is
/// known, and with registers and a MAC as its probe found them.
pub fn count_nic(snap: NetSnapshot, kind: NicKind, mmio_ready: bool, mac_ready: bool) -> (r: NetSnapshot)
    requires
        snap.total_nics < usize::MAX,
        snap.supported_nics < usize::MAX,
        snap.mmio_ready_nics < usize::MAX,
        snap.mac_ready_nics < usize::MAX,
    ensures
        r == (NetSnapshot {
            total_nics: (snap.total_nics + 1) as usize,
            supported_nics: (snap.supported_nics + if kind != NicKind::Unknown { 1int } else { 0int }) as usize,
            mmio_ready_nics: (snap.mmio_ready_nics + if mmio_ready { 1int } else { 0int }) as usize,
            mac_ready_nics: (snap.mac_ready_nics + if mac_ready { 1int } else { 0int }) as usize,
        }),
{
    NetSnapshot {
        total_nics: snap.total_nics + 1,
        supported_nics: if kind != NicKind::Unknown { snap.supported_nics + 1 } else { snap.supported_nics },
        mmio_ready_nics: if mmio_ready { snap.mmio_ready_nics + 1 } else { snap.mmio_ready_nics },
        mac_ready_nics: if mac_ready { snap.mac_ready_nics + 1 } else { snap.mac_ready_nics },
    }
}

} // verus!
