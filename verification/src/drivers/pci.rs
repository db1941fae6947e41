//! PCI configuration space: addresses, device records, base address
//! registers, capability lists and the bus summary, decoded from the raw
//! configuration dwords that port I/O returns.
use vstd::prelude::*;

verus! {

pub const INVALID_VENDOR: u16 = 0xFFFF;
pub const MAX_SNAPSHOT_DEVICES: usize = 64;
pub const PCI_STATUS_CAPABILITIES: u16 = 16;
pub const CAP_ID_MSI: u8 = 0x05;
pub const CAP_ID_MSIX: u8 = 0x11;
pub const COMMAND_IO_SPACE: u16 = 1;
pub const COMMAND_MEMORY_SPACE: u16 = 2;
pub const COMMAND_BUS_MASTER: u16 = 4;

#[derive(Clone, Copy, Debug, PartialEq, Eq, Structural)]
pub struct PciCapabilities {
    pub first_pointer: u8,
    pub count: u8,
    pub has_msi: bool,
    pub has_msix: bool,
}

#[derive(Clone, Copy, Debug, PartialEq, Eq, Structural)]
pub struct PciDevice {
    pub bus: u8,
    pub device: u8,
    pub function: u8,
    pub vendor_id: u16,
    pub device_id: u16,
    pub class_code: u8,
    pub subclass: u8,
    pub prog_if: u8,
    pub header_type: u8,
    pub interrupt_line: u8,
    pub interrupt_pin: u8,
    pub capabilities: PciCapabilities,
}

#[derive(Clone, Copy, Debug, PartialEq, Eq, Structural)]
pub enum PciBar {
    Empty,
    Io(u32),
    Memory32(u32),
    Memory64(u64),
}

#[derive(Clone, Copy, Debug, PartialEq, Eq, Structural)]
pub struct PciBarInfo {
    pub bar: PciBar,
    pub size: u64,
}

/// The dword written to the configuration address port for a register.
pub fn config_address(bus: u8, device: u8, function: u8, offset: u8) -> (r: u32)
    ensures
        r == 0x8000_0000u32 | ((bus as u32) << 16u32) | ((device as u32) << 11u32) | ((function as u32) << 8u32) | ((offset as u32) & 0xFCu32),
{
    0x8000_0000u32 | ((bus as u32) << 16u32) | ((device as u32) << 11u32) | ((function as u32) << 8u32) | ((offset as u32) & 0xFCu32)
}

/// The configuration offset of base address register `index`; there are six.
pub fn bar_offset(index: u8) -> (r: Option<u8>)
    ensures
        index >= 6 ==> r is None,
        index < 6 ==> r == Some((0x10 + index * 4) as u8),
{
    if index >= 6 { None } else { Some(0x10 + index * 4) }
}

/// Whether the next register holds the high half: a 64-bit memory BAR
/// that is not the last one.
pub fn bar_needs_high(raw: u32, index: u8) -> (r: bool)
    ensures
        r == (raw != 0 && raw & 1 == 0 && raw & 6 == 4 && index < 5),
{
    raw != 0 && raw & 1 == 0 && raw & 6 == 4 && index < 5
}

/// Decodes base address register `index` from its raw value and, for a
/// 64-bit BAR, the raw value of the next register.
pub fn decode_bar(raw: u32, index: u8, high: u32) -> (r: PciBar)
    ensures
        raw == 0 ==> r == PciBar::Empty,
        raw != 0 && raw & 1 != 0 ==> r == PciBar::Io(raw & !3u32),
        raw != 0 && raw & 1 == 0 && raw & 6 == 4 && index < 5 ==> r == PciBar::Memory64(((high as u64) << 32u64) | ((raw & !0xFu32) as u64)),
        raw != 0 && raw & 1 == 0 && !(raw & 6 == 4 && index < 5) ==> r == PciBar::Memory32(raw & !0xFu32),
{
    if raw == 0 {
        return PciBar::Empty;
    }
    if raw & 1 != 0 {
        return PciBar::Io(raw & !3u32);
    }
    if raw & 6 == 4 && index < 5 {
        PciBar::Memory64(((high as u64) << 32u64) | ((raw & !0xFu32) as u64))
    } else {
        PciBar::Memory32(raw & !0xFu32)
    }
}

/// The size of a 32-bit BAR from what it reads back after all ones were
/// written, under `mask`: the two's complement of the masked value.
pub fn bar_size32(probe: u32, mask: u32) -> (r: u32)
    ensures
        probe & mask == 0 ==> r == 0,
        probe & mask != 0 ==> r == (!(probe & mask)).wrapping_add(1),
{
    let masked = probe & mask;
    if masked == 0 { 0 } else { (!masked).wrapping_add(1) }
}

/// The size of a 64-bit BAR from its two halves read back after all ones
/// were written.
pub fn bar_size64(probe_low: u32, probe_high: u32) -> (r: u64)
    ensures
        ({
            let masked = ((probe_high as u64) << 32u64) | ((probe_low & 0xFFFF_FFF0u32) as u64);
            &&& masked == 0 ==> r == 0
            &&& masked != 0 ==> r == (!masked).wrapping_add(1)
        }),
{
    let masked = ((probe_high as u64) << 32u64) | ((probe_low & 0xFFFF_FFF0u32) as u64);
    if masked == 0 { 0 } else { (!masked).wrapping_add(1) }
}

/// Which mask sizes a BAR of this kind, if it is sized at all: I/O and
/// 32-bit memory BARs by one register; a 64-bit BAR needs both halves and is
/// sized only below the last register.
pub fn bar_size_mask(bar: PciBar) -> (r: Option<u32>)
    ensures
        bar is Io ==> r == Some(0xFFFF_FFFCu32),
        bar is Memory32 ==> r == Some(0xFFFF_FFF0u32),
        bar is Empty || bar is Memory64 ==> r is None,
{
    match bar {
        PciBar::Io(_) => Some(0xFFFF_FFFCu32),
        PciBar::Memory32(_) => Some(0xFFFF_FFF0u32),
        _ => None,
    }
}

/// The command register in a command/status dword.
pub fn command_of(dword: u32) -> (r: u16)
    ensures
        r == (dword & 0xFFFF) as u16,
{
    (dword & 0xFFFF) as u16
}

/// The command/status dword with the command replaced by `value`.
pub fn with_command(current: u32, value: u16) -> (r: u32)
    ensures
        r == (current & 0xFFFF_0000u32) | value as u32,
{
    (current & 0xFFFF_0000u32) | value as u32
}

/// The command with memory decoding and bus mastering switched on.
pub fn mmio_bus_master_command(cmd: u16) -> (r: u16)
    ensures
        r == cmd | COMMAND_MEMORY_SPACE | COMMAND_BUS_MASTER,
{
    cmd | COMMAND_MEMORY_SPACE | COMMAND_BUS_MASTER
}

/// The command with I/O decoding and bus mastering switched on.
pub fn io_bus_master_command(cmd: u16) -> (r: u16)
    ensures
        r == cmd | COMMAND_IO_SPACE | COMMAND_BUS_MASTER,
{
    cmd | COMMAND_IO_SPACE | COMMAND_BUS_MASTER
}

/// Whether the header type register marks a multi-function device, and so
/// how many functions to probe.
pub fn function_count(header: u32) -> (r: u8)
    ensures
        r == if (header >> 16u32) & 0x80 != 0 { 8u8 } else { 1u8 },
{
    if (header >> 16u32) & 0x80 != 0 { 8 } else { 1 }
}

/// The vendor in an identification dword.
pub fn vendor_of(ids: u32) -> (r: u16)
    ensures
        r == (ids & 0xFFFF) as u16,
{
    (ids & 0xFFFF) as u16
}

/// A device record from its identification, class, header and interrupt
/// dwords and its capability summary; none for an empty slot.
pub fn decode_device(bus: u8, device: u8, function: u8, ids: u32, class: u32, header: u32, irq: u32, caps: PciCapabilities) -> (r: Option<PciDevice>)
    ensures
        (ids & 0xFFFF) as u16 == INVALID_VENDOR ==> r is None,
        (ids & 0xFFFF) as u16 != INVALID_VENDOR ==> r == Some(PciDevice {
            bus, device, function,
            vendor_id: (ids & 0xFFFF) as u16,
            device_id: ((ids >> 16u32) & 0xFFFF) as u16,
            class_code: ((class >> 24u32) & 0xFF) as u8,
            subclass: ((class >> 16u32) & 0xFF) as u8,
            prog_if: ((class >> 8u32) & 0xFF) as u8,
            header_type: ((header >> 16u32) & 0xFF) as u8,
            interrupt_line: (irq & 0xFF) as u8,
            interrupt_pin: ((irq >> 8u32) & 0xFF) as u8,
            capabilities: caps,
        }),
{
    let vendor_id = (ids & 0xFFFF) as u16;
    if vendor_id == INVALID_VENDOR {
        return None;
    }
    Some(PciDevice {
        bus,
        device,
        function,
        vendor_id,
        device_id: ((ids >> 16u32) & 0xFFFF) as u16,
        class_code: ((class >> 24u32) & 0xFF) as u8,
        subclass: ((class >> 16u32) & 0xFF) as u8,
        prog_if: ((class >> 8u32) & 0xFF) as u8,
        header_type: ((header >> 16u32) & 0xFF) as u8,
        interrupt_line: (irq & 0xFF) as u8,
        interrupt_pin: ((irq >> 8u32) & 0xFF) as u8,
        capabilities: caps,
    })
}

/// Walking a device's capability list: where it started, where it is, how
/// many entries were seen, what was found, and whether the walk is over.
#[derive(Clone, Copy, Debug, PartialEq, Eq, Structural)]
pub struct CapScan {
    pub first_pointer: u8,
    pub pointer: u8,
    pub count: u8,
    pub has_msi: bool,
    pub has_msix: bool,
    pub done: bool,
}

/// Starts the walk from the status dword and the capability-pointer dword:
/// a device without the capability bit has an empty list.
pub fn cap_scan_start(status_dword: u32, pointer_dword: u32) -> (r: CapScan)
    ensures
        ((status_dword >> 16u32) & 0xFFFF) as u16 & PCI_STATUS_CAPABILITIES == 0 ==> r == (CapScan {
            first_pointer: 0, pointer: 0, count: 0, has_msi: false, has_msix: false, done: true }),
        ((status_dword >> 16u32) & 0xFFFF) as u16 & PCI_STATUS_CAPABILITIES != 0 ==> r == (CapScan {
            first_pointer: (pointer_dword & 0xFC) as u8, pointer: (pointer_dword & 0xFC) as u8, count: 0,
            has_msi: false, has_msix: false, done: ((pointer_dword & 0xFC) as u8) < 0x40 }),
{
    let status = ((status_dword >> 16u32) & 0xFFFF) as u16;
    if status & PCI_STATUS_CAPABILITIES == 0 {
        return CapScan { first_pointer: 0, pointer: 0, count: 0, has_msi: false, has_msix: false, done: true };
    }
    let first = (pointer_dword & 0xFC) as u8;
    CapScan { first_pointer: first, pointer: first, count: 0, has_msi: false, has_msix: false, done: first < 0x40 }
}

/// One entry of the list, read at `scan.pointer`: notes MSI and MSI-X,
/// and stops at a null or self-referencing link, below offset 0x40, or
/// after 48 entries.
pub fn cap_scan_step(scan: CapScan, cap: u32) -> (r: CapScan)
    requires
        !scan.done,
        scan.count < 48,
    ensures
        r.first_pointer == scan.first_pointer,
        r.count == scan.count + 1,
        r.has_msi == (scan.has_msi || (cap & 0xFF) as u8 == CAP_ID_MSI),
        r.has_msix == (scan.has_msix || ((cap & 0xFF) as u8 != CAP_ID_MSI && (cap & 0xFF) as u8 == CAP_ID_MSIX)),
        ({
            let next = ((cap >> 8u32) & 0xFC) as u8;
            if next == 0 || next == scan.pointer {
                r.done && r.pointer == scan.pointer
            } else {
                r.pointer == next && r.done == !(next >= 0x40 && r.count < 48)
            }
        }),
        r.done || r.count < 48,
{
    let id = (cap & 0xFF) as u8;
    let next = ((cap >> 8u32) & 0xFC) as u8;
    let mut has_msi = scan.has_msi;
    let mut has_msix = scan.has_msix;
    if id == CAP_ID_MSI {
        has_msi = true;
    } else if id == CAP_ID_MSIX {
        has_msix = true;
    }
    let count = scan.count + 1;
    if next == 0 || next == scan.pointer {
        return CapScan { first_pointer: scan.first_pointer, pointer: scan.pointer, count, has_msi, has_msix, done: true };
    }
    CapScan { first_pointer: scan.first_pointer, pointer: next, count, has_msi, has_msix, done: !(next >= 0x40 && count < 48) }
}

/// The capability summary a finished walk found.
pub fn cap_scan_result(scan: CapScan) -> (r: PciCapabilities)
    ensures
        r == (PciCapabilities { first_pointer: scan.first_pointer, count: scan.count, has_msi: scan.has_msi, has_msix: scan.has_msix }),
{
    PciCapabilities { first_pointer: scan.first_pointer, count: scan.count, has_msi: scan.has_msi, has_msix: scan.has_msix }
}

/// What a scan of the bus found: the first 64 devices and counts of all
/// devices, USB and network controllers, and MSI and MSI-X capable ones.
pub struct PciSnapshot {
    pub devices: Vec<Option<PciDevice>>,
    pub total_devices: usize,
    pub stored_devices: usize,
    pub usb_controllers: usize,
    pub network_controllers: usize,
    pub msi_devices: usize,
    pub msix_devices: usize,
}

pub open spec fn is_usb_controller(d: PciDevice) -> bool {
    d.class_code == 0x0C && d.subclass == 0x03
}

pub open spec fn is_network_controller(d: PciDevice) -> bool {
    d.class_code == 0x02
}

impl PciSnapshot {
    pub open spec fn wf(&self) -> bool {
        &&& self.devices@.len() == MAX_SNAPSHOT_DEVICES
        &&& self.stored_devices <= MAX_SNAPSHOT_DEVICES
        &&& self.stored_devices <= self.total_devices
        &&& forall|i: int| 0 <= i < self.stored_devices ==> (#[trigger] self.devices@[i]) is Some
    }

    /// The devices kept, in the order they were found.
    pub open spec fn stored(&self) -> Seq<PciDevice> {
        self.devices@.take(self.stored_devices as int).map_values(|d: Option<PciDevice>| d->0)
    }
}

/// A snapshot of an empty bus.
pub fn empty_snapshot() -> (r: PciSnapshot)
    ensures
        r.wf(),
        r.total_devices == 0 && r.stored_devices == 0 && r.usb_controllers == 0 && r.network_controllers == 0
            && r.msi_devices == 0 && r.msix_devices == 0,
{
    let mut devices: Vec<Option<PciDevice>> = Vec::new();
    let mut i: usize = 0;
    while i < MAX_SNAPSHOT_DEVICES
        invariant
            i <= MAX_SNAPSHOT_DEVICES,
            devices@.len() == i,
        decreases MAX_SNAPSHOT_DEVICES - i,
    {
        devices.push(None);
        i = i + 1;
    }
    PciSnapshot {
        devices,
        total_devices: 0,
        stored_devices: 0,
        usb_controllers: 0,
        network_controllers: 0,
        msi_devices: 0,
        msix_devices: 0,
    }
}

/// Counts one more device found on the bus, keeping it while there is room.
pub fn snapshot_add(snap: &mut PciSnapshot, dev: PciDevice)
    requires
        old(snap).wf(),
        old(snap).total_devices < usize::MAX,
        old(snap).usb_controllers < usize::MAX,
        old(snap).network_controllers < usize::MAX,
        old(snap).msi_devices < usize::MAX,
        old(snap).msix_devices < usize::MAX,
    ensures
        final(snap).wf(),
        final(snap).total_devices == old(snap).total_devices + 1,
        old(snap).stored_devices < MAX_SNAPSHOT_DEVICES ==> final(snap).stored() == old(snap).stored().push(dev),
        old(snap).stored_devices >= MAX_SNAPSHOT_DEVICES ==> final(snap).stored() == old(snap).stored(),
        final(snap).usb_controllers == old(snap).usb_controllers + if is_usb_controller(dev) { 1int } else { 0int },
        final(snap).network_controllers == old(snap).network_controllers + if is_network_controller(dev) { 1int } else { 0int },
        final(snap).msi_devices == old(snap).msi_devices + if dev.capabilities.has_msi { 1int } else { 0int },
        final(snap).msix_devices == old(snap).msix_devices + if dev.capabilities.has_msix { 1int } else { 0int },
{
    if snap.stored_devices < MAX_SNAPSHOT_DEVICES {
        let k = snap.stored_devices;
        snap.devices.set(k, Some(dev));
        snap.stored_devices = k + 1;
        proof {
            assert(snap.stored() =~= old(snap).stored().push(dev));
        }
    }
    snap.total_devices = snap.total_devices + 1;
    if dev.class_code == 0x0C && dev.subclass == 0x03 {
        snap.usb_controllers = snap.usb_controllers + 1;
    }
    if dev.class_code == 0x02 {
        snap.network_controllers = snap.network_controllers + 1;
    }
    if dev.capabilities.has_msi {
        snap.msi_devices = snap.msi_devices + 1;
    }
    if dev.capabilities.has_msix {
        snap.msix_devices = snap.msix_devices + 1;
    }
}

} // verus!
