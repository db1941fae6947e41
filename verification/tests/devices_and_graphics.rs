use lib::drivers::ahci::{self, command_fis, header_flags, identify_capacity, transfer_command, AhciError};
use lib::drivers::block::BlockError;
use lib::drivers::net::{classify_nic, count_nic, driver_name, kind_name, mac_valid, NetSnapshot, NicKind};
use lib::drivers::pci::{
    bar_needs_high, bar_offset, bar_size32, bar_size64, bar_size_mask, cap_scan_result, cap_scan_start, cap_scan_step,
    config_address, decode_bar, decode_device, empty_snapshot, function_count, mmio_bus_master_command, snapshot_add,
    with_command, PciBar, PciCapabilities, PciDevice,
};
use lib::drivers::registry::{class_name, dev_node_path, DeviceClass, DeviceRegistry};
use lib::drivers::usb::xhci::{self, mmio_bar_step, normalize_hci_version, port_power_write, XhciError};
use lib::gui::renderer::{glyph_5x8, BackBuffer, DamageTracker, Framebuffer, Rect};

fn caps() -> PciCapabilities {
    PciCapabilities { first_pointer: 0, count: 0, has_msi: false, has_msix: false }
}

fn device(class_code: u8, subclass: u8, vendor_id: u16, device_id: u16) -> PciDevice {
    PciDevice {
        bus: 0,
        device: 3,
        function: 0,
        vendor_id,
        device_id,
        class_code,
        subclass,
        prog_if: 0,
        header_type: 0,
        interrupt_line: 11,
        interrupt_pin: 1,
        capabilities: caps(),
    }
}

#[test]
fn pci_config_address_layout() {
    assert_eq!(config_address(1, 2, 3, 0x13), 0x8001_1310);
    assert_eq!(bar_offset(5), Some(0x24));
    assert_eq!(bar_offset(6), None);
}

#[test]
fn pci_bar_decoding() {
    assert_eq!(decode_bar(0, 0, 0), PciBar::Empty);
    assert_eq!(decode_bar(0xc001, 0, 0), PciBar::Io(0xc000));
    assert_eq!(decode_bar(0xfebf_0008, 1, 0), PciBar::Memory32(0xfebf_0000));
    assert!(bar_needs_high(0xfe00_000c, 0));
    assert_eq!(decode_bar(0xfe00_000c, 0, 0x1), PciBar::Memory64(0x1_fe00_0000));
    assert!(!bar_needs_high(0xfe00_000c, 5));
    assert_eq!(decode_bar(0xfe00_000c, 5, 0x1), PciBar::Memory32(0xfe00_0000));
}

#[test]
fn pci_bar_sizes() {
    assert_eq!(bar_size32(0xffff_f000, 0xffff_fff0), 0x1000);
    assert_eq!(bar_size32(0, 0xffff_fff0), 0);
    assert_eq!(bar_size64(0xfff0_0004, 0xffff_ffff), 0x10_0000);
    assert_eq!(bar_size_mask(PciBar::Io(0x10)), Some(0xffff_fffc));
    assert_eq!(bar_size_mask(PciBar::Memory64(0x10)), None);
}

#[test]
fn pci_command_register() {
    assert_eq!(with_command(0x0010_0007, 0x0002), 0x0010_0002);
    assert_eq!(mmio_bus_master_command(0x0001), 0x0007);
    assert_eq!(function_count(0x0080_0000), 8);
    assert_eq!(function_count(0x0000_0000), 1);
}

#[test]
fn pci_device_records() {
    assert!(decode_device(0, 1, 0, 0xffff_ffff, 0, 0, 0, caps()).is_none());
    let d = decode_device(0, 1, 0, 0x100e_8086, 0x0200_0003, 0x0000_0000, 0x0000_010b, caps()).unwrap();
    assert_eq!(d.vendor_id, 0x8086);
    assert_eq!(d.device_id, 0x100e);
    assert_eq!(d.class_code, 0x02);
    assert_eq!(d.subclass, 0x00);
    assert_eq!(d.interrupt_line, 0x0b);
    assert_eq!(d.interrupt_pin, 1);
}

#[test]
fn pci_capability_walk() {
    let s = cap_scan_start(0x0010_0000, 0x50);
    assert!(!s.done);
    let s = cap_scan_step(s, 0x0000_6005);
    assert!(s.has_msi && !s.done && s.pointer == 0x60);
    let s = cap_scan_step(s, 0x0000_0011);
    assert!(s.done && s.has_msix);
    let c = cap_scan_result(s);
    assert_eq!(c, PciCapabilities { first_pointer: 0x50, count: 2, has_msi: true, has_msix: true });
    let none = cap_scan_start(0, 0x50);
    assert!(none.done);
    assert_eq!(cap_scan_result(none), caps());
}

#[test]
fn pci_snapshot_counts() {
    let mut snap = empty_snapshot();
    snapshot_add(&mut snap, device(0x0c, 0x03, 0x8086, 1));
    snapshot_add(&mut snap, device(0x02, 0x00, 0x8086, 0x100e));
    assert_eq!(snap.total_devices, 2);
    assert_eq!(snap.stored_devices, 2);
    assert_eq!(snap.usb_controllers, 1);
    assert_eq!(snap.network_controllers, 1);
    for _ in 0..70 {
        snapshot_add(&mut snap, device(0x01, 0x06, 1, 1));
    }
    assert_eq!(snap.total_devices, 72);
    assert_eq!(snap.stored_devices, 64);
}

#[test]
fn ahci_errors_and_status() {
    assert_eq!(AhciError::TaskFile.as_str(), "ATA task-file error");
    assert_eq!(AhciError::UnsupportedLba48.code(), 15);
    assert_eq!(AhciError::from_code(AhciError::DmaAddress.code()), Some(AhciError::DmaAddress));
    assert_eq!(AhciError::from_code(0), None);
    let st = ahci::status(1, 1, 2, 9);
    assert_eq!(st.last_error, Some(AhciError::CommandTimeout));
    assert_eq!(header_flags(true), 0x45);
    assert_eq!(header_flags(false), 5);
}

#[test]
fn ahci_command_frame() {
    let f = command_fis(0x25, 0x0102_0304_0506, true);
    assert_eq!(f, vec![0x27, 0x80, 0x25, 0, 0x06, 0x05, 0x04, 0x40, 0x03, 0x02, 0x01, 0, 1, 0, 0, 0, 0, 0, 0, 0]);
    assert_eq!(transfer_command(100, Some(10), 0, false), Err(BlockError::BufferTooSmall));
    assert_eq!(transfer_command(512, None, 0, false), Err(BlockError::NotFound));
    assert_eq!(transfer_command(512, Some(10), 10, false), Err(BlockError::OutOfRange));
    assert_eq!(transfer_command(512, Some(10), 9, true), Ok(0x35));
}

#[test]
fn ahci_identify_data() {
    let mut data = vec![0u8; 512];
    data[83 * 2 + 1] = 0x04;
    data[100 * 2] = 0x00;
    data[100 * 2 + 1] = 0x10;
    assert_eq!(identify_capacity(&data), Ok(0x1000));
    let mut no48 = data.clone();
    no48[83 * 2 + 1] = 0;
    assert_eq!(identify_capacity(&no48), Err(AhciError::UnsupportedLba48));
    let mut big = data.clone();
    big[106 * 2 + 1] = 0x50;
    big[117 * 2 + 1] = 0x04;
    assert_eq!(identify_capacity(&big), Err(AhciError::UnsupportedSectorSize));
    let mut empty = data.clone();
    empty[100 * 2 + 1] = 0;
    assert_eq!(identify_capacity(&empty), Err(AhciError::NoCapacity));
}

#[test]
fn xhci_decisions() {
    assert_eq!(XhciError::from_code(XhciError::RunTimeout.code()), Some(XhciError::RunTimeout));
    assert_eq!(XhciError::CommandFailed.as_str(), "command failed");
    assert_eq!(xhci::status(1, 0, 0, 12).last_error, None);
    assert_eq!(normalize_hci_version(0x0100), 0x0100);
    assert_eq!(normalize_hci_version(0x1000), 0x1000);
    assert_eq!(normalize_hci_version(0x0010), 0x1000);
    assert_eq!(normalize_hci_version(0x0001), 0x0100);
    assert_eq!(mmio_bar_step(0, PciBar::Memory64(0xfe00_0000), false), Err(2));
    assert_eq!(mmio_bar_step(2, PciBar::Memory32(0xfe00_0000), true), Ok(0xfe00_0000));
    assert_eq!(mmio_bar_step(3, PciBar::Io(0x10), true), Err(4));
    assert_eq!(port_power_write(0x0002_0000), Some(0x0000_0200));
    assert_eq!(port_power_write(0x200), None);
}

#[test]
fn network_controllers() {
    assert_eq!(classify_nic(device(2, 0, 0x8086, 0x10d3)), NicKind::E1000);
    assert_eq!(classify_nic(device(2, 0, 0x10ec, 0x8139)), NicKind::Rtl8139);
    assert_eq!(classify_nic(device(2, 0, 0x1af4, 0x1000)), NicKind::VirtioNet);
    assert_eq!(classify_nic(device(2, 0, 0x1234, 0x1000)), NicKind::Unknown);
    assert_eq!(driver_name(NicKind::VirtioNet), "virtio-net-discovery");
    assert_eq!(kind_name(NicKind::Unknown), "unknown");
    assert!(mac_valid(0x1234, 0x8000_0000));
    assert!(!mac_valid(0, 0x8000_0000));
    let s = NetSnapshot { total_nics: 0, supported_nics: 0, mmio_ready_nics: 0, mac_ready_nics: 0 };
    let s = count_nic(s, NicKind::E1000, true, false);
    assert_eq!(s, NetSnapshot { total_nics: 1, supported_nics: 1, mmio_ready_nics: 1, mac_ready_nics: 0 });
}

#[test]
fn device_registry() {
    let mut reg = DeviceRegistry::new();
    reg.register("fb0", DeviceClass::Framebuffer, "limine-fb");
    reg.register("kbd", DeviceClass::Input, "ps2");
    reg.register("fb0", DeviceClass::Other, "gop");
    let mut out = [None; 4];
    let n = reg.snapshot(&mut out);
    assert_eq!(n, 2);
    let first = out[0].unwrap();
    assert_eq!(first.name, "fb0");
    assert_eq!(first.driver, "gop");
    assert_eq!(class_name(DeviceClass::UsbController), "usb-controller");
    assert_eq!(dev_node_path("net0"), Some(b"/dev/net0".to_vec()));
    for i in 0..40 {
        let name: &'static str = Box::leak(format!("d{}", i).into_boxed_str());
        reg.register(name, DeviceClass::Block, "x");
    }
    assert_eq!(reg.devices.len(), 32);
}

#[test]
fn rectangles() {
    let r = Rect::new(10, 20, 30, 40);
    assert_eq!(r.right(), 40);
    assert_eq!(r.bottom(), 60);
    assert_eq!(r.clipped(25, 100), Some(Rect::new(10, 20, 15, 40)));
    assert_eq!(r.clipped(5, 100), None);
    assert_eq!(r.union(Rect::new(0, 0, 5, 5)), Rect::new(0, 0, 40, 60));
    assert_eq!(Rect::new(usize::MAX - 1, 0, 10, 1).right(), usize::MAX);
}

#[test]
fn framebuffer_drawing() {
    let mut fb = Framebuffer::new(8, 4, 40).unwrap();
    assert_eq!(fb.pitch_pixels, 10);
    fb.fill_rect(Rect::new(6, 2, 10, 10), 7);
    assert_eq!(fb.read_pixel(6, 2), 7);
    assert_eq!(fb.read_pixel(7, 3), 7);
    assert_eq!(fb.read_pixel(5, 3), 0);
    assert_eq!(fb.pixels[3 * 10 + 8], 0);
    fb.put_pixel(100, 0, 9);
    assert_eq!(fb.read_pixel(100, 0), 0);
    let mut fb = Framebuffer::new(4, 4, 16).unwrap();
    fb.stroke_rect(Rect::new(0, 0, 4, 4), 1);
    assert_eq!(fb.read_pixel(0, 0), 1);
    assert_eq!(fb.read_pixel(3, 3), 1);
    assert_eq!(fb.read_pixel(1, 1), 0);
    assert!(Framebuffer::new(8, 4, 16).is_none());
}

#[test]
fn glyphs_and_text() {
    assert_eq!(glyph_5x8(b'A'), [0x7C, 0x12, 0x11, 0x12, 0x7C]);
    assert_eq!(glyph_5x8(b'#'), [0, 0, 0, 0, 0]);
    let mut fb = Framebuffer::new(16, 8, 64).unwrap();
    fb.draw_text(0, 0, "I-", 5);
    assert_eq!(fb.read_pixel(2, 0), 5);
    assert_eq!(fb.read_pixel(0, 0), 0);
    assert_eq!(fb.read_pixel(6, 3), 5);
    assert_eq!(fb.read_pixel(6, 2), 0);
}

#[test]
fn back_buffer_presentation() {
    assert!(BackBuffer::init(0, 10).is_none());
    assert!(BackBuffer::init(1921, 10).is_none());
    let mut bb = BackBuffer::init(4, 2).unwrap();
    bb.canvas().fill_rect(Rect::new(0, 0, 2, 1), 3);
    let mut front = Framebuffer::new(4, 2, 16).unwrap();
    bb.present_rect(&mut front, Rect::new(1, 0, 5, 5));
    assert_eq!(front.read_pixel(1, 0), 3);
    assert_eq!(front.read_pixel(0, 0), 0);
    bb.present_full(&mut front);
    assert_eq!(front.read_pixel(0, 0), 3);
}

#[test]
fn damage_tracking() {
    let mut d = DamageTracker::new();
    assert!(d.is_empty());
    d.mark(Rect::new(0, 0, 0, 5));
    assert!(d.is_empty());
    for i in 0..16 {
        d.mark(Rect::new(i, 0, 1, 1));
    }
    assert_eq!(d.rects().len(), 16);
    assert!(!d.overflowed());
    d.mark(Rect::new(100, 100, 2, 2));
    assert!(d.overflowed());
    assert_eq!(d.rects(), &[Rect::new(0, 0, 102, 102)]);
    d.clear();
    assert!(d.is_empty() && !d.overflowed());
}
