//! PS/2 mouse packet assembly: bytes from the controller are gathered into
//! 3-byte (or, for a wheel mouse, 4-byte) packets and turned into motion
//! reports for the pointer state.
use vstd::prelude::*;
use crate::input::{MouseState, push_mouse_relative, axis_max, clamp_spec, sat_add_i32, after_report, MouseEvent};

verus! {

/// The packet being assembled.
pub struct PacketAssembler {
    pub packet: [u8; 4],
    pub index: usize,
    /// 3, or 4 when the device identified itself as a wheel mouse.
    pub packet_size: usize,
}

/// A byte taken as a two's-complement `i8`.
pub open spec fn signed8(b: u8) -> i32 {
    if b >= 128 { (b - 256) as i32 } else { b as i32 }
}

/// The wheel nibble of the fourth byte, sign-extended from four bits.
pub open spec fn wheel_of(b: u8) -> i32 {
    let raw = b % 16;
    if raw >= 8 { (raw - 16) as i32 } else { raw as i32 }
}

fn signed_byte(b: u8) -> (r: i32)
    ensures
        r == signed8(b),
{
    if b >= 128 {
        b as i32 - 256
    } else {
        b as i32
    }
}

impl PacketAssembler {
    pub open spec fn wf(&self) -> bool {
        &&& (self.packet_size == 3 || self.packet_size == 4)
        &&& self.index < self.packet_size
    }

    /// An assembler waiting for the first byte of a packet of `packet_size`
    /// bytes (3 unless the device reported wheel support).
    pub fn new(wheel: bool) -> (r: Self)
        ensures
            r.wf(),
            r.index == 0,
            r.packet_size == (if wheel { 4usize } else { 3usize }),
    {
        PacketAssembler { packet: [0u8; 4], index: 0, packet_size: if wheel { 4 } else { 3 } }
    }
}

/// The report a complete packet makes: motion `(dx, dy)` with y pointing
/// down the screen, buttons in the low three bits, and wheel motion.
pub open spec fn packet_report(p: Seq<u8>, size: usize) -> (i32, i32, u8, i32) {
    (signed8(p[1]), (-signed8(p[2])) as i32, (p[0] % 8) as u8, if size == 4 { wheel_of(p[3]) } else { 0 })
}

/// Feeds one byte from the controller. A first byte without the
/// always-one bit 3 is dropped to resynchronise; a completed packet is
/// reported to the pointer state.
pub fn push_packet_byte(pa: &mut PacketAssembler, mouse: &mut MouseState, byte: u8)
    requires
        old(pa).wf(),
        old(mouse).wf(),
    ensures
        final(pa).wf(),
        final(mouse).wf(),
        final(pa).packet_size == old(pa).packet_size,
        old(pa).index == 0 && byte & 0x08 == 0 ==> *final(pa) == *old(pa) && *final(mouse) == *old(mouse),
        !(old(pa).index == 0 && byte & 0x08 == 0) && old(pa).index + 1 < old(pa).packet_size ==> {
            &&& final(pa).index == old(pa).index + 1
            &&& final(pa).packet@ == old(pa).packet@.update(old(pa).index as int, byte)
            &&& *final(mouse) == *old(mouse)
        },
        !(old(pa).index == 0 && byte & 0x08 == 0) && old(pa).index + 1 == old(pa).packet_size ==> ({
            let p = old(pa).packet@.update(old(pa).index as int, byte);
            let rep = packet_report(p, old(pa).packet_size);
            let x = clamp_spec(sat_add_i32(old(mouse).x, rep.0), old(mouse).max_x);
            let y = clamp_spec(sat_add_i32(old(mouse).y, rep.1), old(mouse).max_y);
            let ev = MouseEvent { x, y, dx: rep.0, dy: rep.1, buttons: rep.2, wheel: rep.3, absolute: false };
            &&& final(pa).index == 0
            &&& *final(mouse) == (MouseState { events: final(mouse).events, read: final(mouse).read, write: final(mouse).write, ..after_report(*old(mouse), x, y, rep.2, rep.3) })
            &&& old(mouse).pending().len() < 63 ==> final(mouse).pending() == old(mouse).pending().push(ev)
            &&& old(mouse).pending().len() >= 63 ==> final(mouse).pending() == old(mouse).pending().drop_first().push(ev)
        }),
{
    if pa.index == 0 && (byte & 0x08) == 0 {
        return;
    }
    let i = pa.index;
    pa.packet[i] = byte;
    pa.index = i + 1;
    if pa.index == pa.packet_size {
        let dx = signed_byte(pa.packet[1]);
        let dy = -signed_byte(pa.packet[2]);
        let mut wheel: i32 = 0;
        if pa.packet_size == 4 {
            let p3 = pa.packet[3];
            let raw = p3 & 0x0F;
            assert(raw == p3 % 16) by (bit_vector)
                requires raw == p3 & 0x0F;
            wheel = if raw >= 8 { raw as i32 - 16 } else { raw as i32 };
        }
        let b0 = pa.packet[0];
        let buttons = b0 & 0x07;
        assert(buttons == b0 % 8) by (bit_vector)
            requires buttons == b0 & 0x07;
        push_mouse_relative(mouse, dx, dy, buttons, wheel);
        pa.index = 0;
    }
}

/// Sets the screen the pointer moves on (see `input::set_mouse_bounds`).
pub fn set_bounds(m: &mut MouseState, width: usize, height: usize)
    ensures
        final(m).max_x == axis_max(width),
        final(m).max_y == axis_max(height),
        final(m).x == clamp_spec(old(m).x, axis_max(width)),
        final(m).y == clamp_spec(old(m).y, axis_max(height)),
        *final(m) == (MouseState { x: final(m).x, y: final(m).y, max_x: final(m).max_x, max_y: final(m).max_y, ..*old(m) }),
{
    crate::input::set_mouse_bounds(m, width, height)
}

/// Moves the pointer to `(x, y)`, clamped to the screen.
pub fn set_position(m: &mut MouseState, x: i32, y: i32)
    ensures
        *final(m) == (MouseState { x: clamp_spec(x, old(m).max_x), y: clamp_spec(y, old(m).max_y), ..*old(m) }),
{
    crate::input::set_mouse_position(m, x, y)
}

pub fn get_position(m: &MouseState) -> (r: (i32, i32))
    ensures
        r == (m.x, m.y),
{
    crate::input::mouse_position(m)
}

pub fn get_buttons(m: &MouseState) -> (r: u8)
    ensures
        r == m.buttons,
{
    crate::input::mouse_buttons(m)
}

pub fn take_scroll_delta(m: &mut MouseState) -> (r: i32)
    ensures
        r == old(m).wheel_delta,
        *final(m) == (MouseState { wheel_delta: 0, ..*old(m) }),
{
    crate::input::take_mouse_scroll_delta(m)
}

} // verus!
