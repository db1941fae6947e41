//! Boot-protocol mouse reports from a USB HID mouse.
use vstd::prelude::*;
use crate::input::{MouseState, push_mouse_relative, relative_step};

verus! {

/// The motion of a boot report: buttons, the signed x and y steps (y grows
/// downwards on screen, so the report's y is negated), and the wheel when
/// the report has a fourth byte.
pub open spec fn boot_report(p: Seq<u8>) -> (i32, i32, u8, i32) {
    (p[1] as i8 as i32, -(p[2] as i8 as i32) as i32, p[0] & 7u8, if p.len() >= 4 { p[3] as i8 as i32 } else { 0i32 })
}

/// Feeds one boot-protocol report to the pointer; reports shorter than
/// three bytes are ignored.
pub fn handle_boot_mouse_packet(mouse: &mut MouseState, packet: &[u8])
    requires
        old(mouse).wf(),
    ensures
        final(mouse).wf(),
        packet@.len() < 3 ==> *final(mouse) == *old(mouse),
        packet@.len() >= 3 ==> ({
            let (dx, dy, buttons, wheel) = boot_report(packet@);
            relative_step(*old(mouse), *final(mouse), dx, dy, buttons, wheel)
        }),
{
    if packet.len() < 3 {
        return;
    }
    let buttons = packet[0] & 7u8;
    let dx = packet[1] as i8 as i32;
    let dy = -(packet[2] as i8 as i32);
    let wheel = if packet.len() >= 4 { packet[3] as i8 as i32 } else { 0 };
    push_mouse_relative(mouse, dx, dy, buttons, wheel);
}

} // verus!
