//! Pointer state shared by the mouse drivers: the clamped cursor position,
//! buttons, accumulated wheel motion and a bounded ring of motion events.
use vstd::prelude::*;

verus! {

/// Capacity of the event ring; when it is full the oldest event is dropped.
pub const MOUSE_EVENT_QUEUE_LEN: usize = 64;

/// One pointer report as seen by consumers.
#[derive(Clone, Copy, PartialEq, Eq, Structural)]
pub struct MouseEvent {
    pub x: i32,
    pub y: i32,
    pub dx: i32,
    pub dy: i32,
    pub buttons: u8,
    pub wheel: i32,
    pub absolute: bool,
}

impl MouseEvent {
    pub fn empty() -> (r: Self)
        ensures
            r == (MouseEvent { x: 0, y: 0, dx: 0, dy: 0, buttons: 0, wheel: 0, absolute: false }),
    {
        MouseEvent { x: 0, y: 0, dx: 0, dy: 0, buttons: 0, wheel: 0, absolute: false }
    }
}

/// The pointer: position inside `[0, max_x] x [0, max_y]`, buttons, wheel
/// motion not yet taken, and the event ring.
pub struct MouseState {
    pub x: i32,
    pub y: i32,
    pub max_x: i32,
    pub max_y: i32,
    pub buttons: u8,
    pub wheel_delta: i32,
    pub events: [MouseEvent; 64],
    pub read: usize,
    pub write: usize,
}

/// `v` clamped to `[0, max]` (upper bound last, as `max(0).min(max)` does).
pub open spec fn clamp_spec(v: i32, max: i32) -> i32 {
    let lo = if v < 0 { 0 } else { v };
    if lo > max { max } else { lo }
}

/// `a + b` saturating at the `i32` bounds.
pub open spec fn sat_add_i32(a: i32, b: i32) -> i32 {
    if a + b > i32::MAX { i32::MAX } else if a + b < i32::MIN { i32::MIN } else { (a + b) as i32 }
}

/// `a - b` saturating at the `i32` bounds.
pub open spec fn sat_sub_i32(a: i32, b: i32) -> i32 {
    if a - b > i32::MAX { i32::MAX } else if a - b < i32::MIN { i32::MIN } else { (a - b) as i32 }
}

/// `a + b` wrapping at the `i32` bounds.
pub open spec fn wrap_add_i32(a: i32, b: i32) -> i32 {
    if a + b > i32::MAX {
        (a + b - 0x1_0000_0000) as i32
    } else if a + b < i32::MIN {
        (a + b + 0x1_0000_0000) as i32
    } else {
        (a + b) as i32
    }
}

fn saturating_add_i32(a: i32, b: i32) -> (r: i32)
    ensures
        r == sat_add_i32(a, b),
{
    let s = a as i64 + b as i64;
    if s > i32::MAX as i64 {
        i32::MAX
    } else if s < i32::MIN as i64 {
        i32::MIN
    } else {
        s as i32
    }
}

fn saturating_sub_i32(a: i32, b: i32) -> (r: i32)
    ensures
        r == sat_sub_i32(a, b),
{
    let s = a as i64 - b as i64;
    if s > i32::MAX as i64 {
        i32::MAX
    } else if s < i32::MIN as i64 {
        i32::MIN
    } else {
        s as i32
    }
}

fn wrapping_add_i32(a: i32, b: i32) -> (r: i32)
    ensures
        r == wrap_add_i32(a, b),
{
    let s = a as i64 + b as i64;
    if s > i32::MAX as i64 {
        (s - 0x1_0000_0000) as i32
    } else if s < i32::MIN as i64 {
        (s + 0x1_0000_0000) as i32
    } else {
        s as i32
    }
}

impl MouseState {
    pub open spec fn wf(&self) -> bool {
        &&& self.read < 64
        &&& self.write < 64
    }

    /// Events waiting to be taken, oldest first.
    pub open spec fn pending(&self) -> Seq<MouseEvent> {
        Seq::new(((self.write - self.read + 64) % 64) as nat, |i: int| self.events@[(self.read + i) % 64])
    }

    /// The pointer at the centre of a 1024x768 screen, with no event.
    pub fn new() -> (m: Self)
        ensures
            m.wf(),
            m.x == 512 && m.y == 384 && m.max_x == 1023 && m.max_y == 767,
            m.buttons == 0 && m.wheel_delta == 0,
            m.pending().len() == 0,
    {
        MouseState {
            x: 512,
            y: 384,
            max_x: 1023,
            max_y: 767,
            buttons: 0,
            wheel_delta: 0,
            events: [MouseEvent::empty(); 64],
            read: 0,
            write: 0,
        }
    }
}

/// Clamps a point into the current bounds.
pub fn clamp_mouse_xy(m: &MouseState, x: i32, y: i32) -> (r: (i32, i32))
    ensures
        r == (clamp_spec(x, m.max_x), clamp_spec(y, m.max_y)),
{
    let cx = if x < 0 { 0 } else { x };
    let cx = if cx > m.max_x { m.max_x } else { cx };
    let cy = if y < 0 { 0 } else { y };
    let cy = if cy > m.max_y { m.max_y } else { cy };
    (cx, cy)
}

/// Pulls the cursor back inside the current bounds.
pub fn clamp_mouse_position(m: &mut MouseState)
    ensures
        *final(m) == (MouseState { x: clamp_spec(old(m).x, old(m).max_x), y: clamp_spec(old(m).y, old(m).max_y), ..*old(m) }),
{
    let (x, y) = clamp_mouse_xy(m, m.x, m.y);
    m.x = x;
    m.y = y;
}

/// The largest coordinate on an axis of `len` pixels, as the atomics store it.
pub open spec fn axis_max(len: usize) -> i32 {
    (if len == 0 { 0 } else { len - 1 }) as i32
}

/// Sets the screen size the cursor moves on and clamps the cursor into it.
pub fn set_mouse_bounds(m: &mut MouseState, width: usize, height: usize)
    ensures
        final(m).max_x == axis_max(width),
        final(m).max_y == axis_max(height),
        final(m).x == clamp_spec(old(m).x, axis_max(width)),
        final(m).y == clamp_spec(old(m).y, axis_max(height)),
        *final(m) == (MouseState { x: final(m).x, y: final(m).y, max_x: final(m).max_x, max_y: final(m).max_y, ..*old(m) }),
{
    let w = if width == 0 { 0 } else { width - 1 };
    let h = if height == 0 { 0 } else { height - 1 };
    m.max_x = w as i32;
    m.max_y = h as i32;
    clamp_mouse_position(m);
}

/// Moves the cursor to a point, clamped into the bounds.
pub fn set_mouse_position(m: &mut MouseState, x: i32, y: i32)
    ensures
        *final(m) == (MouseState { x: clamp_spec(x, old(m).max_x), y: clamp_spec(y, old(m).max_y), ..*old(m) }),
{
    let (cx, cy) = clamp_mouse_xy(m, x, y);
    m.x = cx;
    m.y = cy;
}

/// The cursor position.
pub fn mouse_position(m: &MouseState) -> (r: (i32, i32))
    ensures
        r == (m.x, m.y),
{
    (m.x, m.y)
}

/// The buttons held at the last report.
pub fn mouse_buttons(m: &MouseState) -> (r: u8)
    ensures
        r == m.buttons,
{
    m.buttons
}

/// Takes the wheel motion accumulated since the last call.
pub fn take_mouse_scroll_delta(m: &mut MouseState) -> (r: i32)
    ensures
        r == old(m).wheel_delta,
        *final(m) == (MouseState { wheel_delta: 0, ..*old(m) }),
{
    let d = m.wheel_delta;
    m.wheel_delta = 0;
    d
}

/// Appends an event; a full ring drops its oldest event first.
fn push_mouse_event(m: &mut MouseState, event: MouseEvent)
    requires
        old(m).wf(),
    ensures
        final(m).wf(),
        old(m).pending().len() < 63 ==> final(m).pending() == old(m).pending().push(event),
        old(m).pending().len() >= 63 ==> final(m).pending() == old(m).pending().drop_first().push(event),
        *final(m) == (MouseState { events: final(m).events, read: final(m).read, write: final(m).write, ..*old(m) }),
{
    let ghost before = m.pending();
    let write = m.write;
    let next = (write + 1) % MOUSE_EVENT_QUEUE_LEN;
    if next == m.read {
        m.read = (m.read + 1) % MOUSE_EVENT_QUEUE_LEN;
    }
    m.events[write] = event;
    m.write = next;
    proof {
        if before.len() < 63 {
            assert(m.pending() =~= before.push(event));
        } else {
            assert(m.pending() =~= before.drop_first().push(event));
        }
    }
}

/// The pointer after a report: position, buttons and wheel motion.
pub open spec fn after_report(m: MouseState, x: i32, y: i32, buttons: u8, wheel: i32) -> MouseState {
    MouseState {
        x,
        y,
        buttons,
        wheel_delta: if wheel != 0 { wrap_add_i32(m.wheel_delta, wheel) } else { m.wheel_delta },
        ..m
    }
}

/// The state after a relative report: the cursor moved by `(dx, dy)`
/// (saturating, then clamped), buttons and wheel taken, the event queued
/// (the oldest dropped when the queue is full).
pub open spec fn relative_step(m: MouseState, f: MouseState, dx: i32, dy: i32, buttons: u8, wheel: i32) -> bool {
    let x = clamp_spec(sat_add_i32(m.x, dx), m.max_x);
    let y = clamp_spec(sat_add_i32(m.y, dy), m.max_y);
    let ev = MouseEvent { x, y, dx, dy, buttons, wheel, absolute: false };
    &&& f == (MouseState { events: f.events, read: f.read, write: f.write, ..after_report(m, x, y, buttons, wheel) })
    &&& m.pending().len() < 63 ==> f.pending() == m.pending().push(ev)
    &&& m.pending().len() >= 63 ==> f.pending() == m.pending().drop_first().push(ev)
}

/// Records a relative motion report: the cursor moves by `(dx, dy)`
/// (saturating, then clamped) and an event is queued.
pub fn push_mouse_relative(m: &mut MouseState, dx: i32, dy: i32, buttons: u8, wheel: i32)
    requires
        old(m).wf(),
    ensures
        final(m).wf(),
        ({
            let x = clamp_spec(sat_add_i32(old(m).x, dx), old(m).max_x);
            let y = clamp_spec(sat_add_i32(old(m).y, dy), old(m).max_y);
            let ev = MouseEvent { x, y, dx, dy, buttons, wheel, absolute: false };
            &&& *final(m) == (MouseState { events: final(m).events, read: final(m).read, write: final(m).write, ..after_report(*old(m), x, y, buttons, wheel) })
            &&& old(m).pending().len() < 63 ==> final(m).pending() == old(m).pending().push(ev)
            &&& old(m).pending().len() >= 63 ==> final(m).pending() == old(m).pending().drop_first().push(ev)
        }),
{
    let nx = saturating_add_i32(m.x, dx);
    let ny = saturating_add_i32(m.y, dy);
    let (x, y) = clamp_mouse_xy(m, nx, ny);
    m.x = x;
    m.y = y;
    m.buttons = buttons;
    if wheel != 0 {
        m.wheel_delta = wrapping_add_i32(m.wheel_delta, wheel);
    }
    push_mouse_event(m, MouseEvent { x, y, dx, dy, buttons, wheel, absolute: false });
}

/// Records an absolute position report: the cursor jumps to the clamped
/// point and the event carries the (saturating) motion from the old one.
pub fn push_mouse_absolute(m: &mut MouseState, x: i32, y: i32, buttons: u8, wheel: i32)
    requires
        old(m).wf(),
    ensures
        final(m).wf(),
        ({
            let cx = clamp_spec(x, old(m).max_x);
            let cy = clamp_spec(y, old(m).max_y);
            let ev = MouseEvent {
                x: cx,
                y: cy,
                dx: sat_sub_i32(cx, old(m).x),
                dy: sat_sub_i32(cy, old(m).y),
                buttons,
                wheel,
                absolute: true,
            };
            &&& *final(m) == (MouseState { events: final(m).events, read: final(m).read, write: final(m).write, ..after_report(*old(m), cx, cy, buttons, wheel) })
            &&& old(m).pending().len() < 63 ==> final(m).pending() == old(m).pending().push(ev)
            &&& old(m).pending().len() >= 63 ==> final(m).pending() == old(m).pending().drop_first().push(ev)
        }),
{
    let old_x = m.x;
    let old_y = m.y;
    let (cx, cy) = clamp_mouse_xy(m, x, y);
    m.x = cx;
    m.y = cy;
    m.buttons = buttons;
    if wheel != 0 {
        m.wheel_delta = wrapping_add_i32(m.wheel_delta, wheel);
    }
    let dx = saturating_sub_i32(cx, old_x);
    let dy = saturating_sub_i32(cy, old_y);
    push_mouse_event(m, MouseEvent { x: cx, y: cy, dx, dy, buttons, wheel, absolute: true });
}

/// Takes the oldest queued event.
pub fn pop_mouse_event(m: &mut MouseState) -> (r: Option<MouseEvent>)
    requires
        old(m).wf(),
    ensures
        final(m).wf(),
        old(m).pending().len() == 0 ==> r is None && *final(m) == *old(m),
        old(m).pending().len() > 0 ==> r == Some(old(m).pending()[0])
            && final(m).pending() == old(m).pending().drop_first()
            && *final(m) == (MouseState { read: final(m).read, ..*old(m) }),
{
    if m.read == m.write {
        return None;
    }
    let ghost before = m.pending();
    let read = m.read;
    let event = m.events[read];
    m.read = (read + 1) % MOUSE_EVENT_QUEUE_LEN;
    assert(m.pending() =~= before.drop_first());
    Some(event)
}

} // verus!
