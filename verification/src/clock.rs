//! Monotonic clock and deadlines driven by the timer tick.
use vstd::prelude::*;

verus! {

/// Timer interrupts per second.
pub const TICKS_PER_SECOND: u64 = 100;

/// Nanoseconds covered by one tick.
pub const NS_PER_TICK: u64 = 10_000_000;

/// The tick counter advanced once per timer interrupt.
pub struct MonotonicClock {
    pub ticks: u64,
}

/// `a * b`, clamped to `u64::MAX`.
pub open spec fn sat_mul_spec(a: int, b: int) -> int {
    if a * b > u64::MAX { u64::MAX as int } else { a * b }
}

/// `a + b`, clamped to `u64::MAX`.
pub open spec fn sat_add_spec(a: int, b: int) -> int {
    if a + b > u64::MAX { u64::MAX as int } else { a + b }
}

/// Saturating multiplication of two `u64` values.
pub fn saturating_mul_u64(a: u64, b: u64) -> (r: u64)
    ensures
        r == sat_mul_spec(a as int, b as int),
{
    match a.checked_mul(b) {
        Some(v) => v,
        None => u64::MAX,
    }
}

impl MonotonicClock {
    /// A clock that has not ticked yet.
    pub fn new() -> (c: Self)
        ensures
            c.ticks == 0,
    {
        MonotonicClock { ticks: 0 }
    }
}

/// Advances the clock by one tick (wrapping, as the atomic counter does).
pub fn on_tick(clock: &mut MonotonicClock)
    ensures
        final(clock).ticks == (old(clock).ticks + 1) % 0x1_0000_0000_0000_0000,
{
    clock.ticks = clock.ticks.wrapping_add(1);
}

/// Ticks since boot.
pub fn monotonic_ticks(clock: &MonotonicClock) -> (t: u64)
    ensures
        t == clock.ticks,
{
    clock.ticks
}

/// Nanoseconds since boot, saturating at `u64::MAX`.
pub fn monotonic_ns(clock: &MonotonicClock) -> (ns: u64)
    ensures
        ns == sat_mul_spec(clock.ticks as int, NS_PER_TICK as int),
{
    saturating_mul_u64(clock.ticks, NS_PER_TICK)
}

/// A point on the tick axis after which a wait has timed out.
#[derive(Clone, Copy)]
pub struct Deadline(pub u64);

/// Number of ticks, at least one, that covers `ms` milliseconds (rounding up).
pub open spec fn ms_to_ticks(ms: int) -> int {
    let t = sat_add_spec(sat_mul_spec(ms, TICKS_PER_SECOND as int), 999) / 1000;
    if t < 1 { 1 } else { t }
}

impl Deadline {
    /// The deadline `ms` milliseconds from now, never earlier than the next tick.
    pub fn after_ms(clock: &MonotonicClock, ms: u64) -> (d: Deadline)
        ensures
            d.0 == sat_add_spec(clock.ticks as int, ms_to_ticks(ms as int)),
    {
        let scaled = saturating_mul_u64(ms, TICKS_PER_SECOND);
        let rounded = scaled.saturating_add(999) / 1000;
        let ticks = if rounded < 1 { 1 } else { rounded };
        Deadline(clock.ticks.saturating_add(ticks))
    }

    /// Whether the clock has reached the deadline.
    pub fn expired(self, clock: &MonotonicClock) -> (b: bool)
        ensures
            b == (clock.ticks >= self.0),
    {
        clock.ticks >= self.0
    }
}

} // verus!
