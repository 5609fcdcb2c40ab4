use vstd::prelude::*;

verus! {

/// The programmable interval timer's input clock, in hertz.
pub const PIT_BASE_FREQ: u32 = 1_193_182;

/// How often the timer interrupts, and so how often the frame loop wakes.
pub const TICK_HZ: u32 = 60;

/// The timer's reload value for `hz` interrupts a second: the base clock
/// over `hz` (taking 0 as 1), kept within the 16-bit counter's 1..=0xFFFF.
pub open spec fn divisor_spec(hz: u32) -> u32 {
    let h = if hz == 0 { 1 } else { hz };
    let d = PIT_BASE_FREQ / h;
    if d < 1 { 1 } else if d > 0xFFFF { 0xFFFF } else { d }
}

pub fn divisor_for(hz: u32) -> (d: u32)
    ensures
        d == divisor_spec(hz),
        1 <= d <= 0xFFFF,
{
    let hz = if hz == 0 { 1 } else { hz };
    let d = PIT_BASE_FREQ / hz;
    if d < 1 {
        1
    } else if d > 0xFFFF {
        0xFFFF
    } else {
        d
    }
}

/// Whole seconds elapsed over `ticks` timer interrupts at `TICK_HZ`: ticks
/// times the divisor, over the base clock, rounded down.
pub open spec fn ticks_to_secs_spec(ticks: u64) -> int {
    ticks as int * divisor_spec(TICK_HZ) as int / PIT_BASE_FREQ as int
}

pub fn ticks_to_secs(ticks: u64) -> (s: u64)
    requires ticks as int * divisor_spec(TICK_HZ) <= u64::MAX,
    ensures s == ticks_to_secs_spec(ticks),
{
    let d = divisor_for(TICK_HZ) as u64;
    ticks * d / PIT_BASE_FREQ as u64
}

} // verus!
