use vstd::prelude::*;
use crate::arch::pit::{TICK_HZ, ticks_to_secs, ticks_to_secs_spec};

verus! {

/// The most simulation steps one frame catches up on; after a longer stall
/// the animation slows down rather than jumping.
pub const MAX_CATCH_UP: u64 = 8;

pub const SECONDS_PER_DAY: u32 = 86_400;

/// How often the shown time is checked against the hardware clock: every
/// five minutes of timer ticks.
pub const RESYNC_TICKS: u64 = 300 * 60;

/// How far the shown time may drift from the hardware clock, in seconds,
/// before it is rebased.
pub const MAX_DRIFT: i64 = 2;

/// Every how many frames the damage tracking is checked against a full redraw.
pub const VERIFY_EVERY: u32 = 120;

/// How many simulation steps a frame runs: one per timer tick since the
/// last frame, at most `MAX_CATCH_UP`.
pub fn catch_up_steps(now: u64, last_seen: u64) -> (steps: u64)
    requires last_seen <= now,
    ensures steps == if now - last_seen < MAX_CATCH_UP { (now - last_seen) as int } else { MAX_CATCH_UP as int },
{
    let d = now - last_seen;
    if d < MAX_CATCH_UP { d } else { MAX_CATCH_UP }
}

/// Whether it is time to compare the shown time with the hardware clock.
pub fn resync_due(now: u64, last_sync: u64) -> (due: bool)
    requires last_sync <= now,
    ensures due == (now - last_sync >= RESYNC_TICKS),
{
    now - last_sync >= RESYNC_TICKS
}

/// The time of day to show: the hardware clock's reading at `tick_origin`,
/// advanced by the seconds the timer has counted since, wrapped at midnight.
pub open spec fn shown_spec(day_base: u32, now: u64, tick_origin: u64) -> int {
    (day_base + ticks_to_secs_spec((now - tick_origin) as u64)) % (SECONDS_PER_DAY as int)
}

pub fn shown_time(day_base: u32, now: u64, tick_origin: u64) -> (t: u32)
    requires
        tick_origin <= now,
        (now - tick_origin) * crate::arch::pit::divisor_spec(TICK_HZ) <= u64::MAX,
        day_base + ticks_to_secs_spec((now - tick_origin) as u64) <= u32::MAX,
    ensures
        t == shown_spec(day_base, now, tick_origin),
        t < SECONDS_PER_DAY,
{
    let secs = ticks_to_secs(now - tick_origin);
    (day_base + secs as u32) % SECONDS_PER_DAY
}

/// How far the hardware clock's `rtc_day` is ahead of the shown time, going
/// the short way round the clock face: between -12 h (inclusive) and +12 h.
pub open spec fn drift_spec(rtc_day: u32, shown: u32) -> int {
    (rtc_day - shown + 43_200 + 86_400) % 86_400 - 43_200
}

pub fn clock_drift(rtc_day: u32, shown: u32) -> (d: i64)
    requires
        rtc_day < SECONDS_PER_DAY,
        shown < SECONDS_PER_DAY,
    ensures
        d == drift_spec(rtc_day, shown),
        -43_200 <= d < 43_200,
{
    let lifted: i64 = rtc_day as i64 - shown as i64 + 43_200 + 86_400;
    lifted % 86_400 - 43_200
}

/// Whether the shown time is far enough off to be rebased on the hardware
/// clock.
pub fn needs_rebase(drift: i64) -> (b: bool)
    ensures b == (drift >= MAX_DRIFT || drift <= -MAX_DRIFT),
{
    drift >= MAX_DRIFT || drift <= -MAX_DRIFT
}

/// Whether the day turned over between two shown times, so the date needs
/// reading again.
pub fn new_day(shown: u32, last_shown: u32) -> (b: bool)
    ensures b == (shown < last_shown),
{
    shown < last_shown
}

/// Whether frame number `frames` is one whose damage is checked.
pub fn verify_due(frames: u32) -> (b: bool)
    ensures b == (frames % VERIFY_EVERY == VERIFY_EVERY - 1),
{
    frames % VERIFY_EVERY == VERIFY_EVERY - 1
}

/// The share of `elapsed` cycles spent busy, in percent, rounded down.
pub fn busy_percent(busy: u64, elapsed: u64) -> (p: u64)
    requires busy * 100 <= u64::MAX,
    ensures p == busy * 100 / (if elapsed == 0 { 1 } else { elapsed as int }),
{
    let e = if elapsed == 0 { 1 } else { elapsed };
    busy * 100 / e
}

/// A rebase removes the drift: with the hardware clock's reading as the new
/// base and no ticks since, the shown time is that reading, and it is no
/// distance from itself.
pub proof fn lemma_rebase_settles(rtc_day: u32, now: u64)
    requires rtc_day < SECONDS_PER_DAY,
    ensures
        shown_spec(rtc_day, now, now) == rtc_day,
        drift_spec(rtc_day, rtc_day) == 0,
{
    assert(ticks_to_secs_spec(0) == 0);
}

} // verus!
