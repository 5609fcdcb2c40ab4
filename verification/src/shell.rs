use vstd::prelude::*;
use crate::apps::AppKind;
use crate::gfx::coverage::COORD;
use crate::gfx::rect::Rect;
use crate::gfx::shapes::tdiv;
use crate::widgets::RollingClock;

verus! {

/// Where the shell is: on the lock screen, sliding it away, or on the desktop.
#[derive(Copy, Clone, PartialEq, Eq, Debug, Structural)]
pub enum ShellMode {
    Locked,
    Unlocking,
    Desktop,
}

/// What the shell does with one frame's press and keys.
#[derive(Copy, Clone, PartialEq, Eq, Debug, Structural)]
pub struct PressOutcome {
    /// A ripple starts where the cursor is.
    pub ripple: bool,
    /// The lock screen starts sliding away.
    pub unlock: bool,
    /// The dock launched (or raised) this app.
    pub open: Option<AppKind>,
    /// The press goes on to the windows.
    pub click_for_windows: bool,
}

/// The shell's answer to a frame's input: every press ripples; on the lock
/// screen a press or the space bar unlocks; on the desktop a press on a dock
/// icon with an app launches it, and one on the dock or top bar goes no
/// further. While unlocking nothing is launched and presses reach the windows.
pub open spec fn press_outcome_spec(mode: ShellMode, click: bool, space: bool, dock_app: Option<AppKind>, on_chrome: bool)
    -> PressOutcome {
    if mode == ShellMode::Locked {
        PressOutcome { ripple: click, unlock: space || click, open: None, click_for_windows: false }
    } else {
        let launch = click && mode == ShellMode::Desktop && dock_app is Some;
        let taken = click && mode == ShellMode::Desktop && (dock_app is Some || on_chrome);
        PressOutcome {
            ripple: click,
            unlock: false,
            open: if launch { dock_app } else { None },
            click_for_windows: click && !taken,
        }
    }
}

/// Decides what a frame's press and keys do. `dock_app` is the app of the
/// dock icon under the cursor, if any; `on_chrome` says the cursor is on the
/// dock or the top bar.
pub fn press_outcome(mode: ShellMode, click: bool, space: bool, dock_app: Option<AppKind>, on_chrome: bool)
    -> (o: PressOutcome)
    ensures o == press_outcome_spec(mode, click, space, dock_app, on_chrome),
{
    if mode == ShellMode::Locked {
        return PressOutcome { ripple: click, unlock: space || click, open: None, click_for_windows: false };
    }
    let mut taken = false;
    let mut open: Option<AppKind> = None;
    if click && mode == ShellMode::Desktop {
        match dock_app {
            Some(kind) => {
                open = Some(kind);
                taken = true;
            },
            None => {
                if on_chrome {
                    taken = true;
                }
            },
        }
    }
    PressOutcome { ripple: click, unlock: false, open, click_for_windows: click && !taken }
}

/// The mode after a press: an unlock that started leaves the lock screen.
pub open spec fn after_press_spec(mode: ShellMode, unlock: bool) -> ShellMode {
    if mode == ShellMode::Locked && unlock { ShellMode::Unlocking } else { mode }
}

pub fn after_press(mode: ShellMode, unlock: bool) -> (m: ShellMode)
    ensures m == after_press_spec(mode, unlock),
{
    if mode == ShellMode::Locked && unlock { ShellMode::Unlocking } else { mode }
}

/// The mode at the end of a frame: the desktop takes over once the unlock
/// animation is done.
pub open spec fn settle_spec(mode: ShellMode, unlock_done: bool) -> ShellMode {
    if mode == ShellMode::Unlocking && unlock_done { ShellMode::Desktop } else { mode }
}

pub fn settle(mode: ShellMode, unlock_done: bool) -> (m: ShellMode)
    ensures m == settle_spec(mode, unlock_done),
{
    if mode == ShellMode::Unlocking && unlock_done { ShellMode::Desktop } else { mode }
}

/// The shell never goes back: the lock screen can only be left, and the
/// desktop never left.
pub proof fn lemma_modes_only_advance(mode: ShellMode, unlock: bool, unlock_done: bool)
    ensures
        mode == ShellMode::Desktop ==> settle_spec(after_press_spec(mode, unlock), unlock_done) == ShellMode::Desktop,
        mode != ShellMode::Locked ==> settle_spec(after_press_spec(mode, unlock), unlock_done) != ShellMode::Locked,
{
}

/// The 48 px square the cursor is drawn in, centred on `(x, y)`.
pub fn cursor_rect_at(x: i32, y: i32) -> (r: Rect)
    requires -COORD <= x <= COORD, -COORD <= y <= COORD,
    ensures r == (Rect { x0: (x - 24) as i32, y0: (y - 24) as i32, x1: (x + 24) as i32, y1: (y + 24) as i32 }),
{
    Rect::from_size(x - 24, y - 24, 48, 48)
}

/// The pixels the top bar's clock can occupy on the bar `(bx, by, bw, bh)`,
/// including the room the digit roll needs above and below the baseline.
pub open spec fn top_clock_rect_spec(bx: int, by: int, bw: int, bh: int, digit_h: int, face_w: int) -> Rect {
    let baseline = by + tdiv(bh + digit_h, 2);
    let half = tdiv(face_w, 2) + 8;
    Rect {
        x0: (bx + tdiv(bw, 2) - half) as i32,
        y0: (baseline - digit_h - digit_h) as i32,
        x1: (bx + tdiv(bw, 2) + half) as i32,
        y1: (baseline + digit_h) as i32,
    }
}

pub fn top_clock_rect(clock: &RollingClock, bx: i32, by: i32, bw: i32, bh: i32) -> (r: Rect)
    requires
        -COORD <= bx <= COORD, -COORD <= by <= COORD, -COORD <= bw <= COORD, -COORD <= bh <= COORD,
    ensures
        r == top_clock_rect_spec(bx as int, by as int, bw as int, bh as int, clock.digit_height_spec(), clock.width_spec()),
{
    let digit_h = clock.digit_height();
    let baseline = by + (bh + digit_h) / 2;
    let half = clock.width() / 2 + 8;
    Rect::new(bx + bw / 2 - half, baseline - digit_h - digit_h, bx + bw / 2 + half, baseline + digit_h)
}

/// Whether the pixel `(px, py)` lies in the box `(x, y, w, h)`.
pub fn inside(px: i32, py: i32, x: i32, y: i32, w: i32, h: i32) -> (b: bool)
    ensures b == (x <= px < x + w && y <= py < y + h),
{
    px >= x && (px as i64) < x as i64 + w as i64 && py >= y && (py as i64) < y as i64 + h as i64
}

/// The longest date line the lock screen keeps.
pub const DATE_CAPACITY: usize = 48;

/// The date line shown on the lock screen: the first bytes of the last line
/// it was given, as many as fit.
pub struct DateLine {
    buf: [u8; 48],
    len: usize,
}

impl DateLine {
    pub closed spec fn view(&self) -> Seq<u8> {
        self.buf@.take(self.len as int)
    }

    pub closed spec fn wf(&self) -> bool {
        self.len <= DATE_CAPACITY
    }

    pub fn new() -> (d: DateLine)
        ensures d.wf(), d@ == Seq::<u8>::empty(),
    {
        let d = DateLine { buf: [0u8; 48], len: 0 };
        assert(d@ =~= Seq::<u8>::empty());
        d
    }

    /// Keeps the first `DATE_CAPACITY` bytes of `bytes`.
    pub fn set(&mut self, bytes: &[u8])
        requires old(self).wf(),
        ensures
            final(self).wf(),
            final(self)@ == bytes@.take(if bytes@.len() < DATE_CAPACITY { bytes@.len() as int } else { DATE_CAPACITY as int }),
    {
        let n = if bytes.len() < DATE_CAPACITY { bytes.len() } else { DATE_CAPACITY };
        let mut i: usize = 0;
        while i < n
            invariant
                n <= DATE_CAPACITY, n <= bytes@.len(),
                i <= n,
                self.buf@.len() == DATE_CAPACITY,
                forall|j: int| 0 <= j < i ==> #[trigger] self.buf@[j] == bytes@[j],
            decreases n - i,
        {
            self.buf[i] = bytes[i];
            i += 1;
        }
        self.len = n;
        assert(self.buf@.take(n as int) =~= bytes@.take(n as int));
    }

    /// The kept bytes.
    pub fn as_bytes(&self) -> (b: &[u8])
        requires self.wf(),
        ensures b@ == self@,
    {
        let s = self.buf.as_slice();
        &s[0..self.len]
    }
}

} // verus!
