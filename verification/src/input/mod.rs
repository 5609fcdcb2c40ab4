pub mod keyboard;
pub mod mouse;

use vstd::prelude::*;
use keyboard::KeyBatch;
use mouse::Delta;

verus! {

/// Where a byte waiting at the PS/2 controller comes from, going by the
/// controller's status register.
#[derive(Copy, Clone, PartialEq, Eq, Debug, Structural)]
pub enum Source {
    /// Nothing is waiting (output buffer empty).
    Nothing,
    /// The byte comes from the mouse (auxiliary device).
    Mouse,
    /// The byte comes from the keyboard.
    Keyboard,
}

/// Reads the status register: bit 0 says a byte is waiting, bit 5 that it
/// comes from the mouse.
pub fn route(status: u8) -> (s: Source)
    ensures
        s == (if status & 0x01 == 0 {
            Source::Nothing
        } else if status & 0x20 != 0 {
            Source::Mouse
        } else {
            Source::Keyboard
        }),
{
    if status & 0x01 == 0 {
        Source::Nothing
    } else if status & 0x20 != 0 {
        Source::Mouse
    } else {
        Source::Keyboard
    }
}

/// Everything the input devices reported since the last frame.
pub struct Snapshot {
    pub mouse_dx: i32,
    pub mouse_dy: i32,
    pub buttons: u8,
    pub buttons_just_pressed: u8,
    pub keys: KeyBatch,
}

/// Puts a frame's mouse movement and key presses together.
pub fn snapshot_of(m: Delta, keys: KeyBatch) -> (s: Snapshot)
    ensures
        s.mouse_dx == m.dx,
        s.mouse_dy == m.dy,
        s.buttons == m.buttons,
        s.buttons_just_pressed == m.just_pressed,
        s.keys == keys,
{
    Snapshot {
        mouse_dx: m.dx,
        mouse_dy: m.dy,
        buttons: m.buttons,
        buttons_just_pressed: m.just_pressed,
        keys,
    }
}

/// The input carried into the extra simulation steps of a frame: the
/// buttons still held, but no movement, no fresh presses and no keys.
pub fn carry_over(s: &Snapshot) -> (c: Snapshot)
    ensures
        c.mouse_dx == 0,
        c.mouse_dy == 0,
        c.buttons == s.buttons,
        c.buttons_just_pressed == 0,
        c.keys.len_spec() == 0,
{
    Snapshot { mouse_dx: 0, mouse_dy: 0, buttons: s.buttons, buttons_just_pressed: 0, keys: KeyBatch::empty() }
}

} // verus!
