use vstd::prelude::*;

verus! {

/// Mouse movement and buttons gathered since the last look.
#[derive(Copy, Clone, PartialEq, Eq, Debug, Structural)]
pub struct Delta {
    pub dx: i32,
    pub dy: i32,
    pub buttons: u8,
    pub just_pressed: u8,
}

/// A PS/2 mouse packet decoder: three-byte packets, movement accumulated
/// until it is taken.
pub struct MouseState {
    pub phase: u8,
    pub bytes: [u8; 3],
    pub accum_dx: i32,
    pub accum_dy: i32,
    pub last_buttons: u8,
    pub just_pressed: u8,
    pub cur_buttons: u8,
}

/// A movement byte, sign-extended by its sign bit from the first byte.
pub open spec fn signed_move(b: u8, negative: bool) -> int {
    if negative { b as int - 256 } else { b as int }
}

impl MouseState {
    pub open spec fn wf(&self) -> bool {
        self.phase < 3
    }

    /// Feeding `byte` keeps the accumulated movement within an `i32`: only
    /// a packet's third byte adds to it.
    pub open spec fn fits(&self, byte: u8) -> bool {
        self.phase == 2 ==> {
            &&& i32::MIN <= self.accum_dx + signed_move(self.bytes[1], self.bytes[0] & 0x10 != 0) <= i32::MAX
            &&& i32::MIN <= self.accum_dy - signed_move(byte, self.bytes[0] & 0x20 != 0) <= i32::MAX
        }
    }

    /// Whether `feed(byte)` keeps the accumulated movement within an `i32`.
    pub fn can_feed(&self, byte: u8) -> (r: bool)
        requires self.wf(),
        ensures r == self.fits(byte),
    {
        if self.phase != 2 {
            return true;
        }
        let b0 = self.bytes[0];
        let dx: i64 = if b0 & 0x10 != 0 { self.bytes[1] as i64 - 256 } else { self.bytes[1] as i64 };
        let dy: i64 = if b0 & 0x20 != 0 { byte as i64 - 256 } else { byte as i64 };
        let x = self.accum_dx as i64 + dx;
        let y = self.accum_dy as i64 - dy;
        i32::MIN as i64 <= x && x <= i32::MAX as i64 && i32::MIN as i64 <= y && y <= i32::MAX as i64
    }

    pub fn new() -> (s: MouseState)
        ensures
            s.wf(),
            s.phase == 0,
            s.accum_dx == 0,
            s.accum_dy == 0,
            s.cur_buttons == 0,
            s.just_pressed == 0,
            s.last_buttons == 0,
            s.bytes@ == seq![0u8, 0u8, 0u8],
    {
        let s = MouseState { phase: 0, bytes: [0, 0, 0], accum_dx: 0, accum_dy: 0, last_buttons: 0, just_pressed: 0, cur_buttons: 0 };
        assert(s.bytes@ =~= seq![0u8, 0u8, 0u8]);
        s
    }

    /// Takes one byte from the mouse. A packet's first byte always has bit 3
    /// set, so a byte without it where a packet should start is dropped to
    /// regain sync. On a packet's third byte the movement is added up (the
    /// vertical axis flipped to grow downward), the buttons updated, and any
    /// button that went down is remembered as just pressed.
    pub fn feed(&mut self, byte: u8)
        requires
            old(self).wf(),
            old(self).fits(byte),
        ensures
            final(self).wf(),
            final(self).last_buttons == old(self).last_buttons,
            old(self).phase == 0 && byte & 0x08 == 0 ==> *final(self) == *old(self),
            !(old(self).phase == 0 && byte & 0x08 == 0) && old(self).phase < 2 ==> {
                &&& final(self).phase == old(self).phase + 1
                &&& final(self).bytes@ == old(self).bytes@.update(old(self).phase as int, byte)
                &&& final(self).accum_dx == old(self).accum_dx
                &&& final(self).accum_dy == old(self).accum_dy
                &&& final(self).cur_buttons == old(self).cur_buttons
                &&& final(self).just_pressed == old(self).just_pressed
            },
            old(self).phase == 2 ==> ({
                let b0 = old(self).bytes[0];
                let b1 = old(self).bytes[1];
                &&& final(self).phase == 0
                &&& final(self).bytes@ == old(self).bytes@.update(2, byte)
                &&& final(self).accum_dx == old(self).accum_dx + signed_move(b1, b0 & 0x10 != 0)
                &&& final(self).accum_dy == old(self).accum_dy - signed_move(byte, b0 & 0x20 != 0)
                &&& final(self).cur_buttons == b0 & 0x07
                &&& final(self).just_pressed == old(self).just_pressed | ((b0 & 0x07) & !old(self).cur_buttons)
            }),
    {
        if self.phase == 0 && (byte & 0x08) == 0 {
            return;
        }
        let phase = self.phase as usize;
        self.bytes[phase] = byte;
        self.phase = self.phase + 1;
        if self.phase < 3 {
            return;
        }
        let b0 = self.bytes[0];
        let b1 = self.bytes[1];
        let b2 = self.bytes[2];

        let dx: i32 = if b0 & 0x10 != 0 { b1 as i32 - 256 } else { b1 as i32 };
        let dy: i32 = if b0 & 0x20 != 0 { b2 as i32 - 256 } else { b2 as i32 };

        self.accum_dx = self.accum_dx + dx;
        self.accum_dy = self.accum_dy - dy;

        let buttons = b0 & 0x07;
        let pressed_now = buttons & !self.cur_buttons;
        self.just_pressed = self.just_pressed | pressed_now;
        self.cur_buttons = buttons;
        self.phase = 0;
    }

    /// Hands over the movement and fresh presses gathered so far, and starts
    /// gathering anew.
    pub fn take_delta(&mut self) -> (d: Delta)
        requires old(self).wf(),
        ensures
            d == (Delta {
                dx: old(self).accum_dx,
                dy: old(self).accum_dy,
                buttons: old(self).cur_buttons,
                just_pressed: old(self).just_pressed,
            }),
            final(self).wf(),
            final(self).accum_dx == 0,
            final(self).accum_dy == 0,
            final(self).just_pressed == 0,
            final(self).last_buttons == old(self).cur_buttons,
            final(self).cur_buttons == old(self).cur_buttons,
            final(self).phase == old(self).phase,
            final(self).bytes == old(self).bytes,
    {
        let out = Delta {
            dx: self.accum_dx,
            dy: self.accum_dy,
            buttons: self.cur_buttons,
            just_pressed: self.just_pressed,
        };
        self.accum_dx = 0;
        self.accum_dy = 0;
        self.last_buttons = self.cur_buttons;
        self.just_pressed = 0;
        out
    }
}

} // verus!
