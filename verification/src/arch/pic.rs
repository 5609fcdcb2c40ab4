use vstd::prelude::*;

verus! {

/// Where the primary interrupt controller's lines start in the vector table.
pub const PIC_1_OFFSET: u8 = 32;

/// Where the secondary controller's lines start, right after the primary's.
pub const PIC_2_OFFSET: u8 = PIC_1_OFFSET + 8;

/// The timer's vector: line 0 of the primary controller.
pub const TIMER_IRQ: u8 = PIC_1_OFFSET;

/// The keyboard's vector: line 1 of the primary controller.
pub const KEYBOARD_IRQ: u8 = PIC_1_OFFSET + 1;

/// The mouse's vector: line 4 of the secondary controller (line 12 overall).
pub const MOUSE_IRQ: u8 = PIC_2_OFFSET + 4;

} // verus!
