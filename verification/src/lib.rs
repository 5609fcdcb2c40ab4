//! Lumen's kernel logic: geometry, colour, damage tracking, rasterising,
//! clocks and input decoding, with the hardware left to the caller.

pub mod apps;
pub mod arch;
pub mod datefmt;
pub mod display;
pub mod dock;
pub mod gfx;
pub mod input;
pub mod mem;
pub mod rng;
pub mod serial;
pub mod shell;
pub mod timekeeping;
pub mod widgets;
pub mod wm;

