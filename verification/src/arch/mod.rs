pub mod pic;
pub mod pit;
pub mod rtc;

pub use pit::TICK_HZ;
