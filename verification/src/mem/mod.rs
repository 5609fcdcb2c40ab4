pub mod allocator;
pub mod frame;
pub mod heap;
