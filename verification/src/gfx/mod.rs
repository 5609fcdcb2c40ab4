pub mod blur;
pub mod canvas;
pub mod color;
pub mod coverage;
pub mod damage;
pub mod framebuffer;
pub mod rect;
pub mod shapes;
pub mod surface;
pub mod text;

pub use rect::Rect;
