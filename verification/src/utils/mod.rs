pub mod geometry;
pub mod graphics;
pub mod text;

pub use geometry::Coord;
pub use graphics::{Color, ColorPair, Style};
