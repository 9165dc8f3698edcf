//! Terminal text effects: the colour and style model, the character canvas, the frame
//! animation engine, and the deterministic helpers that each effect builds its frames from.
pub mod utils;
pub mod engine;
pub mod effects;
