pub mod animation;
pub mod canvas;
pub mod character;
pub mod edit;
pub mod motion;
pub mod terminal;

pub use animation::{Animation, CharacterVisual, Frame, Scene};
pub use canvas::{Canvas, Cell};
pub use character::{CharacterId, EffectCharacter};
pub use motion::Waypoint;
pub use terminal::Terminal;
