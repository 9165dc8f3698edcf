use vstd::prelude::*;

use crate::engine::animation::{step_scene, Animation, AnimationView, CharacterVisual};
use crate::utils::geometry::Coord;
use crate::utils::graphics::{plain_style, Style};

verus! {

/// The identity of a character on a terminal; identities are handed out in increasing order.
#[derive(Debug, Clone, Copy, PartialEq, Eq, PartialOrd, Ord, Hash, Structural)]
pub struct CharacterId(pub u32);

/// A character of the effect: the symbol it came from, what it shows now, where, whether it
/// is drawn, and the animation that changes its look. Its movement along paths is kept by
/// the caller beside it.
#[derive(Debug, Clone)]
pub struct EffectCharacter {
    pub id: CharacterId,
    pub input_symbol: char,
    pub symbol: char,
    pub position: Coord,
    pub style: Style,
    pub visible: bool,
    pub animation: Animation,
}

/// The look a character shows after a step: the visual its animation showed, if any.
pub open spec fn shown_after(symbol: char, style: Style, shown: Option<CharacterVisual>) -> (
    char,
    Style,
) {
    match shown {
        Some(visual) => (visual.symbol, visual.style),
        None => (symbol, style),
    }
}

/// Whether `after` is `before` advanced by one animation step.
pub open spec fn character_stepped(before: EffectCharacter, after: EffectCharacter) -> bool {
    let (next, shown) = match before.animation@.active_scene {
        Some(scene) => {
            let (scene_next, visual) = step_scene(scene);
            (
                AnimationView {
                    current: match visual {
                        Some(v) => v,
                        None => before.animation@.current,
                    },
                    active_scene: Some(scene_next),
                },
                visual,
            )
        },
        None => (before.animation@, None),
    };
    let (symbol, style) = shown_after(before.symbol, before.style, shown);
    &&& after.id == before.id
    &&& after.input_symbol == before.input_symbol
    &&& after.position == before.position
    &&& after.visible == before.visible
    &&& after.symbol == symbol
    &&& after.style == style
    &&& after.animation@ == next
    &&& after.animation.wf()
}

impl EffectCharacter {
    /// The character invariant: its animation keeps the animation invariant.
    pub open spec fn wf(&self) -> bool {
        self.animation.wf()
    }

    /// A visible character showing `symbol` in the plain style at `position`.
    pub fn new(id: CharacterId, symbol: char, position: Coord) -> (character: Self)
        ensures
            character.wf(),
            character.id == id,
            character.input_symbol == symbol,
            character.symbol == symbol,
            character.position == position,
            character.style == plain_style(),
            character.visible,
            character.animation@ == (AnimationView {
                current: CharacterVisual { symbol, style: plain_style() },
                active_scene: None,
            }),
    {
        EffectCharacter {
            id,
            input_symbol: symbol,
            symbol,
            position,
            style: Style::default(),
            visible: true,
            animation: Animation::new(symbol, Style::default()),
        }
    }

    pub fn set_position(&mut self, position: Coord)
        ensures
            *final(self) == (EffectCharacter { position, ..*old(self) }),
    {
        self.position = position;
    }

    /// Shows the current symbol in `style`, in the character and in its animation.
    pub fn set_style(&mut self, style: Style)
        requires
            old(self).wf(),
        ensures
            final(self).wf(),
            final(self).style == style,
            final(self).animation@ == (AnimationView {
                current: CharacterVisual { symbol: old(self).symbol, style },
                ..old(self).animation@
            }),
            final(self).id == old(self).id,
            final(self).input_symbol == old(self).input_symbol,
            final(self).symbol == old(self).symbol,
            final(self).position == old(self).position,
            final(self).visible == old(self).visible,
    {
        self.style = style;
        self.animation.set_appearance(self.symbol, style);
    }

    /// Shows `symbol` in `style`, in the character and in its animation.
    pub fn set_appearance(&mut self, symbol: char, style: Style)
        requires
            old(self).wf(),
        ensures
            final(self).wf(),
            final(self).symbol == symbol,
            final(self).style == style,
            final(self).animation@ == (AnimationView {
                current: CharacterVisual { symbol, style },
                ..old(self).animation@
            }),
            final(self).id == old(self).id,
            final(self).input_symbol == old(self).input_symbol,
            final(self).position == old(self).position,
            final(self).visible == old(self).visible,
    {
        self.symbol = symbol;
        self.style = style;
        self.animation.set_appearance(symbol, style);
    }

    /// Advances the animation by one step; the visual it shows becomes the character's look.
    pub fn step(&mut self)
        requires
            old(self).wf(),
        ensures
            character_stepped(*old(self), *final(self)),
    {
        if let Some(visual) = self.animation.step() {
            self.symbol = visual.symbol;
            self.style = visual.style;
        }
    }

    /// Back to the input symbol, visible, with no scene running.
    pub fn reset(&mut self)
        requires
            old(self).wf(),
        ensures
            final(self).wf(),
            final(self).symbol == old(self).input_symbol,
            final(self).visible,
            final(self).animation@ == (AnimationView {
                active_scene: None,
                ..old(self).animation@
            }),
            final(self).id == old(self).id,
            final(self).input_symbol == old(self).input_symbol,
            final(self).position == old(self).position,
            final(self).style == old(self).style,
    {
        self.symbol = self.input_symbol;
        self.visible = true;
        self.animation.deactivate();
    }
}

} // verus!
