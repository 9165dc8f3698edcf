use vstd::prelude::*;

use crate::effects::random::{
    draw_mod_u64, fisher_yates, fnv1a, fnv1a_hash, golden_seed, lemma_fisher_yates_permutes,
    lemma_picks_in_range, nonzero_or, shuffle_passes, xorshift64,
};
use crate::engine::animation::{CharacterVisual, Frame, Scene, SceneView};
use crate::utils::graphics::{plain_style, Color, ColorPair, Style};
use vstd::string::StringSliceAdditionalSpecFns;

verus! {

/// The text crumbles to dust, falls, and is swept back up into place.
pub struct Crumble;

impl Crumble {
    pub fn new() -> (effect: Self)
        ensures
            effect == Crumble,
    {
        Crumble
    }

    pub fn name(&self) -> (name: &'static str)
        ensures
            name@ == "crumble"@,
    {
        "crumble"
    }
}

impl Default for Crumble {
    fn default() -> (effect: Self)
        ensures
            effect == Crumble,
    {
        Self::new()
    }
}

/// A xorshift64 generator seeded from the input text.
pub struct SimpleRng {
    state: u64,
}

impl View for SimpleRng {
    type V = u64;

    closed spec fn view(&self) -> u64 {
        self.state
    }
}

impl SimpleRng {
    /// Seeded with the FNV-1a hash of the input (a fixed constant in place of zero).
    pub fn from_input(input: &str) -> (rng: Self)
        ensures
            rng@ == nonzero_or(fnv1a(input.spec_bytes()), golden_seed()),
    {
        let mut state = fnv1a_hash(input);
        if state == 0 {
            state = 0x9e37_79b9_7f4a_7c15;
        }
        Self { state }
    }

    pub fn next_u64(&mut self) -> (value: u64)
        ensures
            value == xorshift64(old(self)@),
            final(self)@ == value,
    {
        let mut value = self.state;
        value ^= value << 13;
        value ^= value >> 7;
        value ^= value << 17;
        self.state = value;
        value
    }

    /// Fisher-Yates shuffle drawing each index as the next value modulo the range.
    pub fn shuffle<T>(&mut self, values: &mut [T])
        ensures
            (final(values)@, final(self)@) == fisher_yates(old(values)@, old(self)@, draw_mod_u64()),
            final(values)@.to_multiset() == old(values)@.to_multiset(),
    {
        let len = values.len();
        proof {
            lemma_picks_in_range();
            lemma_fisher_yates_permutes(values@, self@, draw_mod_u64());
        }
        if len < 2 {
            return;
        }
        let ghost target = fisher_yates(values@, self@, draw_mod_u64());
        let mut index = len - 1;
        while index >= 1
            invariant
                index < len,
                values@.len() == len,
                shuffle_passes(values@, self@, index as nat, draw_mod_u64()) == target,
            decreases index,
        {
            let target_index = (self.next_u64() % (index as u64 + 1)) as usize;
            values.swap(index, target_index);
            index -= 1;
        }
    }
}

/// A one-step frame showing `symbol` in `style`.
pub open spec fn step_frame(symbol: char, style: Style, duration: u32) -> Frame {
    Frame { visual: CharacterVisual { symbol, style }, duration }
}

/// A scene that has not started, holding `frames`.
pub open spec fn idle_scene(frames: Seq<Frame>, looping: bool) -> SceneView {
    SceneView { frames, frame_index: 0, frame_tick: 0, looping, active: false, finished: false }
}

/// The character breaking down through ever lighter shade blocks to nothing.
pub fn crumble_scene(symbol: char, style: &Style) -> (scene: Scene)
    ensures
        scene.wf(),
        scene@ == idle_scene(
            seq![
                step_frame(symbol, *style, 1),
                step_frame('▉', *style, 1),
                step_frame('▓', *style, 1),
                step_frame('▒', *style, 1),
                step_frame('░', *style, 1),
                step_frame(' ', *style, 1),
            ],
            false,
        ),
{
    let mut scene = Scene::new(false);
    scene.add_frame(Frame::new(CharacterVisual::new(symbol, *style), 1));
    scene.add_frame(Frame::new(CharacterVisual::new('▉', *style), 1));
    scene.add_frame(Frame::new(CharacterVisual::new('▓', *style), 1));
    scene.add_frame(Frame::new(CharacterVisual::new('▒', *style), 1));
    scene.add_frame(Frame::new(CharacterVisual::new('░', *style), 1));
    scene.add_frame(Frame::new(CharacterVisual::new(' ', *style), 1));
    assert(scene@.frames =~= seq![
        step_frame(symbol, *style, 1),
        step_frame('▉', *style, 1),
        step_frame('▓', *style, 1),
        step_frame('▒', *style, 1),
        step_frame('░', *style, 1),
        step_frame(' ', *style, 1),
    ]);
    scene
}

/// The dust colour.
pub open spec fn dust_style() -> Style {
    Style {
        colors: ColorPair { foreground: Some(Color::Rgb { r: 0xb2, g: 0xa1, b: 0x8f }), background: None },
        ..plain_style()
    }
}

/// Looping swirl of dust.
pub fn dust_scene() -> (scene: Scene)
    ensures
        scene.wf(),
        scene@ == idle_scene(
            seq![
                step_frame('░', dust_style(), 2),
                step_frame('▒', dust_style(), 1),
                step_frame('░', dust_style(), 2),
            ],
            true,
        ),
{
    let dust = Style::default().with_foreground(Color::rgb(0xb2, 0xa1, 0x8f));
    let mut scene = Scene::new(true);
    scene.add_frame(Frame::new(CharacterVisual::new('░', dust), 2));
    scene.add_frame(Frame::new(CharacterVisual::new('▒', dust), 1));
    scene.add_frame(Frame::new(CharacterVisual::new('░', dust), 2));
    assert(scene@.frames =~= seq![
        step_frame('░', dust_style(), 2),
        step_frame('▒', dust_style(), 1),
        step_frame('░', dust_style(), 2),
    ]);
    scene
}

/// Dust condensing back into the character.
pub fn reform_scene(symbol: char, style: &Style) -> (scene: Scene)
    ensures
        scene.wf(),
        scene@ == idle_scene(
            seq![
                step_frame('░', *style, 1),
                step_frame('▒', *style, 1),
                step_frame('▓', *style, 1),
                step_frame(symbol, *style, 1),
            ],
            false,
        ),
{
    let mut scene = Scene::new(false);
    scene.add_frame(Frame::new(CharacterVisual::new('░', *style), 1));
    scene.add_frame(Frame::new(CharacterVisual::new('▒', *style), 1));
    scene.add_frame(Frame::new(CharacterVisual::new('▓', *style), 1));
    scene.add_frame(Frame::new(CharacterVisual::new(symbol, *style), 1));
    assert(scene@.frames =~= seq![
        step_frame('░', *style, 1),
        step_frame('▒', *style, 1),
        step_frame('▓', *style, 1),
        step_frame(symbol, *style, 1),
    ]);
    scene
}

} // verus!
