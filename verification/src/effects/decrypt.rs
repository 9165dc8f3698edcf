use vstd::prelude::*;

use crate::effects::random::{fnv1a, fnv1a_hash, golden_seed, nonzero_or, xorshift64};
use crate::engine::animation::{
    activated, frame_length, frames_length_from, lemma_run_scene_one_more, lemma_scene_ends_on_last_frame,
    lemma_scene_finishes_on_time, remaining_steps, run_scene, scene_wf, step_scene, CharacterVisual, Frame, Scene, SceneView,
};
use crate::engine::canvas::render_canvas;
use crate::engine::character::{shown_after, CharacterId, EffectCharacter};
use crate::engine::edit::{hide_range, lit_character, repaint, row_colored_frame, set_shown, snapshot};
use crate::engine::terminal::{
    any_scene_running, cleared, draw_all, lemma_draw_all_looks, lemma_text_cells_in_grid, same_look, scene_running,
    text_canvas, text_cells, Terminal,
};
use crate::utils::geometry::Coord;
use crate::utils::graphics::{foreground_only, plain_style, Color, Style};
use crate::utils::text::{lemma_rows_nonempty, text_grid, text_rows};
use vstd::string::StringSliceAdditionalSpecFns;

verus! {

/// The text is typed out as ciphertext and then decrypted in place.
pub struct Decrypt;

impl Decrypt {
    pub fn new() -> (effect: Self)
        ensures
            effect == Decrypt,
    {
        Decrypt
    }

    pub fn name(&self) -> (name: &'static str)
        ensures
            name@ == "decrypt"@,
    {
        "decrypt"
    }

    /// The frames of the decryption: the characters are typed two per frame as random
    /// ciphertext in three greens; then every character plays its decryption at once (five
    /// to ten frames of ciphertext of one or two steps, four shades of block, then its own
    /// symbol in the colour `row_colors` gives its row), one frame per step until the longest
    /// has ended. The randomness is a xorshift generator seeded from the text's bytes.
    #[verifier::spinoff_prover]
    #[verifier::rlimit(50)]
    pub fn frames(&self, input: &str, row_colors: &Vec<Color>) -> (frames: Vec<String>)
        requires
            text_grid(input@).0 * text_grid(input@).1 <= usize::MAX,
            text_grid(input@).0 <= i32::MAX,
            text_grid(input@).1 <= i32::MAX,
            row_colors.len() == text_grid(input@).1,
        ensures
            frames.len() == decrypt_frame_count(input@, text_seed(input), row_colors@),
            forall|f: int|
                0 <= f < frames.len() ==> (#[trigger] frames[f])@ == decrypt_frame(
                    input@,
                    text_seed(input),
                    row_colors@,
                    f,
                ),
            frames.len() > 0,
            frames@.last()@ == row_colored_frame(input@, row_colors@),
    {
        let ghost text = input@;
        let ghost rows = text_rows(text);
        let ghost cells = text_cells(rows);
        let ghost seed = text_seed(input);
        let ghost looks = typed_looks(seed, cells.len()).0;
        let mut terminal = Terminal::from_text(input);
        let mut rng = LocalRng::from_input(input);
        let mut frames: Vec<String> = Vec::new();
        let count = terminal.characters().len();
        let ghost canvas0 = terminal@.canvas;
        proof {
            lemma_rows_nonempty(text);
            lemma_text_cells_in_grid(rows);
            assert(canvas0.cells =~= text_canvas(text).cells);
            assert(cleared(canvas0).cells =~= canvas0.cells);
            lemma_typed_prefix(seed, cells.len(), cells.len());
        }
        hide_range(&mut terminal, 0, count);
        let mut typed: usize = 0;
        while typed < count
            invariant
                typed <= count,
                count == cells.len(),
                cells == text_cells(rows),
                rows == text_rows(text),
                text == input@,
                seed == text_seed(input),
                looks == typed_looks(seed, cells.len()).0,
                looks.len() == count,
                terminal.wf(),
                cleared(terminal@.canvas) == canvas0,
                canvas0 == text_canvas(text),
                terminal@.characters.len() == count,
                rng@ == typed_looks(seed, typed as nat).1,
                frames.len() == (typed + 1) / 2,
                typed < count ==> typed % 2 == 0,
                forall|i: int|
                    0 <= i < count ==> {
                        &&& (#[trigger] terminal@.characters[i]).position == cells[i].1
                        &&& terminal@.characters[i].input_symbol == cells[i].0
                        &&& terminal@.characters[i].animation@.active_scene is None
                        &&& terminal@.characters[i].wf()
                        &&& i < typed ==> {
                            &&& terminal@.characters[i].visible
                            &&& terminal@.characters[i].symbol == looks[i].0
                            &&& terminal@.characters[i].style == foreground_only(looks[i].1)
                        }
                        &&& typed <= i ==> {
                            &&& !terminal@.characters[i].visible
                            &&& terminal@.characters[i].symbol == cells[i].0
                            &&& terminal@.characters[i].style == plain_style()
                        }
                    },
                forall|f: int|
                    0 <= f < frames.len() ==> (#[trigger] frames[f])@ == decrypt_frame(text, seed, row_colors@, f),
            decreases count - typed,
        {
            let end = if count - typed > 2 {
                typed + 2
            } else {
                count
            };
            let ghost before = terminal@.characters;
            type_characters(&mut terminal, &mut rng, typed, end, Ghost(seed));
            let ghost shot = terminal@;
            let ghost f = frames.len() as int;
            let ghost earlier = frames@;
            snapshot(&mut terminal, &mut frames);
            proof {
                assert forall|i: int| typed <= i < end implies #[trigger] typed_looks(seed, (i + 1) as nat).0[i]
                    == looks[i] by {
                    lemma_typed_prefix(seed, (i + 1) as nat, cells.len());
                }
                assert(f < typing_frames(cells.len()));
                let scenes = decrypt_scenes(typed_looks(seed, cells.len()).1, cells, row_colors@, cells.len()).0;
                let expected = Seq::new(
                    cells.len(),
                    |i: int|
                        if f < typing_frames(cells.len()) {
                            typing_character(cells[i], looks[i], i < 2 * (f + 1))
                        } else {
                            decrypting_character(cells[i], scenes[i], looks[i], (f - typing_frames(cells.len()) + 1) as nat)
                        },
                );
                assert forall|i: int| 0 <= i < count implies same_look(#[trigger] shot.characters[i], expected[i]) by {
                    if typed <= i < end {
                        assert(typed_looks(seed, (i + 1) as nat).0[i] == looks[i]);
                    } else {
                        assert(shot.characters[i] == before[i]);
                    }
                }
                lemma_draw_all_looks(canvas0, shot.characters, expected);
                assert(frames[f]@ == decrypt_frame(text, seed, row_colors@, f));
                assert forall|g: int| 0 <= g < frames.len() implies (#[trigger] frames[g])@ == decrypt_frame(
                    text,
                    seed,
                    row_colors@,
                    g,
                ) by {
                    if g < f {
                        assert(frames[g] == earlier[g]);
                    }
                }
                assert forall|i: int| 0 <= i < count implies {
                    &&& (#[trigger] terminal@.characters[i]).position == cells[i].1
                    &&& terminal@.characters[i].input_symbol == cells[i].0
                    &&& terminal@.characters[i].animation@.active_scene is None
                    &&& terminal@.characters[i].wf()
                    &&& i < end ==> {
                        &&& terminal@.characters[i].visible
                        &&& terminal@.characters[i].symbol == looks[i].0
                        &&& terminal@.characters[i].style == foreground_only(looks[i].1)
                    }
                    &&& end <= i ==> {
                        &&& !terminal@.characters[i].visible
                        &&& terminal@.characters[i].symbol == cells[i].0
                        &&& terminal@.characters[i].style == plain_style()
                    }
                } by {
                    if !(typed <= i < end) {
                        assert(shot.characters[i] == before[i]);
                    }
                }
            }
            typed = end;
        }
        let ghost after_typing = rng@;
        proof {
            assert forall|i: int| 0 <= i < cells.len() implies 0 <= (#[trigger] cells[i]).1.y < row_colors.len() by {}
        }
        let ghost typed_view = terminal@.characters;
        start_decryptions(&mut terminal, &mut rng, row_colors, Ghost(cells));
        if count == 0 {
            let ghost shot = terminal@;
            snapshot(&mut terminal, &mut frames);
            proof {
                assert(shot.characters.len() == 0);
                assert(draw_all(canvas0, shot.characters) == canvas0);
                assert(Seq::<EffectCharacter>::new(0, |i: int| arbitrary()) =~= shot.characters);
                let expected = Seq::new(
                    cells.len(),
                    |i: int|
                        if 0 < typing_frames(cells.len()) {
                            typing_character(cells[i], looks[i], i < 2)
                        } else {
                            decrypting_character(
                                cells[i],
                                decrypt_scenes(after_typing, cells, row_colors@, cells.len()).0[i],
                                looks[i],
                                1,
                            )
                        },
                );
                assert(expected =~= shot.characters);
                lemma_decrypt_ends_in_row_colors(text, seed, row_colors@);
                assert(frames@.last() == frames[frames.len() - 1]);
            }
            return frames;
        }
        let ghost scenes = decrypt_scenes(after_typing, cells, row_colors@, cells.len()).0;
        let ghost longest = longest_scene(scenes);
        let ghost typing = typing_frames(cells.len());
        proof {
            lemma_longest_scene(scenes);
            lemma_scenes_prefix(after_typing, cells, row_colors@, cells.len(), cells.len());
            lemma_scenes_nonempty(after_typing, cells, row_colors@, cells.len());
            assert(frames.len() == typing);
            let top = choose|i: int| 0 <= i < scenes.len() && frames_length_from(#[trigger] scenes[i], 0) == longest;
            assert(scenes[top].len() > 0);
            assert(longest >= 1);
        }
        let ghost mut k: int = 0;
        let mut running = true;
        while running
            invariant
                0 <= k <= longest,
                longest >= 1,
                running == (k < longest),
                count == cells.len(),
                count >= 1,
                cells == text_cells(rows),
                rows == text_rows(text),
                text == input@,
                seed == text_seed(input),
                looks == typed_looks(seed, cells.len()).0,
                after_typing == typed_looks(seed, cells.len()).1,
                scenes == decrypt_scenes(after_typing, cells, row_colors@, cells.len()).0,
                scenes.len() == count,
                longest == longest_scene(scenes),
                forall|i: int| 0 <= i < scenes.len() ==> frames_length_from(#[trigger] scenes[i], 0) <= longest,
                exists|i: int| 0 <= i < scenes.len() && frames_length_from(#[trigger] scenes[i], 0) == longest,
                forall|i: int| 0 <= i < scenes.len() ==> (#[trigger] scenes[i]).len() > 0,
                typing == typing_frames(cells.len()),
                terminal.wf(),
                cleared(terminal@.canvas) == canvas0,
                canvas0 == text_canvas(text),
                terminal@.characters.len() == count,
                forall|i: int|
                    0 <= i < count ==> {
                        &&& (#[trigger] terminal@.characters[i]).position == cells[i].1
                        &&& terminal@.characters[i].input_symbol == cells[i].0
                        &&& terminal@.characters[i].wf()
                        &&& terminal@.characters[i].visible
                        &&& terminal@.characters[i].animation@.active_scene == Some(playing(scenes[i], k as nat))
                        &&& (terminal@.characters[i].symbol, terminal@.characters[i].style) == look_after(
                            scenes[i],
                            (looks[i].0, foreground_only(looks[i].1)),
                            k as nat,
                        )
                    },
                frames.len() == typing + k,
                forall|f: int|
                    0 <= f < frames.len() ==> (#[trigger] frames[f])@ == decrypt_frame(text, seed, row_colors@, f),
            decreases longest - k,
        {
            terminal.step();
            let ghost stepped = terminal@.characters;
            let ghost f = frames.len() as int;
            let ghost earlier = frames@;
            snapshot(&mut terminal, &mut frames);
            proof {
                assert(f >= typing_frames(cells.len()));
                let expected = Seq::new(
                    cells.len(),
                    |i: int|
                        if f < typing_frames(cells.len()) {
                            typing_character(cells[i], looks[i], i < 2 * (f + 1))
                        } else {
                            decrypting_character(cells[i], scenes[i], looks[i], (f - typing_frames(cells.len()) + 1) as nat)
                        },
                );
                assert forall|i: int| 0 <= i < count implies {
                    &&& same_look(#[trigger] stepped[i], expected[i])
                    &&& stepped[i].animation@.active_scene == Some(playing(scenes[i], (k + 1) as nat))
                } by {
                    lemma_run_scene_one_more(
                        activated(
                            SceneView {
                                frames: scenes[i],
                                frame_index: 0,
                                frame_tick: 0,
                                looping: false,
                                active: false,
                                finished: false,
                            },
                        ),
                        k as nat,
                    );
                }
                lemma_draw_all_looks(canvas0, stepped, expected);
                assert(frames[f]@ == decrypt_frame(text, seed, row_colors@, f));
                assert forall|g: int| 0 <= g < frames.len() implies (#[trigger] frames[g])@ == decrypt_frame(
                    text,
                    seed,
                    row_colors@,
                    g,
                ) by {
                    if g < f {
                        assert(frames[g] == earlier[g]);
                    }
                }
                k = k + 1;
            }
            running = any_scene_running(terminal.characters());
            proof {
                if k < longest {
                    let top = choose|i: int| 0 <= i < scenes.len() && frames_length_from(#[trigger] scenes[i], 0) == longest;
                    lemma_playing_active(scenes[top], k as nat);
                    assert(scene_running(terminal@.characters[top]));
                } else {
                    assert forall|i: int| 0 <= i < count implies !scene_running(#[trigger] terminal@.characters[i]) by {
                        lemma_playing_active(scenes[i], k as nat);
                    }
                }
            }
        }
        proof {
            lemma_decrypt_ends_in_row_colors(text, seed, row_colors@);
            assert(frames@.last() == frames[frames.len() - 1]);
        }
        frames
    }
}

impl Default for Decrypt {
    fn default() -> (effect: Self)
        ensures
            effect == Decrypt,
    {
        Self::new()
    }
}

/// One of three greens: dark for 0, medium for 1, bright otherwise.
pub fn ciphertext_color(index: usize) -> (color: Color)
    ensures
        color == if index == 0 {
            Color::Rgb { r: 0x00, g: 0x80, b: 0x00 }
        } else if index == 1 {
            Color::Rgb { r: 0x00, g: 0xcb, b: 0x00 }
        } else {
            Color::Rgb { r: 0x00, g: 0xff, b: 0x00 }
        },
{
    match index {
        0 => Color::rgb(0x00, 0x80, 0x00),
        1 => Color::rgb(0x00, 0xcb, 0x00),
        _ => Color::rgb(0x00, 0xff, 0x00),
    }
}

/// An index below `length` drawn from the state, and the next state; lengths of zero and
/// one give 0 without drawing.
pub open spec fn index_draw(state: u64, length: usize) -> (usize, u64) {
    if length <= 1 {
        (0, state)
    } else {
        ((xorshift64(state) % (length as u64)) as usize, xorshift64(state))
    }
}

/// A xorshift64 generator seeded from the input text.
pub struct LocalRng {
    state: u64,
}

impl View for LocalRng {
    type V = u64;

    closed spec fn view(&self) -> u64 {
        self.state
    }
}

impl LocalRng {
    /// Seeded with the FNV-1a hash of the input (a fixed constant in place of zero).
    pub fn from_input(input: &str) -> (rng: Self)
        ensures
            rng@ == nonzero_or(fnv1a(input.spec_bytes()), golden_seed()),
    {
        let mut state = fnv1a_hash(input);
        if state == 0 {
            state = 0x9e37_79b9_7f4a_7c15;
        }
        Self { state }
    }

    pub fn next_u64(&mut self) -> (value: u64)
        ensures
            value == xorshift64(old(self)@),
            final(self)@ == value,
    {
        let mut value = self.state;
        value ^= value << 13;
        value ^= value >> 7;
        value ^= value << 17;
        self.state = value;
        value
    }

    /// An index below `length`; lengths of zero and one give 0 without drawing.
    pub fn index(&mut self, length: usize) -> (index: usize)
        ensures
            (index, final(self)@) == index_draw(old(self)@, length),
    {
        if length <= 1 {
            0
        } else {
            (self.next_u64() % length as u64) as usize
        }
    }

    /// A value in `minimum..=maximum` (just `minimum` when the range is empty or a single
    /// value); the span must fit in `usize`.
    pub fn range_inclusive(&mut self, minimum: usize, maximum: usize) -> (value: usize)
        requires
            maximum <= minimum || maximum - minimum + 1 <= usize::MAX,
        ensures
            maximum <= minimum ==> value == minimum && final(self)@ == old(self)@,
            maximum > minimum ==> {
                let (offset, next) = index_draw(old(self)@, (maximum - minimum + 1) as usize);
                value == minimum + offset && final(self)@ == next
            },
    {
        if maximum <= minimum {
            minimum
        } else {
            minimum + self.index(maximum - minimum + 1)
        }
    }
}

/// The symbols of the ciphertext: digits, upper and lower case letters, then
/// `!@#$%^&*+=?/\\|:;<>~`.
pub open spec fn cipher_symbols() -> Seq<char> {
    seq![
        '0', '1', '2', '3', '4', '5', '6', '7', '8', '9', 'A', 'B', 'C', 'D', 'E', 'F', 'G', 'H',
        'I', 'J', 'K', 'L', 'M', 'N', 'O', 'P', 'Q', 'R', 'S', 'T', 'U', 'V', 'W', 'X', 'Y', 'Z',
        'a', 'b', 'c', 'd', 'e', 'f', 'g', 'h', 'i', 'j', 'k', 'l', 'm', 'n', 'o', 'p', 'q', 'r',
        's', 't', 'u', 'v', 'w', 'x', 'y', 'z', '!', '@', '#', '$', '%', '^', '&', '*', '+', '=',
        '?', '/', '\\', '|', ':', ';', '<', '>', '~',
    ]
}

/// The green `ciphertext_color` gives for `index`.
pub open spec fn cipher_color(index: usize) -> Color {
    if index == 0 {
        Color::Rgb { r: 0x00, g: 0x80, b: 0x00 }
    } else if index == 1 {
        Color::Rgb { r: 0x00, g: 0xcb, b: 0x00 }
    } else {
        Color::Rgb { r: 0x00, g: 0xff, b: 0x00 }
    }
}

/// The generator's first state for `input`: the FNV-1a hash of its bytes, never zero.
pub open spec fn text_seed(input: &str) -> u64 {
    nonzero_or(fnv1a(input.spec_bytes()), golden_seed())
}

/// The ciphertext the first `n` characters show as they are typed, drawn in turn from
/// `state` (a symbol, then a colour, for each), and the state after.
pub open spec fn typed_looks(state: u64, n: nat) -> (Seq<(char, Color)>, u64)
    decreases n,
{
    if n == 0 {
        (Seq::empty(), state)
    } else {
        let (before, s0) = typed_looks(state, (n - 1) as nat);
        let (symbol, s1) = index_draw(s0, 81);
        let (color, s2) = index_draw(s1, 3);
        (before.push((cipher_symbols()[symbol as int], cipher_color(color))), s2)
    }
}

/// `n` frames of ciphertext drawn in turn from `state` (a symbol, a colour and a duration
/// of one or two steps for each), and the state after.
pub open spec fn cipher_frames(state: u64, n: nat) -> (Seq<Frame>, u64)
    decreases n,
{
    if n == 0 {
        (Seq::empty(), state)
    } else {
        let (before, s0) = cipher_frames(state, (n - 1) as nat);
        let (symbol, s1) = index_draw(s0, 81);
        let (color, s2) = index_draw(s1, 3);
        let (duration, s3) = index_draw(s2, 2);
        (
            before.push(
                Frame {
                    visual: CharacterVisual {
                        symbol: cipher_symbols()[symbol as int],
                        style: foreground_only(cipher_color(color)),
                    },
                    duration: (1 + duration) as u32,
                },
            ),
            s3,
        )
    }
}

/// The shade of block number `k`, from full to light.
pub open spec fn block_symbol(k: int) -> char {
    if k == 0 {
        '█'
    } else if k == 1 {
        '▓'
    } else if k == 2 {
        '▒'
    } else {
        '░'
    }
}

/// The first `n` block frames, one step each, their colours drawn in turn from `state`,
/// and the state after.
pub open spec fn block_frames(state: u64, n: nat) -> (Seq<Frame>, u64)
    decreases n,
{
    if n == 0 {
        (Seq::empty(), state)
    } else {
        let (before, s0) = block_frames(state, (n - 1) as nat);
        let (color, s1) = index_draw(s0, 3);
        (
            before.push(
                Frame {
                    visual: CharacterVisual { symbol: block_symbol(n - 1), style: foreground_only(cipher_color(color)) },
                    duration: 1,
                },
            ),
            s1,
        )
    }
}

/// A character's decryption drawn from `state`: five to ten frames of ciphertext, the
/// four blocks, then its symbol in its final colour; and the state after.
pub open spec fn decrypt_scene(state: u64, symbol: char, final_color: Color) -> (Seq<Frame>, u64) {
    let (extra, s1) = index_draw(state, 6);
    let (cipher, s2) = cipher_frames(s1, (5 + extra) as nat);
    let (blocks, s3) = block_frames(s2, 4);
    ((cipher + blocks).push(Frame { visual: CharacterVisual { symbol, style: foreground_only(final_color) }, duration: 1 }), s3)
}

/// The decryptions of the first `n` characters of `cells`, drawn in turn from `state`, each
/// ending in its row's colour from `row_colors`; and the state after.
pub open spec fn decrypt_scenes(
    state: u64,
    cells: Seq<(char, Coord)>,
    row_colors: Seq<Color>,
    n: nat,
) -> (Seq<Seq<Frame>>, u64)
    decreases n,
{
    if n == 0 {
        (Seq::empty(), state)
    } else {
        let (before, s0) = decrypt_scenes(state, cells, row_colors, (n - 1) as nat);
        let (frames, s1) = decrypt_scene(s0, cells[n - 1].0, row_colors[cells[n - 1].1.y as int]);
        (before.push(frames), s1)
    }
}

/// A decryption's last frame shows the character's own symbol in `final_color`.
proof fn lemma_scene_ends_settled(state: u64, symbol: char, final_color: Color)
    ensures
        decrypt_scene(state, symbol, final_color).0.len() > 0,
        decrypt_scene(state, symbol, final_color).0.last().visual == (CharacterVisual {
            symbol,
            style: foreground_only(final_color),
        }),
{
    lemma_scene_has_frames(state, symbol, final_color);
}

/// Every character's decryption ends on its own symbol in its row's colour.
proof fn lemma_scenes_end_settled(state: u64, cells: Seq<(char, Coord)>, row_colors: Seq<Color>, n: nat)
    ensures
        forall|i: int|
            0 <= i < n ==> {
                &&& (#[trigger] decrypt_scenes(state, cells, row_colors, n).0[i]).len() > 0
                &&& decrypt_scenes(state, cells, row_colors, n).0[i].last().visual == (CharacterVisual {
                    symbol: cells[i].0,
                    style: foreground_only(row_colors[cells[i].1.y as int]),
                })
            },
    decreases n,
{
    if n > 0 {
        lemma_scenes_end_settled(state, cells, row_colors, (n - 1) as nat);
        lemma_scenes_prefix(state, cells, row_colors, (n - 1) as nat, n);
        let s0 = decrypt_scenes(state, cells, row_colors, (n - 1) as nat).1;
        lemma_scene_ends_settled(s0, cells[n - 1].0, row_colors[cells[n - 1].1.y as int]);
        assert forall|i: int| 0 <= i < n implies {
            &&& (#[trigger] decrypt_scenes(state, cells, row_colors, n).0[i]).len() > 0
            &&& decrypt_scenes(state, cells, row_colors, n).0[i].last().visual == (CharacterVisual {
                symbol: cells[i].0,
                style: foreground_only(row_colors[cells[i].1.y as int]),
            })
        } by {
            if i < n - 1 {
                assert(decrypt_scenes(state, cells, row_colors, (n - 1) as nat).0[i] == decrypt_scenes(
                    state,
                    cells,
                    row_colors,
                    n,
                ).0[i]);
            }
        }
    }
}

/// Once a decryption has run its course, the character shows its last frame for good.
proof fn lemma_look_after_end(frames: Seq<Frame>, initial: (char, Style), k: nat)
    requires
        frames.len() > 0,
        k >= frames_length_from(frames, 0),
    ensures
        look_after(frames, initial, k) == (frames.last().visual.symbol, frames.last().visual.style),
    decreases k,
{
    let start = activated(
        SceneView { frames, frame_index: 0, frame_tick: 0, looping: false, active: false, finished: false },
    );
    assert(scene_wf(start));
    assert(remaining_steps(start) == frames_length_from(frames, 0));
    lemma_scene_ends_on_last_frame(start, (k - 1) as nat);
    if k > frames_length_from(frames, 0) {
        lemma_look_after_end(frames, initial, (k - 1) as nat);
    }
}

/// The decryption ends with the text in its rows' colours: its last frame shows every
/// character of the text at its place in the colour `row_colors` gives its row, whatever
/// the ciphertext drawn on the way.
pub proof fn lemma_decrypt_ends_in_row_colors(text: Seq<char>, seed: u64, row_colors: Seq<Color>)
    ensures
        decrypt_frame(text, seed, row_colors, decrypt_frame_count(text, seed, row_colors) - 1) == row_colored_frame(
            text,
            row_colors,
        ),
{
    let cells = text_cells(text_rows(text));
    let (looks, after_typing) = typed_looks(seed, cells.len());
    let scenes = decrypt_scenes(after_typing, cells, row_colors, cells.len()).0;
    let typing = typing_frames(cells.len());
    let f = decrypt_frame_count(text, seed, row_colors) - 1;
    let shown = Seq::new(
        cells.len(),
        |i: int|
            if f < typing {
                typing_character(cells[i], looks[i], i < 2 * (f + 1))
            } else {
                decrypting_character(cells[i], scenes[i], looks[i], (f - typing + 1) as nat)
            },
    );
    let settled = Seq::new(cells.len(), |i: int| lit_character(cells[i], foreground_only(row_colors[cells[i].1.y as int])));
    if cells.len() > 0 {
        lemma_scenes_prefix(after_typing, cells, row_colors, cells.len(), cells.len());
        lemma_scenes_end_settled(after_typing, cells, row_colors, cells.len());
        lemma_longest_scene(scenes);
        assert(scenes[0].len() > 0);
        assert(frames_length_from(scenes[0], 0) >= 1);
        assert forall|i: int| 0 <= i < cells.len() implies shown[i] == settled[i] by {
            assert(scenes[i].len() > 0);
            lemma_look_after_end(scenes[i], (looks[i].0, foreground_only(looks[i].1)), longest_scene(scenes));
        }
    }
    assert(shown =~= settled);
}

/// A scene of `frames` started and `k` steps on.
pub open spec fn playing(frames: Seq<Frame>, k: nat) -> SceneView {
    run_scene(
        activated(
            SceneView { frames, frame_index: 0, frame_tick: 0, looping: false, active: false, finished: false },
        ),
        k,
    )
}

/// What a character that showed `initial` shows `k` steps into playing `frames`.
pub open spec fn look_after(frames: Seq<Frame>, initial: (char, Style), k: nat) -> (char, Style)
    decreases k,
{
    if k == 0 {
        initial
    } else {
        let before = look_after(frames, initial, (k - 1) as nat);
        shown_after(before.0, before.1, step_scene(playing(frames, (k - 1) as nat)).1)
    }
}

/// The longest of the scenes, in steps.
pub open spec fn longest_scene(scenes: Seq<Seq<Frame>>) -> nat
    decreases scenes.len(),
{
    if scenes.len() == 0 {
        0
    } else {
        let rest = longest_scene(scenes.drop_last());
        let last = frames_length_from(scenes.last(), 0);
        if last > rest {
            last
        } else {
            rest
        }
    }
}

/// A character of the text while it is typed: once typed, its ciphertext in its green;
/// before, hidden as it came.
pub open spec fn typing_character(cell: (char, Coord), look: (char, Color), typed: bool) -> EffectCharacter {
    EffectCharacter {
        id: CharacterId(0),
        input_symbol: cell.0,
        symbol: if typed {
            look.0
        } else {
            cell.0
        },
        position: cell.1,
        style: if typed {
            foreground_only(look.1)
        } else {
            plain_style()
        },
        visible: typed,
        animation: arbitrary(),
    }
}

/// A character of the text `k` steps into its decryption.
pub open spec fn decrypting_character(cell: (char, Coord), frames: Seq<Frame>, look: (char, Color), k: nat) -> EffectCharacter {
    let (symbol, style) = look_after(frames, (look.0, foreground_only(look.1)), k);
    EffectCharacter {
        id: CharacterId(0),
        input_symbol: cell.0,
        symbol,
        position: cell.1,
        style,
        visible: true,
        animation: arbitrary(),
    }
}

/// The number of frames the characters are typed in: two characters each.
pub open spec fn typing_frames(count: nat) -> int {
    ((count + 1) / 2) as int
}

/// Frame `f` of the decryption of `text` with the generator started at `seed`: first the
/// characters typed two per frame as ciphertext, then one frame per step of their
/// decryptions, ending in the colours `row_colors` gives each row.
pub open spec fn decrypt_frame(text: Seq<char>, seed: u64, row_colors: Seq<Color>, f: int) -> Seq<char> {
    let cells = text_cells(text_rows(text));
    let (looks, after_typing) = typed_looks(seed, cells.len());
    let scenes = decrypt_scenes(after_typing, cells, row_colors, cells.len()).0;
    let typing = typing_frames(cells.len());
    render_canvas(
        draw_all(
            text_canvas(text),
            Seq::new(
                cells.len(),
                |i: int|
                    if f < typing {
                        typing_character(cells[i], looks[i], i < 2 * (f + 1))
                    } else {
                        decrypting_character(cells[i], scenes[i], looks[i], (f - typing + 1) as nat)
                    },
            ),
        ),
    )
}

/// The number of frames: the typing, then the steps of the longest decryption; one frame
/// of the empty canvas when the text has no character.
pub open spec fn decrypt_frame_count(text: Seq<char>, seed: u64, row_colors: Seq<Color>) -> int {
    let cells = text_cells(text_rows(text));
    let after_typing = typed_looks(seed, cells.len()).1;
    let scenes = decrypt_scenes(after_typing, cells, row_colors, cells.len()).0;
    if cells.len() == 0 {
        1
    } else {
        typing_frames(cells.len()) + longest_scene(scenes)
    }
}

/// The ciphertext symbol number `index`.
fn cipher_symbol(index: usize) -> (symbol: char)
    requires
        index < 81,
    ensures
        symbol == cipher_symbols()[index as int],
{
    let symbols: [char; 81] = [
        '0', '1', '2', '3', '4', '5', '6', '7', '8', '9', 'A', 'B', 'C', 'D', 'E', 'F', 'G', 'H',
        'I', 'J', 'K', 'L', 'M', 'N', 'O', 'P', 'Q', 'R', 'S', 'T', 'U', 'V', 'W', 'X', 'Y', 'Z',
        'a', 'b', 'c', 'd', 'e', 'f', 'g', 'h', 'i', 'j', 'k', 'l', 'm', 'n', 'o', 'p', 'q', 'r',
        's', 't', 'u', 'v', 'w', 'x', 'y', 'z', '!', '@', '#', '$', '%', '^', '&', '*', '+', '=',
        '?', '/', '\\', '|', ':', ';', '<', '>', '~',
    ];
    assert(symbols@ =~= cipher_symbols());
    symbols[index]
}

/// Draws a character's decryption: five to ten frames of ciphertext, the four blocks, then
/// `symbol` in `final_color`.
fn build_scene(rng: &mut LocalRng, symbol: char, final_color: Color) -> (frames: Vec<Frame>)
    ensures
        (frames@, final(rng)@) == decrypt_scene(old(rng)@, symbol, final_color),
{
    let extra = rng.range_inclusive(5, 10);
    let ghost s1 = rng@;
    let mut frames: Vec<Frame> = Vec::new();
    let mut j: usize = 0;
    while j < extra
        invariant
            j <= extra,
            (frames@, rng@) == cipher_frames(s1, j as nat),
        decreases extra - j,
    {
        let ghost before = rng@;
        let symbol_index = rng.index(81);
        let glyph = cipher_symbol(symbol_index);
        let color = ciphertext_color(rng.index(3));
        let duration = rng.range_inclusive(1, 2) as u32;
        frames.push(Frame::new(CharacterVisual::new(glyph, Style::default().with_foreground(color)), duration));
        j += 1;
    }
    let ghost cipher = frames@;
    let ghost s2 = rng@;
    let mut k: usize = 0;
    while k < 4
        invariant
            k <= 4,
            frames@ == cipher + block_frames(s2, k as nat).0,
            rng@ == block_frames(s2, k as nat).1,
        decreases 4 - k,
    {
        let block = if k == 0 {
            '█'
        } else if k == 1 {
            '▓'
        } else if k == 2 {
            '▒'
        } else {
            '░'
        };
        let color = ciphertext_color(rng.index(3));
        frames.push(Frame::new(CharacterVisual::new(block, Style::default().with_foreground(color)), 1));
        proof {
            assert(frames@ =~= cipher + block_frames(s2, (k + 1) as nat).0);
        }
        k += 1;
    }
    frames.push(Frame::new(CharacterVisual::new(symbol, Style::default().with_foreground(final_color)), 1));
    proof {
        assert(frames@ =~= decrypt_scene(old(rng)@, symbol, final_color).0);
    }
    frames
}

proof fn lemma_typed_prefix(state: u64, n: nat, m: nat)
    requires
        n <= m,
    ensures
        typed_looks(state, m).0.len() == m,
        forall|i: int| 0 <= i < n ==> #[trigger] typed_looks(state, n).0[i] == typed_looks(state, m).0[i],
    decreases m,
{
    if m > 0 {
        if n < m {
            lemma_typed_prefix(state, n, (m - 1) as nat);
        }
        lemma_typed_prefix(state, (m - 1) as nat, (m - 1) as nat);
    }
}

proof fn lemma_scenes_prefix(state: u64, cells: Seq<(char, Coord)>, row_colors: Seq<Color>, n: nat, m: nat)
    requires
        n <= m,
    ensures
        decrypt_scenes(state, cells, row_colors, m).0.len() == m,
        forall|i: int|
            0 <= i < n ==> #[trigger] decrypt_scenes(state, cells, row_colors, n).0[i] == decrypt_scenes(
                state,
                cells,
                row_colors,
                m,
            ).0[i],
    decreases m,
{
    if m > 0 {
        if n < m {
            lemma_scenes_prefix(state, cells, row_colors, n, (m - 1) as nat);
        }
        lemma_scenes_prefix(state, cells, row_colors, (m - 1) as nat, (m - 1) as nat);
    }
}

proof fn lemma_scene_has_frames(state: u64, symbol: char, final_color: Color)
    ensures
        decrypt_scene(state, symbol, final_color).0.len() > 0,
{
    let (extra, s1) = index_draw(state, 6);
    let (cipher, s2) = cipher_frames(s1, (5 + extra) as nat);
    let (blocks, s3) = block_frames(s2, 4);
    let closing = Frame { visual: CharacterVisual { symbol, style: foreground_only(final_color) }, duration: 1 };
    assert(decrypt_scene(state, symbol, final_color).0 == (cipher + blocks).push(closing));
}

/// Every decryption has frames.
proof fn lemma_scenes_nonempty(state: u64, cells: Seq<(char, Coord)>, row_colors: Seq<Color>, n: nat)
    ensures
        forall|i: int|
            0 <= i < n ==> (#[trigger] decrypt_scenes(state, cells, row_colors, n).0[i]).len() > 0,
    decreases n,
{
    if n > 0 {
        lemma_scenes_nonempty(state, cells, row_colors, (n - 1) as nat);
        lemma_scenes_prefix(state, cells, row_colors, (n - 1) as nat, n);
        assert forall|i: int| 0 <= i < n implies (#[trigger] decrypt_scenes(state, cells, row_colors, n).0[i]).len()
            > 0 by {
            if i < n - 1 {
                assert(decrypt_scenes(state, cells, row_colors, (n - 1) as nat).0[i] == decrypt_scenes(
                    state,
                    cells,
                    row_colors,
                    n,
                ).0[i]);
            } else {
                let s0 = decrypt_scenes(state, cells, row_colors, (n - 1) as nat).1;
                lemma_scene_has_frames(s0, cells[n - 1].0, row_colors[cells[n - 1].1.y as int]);
            }
        }
    }
}

/// Every scene is at most as long as the longest, and some scene is that long.
proof fn lemma_longest_scene(scenes: Seq<Seq<Frame>>)
    ensures
        forall|i: int| 0 <= i < scenes.len() ==> frames_length_from(#[trigger] scenes[i], 0) <= longest_scene(scenes),
        scenes.len() > 0 ==> exists|i: int|
            0 <= i < scenes.len() && frames_length_from(#[trigger] scenes[i], 0) == longest_scene(scenes),
    decreases scenes.len(),
{
    if scenes.len() > 0 {
        let rest = scenes.drop_last();
        lemma_longest_scene(rest);
        assert forall|i: int| 0 <= i < scenes.len() implies frames_length_from(#[trigger] scenes[i], 0)
            <= longest_scene(scenes) by {
            if i < rest.len() {
                assert(scenes[i] == rest[i]);
            }
        }
        if frames_length_from(scenes.last(), 0) <= longest_scene(rest) && rest.len() > 0 {
            let i = choose|i: int| 0 <= i < rest.len() && frames_length_from(#[trigger] rest[i], 0) == longest_scene(rest);
            assert(scenes[i] == rest[i]);
        } else {
            assert(scenes[scenes.len() - 1] == scenes.last());
        }
    }
}

/// A started scene with frames runs exactly as many steps as its frames last.
proof fn lemma_playing_active(frames: Seq<Frame>, k: nat)
    requires
        frames.len() > 0,
    ensures
        playing(frames, k).active <==> k < frames_length_from(frames, 0),
{
    let start = activated(
        SceneView { frames, frame_index: 0, frame_tick: 0, looping: false, active: false, finished: false },
    );
    assert(scene_wf(start));
    assert(remaining_steps(start) == frames_length_from(frames, 0));
    lemma_scene_finishes_on_time(start, k);
}

/// The characters `first..end` are typed: each shows a ciphertext symbol drawn from the
/// generator in its green; the generator has drawn for the first `first` characters from
/// `seed`.
fn type_characters(terminal: &mut Terminal, rng: &mut LocalRng, first: usize, end: usize, Ghost(seed): Ghost<u64>)
    requires
        old(terminal).wf(),
        first <= end <= old(terminal)@.characters.len(),
        old(rng)@ == typed_looks(seed, first as nat).1,
    ensures
        final(terminal).wf(),
        final(terminal)@.canvas == old(terminal)@.canvas,
        final(terminal)@.characters.len() == old(terminal)@.characters.len(),
        forall|i: int|
            0 <= i < old(terminal)@.characters.len() && !(first <= i < end) ==> #[trigger] final(terminal)@.characters[i]
                == old(terminal)@.characters[i],
        forall|i: int|
            first <= i < end ==> {
                let before = old(terminal)@.characters[i];
                let after = #[trigger] final(terminal)@.characters[i];
                let look = typed_looks(seed, (i + 1) as nat).0[i];
                &&& after.visible
                &&& after.symbol == look.0
                &&& after.style == foreground_only(look.1)
                &&& after.position == before.position
                &&& after.input_symbol == before.input_symbol
                &&& after.animation@.active_scene == before.animation@.active_scene
                &&& after.wf()
            },
        final(rng)@ == typed_looks(seed, end as nat).1,
{
    let ghost start = terminal@.characters;
    let mut i = first;
    while i < end
        invariant
            first <= i <= end,
            end <= start.len(),
            start == old(terminal)@.characters,
            terminal.wf(),
            terminal@.canvas == old(terminal)@.canvas,
            terminal@.characters.len() == start.len(),
            rng@ == typed_looks(seed, i as nat).1,
            forall|m: int| 0 <= m < start.len() && !(first <= m < i) ==> #[trigger] terminal@.characters[m] == start[m],
            forall|m: int|
                first <= m < i ==> {
                    let before = start[m];
                    let after = #[trigger] terminal@.characters[m];
                    let look = typed_looks(seed, (m + 1) as nat).0[m];
                    &&& after.visible
                    &&& after.symbol == look.0
                    &&& after.style == foreground_only(look.1)
                    &&& after.position == before.position
                    &&& after.input_symbol == before.input_symbol
                    &&& after.animation@.active_scene == before.animation@.active_scene
                    &&& after.wf()
                },
        decreases end - i,
    {
        let symbol = cipher_symbol(rng.index(81));
        let color = ciphertext_color(rng.index(3));
        let ghost before = terminal@.characters;
        set_shown(terminal, i, true);
        let characters = terminal.characters_mut();
        characters[i].set_appearance(symbol, Style::default().with_foreground(color));
        proof {
            assert forall|m: int| 0 <= m < start.len() && m != i implies #[trigger] terminal@.characters[m]
                == before[m] by {}
            assert(crate::engine::terminal::all_wf(terminal@.characters)) by {
                assert forall|m: int| 0 <= m < start.len() implies (#[trigger] terminal@.characters[m]).wf() by {
                    if m != i {
                        assert(terminal@.characters[m] == before[m]);
                    }
                }
            }
            lemma_typed_prefix(seed, i as nat, i as nat);
        }
        i += 1;
    }
}

/// Starts every character's decryption, drawn in turn from the generator, each ending in
/// its row's colour from `row_colors`; the characters' looks stay.
fn start_decryptions(terminal: &mut Terminal, rng: &mut LocalRng, row_colors: &Vec<Color>, Ghost(cells): Ghost<Seq<(char, Coord)>>)
    requires
        old(terminal).wf(),
        old(terminal)@.characters.len() == cells.len(),
        forall|i: int|
            0 <= i < cells.len() ==> {
                &&& (#[trigger] old(terminal)@.characters[i]).position == cells[i].1
                &&& old(terminal)@.characters[i].input_symbol == cells[i].0
                &&& 0 <= cells[i].1.y < row_colors.len()
            },
    ensures
        final(terminal).wf(),
        final(terminal)@.canvas == old(terminal)@.canvas,
        final(terminal)@.characters.len() == cells.len(),
        forall|i: int|
            0 <= i < cells.len() ==> {
                let before = old(terminal)@.characters[i];
                let after = #[trigger] final(terminal)@.characters[i];
                &&& after.visible == before.visible
                &&& after.position == before.position
                &&& after.input_symbol == before.input_symbol
                &&& after.symbol == before.symbol
                &&& after.style == before.style
                &&& after.wf()
                &&& after.animation@.active_scene == Some(
                    playing(decrypt_scenes(old(rng)@, cells, row_colors@, cells.len()).0[i], 0),
                )
            },
        final(rng)@ == decrypt_scenes(old(rng)@, cells, row_colors@, cells.len()).1,
{
    let ghost seed = rng@;
    let ghost start = terminal@.characters;
    let count = terminal.characters().len();
    let mut i: usize = 0;
    while i < count
        invariant
            i <= count,
            count == cells.len(),
            start == old(terminal)@.characters,
            terminal.wf(),
            terminal@.canvas == old(terminal)@.canvas,
            terminal@.characters.len() == count,
            rng@ == decrypt_scenes(seed, cells, row_colors@, i as nat).1,
            forall|m: int|
                0 <= m < cells.len() ==> {
                    &&& (#[trigger] start[m]).position == cells[m].1
                    &&& start[m].input_symbol == cells[m].0
                    &&& 0 <= cells[m].1.y < row_colors.len()
                },
            forall|m: int| i <= m < count ==> #[trigger] terminal@.characters[m] == start[m],
            forall|m: int|
                0 <= m < i ==> {
                    let before = start[m];
                    let after = #[trigger] terminal@.characters[m];
                    &&& after.visible == before.visible
                    &&& after.position == before.position
                    &&& after.input_symbol == before.input_symbol
                    &&& after.symbol == before.symbol
                    &&& after.style == before.style
                    &&& after.wf()
                    &&& after.animation@.active_scene == Some(
                        playing(decrypt_scenes(seed, cells, row_colors@, (m + 1) as nat).0[m], 0),
                    )
                },
        decreases count - i,
    {
        let symbol = terminal.characters()[i].input_symbol;
        let y = terminal.characters()[i].position.y;
        let frames = build_scene(rng, symbol, row_colors[y as usize]);
        let ghost built = frames@;
        let scene = Scene::with_frames(frames, false);
        let ghost before = terminal@.characters;
        let characters = terminal.characters_mut();
        characters[i].animation.activate_scene(scene);
        proof {
            assert(built.len() > 0);
            assert forall|m: int| 0 <= m < count && m != i implies #[trigger] terminal@.characters[m] == before[m] by {}
            assert(crate::engine::terminal::all_wf(terminal@.characters)) by {
                assert forall|m: int| 0 <= m < count implies (#[trigger] terminal@.characters[m]).wf() by {
                    if m != i {
                        assert(terminal@.characters[m] == before[m]);
                    }
                }
            }
            lemma_scenes_prefix(seed, cells, row_colors@, i as nat, i as nat);
            assert(decrypt_scenes(seed, cells, row_colors@, (i + 1) as nat).0[i as int] == built);
        }
        i += 1;
    }
    proof {
        assert forall|m: int| 0 <= m < cells.len() implies decrypt_scenes(seed, cells, row_colors@, (m + 1) as nat).0[m]
            == #[trigger] decrypt_scenes(seed, cells, row_colors@, cells.len()).0[m] by {
            lemma_scenes_prefix(seed, cells, row_colors@, (m + 1) as nat, cells.len());
        }
    }
}

} // verus!
