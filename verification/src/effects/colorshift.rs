use vstd::prelude::*;

use crate::engine::animation::{
    activated, lemma_run_scene_one_more, lemma_uniform_scene_position, run_scene, scene_wf,
    step_scene, uniform_frames, AnimationView, CharacterVisual, Frame, Scene, SceneView,
};
use crate::engine::canvas::{blank_cell, render_canvas, CanvasView};
use crate::engine::character::{character_stepped, CharacterId, EffectCharacter};
use crate::engine::terminal::{
    all_wf, any_scene_running, cleared, draw_all, fresh_character, lemma_draw_all_looks, placed,
    same_look, saturated_id, scene_running, text_canvas, text_cells, Terminal,
};
use crate::utils::geometry::Coord;
use crate::utils::graphics::{foreground_only, Color, Style};
use crate::utils::text::{text_grid, text_rows};

verus! {

/// Every character cycles through a rainbow spectrum, phase-shifted by column.
#[derive(Debug, Clone, Copy, Default)]
pub struct Colorshift;

/// How many steps each colour of the spectrum is shown.
pub open spec fn shift_duration() -> u32 {
    5
}

/// The offset into a spectrum of `count` colours of a character in column `x` of a canvas
/// `width` wide: the columns spread evenly over the spectrum.
pub open spec fn column_phase(x: i32, width: nat, count: nat) -> int {
    if width <= 1 {
        0
    } else {
        let column: int = if x < 0 {
            0
        } else if x > width - 1 {
            width - 1
        } else {
            x as int
        };
        column * (if count >= 1 { count - 1 } else { 0 }) / (width - 1)
    }
}

/// The frames a character cycles through: each colour of the spectrum from its phase on,
/// each shown for `shift_duration` steps.
pub open spec fn shift_frames(symbol: char, phase: int, spectrum: Seq<Color>) -> Seq<Frame> {
    Seq::new(
        spectrum.len(),
        |offset: int|
            Frame {
                visual: CharacterVisual {
                    symbol,
                    style: foreground_only(spectrum[(phase + offset) % (spectrum.len() as int)]),
                },
                duration: shift_duration(),
            },
    )
}

/// The character as frame `frame` draws it: its symbol in the colour its phase has reached.
pub open spec fn shifted_character(
    symbol: char,
    position: Coord,
    spectrum: Seq<Color>,
    width: nat,
    frame: int,
) -> EffectCharacter {
    let phase = column_phase(position.x, width, spectrum.len());
    EffectCharacter {
        id: CharacterId(0),
        input_symbol: symbol,
        symbol,
        position,
        style: foreground_only(
            spectrum[(phase + frame / (shift_duration() as int)) % (spectrum.len() as int)],
        ),
        visible: true,
        animation: arbitrary(),
    }
}

/// Frame `frame` of the colour shift of `text`.
pub open spec fn colorshift_frame(text: Seq<char>, spectrum: Seq<Color>, frame: int) -> Seq<char> {
    let cells = text_cells(text_rows(text));
    let width = text_grid(text).0;
    render_canvas(
        draw_all(
            text_canvas(text),
            Seq::new(
                cells.len(),
                |i: int| shifted_character(cells[i].0, cells[i].1, spectrum, width, frame),
            ),
        ),
    )
}

fn spectrum_phase(x: i32, width: usize, final_index: usize) -> (phase: usize)
    requires
        1 <= width <= i32::MAX,
        width * (final_index + 1) <= usize::MAX,
    ensures
        phase == column_phase(x, width as nat, (final_index + 1) as nat),
        phase <= final_index,
{
    if width <= 1 {
        return 0;
    }
    let last = (width - 1) as i32;
    let column = if x < 0 {
        0
    } else if x > last {
        last
    } else {
        x
    } as usize;
    proof {
        assert(column * final_index <= (width - 1) * final_index) by (nonlinear_arith)
            requires
                column <= width - 1,
        ;
        assert((width - 1) * final_index <= width * (final_index + 1)) by (nonlinear_arith)
            requires
                width >= 1,
        ;
        assert(column * final_index / (width - 1) <= final_index) by (nonlinear_arith)
            requires
                column <= width - 1,
                width >= 2,
        ;
    }
    column * final_index / (width - 1)
}

fn shift_scene(symbol: char, phase: usize, spectrum: &Vec<Color>) -> (scene: Scene)
    requires
        phase < spectrum.len(),
        2 * spectrum.len() <= usize::MAX,
    ensures
        scene.wf(),
        scene@ == (SceneView {
            frames: shift_frames(symbol, phase as int, spectrum@),
            frame_index: 0,
            frame_tick: 0,
            looping: false,
            active: false,
            finished: false,
        }),
{
    let mut scene = Scene::new(false);
    let mut offset: usize = 0;
    assert(shift_frames(symbol, phase as int, spectrum@).take(0) =~= Seq::<Frame>::empty());
    while offset < spectrum.len()
        invariant
            phase < spectrum.len(),
            2 * spectrum.len() <= usize::MAX,
            offset <= spectrum.len(),
            scene.wf(),
            scene@ == (SceneView {
                frames: shift_frames(symbol, phase as int, spectrum@).take(offset as int),
                frame_index: 0,
                frame_tick: 0,
                looping: false,
                active: false,
                finished: false,
            }),
        decreases spectrum.len() - offset,
    {
        let color = spectrum[(phase + offset) % spectrum.len()];
        let style = Style::default().with_foreground(color);
        scene.add_frame(Frame::new(CharacterVisual::new(symbol, style), 5));
        assert(shift_frames(symbol, phase as int, spectrum@).take(offset + 1) =~= shift_frames(
            symbol,
            phase as int,
            spectrum@,
        ).take(offset as int).push(Frame { visual: CharacterVisual { symbol, style }, duration: 5 }));
        offset += 1;
    }
    assert(shift_frames(symbol, phase as int, spectrum@).take(spectrum.len() as int) =~= shift_frames(
        symbol,
        phase as int,
        spectrum@,
    ));
    scene
}

/// A character's scene right after it was started: its shifted frames from the first one.
pub open spec fn started_shift(symbol: char, position: Coord, spectrum: Seq<Color>, width: nat) -> SceneView {
    activated(
        SceneView {
            frames: shift_frames(
                symbol,
                column_phase(position.x, width, spectrum.len()),
                spectrum,
            ),
            frame_index: 0,
            frame_tick: 0,
            looping: false,
            active: false,
            finished: false,
        },
    )
}

proof fn lemma_shift_run(symbol: char, position: Coord, spectrum: Seq<Color>, width: nat, steps: nat)
    requires
        spectrum.len() >= 1,
        steps <= shift_duration() * spectrum.len(),
    ensures
        ({
            let scene = started_shift(symbol, position, spectrum, width);
            let phase = column_phase(position.x, width, spectrum.len());
            &&& steps < shift_duration() * spectrum.len() ==> {
                &&& run_scene(scene, steps).active
                &&& scene_wf(run_scene(scene, steps))
                &&& step_scene(run_scene(scene, steps)).1 == Some(
                    CharacterVisual {
                        symbol,
                        style: foreground_only(
                            spectrum[(phase + (steps as int) / (shift_duration() as int)) % (
                            spectrum.len() as int)],
                        ),
                    },
                )
                &&& step_scene(run_scene(scene, steps)).0 == run_scene(scene, steps + 1)
            }
            &&& steps == shift_duration() * spectrum.len() ==> !run_scene(scene, steps).active
        }),
{
    let scene = started_shift(symbol, position, spectrum, width);
    assert(uniform_frames(scene.frames, shift_duration()));
    lemma_uniform_scene_position(scene, shift_duration(), steps);
    lemma_run_scene_one_more(scene, steps);
    if steps < shift_duration() * spectrum.len() {
        let run = run_scene(scene, steps);
        assert(steps / 5 < spectrum.len()) by (nonlinear_arith)
            requires
                steps < 5 * spectrum.len(),
        ;
        assert(steps % 5 < 5) by (nonlinear_arith);
        assert(run.frame_index == steps / 5);
        assert(run.frames[run.frame_index as int].duration == 5);
    }
}

impl Colorshift {
    pub fn new() -> (effect: Self)
        ensures
            effect == Colorshift,
    {
        Colorshift
    }

    pub fn name(&self) -> (name: &'static str)
        ensures
            name@ == "colorshift"@,
    {
        "colorshift"
    }

    /// The frames of the colour shift of `input`, one per step until every character has
    /// shown each colour of `spectrum` for five steps, starting at the colour its column
    /// is phase-shifted to; none when the text has no character or the spectrum is empty.
    /// The caller computes the spectrum.
    pub fn frames(&self, input: &str, spectrum: &Vec<Color>) -> (frames: Vec<String>)
        requires
            text_grid(input@).0 * text_grid(input@).1 <= usize::MAX,
            text_grid(input@).0 <= i32::MAX,
            text_grid(input@).0 * spectrum.len() <= usize::MAX,
            2 * spectrum.len() <= usize::MAX,
        ensures
            frames.len() == (if text_cells(text_rows(input@)).len() == 0 || spectrum.len() == 0 {
                0
            } else {
                shift_duration() * spectrum.len()
            }),
            forall|f: int|
                0 <= f < frames.len() ==> (#[trigger] frames[f])@ == colorshift_frame(
                    input@,
                    spectrum@,
                    f,
                ),
    {
        let mut terminal = Terminal::from_text(input);
        let ghost cells = text_cells(text_rows(input@));
        let ghost canvas0 = terminal@.canvas;
        let count = terminal.characters().len();
        if count == 0 {
            return Vec::new();
        }
        let width = terminal.canvas().width();
        let final_index = spectrum.len().saturating_sub(1);
        let ghost length = spectrum.len() as nat;
        let ghost wide = width as nat;
        assert(canvas0.cells =~= text_canvas(input@).cells);
        let mut index: usize = 0;
        while index < count
            invariant
                terminal.wf(),
                terminal@.canvas == canvas0,
                canvas0 == text_canvas(input@),
                wide == width,
                wide == text_grid(input@).0,
                1 <= width <= i32::MAX,
                width * spectrum.len() <= usize::MAX,
                2 * spectrum.len() <= usize::MAX,
                length == spectrum.len(),
                final_index == if length >= 1 { length - 1 } else { 0 },
                count == terminal@.characters.len(),
                count == cells.len(),
                index <= count,
                forall|j: int|
                    0 <= j < count ==> {
                        &&& (#[trigger] terminal@.characters[j]).input_symbol == cells[j].0
                        &&& terminal@.characters[j].position == cells[j].1
                        &&& terminal@.characters[j].visible
                    },
                forall|j: int|
                    0 <= j < index ==> (#[trigger] terminal@.characters[j]).animation@.active_scene
                        == if length >= 1 {
                        Some(started_shift(cells[j].0, cells[j].1, spectrum@, wide))
                    } else {
                        None
                    },
                forall|j: int|
                    index <= j < count ==> (#[trigger] terminal@.characters[j]).animation@.active_scene
                        is None,
            decreases count - index,
        {
            let symbol = terminal.characters()[index].input_symbol;
            let x = terminal.characters()[index].position.x;
            let ghost before = terminal@.characters;
            let scene = if spectrum.len() == 0 {
                Scene::new(false)
            } else {
                let phase = spectrum_phase(x, width, final_index);
                shift_scene(symbol, phase, spectrum)
            };
            let characters = terminal.characters_mut();
            let character = &mut characters[index];
            character.animation.activate_scene(scene);
            proof {
                assert forall|j: int| 0 <= j < count implies (#[trigger] terminal@.characters[j]).wf() by {
                    if j != index {
                        assert(terminal@.characters[j] == before[j]);
                    }
                }
                assert forall|j: int| 0 <= j < count && j != index implies #[trigger] terminal@.characters[j]
                    == before[j] by {}
            }
            index += 1;
        }
        let mut frames: Vec<String> = Vec::new();
        let ghost mut steps: nat = 0;
        while any_scene_running(terminal.characters())
            invariant
                terminal.wf(),
                cells == text_cells(text_rows(input@)),
                cleared(terminal@.canvas) == canvas0,
                canvas0 == text_canvas(input@),
                wide == text_grid(input@).0,
                length == spectrum.len(),
                count == terminal@.characters.len(),
                count == cells.len(),
                count >= 1,
                length == 0 ==> steps == 0,
                length >= 1 ==> steps <= shift_duration() * length,
                forall|j: int|
                    0 <= j < count ==> {
                        &&& (#[trigger] terminal@.characters[j]).input_symbol == cells[j].0
                        &&& terminal@.characters[j].position == cells[j].1
                        &&& terminal@.characters[j].visible
                        &&& terminal@.characters[j].animation@.active_scene == if length >= 1 {
                            Some(run_scene(started_shift(cells[j].0, cells[j].1, spectrum@, wide), steps))
                        } else {
                            None
                        }
                    },
                frames.len() == steps,
                forall|f: int|
                    0 <= f < steps ==> (#[trigger] frames[f])@ == colorshift_frame(input@, spectrum@, f),
            decreases shift_duration() * length - steps,
        {
            let ghost before = terminal@.characters;
            proof {
                let j = choose|j: int| 0 <= j < count && scene_running(#[trigger] before[j]);
                assert(scene_running(before[j]));
                assert(length >= 1);
                lemma_shift_run(cells[j].0, cells[j].1, spectrum@, wide, steps);
                assert(steps < shift_duration() * length);
            }
            terminal.step();
            let ghost stepped = terminal@.characters;
            let ghost expected = Seq::new(
                cells.len(),
                |i: int| shifted_character(cells[i].0, cells[i].1, spectrum@, wide, steps as int),
            );
            proof {
                assert forall|j: int| 0 <= j < count implies {
                    &&& (#[trigger] stepped[j]).input_symbol == cells[j].0
                    &&& stepped[j].position == cells[j].1
                    &&& stepped[j].visible
                    &&& stepped[j].animation@.active_scene == Some(
                        run_scene(started_shift(cells[j].0, cells[j].1, spectrum@, wide), steps + 1),
                    )
                    &&& same_look(stepped[j], expected[j])
                } by {
                    lemma_shift_run(cells[j].0, cells[j].1, spectrum@, wide, steps);
                    assert(character_stepped(before[j], stepped[j]));
                }
                lemma_draw_all_looks(canvas0, stepped, expected);
            }
            let ghost shown = terminal@;
            assert(cleared(shown.canvas) == canvas0);
            let frame = terminal.render_frame();
            proof {
                assert(cleared(terminal@.canvas).cells =~= canvas0.cells);
                assert(expected =~= Seq::new(
                    text_cells(text_rows(input@)).len(),
                    |i: int|
                        shifted_character(
                            text_cells(text_rows(input@))[i].0,
                            text_cells(text_rows(input@))[i].1,
                            spectrum@,
                            text_grid(input@).0,
                            steps as int,
                        ),
                ));
                assert(frame@ == render_canvas(draw_all(canvas0, stepped)));
                assert(frame@ == colorshift_frame(input@, spectrum@, steps as int));
            }
            frames.push(frame);
            proof {
                steps = steps + 1;
                assert forall|f: int| 0 <= f < steps implies (#[trigger] frames[f])@ == colorshift_frame(
                    input@,
                    spectrum@,
                    f,
                ) by {
                    if f < steps - 1 {
                        assert(frames[f] == frames@.drop_last()[f]);
                    } else {
                        assert(frames[f] == frame);
                    }
                }
            }
        }
        proof {
            if length >= 1 {
                assert(scene_running(terminal@.characters[0]) ==> false);
                lemma_shift_run(cells[0].0, cells[0].1, spectrum@, wide, steps);
            }
        }
        frames
    }
}

} // verus!
