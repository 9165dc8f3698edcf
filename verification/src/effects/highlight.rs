use vstd::prelude::*;

use crate::engine::animation::{activated, step_scene, CharacterVisual, Frame, Scene, SceneView};
use crate::engine::canvas::render_canvas;
use crate::engine::character::{character_stepped, EffectCharacter};
use crate::engine::edit::lit_character;
use crate::engine::terminal::{
    cleared, draw_all, lemma_draw_all_looks, lemma_text_cells_in_grid, same_look, text_canvas,
    text_cells, Terminal,
};
use crate::utils::geometry::Coord;
use crate::utils::graphics::{foreground_only, Color, Style};
use crate::utils::text::{lemma_rows_nonempty, longest_row, text_grid, text_rows};

verus! {

/// A bright highlight sweeps across the text column by column.
#[derive(Debug, Clone, Copy, Default)]
pub struct Highlight;

impl Highlight {
    pub fn new() -> (effect: Self)
        ensures
            effect == Highlight,
    {
        Highlight
    }

    pub fn name(&self) -> (name: &'static str)
        ensures
            name@ == "highlight"@,
    {
        "highlight"
    }
}

/// The look of the highlight.
pub open spec fn highlight_white() -> Style {
    foreground_only(Color::Rgb { r: 255, g: 255, b: 255 })
}

/// A character's highlight: its symbol in white for three steps, then in its final style
/// for one.
pub open spec fn highlight_frames(symbol: char, final_style: Style) -> Seq<Frame> {
    seq![
        Frame { visual: CharacterVisual { symbol, style: highlight_white() }, duration: 3 },
        Frame { visual: CharacterVisual { symbol, style: final_style }, duration: 1 },
    ]
}

/// The state of a character's highlight `done` steps after it started.
pub open spec fn highlight_state(symbol: char, final_style: Style, done: int) -> SceneView {
    let frames = highlight_frames(symbol, final_style);
    if done <= 2 {
        SceneView { frames, frame_index: 0, frame_tick: done as nat, looping: false, active: true, finished: false }
    } else if done == 3 {
        SceneView { frames, frame_index: 1, frame_tick: 0, looping: false, active: true, finished: false }
    } else {
        SceneView { frames, frame_index: 1, frame_tick: 0, looping: false, active: false, finished: true }
    }
}

/// The style a character in column `x` shows in frame `frame`: white in the three frames
/// from the one in which the sweep reaches its column, its final style otherwise.
pub open spec fn highlight_style_at(x: int, frame: int, final_style: Style) -> Style {
    if x <= frame <= x + 2 {
        highlight_white()
    } else {
        final_style
    }
}

/// Frame `frame` of the highlight over `text`; `colors` holds each character's final
/// colour, in reading order.
pub open spec fn highlight_frame(text: Seq<char>, colors: Seq<Color>, frame: int) -> Seq<char> {
    let cells = text_cells(text_rows(text));
    render_canvas(
        draw_all(
            text_canvas(text),
            Seq::new(
                cells.len(),
                |i: int|
                    lit_character(
                        cells[i],
                        highlight_style_at(cells[i].1.x as int, frame, foreground_only(colors[i])),
                    ),
            ),
        ),
    )
}

/// The text alone on its canvas, character `i` (in reading order) in `colors[i]`.
pub open spec fn text_in_colors(text: Seq<char>, colors: Seq<Color>) -> Seq<char> {
    let cells = text_cells(text_rows(text));
    render_canvas(
        draw_all(text_canvas(text), Seq::new(cells.len(), |i: int| lit_character(cells[i], foreground_only(colors[i])))),
    )
}

/// The highlight of a text with characters ends with every character in its own final
/// colour: once the sweep has passed the last column, character `i` shows at its place in
/// `colors[i]`.
pub proof fn lemma_highlight_ends_in_final_colors(text: Seq<char>, colors: Seq<Color>)
    requires
        text_cells(text_rows(text)).len() > 0,
        text_grid(text).0 < i32::MAX,
        text_grid(text).1 <= i32::MAX,
    ensures
        highlight_frame(text, colors, text_grid(text).0 + 2int) == text_in_colors(text, colors),
{
    let cells = text_cells(text_rows(text));
    let last = text_grid(text).0 + 2int;
    lemma_rows_nonempty(text);
    assert(longest_row(text_rows(text)) <= i32::MAX);
    lemma_text_cells_in_grid(text_rows(text));
    let lit = Seq::new(
        cells.len(),
        |i: int| lit_character(cells[i], highlight_style_at(cells[i].1.x as int, last, foreground_only(colors[i]))),
    );
    let settled = Seq::new(cells.len(), |i: int| lit_character(cells[i], foreground_only(colors[i])));
    assert forall|i: int| 0 <= i < cells.len() implies lit[i] == settled[i] by {}
    assert(lit =~= settled);
}

/// One step of a highlight moves it to the next state and shows white for its first three
/// steps, the final style on the fourth, and nothing after.
proof fn lemma_highlight_step(symbol: char, final_style: Style, done: int)
    requires
        done >= 0,
    ensures
        step_scene(highlight_state(symbol, final_style, done)).0 == highlight_state(
            symbol,
            final_style,
            done + 1,
        ),
        step_scene(highlight_state(symbol, final_style, done)).1 == if done <= 2 {
            Some(CharacterVisual { symbol, style: highlight_white() })
        } else if done == 3 {
            Some(CharacterVisual { symbol, style: final_style })
        } else {
            None::<CharacterVisual>
        },
{
    let frames = highlight_frames(symbol, final_style);
    assert(frames.len() == 2);
    assert(frames[0].duration == 3);
    assert(frames[1].duration == 1);
}

/// Character `i` of the highlight before the step of frame `frame`: at its place in its
/// input symbol, not yet started when the sweep has not reached its column, and otherwise
/// `frame - x` steps into its highlight, showing the style of the last frame.
pub open spec fn highlight_ready(
    character: EffectCharacter,
    cell: (char, Coord),
    color: Color,
    frame: int,
) -> bool {
    let x = cell.1.x as int;
    let final_style = foreground_only(color);
    &&& character.visible
    &&& character.position == cell.1
    &&& character.symbol == cell.0
    &&& character.input_symbol == cell.0
    &&& character.wf()
    &&& x >= frame ==> {
        &&& character.animation@.active_scene is None
        &&& character.style == final_style
    }
    &&& x < frame ==> {
        &&& character.animation@.active_scene == Some(highlight_state(cell.0, final_style, frame - x))
        &&& character.style == highlight_style_at(x, frame - 1, final_style)
    }
}

/// Like `highlight_ready`, once the sweep has started the highlights of column `frame`.
pub open spec fn highlight_started(
    character: EffectCharacter,
    cell: (char, Coord),
    color: Color,
    frame: int,
) -> bool {
    let x = cell.1.x as int;
    let final_style = foreground_only(color);
    &&& character.visible
    &&& character.position == cell.1
    &&& character.symbol == cell.0
    &&& character.input_symbol == cell.0
    &&& character.wf()
    &&& x > frame ==> {
        &&& character.animation@.active_scene is None
        &&& character.style == final_style
    }
    &&& x <= frame ==> {
        &&& character.animation@.active_scene == Some(highlight_state(cell.0, final_style, frame - x))
        &&& character.style == highlight_style_at(x, frame - 1, final_style)
    }
}

/// A step of a character whose highlight the sweep has started leaves it ready for the
/// next frame, showing the style of this one.
proof fn lemma_highlight_character_step(
    before: EffectCharacter,
    after: EffectCharacter,
    cell: (char, Coord),
    color: Color,
    frame: int,
)
    requires
        frame >= 0,
        highlight_started(before, cell, color, frame),
        character_stepped(before, after),
    ensures
        highlight_ready(after, cell, color, frame + 1),
        after.style == highlight_style_at(cell.1.x as int, frame, foreground_only(color)),
{
    let x = cell.1.x as int;
    if x <= frame {
        lemma_highlight_step(cell.0, foreground_only(color), frame - x);
    }
}

/// The two frames of a character's highlight, as a scene that has not started.
fn highlight_scene(symbol: char, final_style: Style) -> (scene: Scene)
    ensures
        scene.wf(),
        scene@ == (SceneView {
            frames: highlight_frames(symbol, final_style),
            frame_index: 0,
            frame_tick: 0,
            looping: false,
            active: false,
            finished: false,
        }),
{
    let mut frames: Vec<Frame> = Vec::new();
    frames.push(Frame::new(CharacterVisual::new(symbol, Style::default().with_foreground(Color::rgb(255, 255, 255))), 3));
    frames.push(Frame::new(CharacterVisual::new(symbol, final_style), 1));
    assert(frames@ =~= highlight_frames(symbol, final_style));
    Scene::with_frames(frames, false)
}

/// Starts the highlight of each character in column `column`, ending in its current style.
fn start_column(terminal: &mut Terminal, column: i32)
    requires
        old(terminal).wf(),
    ensures
        final(terminal).wf(),
        final(terminal)@.canvas == old(terminal)@.canvas,
        final(terminal)@.next_id == old(terminal)@.next_id,
        final(terminal)@.characters.len() == old(terminal)@.characters.len(),
        forall|i: int|
            0 <= i < old(terminal)@.characters.len() ==> {
                let before = old(terminal)@.characters[i];
                let after = #[trigger] final(terminal)@.characters[i];
                &&& before.position.x != column ==> after == before
                &&& before.position.x == column ==> {
                    &&& after.wf()
                    &&& after.visible == before.visible
                    &&& after.position == before.position
                    &&& after.symbol == before.symbol
                    &&& after.input_symbol == before.input_symbol
                    &&& after.style == before.style
                    &&& after.animation@.active_scene == Some(
                        highlight_state(before.input_symbol, before.style, 0),
                    )
                }
            },
{
    let count = terminal.characters().len();
    let mut index: usize = 0;
    while index < count
        invariant
            index <= count,
            count == terminal@.characters.len(),
            count == old(terminal)@.characters.len(),
            terminal.wf(),
            terminal@.canvas == old(terminal)@.canvas,
            terminal@.next_id == old(terminal)@.next_id,
            forall|i: int| index <= i < count ==> #[trigger] terminal@.characters[i] == old(terminal)@.characters[i],
            forall|i: int|
                0 <= i < index ==> {
                    let before = old(terminal)@.characters[i];
                    let after = #[trigger] terminal@.characters[i];
                    &&& before.position.x != column ==> after == before
                    &&& before.position.x == column ==> {
                        &&& after.wf()
                        &&& after.visible == before.visible
                        &&& after.position == before.position
                        &&& after.symbol == before.symbol
                        &&& after.input_symbol == before.input_symbol
                        &&& after.style == before.style
                        &&& after.animation@.active_scene == Some(
                            highlight_state(before.input_symbol, before.style, 0),
                        )
                    }
                },
        decreases count - index,
    {
        if terminal.characters()[index].position.x == column {
            let ghost current = terminal@.characters;
            let symbol = terminal.characters()[index].input_symbol;
            let style = terminal.characters()[index].style;
            let scene = highlight_scene(symbol, style);
            let characters = terminal.characters_mut();
            characters[index].animation.activate_scene(scene);
            proof {
                assert(terminal@.characters[index as int].wf());
                assert forall|i: int| 0 <= i < count && i != index implies #[trigger] terminal@.characters[i]
                    == current[i] by {}
                assert(crate::engine::terminal::all_wf(terminal@.characters)) by {
                    assert forall|i: int| 0 <= i < count implies (#[trigger] terminal@.characters[i]).wf() by {
                        if i != index {
                            assert(terminal@.characters[i] == current[i]);
                        }
                    }
                }
            }
        }
        index += 1;
    }
}

impl Highlight {
    /// The frames of the highlight: each character shows in its final colour from
    /// `final_colors` (one per character, in reading order), and a white highlight sweeps
    /// one column per frame from the left, each column staying white for three frames; one
    /// frame per column and three more, none when the text has no character.
    pub fn frames(&self, input: &str, final_colors: &Vec<Color>) -> (frames: Vec<String>)
        requires
            text_grid(input@).0 * text_grid(input@).1 <= usize::MAX,
            text_grid(input@).0 < i32::MAX,
            text_grid(input@).1 <= i32::MAX,
            final_colors.len() == text_cells(text_rows(input@)).len(),
        ensures
            frames.len() == if text_cells(text_rows(input@)).len() == 0 {
                0
            } else {
                text_grid(input@).0 + 3
            },
            forall|f: int|
                0 <= f < frames.len() ==> (#[trigger] frames[f])@ == highlight_frame(input@, final_colors@, f),
            frames.len() > 0 ==> frames@.last()@ == text_in_colors(input@, final_colors@),
    {
        let mut terminal = Terminal::from_text(input);
        let ghost cells = text_cells(text_rows(input@));
        let ghost canvas0 = terminal@.canvas;
        let count = terminal.characters().len();
        if count == 0 {
            return Vec::new();
        }
        proof {
            lemma_rows_nonempty(input@);
            lemma_text_cells_in_grid(text_rows(input@));
            assert(canvas0.cells =~= text_canvas(input@).cells);
            assert(cleared(canvas0).cells =~= canvas0.cells);
        }
        let mut index: usize = 0;
        while index < count
            invariant
                index <= count,
                count == cells.len(),
                count == terminal@.characters.len(),
                cells == text_cells(text_rows(input@)),
                final_colors.len() == count,
                terminal.wf(),
                terminal@.canvas == canvas0,
                forall|i: int|
                    0 <= i < count ==> 0 <= (#[trigger] cells[i]).1.x < text_grid(input@).0,
                forall|i: int|
                    0 <= i < count ==> {
                        &&& (#[trigger] terminal@.characters[i]).visible
                        &&& terminal@.characters[i].position == cells[i].1
                        &&& terminal@.characters[i].symbol == cells[i].0
                        &&& terminal@.characters[i].input_symbol == cells[i].0
                    },
                forall|i: int|
                    0 <= i < index ==> highlight_ready(
                        #[trigger] terminal@.characters[i],
                        cells[i],
                        final_colors@[i],
                        0,
                    ),
            decreases count - index,
        {
            let ghost current = terminal@.characters;
            let style = Style::default().with_foreground(final_colors[index]);
            let symbol = terminal.characters()[index].input_symbol;
            let scene = highlight_scene(symbol, style);
            let characters = terminal.characters_mut();
            characters[index].set_style(style);
            characters[index].animation.activate_scene(scene);
            characters[index].animation.deactivate();
            proof {
                assert forall|i: int| 0 <= i < count && i != index implies #[trigger] terminal@.characters[i]
                    == current[i] by {}
                assert(crate::engine::terminal::all_wf(terminal@.characters)) by {
                    assert forall|i: int| 0 <= i < count implies (#[trigger] terminal@.characters[i]).wf() by {
                        if i != index {
                            assert(terminal@.characters[i] == current[i]);
                        }
                    }
                }
            }
            index += 1;
        }
        let width = terminal.canvas().width();
        let mut frames: Vec<String> = Vec::new();
        let mut frame: usize = 0;
        while frame < width + 3
            invariant
                frame <= width + 3,
                width == text_grid(input@).0,
                width < i32::MAX,
                count == cells.len(),
                count == terminal@.characters.len(),
                cells == text_cells(text_rows(input@)),
                final_colors.len() == count,
                terminal.wf(),
                cleared(terminal@.canvas) == canvas0,
                canvas0 == text_canvas(input@),
                forall|i: int| 0 <= i < count ==> 0 <= (#[trigger] cells[i]).1.x < width,
                forall|i: int|
                    0 <= i < count ==> highlight_ready(
                        #[trigger] terminal@.characters[i],
                        cells[i],
                        final_colors@[i],
                        frame as int,
                    ),
                frames.len() == frame,
                forall|f: int|
                    0 <= f < frames.len() ==> (#[trigger] frames[f])@ == highlight_frame(input@, final_colors@, f),
            decreases width + 3 - frame,
        {
            let ghost ready = terminal@.characters;
            if frame < width {
                start_column(&mut terminal, frame as i32);
            }
            let ghost started = terminal@.characters;
            proof {
                assert forall|i: int| 0 <= i < count implies highlight_started(
                    #[trigger] started[i],
                    cells[i],
                    final_colors@[i],
                    frame as int,
                ) by {
                    assert(highlight_ready(ready[i], cells[i], final_colors@[i], frame as int));
                }
            }
            terminal.step();
            let ghost stepped = terminal@;
            let ghost expected = Seq::new(
                cells.len(),
                |i: int|
                    lit_character(
                        cells[i],
                        highlight_style_at(cells[i].1.x as int, frame as int, foreground_only(final_colors@[i])),
                    ),
            );
            proof {
                assert forall|i: int| 0 <= i < count implies {
                    &&& highlight_ready(#[trigger] stepped.characters[i], cells[i], final_colors@[i], frame + 1)
                    &&& same_look(stepped.characters[i], expected[i])
                } by {
                    lemma_highlight_character_step(started[i], stepped.characters[i], cells[i], final_colors@[i], frame as int);
                }
                lemma_draw_all_looks(canvas0, stepped.characters, expected);
            }
            let rendered = terminal.render_frame();
            proof {
                assert(cleared(terminal@.canvas).cells =~= canvas0.cells);
                assert(rendered@ == highlight_frame(input@, final_colors@, frame as int));
            }
            let ghost before = frames@;
            frames.push(rendered);
            proof {
                assert forall|f: int| 0 <= f < frames.len() implies (#[trigger] frames[f])@ == highlight_frame(
                    input@,
                    final_colors@,
                    f,
                ) by {
                    if f < before.len() {
                        assert(frames[f] == before[f]);
                    }
                }
            }
            frame += 1;
        }
        proof {
            lemma_highlight_ends_in_final_colors(input@, final_colors@);
            assert(frames@.last() == frames[frames.len() - 1]);
        }
        frames
    }
}

} // verus!
