use vstd::prelude::*;

use crate::engine::animation::{activated, step_scene, CharacterVisual, Frame, Scene, SceneView};
use crate::engine::canvas::render_canvas;
use crate::engine::edit::{lemma_settled_blank, lit_character, row_colored_frame};
use crate::engine::character::{character_stepped, CharacterId, EffectCharacter};
use crate::engine::terminal::{
    cleared, draw_all, lemma_draw_all_looks, lemma_text_cells_in_grid, same_look, text_canvas,
    text_cells, Terminal,
};
use crate::utils::geometry::Coord;
use crate::utils::graphics::{foreground_only, plain_style, Color, Style};
use crate::utils::text::{lemma_rows_nonempty, longest_row, text_grid, text_rows};

verus! {

/// Waves of block symbols roll across the text before it settles.
#[derive(Debug, Clone, Copy, Default)]
pub struct Waves;

impl Waves {
    pub fn new() -> (effect: Self)
        ensures
            effect == Waves,
    {
        Waves
    }

    pub fn name(&self) -> (name: &'static str)
        ensures
            name@ == "waves"@,
    {
        "waves"
    }
}

/// The wave's symbols, from the lowest block to the full one.
pub open spec fn wave_symbol(index: int) -> char {
    if index == 0 {
        '▁'
    } else if index == 1 {
        '▂'
    } else if index == 2 {
        '▃'
    } else if index == 3 {
        '▄'
    } else if index == 4 {
        '▅'
    } else if index == 5 {
        '▆'
    } else if index == 6 {
        '▇'
    } else {
        '█'
    }
}

pub(crate) fn wave_symbol_at(index: usize) -> (symbol: char)
    ensures
        symbol == wave_symbol(index as int),
{
    if index == 0 {
        '▁'
    } else if index == 1 {
        '▂'
    } else if index == 2 {
        '▃'
    } else if index == 3 {
        '▄'
    } else if index == 4 {
        '▅'
    } else if index == 5 {
        '▆'
    } else if index == 6 {
        '▇'
    } else {
        '█'
    }
}

/// Step `k` of the three waves: each symbol for two steps, in its colour from `colors`.
pub open spec fn wave_frame(k: int, colors: Seq<Color>) -> Frame {
    Frame {
        visual: CharacterVisual { symbol: wave_symbol(k % 8), style: foreground_only(colors[k % 8]) },
        duration: 2,
    }
}

/// The frames of a character's scene: its symbol plain for `x` steps when `x` is not zero,
/// three waves of the eight symbols, then its symbol in `final_style`.
pub open spec fn wave_frames(symbol: char, x: nat, colors: Seq<Color>, final_style: Style) -> Seq<Frame> {
    (if x > 0 {
        seq![Frame { visual: CharacterVisual { symbol, style: plain_style() }, duration: x as u32 }]
    } else {
        Seq::empty()
    }) + Seq::new(24, |k: int| wave_frame(k, colors)) + seq![
        Frame { visual: CharacterVisual { symbol, style: final_style }, duration: 1 },
    ]
}

/// Where a character's scene is `steps` steps after it started.
pub open spec fn wave_state(symbol: char, x: nat, colors: Seq<Color>, final_style: Style, steps: int) -> SceneView {
    let frames = wave_frames(symbol, x, colors, final_style);
    let lead: nat = if x > 0 { 1 } else { 0 };
    let t = steps - x;
    if t < 0 {
        SceneView { frames, frame_index: 0, frame_tick: steps as nat, looping: false, active: true, finished: false }
    } else if t < 48 {
        SceneView {
            frames,
            frame_index: (lead + t / 2) as nat,
            frame_tick: (t % 2) as nat,
            looping: false,
            active: true,
            finished: false,
        }
    } else if t == 48 {
        SceneView { frames, frame_index: lead + 24, frame_tick: 0, looping: false, active: true, finished: false }
    } else {
        SceneView { frames, frame_index: lead + 24, frame_tick: 0, looping: false, active: false, finished: true }
    }
}

/// What a character in column `x` shows after `steps` (at least one) steps: its symbol
/// plain while it waits, then the waves, each symbol for two steps, then its symbol in
/// `final_style`.
pub open spec fn wave_look(symbol: char, x: int, colors: Seq<Color>, final_style: Style, steps: int) -> (char, Style) {
    if steps <= x {
        (symbol, plain_style())
    } else if steps - x <= 48 {
        let k = (steps - x - 1) / 2;
        (wave_symbol(k % 8), foreground_only(colors[k % 8]))
    } else {
        (symbol, final_style)
    }
}

/// A character of the text as the waves show it after `steps` steps.
pub open spec fn waving_character(cell: (char, Coord), colors: Seq<Color>, final_style: Style, steps: int) -> EffectCharacter {
    let (symbol, style) = wave_look(cell.0, cell.1.x as int, colors, final_style, steps);
    EffectCharacter {
        id: CharacterId(0),
        input_symbol: cell.0,
        symbol,
        position: cell.1,
        style,
        visible: true,
        animation: arbitrary(),
    }
}

/// Frame `frame` of the waves over `text`: the text after `frame + 1` steps; `colors`
/// holds the colour of each of the eight wave symbols and `row_colors` each row's final
/// colour.
pub open spec fn waves_frame(text: Seq<char>, colors: Seq<Color>, row_colors: Seq<Color>, frame: int) -> Seq<char> {
    let cells = text_cells(text_rows(text));
    render_canvas(
        draw_all(
            text_canvas(text),
            Seq::new(
                cells.len(),
                |i: int|
                    waving_character(
                        cells[i],
                        colors,
                        foreground_only(row_colors[cells[i].1.y as int]),
                        frame + 1,
                    ),
            ),
        ),
    )
}

/// One step moves a character's scene to its next state and shows what `wave_look` says
/// for the next step, or nothing once the scene has finished.
proof fn lemma_wave_step(symbol: char, x: nat, colors: Seq<Color>, final_style: Style, steps: int)
    requires
        steps >= 0,
        x <= i32::MAX,
        colors.len() == 8,
    ensures
        step_scene(wave_state(symbol, x, colors, final_style, steps)).0 == wave_state(
            symbol,
            x,
            colors,
            final_style,
            steps + 1,
        ),
        steps + 1 - x <= 49 ==> step_scene(wave_state(symbol, x, colors, final_style, steps)).1 == Some(
            CharacterVisual {
                symbol: wave_look(symbol, x as int, colors, final_style, steps + 1).0,
                style: wave_look(symbol, x as int, colors, final_style, steps + 1).1,
            },
        ),
        steps + 1 - x > 49 ==> step_scene(wave_state(symbol, x, colors, final_style, steps)).1 is None,
{
    let frames = wave_frames(symbol, x, colors, final_style);
    let lead: nat = if x > 0 { 1 } else { 0 };
    let waves = Seq::new(24, |k: int| wave_frame(k, colors));
    let head: Seq<Frame> = if x > 0 {
        seq![Frame { visual: CharacterVisual { symbol, style: plain_style() }, duration: x as u32 }]
    } else {
        Seq::empty()
    };
    let last = seq![Frame { visual: CharacterVisual { symbol, style: final_style }, duration: 1 }];
    assert(frames == head + waves + last);
    assert(frames.len() == lead + 25);
    assert forall|k: int| 0 <= k < 24 implies #[trigger] frames[lead + k] == wave_frame(k, colors) by {
        assert((head + waves)[lead + k] == waves[k]);
    }
    assert(frames[lead + 24int] == last[0]);
    if x > 0 {
        assert(frames[0] == head[0]);
    }
    let t = steps - x;
    if t >= 0 && t < 48 {
        assert(frames[lead + t / 2] == wave_frame(t / 2, colors));
    }
}

/// The rightmost column among the cells (zero when there are none).
pub open spec fn last_column(cells: Seq<(char, Coord)>) -> int
    decreases cells.len(),
{
    if cells.len() == 0 {
        0
    } else {
        let rest = last_column(cells.drop_last());
        if cells.last().1.x > rest {
            cells.last().1.x as int
        } else {
            rest
        }
    }
}

/// Every cell lies at or left of the last column, and some cell lies on it, when the
/// columns are not negative.
proof fn lemma_last_column(cells: Seq<(char, Coord)>)
    requires
        cells.len() > 0,
        forall|i: int| 0 <= i < cells.len() ==> (#[trigger] cells[i]).1.x >= 0,
    ensures
        forall|i: int| 0 <= i < cells.len() ==> (#[trigger] cells[i]).1.x <= last_column(cells),
        exists|i: int| 0 <= i < cells.len() && (#[trigger] cells[i]).1.x == last_column(cells),
    decreases cells.len(),
{
    let rest = cells.drop_last();
    if rest.len() > 0 {
        assert forall|i: int| 0 <= i < rest.len() implies (#[trigger] rest[i]).1.x >= 0 by {
            assert(rest[i] == cells[i]);
        }
        lemma_last_column(rest);
        assert forall|i: int| 0 <= i < cells.len() implies (#[trigger] cells[i]).1.x <= last_column(cells) by {
            if i < rest.len() {
                assert(rest[i] == cells[i]);
            }
        }
        if cells.last().1.x > last_column(rest) {
            assert(cells[cells.len() - 1].1.x == last_column(cells));
        } else {
            let j = choose|j: int| 0 <= j < rest.len() && (#[trigger] rest[j]).1.x == last_column(rest);
            assert(cells[j] == rest[j]);
        }
    } else {
        assert(cells[cells.len() - 1].1.x >= 0);
        assert(last_column(rest) == 0);
        assert(cells[cells.len() - 1].1.x == last_column(cells));
    }
}

/// Once every wave has passed, the text settles in its rows' colours: the last frame of
/// the waves over a text with characters shows every character at its place in the colour
/// `row_colors` gives its row.
pub proof fn lemma_waves_end_in_row_colors(text: Seq<char>, colors: Seq<Color>, row_colors: Seq<Color>)
    requires
        text_cells(text_rows(text)).len() > 0,
        text_grid(text).0 <= i32::MAX,
        text_grid(text).1 <= i32::MAX,
    ensures
        waves_frame(text, colors, row_colors, last_column(text_cells(text_rows(text))) + 48) == row_colored_frame(
            text,
            row_colors,
        ),
{
    let cells = text_cells(text_rows(text));
    let steps = last_column(cells) + 49;
    lemma_rows_nonempty(text);
    assert(longest_row(text_rows(text)) <= i32::MAX);
    lemma_text_cells_in_grid(text_rows(text));
    lemma_last_column(cells);
    let waved = Seq::new(
        cells.len(),
        |i: int| waving_character(cells[i], colors, foreground_only(row_colors[cells[i].1.y as int]), steps),
    );
    let settled = Seq::new(cells.len(), |i: int| lit_character(cells[i], foreground_only(row_colors[cells[i].1.y as int])));
    assert forall|i: int| 0 <= i < cells.len() implies waved[i] == settled[i] by {
        assert(cells[i].1.x <= last_column(cells));
    }
    assert(waved =~= settled);
}

/// Character `cell` of the waves `steps` steps after they started: at its place, its scene
/// where `wave_state` says, showing what `wave_look` says (its plain symbol before any step).
pub open spec fn waving(
    character: EffectCharacter,
    cell: (char, Coord),
    colors: Seq<Color>,
    row_colors: Seq<Color>,
    steps: int,
) -> bool {
    let final_style = foreground_only(row_colors[cell.1.y as int]);
    &&& character.visible
    &&& character.position == cell.1
    &&& character.input_symbol == cell.0
    &&& character.wf()
    &&& character.animation@.active_scene == Some(
        wave_state(cell.0, cell.1.x as nat, colors, final_style, steps),
    )
    &&& steps == 0 ==> character.symbol == cell.0 && character.style == plain_style()
    &&& steps >= 1 ==> (character.symbol, character.style) == wave_look(
        cell.0,
        cell.1.x as int,
        colors,
        final_style,
        steps,
    )
}

proof fn lemma_waving_step(
    before: EffectCharacter,
    after: EffectCharacter,
    cell: (char, Coord),
    colors: Seq<Color>,
    row_colors: Seq<Color>,
    steps: int,
)
    requires
        steps >= 0,
        0 <= cell.1.x,
        colors.len() == 8,
        waving(before, cell, colors, row_colors, steps),
        character_stepped(before, after),
    ensures
        waving(after, cell, colors, row_colors, steps + 1),
{
    let final_style = foreground_only(row_colors[cell.1.y as int]);
    lemma_wave_step(cell.0, cell.1.x as nat, colors, final_style, steps);
}

/// A character's scene of the waves, not yet started.
fn wave_scene(symbol: char, x: u32, colors: &Vec<Color>, final_style: Style) -> (scene: Scene)
    requires
        colors.len() == 8,
    ensures
        scene.wf(),
        scene@ == (SceneView {
            frames: wave_frames(symbol, x as nat, colors@, final_style),
            frame_index: 0,
            frame_tick: 0,
            looping: false,
            active: false,
            finished: false,
        }),
{
    let mut frames: Vec<Frame> = Vec::new();
    if x > 0 {
        frames.push(Frame::new(CharacterVisual::new(symbol, Style::default()), x));
    }
    let ghost head = frames@;
    let mut k: usize = 0;
    while k < 24
        invariant
            k <= 24,
            colors.len() == 8,
            frames@ == head + Seq::new(k as nat, |j: int| wave_frame(j, colors@)),
        decreases 24 - k,
    {
        let style = Style::default().with_foreground(colors[k % 8]);
        frames.push(Frame::new(CharacterVisual::new(wave_symbol_at(k % 8), style), 2));
        assert(Seq::new((k + 1) as nat, |j: int| wave_frame(j, colors@)) =~= Seq::new(
            k as nat,
            |j: int| wave_frame(j, colors@),
        ).push(wave_frame(k as int, colors@)));
        k += 1;
    }
    frames.push(Frame::new(CharacterVisual::new(symbol, final_style), 1));
    assert(frames@ =~= wave_frames(symbol, x as nat, colors@, final_style));
    Scene::with_frames(frames, false)
}

/// Whether every character's scene has finished (a character without one counts).
fn all_finished(terminal: &Terminal) -> (done: bool)
    requires
        terminal.wf(),
    ensures
        done == forall|i: int|
            0 <= i < terminal@.characters.len() ==> match (#[trigger] terminal@.characters[i]).animation@.active_scene {
                Some(scene) => scene.finished,
                None => true,
            },
{
    let count = terminal.characters().len();
    let mut index: usize = 0;
    while index < count
        invariant
            index <= count,
            count == terminal@.characters.len(),
            terminal.wf(),
            forall|i: int|
                0 <= i < index ==> match (#[trigger] terminal@.characters[i]).animation@.active_scene {
                    Some(scene) => scene.finished,
                    None => true,
                },
        decreases count - index,
    {
        let character = &terminal.characters()[index];
        assert(character.wf());
        match character.animation.active_scene() {
            Some(scene) => {
                if !scene.is_finished() {
                    return false;
                }
            },
            None => {},
        }
        index += 1;
    }
    true
}

impl Waves {
    /// The frames of the waves: every character waits one step per column it stands from
    /// the left, then three waves of block symbols roll through it, each symbol for two
    /// steps in its colour from `colors`, and it settles in its row's colour from
    /// `row_colors`; one frame per step until every character has settled. A text without
    /// characters gives the one blank frame.
    pub fn frames(&self, input: &str, colors: &Vec<Color>, row_colors: &Vec<Color>) -> (frames: Vec<String>)
        requires
            text_grid(input@).0 * text_grid(input@).1 <= usize::MAX,
            text_grid(input@).0 <= i32::MAX,
            text_grid(input@).1 <= i32::MAX,
            colors.len() == 8,
            row_colors.len() == text_grid(input@).1,
        ensures
            text_cells(text_rows(input@)).len() == 0 ==> {
                &&& frames.len() == 1
                &&& frames[0]@ == render_canvas(text_canvas(input@))
            },
            text_cells(text_rows(input@)).len() > 0 ==> {
                &&& frames.len() == last_column(text_cells(text_rows(input@))) + 49
                &&& forall|f: int|
                    0 <= f < frames.len() ==> (#[trigger] frames[f])@ == waves_frame(
                        input@,
                        colors@,
                        row_colors@,
                        f,
                    )
            },
            frames.len() > 0,
            frames@.last()@ == row_colored_frame(input@, row_colors@),
    {
        let mut terminal = Terminal::from_text(input);
        let ghost cells = text_cells(text_rows(input@));
        let ghost canvas0 = terminal@.canvas;
        proof {
            lemma_rows_nonempty(input@);
            lemma_text_cells_in_grid(text_rows(input@));
            assert(canvas0.cells =~= text_canvas(input@).cells);
            assert(cleared(canvas0).cells =~= canvas0.cells);
        }
        let count = terminal.characters().len();
        if count == 0 {
            let frame = terminal.render_frame();
            proof {
                assert(draw_all(cleared(canvas0), Seq::<EffectCharacter>::empty()) == canvas0);
                assert(terminal@.characters =~= Seq::<EffectCharacter>::empty());
                lemma_settled_blank(input@, row_colors@);
            }
            let mut frames: Vec<String> = Vec::new();
            frames.push(frame);
            return frames;
        }
        let mut longest: u32 = 0;
        let mut index: usize = 0;
        while index < count
            invariant
                index <= count,
                count == cells.len(),
                count == terminal@.characters.len(),
                cells == text_cells(text_rows(input@)),
                colors.len() == 8,
                row_colors.len() == text_grid(input@).1,
                terminal.wf(),
                terminal@.canvas == canvas0,
                longest == last_column(cells.take(index as int)),
                forall|i: int|
                    0 <= i < count ==> {
                        &&& 0 <= (#[trigger] cells[i]).1.x < text_grid(input@).0
                        &&& 0 <= cells[i].1.y < text_grid(input@).1
                    },
                forall|i: int|
                    index <= i < count ==> {
                        &&& (#[trigger] terminal@.characters[i]).visible
                        &&& terminal@.characters[i].position == cells[i].1
                        &&& terminal@.characters[i].symbol == cells[i].0
                        &&& terminal@.characters[i].input_symbol == cells[i].0
                        &&& terminal@.characters[i].style == plain_style()
                    },
                forall|i: int|
                    0 <= i < index ==> waving(#[trigger] terminal@.characters[i], cells[i], colors@, row_colors@, 0),
            decreases count - index,
        {
            let ghost current = terminal@.characters;
            let position = terminal.characters()[index].position;
            let delay = position.x as u32;
            proof {
                assert(cells.take(index + 1).drop_last() =~= cells.take(index as int));
            }
            if delay > longest {
                longest = delay;
            }
            let symbol = terminal.characters()[index].input_symbol;
            let final_style = Style::default().with_foreground(row_colors[position.y as usize]);
            let scene = wave_scene(symbol, delay, colors, final_style);
            let characters = terminal.characters_mut();
            characters[index].visible = true;
            characters[index].animation.activate_scene(scene);
            proof {
                assert forall|i: int| 0 <= i < count && i != index implies #[trigger] terminal@.characters[i]
                    == current[i] by {}
                assert(crate::engine::terminal::all_wf(terminal@.characters)) by {
                    assert forall|i: int| 0 <= i < count implies (#[trigger] terminal@.characters[i]).wf() by {
                        if i != index {
                            assert(terminal@.characters[i] == current[i]);
                        }
                    }
                }
            }
            index += 1;
        }
        proof {
            assert(cells.take(count as int) =~= cells);
            lemma_last_column(cells);
        }
        let maximum_steps = longest as usize + 50;
        let mut frames: Vec<String> = Vec::new();
        let mut steps: usize = 0;
        let mut done = false;
        while !done && steps < maximum_steps
            invariant
                count == cells.len(),
                count == terminal@.characters.len(),
                count > 0,
                cells == text_cells(text_rows(input@)),
                colors.len() == 8,
                row_colors.len() == text_grid(input@).1,
                terminal.wf(),
                cleared(terminal@.canvas) == canvas0,
                canvas0 == text_canvas(input@),
                maximum_steps == longest + 50,
                longest == last_column(cells),
                steps <= longest + 49,
                done == (steps == longest + 49),
                forall|i: int|
                    0 <= i < count ==> {
                        &&& 0 <= (#[trigger] cells[i]).1.x <= longest
                        &&& 0 <= cells[i].1.y < text_grid(input@).1
                    },
                exists|i: int| 0 <= i < count && (#[trigger] cells[i]).1.x == longest,
                forall|i: int|
                    0 <= i < count ==> waving(
                        #[trigger] terminal@.characters[i],
                        cells[i],
                        colors@,
                        row_colors@,
                        steps as int,
                    ),
                frames.len() == steps,
                forall|f: int|
                    0 <= f < frames.len() ==> (#[trigger] frames[f])@ == waves_frame(
                        input@,
                        colors@,
                        row_colors@,
                        f,
                    ),
            decreases maximum_steps - steps,
        {
            let ghost before = terminal@.characters;
            terminal.step();
            let ghost stepped = terminal@;
            let ghost expected = Seq::new(
                cells.len(),
                |i: int|
                    waving_character(
                        cells[i],
                        colors@,
                        foreground_only(row_colors@[cells[i].1.y as int]),
                        steps + 1,
                    ),
            );
            proof {
                assert forall|i: int| 0 <= i < count implies {
                    &&& waving(#[trigger] stepped.characters[i], cells[i], colors@, row_colors@, steps + 1)
                    &&& same_look(stepped.characters[i], expected[i])
                } by {
                    lemma_waving_step(before[i], stepped.characters[i], cells[i], colors@, row_colors@, steps as int);
                }
                lemma_draw_all_looks(canvas0, stepped.characters, expected);
            }
            let rendered = terminal.render_frame();
            proof {
                assert(cleared(terminal@.canvas).cells =~= canvas0.cells);
                assert(rendered@ == waves_frame(input@, colors@, row_colors@, steps as int));
            }
            let ghost earlier = frames@;
            frames.push(rendered);
            proof {
                assert forall|f: int| 0 <= f < frames.len() implies (#[trigger] frames[f])@ == waves_frame(
                    input@,
                    colors@,
                    row_colors@,
                    f,
                ) by {
                    if f < earlier.len() {
                        assert(frames[f] == earlier[f]);
                    }
                }
            }
            steps += 1;
            done = all_finished(&terminal);
            proof {
                let last = choose|i: int| 0 <= i < count && (#[trigger] cells[i]).1.x == longest;
                if steps < longest + 49 {
                    assert(!done) by {
                        assert(waving(terminal@.characters[last], cells[last], colors@, row_colors@, steps as int));
                    }
                } else {
                    assert(done) by {
                        assert forall|i: int| 0 <= i < count implies match (#[trigger] terminal@.characters[i]).animation@.active_scene {
                            Some(scene) => scene.finished,
                            None => true,
                        } by {
                            assert(waving(terminal@.characters[i], cells[i], colors@, row_colors@, steps as int));
                        }
                    }
                }
            }
        }
        proof {
            lemma_waves_end_in_row_colors(input@, colors@, row_colors@);
            assert(frames@.last() == frames[frames.len() - 1]);
        }
        frames
    }
}

} // verus!
