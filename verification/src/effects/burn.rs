use vstd::prelude::*;

use crate::effects::waves::{wave_symbol, wave_symbol_at};
use crate::engine::animation::{step_scene, CharacterVisual, Frame, Scene, SceneView};
use crate::engine::canvas::render_canvas;
use crate::engine::edit::{lit_character, row_colored_frame};
use crate::engine::character::{character_stepped, CharacterId, EffectCharacter};
use crate::engine::terminal::{
    cleared, draw_all, lemma_draw_all_looks, lemma_text_cells_in_grid, lemma_text_cells_in_rows,
    row_text_cells, same_look, saturated_id, text_canvas, text_cells, Terminal,
};
use crate::utils::geometry::Coord;
use crate::utils::graphics::{foreground_only, Color, Style};
use crate::utils::text::{lemma_rows_nonempty, longest_row, split_rows, text_grid, text_rows};

verus! {

/// Characters catch fire row by row from the bottom and burn down to the final text.
pub struct Burn;

impl Burn {
    pub fn new() -> (effect: Self)
        ensures
            effect == Burn,
    {
        Burn
    }

    pub fn name(&self) -> (name: &'static str)
        ensures
            name@ == "burn"@,
    {
        "burn"
    }
}

impl Default for Burn {
    fn default() -> (effect: Self)
        ensures
            effect == Burn,
    {
        Self::new()
    }
}

/// The colour of the text before it burns.
pub open spec fn ash_color() -> Color {
    Color::Rgb { r: 0x83, g: 0x73, b: 0x73 }
}

/// The colours of the flames, from the hottest.
pub open spec fn flame_color(index: int) -> Color {
    if index == 0 {
        Color::Rgb { r: 0xff, g: 0xff, b: 0xff }
    } else if index == 1 {
        Color::Rgb { r: 0xff, g: 0xf7, b: 0x5d }
    } else if index == 2 {
        Color::Rgb { r: 0xfe, g: 0x65, b: 0x0d }
    } else {
        Color::Rgb { r: 0x8a, g: 0x00, b: 0x3c }
    }
}

/// The flame symbol character `id` shows in flame `index`.
pub open spec fn flame_symbol(id: nat, index: int) -> char {
    wave_symbol((id * 5 + index * 3) % 8)
}

/// The frames of a character's burning: four flames of two steps each, then its symbol in
/// `final_style` for one.
pub open spec fn burn_frames(id: nat, symbol: char, final_style: Style) -> Seq<Frame> {
    Seq::new(
        4,
        |k: int|
            Frame {
                visual: CharacterVisual { symbol: flame_symbol(id, k), style: foreground_only(flame_color(k)) },
                duration: 2,
            },
    ).push(Frame { visual: CharacterVisual { symbol, style: final_style }, duration: 1 })
}

/// Where a character's burning is `steps` steps after it caught fire.
pub open spec fn burn_state(id: nat, symbol: char, final_style: Style, steps: int) -> SceneView {
    let frames = burn_frames(id, symbol, final_style);
    if steps < 8 {
        SceneView {
            frames,
            frame_index: (steps / 2) as nat,
            frame_tick: (steps % 2) as nat,
            looping: false,
            active: true,
            finished: false,
        }
    } else if steps == 8 {
        SceneView { frames, frame_index: 4, frame_tick: 0, looping: false, active: true, finished: false }
    } else {
        SceneView { frames, frame_index: 4, frame_tick: 0, looping: false, active: false, finished: true }
    }
}

/// What a character shows `steps` (at least one) steps after it caught fire.
pub open spec fn burn_look(id: nat, symbol: char, final_style: Style, steps: int) -> (char, Style) {
    if steps <= 8 {
        (flame_symbol(id, (steps - 1) / 2), foreground_only(flame_color((steps - 1) / 2)))
    } else {
        (symbol, final_style)
    }
}

proof fn lemma_burn_step(id: nat, symbol: char, final_style: Style, steps: int)
    requires
        steps >= 0,
    ensures
        step_scene(burn_state(id, symbol, final_style, steps)).0 == burn_state(id, symbol, final_style, steps + 1),
        steps <= 8 ==> step_scene(burn_state(id, symbol, final_style, steps)).1 == Some(
            CharacterVisual {
                symbol: burn_look(id, symbol, final_style, steps + 1).0,
                style: burn_look(id, symbol, final_style, steps + 1).1,
            },
        ),
        steps > 8 ==> step_scene(burn_state(id, symbol, final_style, steps)).1 is None,
{
    let frames = burn_frames(id, symbol, final_style);
    assert(frames.len() == 5);
    if steps < 8 {
        assert(frames[steps / 2].duration == 2);
    }
    assert(frames[4].duration == 1);
}

/// The number of rows below row `y` (further down the text) that hold a character.
pub open spec fn text_rows_below(rows: Seq<Seq<char>>, y: int) -> nat
    decreases rows.len() - y,
{
    if y + 1 >= rows.len() {
        0
    } else {
        (if rows[y + 1].len() > 0 { 1nat } else { 0nat }) + text_rows_below(rows, y + 1)
    }
}

/// At most the rows below row `y` hold characters below it.
proof fn lemma_rows_below_bound(rows: Seq<Seq<char>>, y: int)
    requires
        -1 <= y,
    ensures
        text_rows_below(rows, y) <= if y + 1 >= rows.len() { 0 } else { rows.len() - y - 1 },
    decreases rows.len() - y,
{
    if y + 1 < rows.len() {
        lemma_rows_below_bound(rows, y + 1);
    }
}

/// The frame in which the characters of row `y` catch fire: the rows holding characters
/// catch fire from the bottom one, three frames apart.
pub open spec fn ignition(rows: Seq<Seq<char>>, y: int) -> int {
    (3 * text_rows_below(rows, y)) as int
}

/// A character of the text as frame `frame` of the burn shows it; `id` is its identity and
/// `final_color` its row's final colour.
pub open spec fn burning_character(
    cell: (char, Coord),
    id: nat,
    start: int,
    final_color: Color,
    frame: int,
) -> EffectCharacter {
    let (symbol, style) = if frame < start {
        (cell.0, foreground_only(ash_color()))
    } else {
        burn_look(id, cell.0, foreground_only(final_color), frame - start + 1)
    };
    EffectCharacter {
        id: CharacterId(0),
        input_symbol: cell.0,
        symbol,
        position: cell.1,
        style,
        visible: true,
        animation: arbitrary(),
    }
}

/// Frame `frame` of the burn of `text`; `row_colors` holds each row's final colour.
pub open spec fn burn_frame(text: Seq<char>, row_colors: Seq<Color>, frame: int) -> Seq<char> {
    let rows = text_rows(text);
    let cells = text_cells(rows);
    render_canvas(
        draw_all(
            text_canvas(text),
            Seq::new(
                cells.len(),
                |i: int|
                    burning_character(
                        cells[i],
                        saturated_id(i as nat),
                        ignition(rows, cells[i].1.y as int),
                        row_colors[cells[i].1.y as int],
                        frame,
                    ),
            ),
        ),
    )
}

/// Rows further down hold no more rows with characters below them.
proof fn lemma_rows_below_monotone(rows: Seq<Seq<char>>, a: int, b: int)
    requires
        -1 <= a <= b,
    ensures
        text_rows_below(rows, b) <= text_rows_below(rows, a),
    decreases b - a,
{
    if a < b {
        lemma_rows_below_monotone(rows, a + 1, b);
    }
}

/// The burn of a text with characters ends with the text in its rows' colours: once the
/// last row to catch fire has burnt out, every character shows its symbol at its place in
/// the colour `row_colors` gives its row.
pub proof fn lemma_burn_ends_in_row_colors(text: Seq<char>, row_colors: Seq<Color>)
    requires
        text_cells(text_rows(text)).len() > 0,
        text_grid(text).0 <= i32::MAX,
        text_grid(text).1 <= i32::MAX,
    ensures
        burn_frame(text, row_colors, 3 * text_rows_below(text_rows(text), -1) + 5int) == row_colored_frame(
            text,
            row_colors,
        ),
{
    let rows = text_rows(text);
    let cells = text_cells(rows);
    let last = 3 * text_rows_below(rows, -1) + 5int;
    lemma_rows_nonempty(text);
    assert(longest_row(rows) <= i32::MAX);
    lemma_text_cells_in_rows(rows);
    let burnt = Seq::new(
        cells.len(),
        |i: int|
            burning_character(
                cells[i],
                saturated_id(i as nat),
                ignition(rows, cells[i].1.y as int),
                row_colors[cells[i].1.y as int],
                last,
            ),
    );
    let settled = Seq::new(cells.len(), |i: int| lit_character(cells[i], foreground_only(row_colors[cells[i].1.y as int])));
    assert forall|i: int| 0 <= i < cells.len() implies burnt[i] == settled[i] by {
        let cell = cells[i];
        let y = cell.1.y as int;
        assert(0 <= y < rows.len() && rows[y].len() > 0);
        assert(text_rows_below(rows, y - 1) == 1 + text_rows_below(rows, y));
        lemma_rows_below_monotone(rows, -1, y - 1);
    }
    assert(burnt =~= settled);
}

/// A row that holds characters holds one at its first column.
proof fn lemma_row_has_a_cell(rows: Seq<Seq<char>>, y: int)
    requires
        0 <= y < rows.len(),
        rows[y].len() > 0,
        rows.len() <= i32::MAX,
    ensures
        exists|i: int| 0 <= i < text_cells(rows).len() && (#[trigger] text_cells(rows)[i]).1.y == y,
    decreases rows.len(),
{
    let rest = rows.drop_last();
    if y == rows.len() - 1 {
        let i = text_cells(rest).len() as int;
        assert(text_cells(rows)[i] == row_text_cells(rows.last(), y)[0]);
    } else {
        assert(rest[y] == rows[y]);
        lemma_row_has_a_cell(rest, y);
        let i = choose|i: int| 0 <= i < text_cells(rest).len() && (#[trigger] text_cells(rest)[i]).1.y == y;
        assert(text_cells(rows)[i] == text_cells(rest)[i]);
    }
}

/// A character's burning, not yet started.
fn burn_scene(id: u32, symbol: char, final_style: Style) -> (scene: Scene)
    ensures
        scene.wf(),
        scene@ == (SceneView {
            frames: burn_frames(id as nat, symbol, final_style),
            frame_index: 0,
            frame_tick: 0,
            looping: false,
            active: false,
            finished: false,
        }),
{
    let mut frames: Vec<Frame> = Vec::new();
    let mut k: usize = 0;
    while k < 4
        invariant
            k <= 4,
            frames@ == Seq::new(
                k as nat,
                |j: int|
                    Frame {
                        visual: CharacterVisual { symbol: flame_symbol(id as nat, j), style: foreground_only(flame_color(j)) },
                        duration: 2,
                    },
            ),
        decreases 4 - k,
    {
        let color = if k == 0 {
            Color::rgb(0xff, 0xff, 0xff)
        } else if k == 1 {
            Color::rgb(0xff, 0xf7, 0x5d)
        } else if k == 2 {
            Color::rgb(0xfe, 0x65, 0x0d)
        } else {
            Color::rgb(0x8a, 0x00, 0x3c)
        };
        let index = ((id as u64 * 5 + k as u64 * 3) % 8) as usize;
        frames.push(Frame::new(CharacterVisual::new(wave_symbol_at(index), Style::default().with_foreground(color)), 2));
        assert(frames@ =~= Seq::new(
            (k + 1) as nat,
            |j: int|
                Frame {
                    visual: CharacterVisual { symbol: flame_symbol(id as nat, j), style: foreground_only(flame_color(j)) },
                    duration: 2,
                },
        ));
        k += 1;
    }
    frames.push(Frame::new(CharacterVisual::new(symbol, final_style), 1));
    assert(frames@ =~= burn_frames(id as nat, symbol, final_style));
    Scene::with_frames(frames, false)
}

/// Character `cell` of the burn at the start of frame `frame`: at its place, not yet
/// alight before `start`, and `frame - start` steps into its burning after it.
pub open spec fn burning(
    character: EffectCharacter,
    cell: (char, Coord),
    id: nat,
    start: int,
    final_color: Color,
    frame: int,
) -> bool {
    let final_style = foreground_only(final_color);
    &&& character.visible
    &&& character.position == cell.1
    &&& character.input_symbol == cell.0
    &&& character.id.0 == id
    &&& character.wf()
    &&& frame <= start ==> {
        &&& character.animation@.active_scene is None
        &&& character.symbol == cell.0
        &&& character.style == foreground_only(ash_color())
    }
    &&& start < frame ==> {
        &&& character.animation@.active_scene == Some(burn_state(id, cell.0, final_style, frame - start))
        &&& (character.symbol, character.style) == burn_look(id, cell.0, final_style, frame - start)
    }
}

/// Like `burning`, once the characters that catch fire in frame `frame` have caught it.
pub open spec fn alight(
    character: EffectCharacter,
    cell: (char, Coord),
    id: nat,
    start: int,
    final_color: Color,
    frame: int,
) -> bool {
    let final_style = foreground_only(final_color);
    &&& character.visible
    &&& character.position == cell.1
    &&& character.input_symbol == cell.0
    &&& character.id.0 == id
    &&& character.wf()
    &&& frame < start ==> {
        &&& character.animation@.active_scene is None
        &&& character.symbol == cell.0
        &&& character.style == foreground_only(ash_color())
    }
    &&& start <= frame ==> character.animation@.active_scene == Some(
        burn_state(id, cell.0, final_style, frame - start),
    )
    &&& start == frame ==> character.symbol == cell.0 && character.style == foreground_only(ash_color())
    &&& start < frame ==> (character.symbol, character.style) == burn_look(
        id,
        cell.0,
        final_style,
        frame - start,
    )
}

proof fn lemma_burning_step(
    before: EffectCharacter,
    after: EffectCharacter,
    cell: (char, Coord),
    id: nat,
    start: int,
    final_color: Color,
    frame: int,
)
    requires
        start >= 0,
        alight(before, cell, id, start, final_color, frame),
        character_stepped(before, after),
    ensures
        burning(after, cell, id, start, final_color, frame + 1),
{
    if start <= frame {
        lemma_burn_step(id, cell.0, foreground_only(final_color), frame - start);
    }
}

/// Sets alight every character in row `row`, burning down to `final_color`.
fn ignite_row(terminal: &mut Terminal, row: i32, final_color: Color)
    requires
        old(terminal).wf(),
    ensures
        final(terminal).wf(),
        final(terminal)@.canvas == old(terminal)@.canvas,
        final(terminal)@.next_id == old(terminal)@.next_id,
        final(terminal)@.characters.len() == old(terminal)@.characters.len(),
        forall|i: int|
            0 <= i < old(terminal)@.characters.len() ==> {
                let before = old(terminal)@.characters[i];
                let after = #[trigger] final(terminal)@.characters[i];
                &&& before.position.y != row ==> after == before
                &&& before.position.y == row ==> {
                    &&& after.wf()
                    &&& after.visible == before.visible
                    &&& after.position == before.position
                    &&& after.symbol == before.symbol
                    &&& after.input_symbol == before.input_symbol
                    &&& after.style == before.style
                    &&& after.id == before.id
                    &&& after.animation@.active_scene == Some(
                        burn_state(before.id.0 as nat, before.input_symbol, foreground_only(final_color), 0),
                    )
                }
            },
{
    let count = terminal.characters().len();
    let mut index: usize = 0;
    while index < count
        invariant
            index <= count,
            count == terminal@.characters.len(),
            count == old(terminal)@.characters.len(),
            terminal.wf(),
            terminal@.canvas == old(terminal)@.canvas,
            terminal@.next_id == old(terminal)@.next_id,
            forall|i: int| index <= i < count ==> #[trigger] terminal@.characters[i] == old(terminal)@.characters[i],
            forall|i: int|
                0 <= i < index ==> {
                    let before = old(terminal)@.characters[i];
                    let after = #[trigger] terminal@.characters[i];
                    &&& before.position.y != row ==> after == before
                    &&& before.position.y == row ==> {
                        &&& after.wf()
                        &&& after.visible == before.visible
                        &&& after.position == before.position
                        &&& after.symbol == before.symbol
                        &&& after.input_symbol == before.input_symbol
                        &&& after.style == before.style
                        &&& after.id == before.id
                        &&& after.animation@.active_scene == Some(
                            burn_state(before.id.0 as nat, before.input_symbol, foreground_only(final_color), 0),
                        )
                    }
                },
        decreases count - index,
    {
        if terminal.characters()[index].position.y == row {
            let ghost current = terminal@.characters;
            let id = terminal.characters()[index].id.0;
            let symbol = terminal.characters()[index].input_symbol;
            let scene = burn_scene(id, symbol, Style::default().with_foreground(final_color));
            let characters = terminal.characters_mut();
            characters[index].animation.activate_scene(scene);
            proof {
                assert forall|i: int| 0 <= i < count && i != index implies #[trigger] terminal@.characters[i]
                    == current[i] by {}
                assert(crate::engine::terminal::all_wf(terminal@.characters)) by {
                    assert forall|i: int| 0 <= i < count implies (#[trigger] terminal@.characters[i]).wf() by {
                        if i != index {
                            assert(terminal@.characters[i] == current[i]);
                        }
                    }
                }
            }
        }
        index += 1;
    }
}

/// Whether some character's burning has started and not yet finished.
fn any_burning(terminal: &Terminal) -> (burning: bool)
    requires
        terminal.wf(),
    ensures
        burning == exists|i: int|
            0 <= i < terminal@.characters.len() && match (#[trigger] terminal@.characters[i]).animation@.active_scene {
                Some(scene) => !scene.finished,
                None => false,
            },
{
    let count = terminal.characters().len();
    let mut index: usize = 0;
    while index < count
        invariant
            index <= count,
            count == terminal@.characters.len(),
            terminal.wf(),
            forall|i: int|
                0 <= i < index ==> match (#[trigger] terminal@.characters[i]).animation@.active_scene {
                    Some(scene) => scene.finished,
                    None => true,
                },
        decreases count - index,
    {
        let character = &terminal.characters()[index];
        assert(character.wf());
        match character.animation.active_scene() {
            Some(scene) => {
                if !scene.is_finished() {
                    return true;
                }
            },
            None => {},
        }
        index += 1;
    }
    false
}

/// The schedule of the burn: at the start of frame `t`, `next_row` rows have caught fire,
/// one every three frames from frame zero, and `delay` frames remain before the next does.
pub open spec fn on_schedule(t: int, next_row: int, delay: int, groups: int) -> bool {
    &&& next_row == if (t + 2) / 3 < groups { (t + 2) / 3 } else { groups }
    &&& next_row < groups ==> delay == (3 - t % 3) % 3
}

/// In frame `t` the row with rank `rank` catches fire exactly when the schedule says the
/// next row goes now and it is that row; and the schedule moves on to frame `t + 1`.
proof fn lemma_schedule(t: int, next_row: int, delay: int, groups: int)
    requires
        t >= 0,
        groups >= 1,
        on_schedule(t, next_row, delay, groups),
    ensures
        next_row < groups && delay == 0 ==> 3 * next_row == t,
        forall|rank: int| 0 <= rank < groups && #[trigger] (3 * rank) == t ==> next_row == rank && delay == 0,
        next_row < groups && delay == 0 ==> on_schedule(t + 1, next_row + 1, 2, groups),
        next_row < groups && delay != 0 ==> on_schedule(t + 1, next_row, delay - 1, groups),
        next_row >= groups ==> on_schedule(t + 1, next_row, delay, groups),
{
}

/// One frame of the burn for one character: if it catches fire now it starts burning, and
/// a step later it shows what the frame shows.
proof fn lemma_burn_character_frame(
    waiting: EffectCharacter,
    lit: EffectCharacter,
    stepped: EffectCharacter,
    cell: (char, Coord),
    id: nat,
    start: int,
    final_color: Color,
    t: int,
    ignited: bool,
)
    requires
        t >= 0,
        start >= 0,
        burning(waiting, cell, id, start, final_color, t),
        ignited <==> start == t,
        !ignited ==> lit == waiting,
        ignited ==> {
            &&& lit.wf()
            &&& lit.visible == waiting.visible
            &&& lit.position == waiting.position
            &&& lit.symbol == waiting.symbol
            &&& lit.input_symbol == waiting.input_symbol
            &&& lit.style == waiting.style
            &&& lit.id == waiting.id
            &&& lit.animation@.active_scene == Some(
                burn_state(waiting.id.0 as nat, waiting.input_symbol, foreground_only(final_color), 0),
            )
        },
        character_stepped(lit, stepped),
    ensures
        burning(stepped, cell, id, start, final_color, t + 1),
        same_look(stepped, burning_character(cell, id, start, final_color, t)),
{
    assert(alight(lit, cell, id, start, final_color, t));
    lemma_burning_step(lit, stepped, cell, id, start, final_color, t);
    if start <= t {
        lemma_burn_step(id, cell.0, foreground_only(final_color), t - start);
    }
}

impl Burn {
    /// The frames of the burn: the text shows ash-grey, then the rows that hold characters
    /// catch fire from the bottom one up, three frames apart; each character burns through
    /// four flames of two frames each and settles in its row's colour from `row_colors`.
    /// One frame per step until the top row has settled: three per row holding characters,
    /// and six more; none when the text has no character.
    #[verifier::spinoff_prover]
    #[verifier::rlimit(70)]
    pub fn frames(&self, input: &str, row_colors: &Vec<Color>) -> (frames: Vec<String>)
        requires
            text_grid(input@).0 * text_grid(input@).1 <= usize::MAX,
            text_grid(input@).0 <= i32::MAX,
            text_grid(input@).1 <= i32::MAX,
            3 * text_grid(input@).1 + 6 <= usize::MAX,
            row_colors.len() == text_grid(input@).1,
        ensures
            frames.len() == if text_cells(text_rows(input@)).len() == 0 {
                0
            } else {
                3 * text_rows_below(text_rows(input@), -1) + 6
            },
            forall|f: int|
                0 <= f < frames.len() ==> (#[trigger] frames[f])@ == burn_frame(input@, row_colors@, f),
            frames.len() > 0 ==> frames@.last()@ == row_colored_frame(input@, row_colors@),
    {
        let mut terminal = Terminal::from_text(input);
        let ghost rows = text_rows(input@);
        let ghost cells = text_cells(rows);
        let ghost canvas0 = terminal@.canvas;
        proof {
            lemma_rows_nonempty(input@);
            lemma_text_cells_in_grid(rows);
            lemma_text_cells_in_rows(rows);
            assert(canvas0.cells =~= text_canvas(input@).cells);
            assert(cleared(canvas0).cells =~= canvas0.cells);
        }
        let count = terminal.characters().len();
        if count == 0 {
            return Vec::new();
        }
        let mut index: usize = 0;
        while index < count
            invariant
                index <= count,
                count == cells.len(),
                count == terminal@.characters.len(),
                cells == text_cells(rows),
                terminal.wf(),
                terminal@.canvas == canvas0,
                forall|i: int|
                    0 <= i < count ==> {
                        &&& (#[trigger] terminal@.characters[i]).visible
                        &&& terminal@.characters[i].position == cells[i].1
                        &&& terminal@.characters[i].input_symbol == cells[i].0
                        &&& terminal@.characters[i].id.0 == saturated_id(i as nat)
                        &&& terminal@.characters[i].animation@.active_scene is None
                        &&& terminal@.characters[i].wf()
                    },
                forall|i: int|
                    0 <= i < index ==> {
                        &&& (#[trigger] terminal@.characters[i]).symbol == cells[i].0
                        &&& terminal@.characters[i].style == foreground_only(ash_color())
                    },
            decreases count - index,
        {
            let ghost current = terminal@.characters;
            let symbol = terminal.characters()[index].input_symbol;
            let characters = terminal.characters_mut();
            characters[index].set_appearance(symbol, Style::default().with_foreground(Color::rgb(0x83, 0x73, 0x73)));
            characters[index].visible = true;
            proof {
                assert forall|i: int| 0 <= i < count && i != index implies #[trigger] terminal@.characters[i]
                    == current[i] by {}
                assert(crate::engine::terminal::all_wf(terminal@.characters)) by {
                    assert forall|i: int| 0 <= i < count implies (#[trigger] terminal@.characters[i]).wf() by {
                        if i != index {
                            assert(terminal@.characters[i] == current[i]);
                        }
                    }
                }
            }
            index += 1;
        }
        let lines = split_rows(input);
        let height = lines.len();
        let mut order: Vec<usize> = Vec::new();
        let mut y: usize = height;
        while y > 0
            invariant
                y <= height,
                height == rows.len(),
                lines.deep_view() == rows,
                order.len() == text_rows_below(rows, y - 1),
                forall|k: int|
                    0 <= k < order.len() ==> {
                        &&& y <= (#[trigger] order@[k]) < height
                        &&& rows[order@[k] as int].len() > 0
                        &&& text_rows_below(rows, order@[k] as int) == k
                    },
                forall|r: int|
                    #![trigger rows[r]]
                    y <= r < height && rows[r].len() > 0 ==> {
                        &&& text_rows_below(rows, r) < order.len()
                        &&& order@[text_rows_below(rows, r) as int] == r
                    },
            decreases y,
        {
            y -= 1;
            proof {
                assert(lines[y as int]@ == rows[y as int]);
            }
            if lines[y].len() > 0 {
                order.push(y);
            }
        }
        let groups = order.len();
        proof {
            lemma_rows_below_bound(rows, -1);
            let r = order@[groups - 1] as int;
            let top = cells[0].1.y as int;
            assert(rows[top].len() > 0);
            assert(groups >= 1);
            lemma_row_has_a_cell(rows, r);
        }
        let mut frames: Vec<String> = Vec::new();
        let mut t: usize = 0;
        let mut next_row: usize = 0;
        let mut delay: usize = 0;
        let mut done = false;
        while !done
            invariant
                count == cells.len(),
                count == terminal@.characters.len(),
                cells == text_cells(rows),
                rows == text_rows(input@),
                row_colors.len() == rows.len(),
                terminal.wf(),
                cleared(terminal@.canvas) == canvas0,
                canvas0 == text_canvas(input@),
                groups == order.len(),
                groups == text_rows_below(rows, -1),
                groups >= 1,
                groups <= rows.len(),
                rows.len() <= i32::MAX,
                3 * rows.len() + 6 <= usize::MAX,
                forall|k: int|
                    0 <= k < order.len() ==> {
                        &&& 0 <= (#[trigger] order@[k]) < rows.len()
                        &&& rows[order@[k] as int].len() > 0
                        &&& text_rows_below(rows, order@[k] as int) == k
                    },
                forall|i: int|
                    0 <= i < count ==> {
                        let cell = #[trigger] cells[i];
                        &&& 0 <= cell.1.y < rows.len()
                        &&& 0 <= cell.1.x < rows[cell.1.y as int].len()
                    },
                exists|i: int| 0 <= i < count && text_rows_below(rows, (#[trigger] cells[i]).1.y as int) == groups - 1,
                forall|r: int|
                    #![trigger rows[r]]
                    0 <= r < rows.len() && rows[r].len() > 0 ==> {
                        &&& text_rows_below(rows, r) < order.len()
                        &&& order@[text_rows_below(rows, r) as int] == r
                    },
                on_schedule(t as int, next_row as int, delay as int, groups as int),
                t <= 3 * groups + 6,
                done == (t == 3 * groups + 6),
                frames.len() == t,
                forall|i: int|
                    0 <= i < count ==> burning(
                        #[trigger] terminal@.characters[i],
                        cells[i],
                        saturated_id(i as nat),
                        ignition(rows, cells[i].1.y as int),
                        row_colors@[cells[i].1.y as int],
                        t as int,
                    ),
                forall|f: int|
                    0 <= f < frames.len() ==> (#[trigger] frames[f])@ == burn_frame(input@, row_colors@, f),
            decreases 3 * groups + 6 - t,
        {
            let ghost waiting = terminal@.characters;
            let ghost ignited_row: int = -1;
            let ghost next0 = next_row as int;
            let ghost delay0 = delay as int;
            proof {
                lemma_schedule(t as int, next_row as int, delay as int, groups as int);
            }
            if next_row < groups {
                if delay == 0 {
                    let row = order[next_row];
                    proof {
                        ignited_row = row as int;
                    }
                    ignite_row(&mut terminal, row as i32, row_colors[row]);
                    next_row += 1;
                    delay = 2;
                } else {
                    delay -= 1;
                }
            }
            let ghost lit = terminal@.characters;
            terminal.step();
            let ghost stepped = terminal@;
            let ghost expected = Seq::new(
                cells.len(),
                |i: int|
                    burning_character(
                        cells[i],
                        saturated_id(i as nat),
                        ignition(rows, cells[i].1.y as int),
                        row_colors@[cells[i].1.y as int],
                        t as int,
                    ),
            );
            proof {
                assert forall|i: int| 0 <= i < count implies {
                    &&& burning(
                        #[trigger] stepped.characters[i],
                        cells[i],
                        saturated_id(i as nat),
                        ignition(rows, cells[i].1.y as int),
                        row_colors@[cells[i].1.y as int],
                        t + 1,
                    )
                    &&& same_look(stepped.characters[i], expected[i])
                } by {
                    let y = cells[i].1.y as int;
                    let rank = text_rows_below(rows, y) as int;
                    assert(rows[y].len() > 0);
                    assert(order@[rank] == y);
                    assert(rank < groups);
                    if 3 * rank == t {
                        assert(next0 == rank && delay0 == 0);
                    }
                    if y == ignited_row {
                        assert(3 * next0 == t);
                        assert(order@[next0] == y);
                    }
                    lemma_burn_character_frame(
                        waiting[i],
                        lit[i],
                        stepped.characters[i],
                        cells[i],
                        saturated_id(i as nat),
                        ignition(rows, y),
                        row_colors@[y],
                        t as int,
                        y == ignited_row,
                    );
                }
                lemma_draw_all_looks(canvas0, stepped.characters, expected);
            }
            let rendered = terminal.render_frame();
            proof {
                assert(cleared(terminal@.canvas).cells =~= canvas0.cells);
                assert(rendered@ == burn_frame(input@, row_colors@, t as int));
            }
            let ghost earlier = frames@;
            frames.push(rendered);
            proof {
                assert forall|f: int| 0 <= f < frames.len() implies (#[trigger] frames[f])@ == burn_frame(
                    input@,
                    row_colors@,
                    f,
                ) by {
                    if f < earlier.len() {
                        assert(frames[f] == earlier[f]);
                    }
                }
            }
            t += 1;
            let still = any_burning(&terminal);
            done = next_row >= groups && !still;
            proof {
                let top = choose|i: int| 0 <= i < count && text_rows_below(rows, (#[trigger] cells[i]).1.y as int) == groups - 1;
                if t < 3 * groups + 6 {
                    if next_row >= groups {
                        assert(burning(terminal@.characters[top], cells[top], saturated_id(top as nat), ignition(rows, cells[top].1.y as int), row_colors@[cells[top].1.y as int], t as int));
                        assert(still);
                    }
                } else {
                    assert(!still) by {
                        assert forall|i: int| 0 <= i < count implies match (#[trigger] terminal@.characters[i]).animation@.active_scene {
                            Some(scene) => scene.finished,
                            None => true,
                        } by {
                            assert(burning(terminal@.characters[i], cells[i], saturated_id(i as nat), ignition(rows, cells[i].1.y as int), row_colors@[cells[i].1.y as int], t as int));
                            assert(text_rows_below(rows, cells[i].1.y as int) < groups);
                        }
                    }
                }
            }
        }
        proof {
            lemma_burn_ends_in_row_colors(input@, row_colors@);
            assert(frames@.last() == frames[frames.len() - 1]);
        }
        frames
    }
}

} // verus!
