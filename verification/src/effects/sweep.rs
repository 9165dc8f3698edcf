use vstd::prelude::*;

use crate::engine::canvas::render_canvas;
use crate::engine::edit::{lit_character, row_colored_frame};
use crate::engine::character::{CharacterId, EffectCharacter};
use crate::engine::terminal::{
    cleared, draw_all, lemma_draw_all_looks, lemma_text_cells_in_grid, placed, same_look,
    text_canvas, text_cells, Terminal,
};
use crate::utils::geometry::Coord;
use crate::utils::graphics::{foreground_only, plain_style, Color, Style};
use crate::utils::text::{lemma_rows_nonempty, longest_row, text_grid, text_rows};

verus! {

/// Two sweeps: one reveals the text, the return one colours it.
pub struct Sweep;

impl Sweep {
    pub fn new() -> (effect: Self)
        ensures
            effect == Sweep,
    {
        Sweep
    }

    pub fn name(&self) -> (name: &'static str)
        ensures
            name@ == "sweep"@,
    {
        "sweep"
    }
}

impl Default for Sweep {
    fn default() -> (effect: Self)
        ensures
            effect == Sweep,
    {
        Self::new()
    }
}

/// The colour of the revealing sweep.
pub open spec fn sweep_white() -> Color {
    Color::Rgb { r: 255, g: 255, b: 255 }
}

/// Whether a character in column `x` is shown once the first sweep has passed `revealed`
/// columns from the left.
pub open spec fn swept_visible(x: i32, revealed: int) -> bool {
    x < revealed
}

/// The style of a character at `position` once the first sweep has passed `revealed`
/// columns and the return sweep `coloured` columns from the right of a canvas `width`
/// wide: its row's colour where the return sweep has been, white where only the first one
/// has, and the plain style before.
pub open spec fn swept_style(position: Coord, width: nat, colors: Seq<Color>, revealed: int, coloured: int) -> Style {
    if position.x >= width - coloured {
        foreground_only(colors[position.y as int])
    } else if position.x < revealed {
        foreground_only(sweep_white())
    } else {
        plain_style()
    }
}

/// How far the sweeps have gone in frame `frame`: the first sweep takes one column per
/// frame, then the return sweep does.
pub open spec fn sweep_progress(width: nat, frame: int) -> (int, int) {
    if frame < width {
        (frame + 1, 0)
    } else {
        (width as int, frame - width + 1)
    }
}

/// The character as frame `frame` draws it.
pub open spec fn swept_character(
    symbol: char,
    position: Coord,
    width: nat,
    colors: Seq<Color>,
    frame: int,
) -> EffectCharacter {
    let (revealed, coloured) = sweep_progress(width, frame);
    EffectCharacter {
        id: CharacterId(0),
        input_symbol: symbol,
        symbol,
        position,
        style: swept_style(position, width, colors, revealed, coloured),
        visible: swept_visible(position.x, revealed),
        animation: arbitrary(),
    }
}

/// Frame `frame` of the sweep of `text`; `colors` holds each canvas row's final colour.
pub open spec fn sweep_frame(text: Seq<char>, colors: Seq<Color>, frame: int) -> Seq<char> {
    let cells = text_cells(text_rows(text));
    let width = text_grid(text).0;
    render_canvas(
        draw_all(
            text_canvas(text),
            Seq::new(
                cells.len(),
                |i: int| swept_character(cells[i].0, cells[i].1, width, colors, frame),
            ),
        ),
    )
}

/// Once the return sweep has passed a character's column, that character shows its symbol
/// at its place in its row's colour from `colors`.
pub proof fn lemma_return_sweep_colours(text: Seq<char>, colors: Seq<Color>, frame: int, i: int)
    requires
        text_grid(text).0 <= frame < 2 * text_grid(text).0,
        0 <= i < text_cells(text_rows(text)).len(),
        text_cells(text_rows(text))[i].1.x >= 2 * text_grid(text).0 - 1 - frame,
        text_grid(text).0 <= i32::MAX,
        text_grid(text).1 <= i32::MAX,
    ensures
        swept_character(
            text_cells(text_rows(text))[i].0,
            text_cells(text_rows(text))[i].1,
            text_grid(text).0,
            colors,
            frame,
        ) == lit_character(
            text_cells(text_rows(text))[i],
            foreground_only(colors[text_cells(text_rows(text))[i].1.y as int]),
        ),
{
    lemma_rows_nonempty(text);
    assert(longest_row(text_rows(text)) <= i32::MAX);
    lemma_text_cells_in_grid(text_rows(text));
}

/// The sweep of a text with characters ends with the text in its rows' colours: the last
/// frame shows every character at its place, in the colour `colors` gives its row.
pub proof fn lemma_sweep_ends_in_row_colors(text: Seq<char>, colors: Seq<Color>)
    requires
        text_cells(text_rows(text)).len() > 0,
        text_grid(text).0 <= i32::MAX,
        text_grid(text).1 <= i32::MAX,
    ensures
        sweep_frame(text, colors, 2 * text_grid(text).0 - 1) == row_colored_frame(text, colors),
{
    let cells = text_cells(text_rows(text));
    let width = text_grid(text).0;
    let last = 2 * width - 1;
    let swept = Seq::new(cells.len(), |i: int| swept_character(cells[i].0, cells[i].1, width, colors, last));
    let settled = Seq::new(cells.len(), |i: int| lit_character(cells[i], foreground_only(colors[cells[i].1.y as int])));
    lemma_rows_nonempty(text);
    assert(longest_row(text_rows(text)) <= i32::MAX);
    lemma_text_cells_in_grid(text_rows(text));
    assert forall|i: int| 0 <= i < cells.len() implies swept[i] == settled[i] by {
        lemma_return_sweep_colours(text, colors, last, i);
    }
    assert(swept =~= settled);
}

/// Whether `after` is `before` with only its look (symbol, style, visibility and
/// animation) possibly changed.
pub open spec fn same_place(before: EffectCharacter, after: EffectCharacter) -> bool {
    &&& after.input_symbol == before.input_symbol
    &&& after.position == before.position
    &&& after.wf()
}

/// Shows the characters of column `column` in their input symbol, styled by `paint`: white
/// for the revealing sweep, otherwise the colour of their row; others stay as they are.
fn paint_column(terminal: &mut Terminal, column: i32, reveal: bool, colors: &Vec<Color>)
    requires
        old(terminal).wf(),
        !reveal ==> forall|i: int|
            0 <= i < old(terminal)@.characters.len() && (#[trigger] old(terminal)@.characters[i]).position.x
                == column ==> 0 <= old(terminal)@.characters[i].position.y < colors.len(),
    ensures
        final(terminal).wf(),
        final(terminal)@.canvas == old(terminal)@.canvas,
        final(terminal)@.characters.len() == old(terminal)@.characters.len(),
        forall|i: int|
            0 <= i < old(terminal)@.characters.len() ==> {
                let before = old(terminal)@.characters[i];
                let after = #[trigger] final(terminal)@.characters[i];
                &&& same_place(before, after)
                &&& before.position.x == column ==> {
                    &&& after.symbol == before.input_symbol
                    &&& after.visible == (reveal || before.visible)
                    &&& after.style == if reveal {
                        foreground_only(sweep_white())
                    } else {
                        foreground_only(colors@[before.position.y as int])
                    }
                }
                &&& before.position.x != column ==> {
                    &&& after.symbol == before.symbol
                    &&& after.visible == before.visible
                    &&& after.style == before.style
                }
            },
{
    let count = terminal.characters().len();
    let mut index: usize = 0;
    while index < count
        invariant
            index <= count,
            count == old(terminal)@.characters.len(),
            count == terminal@.characters.len(),
            terminal.wf(),
            terminal@.canvas == old(terminal)@.canvas,
            !reveal ==> forall|i: int|
                0 <= i < count && (#[trigger] old(terminal)@.characters[i]).position.x == column
                    ==> 0 <= old(terminal)@.characters[i].position.y < colors.len(),
            forall|i: int| index <= i < count ==> #[trigger] terminal@.characters[i] == old(terminal)@.characters[i],
            forall|i: int|
                0 <= i < index ==> {
                    let before = old(terminal)@.characters[i];
                    let after = #[trigger] terminal@.characters[i];
                    &&& same_place(before, after)
                    &&& before.position.x == column ==> {
                        &&& after.symbol == before.input_symbol
                        &&& after.visible == (reveal || before.visible)
                        &&& after.style == if reveal {
                            foreground_only(sweep_white())
                        } else {
                            foreground_only(colors@[before.position.y as int])
                        }
                    }
                    &&& before.position.x != column ==> {
                        &&& after.symbol == before.symbol
                        &&& after.visible == before.visible
                        &&& after.style == before.style
                    }
                },
        decreases count - index,
    {
        let ghost current = terminal@.characters;
        let position = terminal.characters()[index].position;
        if position.x == column {
            let color = if reveal {
                Color::rgb(255, 255, 255)
            } else {
                colors[position.y as usize]
            };
            let characters = terminal.characters_mut();
            let character = &mut characters[index];
            if reveal {
                character.visible = true;
            }
            let symbol = character.input_symbol;
            character.set_appearance(symbol, Style::default().with_foreground(color));
        }
        proof {
            assert forall|i: int| 0 <= i < count && i != index implies #[trigger] terminal@.characters[i]
                == current[i] by {}
        }
        index += 1;
    }
}

impl Sweep {
    /// The frames of the sweep: a white sweep reveals the text one column per frame from
    /// the left, then a return sweep gives each column, from the right, its rows' final
    /// colours; none when the text has no character. `row_colors` holds the final colour of
    /// each canvas row (the caller computes the gradient).
    pub fn frames(&self, input: &str, row_colors: &Vec<Color>) -> (frames: Vec<String>)
        requires
            text_grid(input@).0 * text_grid(input@).1 <= usize::MAX,
            text_grid(input@).0 <= i32::MAX,
            text_grid(input@).1 <= i32::MAX,
            row_colors.len() == text_grid(input@).1,
        ensures
            frames.len() == if text_cells(text_rows(input@)).len() == 0 {
                0
            } else {
                2 * text_grid(input@).0
            },
            forall|f: int|
                0 <= f < frames.len() ==> (#[trigger] frames[f])@ == sweep_frame(input@, row_colors@, f),
            frames.len() > 0 ==> frames@.last()@ == row_colored_frame(input@, row_colors@),
    {
        let mut terminal = Terminal::from_text(input);
        let ghost cells = text_cells(text_rows(input@));
        let count = terminal.characters().len();
        if count == 0 {
            return Vec::new();
        }
        let ghost canvas0 = terminal@.canvas;
        proof {
            lemma_rows_nonempty(input@);
            lemma_text_cells_in_grid(text_rows(input@));
            assert(canvas0.cells =~= text_canvas(input@).cells);
            assert(cleared(canvas0).cells =~= canvas0.cells);
        }
        let mut index: usize = 0;
        while index < count
            invariant
                index <= count,
                count == cells.len(),
                count == terminal@.characters.len(),
                terminal.wf(),
                terminal@.canvas == canvas0,
                forall|i: int|
                    0 <= i < count ==> {
                        &&& (#[trigger] terminal@.characters[i]).input_symbol == cells[i].0
                        &&& terminal@.characters[i].position == cells[i].1
                        &&& terminal@.characters[i].symbol == cells[i].0
                        &&& terminal@.characters[i].style == plain_style()
                        &&& terminal@.characters[i].visible == (i >= index)
                    },
            decreases count - index,
        {
            let ghost current = terminal@.characters;
            let characters = terminal.characters_mut();
            characters[index].visible = false;
            proof {
                assert forall|i: int| 0 <= i < count && i != index implies #[trigger] terminal@.characters[i]
                    == current[i] by {}
            }
            index += 1;
        }
        let width = terminal.canvas().width();
        let ghost wide = width as nat;
        let mut frames: Vec<String> = Vec::new();
        let mut column: usize = 0;
        while column < width
            invariant
                column <= width,
                wide == width,
                wide == text_grid(input@).0,
                width <= i32::MAX,
                row_colors.len() == text_grid(input@).1,
                text_grid(input@).1 == text_rows(input@).len(),
                count == cells.len(),
                cells == text_cells(text_rows(input@)),
                count == terminal@.characters.len(),
                terminal.wf(),
                cleared(terminal@.canvas) == canvas0,
                canvas0 == text_canvas(input@),
                forall|i: int|
                    0 <= i < count ==> {
                        &&& 0 <= (#[trigger] cells[i]).1.x < wide
                        &&& 0 <= cells[i].1.y < row_colors.len()
                    },
                forall|i: int|
                    0 <= i < count ==> {
                        &&& (#[trigger] terminal@.characters[i]).input_symbol == cells[i].0
                        &&& terminal@.characters[i].position == cells[i].1
                        &&& terminal@.characters[i].symbol == cells[i].0
                        &&& terminal@.characters[i].style == swept_style(
                            cells[i].1,
                            wide,
                            row_colors@,
                            column as int,
                            0,
                        )
                        &&& terminal@.characters[i].visible == swept_visible(cells[i].1.x, column as int)
                    },
                frames.len() == column,
                forall|f: int|
                    0 <= f < frames.len() ==> (#[trigger] frames[f])@ == sweep_frame(input@, row_colors@, f),
            decreases width - column,
        {
            paint_column(&mut terminal, column as i32, true, row_colors);
            let ghost painted = terminal@.characters;
            let ghost expected = Seq::new(
                cells.len(),
                |i: int| swept_character(cells[i].0, cells[i].1, wide, row_colors@, column as int),
            );
            proof {
                assert forall|i: int| 0 <= i < count implies same_look(
                    #[trigger] painted[i],
                    expected[i],
                ) by {}
                lemma_draw_all_looks(canvas0, painted, expected);
            }
            let frame = terminal.render_frame();
            proof {
                assert(cleared(terminal@.canvas).cells =~= canvas0.cells);
                assert(frame@ == sweep_frame(input@, row_colors@, column as int));
            }
            let ghost before = frames@;
            frames.push(frame);
            proof {
                assert forall|f: int| 0 <= f < frames.len() implies (#[trigger] frames[f])@ == sweep_frame(
                    input@,
                    row_colors@,
                    f,
                ) by {
                    if f < before.len() {
                        assert(frames[f] == before[f]);
                    }
                }
            }
            column += 1;
        }
        let mut step: usize = 0;
        while step < width
            invariant
                step <= width,
                wide == width,
                wide == text_grid(input@).0,
                width <= i32::MAX,
                row_colors.len() == text_grid(input@).1,
                count == cells.len(),
                cells == text_cells(text_rows(input@)),
                count == terminal@.characters.len(),
                terminal.wf(),
                cleared(terminal@.canvas) == canvas0,
                canvas0 == text_canvas(input@),
                forall|i: int|
                    0 <= i < count ==> {
                        &&& 0 <= (#[trigger] cells[i]).1.x < wide
                        &&& 0 <= cells[i].1.y < row_colors.len()
                    },
                forall|i: int|
                    0 <= i < count ==> {
                        &&& (#[trigger] terminal@.characters[i]).input_symbol == cells[i].0
                        &&& terminal@.characters[i].position == cells[i].1
                        &&& terminal@.characters[i].symbol == cells[i].0
                        &&& terminal@.characters[i].style == swept_style(
                            cells[i].1,
                            wide,
                            row_colors@,
                            wide as int,
                            step as int,
                        )
                        &&& terminal@.characters[i].visible == swept_visible(cells[i].1.x, wide as int)
                    },
                frames.len() == width + step,
                forall|f: int|
                    0 <= f < frames.len() ==> (#[trigger] frames[f])@ == sweep_frame(input@, row_colors@, f),
            decreases width - step,
        {
            let column = width - 1 - step;
            paint_column(&mut terminal, column as i32, false, row_colors);
            let ghost painted = terminal@.characters;
            let ghost expected = Seq::new(
                cells.len(),
                |i: int| swept_character(cells[i].0, cells[i].1, wide, row_colors@, (width + step) as int),
            );
            proof {
                assert forall|i: int| 0 <= i < count implies same_look(
                    #[trigger] painted[i],
                    expected[i],
                ) by {}
                lemma_draw_all_looks(canvas0, painted, expected);
            }
            let frame = terminal.render_frame();
            proof {
                assert(cleared(terminal@.canvas).cells =~= canvas0.cells);
                assert(frame@ == sweep_frame(input@, row_colors@, (width + step) as int));
            }
            let ghost before = frames@;
            frames.push(frame);
            proof {
                assert forall|f: int| 0 <= f < frames.len() implies (#[trigger] frames[f])@ == sweep_frame(
                    input@,
                    row_colors@,
                    f,
                ) by {
                    if f < before.len() {
                        assert(frames[f] == before[f]);
                    }
                }
            }
            step += 1;
        }
        proof {
            lemma_sweep_ends_in_row_colors(input@, row_colors@);
            assert(frames@.last() == frames[frames.len() - 1]);
        }
        frames
    }
}

} // verus!
