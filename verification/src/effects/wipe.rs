use vstd::prelude::*;

use crate::engine::canvas::render_canvas;
use crate::engine::edit::{lit_character, row_colored_frame};
use crate::engine::character::{CharacterId, EffectCharacter};
use crate::engine::terminal::{
    cleared, draw_all, lemma_draw_all_looks, lemma_text_cells_in_grid, same_look, text_canvas,
    text_cells, Terminal,
};
use crate::utils::geometry::Coord;
use crate::utils::graphics::{foreground_only, Color, Style};
use crate::utils::text::{lemma_rows_nonempty, longest_row, text_grid, text_rows};

verus! {

/// The text is wiped in diagonally from the bottom-left corner.
#[derive(Debug, Clone, Copy, Default)]
pub struct Wipe;

impl Wipe {
    pub fn new() -> (effect: Self)
        ensures
            effect == Wipe,
    {
        Wipe
    }

    pub fn name(&self) -> (name: &'static str)
        ensures
            name@ == "wipe"@,
    {
        "wipe"
    }

    /// The frames of the wipe: the text appears one diagonal at a time from the
    /// bottom-left corner, one frame for each diagonal that holds a character, each
    /// character in its row's colour; none when the text has no character. `row_colors`
    /// holds the colour of each canvas row (the caller computes the gradient).
    pub fn frames(&self, input: &str, row_colors: &Vec<Color>) -> (frames: Vec<String>)
        requires
            text_grid(input@).0 * text_grid(input@).1 <= usize::MAX,
            text_grid(input@).0 + text_grid(input@).1 <= i32::MAX,
            row_colors.len() == text_grid(input@).1,
        ensures
            frames.len() == wipe_diagonals(input@).len(),
            forall|f: int|
                0 <= f < frames.len() ==> (#[trigger] frames[f])@ == wiped_frame(
                    input@,
                    row_colors@,
                    wipe_diagonals(input@)[f],
                ),
            frames.len() > 0 ==> frames@.last()@ == row_colored_frame(input@, row_colors@),
    {
        let mut terminal = Terminal::from_text(input);
        let ghost cells = text_cells(text_rows(input@));
        let ghost canvas0 = terminal@.canvas;
        let count = terminal.characters().len();
        let width = terminal.canvas().width();
        let height = terminal.canvas().height();
        let ghost tall = height as nat;
        if count == 0 {
            proof {
                lemma_no_diagonals(cells, tall, (width + height - 1) as nat);
            }
            return Vec::new();
        }
        proof {
            lemma_rows_nonempty(input@);
            lemma_text_cells_in_grid(text_rows(input@));
            assert(canvas0.cells =~= text_canvas(input@).cells);
            assert(cleared(canvas0).cells =~= canvas0.cells);
        }
        let mut index: usize = 0;
        while index < count
            invariant
                index <= count,
                count == cells.len(),
                count == terminal@.characters.len(),
                terminal.wf(),
                terminal@.canvas == canvas0,
                row_colors.len() == height,
                forall|i: int|
                    0 <= i < count ==> {
                        &&& 0 <= (#[trigger] cells[i]).1.x < width
                        &&& 0 <= cells[i].1.y < height
                    },
                forall|i: int|
                    0 <= i < count ==> {
                        &&& (#[trigger] terminal@.characters[i]).input_symbol == cells[i].0
                        &&& terminal@.characters[i].position == cells[i].1
                        &&& terminal@.characters[i].symbol == cells[i].0
                    },
                forall|i: int|
                    0 <= i < index ==> {
                        &&& (#[trigger] terminal@.characters[i]).style == foreground_only(
                            row_colors@[cells[i].1.y as int],
                        )
                        &&& !terminal@.characters[i].visible
                    },
            decreases count - index,
        {
            let ghost current = terminal@.characters;
            let y = terminal.characters()[index].position.y;
            let color = row_colors[y as usize];
            let characters = terminal.characters_mut();
            let character = &mut characters[index];
            let symbol = character.input_symbol;
            character.set_appearance(symbol, Style::default().with_foreground(color));
            character.visible = false;
            proof {
                assert forall|i: int| 0 <= i < count && i != index implies #[trigger] terminal@.characters[i]
                    == current[i] by {}
            }
            index += 1;
        }
        let last_row = (height - 1) as i32;
        let total = width + height - 1;
        let mut frames: Vec<String> = Vec::new();
        let mut d: usize = 0;
        while d < total
            invariant
                d <= total,
                total == width + height - 1,
                tall == height,
                last_row == height - 1,
                width + height <= i32::MAX,
                text_grid(input@) == (width as nat, height as nat),
                count == cells.len(),
                cells == text_cells(text_rows(input@)),
                count == terminal@.characters.len(),
                terminal.wf(),
                cleared(terminal@.canvas) == canvas0,
                canvas0 == text_canvas(input@),
                row_colors.len() == height,
                forall|i: int|
                    0 <= i < count ==> {
                        &&& 0 <= (#[trigger] cells[i]).1.x < width
                        &&& 0 <= cells[i].1.y < height
                    },
                forall|i: int|
                    0 <= i < count ==> {
                        &&& (#[trigger] terminal@.characters[i]).input_symbol == cells[i].0
                        &&& terminal@.characters[i].position == cells[i].1
                        &&& terminal@.characters[i].symbol == cells[i].0
                        &&& terminal@.characters[i].style == foreground_only(
                            row_colors@[cells[i].1.y as int],
                        )
                        &&& terminal@.characters[i].visible == (diagonal(cells[i].1, tall) < d)
                    },
                frames.len() == diagonals_below(cells, tall, d as nat).len(),
                forall|f: int|
                    0 <= f < frames.len() ==> (#[trigger] frames[f])@ == wiped_frame(
                        input@,
                        row_colors@,
                        diagonals_below(cells, tall, d as nat)[f],
                    ),
            decreases total - d,
        {
            let ghost before_step = terminal@.characters;
            let found = reveal_diagonal(&mut terminal, d as i32, last_row);
            proof {
                if found {
                    let i = choose|i: int|
                        0 <= i < count && (#[trigger] before_step[i]).position.x + last_row
                            - before_step[i].position.y == d;
                    assert(diagonal(cells[i].1, tall) == d);
                    assert(has_diagonal(cells, tall, d as int));
                } else {
                    assert(!has_diagonal(cells, tall, d as int)) by {
                        if has_diagonal(cells, tall, d as int) {
                            let i = choose|i: int|
                                0 <= i < cells.len() && diagonal((#[trigger] cells[i]).1, tall) == d;
                            assert(before_step[i].position.x + last_row - before_step[i].position.y == d);
                        }
                    }
                }
            }
            let ghost old_frames = frames@;
            if found {
                let ghost revealed = terminal@.characters;
                let ghost expected = Seq::new(
                    cells.len(),
                    |i: int| wiped_character(cells[i].0, cells[i].1, tall, row_colors@, d as int),
                );
                proof {
                    assert forall|i: int| 0 <= i < count implies same_look(
                        #[trigger] revealed[i],
                        expected[i],
                    ) by {}
                    lemma_draw_all_looks(canvas0, revealed, expected);
                }
                let frame = terminal.render_frame();
                proof {
                    assert(cleared(terminal@.canvas).cells =~= canvas0.cells);
                    assert(frame@ == wiped_frame(input@, row_colors@, d as int));
                }
                frames.push(frame);
            }
            proof {
                let next = diagonals_below(cells, tall, (d + 1) as nat);
                assert(next == diagonals_below(cells, tall, d as nat) + if has_diagonal(cells, tall, d as int) {
                    seq![d as int]
                } else {
                    Seq::empty()
                });
                assert forall|f: int| 0 <= f < frames.len() implies (#[trigger] frames[f])@ == wiped_frame(
                    input@,
                    row_colors@,
                    next[f],
                ) by {
                    if f < old_frames.len() {
                        assert(frames[f] == old_frames[f]);
                        assert(next[f] == diagonals_below(cells, tall, d as nat)[f]);
                    }
                }
            }
            d += 1;
        }
        proof {
            if frames.len() > 0 {
                lemma_wipe_ends_in_row_colors(input@, row_colors@);
                assert(frames@.last() == frames[frames.len() - 1]);
            }
        }
        frames
    }
}

/// The diagonal a position lies on, counted from the bottom-left corner of a canvas
/// `height` rows tall.
pub open spec fn diagonal(position: Coord, height: nat) -> int {
    position.x + (height - 1) - position.y
}

/// Whether some character of the text lies on diagonal `d`.
pub open spec fn has_diagonal(cells: Seq<(char, Coord)>, height: nat, d: int) -> bool {
    exists|i: int| 0 <= i < cells.len() && diagonal((#[trigger] cells[i]).1, height) == d
}

/// The diagonals below `bound` that hold a character, in increasing order.
pub open spec fn diagonals_below(cells: Seq<(char, Coord)>, height: nat, bound: nat) -> Seq<int>
    decreases bound,
{
    if bound == 0 {
        Seq::empty()
    } else {
        diagonals_below(cells, height, (bound - 1) as nat) + if has_diagonal(cells, height, bound - 1) {
            seq![bound - 1]
        } else {
            Seq::empty()
        }
    }
}

/// The character as a frame draws it once the diagonals up to `reached` are shown: in its
/// row's colour, visible if its diagonal is shown.
pub open spec fn wiped_character(
    symbol: char,
    position: Coord,
    height: nat,
    colors: Seq<Color>,
    reached: int,
) -> EffectCharacter {
    EffectCharacter {
        id: CharacterId(0),
        input_symbol: symbol,
        symbol,
        position,
        style: foreground_only(colors[position.y as int]),
        visible: diagonal(position, height) <= reached,
        animation: arbitrary(),
    }
}

/// The frame of the wipe of `text` once the diagonals up to `reached` are shown; `colors`
/// holds each canvas row's colour.
pub open spec fn wiped_frame(text: Seq<char>, colors: Seq<Color>, reached: int) -> Seq<char> {
    let cells = text_cells(text_rows(text));
    let height = text_grid(text).1;
    render_canvas(
        draw_all(
            text_canvas(text),
            Seq::new(
                cells.len(),
                |i: int| wiped_character(cells[i].0, cells[i].1, height, colors, reached),
            ),
        ),
    )
}

/// The diagonals of the text's canvas that hold a character, in increasing order: one
/// frame each.
pub open spec fn wipe_diagonals(text: Seq<char>) -> Seq<int> {
    let (width, height) = text_grid(text);
    diagonals_below(text_cells(text_rows(text)), height, (width + height - 1) as nat)
}

/// Every character's diagonal below `bound` is at most the last diagonal listed below
/// `bound`, and then there is one.
proof fn lemma_diagonals_cover(cells: Seq<(char, Coord)>, height: nat, bound: nat)
    ensures
        forall|i: int|
            0 <= i < cells.len() && 0 <= diagonal((#[trigger] cells[i]).1, height) < bound ==> {
                &&& diagonals_below(cells, height, bound).len() > 0
                &&& diagonal(cells[i].1, height) <= diagonals_below(cells, height, bound).last()
            },
    decreases bound,
{
    if bound > 0 {
        lemma_diagonals_cover(cells, height, (bound - 1) as nat);
        assert forall|i: int| 0 <= i < cells.len() && 0 <= diagonal((#[trigger] cells[i]).1, height) < bound implies {
            &&& diagonals_below(cells, height, bound).len() > 0
            &&& diagonal(cells[i].1, height) <= diagonals_below(cells, height, bound).last()
        } by {
            if diagonal(cells[i].1, height) == bound - 1 {
                assert(has_diagonal(cells, height, bound - 1));
            }
        }
    }
}

/// The wipe of a text with characters ends with the text in its rows' colours: once the
/// last diagonal is shown, every character shows at its place in the colour `colors` gives
/// its row.
pub proof fn lemma_wipe_ends_in_row_colors(text: Seq<char>, colors: Seq<Color>)
    requires
        text_cells(text_rows(text)).len() > 0,
        text_grid(text).0 <= i32::MAX,
        text_grid(text).1 <= i32::MAX,
    ensures
        wipe_diagonals(text).len() > 0,
        wiped_frame(text, colors, wipe_diagonals(text).last()) == row_colored_frame(text, colors),
{
    let cells = text_cells(text_rows(text));
    let (width, height) = text_grid(text);
    let bound = (width + height - 1) as nat;
    lemma_rows_nonempty(text);
    assert(longest_row(text_rows(text)) <= i32::MAX);
    lemma_text_cells_in_grid(text_rows(text));
    lemma_diagonals_cover(cells, height, bound);
    assert(0 <= diagonal(cells[0].1, height) < bound);
    let reached = wipe_diagonals(text).last();
    let wiped = Seq::new(cells.len(), |i: int| wiped_character(cells[i].0, cells[i].1, height, colors, reached));
    let settled = Seq::new(cells.len(), |i: int| lit_character(cells[i], foreground_only(colors[cells[i].1.y as int])));
    assert forall|i: int| 0 <= i < cells.len() implies wiped[i] == settled[i] by {
        assert(0 <= diagonal(cells[i].1, height) < bound);
    }
    assert(wiped =~= settled);
}

proof fn lemma_no_diagonals(cells: Seq<(char, Coord)>, height: nat, bound: nat)
    requires
        cells.len() == 0,
    ensures
        diagonals_below(cells, height, bound).len() == 0,
    decreases bound,
{
    if bound > 0 {
        lemma_no_diagonals(cells, height, (bound - 1) as nat);
    }
}

/// Shows the characters on diagonal `d` (with `last_row` the canvas's last row); returns
/// whether there was one.
fn reveal_diagonal(terminal: &mut Terminal, d: i32, last_row: i32) -> (found: bool)
    requires
        old(terminal).wf(),
        forall|i: int|
            0 <= i < old(terminal)@.characters.len() ==> {
                &&& 0 <= (#[trigger] old(terminal)@.characters[i]).position.x
                &&& 0 <= old(terminal)@.characters[i].position.y <= last_row
                &&& old(terminal)@.characters[i].position.x + last_row <= i32::MAX
            },
    ensures
        final(terminal).wf(),
        final(terminal)@.canvas == old(terminal)@.canvas,
        final(terminal)@.characters.len() == old(terminal)@.characters.len(),
        found == exists|i: int|
            0 <= i < old(terminal)@.characters.len() && (#[trigger] old(terminal)@.characters[i]).position.x
                + last_row - old(terminal)@.characters[i].position.y == d,
        forall|i: int|
            0 <= i < old(terminal)@.characters.len() ==> {
                let before = old(terminal)@.characters[i];
                let after = #[trigger] final(terminal)@.characters[i];
                &&& after == (EffectCharacter {
                    visible: before.visible || before.position.x + last_row - before.position.y == d,
                    ..before
                })
            },
{
    let count = terminal.characters().len();
    let mut found = false;
    let mut index: usize = 0;
    while index < count
        invariant
            index <= count,
            count == old(terminal)@.characters.len(),
            count == terminal@.characters.len(),
            terminal.wf(),
            terminal@.canvas == old(terminal)@.canvas,
            forall|i: int|
                0 <= i < count ==> {
                    &&& 0 <= (#[trigger] old(terminal)@.characters[i]).position.x
                    &&& 0 <= old(terminal)@.characters[i].position.y <= last_row
                    &&& old(terminal)@.characters[i].position.x + last_row <= i32::MAX
                },
            found == exists|i: int|
                0 <= i < index && (#[trigger] old(terminal)@.characters[i]).position.x + last_row
                    - old(terminal)@.characters[i].position.y == d,
            forall|i: int| index <= i < count ==> #[trigger] terminal@.characters[i] == old(terminal)@.characters[i],
            forall|i: int|
                0 <= i < index ==> {
                    let before = old(terminal)@.characters[i];
                    let after = #[trigger] terminal@.characters[i];
                    &&& after == (EffectCharacter {
                        visible: before.visible || before.position.x + last_row - before.position.y == d,
                        ..before
                    })
                },
        decreases count - index,
    {
        let ghost current = terminal@.characters;
        let position = terminal.characters()[index].position;
        if position.x + last_row - position.y == d {
            let characters = terminal.characters_mut();
            characters[index].visible = true;
            found = true;
        }
        proof {
            assert forall|i: int| 0 <= i < count && i != index implies #[trigger] terminal@.characters[i]
                == current[i] by {}
            assert(terminal.wf()) by {
                assert forall|i: int| 0 <= i < count implies (#[trigger] terminal@.characters[i]).wf() by {
                    assert(current[i].wf());
                }
            }
        }
        index += 1;
    }
    found
}

} // verus!
