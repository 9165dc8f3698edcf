use vstd::prelude::*;

use crate::engine::canvas::render_canvas;
use crate::engine::character::{CharacterId, EffectCharacter};
use crate::engine::edit::{at_home, hide_range, lit_character, repaint, set_shown, snapshot};
use crate::engine::terminal::{
    cleared, draw_all, lemma_draw_all_looks, lemma_hidden_characters_draw_nothing, lemma_text_cells_in_grid,
    same_look, text_canvas, text_cells, Terminal, TerminalView,
};
use crate::utils::geometry::Coord;
use crate::utils::graphics::{foreground_only, plain_style, Color, Style};
use crate::utils::text::{is_white_space, lemma_rows_nonempty, text_grid, text_rows, white_space};

verus! {

/// A retro synthwave grid that expands from the center before revealing the text.
#[derive(Debug, Clone, Copy, Default)]
pub struct Synthgrid;

impl Synthgrid {
    pub fn new() -> (effect: Self)
        ensures
            effect == Synthgrid,
    {
        Synthgrid
    }

    pub fn name(&self) -> (name: &'static str)
        ensures
            name@ == "synthgrid"@,
    {
        "synthgrid"
    }

    /// The frames of the synthgrid: the empty canvas; a grid of lines (every fourth column
    /// and every second row from the centre) spreading over ten frames and held for two;
    /// then, over `reveal_span` steps and four more, the grid flickering out cell by cell
    /// while the text appears along the diagonal from the top-left corner, each character
    /// through three shades of block; last the text alone in its final colours.
    /// `grid_colors` and `expansion` hold, for each cell row by row, the colour of its grid
    /// line and the spreading step from which it shows; `text_colors` holds the final colour
    /// of each diagonal (the caller works these out from the distances).
    #[verifier::spinoff_prover]
    #[verifier::rlimit(50)]
    pub fn frames(
        &self,
        input: &str,
        grid_colors: &Vec<Color>,
        expansion: &Vec<u8>,
        text_colors: &Vec<Color>,
    ) -> (frames: Vec<String>)
        requires
            text_grid(input@).0 * text_grid(input@).1 <= usize::MAX,
            text_grid(input@).0 + text_grid(input@).1 <= i32::MAX,
            grid_colors.len() == text_grid(input@).0 * text_grid(input@).1,
            expansion.len() == text_grid(input@).0 * text_grid(input@).1,
            text_colors.len() + 1 >= text_grid(input@).0 + text_grid(input@).1,
        ensures
            frames.len() == synth_frame_count(input@),
            forall|f: int|
                0 <= f < frames.len() ==> (#[trigger] frames[f])@ == synth_frame(
                    input@,
                    grid_colors@,
                    expansion@,
                    text_colors@,
                    f,
                ),
            frames@.last()@ == diagonal_colored_text(input@, text_colors@),
    {
        let ghost text = input@;
        let ghost cells = text_cells(text_rows(text));
        let (mut terminal, grid) = set_stage(input, grid_colors, Ghost(expansion@), Ghost(text_colors@));
        let width = terminal.canvas().width();
        let height = terminal.canvas().height();
        let count = input_count(&terminal, Ghost(text), Ghost(grid_colors@), grid.len());
        let mut frames: Vec<String> = Vec::new();
        let ghost before_shot = terminal@;
        snapshot(&mut terminal, &mut frames);
        proof {
            lemma_synth_frame(text, before_shot.characters, grid_colors@, expansion@, text_colors@, 0);
        }
        let mut step: u8 = 0;
        while step < 10
            invariant
                step <= 10,
                text == input@,
                cells == text_cells(text_rows(text)),
                count == cells.len(),
                grid@ == grid_cells(text),
                (width as nat, height as nat) == text_grid(text),
                width * height <= usize::MAX,
                expansion.len() == width * height,
                terminal.wf(),
                synth_stage(terminal@, text, grid_colors@),
                text_hidden(terminal@.characters, cells),
                step == 10 ==> shows_frame(terminal@.characters, text, grid_colors@, expansion@, text_colors@, 11),
                step == 10 ==> shows_frame(terminal@.characters, text, grid_colors@, expansion@, text_colors@, 12),
                frames.len() == step + 1,
                forall|f: int|
                    0 <= f < frames.len() ==> (#[trigger] frames[f])@ == synth_frame(
                        text,
                        grid_colors@,
                        expansion@,
                        text_colors@,
                        f,
                    ),
            decreases 10 - step,
        {
            expand_grid(
                &mut terminal,
                count,
                &grid,
                width,
                expansion,
                step,
                Ghost(text),
                Ghost(grid_colors@),
                Ghost(text_colors@),
            );
            let ghost shot = terminal@;
            snapshot(&mut terminal, &mut frames);
            proof {
                lemma_synth_frame(text, shot.characters, grid_colors@, expansion@, text_colors@, step + 1);
            }
            step += 1;
        }
        let ghost shot = terminal@;
        snapshot(&mut terminal, &mut frames);
        snapshot(&mut terminal, &mut frames);
        proof {
            lemma_synth_frame(text, shot.characters, grid_colors@, expansion@, text_colors@, 11);
            lemma_synth_frame(text, shot.characters, grid_colors@, expansion@, text_colors@, 12);
        }
        let sum = width + height;
        let steps: usize = if sum < 8 {
            8
        } else if sum > 24 {
            24
        } else {
            sum
        };
        let mut k: usize = 0;
        while k < steps + 4
            invariant
                k <= steps + 4,
                steps == reveal_span(width as nat, height as nat),
                text == input@,
                cells == text_cells(text_rows(text)),
                count == cells.len(),
                grid@ == grid_cells(text),
                (width as nat, height as nat) == text_grid(text),
                width + height <= i32::MAX,
                text_colors.len() + 1 >= width + height,
                terminal.wf(),
                synth_stage(terminal@, text, grid_colors@),
                shows_frame(terminal@.characters, text, grid_colors@, expansion@, text_colors@, 12 + k),
                frames.len() == 13 + k,
                forall|f: int|
                    0 <= f < frames.len() ==> (#[trigger] frames[f])@ == synth_frame(
                        text,
                        grid_colors@,
                        expansion@,
                        text_colors@,
                        f,
                    ),
            decreases steps + 4 - k,
        {
            reveal_frame(
                &mut terminal,
                count,
                &grid,
                width,
                height,
                steps,
                k,
                text_colors,
                Ghost(text),
                Ghost(grid_colors@),
                Ghost(expansion@),
            );
            let ghost shot = terminal@;
            snapshot(&mut terminal, &mut frames);
            proof {
                lemma_synth_frame(text, shot.characters, grid_colors@, expansion@, text_colors@, 13 + k);
            }
            k += 1;
        }
        settle(
            &mut terminal,
            count,
            width,
            height,
            text_colors,
            Ghost(text),
            Ghost(grid_colors@),
            Ghost(expansion@),
        );
        let ghost shot = terminal@;
        snapshot(&mut terminal, &mut frames);
        proof {
            lemma_synth_frame(text, shot.characters, grid_colors@, expansion@, text_colors@, steps + 17);
            lemma_synthgrid_ends_settled(text, grid_colors@, expansion@, text_colors@);
            assert(frames@.last() == frames[frames.len() - 1]);
        }
        frames
    }
}

/// `a - b`, or zero when `b` exceeds `a`.
pub open spec fn saturating_minus(a: int, b: int) -> int {
    if a >= b {
        a - b
    } else {
        0
    }
}

/// `value`, or zero when it is negative.
pub open spec fn non_negative(value: int) -> int {
    if value >= 0 {
        value
    } else {
        0
    }
}

/// `value` capped at `usize::MAX`.
pub open spec fn saturate_usize(value: int) -> int {
    if value > usize::MAX {
        usize::MAX as int
    } else {
        value
    }
}

/// The length of a diagonal from the top-left corner to the bottom-right one, counted in
/// steps along both axes.
pub open spec fn diagonal_span(width: usize, height: usize) -> int {
    saturating_minus(width as int, 1) + saturating_minus(height as int, 1)
}

/// The step at which the cell at `coord` appears when the text is revealed along the
/// diagonal over `steps` steps (zero for a one-cell canvas).
pub open spec fn reveal_step(coord: Coord, width: usize, height: usize, steps: usize) -> int {
    let span = diagonal_span(width, height);
    if span == 0 {
        0
    } else {
        saturate_usize(
            (non_negative(coord.x as int) + non_negative(coord.y as int)) * saturating_minus(
                steps as int,
                1,
            ),
        ) / span
    }
}

/// The hash that decides which grid cells flicker: the coordinates mixed with three
/// primes in wrapping 64-bit arithmetic.
#[verifier::opaque]
pub open spec fn noise_mix(x: i32, y: i32) -> i64 {
    let x = x as i64;
    let y = y as i64;
    x.wrapping_mul(73_856_093i64).wrapping_add(y.wrapping_mul(19_349_663i64)).wrapping_add(
        (x ^ y).wrapping_mul(83_492_791i64),
    )
}

/// The magnitude of an `i64`, as an integer.
pub open spec fn magnitude(value: i64) -> int {
    if value >= 0 {
        value as int
    } else {
        -(value as int)
    }
}

/// The step at which the cell at `coord` appears; the diagonal span must fit in `usize`.
pub fn reveal_delay(coord: Coord, width: usize, height: usize, steps: usize) -> (delay: usize)
    requires
        diagonal_span(width, height) <= usize::MAX,
    ensures
        delay == reveal_step(coord, width, height, steps),
{
    let denominator = width.saturating_sub(1) + height.saturating_sub(1);
    if denominator == 0 {
        return 0;
    }
    let column: usize = if coord.x >= 0 {
        coord.x as usize
    } else {
        0
    };
    let row: usize = if coord.y >= 0 {
        coord.y as usize
    } else {
        0
    };
    let diagonal = column + row;
    let remaining = steps.saturating_sub(1);
    let product: usize = match diagonal.checked_mul(remaining) {
        Some(value) => value,
        None => usize::MAX,
    };
    product / denominator
}

/// The flicker hash of a grid cell: the magnitude of `noise_mix`, truncated to `usize`.
pub fn deterministic_noise(x: i32, y: i32) -> (noise: usize)
    ensures
        noise == magnitude(noise_mix(x, y)) as usize,
{
    proof {
        reveal(noise_mix);
    }
    let wide_x = x as i64;
    let wide_y = y as i64;
    let mixed = wide_x.wrapping_mul(73_856_093).wrapping_add(wide_y.wrapping_mul(19_349_663)).wrapping_add(
        (wide_x ^ wide_y).wrapping_mul(83_492_791),
    );
    let size: u64 = if mixed >= 0 {
        mixed as u64
    } else {
        (-(mixed + 1)) as u64 + 1
    };
    size as usize
}

/// The cell the grid is centred on: the middle of the canvas, rounded up and left.
pub open spec fn grid_center(width: nat, height: nat) -> Coord {
    Coord { x: (saturating_minus(width as int, 1) / 2) as i32, y: (saturating_minus(height as int, 1) / 2) as i32 }
}

/// Whether `coord` lies on a vertical grid line: every fourth column from the centre.
pub open spec fn on_vertical(coord: Coord, center: Coord) -> bool {
    (coord.x - center.x) % 4 == 0
}

/// Whether `coord` lies on a horizontal grid line: every second row from the centre.
pub open spec fn on_horizontal(coord: Coord, center: Coord) -> bool {
    (coord.y - center.y) % 2 == 0
}

/// The line drawn at a grid cell: a cross where the lines meet.
pub open spec fn grid_symbol(coord: Coord, center: Coord) -> char {
    if on_vertical(coord, center) && on_horizontal(coord, center) {
        '┼'
    } else if on_vertical(coord, center) {
        '│'
    } else {
        '─'
    }
}

/// The grid cells of row `y` among its first `bound` columns, left to right.
pub open spec fn grid_row(center: Coord, y: int, bound: nat) -> Seq<Coord>
    decreases bound,
{
    if bound == 0 {
        Seq::empty()
    } else {
        let coord = Coord { x: (bound - 1) as i32, y: y as i32 };
        grid_row(center, y, (bound - 1) as nat) + if on_vertical(coord, center) || on_horizontal(coord, center) {
            seq![coord]
        } else {
            Seq::empty()
        }
    }
}

/// The grid cells of the first `bound` rows of a canvas `width` wide, row by row.
pub open spec fn grid_rows(center: Coord, width: nat, bound: nat) -> Seq<Coord>
    decreases bound,
{
    if bound == 0 {
        Seq::empty()
    } else {
        grid_rows(center, width, (bound - 1) as nat) + grid_row(center, bound - 1, width)
    }
}

/// The grid cells of the canvas of `text`, row by row.
pub open spec fn grid_cells(text: Seq<char>) -> Seq<Coord> {
    let (width, height) = text_grid(text);
    grid_rows(grid_center(width, height), width, height)
}

/// The number of a cell in a table that holds a value for each cell, row by row.
pub open spec fn cell_number(width: nat, coord: Coord) -> int {
    coord.y * width + coord.x
}

/// Whether `a - b` is a multiple of `m`, worked out on the distance between them.
fn divides_gap(a: i32, b: i32, m: u32) -> (divides: bool)
    requires
        a >= 0,
        b >= 0,
        m > 0,
    ensures
        divides == ((a - b) % (m as int) == 0),
{
    if a >= b {
        let gap = (a - b) as u32;
        gap % m == 0
    } else {
        let gap = (b - a) as u32;
        proof {
            let d = gap as int;
            let q = d / (m as int);
            let r = d % (m as int);
            assert(d == q * m + r) by (nonlinear_arith)
                requires
                    m > 0,
                    q == d / (m as int),
                    r == d % (m as int),
            ;
            if r == 0 {
                assert((a - b) == (-q) * m) by (nonlinear_arith)
                    requires
                        a - b == -d,
                        d == q * m,
            ;
                vstd::arithmetic::div_mod::lemma_mod_multiples_basic(-q, m as int);
            } else {
                assert((a - b) == (-q - 1) * m + (m - r)) by (nonlinear_arith)
                    requires
                        a - b == -d,
                        d == q * m + r,
            ;
                vstd::arithmetic::div_mod::lemma_fundamental_div_mod_converse(a - b, m as int, -q - 1, m - r);
            }
        }
        gap % m == 0
    }
}

/// A grid character as laid: on its cell, showing its line in the cell's colour, hidden.
pub open spec fn grid_placed(
    character: EffectCharacter,
    coord: Coord,
    center: Coord,
    width: nat,
    colors: Seq<Color>,
) -> bool {
    &&& character.position == coord
    &&& character.symbol == grid_symbol(coord, center)
    &&& character.style == foreground_only(colors[cell_number(width, coord)])
    &&& !character.visible
}

proof fn lemma_cell_number_in_table(width: nat, height: nat, coord: Coord)
    requires
        0 <= coord.x < width,
        0 <= coord.y < height,
    ensures
        0 <= cell_number(width, coord) < width * height,
{
    let x = coord.x as int;
    let y = coord.y as int;
    assert(0 <= y * width + x < width * height) by (nonlinear_arith)
        requires
            0 <= x < width,
            0 <= y < height,
    ;
}

/// Adds a hidden grid character on every grid cell of a canvas `width` by `height`, row by
/// row, each showing its line in its cell's colour from `grid_colors`; returns the cells.
fn lay_grid(terminal: &mut Terminal, width: usize, height: usize, center: Coord, grid_colors: &Vec<Color>) -> (grid: Vec<Coord>)
    requires
        old(terminal).wf(),
        width * height <= usize::MAX,
        width <= i32::MAX,
        height <= i32::MAX,
        center == grid_center(width as nat, height as nat),
        grid_colors.len() == width * height,
    ensures
        final(terminal).wf(),
        final(terminal)@.canvas == old(terminal)@.canvas,
        grid@ == grid_rows(center, width as nat, height as nat),
        final(terminal)@.characters.len() == old(terminal)@.characters.len() + grid.len(),
        forall|i: int|
            0 <= i < old(terminal)@.characters.len() ==> #[trigger] final(terminal)@.characters[i]
                == old(terminal)@.characters[i],
        forall|j: int|
            0 <= j < grid.len() ==> {
                &&& 0 <= (#[trigger] grid[j]).x < width
                &&& 0 <= grid[j].y < height
                &&& grid_placed(
                    final(terminal)@.characters[old(terminal)@.characters.len() + j],
                    grid[j],
                    center,
                    width as nat,
                    grid_colors@,
                )
            },
{
    let ghost base = old(terminal)@.characters.len();
    let mut grid: Vec<Coord> = Vec::new();
    let mut y: usize = 0;
    while y < height
        invariant
            y <= height,
            width * height <= usize::MAX,
            width <= i32::MAX,
            height <= i32::MAX,
            center == grid_center(width as nat, height as nat),
            grid_colors.len() == width * height,
            terminal.wf(),
            terminal@.canvas == old(terminal)@.canvas,
            base == old(terminal)@.characters.len(),
            grid@ == grid_rows(center, width as nat, y as nat),
            terminal@.characters.len() == base + grid.len(),
            forall|i: int| 0 <= i < base ==> #[trigger] terminal@.characters[i] == old(terminal)@.characters[i],
            forall|j: int|
                0 <= j < grid.len() ==> {
                    &&& 0 <= (#[trigger] grid[j]).x < width
                    &&& 0 <= grid[j].y < height
                    &&& grid_placed(terminal@.characters[base + j], grid[j], center, width as nat, grid_colors@)
                },
        decreases height - y,
    {
        let mut x: usize = 0;
        while x < width
            invariant
                x <= width,
                y < height,
                width * height <= usize::MAX,
                width <= i32::MAX,
                height <= i32::MAX,
                center == grid_center(width as nat, height as nat),
                grid_colors.len() == width * height,
                terminal.wf(),
                terminal@.canvas == old(terminal)@.canvas,
                base == old(terminal)@.characters.len(),
                grid@ == grid_rows(center, width as nat, y as nat) + grid_row(center, y as int, x as nat),
                terminal@.characters.len() == base + grid.len(),
                forall|i: int| 0 <= i < base ==> #[trigger] terminal@.characters[i] == old(terminal)@.characters[i],
                forall|j: int|
                    0 <= j < grid.len() ==> {
                        &&& 0 <= (#[trigger] grid[j]).x < width
                        &&& 0 <= grid[j].y < height
                        &&& grid_placed(terminal@.characters[base + j], grid[j], center, width as nat, grid_colors@)
                    },
            decreases width - x,
        {
            let coord = Coord::new(x as i32, y as i32);
            let vertical = divides_gap(coord.x, center.x, 4);
            let horizontal = divides_gap(coord.y, center.y, 2);
            if vertical || horizontal {
                let symbol = if vertical && horizontal {
                    '┼'
                } else if vertical {
                    '│'
                } else {
                    '─'
                };
                let ghost before = terminal@.characters;
                terminal.add_character(symbol, coord);
                let last = terminal.characters().len() - 1;
                set_shown(terminal, last, false);
                proof {
                    lemma_cell_number_in_table(width as nat, height as nat, coord);
                }
                let color = grid_colors[y * width + x];
                repaint(terminal, last, symbol, Style::default().with_foreground(color));
                let ghost old_grid = grid@;
                grid.push(coord);
                proof {
                    assert forall|i: int| 0 <= i < base implies #[trigger] terminal@.characters[i]
                        == old(terminal)@.characters[i] by {
                        assert(terminal@.characters[i] == before[i]);
                    }
                    assert forall|j: int| 0 <= j < grid.len() implies {
                        &&& 0 <= (#[trigger] grid[j]).x < width
                        &&& 0 <= grid[j].y < height
                        &&& grid_placed(terminal@.characters[base + j], grid[j], center, width as nat, grid_colors@)
                    } by {
                        if j < old_grid.len() {
                            assert(grid[j] == old_grid[j]);
                            assert(terminal@.characters[base + j] == before[base + j]);
                        }
                    }
                }
            }
            proof {
                assert(grid_row(center, y as int, (x + 1) as nat) == grid_row(center, y as int, x as nat) + if on_vertical(coord, center) || on_horizontal(coord, center) {
                    seq![coord]
                } else {
                    Seq::empty()
                });
            }
            x += 1;
        }
        proof {
            assert(grid_rows(center, width as nat, (y + 1) as nat) == grid_rows(center, width as nat, y as nat) + grid_row(center, y as int, width as nat));
        }
        y += 1;
    }
    grid
}

/// The number of steps over which the text is revealed: the canvas's width and height
/// together, kept between 8 and 24.
pub open spec fn reveal_span(width: nat, height: nat) -> int {
    if width + height < 8 {
        8
    } else if width + height > 24 {
        24
    } else {
        (width + height) as int
    }
}

/// The number of frames of the synthgrid of `text`: the empty canvas, ten frames of the
/// grid spreading, two holding it, the reveal with four frames to spare, and the text alone.
pub open spec fn synth_frame_count(text: Seq<char>) -> int {
    reveal_span(text_grid(text).0, text_grid(text).1) + 18
}

/// Whether the grid cell at `coord` shows in frame `frame`: while the grid spreads, once the
/// step `expansion` gives the cell is reached (the last step is held for two frames); during
/// the reveal, until the step the cell's hash gives.
pub open spec fn grid_shown(coord: Coord, width: nat, height: nat, expansion: Seq<u8>, frame: int) -> bool {
    let steps = reveal_span(width, height);
    if 1 <= frame <= 12 {
        expansion[cell_number(width, coord)] <= if frame <= 10 {
            frame - 1
        } else {
            9
        }
    } else if 13 <= frame < steps + 17 {
        frame - 13 < (magnitude(noise_mix(coord.x, coord.y)) as usize) % (steps as usize)
    } else {
        false
    }
}

/// What a character of the text shows `stage` steps after the reveal reaches it: three
/// shades of block, then its symbol in its final colour; white space shows at once.
pub open spec fn ember_look(symbol: char, stage: int, final_color: Color) -> (char, Style) {
    if white_space(symbol) || stage >= 3 {
        (symbol, foreground_only(final_color))
    } else if stage == 0 {
        ('░', foreground_only(Color::Rgb { r: 0x8a, g: 0x00, b: 0x8a }))
    } else if stage == 1 {
        ('▒', foreground_only(Color::Rgb { r: 0xcc, g: 0x00, b: 0xcc }))
    } else {
        ('▓', foreground_only(Color::Rgb { r: 0x00, g: 0xd1, b: 0xff }))
    }
}

/// A character of the text as frame `frame` shows it: hidden until the reveal reaches its
/// diagonal, then in its stage; in the last frame in its final colour, which `text_colors`
/// gives for each diagonal.
pub open spec fn synth_text_character(
    cell: (char, Coord),
    width: nat,
    height: nat,
    text_colors: Seq<Color>,
    frame: int,
) -> EffectCharacter {
    let steps = reveal_span(width, height);
    let final_color = text_colors[cell.1.x + cell.1.y];
    let delay = reveal_step(cell.1, width as usize, height as usize, steps as usize);
    let (visible, look) = if frame >= steps + 17 {
        (true, (cell.0, foreground_only(final_color)))
    } else if frame >= 13 && frame - 13 >= delay {
        (true, ember_look(cell.0, frame - 13 - delay, final_color))
    } else {
        (false, (cell.0, plain_style()))
    };
    EffectCharacter {
        id: CharacterId(0),
        input_symbol: cell.0,
        symbol: look.0,
        position: cell.1,
        style: look.1,
        visible,
        animation: arbitrary(),
    }
}

/// The grid character on `coord` as frame `frame` shows it.
pub open spec fn synth_grid_character(
    coord: Coord,
    center: Coord,
    width: nat,
    height: nat,
    grid_colors: Seq<Color>,
    expansion: Seq<u8>,
    frame: int,
) -> EffectCharacter {
    EffectCharacter {
        id: CharacterId(0),
        input_symbol: grid_symbol(coord, center),
        symbol: grid_symbol(coord, center),
        position: coord,
        style: foreground_only(grid_colors[cell_number(width, coord)]),
        visible: grid_shown(coord, width, height, expansion, frame),
        animation: arbitrary(),
    }
}

/// Frame `frame` of the synthgrid of `text`: the text's characters, then the grid's, drawn
/// on the text's blank canvas.
pub open spec fn synth_frame(
    text: Seq<char>,
    grid_colors: Seq<Color>,
    expansion: Seq<u8>,
    text_colors: Seq<Color>,
    frame: int,
) -> Seq<char> {
    let (width, height) = text_grid(text);
    let cells = text_cells(text_rows(text));
    let grid = grid_cells(text);
    let center = grid_center(width, height);
    render_canvas(
        draw_all(
            text_canvas(text),
            Seq::new(cells.len(), |i: int| synth_text_character(cells[i], width, height, text_colors, frame))
                + Seq::new(
                grid.len(),
                |j: int| synth_grid_character(grid[j], center, width, height, grid_colors, expansion, frame),
            ),
        ),
    )
}

/// The text alone on its canvas, the character at column `x` of row `y` in
/// `text_colors[x + y]`.
pub open spec fn diagonal_colored_text(text: Seq<char>, text_colors: Seq<Color>) -> Seq<char> {
    let cells = text_cells(text_rows(text));
    render_canvas(
        draw_all(
            text_canvas(text),
            Seq::new(cells.len(), |i: int| lit_character(cells[i], foreground_only(text_colors[cells[i].1.x + cells[i].1.y]))),
        ),
    )
}

/// The synthgrid ends with the grid gone and the text settled: the last frame shows every
/// character of the text at its place in the colour `text_colors` gives its diagonal,
/// whatever the grid did before.
pub proof fn lemma_synthgrid_ends_settled(
    text: Seq<char>,
    grid_colors: Seq<Color>,
    expansion: Seq<u8>,
    text_colors: Seq<Color>,
)
    ensures
        synth_frame(text, grid_colors, expansion, text_colors, synth_frame_count(text) - 1) == diagonal_colored_text(
            text,
            text_colors,
        ),
{
    let (width, height) = text_grid(text);
    let cells = text_cells(text_rows(text));
    let grid = grid_cells(text);
    let center = grid_center(width, height);
    let last = synth_frame_count(text) - 1;
    let shown = Seq::new(cells.len(), |i: int| synth_text_character(cells[i], width, height, text_colors, last));
    let lattice = Seq::new(
        grid.len(),
        |j: int| synth_grid_character(grid[j], center, width, height, grid_colors, expansion, last),
    );
    let settled = Seq::new(
        cells.len(),
        |i: int| lit_character(cells[i], foreground_only(text_colors[cells[i].1.x + cells[i].1.y])),
    );
    let all = shown + lattice;
    assert forall|i: int| cells.len() <= i < all.len() implies !(#[trigger] all[i]).visible by {
        assert(all[i] == lattice[i - cells.len()]);
    }
    lemma_hidden_characters_draw_nothing(text_canvas(text), all, cells.len() as int);
    assert(all.take(cells.len() as int) =~= shown);
    assert(shown =~= settled);
}

/// The characters look as frame `frame` shows them.
spec fn shows_frame(
    characters: Seq<EffectCharacter>,
    text: Seq<char>,
    grid_colors: Seq<Color>,
    expansion: Seq<u8>,
    text_colors: Seq<Color>,
    frame: int,
) -> bool {
    let (width, height) = text_grid(text);
    let cells = text_cells(text_rows(text));
    let grid = grid_cells(text);
    let center = grid_center(width, height);
    &&& forall|i: int|
        0 <= i < cells.len() ==> same_look(
            #[trigger] characters[i],
            synth_text_character(cells[i], width, height, text_colors, frame),
        )
    &&& forall|j: int|
        0 <= j < grid.len() ==> same_look(
            characters[cells.len() + j],
            synth_grid_character(#[trigger] grid[j], center, width, height, grid_colors, expansion, frame),
        )
}

/// What stays through the whole effect: the text's characters at home on their canvas,
/// then one character on each grid cell showing its line in its colour.
spec fn synth_stage(view: TerminalView, text: Seq<char>, grid_colors: Seq<Color>) -> bool {
    let (width, height) = text_grid(text);
    let cells = text_cells(text_rows(text));
    let grid = grid_cells(text);
    let center = grid_center(width, height);
    &&& cleared(view.canvas) == text_canvas(text)
    &&& view.characters.len() == cells.len() + grid.len()
    &&& at_home(view.characters, cells)
    &&& forall|i: int|
        0 <= i < cells.len() ==> {
            &&& 0 <= (#[trigger] cells[i]).1.x < width
            &&& 0 <= cells[i].1.y < height
        }
    &&& forall|j: int|
        0 <= j < grid.len() ==> {
            let character = view.characters[cells.len() + j];
            &&& 0 <= (#[trigger] grid[j]).x < width
            &&& 0 <= grid[j].y < height
            &&& character.position == grid[j]
            &&& character.symbol == grid_symbol(grid[j], center)
            &&& character.style == foreground_only(grid_colors[cell_number(width, grid[j])])
        }
}

proof fn lemma_synth_frame(
    text: Seq<char>,
    characters: Seq<EffectCharacter>,
    grid_colors: Seq<Color>,
    expansion: Seq<u8>,
    text_colors: Seq<Color>,
    frame: int,
)
    requires
        characters.len() == text_cells(text_rows(text)).len() + grid_cells(text).len(),
        shows_frame(characters, text, grid_colors, expansion, text_colors, frame),
    ensures
        render_canvas(draw_all(text_canvas(text), characters)) == synth_frame(
            text,
            grid_colors,
            expansion,
            text_colors,
            frame,
        ),
{
    let (width, height) = text_grid(text);
    let cells = text_cells(text_rows(text));
    let grid = grid_cells(text);
    let center = grid_center(width, height);
    let expected = Seq::new(
        cells.len(),
        |i: int| synth_text_character(cells[i], width, height, text_colors, frame),
    ) + Seq::new(
        grid.len(),
        |j: int| synth_grid_character(grid[j], center, width, height, grid_colors, expansion, frame),
    );
    assert forall|k: int| 0 <= k < characters.len() implies same_look(#[trigger] characters[k], expected[k]) by {
        if k >= cells.len() {
            let j = k - cells.len();
            assert(grid[j] == grid[j]);
        }
    }
    lemma_draw_all_looks(text_canvas(text), characters, expected);
}

/// Every character of the text hidden, showing its own symbol in the plain style.
spec fn text_hidden(characters: Seq<EffectCharacter>, cells: Seq<(char, Coord)>) -> bool {
    forall|i: int|
        0 <= i < cells.len() ==> {
            &&& !(#[trigger] characters[i]).visible
            &&& characters[i].symbol == cells[i].0
            &&& characters[i].style == plain_style()
        }
}

/// Spreads the grid to expansion step `step`: each grid character shows once `expansion`
/// gives its cell a step no later than `step`.
fn expand_grid(
    terminal: &mut Terminal,
    count: usize,
    grid: &Vec<Coord>,
    width: usize,
    expansion: &Vec<u8>,
    step: u8,
    Ghost(text): Ghost<Seq<char>>,
    Ghost(grid_colors): Ghost<Seq<Color>>,
    Ghost(text_colors): Ghost<Seq<Color>>,
)
    requires
        old(terminal).wf(),
        synth_stage(old(terminal)@, text, grid_colors),
        text_hidden(old(terminal)@.characters, text_cells(text_rows(text))),
        count == text_cells(text_rows(text)).len(),
        grid@ == grid_cells(text),
        width == text_grid(text).0,
        text_grid(text).0 * text_grid(text).1 <= usize::MAX,
        expansion.len() == text_grid(text).0 * text_grid(text).1,
        step < 10,
    ensures
        final(terminal).wf(),
        final(terminal)@.canvas == old(terminal)@.canvas,
        synth_stage(final(terminal)@, text, grid_colors),
        text_hidden(final(terminal)@.characters, text_cells(text_rows(text))),
        shows_frame(final(terminal)@.characters, text, grid_colors, expansion@, text_colors, step + 1),
        step == 9 ==> shows_frame(final(terminal)@.characters, text, grid_colors, expansion@, text_colors, 11),
        step == 9 ==> shows_frame(final(terminal)@.characters, text, grid_colors, expansion@, text_colors, 12),
{
    let ghost before = terminal@.characters;
    let ghost height = text_grid(text).1;
    let ghost cells = text_cells(text_rows(text));
    let total = terminal.characters().len();
    let mut j: usize = 0;
    while j < grid.len()
        invariant
            j <= grid.len(),
            total == before.len(),
            terminal.wf(),
            terminal@.canvas == old(terminal)@.canvas,
            before == old(terminal)@.characters,
            synth_stage(old(terminal)@, text, grid_colors),
            count == cells.len(),
            cells == text_cells(text_rows(text)),
            grid@ == grid_cells(text),
            width == text_grid(text).0,
            height == text_grid(text).1,
            expansion.len() == width * height,
            before.len() == count + grid.len(),
            terminal@.characters.len() == before.len(),
            forall|i: int|
                0 <= i < before.len() ==> #[trigger] terminal@.characters[i] == if count <= i < count + j {
                    EffectCharacter {
                        visible: expansion@[cell_number(width as nat, grid@[i - count])] <= step,
                        ..before[i]
                    }
                } else {
                    before[i]
                },
        decreases grid.len() - j,
    {
        let coord = grid[j];
        assert(0 <= grid@[j as int].x < width && 0 <= grid@[j as int].y < height);
        proof {
            lemma_cell_number_in_table(width as nat, height, coord);
        }
        let shown = expansion[coord.y as usize * width + coord.x as usize] <= step;
        let ghost current = terminal@.characters;
        set_shown(terminal, count + j, shown);
        proof {
            assert forall|i: int| 0 <= i < before.len() implies #[trigger] terminal@.characters[i] == if count
                <= i < count + j + 1 {
                EffectCharacter {
                    visible: expansion@[cell_number(width as nat, grid@[i - count])] <= step,
                    ..before[i]
                }
            } else {
                before[i]
            } by {
                if i != count + j {
                    assert(terminal@.characters[i] == current[i]);
                }
            }
        }
        j += 1;
    }
    proof {
        let after = terminal@.characters;
        let center = grid_center(width as nat, height);
        assert forall|i: int| 0 <= i < cells.len() implies #[trigger] after[i] == before[i] by {}
        assert forall|j: int| 0 <= j < grid.len() implies {
            let character = after[cells.len() + j];
            &&& 0 <= (#[trigger] grid@[j]).x < width
            &&& 0 <= grid@[j].y < height
            &&& character.position == grid@[j]
            &&& character.symbol == grid_symbol(grid@[j], center)
            &&& character.style == foreground_only(grid_colors[cell_number(width as nat, grid@[j])])
            &&& character.visible == (expansion@[cell_number(width as nat, grid@[j])] <= step)
        } by {
            assert(after[cells.len() + j] == EffectCharacter {
                visible: expansion@[cell_number(width as nat, grid@[(cells.len() + j) - count])] <= step,
                ..before[cells.len() + j]
            });
        }
    }
}

/// What a character of the text shows `stage` steps after the reveal reaches it.
fn ember(symbol: char, stage: usize, final_color: Color) -> (look: (char, Style))
    ensures
        look == ember_look(symbol, stage as int, final_color),
{
    if is_white_space(symbol) || stage >= 3 {
        (symbol, Style::default().with_foreground(final_color))
    } else if stage == 0 {
        ('░', Style::default().with_foreground(Color::rgb(0x8a, 0x00, 0x8a)))
    } else if stage == 1 {
        ('▒', Style::default().with_foreground(Color::rgb(0xcc, 0x00, 0xcc)))
    } else {
        ('▓', Style::default().with_foreground(Color::rgb(0x00, 0xd1, 0xff)))
    }
}

/// Frame `13 + k` of the synthgrid, made from frame `12 + k`: the grid flickers out cell by
/// cell and the reveal moves one step along the diagonal.
fn reveal_frame(
    terminal: &mut Terminal,
    count: usize,
    grid: &Vec<Coord>,
    width: usize,
    height: usize,
    steps: usize,
    k: usize,
    text_colors: &Vec<Color>,
    Ghost(text): Ghost<Seq<char>>,
    Ghost(grid_colors): Ghost<Seq<Color>>,
    Ghost(expansion): Ghost<Seq<u8>>,
)
    requires
        old(terminal).wf(),
        synth_stage(old(terminal)@, text, grid_colors),
        shows_frame(old(terminal)@.characters, text, grid_colors, expansion, text_colors@, 12 + k),
        count == text_cells(text_rows(text)).len(),
        grid@ == grid_cells(text),
        (width as nat, height as nat) == text_grid(text),
        width + height <= i32::MAX,
        steps == reveal_span(width as nat, height as nat),
        k < steps + 4,
        text_colors.len() + 1 >= width + height,
    ensures
        final(terminal).wf(),
        final(terminal)@.canvas == old(terminal)@.canvas,
        synth_stage(final(terminal)@, text, grid_colors),
        shows_frame(final(terminal)@.characters, text, grid_colors, expansion, text_colors@, 13 + k),
{
    let ghost before = terminal@.characters;
    let ghost cells = text_cells(text_rows(text));
    let total = terminal.characters().len();
    let mut j: usize = 0;
    while j < grid.len()
        invariant
            j <= grid.len(),
            total == before.len(),
            terminal.wf(),
            terminal@.canvas == old(terminal)@.canvas,
            before == old(terminal)@.characters,
            count == cells.len(),
            cells == text_cells(text_rows(text)),
            grid@ == grid_cells(text),
            steps > 0,
            before.len() == count + grid.len(),
            terminal@.characters.len() == before.len(),
            forall|i: int|
                0 <= i < before.len() ==> #[trigger] terminal@.characters[i] == if count <= i < count + j {
                    EffectCharacter {
                        visible: k < (magnitude(noise_mix(grid@[i - count].x, grid@[i - count].y)) as usize)
                            % steps,
                        ..before[i]
                    }
                } else {
                    before[i]
                },
        decreases grid.len() - j,
    {
        let coord = grid[j];
        let shown = k < deterministic_noise(coord.x, coord.y) % steps;
        let ghost current = terminal@.characters;
        set_shown(terminal, count + j, shown);
        proof {
            assert forall|i: int| 0 <= i < before.len() implies #[trigger] terminal@.characters[i] == if count
                <= i < count + j + 1 {
                EffectCharacter {
                    visible: k < (magnitude(noise_mix(grid@[i - count].x, grid@[i - count].y)) as usize) % steps,
                    ..before[i]
                }
            } else {
                before[i]
            } by {
                if i != count + j {
                    assert(terminal@.characters[i] == current[i]);
                }
            }
        }
        j += 1;
    }
    let ghost flickered = terminal@.characters;
    let mut i: usize = 0;
    while i < count
        invariant
            i <= count,
            terminal.wf(),
            terminal@.canvas == old(terminal)@.canvas,
            count == cells.len(),
            cells == text_cells(text_rows(text)),
            flickered.len() == count + grid.len(),
            terminal@.characters.len() == flickered.len(),
            (width as nat, height as nat) == text_grid(text),
            width + height <= i32::MAX,
            text_colors.len() + 1 >= width + height,
            at_home(flickered, cells),
            forall|m: int|
                0 <= m < cells.len() ==> {
                    &&& 0 <= (#[trigger] cells[m]).1.x < width
                    &&& 0 <= cells[m].1.y < height
                },
            forall|m: int| count <= m < flickered.len() ==> #[trigger] terminal@.characters[m] == flickered[m],
            forall|m: int|
                0 <= m < count ==> {
                    let before = flickered[m];
                    let after = #[trigger] terminal@.characters[m];
                    let delay = reveal_step(before.position, width, height, steps);
                    let look = ember_look(
                        before.input_symbol,
                        k - delay,
                        text_colors@[before.position.x + before.position.y],
                    );
                    &&& after.position == before.position
                    &&& after.input_symbol == before.input_symbol
                    &&& if m < i && k >= delay {
                        &&& after.visible
                        &&& after.symbol == look.0
                        &&& after.style == look.1
                    } else {
                        after == before
                    }
                },
        decreases count - i,
    {
        let position = terminal.characters()[i].position;
        let symbol = terminal.characters()[i].input_symbol;
        assert(position == cells[i as int].1);
        let delay = reveal_delay(position, width, height, steps);
        let ghost current = terminal@.characters;
        if k >= delay {
            let color = text_colors[(position.x + position.y) as usize];
            let (shown, style) = ember(symbol, k - delay, color);
            set_shown(terminal, i, true);
            repaint(terminal, i, shown, style);
        }
        proof {
            assert forall|m: int| 0 <= m < flickered.len() && m != i implies #[trigger] terminal@.characters[m]
                == current[m] by {}
        }
        i += 1;
    }
}

/// The last frame: the grid gone and the text in its final colours.
fn settle(
    terminal: &mut Terminal,
    count: usize,
    width: usize,
    height: usize,
    text_colors: &Vec<Color>,
    Ghost(text): Ghost<Seq<char>>,
    Ghost(grid_colors): Ghost<Seq<Color>>,
    Ghost(expansion): Ghost<Seq<u8>>,
)
    requires
        old(terminal).wf(),
        synth_stage(old(terminal)@, text, grid_colors),
        count == text_cells(text_rows(text)).len(),
        (width as nat, height as nat) == text_grid(text),
        width + height <= i32::MAX,
        text_colors.len() + 1 >= width + height,
    ensures
        final(terminal).wf(),
        final(terminal)@.canvas == old(terminal)@.canvas,
        synth_stage(final(terminal)@, text, grid_colors),
        shows_frame(
            final(terminal)@.characters,
            text,
            grid_colors,
            expansion,
            text_colors@,
            reveal_span(width as nat, height as nat) + 17,
        ),
{
    let ghost cells = text_cells(text_rows(text));
    let total = terminal.characters().len();
    hide_range(terminal, count, total);
    let ghost hidden = terminal@.characters;
    let mut i: usize = 0;
    while i < count
        invariant
            i <= count,
            terminal.wf(),
            terminal@.canvas == old(terminal)@.canvas,
            count == cells.len(),
            cells == text_cells(text_rows(text)),
            hidden.len() == total,
            count <= total,
            terminal@.characters.len() == total,
            (width as nat, height as nat) == text_grid(text),
            width + height <= i32::MAX,
            text_colors.len() + 1 >= width + height,
            at_home(hidden, cells),
            forall|m: int|
                0 <= m < cells.len() ==> {
                    &&& 0 <= (#[trigger] cells[m]).1.x < width
                    &&& 0 <= cells[m].1.y < height
                },
            forall|m: int| count <= m < total ==> #[trigger] terminal@.characters[m] == hidden[m],
            forall|m: int|
                0 <= m < count ==> {
                    let before = hidden[m];
                    let after = #[trigger] terminal@.characters[m];
                    &&& after.position == before.position
                    &&& after.input_symbol == before.input_symbol
                    &&& m < i ==> {
                        &&& after.visible
                        &&& after.symbol == before.input_symbol
                        &&& after.style == foreground_only(
                            text_colors@[before.position.x + before.position.y],
                        )
                    }
                },
        decreases count - i,
    {
        let position = terminal.characters()[i].position;
        let symbol = terminal.characters()[i].input_symbol;
        assert(position == cells[i as int].1);
        let color = text_colors[(position.x + position.y) as usize];
        let ghost current = terminal@.characters;
        set_shown(terminal, i, true);
        repaint(terminal, i, symbol, Style::default().with_foreground(color));
        proof {
            assert forall|m: int| 0 <= m < total && m != i implies #[trigger] terminal@.characters[m]
                == current[m] by {}
        }
        i += 1;
    }
}

/// The number of the text's characters: all but the grid's.
fn input_count(
    terminal: &Terminal,
    Ghost(text): Ghost<Seq<char>>,
    Ghost(grid_colors): Ghost<Seq<Color>>,
    grid_len: usize,
) -> (count: usize)
    requires
        synth_stage(terminal@, text, grid_colors),
        grid_len == grid_cells(text).len(),
    ensures
        count == text_cells(text_rows(text)).len(),
{
    terminal.characters().len() - grid_len
}

/// The terminal of the text with its characters hidden and the hidden grid laid over it.
fn set_stage(
    input: &str,
    grid_colors: &Vec<Color>,
    Ghost(expansion): Ghost<Seq<u8>>,
    Ghost(text_colors): Ghost<Seq<Color>>,
) -> (staged: (Terminal, Vec<Coord>))
    requires
        text_grid(input@).0 * text_grid(input@).1 <= usize::MAX,
        text_grid(input@).0 + text_grid(input@).1 <= i32::MAX,
        grid_colors.len() == text_grid(input@).0 * text_grid(input@).1,
    ensures
        staged.0.wf(),
        staged.0@.canvas.width == text_grid(input@).0,
        staged.0@.canvas.height == text_grid(input@).1,
        staged.1@ == grid_cells(input@),
        synth_stage(staged.0@, input@, grid_colors@),
        text_hidden(staged.0@.characters, text_cells(text_rows(input@))),
        shows_frame(staged.0@.characters, input@, grid_colors@, expansion, text_colors, 0),
{
    let ghost text = input@;
    let ghost rows = text_rows(text);
    let ghost cells = text_cells(rows);
    let mut terminal = Terminal::from_text(input);
    let width = terminal.canvas().width();
    let height = terminal.canvas().height();
    let count = terminal.characters().len();
    let ghost canvas0 = terminal@.canvas;
    proof {
        lemma_rows_nonempty(text);
        lemma_text_cells_in_grid(rows);
        assert(canvas0.cells =~= text_canvas(text).cells);
        assert(cleared(canvas0).cells =~= canvas0.cells);
    }
    hide_range(&mut terminal, 0, count);
    let center = Coord::new((width.saturating_sub(1) / 2) as i32, (height.saturating_sub(1) / 2) as i32);
    let ghost hidden = terminal@.characters;
    let grid = lay_grid(&mut terminal, width, height, center, grid_colors);
    proof {
        assert forall|i: int| 0 <= i < cells.len() implies #[trigger] terminal@.characters[i] == hidden[i] by {}
    }
    (terminal, grid)
}

} // verus!
