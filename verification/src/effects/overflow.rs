use vstd::prelude::*;

use crate::effects::random::{
    draw_mod_u64, fisher_yates, fnv1a, fnv1a_hash, golden_seed, lemma_fisher_yates_permutes,
    lemma_picks_in_range, nonzero_or, shuffle_passes, xorshift64,
};
use crate::engine::canvas::{blank_cell, cell_index, render_canvas, Canvas, CanvasView, Cell};
use crate::utils::geometry::Coord;
use crate::utils::graphics::{foreground_only, Color, Style};
use crate::utils::text::{
    grid_size, lemma_rows_nonempty, longest_row, split_rows, text_grid, text_rows,
};
use vstd::string::StringSliceAdditionalSpecFns;

verus! {

/// Shuffled rows scroll up the canvas until the text settles in its own order.
#[derive(Debug, Clone)]
pub struct Overflow;

/// The row numbers `0..count` in order.
pub open spec fn row_numbers(count: nat) -> Seq<usize> {
    Seq::new(count, |i: int| i as usize)
}

/// The rows in the order they pour in: two passes in Fisher-Yates order, drawn one after
/// the other from the seed, then one pass in the text's own order.
pub open spec fn pour_order(count: nat, seed: u64) -> Seq<usize> {
    let (first, state) = fisher_yates(row_numbers(count), seed, draw_mod_u64());
    let (second, _) = fisher_yates(row_numbers(count), state, draw_mod_u64());
    first + second + row_numbers(count)
}

/// The cell at column `x` of canvas row `y` once `arrived` rows have arrived: the rows
/// stack up from the bottom, the latest at the bottom, each coloured by the canvas row it
/// is on.
pub open spec fn overflow_cell(
    rows: Seq<Seq<char>>,
    order: Seq<usize>,
    colors: Seq<Color>,
    height: nat,
    arrived: int,
    x: int,
    y: int,
) -> Cell {
    let index = arrived - 1 - (height - 1 - y);
    if 0 <= index && x < rows[order[index] as int].len() {
        Cell { symbol: rows[order[index] as int][x], style: foreground_only(colors[y]) }
    } else {
        blank_cell()
    }
}

/// The canvas once `arrived` rows of the text have arrived, with the row order drawn from
/// `seed`.
pub open spec fn overflow_canvas(text: Seq<char>, seed: u64, colors: Seq<Color>, arrived: int) -> CanvasView {
    let rows = text_rows(text);
    let width = if longest_row(rows) > 0 { longest_row(rows) } else { 1 };
    let height = rows.len();
    let order = pour_order(rows.len(), seed);
    CanvasView {
        width,
        height,
        cells: Seq::new(
            width * height,
            |i: int| overflow_cell(rows, order, colors, height, arrived, i % width as int, i / width as int),
        ),
        blank: blank_cell(),
    }
}

/// Cell `i` of the text as written on a canvas `width` wide: at column `x` of canvas row
/// `y`, the text's row `y` in the colour `colors[y]`, blank past the row's end.
pub open spec fn settled_cell(rows: Seq<Seq<char>>, colors: Seq<Color>, width: nat, i: int) -> Cell {
    let x = i % (width as int);
    let y = i / (width as int);
    if x < rows[y].len() {
        Cell { symbol: rows[y][x], style: foreground_only(colors[y]) }
    } else {
        blank_cell()
    }
}

/// The text as written on its canvas: canvas row `y` holds the text's row `y`, in the
/// colour `colors[y]`, and is blank past the row's end.
pub open spec fn settled_canvas(text: Seq<char>, colors: Seq<Color>) -> CanvasView {
    let rows = text_rows(text);
    let width = if longest_row(rows) > 0 {
        longest_row(rows)
    } else {
        1
    };
    let height = rows.len();
    CanvasView {
        width,
        height,
        cells: Seq::new(width * height, |i: int| settled_cell(rows, colors, width, i)),
        blank: blank_cell(),
    }
}

/// The last pass pours the rows in the text's own order: the last `count` entries of the
/// pour order are `0, 1, ..., count - 1`, after two passes of `count` each.
pub proof fn lemma_last_pass_in_order(count: nat, seed: u64)
    requires
        count <= usize::MAX,
    ensures
        pour_order(count, seed).len() == 3 * count,
        pour_order(count, seed).subrange(2 * count as int, 3 * count as int) == row_numbers(count),
        forall|y: int| 0 <= y < count ==> #[trigger] pour_order(count, seed)[2 * count + y] == y,
{
    lemma_picks_in_range();
    let (first, state) = fisher_yates(row_numbers(count), seed, draw_mod_u64());
    lemma_fisher_yates_permutes(row_numbers(count), seed, draw_mod_u64());
    lemma_fisher_yates_permutes(row_numbers(count), state, draw_mod_u64());
    let order = pour_order(count, seed);
    assert(order.subrange(2 * count as int, 3 * count as int) =~= row_numbers(count));
    assert forall|y: int| 0 <= y < count implies #[trigger] order[2 * count + y] == y by {
        assert(order[2 * count + y] == row_numbers(count)[y]);
    }
}

/// Once all three passes have poured in, the text has settled as written: whatever the
/// shuffles, the canvas shows each row of the text on its own canvas row, in that row's
/// colour.
pub proof fn lemma_overflow_settles(text: Seq<char>, seed: u64, colors: Seq<Color>)
    requires
        text_rows(text).len() <= usize::MAX,
    ensures
        overflow_canvas(text, seed, colors, 3 * text_rows(text).len() as int) == settled_canvas(text, colors),
{
    let rows = text_rows(text);
    let count = rows.len();
    let width = if longest_row(rows) > 0 {
        longest_row(rows)
    } else {
        1
    };
    let order = pour_order(count, seed);
    lemma_last_pass_in_order(count, seed);
    let poured = overflow_canvas(text, seed, colors, 3 * count as int);
    let settled = settled_canvas(text, colors);
    assert forall|i: int| 0 <= i < width * count implies poured.cells[i] == settled.cells[i] by {
        let y = i / width as int;
        assert(0 <= y < count) by (nonlinear_arith)
            requires
                0 <= i < width * count,
                width >= 1,
                y == i / width as int,
        ;
        assert(3 * count - 1 - (count - 1 - y) == 2 * count + y);
        assert(order[2 * count + y] == y);
        assert(settled.cells[i] == settled_cell(rows, colors, width, i));
    }
    assert(poured.cells =~= settled.cells);
}

/// The cells of the canvas once `arrived` rows have arrived.
pub open spec fn arrival_cells(
    rows: Seq<Seq<char>>,
    order: Seq<usize>,
    colors: Seq<Color>,
    width: nat,
    height: nat,
    arrived: int,
) -> Seq<Cell> {
    Seq::new(
        width * height,
        |i: int| overflow_cell(rows, order, colors, height, arrived, i % width as int, i / width as int),
    )
}

fn row_numbers_vec(count: usize) -> (numbers: Vec<usize>)
    ensures
        numbers@ == row_numbers(count as nat),
{
    let mut numbers: Vec<usize> = Vec::new();
    let mut index: usize = 0;
    while index < count
        invariant
            index <= count,
            numbers@ == row_numbers(index as nat),
        decreases count - index,
    {
        numbers.push(index);
        index += 1;
        assert(numbers@ =~= row_numbers(index as nat));
    }
    numbers
}

proof fn lemma_rearranged_numbers_below(original: Seq<usize>, rearranged: Seq<usize>, bound: nat)
    requires
        rearranged.to_multiset() == original.to_multiset(),
        forall|i: int| 0 <= i < original.len() ==> (#[trigger] original[i]) < bound,
    ensures
        forall|i: int| 0 <= i < rearranged.len() ==> (#[trigger] rearranged[i]) < bound,
{
    broadcast use vstd::seq_lib::group_to_multiset_ensures;

    assert forall|i: int| 0 <= i < rearranged.len() implies (#[trigger] rearranged[i]) < bound by {
        let value = rearranged[i];
        assert(rearranged.contains(value));
        assert(rearranged.to_multiset().count(value) > 0);
        assert(original.to_multiset().count(value) > 0);
        assert(original.contains(value));
        let j = choose|j: int| 0 <= j < original.len() && original[j] == value;
        assert(original[j] < bound);
    }
}

proof fn lemma_cell_position(i: int, width: int, x: int, y: int)
    requires
        width >= 1,
        0 <= x < width,
        i == y * width + x,
    ensures
        i % width == x,
        i / width == y,
{
    vstd::arithmetic::div_mod::lemma_fundamental_div_mod_converse(i, width, y, x);
}

proof fn lemma_target_at(
    rows: Seq<Seq<char>>,
    order: Seq<usize>,
    colors: Seq<Color>,
    width: nat,
    height: nat,
    arrived: int,
    x: int,
    y: int,
)
    requires
        width >= 1,
        0 <= x < width,
        0 <= y < height,
    ensures
        0 <= y * width + x < width * height,
        arrival_cells(rows, order, colors, width, height, arrived)[y * width + x] == overflow_cell(
            rows,
            order,
            colors,
            height,
            arrived,
            x,
            y,
        ),
{
    crate::engine::canvas::lemma_index_in_range(width as int, height as int, x, y);
    lemma_cell_position(y * width + x, width as int, x, y);
}

/// The frame once `arrived` rows have arrived: the last rows that fit stacked up from the
/// bottom of a blank canvas.
fn render_arrivals(
    rows: &Vec<Vec<char>>,
    order: &Vec<usize>,
    arrived: usize,
    width: usize,
    height: usize,
    colors: &Vec<Color>,
) -> (frame: String)
    requires
        1 <= width <= i32::MAX,
        1 <= height <= i32::MAX,
        width * height <= usize::MAX,
        1 <= arrived <= order.len(),
        colors.len() == height,
        forall|i: int| 0 <= i < order.len() ==> (#[trigger] order@[i]) < rows.len(),
    ensures
        frame@ == render_canvas(
            CanvasView {
                width: width as nat,
                height: height as nat,
                cells: arrival_cells(
                    rows.deep_view(),
                    order@,
                    colors@,
                    width as nat,
                    height as nat,
                    arrived as int,
                ),
                blank: blank_cell(),
            },
        ),
{
    let ghost target = arrival_cells(
        rows.deep_view(),
        order@,
        colors@,
        width as nat,
        height as nat,
        arrived as int,
    );
    let mut canvas = Canvas::new(width, height);
    let shown = if arrived < height {
        arrived
    } else {
        height
    };
    proof {
        assert forall|i: int| 0 <= i < (height - shown) * width implies #[trigger] target[i]
            == blank_cell() by {
            assert(i / (width as int) < height - shown) by (nonlinear_arith)
                requires
                    0 <= i < (height - shown) * width,
                    width >= 1,
            ;
            assert(0 <= i / (width as int)) by (nonlinear_arith)
                requires
                    0 <= i,
                    width >= 1,
            ;
            assert(i < width * height) by (nonlinear_arith)
                requires
                    0 <= i < (height - shown) * width,
                    shown >= 0,
            ;
        }
        assert(canvas@.cells.len() == width * height);
    }
    let mut k: usize = 0;
    while k < shown
        invariant
            1 <= width <= i32::MAX,
            1 <= height <= i32::MAX,
            width * height <= usize::MAX,
            1 <= arrived <= order.len(),
            colors.len() == height,
            forall|i: int| 0 <= i < order.len() ==> (#[trigger] order@[i]) < rows.len(),
            shown == if arrived < height { arrived } else { height },
            k <= shown,
            target == arrival_cells(
                rows.deep_view(),
                order@,
                colors@,
                width as nat,
                height as nat,
                arrived as int,
            ),
            canvas.wf(),
            canvas@.width == width,
            canvas@.height == height,
            canvas@.blank == blank_cell(),
            forall|i: int| 0 <= i < (height - shown) * width ==> #[trigger] target[i] == blank_cell(),
            forall|i: int|
                0 <= i < width * height ==> #[trigger] canvas@.cells[i] == if i < (height - shown + k)
                    * width {
                    target[i]
                } else {
                    blank_cell()
                },
        decreases shown - k,
    {
        let index = arrived - shown + k;
        let y = height - shown + k;
        let row = &rows[order[index]];
        let style = Style::default().with_foreground(colors[y]);
        proof {
            assert(rows.deep_view()[order@[index as int] as int] == row@);
        }
        let mut x: usize = 0;
        while x < row.len() && x < width
            invariant
                1 <= width <= i32::MAX,
                1 <= height <= i32::MAX,
                width * height <= usize::MAX,
                y < height,
                y == height - shown + k,
                index == arrived - shown + k,
                index < order.len(),
                rows.deep_view()[order@[index as int] as int] == row@,
                style == foreground_only(colors@[y as int]),
                colors.len() == height,
                x <= width,
                target == arrival_cells(
                    rows.deep_view(),
                    order@,
                    colors@,
                    width as nat,
                    height as nat,
                    arrived as int,
                ),
                canvas.wf(),
                canvas@.width == width,
                canvas@.height == height,
                canvas@.blank == blank_cell(),
                forall|i: int|
                    0 <= i < width * height ==> #[trigger] canvas@.cells[i] == if i < y * width + x {
                        target[i]
                    } else {
                        blank_cell()
                    },
            decreases width - x,
        {
            let ghost spot = y * width + x;
            let ghost before = canvas@.cells;
            proof {
                lemma_target_at(
                    rows.deep_view(),
                    order@,
                    colors@,
                    width as nat,
                    height as nat,
                    arrived as int,
                    x as int,
                    y as int,
                );
            }
            canvas.set(Coord::new(x as i32, y as i32), Cell { symbol: row[x], style });
            proof {
                assert(canvas@.cells == before.update(spot, Cell { symbol: row@[x as int], style }));
                assert(target[spot] == Cell { symbol: row@[x as int], style });
            }
            x += 1;
        }
        proof {
            assert((y + 1) * width == y * width + width) by (nonlinear_arith);
            assert forall|i: int| 0 <= i < width * height implies #[trigger] canvas@.cells[i] == if i < (
            height - shown + k + 1) * width {
                target[i]
            } else {
                blank_cell()
            } by {
                if y * width + x <= i < (y + 1) * width {
                    let column = i - y * width;
                    lemma_target_at(
                        rows.deep_view(),
                        order@,
                        colors@,
                        width as nat,
                        height as nat,
                        arrived as int,
                        column,
                        y as int,
                    );
                }
            }
        }
        k += 1;
    }
    proof {
        assert forall|i: int| 0 <= i < width * height implies #[trigger] canvas@.cells[i] == target[i] by {
            assert((height - shown + k) * width == width * height) by (nonlinear_arith)
                requires
                    k == shown,
            ;
        }
        assert(canvas@.cells =~= target);
    }
    canvas.render()
}

impl Overflow {
    pub fn new() -> (effect: Self)
        ensures
            effect == Overflow,
    {
        Overflow
    }

    pub fn name(&self) -> (name: &'static str)
        ensures
            name@ == "overflow"@,
    {
        "overflow"
    }

    /// The frames of the overflow: the rows of the input arrive at the bottom of the
    /// canvas one after another and push the earlier ones up, first in two shuffled passes
    /// and then in their own order; each arrival is shown for three frames. `row_colors`
    /// holds the colour of each canvas row (the caller computes the gradient).
    pub fn frames(&self, input: &str, row_colors: &Vec<Color>) -> (frames: Vec<String>)
        requires
            text_grid(input@).0 * text_grid(input@).1 <= usize::MAX,
            text_grid(input@).0 <= i32::MAX,
            text_grid(input@).1 <= i32::MAX,
            row_colors.len() == text_rows(input@).len(),
        ensures
            frames.len() == 9 * text_rows(input@).len(),
            forall|f: int|
                0 <= f < frames.len() ==> (#[trigger] frames[f])@ == render_canvas(
                    overflow_canvas(
                        input@,
                        nonzero_or(fnv1a(input.spec_bytes()), golden_seed()),
                        row_colors@,
                        f / 3 + 1,
                    ),
                ),
            frames.len() > 0,
            frames@.last()@ == render_canvas(settled_canvas(input@, row_colors@)),
    {
        let rows = input_rows(input);
        let (width, height) = grid_size(&rows);
        proof {
            lemma_rows_nonempty(input@);
        }
        let count = rows.len();
        let ghost seed = nonzero_or(fnv1a(input.spec_bytes()), golden_seed());
        let mut state = seed_from_input(input);
        let mut first = row_numbers_vec(count);
        shuffle(first.as_mut_slice(), &mut state);
        let mut second = row_numbers_vec(count);
        shuffle(second.as_mut_slice(), &mut state);
        let mut order = first;
        order.append(&mut second);
        let mut settled = row_numbers_vec(count);
        order.append(&mut settled);
        let ghost order_spec = pour_order(count as nat, seed);
        proof {
            lemma_picks_in_range();
            lemma_fisher_yates_permutes(row_numbers(count as nat), seed, draw_mod_u64());
            let (p1, s1) = fisher_yates(row_numbers(count as nat), seed, draw_mod_u64());
            lemma_fisher_yates_permutes(row_numbers(count as nat), s1, draw_mod_u64());
            assert(order@ =~= order_spec);
            let (p2, s2) = fisher_yates(row_numbers(count as nat), s1, draw_mod_u64());
            lemma_rearranged_numbers_below(row_numbers(count as nat), p1, count as nat);
            lemma_rearranged_numbers_below(row_numbers(count as nat), p2, count as nat);
            assert forall|i: int| 0 <= i < order.len() implies (#[trigger] order@[i]) < count by {
                if i < count {
                    assert(order@[i] == p1[i]);
                } else if i < 2 * count {
                    assert(order@[i] == p2[i - count]);
                } else {
                    assert(order@[i] == row_numbers(count as nat)[i - 2 * count]);
                }
            }
        }
        let mut frames: Vec<String> = Vec::new();
        let mut arrived: usize = 0;
        while arrived < order.len()
            invariant
                rows.deep_view() == text_rows(input@),
                count == rows.len(),
                width == text_grid(input@).0,
                height == text_grid(input@).1,
                height == count,
                width * height <= usize::MAX,
                1 <= width <= i32::MAX,
                1 <= height <= i32::MAX,
                row_colors.len() == height,
                order@ == pour_order(count as nat, seed),
                order.len() == 3 * count,
                forall|i: int| 0 <= i < order.len() ==> (#[trigger] order@[i]) < count,
                arrived <= order.len(),
                frames.len() == 3 * arrived,
                forall|f: int|
                    0 <= f < frames.len() ==> (#[trigger] frames[f])@ == render_canvas(
                        overflow_canvas(input@, seed, row_colors@, f / 3 + 1),
                    ),
            decreases order.len() - arrived,
        {
            let frame = render_arrivals(&rows, &order, arrived + 1, width, height, row_colors);
            proof {
                let shown = overflow_canvas(input@, seed, row_colors@, arrived + 1);
                assert(shown.cells =~= arrival_cells(
                    rows.deep_view(),
                    order@,
                    row_colors@,
                    width as nat,
                    height as nat,
                    arrived + 1,
                ));
            }
            let ghost before = frames@;
            frames.push(frame.clone());
            frames.push(frame.clone());
            frames.push(frame);
            proof {
                assert forall|f: int| 0 <= f < frames.len() implies (#[trigger] frames[f])@ == render_canvas(
                    overflow_canvas(input@, seed, row_colors@, f / 3 + 1),
                ) by {
                    if f < before.len() {
                        assert(frames[f] == before[f]);
                    } else {
                        assert(f / 3 == arrived as int) by (nonlinear_arith)
                            requires
                                3 * arrived <= f < 3 * arrived + 3,
                        ;
                    }
                }
            }
            arrived += 1;
        }
        proof {
            let last = frames.len() - 1;
            assert(last / 3 + 1 == 3 * count) by (nonlinear_arith)
                requires
                    last == 9 * count - 1,
                    count >= 1,
            ;
            assert(frames@.last() == frames[last]);
            lemma_overflow_settles(input@, seed, row_colors@);
        }
        frames
    }
}

impl Default for Overflow {
    fn default() -> (effect: Self)
        ensures
            effect == Overflow,
    {
        Self::new()
    }
}


/// The characters of each row of the input; the empty input is one empty row.
pub fn input_rows(input: &str) -> (rows: Vec<Vec<char>>)
    ensures
        rows.deep_view() == text_rows(input@),
{
    split_rows(input)
}

/// The FNV-1a hash of the input, never zero.
pub fn seed_from_input(input: &str) -> (seed: u64)
    ensures
        seed == nonzero_or(fnv1a(input.spec_bytes()), golden_seed()),
{
    let seed = fnv1a_hash(input);
    if seed == 0 {
        0x9e37_79b9_7f4a_7c15
    } else {
        seed
    }
}

/// One xorshift64 step on the state; returns the new state.
pub fn next_random(state: &mut u64) -> (value: u64)
    ensures
        value == xorshift64(*old(state)),
        *final(state) == value,
{
    let mut value = *state;
    value ^= value << 13;
    value ^= value >> 7;
    value ^= value << 17;
    *state = value;
    value
}

/// Fisher-Yates shuffle drawing each index as the next value modulo the range.
pub fn shuffle<T>(values: &mut [T], state: &mut u64)
    ensures
        (final(values)@, *final(state)) == fisher_yates(old(values)@, *old(state), draw_mod_u64()),
        final(values)@.to_multiset() == old(values)@.to_multiset(),
{
    let len = values.len();
    proof {
        lemma_picks_in_range();
        lemma_fisher_yates_permutes(values@, *state, draw_mod_u64());
    }
    if len < 2 {
        return;
    }
    let ghost target = fisher_yates(values@, *state, draw_mod_u64());
    let mut upper = len - 1;
    while upper >= 1
        invariant
            upper < len,
            values@.len() == len,
            shuffle_passes(values@, *state, upper as nat, draw_mod_u64()) == target,
        decreases upper,
    {
        let index = (next_random(state) % (upper as u64 + 1)) as usize;
        values.swap(upper, index);
        upper -= 1;
    }
}

} // verus!
