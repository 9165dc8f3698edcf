use vstd::prelude::*;

use crate::engine::character::EffectCharacter;
use crate::utils::geometry::Coord;
use crate::utils::graphics::{
    ansi_prefix_of, attribute_codes, color_code, flag_code, join_codes, plain_style, style_codes, Color,
    Style,
};
use crate::utils::text::decimal;

verus! {

/// One character cell of the canvas.
#[derive(Debug, Clone, Copy, PartialEq, Eq, Structural)]
pub struct Cell {
    pub symbol: char,
    pub style: Style,
}

/// A space in the plain style.
pub open spec fn blank_cell() -> Cell {
    Cell { symbol: ' ', style: plain_style() }
}

impl Default for Cell {
    fn default() -> (cell: Self)
        ensures
            cell == blank_cell(),
    {
        Cell { symbol: ' ', style: Style::default() }
    }
}

/// The state of a canvas as plain values: its size, its cells row by row, and the cell it
/// is cleared to.
pub struct CanvasView {
    pub width: nat,
    pub height: nat,
    pub cells: Seq<Cell>,
    pub blank: Cell,
}

/// Whether `coord` names a cell of a canvas of the given size.
pub open spec fn in_bounds(width: nat, height: nat, coord: Coord) -> bool {
    0 <= coord.x < width && 0 <= coord.y < height
}

/// The position of `coord`'s cell in the row-by-row cell sequence.
pub open spec fn cell_index(width: nat, coord: Coord) -> int {
    coord.y * width + coord.x
}

/// The escape sequence that resets all attributes.
pub open spec fn reset_code() -> Seq<char> {
    seq!['\x1b', '[', '0', 'm']
}

/// Renders cells left to right, switching style only where it changes; returns the text and
/// the style in force after the last cell.
pub open spec fn render_cells(cells: Seq<Cell>) -> (Seq<char>, Style)
    decreases cells.len(),
{
    if cells.len() == 0 {
        (Seq::empty(), plain_style())
    } else {
        let (text, active) = render_cells(cells.drop_last());
        let cell = cells.last();
        if cell.style != active {
            let reset = if active != plain_style() {
                reset_code()
            } else {
                Seq::empty()
            };
            (text + reset + ansi_prefix_of(cell.style) + seq![cell.symbol], cell.style)
        } else {
            (text + seq![cell.symbol], active)
        }
    }
}

/// One rendered row: its cells, then a reset if a style is still in force.
pub open spec fn render_row(cells: Seq<Cell>) -> Seq<char> {
    let (text, active) = render_cells(cells);
    text + if active != plain_style() {
        reset_code()
    } else {
        Seq::empty()
    }
}

/// The cells of row `y`.
pub open spec fn row_cells(cells: Seq<Cell>, width: nat, y: int) -> Seq<Cell> {
    cells.subrange(y * width, y * width + width)
}

/// The first `rows` rendered rows, each but the canvas's last row followed by a newline.
pub open spec fn render_rows(cells: Seq<Cell>, width: nat, height: nat, rows: nat) -> Seq<char>
    decreases rows,
{
    if rows == 0 {
        Seq::empty()
    } else {
        render_rows(cells, width, height, (rows - 1) as nat) + render_row(
            row_cells(cells, width, rows - 1),
        ) + if rows < height {
            seq!['\n']
        } else {
            Seq::empty()
        }
    }
}

/// The whole canvas as terminal text.
pub open spec fn render_canvas(canvas: CanvasView) -> Seq<char> {
    render_rows(canvas.cells, canvas.width, canvas.height, canvas.height)
}

/// The cell of a position on a canvas lies within the cells, and so does its whole row.
pub proof fn lemma_index_in_range(width: int, height: int, x: int, y: int)
    requires
        0 <= x < width,
        0 <= y < height,
    ensures
        0 <= y * width + x < width * height,
        y * width + width <= width * height,
        0 <= y * width,
{
    assert(0 <= y * width + x < width * height) by (nonlinear_arith)
        requires
            0 <= x < width,
            0 <= y < height,
    ;
    assert(y * width + width <= width * height) by (nonlinear_arith)
        requires
            0 <= x < width,
            0 <= y < height,
    ;
    assert(0 <= y * width) by (nonlinear_arith)
        requires
            0 <= x < width,
            0 <= y < height,
    ;
}

/// The symbols of `cells`, in order.
pub open spec fn symbols_of(cells: Seq<Cell>) -> Seq<char> {
    cells.map_values(|cell: Cell| cell.symbol)
}

/// The symbols of the first `rows` rows, each but the canvas's last row followed by a
/// newline.
pub open spec fn plain_rows(cells: Seq<Cell>, width: nat, height: nat, rows: nat) -> Seq<char>
    decreases rows,
{
    if rows == 0 {
        Seq::empty()
    } else {
        plain_rows(cells, width, height, (rows - 1) as nat) + symbols_of(
            row_cells(cells, width, rows - 1),
        ) + if rows < height {
            seq!['\n']
        } else {
            Seq::empty()
        }
    }
}

/// Distinct positions on a canvas have distinct cells.
pub proof fn lemma_cell_index_injective(width: nat, height: nat, a: Coord, b: Coord)
    requires
        in_bounds(width, height, a),
        in_bounds(width, height, b),
        cell_index(width, a) == cell_index(width, b),
    ensures
        a == b,
{
    let (ax, ay, bx, by) = (a.x as int, a.y as int, b.x as int, b.y as int);
    let w = width as int;
    if ay < by {
        assert(ay * w + ax < by * w + bx) by (nonlinear_arith)
            requires
                0 <= ax < w,
                0 <= bx,
                ay < by,
        ;
    } else if by < ay {
        assert(by * w + bx < ay * w + ax) by (nonlinear_arith)
            requires
                0 <= bx < w,
                0 <= ax,
                by < ay,
        ;
    }
}

/// Writing a cell changes what is read back at that position, and only there: a read of
/// the written position gives the new cell, a read anywhere else what was there before.
pub proof fn lemma_write_then_read(canvas: CanvasView, written: Coord, read: Coord, cell: Cell)
    requires
        canvas.cells.len() == canvas.width * canvas.height,
        in_bounds(canvas.width, canvas.height, written),
        in_bounds(canvas.width, canvas.height, read),
    ensures
        canvas.cells.update(cell_index(canvas.width, written), cell)[cell_index(
            canvas.width,
            read,
        )] == if read == written {
            cell
        } else {
            canvas.cells[cell_index(canvas.width, read)]
        },
{
    lemma_index_in_range(
        canvas.width as int,
        canvas.height as int,
        written.x as int,
        written.y as int,
    );
    lemma_index_in_range(canvas.width as int, canvas.height as int, read.x as int, read.y as int);
    if read != written {
        if cell_index(canvas.width, read) == cell_index(canvas.width, written) {
            lemma_cell_index_injective(canvas.width, canvas.height, read, written);
        }
    }
}

proof fn lemma_plain_cells_render(cells: Seq<Cell>)
    requires
        forall|i: int| 0 <= i < cells.len() ==> (#[trigger] cells[i]).style == plain_style(),
    ensures
        render_cells(cells) == (symbols_of(cells), plain_style()),
    decreases cells.len(),
{
    if cells.len() > 0 {
        lemma_plain_cells_render(cells.drop_last());
        assert(symbols_of(cells) =~= symbols_of(cells.drop_last()).push(cells.last().symbol));
    }
}

proof fn lemma_plain_rows_render(cells: Seq<Cell>, width: nat, height: nat, rows: nat)
    requires
        width >= 1,
        rows <= height,
        cells.len() == width * height,
        forall|i: int| 0 <= i < cells.len() ==> (#[trigger] cells[i]).style == plain_style(),
    ensures
        render_rows(cells, width, height, rows) == plain_rows(cells, width, height, rows),
    decreases rows,
{
    if rows > 0 {
        lemma_plain_rows_render(cells, width, height, (rows - 1) as nat);
        lemma_index_in_range(width as int, height as int, 0, rows - 1);
        let row = row_cells(cells, width, rows - 1);
        assert forall|i: int| 0 <= i < row.len() implies (#[trigger] row[i]).style
            == plain_style() by {
            assert(row[i] == cells[(rows - 1) * width + i]);
        }
        lemma_plain_cells_render(row);
    }
}

/// A canvas whose cells are all unstyled renders as its bare symbols, row by row, with a
/// newline between rows and no escape sequence.
pub proof fn lemma_plain_canvas_renders_text(canvas: CanvasView)
    requires
        canvas.width >= 1,
        canvas.height >= 1,
        canvas.cells.len() == canvas.width * canvas.height,
        forall|i: int|
            0 <= i < canvas.cells.len() ==> (#[trigger] canvas.cells[i]).style == plain_style(),
    ensures
        render_canvas(canvas) == plain_rows(canvas.cells, canvas.width, canvas.height, canvas.height),
{
    lemma_plain_rows_render(canvas.cells, canvas.width, canvas.height, canvas.height);
}

/// Just past the first 'm' of `text` from index `i` on, or the end of `text` when there is
/// none: where an escape sequence begun before `i` ends.
pub open spec fn escape_end(text: Seq<char>, i: int) -> int
    decreases text.len() - i,
{
    if i >= text.len() {
        text.len() as int
    } else if text[i] == 'm' {
        i + 1
    } else {
        escape_end(text, i + 1)
    }
}

/// An escape sequence's end lies between where the search starts and the end of the text.
pub proof fn lemma_escape_end_bounds(text: Seq<char>, i: int)
    requires
        0 <= i <= text.len(),
    ensures
        i <= escape_end(text, i) <= text.len(),
    decreases text.len() - i,
{
    if i < text.len() && text[i] != 'm' {
        lemma_escape_end_bounds(text, i + 1);
    }
}

/// The text with every escape sequence deleted: each ESC up to and including the next 'm'.
pub open spec fn strip_escapes(text: Seq<char>) -> Seq<char>
    decreases text.len(),
{
    if text.len() == 0 {
        Seq::empty()
    } else if text[0] == '\x1b' {
        proof {
            lemma_escape_end_bounds(text, 1);
        }
        strip_escapes(text.skip(escape_end(text, 1)))
    } else {
        seq![text[0]] + strip_escapes(text.skip(1))
    }
}

/// Whether every escape sequence that `text` begins also ends in it.
pub open spec fn escapes_closed(text: Seq<char>) -> bool
    decreases text.len(),
{
    if text.len() == 0 {
        true
    } else if text[0] == '\x1b' {
        proof {
            lemma_escape_end_bounds(text, 1);
        }
        text[escape_end(text, 1) - 1] == 'm' && escapes_closed(text.skip(escape_end(text, 1)))
    } else {
        escapes_closed(text.skip(1))
    }
}

/// Whether `text` holds no 'm'.
pub open spec fn no_m(text: Seq<char>) -> bool {
    forall|j: int| 0 <= j < text.len() ==> #[trigger] text[j] != 'm'
}

/// An 'm' found in `a` is found in `a` followed by anything.
proof fn lemma_escape_end_concat(a: Seq<char>, b: Seq<char>, i: int)
    requires
        1 <= i < a.len(),
        a[escape_end(a, i) - 1] == 'm',
    ensures
        escape_end(a + b, i) == escape_end(a, i),
    decreases a.len() - i,
{
    lemma_escape_end_bounds(a, i);
    if i < a.len() {
        assert((a + b)[i] == a[i]);
        if a[i] != 'm' {
            assert(escape_end(a, i) == escape_end(a, i + 1));
            if i + 1 < a.len() {
                lemma_escape_end_concat(a, b, i + 1);
            } else {
                assert(escape_end(a, i + 1) == a.len());
            }
        }
    }
}

/// The escape sequence ends at `e` when the 'm' before `e` is the first from `i` on.
proof fn lemma_escape_end_at(text: Seq<char>, i: int, e: int)
    requires
        1 <= i < e <= text.len(),
        text[e - 1] == 'm',
        forall|j: int| i <= j < e - 1 ==> #[trigger] text[j] != 'm',
    ensures
        escape_end(text, i) == e,
    decreases e - i,
{
    if i < e - 1 {
        lemma_escape_end_at(text, i + 1, e);
    }
}

/// Deleting escapes from two texts one after the other, the first with every escape it
/// begins ended, deletes them from each.
proof fn lemma_strip_concat(a: Seq<char>, b: Seq<char>)
    requires
        escapes_closed(a),
    ensures
        strip_escapes(a + b) == strip_escapes(a) + strip_escapes(b),
        escapes_closed(b) ==> escapes_closed(a + b),
    decreases a.len(),
{
    if a.len() == 0 {
        assert(a + b =~= b);
    } else if a[0] == '\x1b' {
        lemma_escape_end_bounds(a, 1);
        let k = escape_end(a, 1);
        lemma_escape_end_concat(a, b, 1);
        assert((a + b)[0] == a[0]);
        assert((a + b).skip(k) =~= a.skip(k) + b);
        assert((a + b)[k - 1] == a[k - 1]);
        lemma_strip_concat(a.skip(k), b);
    } else {
        assert((a + b)[0] == a[0]);
        assert((a + b).skip(1) =~= a.skip(1) + b);
        lemma_strip_concat(a.skip(1), b);
        assert(seq![a[0]] + (strip_escapes(a.skip(1)) + strip_escapes(b)) =~= seq![a[0]] + strip_escapes(
            a.skip(1),
        ) + strip_escapes(b));
    }
}

/// A character other than ESC survives the deletion, and begins no escape.
proof fn lemma_strip_symbol(c: char)
    requires
        c != '\x1b',
    ensures
        strip_escapes(seq![c]) == seq![c],
        escapes_closed(seq![c]),
{
    assert(seq![c].skip(1) =~= Seq::<char>::empty());
    assert(strip_escapes(Seq::<char>::empty()) =~= Seq::<char>::empty());
    assert(escapes_closed(Seq::<char>::empty()));
    assert(seq![c] + Seq::<char>::empty() =~= seq![c]);
}

/// An escape sequence ESC '[' `body` 'm' with no 'm' in `body` is deleted whole.
proof fn lemma_strip_escape(body: Seq<char>)
    requires
        no_m(body),
    ensures
        strip_escapes(seq!['\x1b', '['] + body + seq!['m']) == Seq::<char>::empty(),
        escapes_closed(seq!['\x1b', '['] + body + seq!['m']),
{
    let text = seq!['\x1b', '['] + body + seq!['m'];
    let e = text.len() as int;
    assert forall|j: int| 1 <= j < e - 1 implies #[trigger] text[j] != 'm' by {
        if j >= 2 {
            assert(text[j] == body[j - 2]);
        }
    }
    lemma_escape_end_at(text, 1, e);
    assert(text.skip(e) =~= Seq::<char>::empty());
    assert(strip_escapes(Seq::<char>::empty()) =~= Seq::<char>::empty());
    assert(escapes_closed(Seq::<char>::empty()));
}

/// Decimal numbers hold no 'm'.
proof fn lemma_decimal_no_m(n: nat)
    ensures
        no_m(decimal(n)),
    decreases n,
{
    if n >= 10 {
        lemma_decimal_no_m(n / 10);
        let d = decimal(n);
        assert forall|j: int| 0 <= j < d.len() implies #[trigger] d[j] != 'm' by {
            if j < d.len() - 1 {
                assert(d[j] == decimal(n / 10)[j]);
            }
        }
    }
}

/// Parameters joined by ';' hold no 'm' when none of them does.
proof fn lemma_join_no_m(codes: Seq<Seq<char>>)
    requires
        codes_no_m(codes),
    ensures
        no_m(join_codes(codes)),
    decreases codes.len(),
{
    if codes.len() > 1 {
        lemma_join_no_m(codes.drop_last());
        let left = join_codes(codes.drop_last());
        let joined = join_codes(codes);
        assert(no_m(codes[codes.len() - 1]));
        assert forall|j: int| 0 <= j < joined.len() implies #[trigger] joined[j] != 'm' by {
            if j < left.len() {
                assert(joined[j] == left[j]);
            } else if j > left.len() {
                assert(joined[j] == codes.last()[j - left.len() - 1]);
            }
        }
    } else if codes.len() == 1 {
        assert(no_m(codes[0]));
    }
}

/// A colour's parameter holds no 'm'.
proof fn lemma_color_code_no_m(color: Option<Color>, layer: char)
    requires
        layer != 'm',
    ensures
        codes_no_m(color_code(color, layer)),
{
    if let Some(c) = color {
        let code = c.code(layer);
        match c {
            Color::Rgb { r, g, b } => {
                lemma_decimal_no_m(r as nat);
                lemma_decimal_no_m(g as nat);
                lemma_decimal_no_m(b as nat);
                let head = seq![layer, '8', ';', '2', ';'];
                let p1 = head + decimal(r as nat);
                let p2 = p1 + seq![';'];
                let p3 = p2 + decimal(g as nat);
                let p4 = p3 + seq![';'];
                assert(no_m(head));
                assert(no_m(p1));
                assert(no_m(p2));
                assert(no_m(p3));
                assert(no_m(p4));
                assert(no_m(p4 + decimal(b as nat)));
                assert(code == p4 + decimal(b as nat));
            },
            Color::Ansi(value) => {
                lemma_decimal_no_m(value as nat);
                let head = seq![layer, '8', ';', '5', ';'];
                assert(no_m(head));
                assert(no_m(head + decimal(value as nat)));
            },
        }
        assert(color_code(color, layer)[0] == code);
    }
}

/// Whether no parameter of `codes` holds an 'm'.
pub open spec fn codes_no_m(codes: Seq<Seq<char>>) -> bool {
    forall|k: int| 0 <= k < codes.len() ==> no_m(#[trigger] codes[k])
}

/// Parameter lists with no 'm' joined one after the other hold none.
proof fn lemma_codes_no_m_concat(a: Seq<Seq<char>>, b: Seq<Seq<char>>)
    requires
        codes_no_m(a),
        codes_no_m(b),
    ensures
        codes_no_m(a + b),
{
    assert forall|k: int| 0 <= k < (a + b).len() implies no_m(#[trigger] (a + b)[k]) by {
        if k < a.len() {
            assert((a + b)[k] == a[k]);
        } else {
            assert((a + b)[k] == b[k - a.len()]);
        }
    }
}

/// An attribute's parameter holds no 'm'.
proof fn lemma_flag_no_m(on: bool, code: char)
    requires
        code != 'm',
    ensures
        codes_no_m(flag_code(on, code)),
{
    if on {
        assert(flag_code(on, code)[0] == seq![code]);
        assert(no_m(seq![code]));
    }
}

/// The parameters of a style hold no 'm'.
proof fn lemma_codes_no_m(style: Style)
    ensures
        codes_no_m(style_codes(style)),
{
    lemma_color_code_no_m(style.colors.foreground, '3');
    lemma_color_code_no_m(style.colors.background, '4');
    lemma_flag_no_m(style.bold, '1');
    lemma_flag_no_m(style.dim, '2');
    lemma_flag_no_m(style.italic, '3');
    lemma_flag_no_m(style.underline, '4');
    lemma_flag_no_m(style.blink, '5');
    lemma_flag_no_m(style.reverse, '7');
    lemma_flag_no_m(style.hidden, '8');
    lemma_flag_no_m(style.strike, '9');
    let f1 = flag_code(style.bold, '1');
    let f2 = f1 + flag_code(style.dim, '2');
    let f3 = f2 + flag_code(style.italic, '3');
    let f4 = f3 + flag_code(style.underline, '4');
    let f5 = f4 + flag_code(style.blink, '5');
    let f6 = f5 + flag_code(style.reverse, '7');
    let f7 = f6 + flag_code(style.hidden, '8');
    let f8 = f7 + flag_code(style.strike, '9');
    lemma_codes_no_m_concat(f1, flag_code(style.dim, '2'));
    lemma_codes_no_m_concat(f2, flag_code(style.italic, '3'));
    lemma_codes_no_m_concat(f3, flag_code(style.underline, '4'));
    lemma_codes_no_m_concat(f4, flag_code(style.blink, '5'));
    lemma_codes_no_m_concat(f5, flag_code(style.reverse, '7'));
    lemma_codes_no_m_concat(f6, flag_code(style.hidden, '8'));
    lemma_codes_no_m_concat(f7, flag_code(style.strike, '9'));
    assert(f8 == attribute_codes(style));
    let fg = color_code(style.colors.foreground, '3');
    let bg = color_code(style.colors.background, '4');
    lemma_codes_no_m_concat(f8, fg);
    lemma_codes_no_m_concat(f8 + fg, bg);
}

/// The escape sequence of a style is deleted whole, and so is the reset.
proof fn lemma_style_escapes(style: Style)
    ensures
        strip_escapes(ansi_prefix_of(style)) == Seq::<char>::empty(),
        escapes_closed(ansi_prefix_of(style)),
        strip_escapes(reset_code()) == Seq::<char>::empty(),
        escapes_closed(reset_code()),
{
    let codes = style_codes(style);
    lemma_codes_no_m(style);
    lemma_join_no_m(codes);
    if codes.len() == 0 {
        assert(ansi_prefix_of(style) =~= Seq::<char>::empty());
        assert(strip_escapes(Seq::<char>::empty()) =~= Seq::<char>::empty());
        assert(escapes_closed(Seq::<char>::empty()));
    } else {
        lemma_strip_escape(join_codes(codes));
    }
    assert(no_m(seq!['0']));
    lemma_strip_escape(seq!['0']);
    assert(reset_code() =~= seq!['\x1b', '['] + seq!['0'] + seq!['m']);
}

/// Deleting the escapes from the rendered cells leaves their symbols.
proof fn lemma_strip_cells(cells: Seq<Cell>)
    requires
        forall|i: int| 0 <= i < cells.len() ==> (#[trigger] cells[i]).symbol != '\x1b',
    ensures
        strip_escapes(render_cells(cells).0) == symbols_of(cells),
        escapes_closed(render_cells(cells).0),
    decreases cells.len(),
{
    if cells.len() == 0 {
        assert(symbols_of(cells) =~= Seq::<char>::empty());
    } else {
        let (text, active) = render_cells(cells.drop_last());
        let cell = cells.last();
        lemma_strip_cells(cells.drop_last());
        lemma_strip_symbol(cell.symbol);
        lemma_style_escapes(cell.style);
        lemma_style_escapes(active);
        assert(symbols_of(cells) =~= symbols_of(cells.drop_last()).push(cell.symbol));
        if cell.style != active {
            let reset = if active != plain_style() {
                reset_code()
            } else {
                Seq::empty()
            };
            lemma_strip_concat(text, reset);
            lemma_strip_concat(text + reset, ansi_prefix_of(cell.style));
            lemma_strip_concat(text + reset + ansi_prefix_of(cell.style), seq![cell.symbol]);
            assert(strip_escapes(reset) =~= Seq::<char>::empty());
            assert(escapes_closed(reset));
            assert(symbols_of(cells.drop_last()) + Seq::<char>::empty() + Seq::<char>::empty() + seq![cell.symbol]
                =~= symbols_of(cells));
        } else {
            lemma_strip_concat(text, seq![cell.symbol]);
            assert(symbols_of(cells.drop_last()) + seq![cell.symbol] =~= symbols_of(cells));
        }
    }
}

/// Deleting the escapes from the first `rows` rendered rows leaves their symbols, a
/// newline between rows.
proof fn lemma_strip_rows(cells: Seq<Cell>, width: nat, height: nat, rows: nat)
    requires
        rows <= height,
        cells.len() == width * height,
        forall|i: int| 0 <= i < cells.len() ==> (#[trigger] cells[i]).symbol != '\x1b',
    ensures
        strip_escapes(render_rows(cells, width, height, rows)) == plain_rows(cells, width, height, rows),
        escapes_closed(render_rows(cells, width, height, rows)),
    decreases rows,
{
    if rows == 0 {
        assert(strip_escapes(Seq::<char>::empty()) =~= Seq::<char>::empty());
    } else {
        lemma_strip_rows(cells, width, height, (rows - 1) as nat);
        let before = render_rows(cells, width, height, (rows - 1) as nat);
        let row = row_cells(cells, width, rows - 1);
        assert(0 <= (rows - 1) * width) by (nonlinear_arith)
            requires
                rows >= 1,
        ;
        assert((rows - 1) * width + width <= width * height) by (nonlinear_arith)
            requires
                rows <= height,
                rows >= 1,
        ;
        assert forall|i: int| 0 <= i < row.len() implies (#[trigger] row[i]).symbol != '\x1b' by {
            assert(row[i] == cells[(rows - 1) * width + i]);
        }
        lemma_strip_cells(row);
        let (text, active) = render_cells(row);
        lemma_style_escapes(active);
        let tail = if active != plain_style() {
            reset_code()
        } else {
            Seq::empty()
        };
        assert(strip_escapes(tail) =~= Seq::<char>::empty());
        assert(escapes_closed(tail));
        lemma_strip_concat(text, tail);
        let line = render_row(row);
        assert(strip_escapes(line) =~= symbols_of(row));
        let newline = if rows < height {
            seq!['\n']
        } else {
            Seq::empty()
        };
        lemma_strip_symbol('\n');
        assert(strip_escapes(newline) =~= newline);
        assert(escapes_closed(newline));
        lemma_strip_concat(before, line);
        lemma_strip_concat(before + line, newline);
    }
}

/// The rendering of a canvas whose symbols are never ESC, with every escape sequence
/// deleted, is its symbols row by row with a newline between rows: the escape sequences
/// carry the styles and nothing else.
pub proof fn lemma_render_strips_to_text(canvas: CanvasView)
    requires
        canvas.cells.len() == canvas.width * canvas.height,
        forall|i: int| 0 <= i < canvas.cells.len() ==> (#[trigger] canvas.cells[i]).symbol != '\x1b',
    ensures
        strip_escapes(render_canvas(canvas)) == plain_rows(canvas.cells, canvas.width, canvas.height, canvas.height),
{
    lemma_strip_rows(canvas.cells, canvas.width, canvas.height, canvas.height);
}

/// The canvas after drawing a character: a visible character on the canvas replaces the
/// cell at its position with its symbol and style; otherwise nothing changes.
pub open spec fn draw_cell(canvas: CanvasView, character: EffectCharacter) -> CanvasView {
    if character.visible && in_bounds(canvas.width, canvas.height, character.position) {
        CanvasView {
            cells: canvas.cells.update(
                cell_index(canvas.width, character.position),
                Cell { symbol: character.symbol, style: character.style },
            ),
            ..canvas
        }
    } else {
        canvas
    }
}

/// A grid of cells that characters are drawn onto and that renders to terminal text.
#[derive(Debug, Clone)]
pub struct Canvas {
    width: usize,
    height: usize,
    cells: Vec<Cell>,
    blank: Cell,
}

impl View for Canvas {
    type V = CanvasView;

    closed spec fn view(&self) -> CanvasView {
        CanvasView {
            width: self.width as nat,
            height: self.height as nat,
            cells: self.cells@,
            blank: self.blank,
        }
    }
}

impl Canvas {
    /// The canvas invariant: at least one row and one column, and one cell per position.
    pub open spec fn wf(&self) -> bool {
        &&& self@.width >= 1
        &&& self@.height >= 1
        &&& self@.cells.len() == self@.width * self@.height
    }

    /// A canvas of the given size (each at least one) filled with blank cells.
    pub fn new(width: usize, height: usize) -> (canvas: Self)
        requires
            (if width >= 1 { width as int } else { 1 }) * (if height >= 1 { height as int } else { 1 })
                <= usize::MAX,
        ensures
            canvas.wf(),
            canvas@.width == if width >= 1 { width as nat } else { 1 },
            canvas@.height == if height >= 1 { height as nat } else { 1 },
            canvas@.cells == Seq::new(canvas@.width * canvas@.height, |i: int| blank_cell()),
            canvas@.blank == blank_cell(),
    {
        let width = if width >= 1 { width } else { 1 };
        let height = if height >= 1 { height } else { 1 };
        let blank = Cell::default();
        let count = width * height;
        let mut cells: Vec<Cell> = Vec::new();
        while cells.len() < count
            invariant
                cells.len() <= count,
                forall|i: int| 0 <= i < cells.len() ==> cells@[i] == blank_cell(),
                blank == blank_cell(),
            decreases count - cells.len(),
        {
            cells.push(blank);
        }
        let canvas = Self { width, height, cells, blank };
        assert(canvas@.cells =~= Seq::new(canvas@.width * canvas@.height, |i: int| blank_cell()));
        canvas
    }

    pub fn width(&self) -> (width: usize)
        ensures
            width == self@.width,
    {
        self.width
    }

    pub fn height(&self) -> (height: usize)
        ensures
            height == self@.height,
    {
        self.height
    }

    pub fn contains(&self, coord: Coord) -> (inside: bool)
        ensures
            inside == in_bounds(self@.width, self@.height, coord),
    {
        coord.x >= 0 && coord.y >= 0 && (coord.x as usize) < self.width && (coord.y as usize)
            < self.height
    }

    fn index(&self, coord: Coord) -> (index: Option<usize>)
        requires
            self.wf(),
        ensures
            index == if in_bounds(self@.width, self@.height, coord) {
                Some(cell_index(self@.width, coord) as usize)
            } else {
                None
            },
            index matches Some(i) ==> i < self@.cells.len() && i == cell_index(self@.width, coord),
    {
        if !self.contains(coord) {
            return None;
        }
        let x = coord.x as usize;
        let y = coord.y as usize;
        let count = self.cells.len();
        proof {
            lemma_index_in_range(self.width as int, self.height as int, x as int, y as int);
        }
        Some(y * self.width + x)
    }

    /// The cell at `coord`, if it lies on the canvas.
    pub fn get(&self, coord: Coord) -> (cell: Option<&Cell>)
        requires
            self.wf(),
        ensures
            cell == if in_bounds(self@.width, self@.height, coord) {
                Some(&self@.cells[cell_index(self@.width, coord)])
            } else {
                None
            },
    {
        match self.index(coord) {
            Some(index) => Some(&self.cells[index]),
            None => None,
        }
    }

    /// Mutable access to the cell at `coord`, if it lies on the canvas.
    pub fn get_mut(&mut self, coord: Coord) -> (cell: Option<&mut Cell>)
        requires
            old(self).wf(),
        ensures
            match cell {
                Some(cell) => {
                    &&& in_bounds(old(self)@.width, old(self)@.height, coord)
                    &&& *cell == old(self)@.cells[cell_index(old(self)@.width, coord)]
                    &&& final(self)@ == (CanvasView {
                        cells: old(self)@.cells.update(cell_index(old(self)@.width, coord), *final(cell)),
                        ..old(self)@
                    })
                },
                None => {
                    &&& !in_bounds(old(self)@.width, old(self)@.height, coord)
                    &&& final(self)@ == old(self)@
                },
            },
    {
        match self.index(coord) {
            Some(index) => Some(&mut self.cells[index]),
            None => None,
        }
    }

    /// Writes `cell` at `coord`; returns whether `coord` was on the canvas.
    pub fn set(&mut self, coord: Coord, cell: Cell) -> (written: bool)
        requires
            old(self).wf(),
        ensures
            final(self).wf(),
            written == in_bounds(old(self)@.width, old(self)@.height, coord),
            final(self)@ == if written {
                CanvasView {
                    cells: old(self)@.cells.update(cell_index(old(self)@.width, coord), cell),
                    ..old(self)@
                }
            } else {
                old(self)@
            },
    {
        match self.index(coord) {
            Some(index) => {
                self.cells.set(index, cell);
                true
            },
            None => false,
        }
    }

    /// Replaces the symbol at `coord`, keeping its style; returns whether `coord` was on the
    /// canvas.
    pub fn set_symbol(&mut self, coord: Coord, symbol: char) -> (written: bool)
        requires
            old(self).wf(),
        ensures
            final(self).wf(),
            written == in_bounds(old(self)@.width, old(self)@.height, coord),
            final(self)@ == if written {
                CanvasView {
                    cells: old(self)@.cells.update(
                        cell_index(old(self)@.width, coord),
                        Cell { symbol, ..old(self)@.cells[cell_index(old(self)@.width, coord)] },
                    ),
                    ..old(self)@
                }
            } else {
                old(self)@
            },
    {
        match self.index(coord) {
            Some(index) => {
                let mut cell = self.cells[index];
                cell.symbol = symbol;
                self.cells.set(index, cell);
                true
            },
            None => false,
        }
    }

    /// Resets every cell to the blank cell.
    pub fn clear(&mut self)
        requires
            old(self).wf(),
        ensures
            final(self).wf(),
            final(self)@ == (CanvasView {
                cells: Seq::new(old(self)@.cells.len(), |i: int| old(self)@.blank),
                ..old(self)@
            }),
    {
        let blank = self.blank;
        let mut index: usize = 0;
        while index < self.cells.len()
            invariant
                self.width == old(self).width,
                self.height == old(self).height,
                self.blank == blank,
                blank == old(self).blank,
                self.cells.len() == old(self).cells.len(),
                0 <= index <= self.cells.len(),
                forall|i: int| 0 <= i < index ==> self.cells@[i] == blank,
            decreases self.cells.len() - index,
        {
            self.cells.set(index, blank);
            index += 1;
        }
        assert(self@.cells =~= Seq::new(old(self)@.cells.len(), |i: int| old(self)@.blank));
    }

    /// Draws a visible character at its position; returns whether a cell was written.
    pub fn draw_character(&mut self, character: &EffectCharacter) -> (drawn: bool)
        requires
            old(self).wf(),
        ensures
            final(self).wf(),
            drawn == (character.visible && in_bounds(
                old(self)@.width,
                old(self)@.height,
                character.position,
            )),
            final(self)@ == draw_cell(old(self)@, *character),
    {
        if !character.visible {
            return false;
        }
        self.set(character.position, Cell { symbol: character.symbol, style: character.style })
    }

    /// Makes `cell` the blank cell and clears the canvas to it.
    pub fn clear_with(&mut self, cell: Cell)
        requires
            old(self).wf(),
        ensures
            final(self).wf(),
            final(self)@ == (CanvasView {
                cells: Seq::new(old(self)@.cells.len(), |i: int| cell),
                blank: cell,
                ..old(self)@
            }),
    {
        self.blank = cell;
        self.clear();
    }
    /// The canvas as terminal text: the rows separated by newlines, a style escape wherever
    /// the style changes within a row, and a reset at the end of a row that ends styled.
    pub fn render(&self) -> (text: String)
        requires
            self.wf(),
        ensures
            text@ == render_canvas(self@),
    {
        let mut output = String::new();
        let count = self.cells.len();
        let mut y: usize = 0;
        while y < self.height
            invariant
                self.wf(),
                count == self@.cells.len(),
                y <= self.height,
                output@ == render_rows(self@.cells, self@.width, self@.height, y as nat),
            decreases self.height - y,
        {
            let ghost row_start = output@;
            let ghost row = row_cells(self@.cells, self@.width, y as int);
            proof {
                lemma_index_in_range(self.width as int, self.height as int, 0, y as int);
            }
            let mut active_style = Style::default();
            let mut x: usize = 0;
            assert(row.subrange(0, 0) =~= Seq::<Cell>::empty());
            while x < self.width
                invariant
                    self.wf(),
                    count == self@.cells.len(),
                    y < self.height,
                    x <= self.width,
                    row == row_cells(self@.cells, self@.width, y as int),
                    y * self.width + self.width <= self.width * self.height,
                    output@ == row_start + render_cells(row.subrange(0, x as int)).0,
                    active_style == render_cells(row.subrange(0, x as int)).1,
                decreases self.width - x,
            {
                proof {
                    lemma_index_in_range(self.width as int, self.height as int, x as int, y as int);
                }
                let cell = self.cells[y * self.width + x];
                let ghost before = output@;
                proof {
                    assert(row.subrange(0, x + 1).drop_last() =~= row.subrange(0, x as int));
                    assert(row.subrange(0, x + 1).last() == cell);
                }
                if cell.style != active_style {
                    if !active_style.is_default() {
                        output.push('\x1b');
                        output.push('[');
                        output.push('0');
                        output.push('m');
                    }
                    let prefix = cell.style.ansi_prefix();
                    output.append(prefix.as_str());
                    active_style = cell.style;
                    output.push(cell.symbol);
                    assert(output@ =~= row_start + render_cells(row.subrange(0, x + 1)).0);
                } else {
                    output.push(cell.symbol);
                    assert(output@ =~= row_start + render_cells(row.subrange(0, x + 1)).0);
                }
                x += 1;
            }
            assert(row.subrange(0, self.width as int) =~= row);
            if !active_style.is_default() {
                output.push('\x1b');
                output.push('[');
                output.push('0');
                output.push('m');
            }
            if y + 1 < self.height {
                output.push('\n');
            }
            assert(output@ =~= render_rows(self@.cells, self@.width, self@.height, (y + 1) as nat));
            y += 1;
        }
        output
    }
}

/// A change made to a canvas through its methods.
pub enum CanvasEdit {
    Write(Coord, Cell),
    WriteSymbol(Coord, char),
    Clear,
    ClearWith(Cell),
}

/// The canvas after `edit`, as the method's contract gives it.
pub open spec fn edit_canvas(canvas: CanvasView, edit: CanvasEdit) -> CanvasView {
    match edit {
        CanvasEdit::Write(coord, cell) => if in_bounds(canvas.width, canvas.height, coord) {
            CanvasView { cells: canvas.cells.update(cell_index(canvas.width, coord), cell), ..canvas }
        } else {
            canvas
        },
        CanvasEdit::WriteSymbol(coord, symbol) => if in_bounds(canvas.width, canvas.height, coord) {
            CanvasView {
                cells: canvas.cells.update(
                    cell_index(canvas.width, coord),
                    Cell { symbol, ..canvas.cells[cell_index(canvas.width, coord)] },
                ),
                ..canvas
            }
        } else {
            canvas
        },
        CanvasEdit::Clear => CanvasView { cells: Seq::new(canvas.cells.len(), |i: int| canvas.blank), ..canvas },
        CanvasEdit::ClearWith(cell) => CanvasView {
            cells: Seq::new(canvas.cells.len(), |i: int| cell),
            blank: cell,
            ..canvas
        },
    }
}

/// The canvas after `edits`, in order.
pub open spec fn edit_all(canvas: CanvasView, edits: Seq<CanvasEdit>) -> CanvasView
    decreases edits.len(),
{
    if edits.len() == 0 {
        canvas
    } else {
        edit_canvas(edit_all(canvas, edits.drop_last()), edits.last())
    }
}

/// The cell given to the latest `ClearWith` among `edits`, or `blank` if there is none.
pub open spec fn latest_blank(blank: Cell, edits: Seq<CanvasEdit>) -> Cell
    decreases edits.len(),
{
    if edits.len() == 0 {
        blank
    } else {
        match edits.last() {
            CanvasEdit::ClearWith(cell) => cell,
            _ => latest_blank(blank, edits.drop_last()),
        }
    }
}

/// Edits keep a canvas's size and the number of its cells, and its blank is the cell of
/// the latest `ClearWith`.
pub proof fn lemma_edits_keep_size(canvas: CanvasView, edits: Seq<CanvasEdit>)
    requires
        canvas.cells.len() == canvas.width * canvas.height,
    ensures
        edit_all(canvas, edits).width == canvas.width,
        edit_all(canvas, edits).height == canvas.height,
        edit_all(canvas, edits).cells.len() == canvas.cells.len(),
        edit_all(canvas, edits).blank == latest_blank(canvas.blank, edits),
    decreases edits.len(),
{
    if edits.len() > 0 {
        lemma_edits_keep_size(canvas, edits.drop_last());
        let before = edit_all(canvas, edits.drop_last());
        match edits.last() {
            CanvasEdit::Write(coord, cell) => {
                if in_bounds(before.width, before.height, coord) {
                    lemma_index_in_range(before.width as int, before.height as int, coord.x as int, coord.y as int);
                }
            },
            CanvasEdit::WriteSymbol(coord, symbol) => {
                if in_bounds(before.width, before.height, coord) {
                    lemma_index_in_range(before.width as int, before.height as int, coord.x as int, coord.y as int);
                }
            },
            _ => {},
        }
    }
}

/// After any edits, `clear` shows in every cell of the canvas the cell given to the latest
/// `clear_with` (or the blank it was made with), keeps its size, and clearing again changes
/// nothing.
pub proof fn lemma_clear_restores_blank(canvas: CanvasView, edits: Seq<CanvasEdit>)
    requires
        canvas.cells.len() == canvas.width * canvas.height,
    ensures
        ({
            let after = edit_canvas(edit_all(canvas, edits), CanvasEdit::Clear);
            &&& after.width == canvas.width
            &&& after.height == canvas.height
            &&& forall|coord: Coord|
                in_bounds(canvas.width, canvas.height, coord) ==> #[trigger] after.cells[cell_index(canvas.width, coord)]
                    == latest_blank(canvas.blank, edits)
            &&& edit_canvas(after, CanvasEdit::Clear) == after
        }),
{
    lemma_edits_keep_size(canvas, edits);
    let after = edit_canvas(edit_all(canvas, edits), CanvasEdit::Clear);
    assert forall|coord: Coord| in_bounds(canvas.width, canvas.height, coord) implies #[trigger] after.cells[cell_index(
        canvas.width,
        coord,
    )] == latest_blank(canvas.blank, edits) by {
        lemma_index_in_range(canvas.width as int, canvas.height as int, coord.x as int, coord.y as int);
    }
    assert(edit_canvas(after, CanvasEdit::Clear).cells =~= after.cells);
}

} // verus!
