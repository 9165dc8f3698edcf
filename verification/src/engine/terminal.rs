use vstd::prelude::*;

use crate::engine::animation::{AnimationView, CharacterVisual};
use crate::engine::canvas::{
    blank_cell, cell_index, draw_cell, in_bounds, lemma_index_in_range, lemma_write_then_read,
    render_canvas, Canvas, CanvasView, Cell,
};
use crate::engine::character::{character_stepped, CharacterId, EffectCharacter};
use crate::utils::geometry::Coord;
use crate::utils::graphics::plain_style;
use crate::utils::text::{grid_size, longest_row, split_rows, text_grid, text_rows};

verus! {

/// The state of a terminal as plain values.
pub struct TerminalView {
    pub canvas: CanvasView,
    pub characters: Seq<EffectCharacter>,
    pub next_id: nat,
}

/// `count`, or `u32::MAX` when it does not fit: the identity handed out after `count`
/// characters were added.
pub open spec fn saturated_id(count: nat) -> nat {
    if count < u32::MAX {
        count
    } else {
        u32::MAX as nat
    }
}

/// Whether `character` is exactly what `add_character` creates: identity `id`, showing
/// `symbol` in the plain style at `position`, visible, with no scene.
pub open spec fn fresh_character(character: EffectCharacter, id: nat, symbol: char, position: Coord) -> bool {
    &&& character.id == CharacterId(id as u32)
    &&& character.input_symbol == symbol
    &&& character.symbol == symbol
    &&& character.position == position
    &&& character.style == plain_style()
    &&& character.visible
    &&& character.animation@ == (AnimationView {
        current: CharacterVisual { symbol, style: plain_style() },
        active_scene: None,
    })
    &&& character.wf()
}

/// Every character keeps the character invariant.
pub open spec fn all_wf(characters: Seq<EffectCharacter>) -> bool {
    forall|i: int| 0 <= i < characters.len() ==> (#[trigger] characters[i]).wf()
}

/// The canvas with every cell blank.
pub open spec fn cleared(canvas: CanvasView) -> CanvasView {
    CanvasView { cells: Seq::new(canvas.cells.len(), |i: int| canvas.blank), ..canvas }
}

/// The canvas after drawing the characters in order; later characters cover earlier ones.
pub open spec fn draw_all(canvas: CanvasView, characters: Seq<EffectCharacter>) -> CanvasView
    decreases characters.len(),
{
    if characters.len() == 0 {
        canvas
    } else {
        draw_cell(draw_all(canvas, characters.drop_last()), characters.last())
    }
}

/// The canvas of one frame: cleared, then every character drawn.
pub open spec fn frame_canvas(terminal: TerminalView) -> CanvasView {
    draw_all(cleared(terminal.canvas), terminal.characters)
}

/// The blank canvas that just holds the text.
pub open spec fn text_canvas(text: Seq<char>) -> CanvasView {
    let (width, height) = text_grid(text);
    CanvasView {
        width,
        height,
        cells: Seq::new(width * height, |i: int| blank_cell()),
        blank: blank_cell(),
    }
}

/// The characters of the rows with their positions, row by row: column and row numbers.
pub open spec fn text_cells(rows: Seq<Seq<char>>) -> Seq<(char, Coord)>
    decreases rows.len(),
{
    if rows.len() == 0 {
        Seq::empty()
    } else {
        text_cells(rows.drop_last()) + row_text_cells(rows.last(), rows.len() - 1)
    }
}

/// The characters of row `y` with their positions.
pub open spec fn row_text_cells(row: Seq<char>, y: int) -> Seq<(char, Coord)> {
    Seq::new(row.len(), |x: int| (row[x], Coord { x: x as i32, y: y as i32 }))
}

proof fn lemma_longest_row_bounds(rows: Seq<Seq<char>>, y: int)
    requires
        0 <= y < rows.len(),
    ensures
        rows[y].len() <= longest_row(rows),
    decreases rows.len(),
{
    if y < rows.len() - 1 {
        lemma_longest_row_bounds(rows.drop_last(), y);
        assert(rows.drop_last()[y] == rows[y]);
    }
}

/// The text has no more characters than its canvas has cells: each row is at most as long
/// as the longest.
pub proof fn lemma_text_cells_fit(rows: Seq<Seq<char>>)
    ensures
        text_cells(rows).len() <= rows.len() * longest_row(rows),
    decreases rows.len(),
{
    if rows.len() > 0 {
        let rest = rows.drop_last();
        lemma_text_cells_fit(rest);
        let n = rest.len() as int;
        let longest = longest_row(rows) as int;
        let before = longest_row(rest) as int;
        assert(before <= longest);
        assert(rows.last().len() <= longest);
        assert(text_cells(rest).len() + rows.last().len() <= (n + 1) * longest) by (nonlinear_arith)
            requires
                text_cells(rest).len() <= n * before,
                before <= longest,
                rows.last().len() <= longest,
                n >= 0,
        ;
    }
}

/// Every character of the text lies on the canvas that holds it: its column is below the
/// longest row's length and its row below the number of rows.
pub proof fn lemma_text_cells_in_grid(rows: Seq<Seq<char>>)
    requires
        longest_row(rows) <= i32::MAX,
        rows.len() <= i32::MAX,
    ensures
        forall|i: int|
            0 <= i < text_cells(rows).len() ==> {
                &&& 0 <= (#[trigger] text_cells(rows)[i]).1.x < longest_row(rows)
                &&& 0 <= text_cells(rows)[i].1.y < rows.len()
            },
    decreases rows.len(),
{
    if rows.len() > 0 {
        let rest = rows.drop_last();
        assert(longest_row(rest) <= longest_row(rows));
        lemma_text_cells_in_grid(rest);
        lemma_longest_row_bounds(rows, rows.len() - 1);
        let last = row_text_cells(rows.last(), rows.len() - 1);
        assert forall|i: int| 0 <= i < text_cells(rows).len() implies {
            &&& 0 <= (#[trigger] text_cells(rows)[i]).1.x < longest_row(rows)
            &&& 0 <= text_cells(rows)[i].1.y < rows.len()
        } by {
            if i < text_cells(rest).len() {
                assert(text_cells(rows)[i] == text_cells(rest)[i]);
            } else {
                assert(text_cells(rows)[i] == last[i - text_cells(rest).len()]);
            }
        }
    }
}

/// Whether the characters are those of `cells`, freshly added in order.
pub open spec fn placed(characters: Seq<EffectCharacter>, cells: Seq<(char, Coord)>) -> bool {
    &&& characters.len() == cells.len()
    &&& forall|i: int|
        0 <= i < characters.len() ==> fresh_character(
            #[trigger] characters[i],
            saturated_id(i as nat),
            cells[i].0,
            cells[i].1,
        )
}

/// Whether `index` is the first position of a character with identity `id`.
pub open spec fn first_with_id(characters: Seq<EffectCharacter>, id: CharacterId, index: int) -> bool {
    &&& 0 <= index < characters.len()
    &&& characters[index].id == id
    &&& forall|j: int| 0 <= j < index ==> (#[trigger] characters[j]).id != id
}

/// Whether no character has identity `id`.
pub open spec fn lacks_id(characters: Seq<EffectCharacter>, id: CharacterId) -> bool {
    forall|i: int| 0 <= i < characters.len() ==> (#[trigger] characters[i]).id != id
}


/// Whether two characters are drawn the same way: same visibility, position, symbol and
/// style.
pub open spec fn same_look(a: EffectCharacter, b: EffectCharacter) -> bool {
    &&& a.visible == b.visible
    &&& a.position == b.position
    &&& a.symbol == b.symbol
    &&& a.style == b.style
}

/// Drawing depends on the characters' looks only, and keeps the canvas's size and blank.
pub proof fn lemma_draw_all_looks(
    canvas: CanvasView,
    characters: Seq<EffectCharacter>,
    others: Seq<EffectCharacter>,
)
    requires
        canvas.cells.len() == canvas.width * canvas.height,
        characters.len() == others.len(),
        forall|i: int| 0 <= i < characters.len() ==> same_look(#[trigger] characters[i], others[i]),
    ensures
        draw_all(canvas, characters) == draw_all(canvas, others),
        draw_all(canvas, characters).width == canvas.width,
        draw_all(canvas, characters).height == canvas.height,
        draw_all(canvas, characters).blank == canvas.blank,
        draw_all(canvas, characters).cells.len() == canvas.cells.len(),
    decreases characters.len(),
{
    if characters.len() > 0 {
        let last = characters.last();
        assert(same_look(characters[characters.len() - 1], others[others.len() - 1]));
        lemma_draw_all_looks(canvas, characters.drop_last(), others.drop_last());
        if in_bounds(canvas.width, canvas.height, last.position) {
            lemma_index_in_range(
                canvas.width as int,
                canvas.height as int,
                last.position.x as int,
                last.position.y as int,
            );
        }
    }
}

/// Whether drawing `a` and drawing `b` put the same on a canvas: both hidden, or both shown
/// with the same look.
pub open spec fn same_drawn(a: EffectCharacter, b: EffectCharacter) -> bool {
    &&& a.visible == b.visible
    &&& a.visible ==> same_look(a, b)
}

/// Drawing depends only on what the shown characters look like: a hidden character may
/// look like anything.
pub proof fn lemma_draw_all_drawn(canvas: CanvasView, characters: Seq<EffectCharacter>, others: Seq<EffectCharacter>)
    requires
        characters.len() == others.len(),
        forall|i: int| 0 <= i < characters.len() ==> same_drawn(#[trigger] characters[i], others[i]),
    ensures
        draw_all(canvas, characters) == draw_all(canvas, others),
    decreases characters.len(),
{
    if characters.len() > 0 {
        assert(same_drawn(characters[characters.len() - 1], others[others.len() - 1]));
        assert forall|i: int| 0 <= i < characters.drop_last().len() implies same_drawn(
            #[trigger] characters.drop_last()[i],
            others.drop_last()[i],
        ) by {
            assert(characters.drop_last()[i] == characters[i]);
            assert(others.drop_last()[i] == others[i]);
        }
        lemma_draw_all_drawn(canvas, characters.drop_last(), others.drop_last());
    }
}

/// Hidden characters leave a drawing as it is: when every character from `shown` on is
/// hidden, drawing them all gives what drawing the first `shown` gives.
pub proof fn lemma_hidden_characters_draw_nothing(
    canvas: CanvasView,
    characters: Seq<EffectCharacter>,
    shown: int,
)
    requires
        0 <= shown <= characters.len(),
        forall|i: int| shown <= i < characters.len() ==> !(#[trigger] characters[i]).visible,
    ensures
        draw_all(canvas, characters) == draw_all(canvas, characters.take(shown)),
    decreases characters.len(),
{
    if characters.len() > shown {
        assert(!characters[characters.len() - 1].visible);
        lemma_hidden_characters_draw_nothing(canvas, characters.drop_last(), shown);
        assert(characters.drop_last().take(shown) =~= characters.take(shown));
    } else {
        assert(characters.take(shown) =~= characters);
    }
}

/// The last visible character standing at `position`, if any: the one a frame shows there.
pub open spec fn last_drawn_at(characters: Seq<EffectCharacter>, position: Coord) -> Option<
    EffectCharacter,
>
    decreases characters.len(),
{
    if characters.len() == 0 {
        None
    } else if characters.last().visible && characters.last().position == position {
        Some(characters.last())
    } else {
        last_drawn_at(characters.drop_last(), position)
    }
}

/// Drawing characters onto a canvas leaves at each position the look of the last visible
/// character standing there, and the cell that was there if there is none.
pub proof fn lemma_last_character_wins(
    canvas: CanvasView,
    characters: Seq<EffectCharacter>,
    position: Coord,
)
    requires
        canvas.cells.len() == canvas.width * canvas.height,
        in_bounds(canvas.width, canvas.height, position),
    ensures
        draw_all(canvas, characters).width == canvas.width,
        draw_all(canvas, characters).height == canvas.height,
        draw_all(canvas, characters).cells.len() == canvas.cells.len(),
        draw_all(canvas, characters).cells[cell_index(canvas.width, position)] == match last_drawn_at(
            characters,
            position,
        ) {
            Some(c) => Cell { symbol: c.symbol, style: c.style },
            None => canvas.cells[cell_index(canvas.width, position)],
        },
    decreases characters.len(),
{
    if characters.len() > 0 {
        let rest = characters.drop_last();
        let last = characters.last();
        lemma_last_character_wins(canvas, rest, position);
        let before = draw_all(canvas, rest);
        if last.visible && in_bounds(canvas.width, canvas.height, last.position) {
            lemma_index_in_range(
                canvas.width as int,
                canvas.height as int,
                last.position.x as int,
                last.position.y as int,
            );
            lemma_write_then_read(
                before,
                last.position,
                position,
                Cell { symbol: last.symbol, style: last.style },
            );
        }
    }
}

/// In a rendered frame, each position shows the last visible character standing there, or
/// a blank cell when there is none.
pub proof fn lemma_frame_shows_last_character(terminal: TerminalView, position: Coord)
    requires
        terminal.canvas.cells.len() == terminal.canvas.width * terminal.canvas.height,
        in_bounds(terminal.canvas.width, terminal.canvas.height, position),
    ensures
        frame_canvas(terminal).cells[cell_index(terminal.canvas.width, position)] == match last_drawn_at(
            terminal.characters,
            position,
        ) {
            Some(c) => Cell { symbol: c.symbol, style: c.style },
            None => terminal.canvas.blank,
        },
{
    lemma_last_character_wins(cleared(terminal.canvas), terminal.characters, position);
    lemma_index_in_range(
        terminal.canvas.width as int,
        terminal.canvas.height as int,
        position.x as int,
        position.y as int,
    );
}

/// Whether the character's animation has a scene that is running.
pub open spec fn scene_running(character: EffectCharacter) -> bool {
    match character.animation@.active_scene {
        Some(scene) => scene.active,
        None => false,
    }
}

/// Whether any character still has a running scene.
pub fn any_scene_running(characters: &[EffectCharacter]) -> (running: bool)
    requires
        all_wf(characters@),
    ensures
        running == exists|i: int| 0 <= i < characters@.len() && scene_running(#[trigger] characters@[i]),
{
    let mut index: usize = 0;
    while index < characters.len()
        invariant
            index <= characters@.len(),
            all_wf(characters@),
            forall|j: int| 0 <= j < index ==> !scene_running(#[trigger] characters@[j]),
        decreases characters@.len() - index,
    {
        let active = match characters[index].animation.active_scene() {
            Some(scene) => scene.is_active(),
            None => false,
        };
        if active {
            return true;
        }
        index += 1;
    }
    false
}

/// The longest of rows that are each at most `bound` long is at most `bound` long.
proof fn lemma_rows_within(rows: Seq<Seq<char>>, bound: nat)
    requires
        forall|y: int| 0 <= y < rows.len() ==> (#[trigger] rows[y]).len() <= bound,
    ensures
        longest_row(rows) <= bound,
    decreases rows.len(),
{
    if rows.len() > 0 {
        let rest = rows.drop_last();
        assert forall|y: int| 0 <= y < rest.len() implies (#[trigger] rest[y]).len() <= bound by {
            assert(rest[y] == rows[y]);
        }
        lemma_rows_within(rest, bound);
        assert(rows[rows.len() - 1].len() <= bound);
    }
}

/// Each character of the text stands in its row, at a column within the row, and is that
/// row's character there.
pub proof fn lemma_text_cells_in_rows(rows: Seq<Seq<char>>)
    requires
        rows.len() <= i32::MAX,
        longest_row(rows) <= i32::MAX,
    ensures
        forall|i: int|
            0 <= i < text_cells(rows).len() ==> {
                let cell = #[trigger] text_cells(rows)[i];
                &&& 0 <= cell.1.y < rows.len()
                &&& 0 <= cell.1.x < rows[cell.1.y as int].len()
                &&& rows[cell.1.y as int][cell.1.x as int] == cell.0
            },
    decreases rows.len(),
{
    if rows.len() > 0 {
        let rest = rows.drop_last();
        assert forall|y: int| 0 <= y < rest.len() implies (#[trigger] rest[y]).len() <= longest_row(rows) by {
            assert(rest[y] == rows[y]);
            lemma_longest_row_bounds(rows, y);
        }
        lemma_rows_within(rest, longest_row(rows));
        lemma_text_cells_in_rows(rest);
        let y_last = rows.len() - 1;
        lemma_longest_row_bounds(rows, y_last);
        let last = row_text_cells(rows.last(), y_last);
        assert forall|i: int| 0 <= i < text_cells(rows).len() implies {
            let cell = #[trigger] text_cells(rows)[i];
            &&& 0 <= cell.1.y < rows.len()
            &&& 0 <= cell.1.x < rows[cell.1.y as int].len()
            &&& rows[cell.1.y as int][cell.1.x as int] == cell.0
        } by {
            if i < text_cells(rest).len() {
                assert(text_cells(rows)[i] == text_cells(rest)[i]);
                let cell = text_cells(rest)[i];
                assert(rest[cell.1.y as int] == rows[cell.1.y as int]);
            } else {
                assert(text_cells(rows)[i] == last[i - text_cells(rest).len()]);
            }
        }
    }
}

/// A canvas and the characters drawn onto it each frame.
#[derive(Debug, Clone)]
pub struct Terminal {
    canvas: Canvas,
    characters: Vec<EffectCharacter>,
    next_character_id: u32,
}

impl View for Terminal {
    type V = TerminalView;

    closed spec fn view(&self) -> TerminalView {
        TerminalView {
            canvas: self.canvas@,
            characters: self.characters@,
            next_id: self.next_character_id as nat,
        }
    }
}

impl Terminal {
    /// The terminal invariant: the canvas keeps its invariant and so does every character.
    pub open spec fn wf(&self) -> bool {
        &&& self@.canvas.width >= 1
        &&& self@.canvas.height >= 1
        &&& self@.canvas.cells.len() == self@.canvas.width * self@.canvas.height
        &&& all_wf(self@.characters)
    }

    /// An empty terminal on a blank canvas of the given size (each at least one).
    pub fn new(width: usize, height: usize) -> (terminal: Self)
        requires
            (if width >= 1 { width as int } else { 1 }) * (if height >= 1 { height as int } else { 1 })
                <= usize::MAX,
        ensures
            terminal.wf(),
            terminal@.canvas.width == if width >= 1 { width as nat } else { 1 },
            terminal@.canvas.height == if height >= 1 { height as nat } else { 1 },
            terminal@.canvas.cells == Seq::new(
                terminal@.canvas.width * terminal@.canvas.height,
                |i: int| blank_cell(),
            ),
            terminal@.canvas.blank == blank_cell(),
            terminal@.characters == Seq::<EffectCharacter>::empty(),
            terminal@.next_id == 0,
    {
        Terminal { canvas: Canvas::new(width, height), characters: Vec::new(), next_character_id: 0 }
    }

    /// The text laid out on a canvas that just holds it: one character per input character,
    /// at its column and row, in reading order.
    pub fn from_text(input: &str) -> (terminal: Self)
        requires
            text_grid(input@).0 * text_grid(input@).1 <= usize::MAX,
        ensures
            terminal.wf(),
            terminal@.canvas.width == text_grid(input@).0,
            terminal@.canvas.height == text_grid(input@).1,
            terminal@.canvas.cells == Seq::new(
                terminal@.canvas.width * terminal@.canvas.height,
                |i: int| blank_cell(),
            ),
            terminal@.canvas.blank == blank_cell(),
            placed(terminal@.characters, text_cells(text_rows(input@))),
            terminal@.next_id == saturated_id(terminal@.characters.len()),
    {
        let rows = split_rows(input);
        let ghost model = text_rows(input@);
        let (width, height) = grid_size(&rows);
        let mut terminal = Terminal::new(width, height);
        let ghost canvas = terminal@.canvas;
        let mut y: usize = 0;
        assert(model.take(0) =~= Seq::<Seq<char>>::empty());
        while y < rows.len()
            invariant
                rows.deep_view() == model,
                y <= rows.len(),
                terminal.wf(),
                terminal@.canvas == canvas,
                placed(terminal@.characters, text_cells(model.take(y as int))),
                terminal@.next_id == saturated_id(terminal@.characters.len()),
            decreases rows.len() - y,
        {
            let ghost before = text_cells(model.take(y as int));
            assert(model.take(y + 1).drop_last() =~= model.take(y as int));
            assert(rows[y as int]@ == model[y as int]);
            let line = &rows[y];
            let mut x: usize = 0;
            while x < line.len()
                invariant
                    rows.deep_view() == model,
                    y < rows.len(),
                    line@ == model[y as int],
                    x <= line.len(),
                    terminal.wf(),
                    terminal@.canvas == canvas,
                    placed(
                        terminal@.characters,
                        before + row_text_cells(line@, y as int).take(x as int),
                    ),
                    terminal@.next_id == saturated_id(terminal@.characters.len()),
                decreases line.len() - x,
            {
                let ghost old_characters = terminal@.characters;
                let ghost cells = before + row_text_cells(line@, y as int).take(x as int);
                let ghost grown = before + row_text_cells(line@, y as int).take(x + 1);
                terminal.add_character(line[x], Coord::new(x as i32, y as i32));
                assert(grown =~= cells.push((line@[x as int], Coord { x: x as i32, y: y as i32 })));
                assert(placed(terminal@.characters, grown)) by {
                    assert forall|i: int| 0 <= i < terminal@.characters.len() implies fresh_character(
                        #[trigger] terminal@.characters[i],
                        saturated_id(i as nat),
                        grown[i].0,
                        grown[i].1,
                    ) by {
                        if i < old_characters.len() {
                            assert(terminal@.characters[i] == old_characters[i]);
                        }
                    }
                }
                x += 1;
            }
            assert(row_text_cells(line@, y as int).take(line.len() as int) =~= row_text_cells(
                line@,
                y as int,
            ));
            assert(model.take(y + 1).last() == model[y as int]);
            y += 1;
        }
        assert(model.take(rows.len() as int) =~= model);
        terminal
    }

    pub fn canvas(&self) -> (canvas: &Canvas)
        ensures
            canvas@ == self@.canvas,
    {
        &self.canvas
    }

    /// Mutable access to the canvas; the characters stay as they are.
    pub fn canvas_mut(&mut self) -> (canvas: &mut Canvas)
        ensures
            canvas@ == old(self)@.canvas,
            final(self)@ == (TerminalView { canvas: final(canvas)@, ..old(self)@ }),
    {
        &mut self.canvas
    }

    pub fn characters(&self) -> (characters: &[EffectCharacter])
        ensures
            characters@ == self@.characters,
    {
        self.characters.as_slice()
    }

    /// Mutable access to the characters; the canvas stays as it is.
    pub fn characters_mut(&mut self) -> (characters: &mut [EffectCharacter])
        ensures
            characters@ == old(self)@.characters,
            final(self)@ == (TerminalView { characters: final(characters)@, ..old(self)@ }),
    {
        self.characters.as_mut_slice()
    }

    fn position_of(&self, id: CharacterId) -> (index: Option<usize>)
        ensures
            match index {
                Some(i) => first_with_id(self@.characters, id, i as int),
                None => lacks_id(self@.characters, id),
            },
    {
        let mut index: usize = 0;
        while index < self.characters.len()
            invariant
                index <= self.characters.len(),
                forall|j: int| 0 <= j < index ==> (#[trigger] self@.characters[j]).id != id,
            decreases self.characters.len() - index,
        {
            if self.characters[index].id == id {
                return Some(index);
            }
            index += 1;
        }
        None
    }

    /// The first character with identity `id`, if there is one.
    pub fn character(&self, id: CharacterId) -> (character: Option<&EffectCharacter>)
        ensures
            match character {
                Some(c) => exists|i: int| first_with_id(self@.characters, id, i) && *c == self@.characters[i],
                None => lacks_id(self@.characters, id),
            },
    {
        match self.position_of(id) {
            Some(index) => Some(&self.characters[index]),
            None => None,
        }
    }

    /// Mutable access to the first character with identity `id`, if there is one.
    pub fn character_mut(&mut self, id: CharacterId) -> (character: Option<&mut EffectCharacter>)
        ensures
            match character {
                Some(c) => exists|i: int|
                    {
                        &&& first_with_id(old(self)@.characters, id, i)
                        &&& *c == old(self)@.characters[i]
                        &&& final(self)@ == (TerminalView {
                            characters: old(self)@.characters.update(i, *final(c)),
                            ..old(self)@
                        })
                    },
                None => {
                    &&& lacks_id(old(self)@.characters, id)
                    &&& final(self)@ == old(self)@
                },
            },
    {
        match self.position_of(id) {
            Some(index) => Some(&mut self.characters[index]),
            None => None,
        }
    }

    /// Adds a fresh character showing `symbol` at `position` and returns its identity; the
    /// identities count up and stay at `u32::MAX` once they reach it.
    pub fn add_character(&mut self, symbol: char, position: Coord) -> (id: CharacterId)
        requires
            old(self).wf(),
        ensures
            final(self).wf(),
            id == CharacterId(old(self)@.next_id as u32),
            final(self)@.canvas == old(self)@.canvas,
            final(self)@.characters.len() == old(self)@.characters.len() + 1,
            final(self)@.characters.drop_last() == old(self)@.characters,
            fresh_character(final(self)@.characters.last(), old(self)@.next_id, symbol, position),
            final(self)@.next_id == if old(self)@.next_id < u32::MAX {
                old(self)@.next_id + 1
            } else {
                u32::MAX as nat
            },
    {
        let id = CharacterId(self.next_character_id);
        self.next_character_id = if self.next_character_id < u32::MAX {
            self.next_character_id + 1
        } else {
            u32::MAX
        };
        self.characters.push(EffectCharacter::new(id, symbol, position));
        assert(self@.characters.drop_last() =~= old(self)@.characters);
        id
    }

    /// Takes out the first character with identity `id`, if there is one.
    pub fn remove_character(&mut self, id: CharacterId) -> (removed: Option<EffectCharacter>)
        requires
            old(self).wf(),
        ensures
            final(self).wf(),
            match removed {
                Some(c) => exists|i: int|
                    {
                        &&& first_with_id(old(self)@.characters, id, i)
                        &&& c == old(self)@.characters[i]
                        &&& final(self)@ == (TerminalView {
                            characters: old(self)@.characters.remove(i),
                            ..old(self)@
                        })
                    },
                None => {
                    &&& lacks_id(old(self)@.characters, id)
                    &&& final(self)@ == old(self)@
                },
            },
    {
        match self.position_of(id) {
            Some(index) => {
                let character = self.characters.remove(index);
                assert(all_wf(self@.characters)) by {
                    assert forall|i: int| 0 <= i < self@.characters.len() implies (
                    #[trigger] self@.characters[i]).wf() by {
                        if i >= index {
                            assert(self@.characters[i] == old(self)@.characters[i + 1]);
                        } else {
                            assert(self@.characters[i] == old(self)@.characters[i]);
                        }
                    }
                }
                Some(character)
            },
            None => None,
        }
    }

    /// Advances every character's animation by one step.
    pub fn step(&mut self)
        requires
            old(self).wf(),
        ensures
            final(self).wf(),
            final(self)@.canvas == old(self)@.canvas,
            final(self)@.next_id == old(self)@.next_id,
            final(self)@.characters.len() == old(self)@.characters.len(),
            forall|i: int|
                0 <= i < old(self)@.characters.len() ==> character_stepped(
                    old(self)@.characters[i],
                    #[trigger] final(self)@.characters[i],
                ),
    {
        let count = self.characters.len();
        let mut index: usize = 0;
        while index < count
            invariant
                count == self@.characters.len(),
                count == old(self)@.characters.len(),
                index <= count,
                self@.canvas == old(self)@.canvas,
                self@.next_id == old(self)@.next_id,
                self.wf(),
                forall|j: int|
                    0 <= j < index ==> character_stepped(
                        old(self)@.characters[j],
                        #[trigger] self@.characters[j],
                    ),
                forall|j: int| index <= j < count ==> #[trigger] self@.characters[j] == old(self)@.characters[j],
            decreases count - index,
        {
            let ghost before = self@.characters;
            let character = &mut self.characters[index];
            character.step();
            assert(all_wf(self@.characters)) by {
                assert forall|i: int| 0 <= i < count implies (#[trigger] self@.characters[i]).wf() by {
                    if i != index {
                        assert(self@.characters[i] == before[i]);
                    }
                }
            }
            assert forall|j: int| 0 <= j < index + 1 implies character_stepped(
                old(self)@.characters[j],
                #[trigger] self@.characters[j],
            ) by {
                if j < index {
                    assert(self@.characters[j] == before[j]);
                }
            }
            assert forall|j: int| index + 1 <= j < count implies #[trigger] self@.characters[j]
                == old(self)@.characters[j] by {
                assert(self@.characters[j] == before[j]);
            }
            index += 1;
        }
    }

    /// Clears the canvas, draws every visible character in order and renders the result.
    pub fn render_frame(&mut self) -> (frame: String)
        requires
            old(self).wf(),
        ensures
            final(self).wf(),
            final(self)@ == (TerminalView { canvas: frame_canvas(old(self)@), ..old(self)@ }),
            frame@ == render_canvas(frame_canvas(old(self)@)),
    {
        self.canvas.clear();
        let count = self.characters.len();
        let mut index: usize = 0;
        assert(old(self)@.characters.take(0) =~= Seq::<EffectCharacter>::empty());
        while index < count
            invariant
                count == self@.characters.len(),
                self@.characters == old(self)@.characters,
                self@.next_id == old(self)@.next_id,
                index <= count,
                self.wf(),
                self@.canvas == draw_all(cleared(old(self)@.canvas), self@.characters.take(index as int)),
            decreases count - index,
        {
            assert(self@.characters.take(index + 1).drop_last() =~= self@.characters.take(index as int));
            self.canvas.draw_character(&self.characters[index]);
            index += 1;
        }
        assert(self@.characters.take(count as int) =~= self@.characters);
        self.canvas.render()
    }

    /// Makes up to `max_steps` frames: before each, asks `continue_running` (given the
    /// terminal and the step's number) whether to go on, and stops at the first no; else
    /// steps every character and renders a frame.
    pub fn run_steps<F: Fn(&Terminal, usize) -> bool>(&mut self, max_steps: usize, continue_running: F) -> (frames: Vec<
        String,
    >)
        requires
            old(self).wf(),
            forall|t: Terminal, step: usize| t.wf() ==> #[trigger] continue_running.requires((&t, step)),
        ensures
            final(self).wf(),
            frames.len() <= max_steps,
            exists|states: Seq<Terminal>|
                {
                    &&& states.len() == frames.len() + 1
                    &&& states[0] == *old(self)
                    &&& states.last() == *final(self)
                    &&& forall|k: int|
                        0 <= k < frames.len() ==> {
                            &&& continue_running.ensures((&states[k], k as usize), true)
                            &&& stepped_and_drawn(states[k]@, #[trigger] states[k + 1]@)
                            &&& frames@[k]@ == render_canvas(states[k + 1]@.canvas)
                        }
                    &&& frames.len() < max_steps ==> continue_running.ensures(
                        (&states.last(), frames.len()),
                        false,
                    )
                },
    {
        let mut frames: Vec<String> = Vec::new();
        let ghost mut states: Seq<Terminal> = seq![*self];
        let mut step: usize = 0;
        let mut stop = false;
        while !stop && step < max_steps
            invariant
                self.wf(),
                step <= max_steps,
                frames.len() == step,
                states.len() == step + 1,
                states[0] == *old(self),
                states.last() == *self,
                forall|t: Terminal, step: usize| t.wf() ==> #[trigger] continue_running.requires((&t, step)),
                forall|k: int|
                    0 <= k < step ==> {
                        &&& continue_running.ensures((&states[k], k as usize), true)
                        &&& stepped_and_drawn(states[k]@, #[trigger] states[k + 1]@)
                        &&& frames@[k]@ == render_canvas(states[k + 1]@.canvas)
                    },
                stop ==> continue_running.ensures((&states.last(), step), false),
            decreases max_steps - step + if stop {
                0int
            } else {
                1int
            },
        {
            let go = continue_running(&*self, step);
            if !go {
                stop = true;
            } else {
                let ghost before = *self;
                self.step();
                let ghost middle = self@;
                let frame = self.render_frame();
                frames.push(frame);
                proof {
                    states = states.push(*self);
                    assert(states[step as int] == before);
                    assert(stepped_and_drawn(before@, self@));
                    assert forall|k: int| 0 <= k < step + 1 implies {
                        &&& continue_running.ensures((&states[k], k as usize), true)
                        &&& stepped_and_drawn(states[k]@, #[trigger] states[k + 1]@)
                        &&& frames@[k]@ == render_canvas(states[k + 1]@.canvas)
                    } by {}
                }
                step += 1;
            }
        }
        frames
    }
}

/// The terminal after one step and one frame: every character stepped, and the canvas the
/// frame drew of them.
pub open spec fn stepped_and_drawn(before: TerminalView, after: TerminalView) -> bool {
    &&& after.next_id == before.next_id
    &&& after.characters.len() == before.characters.len()
    &&& forall|i: int|
        0 <= i < before.characters.len() ==> character_stepped(
            before.characters[i],
            #[trigger] after.characters[i],
        )
    &&& after.canvas == draw_all(cleared(before.canvas), after.characters)
}

} // verus!
