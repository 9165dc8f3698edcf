//! Edits of single characters of a terminal, by index, that leave every other character
//! as it is; and the frames of the text on its own.
use vstd::prelude::*;

use crate::engine::canvas::render_canvas;
use crate::engine::character::{CharacterId, EffectCharacter};
use crate::engine::terminal::{
    cleared, draw_all, frame_canvas, lemma_draw_all_looks, lemma_hidden_characters_draw_nothing,
    same_look, text_canvas, text_cells, Terminal,
};
use crate::utils::geometry::Coord;
use crate::utils::graphics::{foreground_only, Color, Style};
use crate::utils::text::text_rows;

verus! {

/// Character `index` shown or hidden; nothing else changes.
pub(crate) fn set_shown(terminal: &mut Terminal, index: usize, visible: bool)
    requires
        old(terminal).wf(),
        index < old(terminal)@.characters.len(),
    ensures
        final(terminal).wf(),
        final(terminal)@.canvas == old(terminal)@.canvas,
        final(terminal)@.next_id == old(terminal)@.next_id,
        final(terminal)@.characters == old(terminal)@.characters.update(
            index as int,
            EffectCharacter { visible, ..old(terminal)@.characters[index as int] },
        ),
{
    let characters = terminal.characters_mut();
    characters[index].visible = visible;
    proof {
        assert(terminal@.characters =~= old(terminal)@.characters.update(
            index as int,
            EffectCharacter { visible, ..old(terminal)@.characters[index as int] },
        ));
    }
}

/// Character `index` moved to `position`; nothing else changes.
pub(crate) fn move_to(terminal: &mut Terminal, index: usize, position: Coord)
    requires
        old(terminal).wf(),
        index < old(terminal)@.characters.len(),
    ensures
        final(terminal).wf(),
        final(terminal)@.canvas == old(terminal)@.canvas,
        final(terminal)@.next_id == old(terminal)@.next_id,
        final(terminal)@.characters == old(terminal)@.characters.update(
            index as int,
            EffectCharacter { position, ..old(terminal)@.characters[index as int] },
        ),
{
    let characters = terminal.characters_mut();
    characters[index].set_position(position);
    proof {
        assert(terminal@.characters =~= old(terminal)@.characters.update(
            index as int,
            EffectCharacter { position, ..old(terminal)@.characters[index as int] },
        ));
    }
}

/// Character `index` shows `symbol` in `style`; its place, visibility and input symbol
/// stay, and no other character changes.
pub(crate) fn repaint(terminal: &mut Terminal, index: usize, symbol: char, style: Style)
    requires
        old(terminal).wf(),
        index < old(terminal)@.characters.len(),
    ensures
        final(terminal).wf(),
        final(terminal)@.canvas == old(terminal)@.canvas,
        final(terminal)@.next_id == old(terminal)@.next_id,
        final(terminal)@.characters.len() == old(terminal)@.characters.len(),
        forall|i: int|
            0 <= i < old(terminal)@.characters.len() && i != index ==> #[trigger] final(terminal)@.characters[i]
                == old(terminal)@.characters[i],
        ({
            let before = old(terminal)@.characters[index as int];
            let after = final(terminal)@.characters[index as int];
            &&& after.symbol == symbol
            &&& after.style == style
            &&& after.visible == before.visible
            &&& after.position == before.position
            &&& after.input_symbol == before.input_symbol
        }),
{
    let ghost before = terminal@.characters;
    let characters = terminal.characters_mut();
    characters[index].set_appearance(symbol, style);
    proof {
        assert forall|i: int| 0 <= i < before.len() && i != index implies #[trigger] terminal@.characters[i]
            == before[i] by {}
    }
}

/// Characters `start..end` hidden; nothing else changes.
pub(crate) fn hide_range(terminal: &mut Terminal, start: usize, end: usize)
    requires
        old(terminal).wf(),
        start <= end <= old(terminal)@.characters.len(),
    ensures
        final(terminal).wf(),
        final(terminal)@.canvas == old(terminal)@.canvas,
        final(terminal)@.next_id == old(terminal)@.next_id,
        final(terminal)@.characters.len() == old(terminal)@.characters.len(),
        forall|i: int|
            0 <= i < old(terminal)@.characters.len() ==> #[trigger] final(terminal)@.characters[i] == if start
                <= i < end {
                EffectCharacter { visible: false, ..old(terminal)@.characters[i] }
            } else {
                old(terminal)@.characters[i]
            },
{
    let mut index = start;
    while index < end
        invariant
            start <= index <= end,
            end <= terminal@.characters.len(),
            terminal.wf(),
            terminal@.canvas == old(terminal)@.canvas,
            terminal@.next_id == old(terminal)@.next_id,
            terminal@.characters.len() == old(terminal)@.characters.len(),
            forall|i: int|
                0 <= i < old(terminal)@.characters.len() ==> #[trigger] terminal@.characters[i] == if start
                    <= i < index {
                    EffectCharacter { visible: false, ..old(terminal)@.characters[i] }
                } else {
                    old(terminal)@.characters[i]
                },
        decreases end - index,
    {
        set_shown(terminal, index, false);
        index += 1;
    }
}

/// `after` is `before` except at the indices `lo..hi`, and as long.
pub open spec fn same_outside(before: Seq<EffectCharacter>, after: Seq<EffectCharacter>, lo: int, hi: int) -> bool {
    &&& after.len() == before.len()
    &&& forall|i: int| 0 <= i < before.len() && !(lo <= i < hi) ==> #[trigger] after[i] == before[i]
}

/// `after` keeps the place and input symbol of each of the first `count` characters of
/// `before`.
pub open spec fn same_places(before: Seq<EffectCharacter>, after: Seq<EffectCharacter>, count: int) -> bool {
    forall|i: int|
        0 <= i < count ==> {
            &&& (#[trigger] after[i]).position == before[i].position
            &&& after[i].input_symbol == before[i].input_symbol
        }
}

/// An input character shown at its place in `style`.
pub open spec fn lit_character(cell: (char, Coord), style: Style) -> EffectCharacter {
    EffectCharacter {
        id: CharacterId(0),
        input_symbol: cell.0,
        symbol: cell.0,
        position: cell.1,
        style,
        visible: true,
        animation: arbitrary(),
    }
}

/// The text alone on its canvas, every character in `style`.
pub open spec fn lit_text_frame(text: Seq<char>, style: Style) -> Seq<char> {
    let cells = text_cells(text_rows(text));
    render_canvas(
        draw_all(text_canvas(text), Seq::new(cells.len(), |i: int| lit_character(cells[i], style))),
    )
}

/// The text alone on its canvas, each character in the colour `row_colors` gives its row.
pub open spec fn row_colored_frame(text: Seq<char>, row_colors: Seq<Color>) -> Seq<char> {
    let cells = text_cells(text_rows(text));
    render_canvas(
        draw_all(
            text_canvas(text),
            Seq::new(cells.len(), |i: int| lit_character(cells[i], foreground_only(row_colors[cells[i].1.y as int]))),
        ),
    )
}

/// A text without characters settles to its blank canvas.
pub proof fn lemma_settled_blank(text: Seq<char>, row_colors: Seq<Color>)
    requires
        text_cells(text_rows(text)).len() == 0,
    ensures
        row_colored_frame(text, row_colors) == render_canvas(text_canvas(text)),
{
    let cells = text_cells(text_rows(text));
    let none = Seq::new(cells.len(), |i: int| lit_character(cells[i], foreground_only(row_colors[cells[i].1.y as int])));
    assert(none.len() == 0);
    assert(draw_all(text_canvas(text), none) == text_canvas(text));
}

/// Drawing the text's characters in `style` at their places, with every later character
/// hidden, shows the text alone.
pub(crate) proof fn lemma_text_alone(text: Seq<char>, characters: Seq<EffectCharacter>, style: Style)
    requires
        characters.len() >= text_cells(text_rows(text)).len(),
        forall|i: int|
            0 <= i < text_cells(text_rows(text)).len() ==> {
                &&& (#[trigger] characters[i]).visible
                &&& characters[i].position == text_cells(text_rows(text))[i].1
                &&& characters[i].symbol == text_cells(text_rows(text))[i].0
                &&& characters[i].style == style
            },
        forall|i: int|
            text_cells(text_rows(text)).len() <= i < characters.len() ==> !(#[trigger] characters[i]).visible,
    ensures
        render_canvas(draw_all(text_canvas(text), characters)) == lit_text_frame(text, style),
{
    let cells = text_cells(text_rows(text));
    let canvas = text_canvas(text);
    let shown = characters.take(cells.len() as int);
    let expected = Seq::new(cells.len(), |i: int| lit_character(cells[i], style));
    lemma_hidden_characters_draw_nothing(canvas, characters, cells.len() as int);
    assert forall|i: int| 0 <= i < shown.len() implies same_look(#[trigger] shown[i], expected[i]) by {
        assert(shown[i] == characters[i]);
    }
    lemma_draw_all_looks(canvas, shown, expected);
}

/// The first characters stand where the text puts them, with their input symbols.
pub open spec fn at_home(characters: Seq<EffectCharacter>, cells: Seq<(char, Coord)>) -> bool {
    &&& characters.len() >= cells.len()
    &&& forall|i: int|
        0 <= i < cells.len() ==> {
            &&& (#[trigger] characters[i]).position == cells[i].1
            &&& characters[i].input_symbol == cells[i].0
        }
}

/// Renders a frame and keeps it; the characters stay as they are and the canvas is cleared
/// to the same blank canvas for the next frame.
pub(crate) fn snapshot(terminal: &mut Terminal, frames: &mut Vec<String>)
    requires
        old(terminal).wf(),
    ensures
        final(terminal).wf(),
        final(terminal)@.characters == old(terminal)@.characters,
        final(terminal)@.next_id == old(terminal)@.next_id,
        cleared(final(terminal)@.canvas) == cleared(old(terminal)@.canvas),
        final(frames)@.len() == old(frames)@.len() + 1,
        forall|f: int| 0 <= f < old(frames)@.len() ==> #[trigger] final(frames)@[f] == old(frames)@[f],
        final(frames)@.last()@ == render_canvas(frame_canvas(old(terminal)@)),
{
    let ghost view = terminal@;
    let frame = terminal.render_frame();
    proof {
        lemma_draw_all_looks(cleared(view.canvas), view.characters, view.characters);
        assert(cleared(terminal@.canvas).cells =~= cleared(view.canvas).cells);
    }
    frames.push(frame);
}

} // verus!
