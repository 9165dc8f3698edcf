use vstd::prelude::*;

use crate::engine::canvas::render_canvas;
use crate::engine::character::{CharacterId, EffectCharacter};
use crate::engine::edit::{lit_character, move_to, row_colored_frame, set_shown, snapshot};
use crate::engine::terminal::{
    cleared, draw_all, lemma_draw_all_looks, lemma_hidden_characters_draw_nothing, lemma_text_cells_in_grid,
    same_look, text_canvas, text_cells, Terminal,
};
use crate::utils::geometry::Coord;
use crate::utils::graphics::{foreground_only, Color, Style};
use crate::utils::text::{lemma_rows_nonempty, text_grid, text_rows};

verus! {

/// A print head types each row out and paths for the next.
#[derive(Debug, Clone, Copy, Default)]
pub struct Print;

impl Print {
    /// The frames of printing: the characters appear one per frame in reading order, each
    /// in its row's colour from `row_colors`, with a white head just right of the last one;
    /// after each row but the last the head goes back through the positions of `paths`
    /// (one list per row end, one frame per position); last the text alone.
    #[verifier::spinoff_prover]
    #[verifier::rlimit(50)]
    pub fn frames(&self, input: &str, row_colors: &Vec<Color>, paths: &Vec<Vec<Coord>>) -> (frames: Vec<String>)
        requires
            text_grid(input@).0 * text_grid(input@).1 <= usize::MAX,
            text_grid(input@).0 < i32::MAX,
            text_grid(input@).1 <= i32::MAX,
            row_colors.len() == text_grid(input@).1,
            paths.len() >= breaks_from(text_cells(text_rows(input@)), 0),
        ensures
            frames.len() == print_frame_count(input@, paths@),
            forall|f: int|
                0 <= f < frames.len() ==> (#[trigger] frames[f])@ == print_frame(input@, row_colors@, paths@, f),
            text_cells(text_rows(input@)).len() > 0 ==> frames@.last()@ == row_colored_frame(input@, row_colors@),
    {
        let ghost text = input@;
        let ghost rows = text_rows(text);
        let ghost cells = text_cells(rows);
        let mut terminal = Terminal::from_text(input);
        let count = terminal.characters().len();
        let ghost canvas0 = terminal@.canvas;
        proof {
            lemma_rows_nonempty(text);
            lemma_text_cells_in_grid(rows);
            assert(canvas0.cells =~= text_canvas(text).cells);
            assert(cleared(canvas0).cells =~= canvas0.cells);
        }
        let mut k: usize = 0;
        while k < count
            invariant
                k <= count,
                count == cells.len(),
                cells == text_cells(rows),
                rows == text_rows(text),
                text == input@,
                row_colors.len() == text_grid(text).1,
                forall|j: int|
                    0 <= j < count ==> {
                        &&& 0 <= (#[trigger] cells[j]).1.x < text_grid(text).0
                        &&& 0 <= cells[j].1.y < text_grid(text).1
                    },
                terminal.wf(),
                terminal@.canvas == canvas0,
                terminal@.characters.len() == count,
                forall|j: int|
                    0 <= j < count ==> {
                        &&& (#[trigger] terminal@.characters[j]).position == cells[j].1
                        &&& terminal@.characters[j].symbol == cells[j].0
                        &&& terminal@.characters[j].input_symbol == cells[j].0
                    },
                forall|j: int|
                    0 <= j < k ==> {
                        &&& !(#[trigger] terminal@.characters[j]).visible
                        &&& terminal@.characters[j].style == foreground_only(row_colors@[cells[j].1.y as int])
                    },
            decreases count - k,
        {
            let y = terminal.characters()[k].position.y;
            let ghost before = terminal@.characters;
            set_shown(&mut terminal, k, false);
            restyle(&mut terminal, k, Style::default().with_foreground(row_colors[y as usize]));
            proof {
                assert forall|j: int| 0 <= j < count && j != k implies #[trigger] terminal@.characters[j] == before[j] by {}
            }
            k += 1;
        }
        let mut frames: Vec<String> = Vec::new();
        if count == 0 {
            let ghost shot = terminal@;
            snapshot(&mut terminal, &mut frames);
            proof {
                assert(Seq::new(
                    cells.len(),
                    |i: int| print_character(cells[i], row_colors@[cells[i].1.y as int], true),
                ) =~= shot.characters);
            }
            return frames;
        }
        let first_row = terminal.characters()[0].position.y;
        let ghost styled = terminal@.characters;
        terminal.add_character('█', Coord::new(0, first_row));
        let ghost added = terminal@.characters;
        restyle(&mut terminal, count, Style::default().with_foreground(Color::rgb(0xff, 0xff, 0xff)));
        proof {
            assert forall|j: int| 0 <= j < count implies #[trigger] terminal@.characters[j] == styled[j] by {
                assert(terminal@.characters[j] == added[j]);
                assert(added.drop_last()[j] == added[j]);
            }
        }
        let ghost track = head_track(cells, paths@, 0, 0);
        let ghost mut done: Seq<(int, Coord)> = Seq::empty();
        let mut g: usize = 0;
        let mut i: usize = 0;
        while i < count
            invariant
                i <= count,
                count >= 1,
                count == cells.len(),
                cells == text_cells(rows),
                rows == text_rows(text),
                text == input@,
                row_colors.len() == text_grid(text).1,
                text_grid(text).0 < i32::MAX,
                forall|j: int|
                    0 <= j < count ==> {
                        &&& 0 <= (#[trigger] cells[j]).1.x < text_grid(text).0
                        &&& 0 <= cells[j].1.y < text_grid(text).1
                    },
                terminal.wf(),
                cleared(terminal@.canvas) == canvas0,
                canvas0 == text_canvas(text),
                terminal@.characters.len() == count + 1,
                forall|j: int|
                    0 <= j < count ==> {
                        &&& (#[trigger] terminal@.characters[j]).position == cells[j].1
                        &&& terminal@.characters[j].symbol == cells[j].0
                        &&& terminal@.characters[j].input_symbol == cells[j].0
                        &&& terminal@.characters[j].style == foreground_only(row_colors@[cells[j].1.y as int])
                        &&& terminal@.characters[j].visible == (j < i)
                    },
                terminal@.characters[count as int].symbol == '█',
                terminal@.characters[count as int].style == foreground_only(Color::Rgb { r: 0xff, g: 0xff, b: 0xff }),
                terminal@.characters[count as int].visible,
                track == head_track(cells, paths@, 0, 0),
                done + head_track(cells, paths@, i as int, g as int) == track,
                g + breaks_from(cells, i as int) == breaks_from(cells, 0),
                breaks_from(cells, 0) <= paths.len(),
                frames.len() == done.len(),
                forall|f: int|
                    0 <= f < frames.len() ==> (#[trigger] frames[f])@ == print_frame(text, row_colors@, paths@, f),
            decreases count - i,
        {
            let position = terminal.characters()[i].position;
            set_shown(&mut terminal, i, true);
            move_to(&mut terminal, count, Coord::new(position.x + 1, position.y));
            let ghost shot = terminal@;
            let ghost earlier = frames@;
            snapshot(&mut terminal, &mut frames);
            let ghost rest = head_track(cells, paths@, i as int, g as int);
            proof {
                let printed = Seq::empty().push(((i + 1) as int, Coord { x: (cells[i as int].1.x + 1) as i32, y: cells[i as int].1.y }));
                assert(rest[0] == printed[0]);
                lemma_print_shot(text, shot.characters, row_colors@, (i + 1) as int, shot.characters[count as int].position);
                let f = done.len() as int;
                assert(track[f] == rest[0]);
                assert forall|h: int| 0 <= h < frames.len() implies (#[trigger] frames[h])@ == print_frame(
                    text,
                    row_colors@,
                    paths@,
                    h,
                ) by {
                    if h < f {
                        assert(frames[h] == earlier[h]);
                    }
                }
                done = done.push(rest[0]);
            }
            if i + 1 < count && terminal.characters()[i + 1].position.y != position.y {
                let path = &paths[g];
                let ghost base = done;
                let ghost back = Seq::new(path@.len(), |m: int| ((i + 1) as int, path@[m]));
                proof {
                    assert(base + back + head_track(cells, paths@, (i + 1) as int, (g + 1) as int) =~= track);
                }
                let mut s: usize = 0;
                while s < path.len()
                    invariant
                        s <= path.len(),
                        path@ == paths@[g as int]@,
                        back == Seq::new(path@.len(), |m: int| ((i + 1) as int, path@[m])),
                        base + back + head_track(cells, paths@, (i + 1) as int, (g + 1) as int) == track,
                        done == base + back.take(s as int),
                        text == input@,
                        cells == text_cells(rows),
                        rows == text_rows(text),
                        count == cells.len(),
                        terminal.wf(),
                        cleared(terminal@.canvas) == canvas0,
                        canvas0 == text_canvas(text),
                        terminal@.characters.len() == count + 1,
                        forall|j: int|
                            0 <= j < count ==> {
                                &&& (#[trigger] terminal@.characters[j]).position == cells[j].1
                                &&& terminal@.characters[j].symbol == cells[j].0
                                &&& terminal@.characters[j].input_symbol == cells[j].0
                                &&& terminal@.characters[j].style == foreground_only(row_colors@[cells[j].1.y as int])
                                &&& terminal@.characters[j].visible == (j < i + 1)
                            },
                        terminal@.characters[count as int].symbol == '█',
                        terminal@.characters[count as int].style == foreground_only(Color::Rgb { r: 0xff, g: 0xff, b: 0xff }),
                        terminal@.characters[count as int].visible,
                        track == head_track(cells, paths@, 0, 0),
                        frames.len() == done.len(),
                        done.len() >= 1,
                        forall|f: int|
                            0 <= f < frames.len() ==> (#[trigger] frames[f])@ == print_frame(text, row_colors@, paths@, f),
                    decreases path.len() - s,
                {
                    move_to(&mut terminal, count, path[s]);
                    let ghost shot = terminal@;
                    let ghost earlier = frames@;
                    snapshot(&mut terminal, &mut frames);
                    proof {
                        let f = done.len() as int;
                        let later = head_track(cells, paths@, (i + 1) as int, (g + 1) as int);
                        assert(done.len() == base.len() + s);
                        assert(track.len() == base.len() + back.len() + later.len());
                        assert(f < track.len());
                        assert(track[f] == back[s as int]) by {
                            assert((base + back + later)[f] == back[s as int]);
                        }
                        assert(track[f].0 == i + 1);
                        assert(track[f].1 == path@[s as int]);
                        lemma_print_shot(text, shot.characters, row_colors@, (i + 1) as int, path@[s as int]);
                        assert forall|h: int| 0 <= h < frames.len() implies (#[trigger] frames[h])@ == print_frame(
                            text,
                            row_colors@,
                            paths@,
                            h,
                        ) by {
                            if h < f {
                                assert(frames[h] == earlier[h]);
                            }
                        }
                        done = done.push(back[s as int]);
                        assert(done =~= base + back.take(s + 1));
                    }
                    s += 1;
                }
                proof {
                    assert(back.take(path@.len() as int) =~= back);
                }
                g += 1;
            }
            i += 1;
        }
        set_shown(&mut terminal, count, false);
        let ghost shot = terminal@;
        let ghost earlier = frames@;
        snapshot(&mut terminal, &mut frames);
        proof {
            assert(done =~= track);
            let shown = shot.characters.take(count as int);
            let expected = Seq::new(
                cells.len(),
                |j: int| print_character(cells[j], row_colors@[cells[j].1.y as int], true),
            );
            lemma_hidden_characters_draw_nothing(canvas0, shot.characters, count as int);
            assert forall|j: int| 0 <= j < shown.len() implies same_look(#[trigger] shown[j], expected[j]) by {
                assert(shown[j] == shot.characters[j]);
            }
            lemma_draw_all_looks(canvas0, shown, expected);
            let f = track.len() as int;
            assert forall|h: int| 0 <= h < frames.len() implies (#[trigger] frames[h])@ == print_frame(
                text,
                row_colors@,
                paths@,
                h,
            ) by {
                if h < f {
                    assert(frames[h] == earlier[h]);
                }
            }
            lemma_print_ends_in_row_colors(text, row_colors@, paths@);
            assert(frames@.last() == frames[frames.len() - 1]);
        }
        frames
    }

    pub fn new() -> (effect: Self)
        ensures
            effect == Print,
    {
        Print
    }

    pub fn name(&self) -> (name: &'static str)
        ensures
            name@ == "print"@,
    {
        "print"
    }
}

/// Whether character `i` is the last of its row with more characters after it.
pub open spec fn ends_row(cells: Seq<(char, Coord)>, i: int) -> bool {
    i + 1 < cells.len() && cells[i + 1].1.y != cells[i].1.y
}

/// The number of row ends from character `i` on: the paths the head makes from there.
pub open spec fn breaks_from(cells: Seq<(char, Coord)>, i: int) -> nat
    decreases cells.len() - i,
{
    if i < 0 || i >= cells.len() {
        0
    } else {
        (if ends_row(cells, i) {
            1nat
        } else {
            0nat
        }) + breaks_from(cells, i + 1)
    }
}

/// The frames from character `i` on, after `g` paths: how many characters show and where
/// the head stands. Each character is printed in a frame of its own with the head just
/// right of it; after the last character of a row that is not the last, the head paths
/// through the positions `paths[g]` gives, one frame each.
pub open spec fn head_track(cells: Seq<(char, Coord)>, paths: Seq<Vec<Coord>>, i: int, g: int) -> Seq<(int, Coord)>
    decreases cells.len() - i,
{
    if i < 0 || i >= cells.len() {
        Seq::empty()
    } else {
        let printed = Seq::empty().push((i + 1, Coord { x: (cells[i].1.x + 1) as i32, y: cells[i].1.y }));
        let back = if ends_row(cells, i) {
            Seq::new(paths[g]@.len(), |s: int| (i + 1, paths[g]@[s]))
        } else {
            Seq::empty()
        };
        printed + back + head_track(cells, paths, i + 1, if ends_row(cells, i) {
            g + 1
        } else {
            g
        })
    }
}

/// A character of the text in its row's colour, shown once printed.
pub open spec fn print_character(cell: (char, Coord), color: Color, printed: bool) -> EffectCharacter {
    EffectCharacter {
        id: CharacterId(0),
        input_symbol: cell.0,
        symbol: cell.0,
        position: cell.1,
        style: foreground_only(color),
        visible: printed,
        animation: arbitrary(),
    }
}

/// The print head at `position`.
pub open spec fn head_character(position: Coord) -> EffectCharacter {
    EffectCharacter {
        id: CharacterId(0),
        input_symbol: '█',
        symbol: '█',
        position,
        style: foreground_only(Color::Rgb { r: 0xff, g: 0xff, b: 0xff }),
        visible: true,
        animation: arbitrary(),
    }
}

/// Frame `f` of printing `text`, each row in its colour from `row_colors` and the head
/// returning through `paths`: the frames of the head's track, then the text alone.
pub open spec fn print_frame(text: Seq<char>, row_colors: Seq<Color>, paths: Seq<Vec<Coord>>, f: int) -> Seq<char> {
    let cells = text_cells(text_rows(text));
    let track = head_track(cells, paths, 0, 0);
    if f < track.len() {
        render_canvas(
            draw_all(
                text_canvas(text),
                Seq::new(
                    cells.len(),
                    |i: int| print_character(cells[i], row_colors[cells[i].1.y as int], i < track[f].0),
                ).push(head_character(track[f].1)),
            ),
        )
    } else {
        render_canvas(
            draw_all(
                text_canvas(text),
                Seq::new(cells.len(), |i: int| print_character(cells[i], row_colors[cells[i].1.y as int], true)),
            ),
        )
    }
}

/// Printing a text with characters ends with the text in its rows' colours: once the head
/// has gone, every character shows at its place in the colour `row_colors` gives its row,
/// whatever track the head took.
pub proof fn lemma_print_ends_in_row_colors(text: Seq<char>, row_colors: Seq<Color>, paths: Seq<Vec<Coord>>)
    requires
        text_cells(text_rows(text)).len() > 0,
    ensures
        print_frame(text, row_colors, paths, print_frame_count(text, paths) - 1) == row_colored_frame(text, row_colors),
{
    let cells = text_cells(text_rows(text));
    let printed = Seq::new(cells.len(), |i: int| print_character(cells[i], row_colors[cells[i].1.y as int], true));
    let settled = Seq::new(cells.len(), |i: int| lit_character(cells[i], foreground_only(row_colors[cells[i].1.y as int])));
    assert(printed =~= settled);
}

/// The number of frames: the head's track and the text alone; just the empty canvas when
/// the text has no character.
pub open spec fn print_frame_count(text: Seq<char>, paths: Seq<Vec<Coord>>) -> int {
    let cells = text_cells(text_rows(text));
    if cells.len() == 0 {
        1
    } else {
        head_track(cells, paths, 0, 0).len() + 1int
    }
}

/// Character `index` shown in `style`; nothing else changes.
fn restyle(terminal: &mut Terminal, index: usize, style: Style)
    requires
        old(terminal).wf(),
        index < old(terminal)@.characters.len(),
    ensures
        final(terminal).wf(),
        final(terminal)@.canvas == old(terminal)@.canvas,
        final(terminal)@.characters.len() == old(terminal)@.characters.len(),
        forall|j: int|
            0 <= j < old(terminal)@.characters.len() && j != index ==> #[trigger] final(terminal)@.characters[j]
                == old(terminal)@.characters[j],
        ({
            let before = old(terminal)@.characters[index as int];
            let after = final(terminal)@.characters[index as int];
            &&& after.style == style
            &&& after.symbol == before.symbol
            &&& after.visible == before.visible
            &&& after.position == before.position
            &&& after.input_symbol == before.input_symbol
        }),
{
    let ghost before = terminal@.characters;
    let characters = terminal.characters_mut();
    characters[index].set_style(style);
    proof {
        assert forall|j: int| 0 <= j < before.len() && j != index implies #[trigger] terminal@.characters[j]
            == before[j] by {}
    }
}

/// A frame of the head's track: the first `printed` characters shown in their rows'
/// colours, and the head at `position`.
proof fn lemma_print_shot(
    text: Seq<char>,
    characters: Seq<EffectCharacter>,
    row_colors: Seq<Color>,
    printed: int,
    position: Coord,
)
    requires
        characters.len() == text_cells(text_rows(text)).len() + 1,
        forall|j: int|
            0 <= j < text_cells(text_rows(text)).len() ==> {
                let cell = text_cells(text_rows(text))[j];
                &&& (#[trigger] characters[j]).position == cell.1
                &&& characters[j].symbol == cell.0
                &&& characters[j].style == foreground_only(row_colors[cell.1.y as int])
                &&& characters[j].visible == (j < printed)
            },
        same_look(characters[text_cells(text_rows(text)).len() as int], head_character(position)),
    ensures
        render_canvas(draw_all(text_canvas(text), characters)) == render_canvas(
            draw_all(
                text_canvas(text),
                Seq::new(
                    text_cells(text_rows(text)).len(),
                    |i: int|
                        print_character(
                            text_cells(text_rows(text))[i],
                            row_colors[text_cells(text_rows(text))[i].1.y as int],
                            i < printed,
                        ),
                ).push(head_character(position)),
            ),
        ),
{
    let cells = text_cells(text_rows(text));
    let expected = Seq::new(
        cells.len(),
        |i: int| print_character(cells[i], row_colors[cells[i].1.y as int], i < printed),
    ).push(head_character(position));
    assert forall|j: int| 0 <= j < characters.len() implies same_look(#[trigger] characters[j], expected[j]) by {}
    lemma_draw_all_looks(text_canvas(text), characters, expected);
}

} // verus!
