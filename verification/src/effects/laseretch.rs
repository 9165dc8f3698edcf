use vstd::prelude::*;

use crate::engine::canvas::{render_canvas, CanvasView};
use crate::engine::character::EffectCharacter;
use crate::engine::edit::{
    at_home, hide_range, lit_character, move_to, repaint, same_outside, same_places, set_shown,
    snapshot,
};
use crate::engine::terminal::{
    cleared, draw_all, frame_canvas, lemma_draw_all_looks, lemma_hidden_characters_draw_nothing,
    lemma_text_cells_in_grid, same_look, text_canvas, text_cells, Terminal,
};
use crate::utils::geometry::Coord;
use crate::utils::graphics::{foreground_only, plain_style, Color, Style};
use crate::utils::text::{is_white_space, lemma_rows_nonempty, text_grid, text_rows, white_space};

verus! {

/// A laser etches the text in, row by row, leaving cooling sparks.
pub struct Laseretch;

impl Laseretch {
    pub fn new() -> (effect: Self)
        ensures
            effect == Laseretch,
    {
        Laseretch
    }

    pub fn name(&self) -> (name: &'static str)
        ensures
            name@ == "laseretch"@,
    {
        "laseretch"
    }
}

impl Default for Laseretch {
    fn default() -> (effect: Self)
        ensures
            effect == Laseretch,
    {
        Self::new()
    }
}

/// The number of frames an etched character takes to cool down.
pub open spec fn cooling_frames() -> u32 {
    12
}

/// An etched character cooling down: the character, its symbol, its row and how many
/// frames it has cooled.
#[derive(Clone, Copy)]
pub struct Cooling {
    pub index: usize,
    pub symbol: char,
    pub row: usize,
    pub age: u32,
}

/// Whether `entry` is a character of the text that is not white space, cooling, with its
/// symbol and row, younger than the cooling time.
spec fn cooling_ok(entry: Cooling, cells: Seq<(char, Coord)>) -> bool {
    &&& entry.index < cells.len()
    &&& !white_space(cells[entry.index as int].0)
    &&& entry.symbol == cells[entry.index as int].0
    &&& entry.row == cells[entry.index as int].1.y
    &&& entry.age < cooling_frames()
}

/// Whether the characters of the text that are white space are shown as they came in.
pub open spec fn blanks_kept(characters: Seq<EffectCharacter>, cells: Seq<(char, Coord)>) -> bool {
    forall|i: int|
        0 <= i < cells.len() && white_space(cells[i].0) ==> {
            &&& (#[trigger] characters[i]).visible
            &&& characters[i].symbol == cells[i].0
            &&& characters[i].style == plain_style()
        }
}

/// Whether `after` differs from `before` only in the looks of characters of the text that
/// are not white space, and in characters after the text.
pub open spec fn text_places_kept(
    before: Seq<EffectCharacter>,
    after: Seq<EffectCharacter>,
    cells: Seq<(char, Coord)>,
) -> bool {
    &&& after.len() == before.len()
    &&& same_places(before, after, cells.len() as int)
    &&& forall|i: int|
        0 <= i < cells.len() && white_space(cells[i].0) ==> #[trigger] after[i] == before[i]
}

/// Whether every one of the first `count` characters shown in `before` is still shown in
/// `after`.
spec fn shown_kept(before: Seq<EffectCharacter>, after: Seq<EffectCharacter>, count: int) -> bool {
    &&& after.len() == before.len()
    &&& count <= before.len()
    &&& forall|i: int| 0 <= i < count && before[i].visible ==> (#[trigger] after[i]).visible
}

/// Whether `characters` look exactly like `model`: each shown or hidden alike, at the same
/// place, with the same symbol and style.
pub open spec fn looks_as(characters: Seq<EffectCharacter>, model: Seq<EffectCharacter>) -> bool {
    &&& characters.len() == model.len()
    &&& forall|i: int| 0 <= i < characters.len() ==> same_look(#[trigger] characters[i], model[i])
}

/// The style of a character cooling in row `row` at age `age`: the colour for that age from
/// `colors` (twelve per row), bold while young.
pub open spec fn cooling_style(colors: Seq<Color>, row: int, age: int) -> Style {
    Style { bold: age < 6, ..foreground_only(colors[row * 12 + age - 1]) }
}

/// One frame of cooling over the first `n` entries of `cooling`, in order: each shows its
/// symbol in the colour for its new age, and stays in the list while younger than twelve.
/// Returns the characters and the entries that stay.
pub open spec fn cool_fold(
    model: Seq<EffectCharacter>,
    cooling: Seq<Cooling>,
    colors: Seq<Color>,
    n: nat,
) -> (Seq<EffectCharacter>, Seq<Cooling>)
    decreases n,
{
    if n == 0 {
        (model, Seq::empty())
    } else {
        let (before, kept) = cool_fold(model, cooling, colors, (n - 1) as nat);
        let entry = cooling[n - 1];
        let age = entry.age + 1;
        let shown = before.update(
            entry.index as int,
            EffectCharacter {
                visible: true,
                symbol: entry.symbol,
                style: cooling_style(colors, entry.row as int, age),
                ..before[entry.index as int]
            },
        );
        if age >= 12 {
            (shown, kept)
        } else {
            (shown, kept.push(Cooling { age: age as u32, ..entry }))
        }
    }
}

/// One frame of cooling over the whole list.
pub open spec fn cool(model: Seq<EffectCharacter>, cooling: Seq<Cooling>, colors: Seq<Color>) -> (Seq<EffectCharacter>, Seq<Cooling>) {
    cool_fold(model, cooling, colors, cooling.len())
}

/// One frame of cooling: every cooling character shows in the colour for its new age from
/// `cooling_colors` (twelve per row), bold while young, and leaves the list once cooled.
/// Every age goes up by one, so ages of at least `floor` become ages of at least
/// `floor + 1`.
fn advance_cooling(
    terminal: &mut Terminal,
    cooling: &mut Vec<Cooling>,
    cooling_colors: &Vec<Color>,
    Ghost(cells): Ghost<Seq<(char, Coord)>>,
    Ghost(floor): Ghost<int>,
    Ghost(model): Ghost<Seq<EffectCharacter>>,
)
    requires
        looks_as(old(terminal)@.characters, model),
        old(terminal).wf(),
        cells.len() <= old(terminal)@.characters.len(),
        forall|j: int| 0 <= j < old(cooling).len() ==> cooling_ok(#[trigger] old(cooling)@[j], cells),
        forall|j: int|
            0 <= j < old(cooling).len() ==> (#[trigger] old(cooling)@[j]).row * 12 + 12 <= cooling_colors.len(),
        forall|j: int| 0 <= j < old(cooling).len() ==> (#[trigger] old(cooling)@[j]).age >= floor,
    ensures
        final(terminal).wf(),
        final(terminal)@.canvas == old(terminal)@.canvas,
        final(terminal)@.next_id == old(terminal)@.next_id,
        text_places_kept(old(terminal)@.characters, final(terminal)@.characters, cells),
        forall|i: int|
            cells.len() <= i < old(terminal)@.characters.len() ==> #[trigger] final(terminal)@.characters[i]
                == old(terminal)@.characters[i],
        forall|j: int| 0 <= j < final(cooling).len() ==> cooling_ok(#[trigger] final(cooling)@[j], cells),
        forall|j: int|
            0 <= j < final(cooling).len() ==> (#[trigger] final(cooling)@[j]).row * 12 + 12 <= cooling_colors.len(),
        forall|j: int| 0 <= j < final(cooling).len() ==> (#[trigger] final(cooling)@[j]).age >= floor + 1,
        shown_kept(old(terminal)@.characters, final(terminal)@.characters, cells.len() as int),
        old(cooling).len() > 0 && old(cooling)@.last().age + 1 < cooling_frames() ==> {
            &&& final(cooling).len() > 0
            &&& final(cooling)@.last() == (Cooling { age: (old(cooling)@.last().age + 1) as u32, ..old(cooling)@.last() })
        },
        looks_as(final(terminal)@.characters, cool(model, old(cooling)@, cooling_colors@).0),
        final(cooling)@ == cool(model, old(cooling)@, cooling_colors@).1,
{
    let ghost last = old(cooling)@.last();
    let ghost mut done: nat = 0;
    let ghost keeps = old(cooling).len() > 0 && last.age + 1 < 12;
    let mut index: usize = 0;
    while index < cooling.len()
        invariant
            index <= cooling.len(),
            terminal.wf(),
            terminal@.canvas == old(terminal)@.canvas,
            terminal@.next_id == old(terminal)@.next_id,
            cells.len() <= terminal@.characters.len(),
            text_places_kept(old(terminal)@.characters, terminal@.characters, cells),
            forall|i: int|
                cells.len() <= i < old(terminal)@.characters.len() ==> #[trigger] terminal@.characters[i]
                    == old(terminal)@.characters[i],
            forall|j: int| 0 <= j < cooling.len() ==> cooling_ok(#[trigger] cooling@[j], cells),
            forall|j: int| 0 <= j < cooling.len() ==> (#[trigger] cooling@[j]).row * 12 + 12 <= cooling_colors.len(),
            forall|j: int| 0 <= j < index ==> (#[trigger] cooling@[j]).age >= floor + 1,
            forall|j: int| index <= j < cooling.len() ==> (#[trigger] cooling@[j]).age >= floor,
            shown_kept(old(terminal)@.characters, terminal@.characters, cells.len() as int),
            keeps == (old(cooling).len() > 0 && last.age + 1 < 12),
            keeps ==> cooling.len() > 0,
            keeps && index < cooling.len() ==> cooling@.last() == last,
            keeps && index >= cooling.len() ==> cooling@.last() == (Cooling { age: (last.age + 1) as u32, ..last }),
            done <= old(cooling).len(),
            index == cool_fold(model, old(cooling)@, cooling_colors@, done).1.len(),
            cooling@ == cool_fold(model, old(cooling)@, cooling_colors@, done).1 + old(cooling)@.subrange(
                done as int,
                old(cooling).len() as int,
            ),
            looks_as(terminal@.characters, cool_fold(model, old(cooling)@, cooling_colors@, done).0),
            (index < cooling.len()) == (done < old(cooling).len()),
        decreases cooling.len() - index,
    {
        let ghost folded = cool_fold(model, old(cooling)@, cooling_colors@, done);
        proof {
            assert(cooling@[index as int] == old(cooling)@[done as int]);
        }
        let entry = cooling[index];
        let age = entry.age + 1;
        let color = cooling_colors[entry.row * 12 + (age - 1) as usize];
        let mut style = Style::default().with_foreground(color);
        style.bold = age < 6;
        let ghost before = terminal@.characters;
        set_shown(terminal, entry.index, true);
        repaint(terminal, entry.index, entry.symbol, style);
        proof {
            assert forall|i: int| 0 <= i < cells.len() && white_space(cells[i].0) implies #[trigger] terminal@.characters[i]
                == before[i] by {}
        }
        let ghost kept = cooling@;
        proof {
            let next = cool_fold(model, old(cooling)@, cooling_colors@, (done + 1) as nat).0;
            assert(style == cooling_style(cooling_colors@, entry.row as int, age as int));
            assert forall|i: int| 0 <= i < terminal@.characters.len() implies same_look(
                #[trigger] terminal@.characters[i],
                next[i],
            ) by {
                if i != entry.index as int {
                    assert(terminal@.characters[i] == before[i]);
                }
            }
        }
        if age >= 12 {
            cooling.remove(index);
            proof {
                assert forall|j: int| index <= j < cooling.len() implies (#[trigger] cooling@[j]).age >= floor by {
                    assert(cooling@[j] == kept[j + 1]);
                }
                if keeps {
                    if index == kept.len() - 1 {
                        assert(kept[index as int] == kept.last());
                        assert(false);
                    }
                    assert(index < kept.len() - 1);
                    assert(cooling@.last() == kept[kept.len() - 1]);
                }
                done = done + 1;
                assert(cooling@ =~= cool_fold(model, old(cooling)@, cooling_colors@, done).1 + old(cooling)@.subrange(
                    done as int,
                    old(cooling).len() as int,
                ));
            }
        } else {
            cooling.set(index, Cooling { age, ..entry });
            index += 1;
            proof {
                done = done + 1;
                assert(cooling@ =~= cool_fold(model, old(cooling)@, cooling_colors@, done).1 + old(cooling)@.subrange(
                    done as int,
                    old(cooling).len() as int,
                ));
            }
        }
    }
}

/// Character `index` shown in `style`, keeping its symbol; nothing else changes.
fn restyle(terminal: &mut Terminal, index: usize, style: Style)
    requires
        old(terminal).wf(),
        index < old(terminal)@.characters.len(),
    ensures
        final(terminal).wf(),
        final(terminal)@.canvas == old(terminal)@.canvas,
        final(terminal)@.next_id == old(terminal)@.next_id,
        same_outside(old(terminal)@.characters, final(terminal)@.characters, index as int, index + 1),
        ({
            let before = old(terminal)@.characters[index as int];
            let after = final(terminal)@.characters[index as int];
            &&& after.style == style
            &&& after.symbol == before.symbol
            &&& after.visible == before.visible
            &&& after.position == before.position
            &&& after.input_symbol == before.input_symbol
        }),
{
    let ghost before = terminal@.characters;
    let characters = terminal.characters_mut();
    characters[index].set_style(style);
    proof {
        assert forall|i: int| 0 <= i < before.len() && i != index implies #[trigger] terminal@.characters[i]
            == before[i] by {}
    }
}

/// The laser at column `x` of row `row`: the beam (characters `first..first + width`) lies
/// along the row right of `x`, and the head (character `first + width`) stands at `x`.
fn place_laser(
    terminal: &mut Terminal,
    first: usize,
    width: usize,
    x: i32,
    row: i32,
    Ghost(model): Ghost<Seq<EffectCharacter>>,
)
    requires
        looks_as(old(terminal)@.characters, model),
        old(terminal).wf(),
        first + width + 1 <= old(terminal)@.characters.len(),
        width <= i32::MAX,
    ensures
        final(terminal).wf(),
        final(terminal)@.canvas == old(terminal)@.canvas,
        final(terminal)@.next_id == old(terminal)@.next_id,
        same_outside(old(terminal)@.characters, final(terminal)@.characters, first as int, first + width + 1),
        forall|j: int|
            0 <= j < width ==> #[trigger] final(terminal)@.characters[first + j] == (EffectCharacter {
                position: Coord { x: j as i32, y: row },
                visible: j > x,
                ..old(terminal)@.characters[first + j]
            }),
        final(terminal)@.characters[first + width] == (EffectCharacter {
            position: Coord { x, y: row },
            visible: true,
            ..old(terminal)@.characters[first + width]
        }),
        looks_as(final(terminal)@.characters, lasered(model, first as int, width as int, x as int, row as int)),
{
    let total = terminal.characters().len();
    let mut j: usize = 0;
    while j < width
        invariant
            j <= width,
            width <= i32::MAX,
            first + width + 1 <= total,
            total == terminal@.characters.len(),
            terminal.wf(),
            terminal@.canvas == old(terminal)@.canvas,
            terminal@.next_id == old(terminal)@.next_id,
            same_outside(old(terminal)@.characters, terminal@.characters, first as int, first + width + 1),
            forall|m: int|
                0 <= m < j ==> #[trigger] terminal@.characters[first + m] == (EffectCharacter {
                    position: Coord { x: m as i32, y: row },
                    visible: m > x,
                    ..old(terminal)@.characters[first + m]
                }),
            forall|m: int| j <= m <= width ==> #[trigger] terminal@.characters[first + m] == old(terminal)@.characters[first + m],
        decreases width - j,
    {
        let ghost before = terminal@.characters;
        move_to(terminal, first + j, Coord::new(j as i32, row));
        set_shown(terminal, first + j, j as i32 > x);
        proof {
            assert forall|m: int| 0 <= m <= width && m != j implies #[trigger] terminal@.characters[first + m]
                == before[first + m] by {}
        }
        j += 1;
    }
    let ghost before = terminal@.characters;
    move_to(terminal, first + width, Coord::new(x, row));
    set_shown(terminal, first + width, true);
    proof {
        assert forall|m: int| 0 <= m < width implies #[trigger] terminal@.characters[first + m]
            == before[first + m] by {}
        let laid = lasered(model, first as int, width as int, x as int, row as int);
        assert forall|i: int| 0 <= i < terminal@.characters.len() implies same_look(
            #[trigger] terminal@.characters[i],
            laid[i],
        ) by {
            assert(same_look(old(terminal)@.characters[i], model[i]));
            if first <= i < first + width {
                let m = i - first;
                assert(terminal@.characters[first + m] == before[first + m]);
            }
        }
    }
}

/// Where spark `k` stands around `origin`: above, right, below and left of it in phase
/// zero; at the four diagonals in the other phase.
pub open spec fn spark_position(origin: Coord, phase: int, k: int) -> Coord {
    let (dx, dy) = if phase == 0 {
        if k == 0 {
            (0, -1)
        } else if k == 1 {
            (1, 0)
        } else if k == 2 {
            (0, 1)
        } else {
            (-1, 0)
        }
    } else {
        if k == 0 {
            (-1, -1)
        } else if k == 1 {
            (1, -1)
        } else if k == 2 {
            (1, 1)
        } else {
            (-1, 1)
        }
    };
    Coord { x: (origin.x + dx) as i32, y: (origin.y + dy) as i32 }
}

/// The look of spark `k`: white, yellow, orange and red, the first two bold.
pub open spec fn spark_style(k: int) -> Style {
    let color = if k == 0 {
        Color::Rgb { r: 255, g: 255, b: 255 }
    } else if k == 1 {
        Color::Rgb { r: 255, g: 255, b: 0 }
    } else if k == 2 {
        Color::Rgb { r: 255, g: 128, b: 0 }
    } else {
        Color::Rgb { r: 255, g: 32, b: 0 }
    };
    Style { bold: k < 2, ..foreground_only(color) }
}

/// The four sparks (characters `first..first + 4`) around `origin`: beside it in phase
/// zero, diagonally in the other phase; each shows only where it falls on the canvas.
fn place_sparks(
    terminal: &mut Terminal,
    first: usize,
    origin: Coord,
    phase: usize,
    width: usize,
    height: usize,
    Ghost(model): Ghost<Seq<EffectCharacter>>,
)
    requires
        looks_as(old(terminal)@.characters, model),
        old(terminal).wf(),
        first + 4 <= old(terminal)@.characters.len(),
        0 <= origin.x < width <= i32::MAX,
        0 <= origin.y < height <= i32::MAX,
    ensures
        final(terminal).wf(),
        final(terminal)@.canvas == old(terminal)@.canvas,
        final(terminal)@.next_id == old(terminal)@.next_id,
        same_outside(old(terminal)@.characters, final(terminal)@.characters, first as int, first + 4),
        forall|k: int|
            0 <= k < 4 ==> {
                let before = old(terminal)@.characters[first + k];
                let after = #[trigger] final(terminal)@.characters[first + k];
                let at = spark_position(origin, phase as int, k);
                &&& after.position == at
                &&& after.visible == (0 <= at.x < width && 0 <= at.y < height)
                &&& after.style == spark_style(k)
                &&& after.symbol == before.symbol
                &&& after.input_symbol == before.input_symbol
            },
        looks_as(
            final(terminal)@.characters,
            sparked(model, first as int, origin, phase as int, width as int, height as int),
        ),
{
    let total = terminal.characters().len();
    let mut k: usize = 0;
    while k < 4
        invariant
            k <= 4,
            first + 4 <= total,
            total == terminal@.characters.len(),
            0 <= origin.x < width <= i32::MAX,
            0 <= origin.y < height <= i32::MAX,
            terminal.wf(),
            terminal@.canvas == old(terminal)@.canvas,
            terminal@.next_id == old(terminal)@.next_id,
            same_outside(old(terminal)@.characters, terminal@.characters, first as int, first + 4),
            forall|m: int|
                0 <= m < k ==> {
                    let before = old(terminal)@.characters[first + m];
                    let after = #[trigger] terminal@.characters[first + m];
                    let at = spark_position(origin, phase as int, m);
                    &&& after.position == at
                    &&& after.visible == (0 <= at.x < width && 0 <= at.y < height)
                    &&& after.style == spark_style(m)
                    &&& after.symbol == before.symbol
                    &&& after.input_symbol == before.input_symbol
                },
            forall|m: int| k <= m < 4 ==> #[trigger] terminal@.characters[first + m] == old(terminal)@.characters[first + m],
        decreases 4 - k,
    {
        let ghost before = terminal@.characters;
        let (dx, dy): (i32, i32) = if phase == 0 {
            if k == 0 {
                (0, -1)
            } else if k == 1 {
                (1, 0)
            } else if k == 2 {
                (0, 1)
            } else {
                (-1, 0)
            }
        } else {
            if k == 0 {
                (-1, -1)
            } else if k == 1 {
                (1, -1)
            } else if k == 2 {
                (1, 1)
            } else {
                (-1, 1)
            }
        };
        let color = if k == 0 {
            Color::rgb(255, 255, 255)
        } else if k == 1 {
            Color::rgb(255, 255, 0)
        } else if k == 2 {
            Color::rgb(255, 128, 0)
        } else {
            Color::rgb(255, 32, 0)
        };
        let coord = Coord::new(origin.x + dx, origin.y + dy);
        let shown = coord.x >= 0 && coord.y >= 0 && coord.x < width as i32 && coord.y < height as i32;
        let mut style = Style::default();
        style.bold = k < 2;
        let style = style.with_foreground(color);
        move_to(terminal, first + k, coord);
        set_shown(terminal, first + k, shown);
        restyle(terminal, first + k, style);
        proof {
            assert(style == spark_style(k as int));
            assert forall|m: int| 0 <= m < 4 && m != k implies #[trigger] terminal@.characters[first + m]
                == before[first + m] by {}
        }
        k += 1;
    }
    proof {
        let lit = sparked(model, first as int, origin, phase as int, width as int, height as int);
        assert forall|i: int| 0 <= i < terminal@.characters.len() implies same_look(
            #[trigger] terminal@.characters[i],
            lit[i],
        ) by {
            assert(same_look(old(terminal)@.characters[i], model[i]));
            if first <= i < first + 4 {
                let m = i - first;
                assert(terminal@.characters[first + m] == terminal@.characters[i]);
            }
        }
    }
}

/// The characters with those at `lo..hi` hidden.
pub open spec fn hidden(chars: Seq<EffectCharacter>, lo: int, hi: int) -> Seq<EffectCharacter> {
    Seq::new(
        chars.len(),
        |i: int|
            if lo <= i < hi {
                EffectCharacter { visible: false, ..chars[i] }
            } else {
                chars[i]
            },
    )
}

/// The characters with the laser at column `x` of `row`: the beam (characters
/// `first..first + width`) along the row, shown right of `x`, and the head (character
/// `first + width`) shown at `x`.
pub open spec fn lasered(chars: Seq<EffectCharacter>, first: int, width: int, x: int, row: int) -> Seq<EffectCharacter> {
    Seq::new(
        chars.len(),
        |i: int|
            if first <= i < first + width {
                EffectCharacter {
                    position: Coord { x: (i - first) as i32, y: row as i32 },
                    visible: i - first > x,
                    ..chars[i]
                }
            } else if i == first + width {
                EffectCharacter { position: Coord { x: x as i32, y: row as i32 }, visible: true, ..chars[i] }
            } else {
                chars[i]
            },
    )
}

/// The characters with the four sparks (characters `first..first + 4`) around `origin` in
/// `phase`, each shown where it falls on a `width` by `height` canvas.
pub open spec fn sparked(
    chars: Seq<EffectCharacter>,
    first: int,
    origin: Coord,
    phase: int,
    width: int,
    height: int,
) -> Seq<EffectCharacter> {
    Seq::new(
        chars.len(),
        |i: int|
            if first <= i < first + 4 {
                EffectCharacter {
                    position: spark_position(origin, phase, i - first),
                    visible: 0 <= spark_position(origin, phase, i - first).x < width && 0
                        <= spark_position(origin, phase, i - first).y < height,
                    style: spark_style(i - first),
                    ..chars[i]
                }
            } else {
                chars[i]
            },
    )
}

/// How a character looks the moment the laser etches it: bold white.
pub open spec fn white_hot() -> Style {
    Style { bold: true, ..foreground_only(Color::Rgb { r: 255, g: 255, b: 255 }) }
}

/// The characters with character `t` of the text etched: shown, with its symbol, white hot.
pub open spec fn lit_white(chars: Seq<EffectCharacter>, cells: Seq<(char, Coord)>, t: int) -> Seq<EffectCharacter> {
    chars.update(t, EffectCharacter { visible: true, symbol: cells[t].0, style: white_hot(), ..chars[t] })
}

/// The first entry of `originals` from the `j`th on whose character stands at `here`.
pub open spec fn target_at(originals: Seq<usize>, cells: Seq<(char, Coord)>, here: Coord, j: int) -> Option<usize>
    decreases originals.len() - j,
{
    if j < 0 || j >= originals.len() {
        None
    } else if cells[originals[j] as int].1 == here {
        Some(originals[j])
    } else {
        target_at(originals, cells, here, j + 1)
    }
}

/// The etching as it goes: the characters, the cooling list and the frames made so far.
pub struct Etching {
    pub chars: Seq<EffectCharacter>,
    pub cooling: Seq<Cooling>,
    pub frames: Seq<Seq<char>>,
}

/// One more frame: the characters drawn on `canvas`.
pub open spec fn shot(canvas: CanvasView, st: Etching) -> Etching {
    Etching { frames: st.frames.push(render_canvas(draw_all(canvas, st.chars))), ..st }
}

/// One step of cooling.
pub open spec fn cooled(st: Etching, colors: Seq<Color>) -> Etching {
    Etching { chars: cool(st.chars, st.cooling, colors).0, cooling: cool(st.chars, st.cooling, colors).1, ..st }
}

/// The laser at column `x` of `row` (the beam at character `cells.len()` on, the sparks
/// after the head): the cooling steps, the sparks go out and the laser moves there; where
/// a character of `originals` stands, it is etched white hot, starts cooling, and two
/// frames follow with the sparks beside it and then, after a step of cooling, diagonally
/// around it; elsewhere one frame follows.
pub open spec fn etch_column(
    st: Etching,
    canvas: CanvasView,
    originals: Seq<usize>,
    cells: Seq<(char, Coord)>,
    colors: Seq<Color>,
    width: int,
    height: int,
    row: int,
    x: int,
) -> Etching {
    let sparks = cells.len() + width + 1;
    let warm = cooled(st, colors);
    let here = Coord { x: x as i32, y: row as i32 };
    let aimed = lasered(hidden(warm.chars, sparks, sparks + 4), cells.len() as int, width, x, row);
    match target_at(originals, cells, here, 0) {
        Some(t) => {
            let lit = Etching {
                chars: sparked(lit_white(aimed, cells, t as int), sparks, here, 0, width, height),
                cooling: warm.cooling.push(Cooling { index: t, symbol: cells[t as int].0, row: row as usize, age: 0 }),
                ..warm
            };
            let next = cooled(shot(canvas, lit), colors);
            shot(canvas, Etching { chars: sparked(next.chars, sparks, here, 1, width, height), ..next })
        },
        None => shot(canvas, Etching { chars: aimed, ..warm }),
    }
}

/// The laser over the columns of `row` from `x` down to `leftmost`.
pub open spec fn etch_sweep(
    st: Etching,
    canvas: CanvasView,
    originals: Seq<usize>,
    cells: Seq<(char, Coord)>,
    colors: Seq<Color>,
    width: int,
    height: int,
    row: int,
    leftmost: int,
    x: int,
) -> Etching
    decreases x + 1 - leftmost,
{
    if x < leftmost {
        st
    } else {
        etch_sweep(
            etch_column(st, canvas, originals, cells, colors, width, height, row, x),
            canvas,
            originals,
            cells,
            colors,
            width,
            height,
            row,
            leftmost,
            x - 1,
        )
    }
}

/// The etching of `row`: nothing when no character of `originals` stands in it; else the
/// laser from the right edge to the first such character, then the laser, head and sparks
/// go out, a step of cooling, and one more frame.
pub open spec fn etch_row_spec(
    st: Etching,
    canvas: CanvasView,
    originals: Seq<usize>,
    cells: Seq<(char, Coord)>,
    colors: Seq<Color>,
    width: int,
    height: int,
    row: int,
) -> Etching {
    let leftmost = first_mark(originals, cells, row, width, 0);
    if leftmost >= width {
        st
    } else {
        let swept = etch_sweep(st, canvas, originals, cells, colors, width, height, row, leftmost, width - 1);
        shot(
            canvas,
            cooled(Etching { chars: hidden(swept.chars, cells.len() as int, cells.len() + width + 5), ..swept }, colors),
        )
    }
}

/// The etching of the first `rows` rows.
pub open spec fn etch_rows(
    st: Etching,
    canvas: CanvasView,
    originals: Seq<usize>,
    cells: Seq<(char, Coord)>,
    colors: Seq<Color>,
    width: int,
    height: int,
    rows: nat,
) -> Etching
    decreases rows,
{
    if rows == 0 {
        st
    } else {
        etch_row_spec(
            etch_rows(st, canvas, originals, cells, colors, width, height, (rows - 1) as nat),
            canvas,
            originals,
            cells,
            colors,
            width,
            height,
            rows - 1,
        )
    }
}

/// Up to `n` steps of cooling, a frame after each, while anything is still cooling.
pub open spec fn cool_rounds(st: Etching, canvas: CanvasView, colors: Seq<Color>, n: nat) -> Etching
    decreases n,
{
    if n == 0 || st.cooling.len() == 0 {
        st
    } else {
        cool_rounds(shot(canvas, cooled(st, colors)), canvas, colors, (n - 1) as nat)
    }
}

/// The symbol of spark `k`.
pub open spec fn spark_symbol(k: int) -> char {
    if k == 0 {
        '*'
    } else if k == 1 {
        '+'
    } else if k == 2 {
        '·'
    } else {
        '•'
    }
}

/// The characters before the first row is etched: the text, with every character that
/// is not white space hidden; then, hidden, the beam (one per column, bold in
/// `laser_colors`), the head and the four sparks.
pub open spec fn laser_setup(cells: Seq<(char, Coord)>, width: int, laser_colors: Seq<Color>) -> Seq<EffectCharacter> {
    Seq::new(
        (cells.len() + width + 5) as nat,
        |i: int|
            if i < cells.len() {
                EffectCharacter { visible: white_space(cells[i].0), ..lit_character(cells[i], plain_style()) }
            } else if i < cells.len() + width {
                EffectCharacter {
                    visible: false,
                    ..lit_character(
                        ('━', Coord { x: (i - cells.len()) as i32, y: 0 }),
                        Style { bold: true, ..foreground_only(laser_colors[i - cells.len()]) },
                    )
                }
            } else if i == cells.len() + width {
                EffectCharacter {
                    visible: false,
                    ..lit_character(
                        ('█', Coord { x: 0, y: 0 }),
                        Style { bold: true, ..foreground_only(Color::Rgb { r: 255, g: 255, b: 180 }) },
                    )
                }
            } else {
                EffectCharacter {
                    visible: false,
                    ..lit_character((spark_symbol(i - cells.len() - width - 1), Coord { x: 0, y: 0 }), plain_style())
                }
            },
    )
}

/// The frames once the laser, head and sparks are in place: every row etched, the laser
/// off while the rest cools, and last the etched text unless the frame before shows it.
pub open spec fn after_setup_frames(
    text: Seq<char>,
    originals: Seq<usize>,
    laser_colors: Seq<Color>,
    row_colors: Seq<Color>,
    cooling_colors: Seq<Color>,
) -> Seq<Seq<char>> {
    let cells = text_cells(text_rows(text));
    let width = text_grid(text).0 as int;
    let height = text_grid(text).1;
    let canvas = text_canvas(text);
    let start = Etching { chars: laser_setup(cells, width, laser_colors), cooling: Seq::empty(), frames: Seq::empty() };
    let swept = etch_rows(start, canvas, originals, cells, cooling_colors, width, height as int, height);
    let done = cool_rounds(
        Etching { chars: hidden(swept.chars, cells.len() as int, swept.chars.len() as int), ..swept },
        canvas,
        cooling_colors,
        12,
    );
    let last = etched_frame(text, row_colors);
    if done.frames.len() > 0 && done.frames.last() == last {
        done.frames
    } else {
        done.frames.push(last)
    }
}

/// Every frame of the etching of `text`: the etched text alone when it holds nothing but
/// white space, else the frames of the laser over the characters that are not.
pub open spec fn etching_frames(
    text: Seq<char>,
    laser_colors: Seq<Color>,
    row_colors: Seq<Color>,
    cooling_colors: Seq<Color>,
) -> Seq<Seq<char>> {
    let cells = text_cells(text_rows(text));
    let originals = etched_indices(cells, cells.len());
    if originals.len() == 0 {
        seq![etched_frame(text, row_colors)]
    } else {
        after_setup_frames(text, originals, laser_colors, row_colors, cooling_colors)
    }
}

/// Whether the frames show `views`, one for one.
pub open spec fn frames_are(frames: Seq<String>, views: Seq<Seq<char>>) -> bool {
    &&& frames.len() == views.len()
    &&& forall|f: int| 0 <= f < frames.len() ==> (#[trigger] frames[f])@ == views[f]
}

/// Hiding characters `lo..hi` of characters that look like `model` makes them look like
/// `model` with those hidden.
proof fn lemma_hidden_looks(before: Seq<EffectCharacter>, after: Seq<EffectCharacter>, model: Seq<EffectCharacter>, lo: int, hi: int)
    requires
        looks_as(before, model),
        after.len() == before.len(),
        forall|i: int|
            0 <= i < before.len() ==> #[trigger] after[i] == if lo <= i < hi {
                EffectCharacter { visible: false, ..before[i] }
            } else {
                before[i]
            },
    ensures
        looks_as(after, hidden(model, lo, hi)),
{
    assert forall|i: int| 0 <= i < after.len() implies same_look(#[trigger] after[i], hidden(model, lo, hi)[i]) by {
        assert(same_look(before[i], model[i]));
    }
}

/// Renders a frame of characters that look like `st.chars` on a terminal whose cleared
/// canvas is `canvas`, and keeps it: the frames then show those of `shot(canvas, st)`.
fn snap(terminal: &mut Terminal, frames: &mut Vec<String>, Ghost(st): Ghost<Etching>, Ghost(canvas): Ghost<CanvasView>)
    requires
        old(terminal).wf(),
        looks_as(old(terminal)@.characters, st.chars),
        cleared(old(terminal)@.canvas) == canvas,
        canvas.cells.len() == canvas.width * canvas.height,
        frames_are(old(frames)@, st.frames),
    ensures
        final(terminal).wf(),
        final(terminal)@.characters == old(terminal)@.characters,
        final(terminal)@.next_id == old(terminal)@.next_id,
        cleared(final(terminal)@.canvas) == cleared(old(terminal)@.canvas),
        final(frames)@.len() == old(frames)@.len() + 1,
        forall|f: int| 0 <= f < old(frames)@.len() ==> #[trigger] final(frames)@[f] == old(frames)@[f],
        final(frames)@.last()@ == render_canvas(frame_canvas(old(terminal)@)),
        frames_are(final(frames)@, shot(canvas, st).frames),
{
    let ghost chars = terminal@.characters;
    snapshot(terminal, frames);
    proof {
        assert forall|i: int| 0 <= i < chars.len() implies same_look(#[trigger] chars[i], st.chars[i]) by {}
        lemma_draw_all_looks(canvas, chars, st.chars);
        assert forall|f: int| 0 <= f < frames@.len() implies (#[trigger] frames@[f])@ == shot(canvas, st).frames[f] by {
            if f < old(frames)@.len() {
                assert(frames@[f] == old(frames)@[f]);
            }
        }
    }
}

/// The style of an etched character of the text once it has cooled: white space stays
/// plain, the rest takes its row's colour.
pub open spec fn etched_style(symbol: char, color: Color) -> Style {
    if white_space(symbol) {
        plain_style()
    } else {
        foreground_only(color)
    }
}

/// The text once etched; `row_colors` holds the colour of each row.
pub open spec fn etched_frame(text: Seq<char>, row_colors: Seq<Color>) -> Seq<char> {
    let cells = text_cells(text_rows(text));
    render_canvas(
        draw_all(
            text_canvas(text),
            Seq::new(
                cells.len(),
                |i: int| lit_character(cells[i], etched_style(cells[i].0, row_colors[cells[i].1.y as int])),
            ),
        ),
    )
}

/// Drawing the text's characters each in its etched style at its place, with every later
/// character hidden, shows the etched text.
proof fn lemma_etched(text: Seq<char>, characters: Seq<EffectCharacter>, row_colors: Seq<Color>)
    requires
        characters.len() >= text_cells(text_rows(text)).len(),
        forall|i: int|
            0 <= i < text_cells(text_rows(text)).len() ==> same_look(
                #[trigger] characters[i],
                lit_character(
                    text_cells(text_rows(text))[i],
                    etched_style(
                        text_cells(text_rows(text))[i].0,
                        row_colors[text_cells(text_rows(text))[i].1.y as int],
                    ),
                ),
            ),
        forall|i: int|
            text_cells(text_rows(text)).len() <= i < characters.len() ==> !(#[trigger] characters[i]).visible,
    ensures
        render_canvas(draw_all(text_canvas(text), characters)) == etched_frame(text, row_colors),
{
    let cells = text_cells(text_rows(text));
    let canvas = text_canvas(text);
    let shown = characters.take(cells.len() as int);
    let expected = Seq::new(
        cells.len(),
        |i: int| lit_character(cells[i], etched_style(cells[i].0, row_colors[cells[i].1.y as int])),
    );
    lemma_hidden_characters_draw_nothing(canvas, characters, cells.len() as int);
    assert forall|i: int| 0 <= i < shown.len() implies same_look(#[trigger] shown[i], expected[i]) by {
        assert(shown[i] == characters[i]);
    }
    lemma_draw_all_looks(canvas, shown, expected);
}

/// The state of the etching between frames: the text's characters where they came in,
/// white space shown as it came in, the laser, head and sparks after them, and every
/// cooling character a character of the text that is not white space.
spec fn etching_ok(
    terminal: Terminal,
    cells: Seq<(char, Coord)>,
    width: nat,
    height: nat,
    cooling: Seq<Cooling>,
    cooling_colors: Seq<Color>,
) -> bool {
    &&& terminal.wf()
    &&& terminal@.characters.len() == cells.len() + width + 5
    &&& at_home(terminal@.characters, cells)
    &&& blanks_kept(terminal@.characters, cells)
    &&& cooling_colors.len() == height * 12
    &&& forall|j: int| 0 <= j < cooling.len() ==> cooling_ok(#[trigger] cooling[j], cells)
    &&& forall|j: int| 0 <= j < cooling.len() ==> (#[trigger] cooling[j]).row * 12 + 12 <= cooling_colors.len()
}

/// Whether every entry of `originals` is a character of the text that is not white space.
spec fn originals_ok(originals: Seq<usize>, cells: Seq<(char, Coord)>) -> bool {
    forall|j: int|
        0 <= j < originals.len() ==> {
            &&& (#[trigger] originals[j]) < cells.len()
            &&& !white_space(cells[originals[j] as int].0)
        }
}

/// Whether a character of `originals` stands at column `x` of `row`.
pub open spec fn marked(originals: Seq<usize>, cells: Seq<(char, Coord)>, row: int, x: int) -> bool {
    exists|j: int|
        0 <= j < originals.len() && (#[trigger] cells[originals[j] as int]).1.x == x && cells[originals[j] as int].1.y
            == row
}

/// The first column from `x` on at which a character of `originals` stands in `row`, or
/// `width` when there is none.
pub open spec fn first_mark(originals: Seq<usize>, cells: Seq<(char, Coord)>, row: int, width: int, x: int) -> int
    decreases width - x,
{
    if x >= width {
        width
    } else if marked(originals, cells, row, x) {
        x
    } else {
        first_mark(originals, cells, row, width, x + 1)
    }
}

/// The frames the laser makes over the columns from `x` to the right edge: two at a column
/// where a character of `originals` stands in `row`, one at any other.
pub open spec fn sweep_frames(originals: Seq<usize>, cells: Seq<(char, Coord)>, row: int, width: int, x: int) -> nat
    decreases width - x,
{
    if x >= width {
        0
    } else {
        (if marked(originals, cells, row, x) {
            2nat
        } else {
            1nat
        }) + sweep_frames(originals, cells, row, width, x + 1)
    }
}

/// The number of frames that etching `row` makes: none when no character of `originals`
/// stands in it; else the sweep from the right edge to the first such column, and one
/// last frame with the laser off.
pub open spec fn row_frames(originals: Seq<usize>, cells: Seq<(char, Coord)>, row: int, width: int) -> nat {
    let leftmost = first_mark(originals, cells, row, width, 0);
    if leftmost >= width {
        0
    } else {
        sweep_frames(originals, cells, row, width, leftmost) + 1
    }
}

/// The first marked column from `x` on is `m` when `m` is marked (or the edge) and no
/// column between is.
proof fn lemma_first_mark(
    originals: Seq<usize>,
    cells: Seq<(char, Coord)>,
    row: int,
    width: int,
    x: int,
    m: int,
)
    requires
        x <= m <= width,
        m < width ==> marked(originals, cells, row, m),
        forall|y: int| x <= y < m ==> !#[trigger] marked(originals, cells, row, y),
    ensures
        first_mark(originals, cells, row, width, x) == m,
    decreases m - x,
{
    if x < m {
        assert(!marked(originals, cells, row, x));
        lemma_first_mark(originals, cells, row, width, x + 1, m);
    }
}

/// Whether a character of `originals` that stands at column `y` of `row` is shown.
spec fn column_shown(
    characters: Seq<EffectCharacter>,
    originals: Seq<usize>,
    cells: Seq<(char, Coord)>,
    row: int,
    y: int,
) -> bool {
    exists|k: int|
        0 <= k < originals.len() && cells[originals[k] as int].1.x == y && cells[originals[k] as int].1.y == row
            && (#[trigger] characters[originals[k] as int]).visible
}

/// Whether every column right of `from` at which a character of `originals` stands in `row`
/// has such a character shown.
spec fn columns_shown(
    characters: Seq<EffectCharacter>,
    originals: Seq<usize>,
    cells: Seq<(char, Coord)>,
    row: int,
    from: int,
) -> bool {
    forall|y: int|
        from < y && #[trigger] marked(originals, cells, row, y) ==> column_shown(characters, originals, cells, row, y)
}

/// The characters of `originals` stand in the columns of the text.
proof fn lemma_marks_in_width(originals: Seq<usize>, cells: Seq<(char, Coord)>, row: int, width: int)
    requires
        originals_ok(originals, cells),
        forall|i: int| 0 <= i < cells.len() ==> 0 <= (#[trigger] cells[i]).1.x < width,
    ensures
        forall|y: int| #[trigger] marked(originals, cells, row, y) ==> 0 <= y < width,
{
    assert forall|y: int| #[trigger] marked(originals, cells, row, y) implies 0 <= y < width by {
        let k = choose|k: int|
            0 <= k < originals.len() && (#[trigger] cells[originals[k] as int]).1.x == y && cells[originals[k] as int].1.y
                == row;
        assert(originals[k] < cells.len());
    }
}

/// Shown characters that stay shown keep their columns shown.
proof fn lemma_columns_kept(
    before: Seq<EffectCharacter>,
    after: Seq<EffectCharacter>,
    originals: Seq<usize>,
    cells: Seq<(char, Coord)>,
    row: int,
    from: int,
)
    requires
        columns_shown(before, originals, cells, row, from),
        shown_kept(before, after, cells.len() as int),
        originals_ok(originals, cells),
    ensures
        columns_shown(after, originals, cells, row, from),
{
    assert forall|y: int| from < y && #[trigger] marked(originals, cells, row, y) implies column_shown(
        after,
        originals,
        cells,
        row,
        y,
    ) by {
        let k = choose|k: int|
            0 <= k < originals.len() && cells[originals[k] as int].1.x == y && cells[originals[k] as int].1.y == row
                && (#[trigger] before[originals[k] as int]).visible;
        assert(originals[k] < cells.len());
        assert(after[originals[k] as int].visible);
    }
}

/// No entry of `originals` from the `j`th on stands at `here`: there is no target.
proof fn lemma_no_target(originals: Seq<usize>, cells: Seq<(char, Coord)>, here: Coord, j: int)
    requires
        0 <= j,
        forall|k: int| j <= k < originals.len() ==> (#[trigger] cells[originals[k] as int]).1 != here,
    ensures
        target_at(originals, cells, here, j) is None,
    decreases originals.len() - j,
{
    if j < originals.len() {
        lemma_no_target(originals, cells, here, j + 1);
    }
}

/// The frames of one row of the etching (none when the row holds no character of
/// `originals`): the laser runs from the right edge to the row's first such character,
/// each such character it reaches is etched, and a last frame follows with the laser off.
#[verifier::spinoff_prover]
#[verifier::rlimit(100)]
fn etch_row(
    terminal: &mut Terminal,
    originals: &Vec<usize>,
    cooling: &mut Vec<Cooling>,
    cooling_colors: &Vec<Color>,
    row: usize,
    width: usize,
    height: usize,
    frames: &mut Vec<String>,
    Ghost(cells): Ghost<Seq<(char, Coord)>>,
    Ghost(st): Ghost<Etching>,
    Ghost(canvas): Ghost<CanvasView>,
)
    requires
        looks_as(old(terminal)@.characters, st.chars),
        old(cooling)@ == st.cooling,
        frames_are(old(frames)@, st.frames),
        cleared(old(terminal)@.canvas) == canvas,
        canvas.cells.len() == canvas.width * canvas.height,
        etching_ok(*old(terminal), cells, width as nat, height as nat, old(cooling)@, cooling_colors@),
        originals_ok(originals@, cells),
        forall|i: int|
            0 <= i < cells.len() ==> {
                &&& 0 <= (#[trigger] cells[i]).1.x < width
                &&& 0 <= cells[i].1.y < height
            },
        1 <= width,
        width + 5 <= i32::MAX,
        row < height <= i32::MAX,
        forall|j: int| 0 <= j < old(cooling).len() ==> (#[trigger] old(cooling)@[j]).age >= 2,
    ensures
        forall|j: int| 0 <= j < final(cooling).len() ==> (#[trigger] final(cooling)@[j]).age >= 2,
        row_frames(originals@, cells, row as int, width as int) > 0 ==> {
            &&& final(cooling).len() > 0
            &&& final(cooling)@.last().age == 2
        },
        etching_ok(*final(terminal), cells, width as nat, height as nat, final(cooling)@, cooling_colors@),
        cleared(final(terminal)@.canvas) == cleared(old(terminal)@.canvas),
        final(frames).len() == old(frames).len() + row_frames(originals@, cells, row as int, width as int),
        forall|f: int| 0 <= f < old(frames).len() ==> #[trigger] final(frames)@[f] == old(frames)@[f],
        columns_shown(final(terminal)@.characters, originals@, cells, row as int, -1),
        row_frames(originals@, cells, row as int, width as int) == 0 ==> {
            &&& *final(terminal) == *old(terminal)
            &&& final(cooling)@ == old(cooling)@
        },
        row_frames(originals@, cells, row as int, width as int) > 0 ==> {
            &&& final(frames)@.last()@ == render_canvas(frame_canvas(final(terminal)@))
            &&& forall|i: int|
                cells.len() <= i < final(terminal)@.characters.len() ==> !(#[trigger] final(terminal)@.characters[i]).visible
        },
        ({
            let next = etch_row_spec(st, canvas, originals@, cells, cooling_colors@, width as int, height as int, row as int);
            &&& looks_as(final(terminal)@.characters, next.chars)
            &&& final(cooling)@ == next.cooling
            &&& frames_are(final(frames)@, next.frames)
        }),
{
    let count = originals.len();
    let total = terminal.characters().len();
    let base = total - width - 5;
    proof {
        assert(base == cells.len());
    }
    let mut leftmost: i32 = width as i32;
    let mut rightmost: i32 = -1;
    let mut j: usize = 0;
    while j < count
        invariant
            j <= count,
            count == originals.len(),
            etching_ok(*terminal, cells, width as nat, height as nat, cooling@, cooling_colors@),
            originals_ok(originals@, cells),
            base == cells.len(),
            forall|i: int|
                0 <= i < cells.len() ==> {
                    &&& 0 <= (#[trigger] cells[i]).1.x < width
                    &&& 0 <= cells[i].1.y < height
                },
            width + 5 <= i32::MAX,
            row < height <= i32::MAX,
            -1 <= rightmost < width,
            0 <= leftmost <= width,
            leftmost < width ==> marked(originals@, cells, row as int, leftmost as int),
            forall|k: int|
                0 <= k < j && (#[trigger] cells[originals@[k] as int]).1.y == row ==> leftmost <= cells[originals@[k] as int].1.x
                    <= rightmost,
            *terminal == *old(terminal),
            cooling@ == old(cooling)@,
            frames@ == old(frames)@,
        decreases count - j,
    {
        let position = terminal.characters()[originals[j]].position;
        proof {
            assert(originals@[j as int] < cells.len());
            assert(terminal@.characters[originals@[j as int] as int].position == cells[originals@[j as int] as int].1);
        }
        if position.y == row as i32 {
            if position.x < leftmost {
                leftmost = position.x;
            }
            if position.x > rightmost {
                rightmost = position.x;
            }
        }
        j += 1;
    }
    proof {
        assert forall|y: int| 0 <= y < leftmost implies !#[trigger] marked(originals@, cells, row as int, y) by {
            if marked(originals@, cells, row as int, y) {
                let k = choose|k: int|
                    0 <= k < originals.len() && (#[trigger] cells[originals@[k] as int]).1.x == y
                        && cells[originals@[k] as int].1.y == row;
                assert(leftmost <= cells[originals@[k] as int].1.x);
            }
        }
        lemma_first_mark(originals@, cells, row as int, width as int, 0, leftmost as int);
        lemma_marks_in_width(originals@, cells, row as int, width as int);
    }
    if leftmost >= width as i32 {
        return;
    }
    let beam = base;
    let sparks = base + width + 1;
    let mut x: i32 = width as i32 - 1;
    let ghost mut pushed = false;
    let ghost mut cur = st;
    while x >= leftmost
        invariant
            looks_as(terminal@.characters, cur.chars),
            cooling@ == cur.cooling,
            frames_are(frames@, cur.frames),
            cleared(old(terminal)@.canvas) == canvas,
            canvas.cells.len() == canvas.width * canvas.height,
            etch_sweep(cur, canvas, originals@, cells, cooling_colors@, width as int, height as int, row as int, leftmost as int, x as int)
                == etch_sweep(st, canvas, originals@, cells, cooling_colors@, width as int, height as int, row as int, leftmost as int, width - 1),
            leftmost - 1 <= x <= width - 1,
            0 <= leftmost < width,
            count == originals.len(),
            total == terminal@.characters.len(),
            total == base + width + 5,
            etching_ok(*terminal, cells, width as nat, height as nat, cooling@, cooling_colors@),
            cleared(terminal@.canvas) == cleared(old(terminal)@.canvas),
            originals_ok(originals@, cells),
            base == cells.len(),
            beam == base,
            sparks == base + width + 1,
            forall|i: int|
                0 <= i < cells.len() ==> {
                    &&& 0 <= (#[trigger] cells[i]).1.x < width
                    &&& 0 <= cells[i].1.y < height
                },
            1 <= width,
            width + 5 <= i32::MAX,
            row < height <= i32::MAX,
            leftmost == first_mark(originals@, cells, row as int, width as int, 0),
            forall|k: int|
                0 <= k < count && (#[trigger] cells[originals@[k] as int]).1.y == row ==> cells[originals@[k]
                    as int].1.x <= rightmost,
            frames.len() == old(frames).len() + sweep_frames(originals@, cells, row as int, width as int, x + 1),
            forall|f: int| 0 <= f < old(frames).len() ==> #[trigger] frames@[f] == old(frames)@[f],
            forall|y: int| 0 <= y < leftmost ==> !#[trigger] marked(originals@, cells, row as int, y),
            forall|y: int| #[trigger] marked(originals@, cells, row as int, y) ==> 0 <= y < width,
            columns_shown(terminal@.characters, originals@, cells, row as int, x as int),
            forall|j: int| 0 <= j < cooling.len() ==> (#[trigger] cooling@[j]).age >= 1,
            pushed == marked(originals@, cells, row as int, x + 1),
            pushed ==> cooling.len() > 0 && cooling@.last().age == 1,
        decreases x - leftmost + 1,
    {
        let ghost s0 = terminal@.characters;
        let ghost warm = cooled(cur, cooling_colors@);
        advance_cooling(terminal, cooling, cooling_colors, Ghost(cells), Ghost(0), Ghost(cur.chars));
        proof {
            lemma_columns_kept(s0, terminal@.characters, originals@, cells, row as int, x as int);
        }
        let ghost s1 = terminal@.characters;
        hide_range(terminal, sparks, sparks + 4);
        proof {
            lemma_columns_kept(s1, terminal@.characters, originals@, cells, row as int, x as int);
            lemma_hidden_looks(s1, terminal@.characters, warm.chars, sparks as int, sparks + 4);
        }
        let ghost s2 = terminal@.characters;
        let ghost aimed = lasered(hidden(warm.chars, sparks as int, sparks + 4), cells.len() as int, width as int, x as int, row as int);
        place_laser(terminal, beam, width, x, row as i32, Ghost(hidden(warm.chars, sparks as int, sparks + 4)));
        proof {
            lemma_columns_kept(s2, terminal@.characters, originals@, cells, row as int, x as int);
        }
        let here = Coord::new(x, row as i32);
        let mut target: Option<usize> = None;
        let ghost mut found: int = 0;
        if x <= rightmost {
            let mut j: usize = 0;
            while j < count
                invariant
                    j <= count,
                    count == originals.len(),
                    originals_ok(originals@, cells),
                    cells.len() <= terminal@.characters.len(),
                    at_home(terminal@.characters, cells),
                    row < height <= i32::MAX,
                    here == (Coord { x, y: row as i32 }),
                    target matches Some(t) ==> {
                        &&& t < cells.len()
                        &&& !white_space(cells[t as int].0)
                        &&& terminal@.characters[t as int].position == here
                        &&& marked(originals@, cells, row as int, x as int)
                        &&& 0 <= found < count
                        &&& originals@[found] == t
                    },
                    target is None ==> forall|k: int|
                        0 <= k < j ==> (#[trigger] cells[originals@[k] as int]).1 != here,
                    target is Some ==> target_at(originals@, cells, here, 0) == target,
                    target is None ==> target_at(originals@, cells, here, 0) == target_at(originals@, cells, here, j as int),
                decreases count - j,
            {
                proof {
                    assert(originals@[j as int] < cells.len());
                    assert(terminal@.characters[originals@[j as int] as int].position == cells[originals@[j as int] as int].1);
                }
                if target.is_none() && terminal.characters()[originals[j]].position == here {
                    target = Some(originals[j]);
                    proof {
                        found = j as int;
                        assert(cells[originals@[j as int] as int].1.x == x && cells[originals@[j as int] as int].1.y
                            == row);
                    }
                }
                j += 1;
            }
        }
        proof {
            if target is None {
                if x > rightmost {
                    lemma_no_target(originals@, cells, here, 0);
                }
                if marked(originals@, cells, row as int, x as int) {
                    let k = choose|k: int|
                        0 <= k < originals.len() && (#[trigger] cells[originals@[k] as int]).1.x == x
                            && cells[originals@[k] as int].1.y == row;
                    assert(cells[originals@[k] as int].1.x <= rightmost);
                    assert(cells[originals@[k] as int].1 == here);
                }
            }
        }
        let ghost frames_before = frames.len();
        match target {
            Some(t) => {
                let symbol = terminal.characters()[t].input_symbol;
                let mut style = Style::default().with_foreground(Color::rgb(255, 255, 255));
                style.bold = true;
                let ghost before = terminal@.characters;
                set_shown(terminal, t, true);
                repaint(terminal, t, symbol, style);
                proof {
                    assert forall|i: int| 0 <= i < terminal@.characters.len() && i != t implies #[trigger] terminal@.characters[i]
                        == before[i] by {}
                    assert(style == white_hot());
                    assert(symbol == cells[t as int].0);
                    let white = lit_white(aimed, cells, t as int);
                    assert forall|i: int| 0 <= i < terminal@.characters.len() implies same_look(
                        #[trigger] terminal@.characters[i],
                        white[i],
                    ) by {
                        assert(same_look(before[i], aimed[i]));
                    }
                    lemma_columns_kept(before, terminal@.characters, originals@, cells, row as int, x as int);
                    assert(terminal@.characters[originals@[found] as int].visible);
                    assert(column_shown(terminal@.characters, originals@, cells, row as int, x as int));
                }
                cooling.push(Cooling { index: t, symbol, row, age: 0 });
                proof {
                    assert forall|j: int| 0 <= j < cooling.len() implies (#[trigger] cooling@[j]).age >= 0 by {}
                }
                let ghost s3 = terminal@.characters;
                let ghost lit = Etching {
                    chars: sparked(lit_white(aimed, cells, t as int), sparks as int, here, 0, width as int, height as int),
                    cooling: warm.cooling.push(Cooling { index: t, symbol: cells[t as int].0, row, age: 0 }),
                    ..warm
                };
                place_sparks(terminal, sparks, here, 0, width, height, Ghost(lit_white(aimed, cells, t as int)));
                proof {
                    lemma_columns_kept(s3, terminal@.characters, originals@, cells, row as int, x - 1);
                }
                snap(terminal, frames, Ghost(lit), Ghost(canvas));
                let ghost s4 = terminal@.characters;
                let ghost next = cooled(shot(canvas, lit), cooling_colors@);
                advance_cooling(terminal, cooling, cooling_colors, Ghost(cells), Ghost(0), Ghost(lit.chars));
                proof {
                    lemma_columns_kept(s4, terminal@.characters, originals@, cells, row as int, x - 1);
                }
                let ghost s5 = terminal@.characters;
                place_sparks(terminal, sparks, here, 1, width, height, Ghost(next.chars));
                proof {
                    lemma_columns_kept(s5, terminal@.characters, originals@, cells, row as int, x - 1);
                }
                snap(
                    terminal,
                    frames,
                    Ghost(Etching { chars: sparked(next.chars, sparks as int, here, 1, width as int, height as int), ..next }),
                    Ghost(canvas),
                );
            },
            None => {
                snap(terminal, frames, Ghost(Etching { chars: aimed, ..warm }), Ghost(canvas));
            },
        }
        proof {
            assert(frames.len() == frames_before + if marked(originals@, cells, row as int, x as int) {
                2int
            } else {
                1int
            });
            assert(sweep_frames(originals@, cells, row as int, width as int, x as int) == (if marked(
                originals@,
                cells,
                row as int,
                x as int,
            ) {
                2nat
            } else {
                1nat
            }) + sweep_frames(originals@, cells, row as int, width as int, x + 1));
        }
        proof {
            pushed = target is Some;
            cur = etch_column(cur, canvas, originals@, cells, cooling_colors@, width as int, height as int, row as int, x as int);
        }
        x -= 1;
    }
    let ghost s6 = terminal@.characters;
    let ghost off = Etching { chars: hidden(cur.chars, cells.len() as int, cells.len() + width + 5), ..cur };
    hide_range(terminal, beam, beam + width + 5);
    proof {
        lemma_columns_kept(s6, terminal@.characters, originals@, cells, row as int, x as int);
        lemma_hidden_looks(s6, terminal@.characters, cur.chars, beam as int, beam + width + 5);
    }
    let ghost s7 = terminal@.characters;
    proof {
        assert(marked(originals@, cells, row as int, leftmost as int));
    }
    advance_cooling(terminal, cooling, cooling_colors, Ghost(cells), Ghost(1), Ghost(off.chars));
    proof {
        lemma_columns_kept(s7, terminal@.characters, originals@, cells, row as int, x as int);
    }
    let ghost before_last = terminal@;
    snap(terminal, frames, Ghost(cooled(off, cooling_colors@)), Ghost(canvas));
    proof {
        assert(frame_canvas(before_last) == frame_canvas(terminal@));
    }
}

/// The frames the laser makes over the first `rows` rows.
pub open spec fn sweep_total(originals: Seq<usize>, cells: Seq<(char, Coord)>, width: int, rows: nat) -> nat
    decreases rows,
{
    if rows == 0 {
        0
    } else {
        sweep_total(originals, cells, width, (rows - 1) as nat) + row_frames(originals, cells, rows - 1, width)
    }
}

/// With nothing to etch, the laser makes no frames.
proof fn lemma_nothing_to_etch(originals: Seq<usize>, cells: Seq<(char, Coord)>, width: int, rows: nat)
    requires
        originals.len() == 0,
        width >= 0,
    ensures
        sweep_total(originals, cells, width, rows) == 0,
    decreases rows,
{
    if rows > 0 {
        lemma_nothing_to_etch(originals, cells, width, (rows - 1) as nat);
        lemma_first_mark(originals, cells, rows - 1, width, 0, width);
    }
}

/// The indices of the first `n` cells that are not white space, in order.
pub open spec fn etched_indices(cells: Seq<(char, Coord)>, n: nat) -> Seq<usize>
    decreases n,
{
    if n == 0 {
        Seq::empty()
    } else if white_space(cells[n - 1].0) {
        etched_indices(cells, (n - 1) as nat)
    } else {
        etched_indices(cells, (n - 1) as nat).push((n - 1) as usize)
    }
}

/// The number of frames of the etching of `text` before its last: the laser's over every
/// row (for each row holding a character that is not white space, one per column from the
/// right edge to the row's first such character, one more at each such character, and one
/// with the laser off), then, once anything was etched, ten of cooling.
pub open spec fn etching_frame_count(text: Seq<char>) -> nat {
    let cells = text_cells(text_rows(text));
    laser_frames(etched_indices(cells, cells.len()), cells, text_grid(text).0 as int, text_grid(text).1)
}

/// The frames before the last of the etching: the laser's over every row, then, once
/// anything was etched, ten of cooling.
pub open spec fn laser_frames(originals: Seq<usize>, cells: Seq<(char, Coord)>, width: int, height: nat) -> nat {
    let sweep = sweep_total(originals, cells, width, height);
    sweep + if sweep > 0 {
        10nat
    } else {
        0nat
    }
}

/// Everything after the text is laid out: the laser, its head and sparks are added
/// hidden, every row is etched, the cooling finishes, and the text is shown etched.
#[verifier::spinoff_prover]
#[verifier::rlimit(40)]
fn frames_after_setup(
    terminal: &mut Terminal,
    input: &str,
    originals: &Vec<usize>,
    laser_colors: &Vec<Color>,
    row_colors: &Vec<Color>,
    cooling_colors: &Vec<Color>,
) -> (frames: Vec<String>)
    requires
        old(terminal).wf(),
        cleared(old(terminal)@.canvas) == text_canvas(input@),
        old(terminal)@.canvas.width == text_grid(input@).0,
        old(terminal)@.canvas.height == text_grid(input@).1,
        old(terminal)@.characters.len() == text_cells(text_rows(input@)).len(),
        at_home(old(terminal)@.characters, text_cells(text_rows(input@))),
        blanks_kept(old(terminal)@.characters, text_cells(text_rows(input@))),
        originals_ok(originals@, text_cells(text_rows(input@))),
        forall|i: int|
            #![trigger text_cells(text_rows(input@))[i]]
            0 <= i < text_cells(text_rows(input@)).len() && !white_space(text_cells(text_rows(input@))[i].0)
                ==> exists|j: int| 0 <= j < originals.len() && originals@[j] == i,
        forall|i: int|
            0 <= i < text_cells(text_rows(input@)).len() ==> {
                &&& 0 <= (#[trigger] text_cells(text_rows(input@))[i]).1.x < text_grid(input@).0
                &&& 0 <= text_cells(text_rows(input@))[i].1.y < text_grid(input@).1
            },
        text_grid(input@).0 >= 1,
        text_grid(input@).1 >= 1,
        text_grid(input@).0 + 5 <= i32::MAX,
        text_grid(input@).1 * 12 <= i32::MAX,
        laser_colors.len() == text_grid(input@).0,
        row_colors.len() == text_grid(input@).1,
        cooling_colors.len() == text_grid(input@).1 * 12,
        forall|i: int|
            0 <= i < text_cells(text_rows(input@)).len() ==> same_look(
                #[trigger] old(terminal)@.characters[i],
                laser_setup(text_cells(text_rows(input@)), text_grid(input@).0 as int, laser_colors@)[i],
            ),
    ensures
        frames_are(frames@, after_setup_frames(input@, originals@, laser_colors@, row_colors@, cooling_colors@)),
        frames.len() >= 1,
        frames@.last()@ == etched_frame(input@, row_colors@),
        ({
            let n = laser_frames(
                originals@,
                text_cells(text_rows(input@)),
                text_grid(input@).0 as int,
                text_grid(input@).1,
            );
            ||| frames.len() == n + 1
            ||| (frames.len() == n && n > 0 && frames@[n - 1]@ == etched_frame(input@, row_colors@))
        }),
{
    let ghost cells = text_cells(text_rows(input@));
    let ghost canvas = text_canvas(input@);
    let width = terminal.canvas().width();
    let height = terminal.canvas().height();
    let count = terminal.characters().len();
    let ghost setup = laser_setup(cells, width as int, laser_colors@);
    let mut x: usize = 0;
    while x < width
        invariant
            setup == laser_setup(cells, width as int, laser_colors@),
            forall|i: int| 0 <= i < count + x ==> same_look(#[trigger] terminal@.characters[i], setup[i]),
            x <= width,
            width + 5 <= i32::MAX,
            laser_colors.len() == width,
            terminal.wf(),
            cleared(terminal@.canvas) == text_canvas(input@),
            count == cells.len(),
            terminal@.characters.len() == count + x,
            at_home(terminal@.characters, cells),
            blanks_kept(terminal@.characters, cells),
        decreases width - x,
    {
        let ghost before = terminal@.characters;
        terminal.add_character('━', Coord::new(x as i32, 0));
        let last = terminal.characters().len() - 1;
        set_shown(terminal, last, false);
        let mut style = Style::default().with_foreground(laser_colors[x]);
        style.bold = true;
        restyle(terminal, last, style);
        proof {
            assert forall|i: int| 0 <= i < count implies #[trigger] terminal@.characters[i] == before[i] by {}
            assert forall|i: int| 0 <= i < count + x + 1 implies same_look(#[trigger] terminal@.characters[i], setup[i]) by {
                if i < count + x {
                    assert(terminal@.characters[i] == before[i]);
                }
            }
        }
        x += 1;
    }
    let mut k: usize = 0;
    while k < 5
        invariant
            setup == laser_setup(cells, width as int, laser_colors@),
            forall|i: int| 0 <= i < count + width + k ==> same_look(#[trigger] terminal@.characters[i], setup[i]),
            k <= 5,
            terminal.wf(),
            cleared(terminal@.canvas) == text_canvas(input@),
            count == cells.len(),
            terminal@.characters.len() == count + width + k,
            at_home(terminal@.characters, cells),
            blanks_kept(terminal@.characters, cells),
        decreases 5 - k,
    {
        let symbol = if k == 0 {
            '█'
        } else if k == 1 {
            '*'
        } else if k == 2 {
            '+'
        } else if k == 3 {
            '·'
        } else {
            '•'
        };
        let ghost before = terminal@.characters;
        terminal.add_character(symbol, Coord::new(0, 0));
        let last = terminal.characters().len() - 1;
        set_shown(terminal, last, false);
        if k == 0 {
            let mut style = Style::default().with_foreground(Color::rgb(255, 255, 180));
            style.bold = true;
            restyle(terminal, last, style);
        }
        proof {
            assert forall|i: int| 0 <= i < count implies #[trigger] terminal@.characters[i] == before[i] by {}
            assert forall|i: int| 0 <= i < count + width + k + 1 implies same_look(#[trigger] terminal@.characters[i], setup[i]) by {
                if i < count + width + k {
                    assert(terminal@.characters[i] == before[i]);
                }
            }
        }
        k += 1;
    }
    let mut frames: Vec<String> = Vec::new();
    let mut cooling: Vec<Cooling> = Vec::new();
    let ghost start = Etching { chars: setup, cooling: Seq::empty(), frames: Seq::empty() };
    let ghost mut st = start;
    proof {
        assert(cooling@ =~= Seq::<Cooling>::empty());
    }
    let mut row: usize = 0;
    while row < height
        invariant
            st == etch_rows(start, canvas, originals@, cells, cooling_colors@, width as int, height as int, row as nat),
            start == (Etching { chars: setup, cooling: Seq::empty(), frames: Seq::empty() }),
            looks_as(terminal@.characters, st.chars),
            cooling@ == st.cooling,
            frames_are(frames@, st.frames),
            canvas == text_canvas(input@),
            row <= height,
            etching_ok(*terminal, cells, width as nat, height as nat, cooling@, cooling_colors@),
            cleared(terminal@.canvas) == text_canvas(input@),
            originals_ok(originals@, cells),
            forall|i: int|
                0 <= i < cells.len() ==> {
                    &&& 0 <= (#[trigger] cells[i]).1.x < width
                    &&& 0 <= cells[i].1.y < height
                },
            1 <= width,
            width + 5 <= i32::MAX,
            height <= i32::MAX,
            forall|j: int| 0 <= j < cooling.len() ==> (#[trigger] cooling@[j]).age >= 2,
            frames.len() == sweep_total(originals@, cells, width as int, row as nat),
            (cooling.len() > 0) == (sweep_total(originals@, cells, width as int, row as nat) > 0),
            cooling.len() > 0 ==> cooling@.last().age == 2,
        decreases height - row,
    {
        etch_row(
            terminal,
            originals,
            &mut cooling,
            cooling_colors,
            row,
            width,
            height,
            &mut frames,
            Ghost(cells),
            Ghost(st),
            Ghost(canvas),
        );
        proof {
            st = etch_row_spec(st, canvas, originals@, cells, cooling_colors@, width as int, height as int, row as int);
        }
        row += 1;
    }
    let ghost sweep = sweep_total(originals@, cells, width as int, height as nat);
    let total = terminal.characters().len();
    let ghost s0 = terminal@.characters;
    hide_range(terminal, count, total);
    let ghost off = Etching { chars: hidden(st.chars, count as int, total as int), ..st };
    proof {
        lemma_hidden_looks(s0, terminal@.characters, st.chars, count as int, total as int);
    }
    let ghost mut cst = off;
    let mut rounds: u32 = 0;
    while cooling.len() > 0
        invariant
            cool_rounds(cst, canvas, cooling_colors@, (12 - rounds) as nat) == cool_rounds(off, canvas, cooling_colors@, 12),
            looks_as(terminal@.characters, cst.chars),
            cooling@ == cst.cooling,
            frames_are(frames@, cst.frames),
            canvas == text_canvas(input@),
            etching_ok(*terminal, cells, width as nat, height as nat, cooling@, cooling_colors@),
            cleared(terminal@.canvas) == text_canvas(input@),
            count == cells.len(),
            forall|i: int| count <= i < terminal@.characters.len() ==> !(#[trigger] terminal@.characters[i]).visible,
            forall|j: int| 0 <= j < cooling.len() ==> (#[trigger] cooling@[j]).age >= rounds + 2,
            rounds <= 10,
            sweep == sweep_total(originals@, cells, width as int, height as nat),
            frames.len() == sweep + rounds,
            sweep == 0 ==> rounds == 0 && cooling.len() == 0,
            sweep > 0 && rounds < 10 ==> cooling.len() > 0 && cooling@.last().age == rounds + 2,
            sweep > 0 && rounds == 10 ==> cooling.len() == 0,
        decreases 10 - rounds,
    {
        assert(cooling@[0].age < 12);
        advance_cooling(terminal, &mut cooling, cooling_colors, Ghost(cells), Ghost(rounds + 2), Ghost(cst.chars));
        proof {
            if cooling.len() > 0 {
                assert(cooling@[0].age >= rounds + 3);
                assert(cooling_ok(cooling@[0], cells));
            }
        }
        snap(terminal, &mut frames, Ghost(cooled(cst, cooling_colors@)), Ghost(canvas));
        proof {
            cst = shot(canvas, cooled(cst, cooling_colors@));
        }
        rounds += 1;
    }
    let mut j: usize = 0;
    while j < originals.len()
        invariant
            j <= originals.len(),
            terminal.wf(),
            cleared(terminal@.canvas) == text_canvas(input@),
            count == cells.len(),
            terminal@.characters.len() == count + width + 5,
            at_home(terminal@.characters, cells),
            blanks_kept(terminal@.characters, cells),
            originals_ok(originals@, cells),
            row_colors.len() == height,
            forall|i: int|
                0 <= i < cells.len() ==> {
                    &&& 0 <= (#[trigger] cells[i]).1.x < width
                    &&& 0 <= cells[i].1.y < height
                },
            forall|i: int| count <= i < terminal@.characters.len() ==> !(#[trigger] terminal@.characters[i]).visible,
            forall|k: int|
                0 <= k < j ==> same_look(
                    #[trigger] terminal@.characters[originals@[k] as int],
                    lit_character(
                        cells[originals@[k] as int],
                        foreground_only(row_colors@[cells[originals@[k] as int].1.y as int]),
                    ),
                ),
        decreases originals.len() - j,
    {
        let o = originals[j];
        let symbol = terminal.characters()[o].input_symbol;
        let y = terminal.characters()[o].position.y;
        let ghost before = terminal@.characters;
        set_shown(terminal, o, true);
        repaint(terminal, o, symbol, Style::default().with_foreground(row_colors[y as usize]));
        proof {
            assert forall|k: int| 0 <= k < j + 1 implies same_look(
                #[trigger] terminal@.characters[originals@[k] as int],
                lit_character(
                    cells[originals@[k] as int],
                    foreground_only(row_colors@[cells[originals@[k] as int].1.y as int]),
                ),
            ) by {
                if originals@[k] != o {
                    assert(terminal@.characters[originals@[k] as int] == before[originals@[k] as int]);
                }
            }
            assert forall|i: int| 0 <= i < cells.len() && white_space(cells[i].0) implies #[trigger] terminal@.characters[i]
                == before[i] by {}
        }
        j += 1;
    }
    let final_frame = terminal.render_frame();
    proof {
        assert forall|i: int| 0 <= i < count implies same_look(
            #[trigger] terminal@.characters[i],
            lit_character(cells[i], etched_style(cells[i].0, row_colors@[cells[i].1.y as int])),
        ) by {
            if !white_space(cells[i].0) {
                let k = choose|k: int| 0 <= k < originals.len() && originals@[k] == i;
                assert(same_look(
                    terminal@.characters[originals@[k] as int],
                    lit_character(
                        cells[originals@[k] as int],
                        foreground_only(row_colors@[cells[originals@[k] as int].1.y as int]),
                    ),
                ));
            }
        }
        lemma_etched(input@, terminal@.characters, row_colors@);
    }
    let ghost before_last = frames@;
    proof {
        assert(cool_rounds(cst, canvas, cooling_colors@, (12 - rounds) as nat) == cst);
    }
    if frames.len() == 0 || frames[frames.len() - 1] != final_frame {
        frames.push(final_frame);
    }
    proof {
        assert(before_last.len() == laser_frames(originals@, cells, width as int, height as nat));
        let spec = after_setup_frames(input@, originals@, laser_colors@, row_colors@, cooling_colors@);
        assert forall|f: int| 0 <= f < frames@.len() implies (#[trigger] frames@[f])@ == spec[f] by {
            if f < before_last.len() {
                assert(frames@[f] == before_last[f]);
            }
        }
    }
    frames
}

impl Laseretch {
    /// The frames of the etching: a laser sweeps each row that has text from the right edge
    /// to the row's first character that is not white space; each such character it
    /// passes lights up white with sparks around it and then cools over twelve frames
    /// through `cooling_colors` (twelve per row) to its row's colour; white space is never
    /// etched. `laser_colors` holds the beam's colour in each column and `row_colors` each
    /// row's final colour. The last frame shows the text etched. Each frame is the one
    /// `etching_frames` gives.
    pub fn frames(
        &self,
        input: &str,
        laser_colors: &Vec<Color>,
        row_colors: &Vec<Color>,
        cooling_colors: &Vec<Color>,
    ) -> (frames: Vec<String>)
        requires
            text_grid(input@).0 * text_grid(input@).1 <= usize::MAX,
            text_grid(input@).0 + 5 <= i32::MAX,
            text_grid(input@).1 * 12 <= i32::MAX,
            laser_colors.len() == text_grid(input@).0,
            row_colors.len() == text_grid(input@).1,
            cooling_colors.len() == text_grid(input@).1 * 12,
        ensures
            frames.len() == etching_frames(input@, laser_colors@, row_colors@, cooling_colors@).len(),
            forall|f: int|
                0 <= f < frames.len() ==> (#[trigger] frames@[f])@ == etching_frames(
                    input@,
                    laser_colors@,
                    row_colors@,
                    cooling_colors@,
                )[f],
            frames.len() >= 1,
            frames@.last()@ == etched_frame(input@, row_colors@),
            ({
                let n = etching_frame_count(input@);
                ||| frames.len() == n + 1
                ||| (frames.len() == n && n > 0 && frames@[n - 1]@ == etched_frame(input@, row_colors@))
            }),
    {
        let mut terminal = Terminal::from_text(input);
        let ghost cells = text_cells(text_rows(input@));
        let ghost canvas0 = terminal@.canvas;
        proof {
            lemma_rows_nonempty(input@);
            lemma_text_cells_in_grid(text_rows(input@));
            assert(canvas0.cells =~= text_canvas(input@).cells);
            assert(cleared(canvas0).cells =~= canvas0.cells);
        }
        let width = terminal.canvas().width();
        let height = terminal.canvas().height();
        let count = terminal.characters().len();
        let mut originals: Vec<usize> = Vec::new();
        let mut index: usize = 0;
        while index < count
            invariant
                index <= count,
                count == cells.len(),
                count == terminal@.characters.len(),
                cells == text_cells(text_rows(input@)),
                terminal.wf(),
                terminal@.canvas == canvas0,
                at_home(terminal@.characters, cells),
                blanks_kept(terminal@.characters, cells),
                forall|i: int|
                    index <= i < count ==> {
                        &&& (#[trigger] terminal@.characters[i]).visible
                        &&& terminal@.characters[i].symbol == cells[i].0
                        &&& terminal@.characters[i].style == plain_style()
                    },
                forall|j: int|
                    0 <= j < originals.len() ==> {
                        &&& (#[trigger] originals@[j]) < index
                        &&& !white_space(cells[originals@[j] as int].0)
                    },
                forall|i: int|
                    #![trigger cells[i]]
                    0 <= i < index && !white_space(cells[i].0) ==> exists|j: int|
                        0 <= j < originals.len() && originals@[j] == i,
                originals@ == etched_indices(cells, index as nat),
                forall|i: int|
                    0 <= i < index ==> same_look(
                        #[trigger] terminal@.characters[i],
                        laser_setup(cells, text_grid(input@).0 as int, laser_colors@)[i],
                    ),
            decreases count - index,
        {
            let symbol = terminal.characters()[index].input_symbol;
            let ghost listed = originals@;
            let ghost before = terminal@.characters;
            if !is_white_space(symbol) {
                set_shown(&mut terminal, index, false);
                originals.push(index);
            }
            proof {
                assert forall|i: int|
                    #![trigger cells[i]]
                    0 <= i < index + 1 && !white_space(cells[i].0) implies exists|j: int|
                        0 <= j < originals.len() && originals@[j] == i by {
                    if i < index {
                        let j = choose|j: int| 0 <= j < listed.len() && listed[j] == i;
                        assert(originals@[j] == listed[j]);
                    } else {
                        assert(originals@[originals.len() - 1] == index);
                    }
                }
                let setup = laser_setup(cells, text_grid(input@).0 as int, laser_colors@);
                assert forall|i: int| 0 <= i < index + 1 implies same_look(#[trigger] terminal@.characters[i], setup[i]) by {
                    if i < index {
                        assert(terminal@.characters[i] == before[i]);
                    }
                }
            }
            index += 1;
        }
        if originals.len() == 0 {
            let frame = terminal.render_frame();
            proof {
                assert forall|i: int| 0 <= i < count implies same_look(
                    #[trigger] terminal@.characters[i],
                    lit_character(cells[i], etched_style(cells[i].0, row_colors@[cells[i].1.y as int])),
                ) by {
                    assert(white_space(cells[i].0));
                }
                assert(cleared(canvas0) == text_canvas(input@));
                lemma_etched(input@, terminal@.characters, row_colors@);
            }
            let mut frames: Vec<String> = Vec::new();
            frames.push(frame);
            proof {
                lemma_nothing_to_etch(originals@, cells, width as int, height as nat);
                assert(frames@[0]@ == etching_frames(input@, laser_colors@, row_colors@, cooling_colors@)[0]);
            }
            return frames;
        }
        frames_after_setup(&mut terminal, input, &originals, laser_colors, row_colors, cooling_colors)
    }
}

} // verus!
