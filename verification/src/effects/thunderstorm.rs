use vstd::prelude::*;

use crate::effects::random::{fnv1a, fnv1a_hash, golden_seed, lcg64, nonzero_or};
use crate::engine::canvas::{blank_cell, render_canvas, CanvasView};
use crate::engine::character::{CharacterId, EffectCharacter};
use crate::engine::edit::{
    at_home, hide_range, lemma_text_alone, lit_character, lit_text_frame, move_to, repaint,
    same_outside, same_places, set_shown, snapshot,
};
use crate::engine::terminal::{
    cleared, draw_all, lemma_draw_all_drawn, lemma_draw_all_looks, lemma_hidden_characters_draw_nothing,
    frame_canvas, placed, same_drawn, same_look, text_canvas, text_cells, Terminal, TerminalView,
};
use crate::utils::geometry::Coord;
use crate::utils::graphics::{foreground_only, plain_style, Color, ColorPair, Style};
use crate::utils::text::{lemma_rows_nonempty, text_grid, text_rows};
use vstd::string::StringSliceAdditionalSpecFns;

verus! {

/// A storm rolls over the darkened text with rain and lightning, then clears.
pub struct Thunderstorm;

impl Thunderstorm {
    pub fn new() -> (effect: Self)
        ensures
            effect == Thunderstorm,
    {
        Thunderstorm
    }

    pub fn name(&self) -> (name: &'static str)
        ensures
            name@ == "thunderstorm"@,
    {
        "thunderstorm"
    }
}

impl Default for Thunderstorm {
    fn default() -> (effect: Self)
        ensures
            effect == Thunderstorm,
    {
        Self::new()
    }
}

/// `value` capped at 255.
pub open spec fn cap_channel(value: int) -> u8 {
    if value > 255 {
        255
    } else {
        value as u8
    }
}

/// The text's look during the storm: bold pale blue on a dark background while lightning
/// flashes, a blue glow that fades with `glow`, and otherwise dark.
pub open spec fn storm_style(glow: u8, flash: u8) -> Style {
    if flash > 0 {
        Style {
            colors: ColorPair {
                foreground: Some(Color::Rgb { r: 230, g: 238, b: 255 }),
                background: Some(Color::Rgb { r: 65, g: 75, b: 110 }),
            },
            bold: true,
            ..plain_style()
        }
    } else if glow > 0 {
        foreground_only(
            Color::Rgb {
                r: cap_channel(75 + glow * 10),
                g: cap_channel(100 + glow * 12),
                b: cap_channel(145 + glow * 13),
            },
        )
    } else {
        foreground_only(Color::Rgb { r: 42, g: 45, b: 64 })
    }
}

pub fn storm_text_style(glow: u8, flash: u8) -> (style: Style)
    ensures
        style == storm_style(glow, flash),
{
    if flash > 0 {
        let mut style = Style::default().with_foreground(Color::rgb(230, 238, 255)).with_background(
            Color::rgb(65, 75, 110),
        );
        style.bold = true;
        return style;
    }
    if glow > 0 {
        let intensity = glow as u16;
        let red = if 75 + intensity * 10 <= 255 {
            (75 + intensity * 10) as u8
        } else {
            255
        };
        let green = if 100 + intensity * 12 <= 255 {
            (100 + intensity * 12) as u8
        } else {
            255
        };
        let blue = if 145 + intensity * 13 <= 255 {
            (145 + intensity * 13) as u8
        } else {
            255
        };
        return Style::default().with_foreground(Color::rgb(red, green, blue));
    }
    Style::default().with_foreground(Color::rgb(42, 45, 64))
}

/// The FNV-1a hash of the input xor the bytes of "thunders".
pub fn seed_from_input(input: &str) -> (seed: u64)
    ensures
        seed == fnv1a(input.spec_bytes()) ^ 0x7468_756e_6465_7273u64,
{
    fnv1a_hash(input) ^ 0x7468_756e_6465_7273
}

/// A 64-bit linear congruential generator.
pub struct StormRng {
    state: u64,
}

impl View for StormRng {
    type V = u64;

    closed spec fn view(&self) -> u64 {
        self.state
    }
}

impl StormRng {
    /// A generator seeded with `seed` (or a fixed constant in place of zero).
    pub fn new(seed: u64) -> (rng: Self)
        ensures
            rng@ == nonzero_or(seed, golden_seed()),
    {
        Self {
            state: if seed == 0 {
                0x9e37_79b9_7f4a_7c15
            } else {
                seed
            },
        }
    }

    pub fn next_u64(&mut self) -> (value: u64)
        ensures
            value == lcg64(old(self)@),
            final(self)@ == value,
    {
        self.state = self.state.wrapping_mul(6_364_136_223_846_793_005).wrapping_add(
            1_442_695_040_888_963_407,
        );
        self.state
    }

    /// A value below `upper`; bounds of zero and one give 0 without drawing.
    pub fn range(&mut self, upper: usize) -> (value: usize)
        ensures
            upper <= 1 ==> value == 0 && final(self)@ == old(self)@,
            upper > 1 ==> value == lcg64(old(self)@) % (upper as u64) && final(self)@ == lcg64(
                old(self)@,
            ),
    {
        if upper <= 1 {
            0
        } else {
            (self.next_u64() % upper as u64) as usize
        }
    }
}

/// The cloud symbols, in turn.
pub open spec fn cloud_symbol(index: int) -> char {
    if index % 4 == 1 {
        '-'
    } else if index % 4 == 2 {
        '='
    } else {
        '~'
    }
}

/// The rain symbols, in turn.
pub open spec fn rain_symbol(index: int) -> char {
    if index % 3 == 0 {
        '|'
    } else if index % 3 == 1 {
        '/'
    } else {
        '\\'
    }
}

/// The number of clouds over a canvas `width` wide: one per two columns, between one and 512.
pub open spec fn cloud_count(width: nat) -> nat {
    let half = width / 2 + width % 2;
    if half > 512 {
        512
    } else if half < 1 {
        1
    } else {
        half
    }
}

/// The number of raindrops on a canvas: a third of its cells, at least half its width and
/// one, at most 512.
pub open spec fn rain_count(width: nat, height: nat) -> nat {
    let third = (width * height) / 3;
    let wide = if third > width / 2 { third } else { width / 2 };
    let some = if wide >= 1 { wide } else { 1 };
    if some > 512 {
        512
    } else {
        some
    }
}

/// The column cloud `index` of `count` settles on: the clouds spread evenly over the width.
pub open spec fn cloud_target(index: nat, count: nat, width: nat) -> int {
    if count == 1 {
        0
    } else {
        (index * (width - 1) as nat / (count - 1) as nat) as int
    }
}

fn next_cloud_symbol(index: usize) -> (symbol: char)
    ensures
        symbol == cloud_symbol(index as int),
{
    if index % 4 == 1 {
        '-'
    } else if index % 4 == 2 {
        '='
    } else {
        '~'
    }
}

fn next_rain_symbol(index: usize) -> (symbol: char)
    ensures
        symbol == rain_symbol(index as int),
{
    if index % 3 == 0 {
        '|'
    } else if index % 3 == 1 {
        '/'
    } else {
        '\\'
    }
}

/// `value` moved down by `speed`, staying at `i32::MAX` rather than overflowing.
fn fall(value: i32, speed: i32) -> (fallen: i32)
    requires
        speed >= 0,
    ensures
        fallen == if value + speed > i32::MAX { i32::MAX as int } else { value + speed },
{
    if value > i32::MAX - speed {
        i32::MAX
    } else {
        value + speed
    }
}

/// Whether `after` is cloud `index` of `before` moved `distance` columns off its target
/// `target` on the top row (left of it for even clouds), and shown when `show` holds; its
/// look stays.
pub open spec fn placed_cloud(
    before: EffectCharacter,
    after: EffectCharacter,
    index: int,
    target: int,
    distance: int,
    show: bool,
) -> bool {
    &&& after.position == Coord {
        x: (if index % 2 == 0 { target - distance } else { target + distance }) as i32,
        y: 0,
    }
    &&& after.visible == (show || before.visible)
    &&& after.symbol == before.symbol
    &&& after.style == before.style
    &&& after.input_symbol == before.input_symbol
}

/// Puts cloud `k` (character `first + k`) `distance` columns off its target, to the left
/// for even clouds and to the right for odd ones; shows the clouds when `show` holds.
fn place_clouds(terminal: &mut Terminal, first: usize, targets: &Vec<i32>, distance: i32, width: usize, show: bool)
    requires
        old(terminal).wf(),
        first + targets.len() <= old(terminal)@.characters.len(),
        0 <= distance <= 10,
        width + 9 <= i32::MAX,
        forall|j: int| 0 <= j < targets.len() ==> 0 <= #[trigger] targets[j] < width,
    ensures
        final(terminal).wf(),
        final(terminal)@.canvas == old(terminal)@.canvas,
        final(terminal)@.next_id == old(terminal)@.next_id,
        same_outside(old(terminal)@.characters, final(terminal)@.characters, first as int, first + targets.len()),
        forall|k: int|
            0 <= k < targets.len() ==> #[trigger] placed_cloud(
                old(terminal)@.characters[first + k],
                final(terminal)@.characters[first + k],
                k,
                targets@[k] as int,
                distance as int,
                show,
            ),
{
    let total = terminal.characters().len();
    let mut k: usize = 0;
    while k < targets.len()
        invariant
            k <= targets.len(),
            first + targets.len() <= total,
            total == terminal@.characters.len(),
            0 <= distance <= 10,
            width + 9 <= i32::MAX,
            forall|j: int| 0 <= j < targets.len() ==> 0 <= #[trigger] targets[j] < width,
            terminal.wf(),
            terminal@.canvas == old(terminal)@.canvas,
            terminal@.next_id == old(terminal)@.next_id,
            same_outside(old(terminal)@.characters, terminal@.characters, first as int, first + targets.len()),
            forall|j: int|
                k <= j < targets.len() ==> #[trigger] terminal@.characters[first + j]
                    == old(terminal)@.characters[first + j],
            forall|j: int|
                0 <= j < k ==> #[trigger] placed_cloud(
                    old(terminal)@.characters[first + j],
                    terminal@.characters[first + j],
                    j,
                    targets@[j] as int,
                    distance as int,
                    show,
                ),
        decreases targets.len() - k,
    {
        let ghost current = terminal@.characters;
        let target = targets[k];
        let x = if k % 2 == 0 {
            target - distance
        } else {
            target + distance
        };
        move_to(terminal, first + k, Coord::new(x, 0));
        if show {
            set_shown(terminal, first + k, true);
        }
        proof {
            assert forall|j: int| 0 <= j < targets.len() && j != k implies #[trigger] terminal@.characters[first + j]
                == current[first + j] by {}
        }
        k += 1;
    }
}

/// Shows the clouds (characters `first..first + clouds`) in `color`.
fn paint_clouds(terminal: &mut Terminal, first: usize, clouds: usize, color: Color)
    requires
        old(terminal).wf(),
        first + clouds <= old(terminal)@.characters.len(),
    ensures
        final(terminal).wf(),
        final(terminal)@.canvas == old(terminal)@.canvas,
        final(terminal)@.next_id == old(terminal)@.next_id,
        same_outside(old(terminal)@.characters, final(terminal)@.characters, first as int, first + clouds),
        forall|k: int|
            0 <= k < clouds ==> {
                let before = old(terminal)@.characters[first + k];
                let after = #[trigger] final(terminal)@.characters[first + k];
                &&& after.symbol == cloud_symbol(k)
                &&& after.style == foreground_only(color)
                &&& after.visible == before.visible
                &&& after.position == before.position
                &&& after.input_symbol == before.input_symbol
            },
{
    let total = terminal.characters().len();
    let mut k: usize = 0;
    while k < clouds
        invariant
            k <= clouds,
            first + clouds <= total,
            total == terminal@.characters.len(),
            terminal.wf(),
            terminal@.canvas == old(terminal)@.canvas,
            terminal@.next_id == old(terminal)@.next_id,
            same_outside(old(terminal)@.characters, terminal@.characters, first as int, first + clouds),
            forall|m: int|
                0 <= m < k ==> {
                    let before = old(terminal)@.characters[first + m];
                    let after = #[trigger] terminal@.characters[first + m];
                    &&& after.symbol == cloud_symbol(m)
                    &&& after.style == foreground_only(color)
                    &&& after.visible == before.visible
                    &&& after.position == before.position
                    &&& after.input_symbol == before.input_symbol
                },
            forall|m: int| k <= m < clouds ==> #[trigger] terminal@.characters[first + m] == old(terminal)@.characters[first + m],
        decreases clouds - k,
    {
        let ghost before = terminal@.characters;
        repaint(terminal, first + k, next_cloud_symbol(k), Style::default().with_foreground(color));
        proof {
            assert forall|m: int| 0 <= m < clouds && m != k implies #[trigger] terminal@.characters[first + m]
                == before[first + m] by {}
        }
        k += 1;
    }
}

/// The raindrops as positions and speeds: each on the canvas's columns, below its top,
/// falling one or two rows a frame.
pub open spec fn rain_ok(xs: Seq<i32>, ys: Seq<i32>, speeds: Seq<i32>, width: int, count: int) -> bool {
    &&& xs.len() == count
    &&& ys.len() == count
    &&& speeds.len() == count
    &&& forall|j: int| 0 <= j < count ==> 0 <= #[trigger] xs[j] < width
    &&& forall|j: int| 0 <= j < count ==> 0 <= #[trigger] ys[j]
    &&& forall|j: int| 0 <= j < count ==> 1 <= #[trigger] speeds[j] <= 2
}

/// A value below `upper` drawn from the storm's generator at `state`, and the next state;
/// bounds of zero and one give 0 without drawing.
pub open spec fn storm_draw(state: u64, upper: usize) -> (int, u64) {
    if upper <= 1 {
        (0, state)
    } else {
        ((lcg64(state) % (upper as u64)) as int, lcg64(state))
    }
}

/// One drop at `(x, y)` falling by `speed` with the generator at `state`: back to the top
/// in a random column once below the canvas, otherwise (when `drift` holds) a column right
/// one time in four. Returns its new column and row and the generator's next state.
pub open spec fn drop_fall(x: i32, y: i32, speed: i32, state: u64, width: usize, height: usize, drift: bool) -> (
    i32,
    i32,
    u64,
) {
    let fallen = if y + speed > i32::MAX {
        i32::MAX as int
    } else {
        y + speed
    };
    if fallen >= height {
        let (column, next) = storm_draw(state, width);
        (column as i32, 0, next)
    } else if drift {
        let (roll, next) = storm_draw(state, 4);
        (if roll == 0 {
            ((x + 1) % (width as int)) as i32
        } else {
            x
        }, fallen as i32, next)
    } else {
        (x, fallen as i32, state)
    }
}

/// The first `n` drops fallen in turn, the generator drawn on from `state`: the columns,
/// the rows and the generator's state after.
pub open spec fn rain_fold(
    xs: Seq<i32>,
    ys: Seq<i32>,
    speeds: Seq<i32>,
    state: u64,
    width: usize,
    height: usize,
    drift: bool,
    n: nat,
) -> (Seq<i32>, Seq<i32>, u64)
    decreases n,
{
    if n == 0 {
        (xs, ys, state)
    } else {
        let (before_x, before_y, before_state) = rain_fold(xs, ys, speeds, state, width, height, drift, (n - 1) as nat);
        let (x, y, next) = drop_fall(xs[n - 1], ys[n - 1], speeds[n - 1], before_state, width, height, drift);
        (before_x.update(n - 1, x), before_y.update(n - 1, y), next)
    }
}

proof fn lemma_rain_fold_rest(
    xs: Seq<i32>,
    ys: Seq<i32>,
    speeds: Seq<i32>,
    state: u64,
    width: usize,
    height: usize,
    drift: bool,
    n: nat,
)
    requires
        n <= xs.len(),
        n <= ys.len(),
    ensures
        rain_fold(xs, ys, speeds, state, width, height, drift, n).0.len() == xs.len(),
        rain_fold(xs, ys, speeds, state, width, height, drift, n).1.len() == ys.len(),
        forall|j: int| n <= j < xs.len() ==> #[trigger] rain_fold(xs, ys, speeds, state, width, height, drift, n).0[j] == xs[j],
        forall|j: int| n <= j < ys.len() ==> #[trigger] rain_fold(xs, ys, speeds, state, width, height, drift, n).1[j] == ys[j],
    decreases n,
{
    if n > 0 {
        lemma_rain_fold_rest(xs, ys, speeds, state, width, height, drift, (n - 1) as nat);
    }
}

/// One frame of falling rain (characters `first..`): each drop falls by its speed and
/// starts again at the top in a random column once below the canvas. In the storm
/// (`hidden` is `None`) the drops show, and every fourth frame (`drift`) one in four drifts
/// a column right; as the storm clears, the first `hidden` drops disappear.
#[verifier::rlimit(40)]
fn fall_rain(
    terminal: &mut Terminal,
    rng: &mut StormRng,
    xs: &mut Vec<i32>,
    ys: &mut Vec<i32>,
    speeds: &Vec<i32>,
    first: usize,
    width: usize,
    height: usize,
    drift: bool,
    hidden: Option<usize>,
)
    requires
        old(terminal).wf(),
        first + speeds.len() <= old(terminal)@.characters.len(),
        1 <= width <= i32::MAX,
        1 <= height <= i32::MAX,
        rain_ok(old(xs)@, old(ys)@, speeds@, width as int, speeds.len() as int),
    ensures
        final(terminal).wf(),
        final(terminal)@.canvas == old(terminal)@.canvas,
        final(terminal)@.next_id == old(terminal)@.next_id,
        same_outside(old(terminal)@.characters, final(terminal)@.characters, first as int, first + speeds.len()),
        rain_ok(final(xs)@, final(ys)@, speeds@, width as int, speeds.len() as int),
        (final(xs)@, final(ys)@, final(rng)@) == rain_fold(
            old(xs)@,
            old(ys)@,
            speeds@,
            old(rng)@,
            width,
            height,
            drift,
            speeds.len() as nat,
        ),
        forall|k: int|
            0 <= k < speeds.len() ==> {
                let before = old(terminal)@.characters[first + k];
                let after = #[trigger] final(terminal)@.characters[first + k];
                &&& after.position == Coord { x: final(xs)@[k], y: final(ys)@[k] }
                &&& after.input_symbol == before.input_symbol
                &&& after.visible == match hidden {
                    None => true,
                    Some(limit) => k >= limit,
                }
                &&& hidden is None ==> {
                    &&& after.symbol == rain_symbol(k)
                    &&& after.style == foreground_only(Color::Rgb { r: 80, g: 130, b: 190 })
                }
                &&& hidden is Some ==> {
                    &&& after.symbol == before.symbol
                    &&& after.style == before.style
                }
            },
{
    let drops = speeds.len();
    let total = terminal.characters().len();
    let mut k: usize = 0;
    while k < drops
        invariant
            k <= drops,
            drops == speeds.len(),
            first + drops <= total,
            total == terminal@.characters.len(),
            1 <= width <= i32::MAX,
            1 <= height <= i32::MAX,
            rain_ok(xs@, ys@, speeds@, width as int, drops as int),
            terminal.wf(),
            terminal@.canvas == old(terminal)@.canvas,
            terminal@.next_id == old(terminal)@.next_id,
            same_outside(old(terminal)@.characters, terminal@.characters, first as int, first + drops),
            (xs@, ys@, rng@) == rain_fold(old(xs)@, old(ys)@, speeds@, old(rng)@, width, height, drift, k as nat),
            old(xs)@.len() == drops,
            old(ys)@.len() == drops,
            forall|m: int|
                0 <= m < k ==> {
                    let before = old(terminal)@.characters[first + m];
                    let after = #[trigger] terminal@.characters[first + m];
                    &&& after.position == Coord { x: xs@[m], y: ys@[m] }
                    &&& after.input_symbol == before.input_symbol
                    &&& after.visible == match hidden {
                        None => true,
                        Some(limit) => m >= limit,
                    }
                    &&& hidden is None ==> {
                        &&& after.symbol == rain_symbol(m)
                        &&& after.style == foreground_only(Color::Rgb { r: 80, g: 130, b: 190 })
                    }
                    &&& hidden is Some ==> {
                        &&& after.symbol == before.symbol
                        &&& after.style == before.style
                    }
                },
            forall|m: int| k <= m < drops ==> #[trigger] terminal@.characters[first + m] == old(terminal)@.characters[first + m],
        decreases drops - k,
    {
        proof {
            lemma_rain_fold_rest(old(xs)@, old(ys)@, speeds@, old(rng)@, width, height, drift, k as nat);
        }
        let ghost before = terminal@.characters;
        let ghost xs_before = xs@;
        let ghost ys_before = ys@;
        let mut x = xs[k];
        let mut y = fall(ys[k], speeds[k]);
        if y >= height as i32 {
            y = 0;
            x = rng.range(width) as i32;
        } else if drift {
            if rng.range(4) == 0 {
                x = (x + 1) % (width as i32);
            }
        }
        xs.set(k, x);
        ys.set(k, y);
        let index = first + k;
        match hidden {
            None => {
                set_shown(terminal, index, true);
                move_to(terminal, index, Coord::new(x, y));
                repaint(terminal, index, next_rain_symbol(k), Style::default().with_foreground(Color::rgb(80, 130, 190)));
            },
            Some(limit) => {
                set_shown(terminal, index, k >= limit);
                move_to(terminal, index, Coord::new(x, y));
            },
        }
        proof {
            assert forall|m: int| 0 <= m < drops && m != k implies #[trigger] terminal@.characters[first + m]
                == before[first + m] by {}
            assert forall|m: int| 0 <= m < k implies #[trigger] xs@[m] == xs_before[m] && ys@[m] == ys_before[m] by {}
        }
        k += 1;
    }
}

/// Shows each of the first `count` characters in its input symbol, in the storm's light
/// for its glow and the flash.
fn light_text(terminal: &mut Terminal, glow: &Vec<u8>, flash: u8)
    requires
        old(terminal).wf(),
        glow.len() <= old(terminal)@.characters.len(),
    ensures
        final(terminal).wf(),
        final(terminal)@.canvas == old(terminal)@.canvas,
        final(terminal)@.next_id == old(terminal)@.next_id,
        same_outside(old(terminal)@.characters, final(terminal)@.characters, 0, glow.len() as int),
        same_places(old(terminal)@.characters, final(terminal)@.characters, glow.len() as int),
        forall|i: int|
            0 <= i < glow.len() ==> {
                &&& (#[trigger] final(terminal)@.characters[i]).symbol == old(terminal)@.characters[i].input_symbol
                &&& final(terminal)@.characters[i].style == storm_style(glow@[i], flash)
                &&& final(terminal)@.characters[i].visible == old(terminal)@.characters[i].visible
            },
{
    let mut i: usize = 0;
    while i < glow.len()
        invariant
            i <= glow.len(),
            glow.len() <= terminal@.characters.len(),
            terminal.wf(),
            terminal@.canvas == old(terminal)@.canvas,
            terminal@.next_id == old(terminal)@.next_id,
            same_outside(old(terminal)@.characters, terminal@.characters, 0, glow.len() as int),
            same_places(old(terminal)@.characters, terminal@.characters, glow.len() as int),
            forall|m: int|
                0 <= m < i ==> {
                    &&& (#[trigger] terminal@.characters[m]).symbol == old(terminal)@.characters[m].input_symbol
                    &&& terminal@.characters[m].style == storm_style(glow@[m], flash)
                    &&& terminal@.characters[m].visible == old(terminal)@.characters[m].visible
                },
            forall|m: int| i <= m < glow.len() ==> #[trigger] terminal@.characters[m] == old(terminal)@.characters[m],
        decreases glow.len() - i,
    {
        let symbol = terminal.characters()[i].input_symbol;
        let ghost before = terminal@.characters;
        repaint(terminal, i, symbol, storm_text_style(glow[i], flash));
        proof {
            assert forall|m: int| 0 <= m < glow.len() && m != i implies #[trigger] terminal@.characters[m]
                == before[m] by {}
        }
        i += 1;
    }
}

/// Shows each of the first `count` characters in its input symbol and `style`.
fn show_text(terminal: &mut Terminal, count: usize, style: Style)
    requires
        old(terminal).wf(),
        count <= old(terminal)@.characters.len(),
    ensures
        final(terminal).wf(),
        final(terminal)@.canvas == old(terminal)@.canvas,
        final(terminal)@.next_id == old(terminal)@.next_id,
        same_outside(old(terminal)@.characters, final(terminal)@.characters, 0, count as int),
        same_places(old(terminal)@.characters, final(terminal)@.characters, count as int),
        forall|i: int|
            0 <= i < count ==> {
                &&& (#[trigger] final(terminal)@.characters[i]).visible
                &&& final(terminal)@.characters[i].symbol == old(terminal)@.characters[i].input_symbol
                &&& final(terminal)@.characters[i].style == style
            },
{
    let mut i: usize = 0;
    while i < count
        invariant
            i <= count,
            count <= terminal@.characters.len(),
            terminal.wf(),
            terminal@.canvas == old(terminal)@.canvas,
            terminal@.next_id == old(terminal)@.next_id,
            same_outside(old(terminal)@.characters, terminal@.characters, 0, count as int),
            same_places(old(terminal)@.characters, terminal@.characters, count as int),
            forall|j: int|
                0 <= j < i ==> {
                    &&& (#[trigger] terminal@.characters[j]).visible
                    &&& terminal@.characters[j].symbol == old(terminal)@.characters[j].input_symbol
                    &&& terminal@.characters[j].style == style
                },
        decreases count - i,
    {
        let symbol = terminal.characters()[i].input_symbol;
        set_shown(terminal, i, true);
        repaint(terminal, i, symbol, style);
        i += 1;
    }
}

/// The look of a bolt of lightning: bold and bright.
pub open spec fn bolt_style() -> Style {
    Style { bold: true, ..foreground_only(Color::Rgb { r: 245, g: 248, b: 255 }) }
}

/// The columns of a bolt of lightning in its first `n` rows, drawn from the storm's
/// generator at `state`: a random column in the top row, then every second row one column
/// left, none or one right at random, kept on a canvas `width` wide. Returns them and the
/// generator's state after.
pub open spec fn bolt_columns(state: u64, width: usize, n: nat) -> (Seq<i32>, u64)
    decreases n,
{
    if n == 0 {
        (Seq::empty(), storm_draw(state, width).1)
    } else {
        let (before, current) = bolt_columns(state, width, (n - 1) as nat);
        let y = n - 1;
        let last = bolt_last(state, width, before, y);
        if y > 0 && y % 2 == 0 {
            let (turn, next) = storm_draw(current, 3);
            let moved = if turn == 0 {
                last - 1
            } else if turn != 1 {
                last + 1
            } else {
                last as int
            };
            let kept = if moved < 0 {
                0
            } else if moved > width - 1 {
                width - 1
            } else {
                moved
            };
            (before.push(kept as i32), next)
        } else {
            (before.push(last), current)
        }
    }
}

/// The bolt's column in the row above row `y` (for the top row, the column it starts from).
pub open spec fn bolt_last(state: u64, width: usize, columns: Seq<i32>, y: int) -> i32 {
    if y == 0 {
        storm_draw(state, width).0 as i32
    } else {
        columns[y - 1]
    }
}

/// The symbol of the bolt in row `y`: slanting the way it moved from the row above.
pub open spec fn bolt_symbol(state: u64, width: usize, columns: Seq<i32>, y: int) -> char {
    if columns[y] < bolt_last(state, width, columns, y) {
        '/'
    } else if columns[y] > bolt_last(state, width, columns, y) {
        '\\'
    } else {
        '|'
    }
}

/// Whether the bolt with `columns` passes through `position` in its first `n` rows.
pub open spec fn bolt_hits(columns: Seq<i32>, position: Coord, n: int) -> bool {
    0 <= position.y < n && columns[position.y as int] == position.x
}

proof fn lemma_bolt_prefix(state: u64, width: usize, n: nat, m: nat)
    requires
        n <= m,
    ensures
        bolt_columns(state, width, m).0.len() == m,
        forall|y: int| 0 <= y < n ==> #[trigger] bolt_columns(state, width, n).0[y] == bolt_columns(state, width, m).0[y],
    decreases m,
{
    if m > 0 {
        if n < m {
            lemma_bolt_prefix(state, width, n, (m - 1) as nat);
        }
        lemma_bolt_prefix(state, width, (m - 1) as nat, (m - 1) as nat);
    }
}

/// Adds a visible, bold, bright bolt character showing `symbol` at `coord` after the
/// others.
fn add_bolt_piece(terminal: &mut Terminal, symbol: char, coord: Coord)
    requires
        old(terminal).wf(),
    ensures
        final(terminal).wf(),
        final(terminal)@.canvas == old(terminal)@.canvas,
        final(terminal)@.characters.len() == old(terminal)@.characters.len() + 1,
        forall|i: int|
            0 <= i < old(terminal)@.characters.len() ==> #[trigger] final(terminal)@.characters[i]
                == old(terminal)@.characters[i],
        ({
            let piece = final(terminal)@.characters[old(terminal)@.characters.len() as int];
            &&& piece.position == coord
            &&& piece.symbol == symbol
            &&& piece.style == bolt_style()
            &&& piece.visible
        }),
{
    terminal.add_character(symbol, coord);
    let ghost added = terminal@.characters;
    let last = terminal.characters().len() - 1;
    let mut style = Style::default().with_foreground(Color::rgb(245, 248, 255));
    style.bold = true;
    repaint(terminal, last, symbol, style);
    set_shown(terminal, last, true);
    proof {
        assert forall|i: int| 0 <= i < old(terminal)@.characters.len() implies #[trigger] terminal@.characters[i]
            == old(terminal)@.characters[i] by {
            assert(added.drop_last()[i] == added[i]);
        }
    }
}

/// A glow of eight for each of the first `glow.len()` characters standing at `coord`.
fn mark_hits(terminal: &Terminal, glow: &mut Vec<u8>, coord: Coord)
    requires
        old(glow).len() <= terminal@.characters.len(),
    ensures
        final(glow).len() == old(glow).len(),
        forall|i: int|
            0 <= i < old(glow).len() ==> #[trigger] final(glow)@[i] == if terminal@.characters[i].position == coord {
                8u8
            } else {
                old(glow)@[i]
            },
{
    let mut i: usize = 0;
    while i < glow.len()
        invariant
            i <= glow.len(),
            glow.len() <= terminal@.characters.len(),
            glow.len() == old(glow).len(),
            forall|m: int|
                0 <= m < i ==> #[trigger] glow@[m] == if terminal@.characters[m].position == coord {
                    8u8
                } else {
                    old(glow)@[m]
                },
            forall|m: int| i <= m < glow.len() ==> #[trigger] glow@[m] == old(glow)@[m],
        decreases glow.len() - i,
    {
        if terminal.characters()[i].position == coord {
            glow.set(i, 8);
        }
        i += 1;
    }
}

/// A bolt of lightning from the top row down through every row (at least one) of a canvas
/// `width` wide, from a random column and drifting at random a column left or right every
/// second row; each bolt character is added after the others, bold and bright. Each of the
/// first `glow.len()` characters that the bolt passes through gets a glow of eight.
fn strike(terminal: &mut Terminal, rng: &mut StormRng, glow: &mut Vec<u8>, width: usize, height: usize)
    requires
        old(terminal).wf(),
        old(glow).len() <= old(terminal)@.characters.len(),
        1 <= width <= i32::MAX,
        1 <= height <= i32::MAX,
    ensures
        final(terminal).wf(),
        final(terminal)@.canvas == old(terminal)@.canvas,
        final(terminal)@.characters.len() >= old(terminal)@.characters.len(),
        forall|i: int|
            0 <= i < old(terminal)@.characters.len() ==> #[trigger] final(terminal)@.characters[i]
                == old(terminal)@.characters[i],
        final(glow).len() == old(glow).len(),
        final(terminal)@.characters.len() == old(terminal)@.characters.len() + height,
        final(rng)@ == bolt_columns(old(rng)@, width, height as nat).1,
        forall|y: int|
            0 <= y < height ==> {
                let columns = bolt_columns(old(rng)@, width, height as nat).0;
                let piece = #[trigger] final(terminal)@.characters[old(terminal)@.characters.len() + y];
                &&& piece.position == Coord { x: columns[y], y: y as i32 }
                &&& piece.symbol == bolt_symbol(old(rng)@, width, columns, y)
                &&& piece.style == bolt_style()
                &&& piece.visible
            },
        forall|i: int|
            0 <= i < old(glow).len() ==> #[trigger] final(glow)@[i] == if bolt_hits(
                bolt_columns(old(rng)@, width, height as nat).0,
                old(terminal)@.characters[i].position,
                height as int,
            ) {
                8u8
            } else {
                old(glow)@[i]
            },
{
    let ghost start = old(rng)@;
    let ghost base = old(terminal)@.characters.len();
    let width_i32 = width as i32;
    let mut x = rng.range(width) as i32;
    let rows = height as i32;
    let mut y: i32 = 0;
    while y < rows
        invariant
            0 <= y <= rows,
            rows == height,
            1 <= width <= i32::MAX,
            width_i32 == width,
            0 <= x < width_i32,
            start == old(rng)@,
            base == old(terminal)@.characters.len(),
            bolt_columns(start, width, y as nat).0.len() == y,
            rng@ == bolt_columns(start, width, y as nat).1,
            x == bolt_last(start, width, bolt_columns(start, width, y as nat).0, y as int),
            terminal.wf(),
            terminal@.canvas == old(terminal)@.canvas,
            terminal@.characters.len() == base + y,
            forall|i: int|
                0 <= i < old(terminal)@.characters.len() ==> #[trigger] terminal@.characters[i]
                    == old(terminal)@.characters[i],
            forall|r: int|
                0 <= r < y ==> {
                    let columns = bolt_columns(start, width, y as nat).0;
                    let piece = #[trigger] terminal@.characters[base + r];
                    &&& piece.position == Coord { x: columns[r], y: r as i32 }
                    &&& piece.symbol == bolt_symbol(start, width, columns, r)
                    &&& piece.style == bolt_style()
                    &&& piece.visible
                },
            glow.len() == old(glow).len(),
            glow.len() <= old(terminal)@.characters.len(),
            forall|i: int|
                0 <= i < glow.len() ==> #[trigger] glow@[i] == if bolt_hits(
                    bolt_columns(start, width, y as nat).0,
                    old(terminal)@.characters[i].position,
                    y as int,
                ) {
                    8u8
                } else {
                    old(glow)@[i]
                },
        decreases rows - y,
    {
        let ghost columns_before = bolt_columns(start, width, y as nat).0;
        let ghost terminal_before = terminal@.characters;
        let ghost glow_before = glow@;
        let previous = x;
        if y > 0 && y % 2 == 0 {
            let turn = rng.range(3);
            if turn == 0 {
                x = x - 1;
            } else if turn != 1 {
                x = x + 1;
            }
            if x < 0 {
                x = 0;
            } else if x > width_i32 - 1 {
                x = width_i32 - 1;
            }
        }
        let symbol = if x < previous {
            '/'
        } else if x > previous {
            '\\'
        } else {
            '|'
        };
        let coord = Coord::new(x, y);
        add_bolt_piece(terminal, symbol, coord);
        mark_hits(terminal, glow, coord);
        proof {
            let columns = bolt_columns(start, width, (y + 1) as nat).0;
            lemma_bolt_prefix(start, width, y as nat, (y + 1) as nat);
            assert(columns == columns_before.push(x));
            assert(columns[y as int] == x);
            assert(bolt_last(start, width, columns, y as int) == previous);
            assert forall|r: int| 0 <= r < y + 1 implies {
                let piece = #[trigger] terminal@.characters[base + r];
                &&& piece.position == Coord { x: columns[r], y: r as i32 }
                &&& piece.symbol == bolt_symbol(start, width, columns, r)
                &&& piece.style == bolt_style()
                &&& piece.visible
            } by {
                if r < y {
                    assert(terminal@.characters[base + r] == terminal_before[base + r]);
                    assert(columns[r] == columns_before[r]);
                    if r > 0 {
                        assert(columns[r - 1] == columns_before[r - 1]);
                    }
                }
            }
            assert forall|i: int| 0 <= i < glow.len() implies #[trigger] glow@[i] == if bolt_hits(
                columns,
                old(terminal)@.characters[i].position,
                (y + 1) as int,
            ) {
                8u8
            } else {
                old(glow)@[i]
            } by {
                let p = old(terminal)@.characters[i].position;
                assert(terminal@.characters[i] == old(terminal)@.characters[i]);
                if 0 <= p.y < y {
                    assert(columns[p.y as int] == columns_before[p.y as int]);
                }
            }
        }
        y += 1;
    }
}

/// Every glow one lower, stopping at zero.
fn fade_glow(glow: &mut Vec<u8>)
    ensures
        final(glow).len() == old(glow).len(),
        forall|i: int|
            0 <= i < old(glow).len() ==> #[trigger] final(glow)@[i] == if old(glow)@[i] > 0 {
                (old(glow)@[i] - 1) as u8
            } else {
                0u8
            },
{
    let mut i: usize = 0;
    while i < glow.len()
        invariant
            i <= glow.len(),
            glow.len() == old(glow).len(),
            forall|m: int|
                0 <= m < i ==> #[trigger] glow@[m] == if old(glow)@[m] > 0 {
                    (old(glow)@[m] - 1) as u8
                } else {
                    0u8
                },
            forall|m: int| i <= m < glow.len() ==> #[trigger] glow@[m] == old(glow)@[m],
        decreases glow.len() - i,
    {
        if glow[i] > 0 {
            let dimmer = glow[i] - 1;
            glow.set(i, dimmer);
        }
        i += 1;
    }
}

/// The look of the text before the storm breaks.
pub open spec fn dark_style() -> Style {
    foreground_only(Color::Rgb { r: 42, g: 45, b: 64 })
}

/// The look of the clouds outside a lightning flash.
pub open spec fn cloud_style() -> Style {
    foreground_only(Color::Rgb { r: 70, g: 75, b: 96 })
}

/// Where cloud `index` of `count` stands `distance` columns off the column it settles on:
/// left of it for even clouds, right of it for odd ones.
pub open spec fn cloud_x(index: int, count: nat, width: nat, distance: int) -> int {
    if index % 2 == 0 {
        cloud_target(index as nat, count, width) - distance
    } else {
        cloud_target(index as nat, count, width) + distance
    }
}

/// Cloud `index` on the top row at column `x`.
pub open spec fn cloud_character(index: int, x: int) -> EffectCharacter {
    EffectCharacter {
        id: CharacterId(0),
        input_symbol: cloud_symbol(index),
        symbol: cloud_symbol(index),
        position: Coord { x: x as i32, y: 0 },
        style: cloud_style(),
        visible: true,
        animation: arbitrary(),
    }
}

/// Frame `frame` (of ten) of the clouds drifting in: the text dark, and each cloud
/// `9 - frame` columns off the column it settles on, drawn over the text.
pub open spec fn forming_frame(text: Seq<char>, frame: int) -> Seq<char> {
    let cells = text_cells(text_rows(text));
    let width = text_grid(text).0;
    let clouds = cloud_count(width);
    render_canvas(
        draw_all(
            text_canvas(text),
            Seq::new(cells.len(), |i: int| lit_character(cells[i], dark_style())) + Seq::new(
                clouds,
                |k: int| cloud_character(k, cloud_x(k, clouds, width, 9 - frame)),
            ),
        ),
    )
}

/// Drawing the dark text, then the clouds at their places for `frame`, with every later
/// character hidden, gives the frame of the clouds drifting in.
proof fn lemma_forming_frame(text: Seq<char>, characters: Seq<EffectCharacter>, frame: int)
    requires
        characters.len() >= text_cells(text_rows(text)).len() + cloud_count(text_grid(text).0),
        forall|i: int|
            0 <= i < text_cells(text_rows(text)).len() ==> same_look(
                #[trigger] characters[i],
                lit_character(text_cells(text_rows(text))[i], dark_style()),
            ),
        forall|k: int|
            0 <= k < cloud_count(text_grid(text).0) ==> same_look(
                #[trigger] characters[text_cells(text_rows(text)).len() + k],
                cloud_character(
                    k,
                    cloud_x(k, cloud_count(text_grid(text).0), text_grid(text).0, 9 - frame),
                ),
            ),
        forall|i: int|
            text_cells(text_rows(text)).len() + cloud_count(text_grid(text).0) <= i < characters.len()
                ==> !(#[trigger] characters[i]).visible,
    ensures
        render_canvas(draw_all(text_canvas(text), characters)) == forming_frame(text, frame),
{
    let cells = text_cells(text_rows(text));
    let width = text_grid(text).0;
    let clouds = cloud_count(width);
    let canvas = text_canvas(text);
    let shown_count = cells.len() + clouds;
    let shown = characters.take(shown_count as int);
    let expected = Seq::new(cells.len(), |i: int| lit_character(cells[i], dark_style())) + Seq::new(
        clouds,
        |k: int| cloud_character(k, cloud_x(k, clouds, width, 9 - frame)),
    );
    lemma_hidden_characters_draw_nothing(canvas, characters, shown_count as int);
    assert forall|i: int| 0 <= i < shown.len() implies same_look(#[trigger] shown[i], expected[i]) by {
        assert(shown[i] == characters[i]);
        if i >= cells.len() {
            let k = i - cells.len();
            assert(characters[cells.len() + k] == characters[i]);
        }
    }
    lemma_draw_all_looks(canvas, shown, expected);
}

/// Frame `frame` of the clouds drifting in: each cloud stands `9 - frame` columns off its
/// target and shows.
#[verifier::spinoff_prover]
#[verifier::rlimit(40)]
fn gather_step(
    terminal: &mut Terminal,
    input: &str,
    count: usize,
    targets: &Vec<i32>,
    width: usize,
    frame: usize,
    frames: &mut Vec<String>,
)
    requires
        old(terminal).wf(),
        frame < 10,
        cleared(old(terminal)@.canvas) == text_canvas(input@),
        count == text_cells(text_rows(input@)).len(),
        width == text_grid(input@).0,
        width + 9 <= i32::MAX,
        targets.len() == cloud_count(width as nat),
        count + targets.len() <= old(terminal)@.characters.len(),
        forall|k: int|
            0 <= k < targets.len() ==> 0 <= #[trigger] targets@[k] < width && targets@[k] == cloud_target(
                k as nat,
                targets.len() as nat,
                width as nat,
            ),
        forall|i: int|
            0 <= i < count ==> same_look(
                #[trigger] old(terminal)@.characters[i],
                lit_character(text_cells(text_rows(input@))[i], dark_style()),
            ),
        forall|k: int|
            0 <= k < targets.len() ==> {
                &&& (#[trigger] old(terminal)@.characters[count + k]).symbol == cloud_symbol(k)
                &&& old(terminal)@.characters[count + k].style == cloud_style()
            },
        forall|i: int|
            count + targets.len() <= i < old(terminal)@.characters.len() ==> !(
            #[trigger] old(terminal)@.characters[i]).visible,
    ensures
        final(terminal).wf(),
        cleared(final(terminal)@.canvas) == cleared(old(terminal)@.canvas),
        final(terminal)@.next_id == old(terminal)@.next_id,
        same_outside(old(terminal)@.characters, final(terminal)@.characters, count as int, count + targets.len()),
        forall|k: int|
            0 <= k < targets.len() ==> {
                &&& (#[trigger] final(terminal)@.characters[count + k]).symbol == cloud_symbol(k)
                &&& final(terminal)@.characters[count + k].style == cloud_style()
                &&& final(terminal)@.characters[count + k].visible
                &&& final(terminal)@.characters[count + k].position == Coord {
                    x: (if k % 2 == 0 { targets@[k] - (9 - frame) } else { targets@[k] + (9 - frame) }) as i32,
                    y: 0,
                }
            },
        final(frames).len() == old(frames).len() + 1,
        forall|f: int| 0 <= f < old(frames).len() ==> #[trigger] final(frames)@[f] == old(frames)@[f],
        final(frames)@.last()@ == forming_frame(input@, frame as int),
{
    let ghost cells = text_cells(text_rows(input@));
    let ghost clouds = targets.len();
    let ghost before = terminal@.characters;
    place_clouds(terminal, count, targets, (9 - frame) as i32, width, true);
    let ghost placed = terminal@;
    proof {
        assert forall|i: int| 0 <= i < count implies same_look(
            #[trigger] placed.characters[i],
            lit_character(cells[i], dark_style()),
        ) by {
            assert(placed.characters[i] == old(terminal)@.characters[i]);
        }
        assert forall|k: int| 0 <= k < clouds implies same_look(
            #[trigger] placed.characters[count + k],
            cloud_character(k, cloud_x(k, clouds as nat, width as nat, 9 - frame)),
        ) by {
            assert(placed_cloud(
                before[count + k],
                placed.characters[count + k],
                k,
                targets@[k] as int,
                (9 - frame) as int,
                true,
            ));
        }
        assert forall|i: int| count + clouds <= i < placed.characters.len() implies !(
        #[trigger] placed.characters[i]).visible by {
            assert(placed.characters[i] == old(terminal)@.characters[i]);
        }
        lemma_forming_frame(input@, placed.characters, frame as int);
    }
    snapshot(terminal, frames);
    proof {
        assert(terminal@.characters == placed.characters);
        assert forall|k: int| 0 <= k < clouds implies {
            &&& (#[trigger] terminal@.characters[count + k]).visible
            &&& terminal@.characters[count + k].position == Coord {
                x: (if k % 2 == 0 { targets@[k] - (9 - frame) } else { targets@[k] + (9 - frame) }) as i32,
                y: 0,
            }
        } by {
            assert(placed_cloud(
                before[count + k],
                placed.characters[count + k],
                k,
                targets@[k] as int,
                (9 - frame) as int,
                true,
            ));
        }
    }
}

/// Ten frames of the clouds (characters `count..count + targets.len()`) drifting in, one
/// column a frame, until they stand on the columns `targets`.
#[verifier::spinoff_prover]
#[verifier::rlimit(80)]
fn gather_clouds(
    terminal: &mut Terminal,
    input: &str,
    count: usize,
    targets: &Vec<i32>,
    width: usize,
    frames: &mut Vec<String>,
)
    requires
        old(terminal).wf(),
        cleared(old(terminal)@.canvas) == text_canvas(input@),
        count == text_cells(text_rows(input@)).len(),
        width == text_grid(input@).0,
        width + 9 <= i32::MAX,
        targets.len() == cloud_count(width as nat),
        count + targets.len() <= old(terminal)@.characters.len(),
        forall|k: int|
            0 <= k < targets.len() ==> 0 <= #[trigger] targets@[k] < width && targets@[k] == cloud_target(
                k as nat,
                targets.len() as nat,
                width as nat,
            ),
        forall|i: int|
            0 <= i < count ==> same_look(
                #[trigger] old(terminal)@.characters[i],
                lit_character(text_cells(text_rows(input@))[i], dark_style()),
            ),
        forall|k: int|
            0 <= k < targets.len() ==> {
                &&& (#[trigger] old(terminal)@.characters[count + k]).symbol == cloud_symbol(k)
                &&& old(terminal)@.characters[count + k].style == cloud_style()
            },
        forall|i: int|
            count + targets.len() <= i < old(terminal)@.characters.len() ==> !(
            #[trigger] old(terminal)@.characters[i]).visible,
    ensures
        final(terminal).wf(),
        cleared(final(terminal)@.canvas) == cleared(old(terminal)@.canvas),
        final(terminal)@.next_id == old(terminal)@.next_id,
        same_outside(old(terminal)@.characters, final(terminal)@.characters, count as int, count + targets.len()),
        final(frames).len() == old(frames).len() + 10,
        forall|f: int| 0 <= f < old(frames).len() ==> #[trigger] final(frames)@[f] == old(frames)@[f],
        forall|f: int|
            0 <= f < 10 ==> (#[trigger] final(frames)@[old(frames).len() + f])@ == forming_frame(input@, f),
        forall|k: int|
            0 <= k < targets.len() ==> {
                &&& (#[trigger] final(terminal)@.characters[count + k]).visible
                &&& final(terminal)@.characters[count + k].position == Coord {
                    x: cloud_x(k, targets.len() as nat, width as nat, 0) as i32,
                    y: 0,
                }
            },
{
    let ghost cells = text_cells(text_rows(input@));
    let ghost clouds = targets.len();
    let mut frame: usize = 0;
    while frame < 10
        invariant
            frame <= 10,
            frames.len() == old(frames).len() + frame,
            forall|f: int| 0 <= f < old(frames).len() ==> #[trigger] frames@[f] == old(frames)@[f],
            forall|f: int|
                0 <= f < frame ==> (#[trigger] frames@[old(frames).len() + f])@ == forming_frame(input@, f),
            cells == text_cells(text_rows(input@)),
            clouds == targets.len(),
            width == text_grid(input@).0,
            width + 9 <= i32::MAX,
            clouds == cloud_count(width as nat),
            forall|k: int|
                0 <= k < clouds ==> 0 <= #[trigger] targets@[k] < width && targets@[k] == cloud_target(
                    k as nat,
                    clouds as nat,
                    width as nat,
                ),
            terminal.wf(),
            cleared(terminal@.canvas) == cleared(old(terminal)@.canvas),
            cleared(old(terminal)@.canvas) == text_canvas(input@),
            terminal@.next_id == old(terminal)@.next_id,
            same_outside(old(terminal)@.characters, terminal@.characters, count as int, count + clouds),
            forall|k: int|
                0 <= k < clouds ==> {
                    &&& (#[trigger] terminal@.characters[count + k]).symbol == cloud_symbol(k)
                    &&& terminal@.characters[count + k].style == cloud_style()
                },
            count == cells.len(),
            count + clouds <= old(terminal)@.characters.len(),
            forall|i: int|
                0 <= i < count ==> same_look(
                    #[trigger] old(terminal)@.characters[i],
                    lit_character(cells[i], dark_style()),
                ),
            forall|i: int|
                count + clouds <= i < old(terminal)@.characters.len() ==> !(
                #[trigger] old(terminal)@.characters[i]).visible,
            frame > 0 ==> forall|k: int|
                0 <= k < clouds ==> {
                    &&& (#[trigger] terminal@.characters[count + k]).visible
                    &&& terminal@.characters[count + k].position == Coord {
                        x: (if k % 2 == 0 { targets@[k] - (10 - frame) } else { targets@[k] + (10 - frame) }) as i32,
                        y: 0,
                    }
                },
        decreases 10 - frame,
    {
        gather_step(terminal, input, count, targets, width, frame, frames);
        frame += 1;
    }
    proof {
        assert forall|k: int| 0 <= k < clouds implies {
            &&& (#[trigger] terminal@.characters[count + k]).visible
            &&& terminal@.characters[count + k].position == Coord {
                x: cloud_x(k, clouds as nat, width as nat, 0) as i32,
                y: 0,
            }
        } by {
            assert(targets@[k] == cloud_target(k as nat, clouds as nat, width as nat));
        }
    }
}

/// Twelve frames of the text alone brightening through `fade_colors`, then the text as it
/// came in; every character after the first `count` stays hidden.
#[verifier::spinoff_prover]
#[verifier::rlimit(40)]
fn fade_in(terminal: &mut Terminal, input: &str, count: usize, fade_colors: &Vec<Color>, frames: &mut Vec<String>)
    requires
        old(terminal).wf(),
        cleared(old(terminal)@.canvas) == text_canvas(input@),
        count == text_cells(text_rows(input@)).len(),
        at_home(old(terminal)@.characters, text_cells(text_rows(input@))),
        forall|i: int| count <= i < old(terminal)@.characters.len() ==> !(
        #[trigger] old(terminal)@.characters[i]).visible,
        fade_colors.len() == 12,
    ensures
        final(frames).len() == old(frames).len() + 13,
        forall|f: int| 0 <= f < old(frames).len() ==> #[trigger] final(frames)@[f] == old(frames)@[f],
        forall|f: int|
            0 <= f < 12 ==> (#[trigger] final(frames)@[old(frames).len() + f])@ == lit_text_frame(
                input@,
                foreground_only(fade_colors@[f]),
            ),
        final(frames)@[old(frames).len() + 12]@ == lit_text_frame(input@, plain_style()),
{
    let ghost cells = text_cells(text_rows(input@));
    let mut step: usize = 0;
    while step < 12
        invariant
            step <= 12,
            frames.len() == old(frames).len() + step,
            forall|f: int| 0 <= f < old(frames).len() ==> #[trigger] frames@[f] == old(frames)@[f],
            forall|f: int|
                0 <= f < step ==> (#[trigger] frames@[old(frames).len() + f])@ == lit_text_frame(
                    input@,
                    foreground_only(fade_colors@[f]),
                ),
            fade_colors.len() == 12,
            terminal.wf(),
            cleared(terminal@.canvas) == text_canvas(input@),
            cells == text_cells(text_rows(input@)),
            at_home(terminal@.characters, cells),
            count == cells.len(),
            forall|i: int| count <= i < terminal@.characters.len() ==> !(#[trigger] terminal@.characters[i]).visible,
        decreases 12 - step,
    {
        let style = Style::default().with_foreground(fade_colors[step]);
        show_text(terminal, count, style);
        let ghost shown = terminal@;
        proof {
            assert forall|i: int| 0 <= i < cells.len() implies {
                &&& (#[trigger] shown.characters[i]).visible
                &&& shown.characters[i].position == cells[i].1
                &&& shown.characters[i].symbol == cells[i].0
                &&& shown.characters[i].style == style
            } by {}
            lemma_text_alone(input@, shown.characters, style);
        }
        snapshot(terminal, frames);
        step += 1;
    }
    show_text(terminal, count, Style::default());
    proof {
        lemma_text_alone(input@, terminal@.characters, plain_style());
    }
    snapshot(terminal, frames);
}

/// The numbers of the storm between frames: the generator's state, the raindrops' columns
/// and rows, the text's glow, the flash left, how many bolts have struck, and the columns
/// of the last bolt with the generator's state it was drawn from.
pub struct StormNumbers {
    pub rng: u64,
    pub xs: Seq<i32>,
    pub ys: Seq<i32>,
    pub glow: Seq<u8>,
    pub flash: u8,
    pub strikes: nat,
    pub bolt: Seq<i32>,
    pub bolt_state: u64,
}

/// Whether lightning strikes in storm frame `s`.
pub open spec fn strike_frame(s: int) -> bool {
    s == 7 || s == 25 || s == 41 || s == 50
}

/// The numbers once lightning has struck in storm frame `s` (when it does): a new bolt
/// drawn from the generator, a glow of eight on the text it passes through, and a flash of
/// two frames.
pub open spec fn storm_struck(st: StormNumbers, s: int, cells: Seq<(char, Coord)>, width: usize, height: usize) -> StormNumbers {
    if strike_frame(s) {
        let (columns, next) = bolt_columns(st.rng, width, height as nat);
        StormNumbers {
            rng: next,
            glow: Seq::new(
                st.glow.len(),
                |i: int|
                    if bolt_hits(columns, cells[i].1, height as int) {
                        8u8
                    } else {
                        st.glow[i]
                    },
            ),
            flash: 2,
            strikes: st.strikes + 1,
            bolt: columns,
            bolt_state: st.rng,
            ..st
        }
    } else {
        st
    }
}

/// The numbers shown in storm frame `s`: after the strike (if any), the rain has fallen,
/// drifting in every fourth frame.
pub open spec fn storm_shown(
    st: StormNumbers,
    s: int,
    cells: Seq<(char, Coord)>,
    speeds: Seq<i32>,
    width: usize,
    height: usize,
) -> StormNumbers {
    storm_rained(storm_struck(st, s, cells, width, height), s, speeds, width, height)
}

/// The numbers once the rain of storm frame `s` has fallen, drifting in every fourth frame.
pub open spec fn storm_rained(st: StormNumbers, s: int, speeds: Seq<i32>, width: usize, height: usize) -> StormNumbers {
    let (xs, ys, rng) = rain_fold(st.xs, st.ys, speeds, st.rng, width, height, s % 4 == 0, speeds.len() as nat);
    StormNumbers { xs, ys, rng, ..st }
}

/// The numbers after a shown frame: the glow faded and the flash one frame shorter.
pub open spec fn storm_after_frame(shown: StormNumbers) -> StormNumbers {
    StormNumbers {
        glow: faded(shown.glow),
        flash: if shown.flash > 0 { (shown.flash - 1) as u8 } else { 0u8 },
        ..shown
    }
}

/// Every glow one lower, stopping at zero.
pub open spec fn faded(glow: Seq<u8>) -> Seq<u8> {
    Seq::new(glow.len(), |i: int| if glow[i] > 0 { (glow[i] - 1) as u8 } else { 0u8 })
}

/// The numbers at the start of the storm frame after `s`: those shown in frame `s`, with
/// the glow faded and the flash one frame shorter.
pub open spec fn storm_next(
    st: StormNumbers,
    s: int,
    cells: Seq<(char, Coord)>,
    speeds: Seq<i32>,
    width: usize,
    height: usize,
) -> StormNumbers {
    storm_after_frame(storm_shown(st, s, cells, speeds, width, height))
}

/// The numbers at the start of storm frame `s`, from `start` at the start of the storm.
pub open spec fn storm_numbers(
    start: StormNumbers,
    s: nat,
    cells: Seq<(char, Coord)>,
    speeds: Seq<i32>,
    width: usize,
    height: usize,
) -> StormNumbers
    decreases s,
{
    if s == 0 {
        start
    } else {
        storm_next(storm_numbers(start, (s - 1) as nat, cells, speeds, width, height), s - 1, cells, speeds, width, height)
    }
}

/// A character showing `symbol` at `position` in `style`, shown or hidden.
pub open spec fn look(symbol: char, position: Coord, style: Style, visible: bool) -> EffectCharacter {
    EffectCharacter {
        id: CharacterId(0),
        input_symbol: symbol,
        symbol,
        position,
        style,
        visible,
        animation: arbitrary(),
    }
}

/// The clouds' colour: bright in a flash, dark otherwise.
pub open spec fn storm_cloud_color(flash: u8) -> Color {
    if flash > 0 {
        Color::Rgb { r: 180, g: 190, b: 215 }
    } else {
        Color::Rgb { r: 70, g: 75, b: 96 }
    }
}

/// The rain's colour.
pub open spec fn rain_color() -> Color {
    Color::Rgb { r: 80, g: 130, b: 190 }
}

/// What the characters look like in a storm frame showing the numbers `st`: the text lit
/// by its glow and the flash, the clouds on their columns, the raindrops, and the bolts that
/// have struck, of which only the last shows, and only during its flash.
pub open spec fn storm_looks(
    cells: Seq<(char, Coord)>,
    clouds: nat,
    width: nat,
    drops: nat,
    height: nat,
    st: StormNumbers,
) -> Seq<EffectCharacter> {
    let count = cells.len();
    let rain = count + clouds;
    let bolts = rain + drops;
    let last = bolts + (st.strikes - 1) * height;
    Seq::new(
        bolts + st.strikes * height,
        |i: int|
            if i < count {
                lit_character(cells[i], storm_style(st.glow[i], st.flash))
            } else if i < rain {
                look(
                    cloud_symbol(i - count),
                    Coord { x: cloud_x(i - count, clouds, width, 0) as i32, y: 0 },
                    foreground_only(storm_cloud_color(st.flash)),
                    true,
                )
            } else if i < bolts {
                look(
                    rain_symbol(i - rain),
                    Coord { x: st.xs[i - rain], y: st.ys[i - rain] },
                    foreground_only(rain_color()),
                    true,
                )
            } else if st.flash > 0 && st.strikes >= 1 && i >= last {
                look(
                    bolt_symbol(st.bolt_state, width as usize, st.bolt, i - last),
                    Coord { x: st.bolt[i - last], y: (i - last) as i32 },
                    bolt_style(),
                    true,
                )
            } else {
                look(' ', Coord { x: 0, y: 0 }, plain_style(), false)
            },
    )
}

/// Storm frame `s` over `text`, the storm having started from the numbers `start` with
/// raindrops of `speeds`.
pub open spec fn storm_frame_from(text: Seq<char>, start: StormNumbers, speeds: Seq<i32>, s: int) -> Seq<char> {
    let cells = text_cells(text_rows(text));
    let (width, height) = text_grid(text);
    let st = storm_shown(
        storm_numbers(start, s as nat, cells, speeds, width as usize, height as usize),
        s,
        cells,
        speeds,
        width as usize,
        height as usize,
    );
    render_canvas(draw_all(text_canvas(text), storm_looks(cells, cloud_count(width), width, speeds.len(), height, st)))
}

/// The raindrops as the storm sets them up, drawn from the generator at `state`: for each
/// of `n` drops a column, a row and a speed of one or two rows a frame; and the
/// generator's state after.
pub open spec fn rain_setup(state: u64, width: usize, height: usize, n: nat) -> (Seq<i32>, Seq<i32>, Seq<i32>, u64)
    decreases n,
{
    if n == 0 {
        (Seq::empty(), Seq::empty(), Seq::empty(), state)
    } else {
        let (xs, ys, speeds, current) = rain_setup(state, width, height, (n - 1) as nat);
        let (x, first) = storm_draw(current, width);
        let (y, second) = storm_draw(first, height);
        let (speed, third) = storm_draw(second, 2);
        (xs.push(x as i32), ys.push(y as i32), speeds.push((1 + speed) as i32), third)
    }
}

/// The numbers the storm over `text` starts from, and the raindrops' speeds: the generator
/// seeded from the text's `bytes` has set up the rain, and the text has no glow.
pub open spec fn storm_start(text: Seq<char>, bytes: Seq<u8>) -> (StormNumbers, Seq<i32>) {
    let cells = text_cells(text_rows(text));
    let (width, height) = text_grid(text);
    let seed = nonzero_or(fnv1a(bytes) ^ 0x7468_756e_6465_7273u64, golden_seed());
    let (xs, ys, speeds, state) = rain_setup(seed, width as usize, height as usize, rain_count(width, height));
    (
        StormNumbers {
            rng: state,
            xs,
            ys,
            glow: Seq::new(cells.len(), |i: int| 0u8),
            flash: 0,
            strikes: 0,
            bolt: Seq::empty(),
            bolt_state: 0,
        },
        speeds,
    )
}

/// Storm frame `s` (of fifty-six) over `text`, whose bytes are `bytes`.
pub open spec fn storm_frame(text: Seq<char>, bytes: Seq<u8>, s: int) -> Seq<char> {
    storm_frame_from(text, storm_start(text, bytes).0, storm_start(text, bytes).1, s)
}

/// Characters that draw as `storm_looks` says draw the storm frame.
proof fn lemma_storm_frame(
    canvas: CanvasView,
    characters: Seq<EffectCharacter>,
    cells: Seq<(char, Coord)>,
    clouds: nat,
    width: nat,
    drops: nat,
    height: nat,
    st: StormNumbers,
)
    requires
        storm_drawn(characters, cells, clouds, width, drops, height, st),
    ensures
        draw_all(canvas, characters) == draw_all(canvas, storm_looks(cells, clouds, width, drops, height, st)),
{
    let count = cells.len();
    let rain = count + clouds;
    let bolts = rain + drops;
    let last = bolts + (st.strikes - 1) * height;
    let looks = storm_looks(cells, clouds, width, drops, height, st);
    assert forall|i: int| 0 <= i < characters.len() implies same_drawn(#[trigger] characters[i], looks[i]) by {
        if i < count {
        } else if i < rain {
            assert(same_look(characters[count + (i - count)], looks[i]));
        } else if i < bolts {
            assert(same_look(characters[rain + (i - rain)], looks[i]));
        } else if st.flash > 0 && st.strikes >= 1 && i >= last {
            assert(characters[i].visible);
            assert((st.strikes - 1) * height + height == st.strikes * height) by (nonlinear_arith)
                requires
                    st.strikes >= 1,
            ;
            assert(0 <= i - last < height);
            assert(same_look(characters[last + (i - last)], looks[i]));
        } else {
            assert(!characters[i].visible);
        }
    }
    lemma_draw_all_drawn(canvas, characters, looks);
}

/// The storm between frames, its numbers at `st`: the text at home and shown, the clouds
/// shown on their columns, the raindrops after them, and after those the bolts that have
/// struck, `st.strikes` of `height` pieces each. The pieces before `bolt_start` are hidden
/// and those from it on (the last bolt, or none) shown; a flash shows the last bolt; and
/// the last bolt's pieces stand and look as its numbers say.
pub open spec fn storm_stage(
    terminal: TerminalView,
    cells: Seq<(char, Coord)>,
    clouds: nat,
    width: usize,
    height: usize,
    drops: nat,
    bolt_start: int,
    st: StormNumbers,
) -> bool {
    let base = cells.len() + clouds + drops;
    let len = terminal.characters.len();
    &&& at_home(terminal.characters, cells)
    &&& forall|i: int| 0 <= i < cells.len() ==> (#[trigger] terminal.characters[i]).visible
    &&& forall|k: int|
        0 <= k < clouds ==> {
            &&& (#[trigger] terminal.characters[cells.len() + k]).visible
            &&& terminal.characters[cells.len() + k].position == Coord {
                x: cloud_x(k, clouds, width as nat, 0) as i32,
                y: 0,
            }
        }
    &&& len == base + st.strikes * height
    &&& base <= bolt_start <= len
    &&& (bolt_start == len || (st.strikes >= 1 && bolt_start + height == len))
    &&& st.flash > 0 ==> st.strikes >= 1 && bolt_start + height == len
    &&& forall|p: int| base <= p < bolt_start ==> !(#[trigger] terminal.characters[p]).visible
    &&& forall|p: int| bolt_start <= p < len ==> (#[trigger] terminal.characters[p]).visible
    &&& st.strikes >= 1 ==> forall|y: int|
        0 <= y < height ==> {
            let piece = #[trigger] terminal.characters[base + (st.strikes - 1) * height + y];
            &&& piece.position == Coord { x: st.bolt[y], y: y as i32 }
            &&& piece.symbol == bolt_symbol(st.bolt_state, width, st.bolt, y)
            &&& piece.style == bolt_style()
        }
}

/// The start of storm frame `storm_frame`: once a flash is over the last bolt is hidden,
/// and in a strike frame lightning strikes.
#[verifier::spinoff_prover]
#[verifier::rlimit(60)]
fn storm_strike(
    terminal: &mut Terminal,
    rng: &mut StormRng,
    glow: &mut Vec<u8>,
    count: usize,
    clouds: usize,
    drops: usize,
    width: usize,
    height: usize,
    bolt_start: &mut usize,
    flash: &mut u8,
    storm_frame: usize,
    Ghost(cells): Ghost<Seq<(char, Coord)>>,
    Ghost(st): Ghost<StormNumbers>,
)
    requires
        old(terminal).wf(),
        count == cells.len(),
        1 <= width <= i32::MAX,
        1 <= height <= i32::MAX,
        storm_stage(old(terminal)@, cells, clouds as nat, width, height, drops as nat, *old(bolt_start) as int, st),
        old(rng)@ == st.rng,
        old(glow)@ == st.glow,
        *old(flash) == st.flash,
        old(glow).len() == count,
    ensures
        final(terminal).wf(),
        final(terminal)@.canvas == old(terminal)@.canvas,
        ({
            let struck = storm_struck(st, storm_frame as int, cells, width, height);
            &&& storm_stage(final(terminal)@, cells, clouds as nat, width, height, drops as nat, *final(bolt_start) as int, struck)
            &&& struck.flash == 0 ==> *final(bolt_start) == final(terminal)@.characters.len()
            &&& final(rng)@ == struck.rng
            &&& final(glow)@ == struck.glow
            &&& *final(flash) == struck.flash
            &&& struck.xs == st.xs
            &&& struck.ys == st.ys
        }),
        final(glow).len() == count,
        *final(flash) <= 2 || *final(flash) == *old(flash),
{
    let ghost struck = storm_struck(st, storm_frame as int, cells, width, height);
    let ghost base = count + clouds + drops;
    if *flash == 0 && *bolt_start < terminal.characters().len() {
        let ghost before = terminal@.characters;
        let end = terminal.characters().len();
        hide_range(terminal, *bolt_start, end);
        *bolt_start = end;
        proof {
            if st.strikes >= 1 {
                assert forall|y: int| 0 <= y < height implies {
                    let piece = #[trigger] terminal@.characters[base + (st.strikes - 1) * height + y];
                    &&& piece.position == Coord { x: st.bolt[y], y: y as i32 }
                    &&& piece.symbol == bolt_symbol(st.bolt_state, width, st.bolt, y)
                    &&& piece.style == bolt_style()
                } by {
                    assert(base + (st.strikes - 1) * height + height == base + st.strikes * height) by (nonlinear_arith);
                    let q = base + (st.strikes - 1) * height + y;
                    assert(terminal@.characters[q].position == before[q].position);
                }
            }
        }
    }
    if storm_frame == 7 || storm_frame == 25 || storm_frame == 41 || storm_frame == 50 {
        let end = terminal.characters().len();
        hide_range(terminal, *bolt_start, end);
        *bolt_start = end;
        let ghost before = terminal@.characters;
        strike(terminal, rng, glow, width, height);
        *flash = 2;
        proof {
            assert(before.len() == base + st.strikes * height);
            assert(base + st.strikes * height + height == base + (st.strikes + 1) * height) by (nonlinear_arith);
            assert(base + (struck.strikes - 1) * height == before.len()) by (nonlinear_arith)
                requires
                    struck.strikes == st.strikes + 1,
                    before.len() == base + st.strikes * height,
            ;
            assert forall|i: int| 0 <= i < count implies #[trigger] glow@[i] == struck.glow[i] by {
                assert(before[i].position == cells[i].1);
            }
            assert(glow@ =~= struck.glow);
            assert forall|i: int| 0 <= i < cells.len() implies #[trigger] terminal@.characters[i] == before[i] by {}
            assert forall|k: int| 0 <= k < clouds implies #[trigger] terminal@.characters[cells.len() + k]
                == before[cells.len() + k] by {}
            assert forall|p: int| base <= p < before.len() implies #[trigger] terminal@.characters[p] == before[p] by {}
            assert forall|y: int| 0 <= y < height implies {
                let piece = #[trigger] terminal@.characters[base + (struck.strikes - 1) * height + y];
                &&& piece.position == Coord { x: struck.bolt[y], y: y as i32 }
                &&& piece.symbol == bolt_symbol(struck.bolt_state, width, struck.bolt, y)
                &&& piece.style == bolt_style()
            } by {
                let q = before.len() + y;
                assert(base + (struck.strikes - 1) * height + y == q);
                let piece = terminal@.characters[before.len() + y];
                assert(piece.position == Coord { x: struck.bolt[y], y: y as i32 });
            }
            assert forall|p: int| before.len() <= p < terminal@.characters.len() implies (
            #[trigger] terminal@.characters[p]).visible by {
                let y = p - before.len();
                assert(terminal@.characters[before.len() + y].visible);
            }
        }
    }
}

/// Whether `characters` draw as `storm_looks` says for the numbers `st`: the text lit by
/// its glow and the flash, the clouds on their columns in the flash's colour, the raindrops
/// at their places, and of the bolts only the last, during its flash.
pub open spec fn storm_drawn(
    characters: Seq<EffectCharacter>,
    cells: Seq<(char, Coord)>,
    clouds: nat,
    width: nat,
    drops: nat,
    height: nat,
    st: StormNumbers,
) -> bool {
    &&& characters.len() == cells.len() + clouds + drops + st.strikes * height
    &&& forall|i: int|
        0 <= i < cells.len() ==> same_look(
            #[trigger] characters[i],
            lit_character(cells[i], storm_style(st.glow[i], st.flash)),
        )
    &&& forall|k: int|
        0 <= k < clouds ==> same_look(
            #[trigger] characters[cells.len() + k],
            look(
                cloud_symbol(k),
                Coord { x: cloud_x(k, clouds, width, 0) as i32, y: 0 },
                foreground_only(storm_cloud_color(st.flash)),
                true,
            ),
        )
    &&& forall|k: int|
        0 <= k < drops ==> same_look(
            #[trigger] characters[cells.len() + clouds + k],
            look(rain_symbol(k), Coord { x: st.xs[k], y: st.ys[k] }, foreground_only(rain_color()), true),
        )
    &&& forall|p: int|
        cells.len() + clouds + drops <= p < characters.len() ==> (#[trigger] characters[p]).visible == (st.flash > 0
            && st.strikes >= 1 && p >= cells.len() + clouds + drops + (st.strikes - 1) * height)
    &&& st.flash > 0 && st.strikes >= 1 ==> forall|y: int|
        0 <= y < height ==> same_look(
            #[trigger] characters[cells.len() + clouds + drops + (st.strikes - 1) * height + y],
            look(
                bolt_symbol(st.bolt_state, width as usize, st.bolt, y),
                Coord { x: st.bolt[y], y: y as i32 },
                bolt_style(),
                true,
            ),
        )
}

/// The clouds light up in a flash, the rain of storm frame `storm_frame` falls and the text
/// glows, from the numbers `st` once lightning has (or has not) struck.
#[verifier::spinoff_prover]
#[verifier::rlimit(60)]
fn storm_paint(
    terminal: &mut Terminal,
    rng: &mut StormRng,
    glow: &Vec<u8>,
    xs: &mut Vec<i32>,
    ys: &mut Vec<i32>,
    speeds: &Vec<i32>,
    count: usize,
    clouds: usize,
    width: usize,
    height: usize,
    bolt_start: usize,
    flash: u8,
    storm_frame: usize,
    Ghost(cells): Ghost<Seq<(char, Coord)>>,
    Ghost(st): Ghost<StormNumbers>,
)
    requires
        old(terminal).wf(),
        count == cells.len(),
        1 <= width <= i32::MAX,
        1 <= height <= i32::MAX,
        storm_stage(old(terminal)@, cells, clouds as nat, width, height, speeds.len() as nat, bolt_start as int, st),
        st.flash == 0 ==> bolt_start == old(terminal)@.characters.len(),
        rain_ok(old(xs)@, old(ys)@, speeds@, width as int, speeds.len() as int),
        old(rng)@ == st.rng,
        old(xs)@ == st.xs,
        old(ys)@ == st.ys,
        glow@ == st.glow,
        flash == st.flash,
        glow.len() == count,
    ensures
        final(terminal).wf(),
        final(terminal)@.canvas == old(terminal)@.canvas,
        storm_stage(final(terminal)@, cells, clouds as nat, width, height, speeds.len() as nat, bolt_start as int, st),
        ({
            let shown = storm_rained(st, storm_frame as int, speeds@, width, height);
            &&& storm_drawn(final(terminal)@.characters, cells, clouds as nat, width as nat, speeds.len() as nat, height as nat, shown)
            &&& final(rng)@ == shown.rng
            &&& final(xs)@ == shown.xs
            &&& final(ys)@ == shown.ys
        }),
        rain_ok(final(xs)@, final(ys)@, speeds@, width as int, speeds.len() as int),
{
    let ghost drops = speeds.len();
    let ghost base = count + clouds + drops;
    let ghost sh = storm_rained(st, storm_frame as int, speeds@, width, height);
    let cloud_color = if flash > 0 {
        Color::rgb(180, 190, 215)
    } else {
        Color::rgb(70, 75, 96)
    };
    let ghost before_paint = terminal@.characters;
    paint_clouds(terminal, count, clouds, cloud_color);
    let ghost before_rain = terminal@.characters;
    fall_rain(terminal, rng, xs, ys, speeds, count + clouds, width, height, storm_frame % 4 == 0, None);
    let ghost before_light = terminal@.characters;
    light_text(terminal, glow, flash);
    proof {
        let shown = terminal@.characters;
        assert(sh.xs == xs@ && sh.ys == ys@ && sh.rng == rng@);
        assert forall|i: int| 0 <= i < count implies same_look(
            #[trigger] shown[i],
            lit_character(cells[i], storm_style(sh.glow[i], sh.flash)),
        ) && shown[i].visible && shown[i].position == before_paint[i].position
            && shown[i].input_symbol == before_paint[i].input_symbol by {
            assert(before_light[i] == before_rain[i]);
            assert(before_rain[i] == before_paint[i]);
        }
        assert forall|k: int| 0 <= k < clouds implies same_look(
            #[trigger] shown[count + k],
            look(
                cloud_symbol(k),
                Coord { x: cloud_x(k, clouds as nat, width as nat, 0) as i32, y: 0 },
                foreground_only(storm_cloud_color(sh.flash)),
                true,
            ),
        ) by {
            assert(shown[count + k] == before_light[count + k]);
            assert(before_light[count + k] == before_rain[count + k]);
        }
        assert forall|k: int| 0 <= k < drops implies same_look(
            #[trigger] shown[count + clouds + k],
            look(rain_symbol(k), Coord { x: sh.xs[k], y: sh.ys[k] }, foreground_only(rain_color()), true),
        ) by {
            assert(shown[count + clouds + k] == before_light[count + clouds + k]);
        }
        assert forall|p: int| base <= p < shown.len() implies #[trigger] shown[p] == before_paint[p] by {
            assert(shown[p] == before_light[p]);
            assert(before_light[p] == before_rain[p]);
            assert(before_rain[p] == before_paint[p]);
        }
        if sh.strikes >= 1 {
            assert(base + (sh.strikes - 1) * height + height == base + sh.strikes * height) by (nonlinear_arith);
        }
    }
}

/// The rest of storm frame `storm_frame`, from the numbers `st` once lightning has (or has
/// not) struck: the clouds light up in a flash, the rain falls and the text glows; the
/// frame is kept, then the glow fades and the flash shortens.
#[verifier::spinoff_prover]
#[verifier::rlimit(60)]
fn storm_show(
    terminal: &mut Terminal,
    input: &str,
    rng: &mut StormRng,
    glow: &mut Vec<u8>,
    xs: &mut Vec<i32>,
    ys: &mut Vec<i32>,
    speeds: &Vec<i32>,
    count: usize,
    clouds: usize,
    width: usize,
    height: usize,
    bolt_start: usize,
    flash: &mut u8,
    storm_frame: usize,
    frames: &mut Vec<String>,
    Ghost(st): Ghost<StormNumbers>,
)
    requires
        old(terminal).wf(),
        cleared(old(terminal)@.canvas) == text_canvas(input@),
        count == text_cells(text_rows(input@)).len(),
        (width as nat, height as nat) == text_grid(input@),
        clouds == cloud_count(width as nat),
        1 <= width <= i32::MAX,
        1 <= height <= i32::MAX,
        storm_stage(
            old(terminal)@,
            text_cells(text_rows(input@)),
            clouds as nat,
            width,
            height,
            speeds.len() as nat,
            bolt_start as int,
            st,
        ),
        st.flash == 0 ==> bolt_start == old(terminal)@.characters.len(),
        rain_ok(old(xs)@, old(ys)@, speeds@, width as int, speeds.len() as int),
        old(rng)@ == st.rng,
        old(xs)@ == st.xs,
        old(ys)@ == st.ys,
        old(glow)@ == st.glow,
        *old(flash) == st.flash,
        old(glow).len() == count,
    ensures
        final(terminal).wf(),
        cleared(final(terminal)@.canvas) == cleared(old(terminal)@.canvas),
        ({
            let cells = text_cells(text_rows(input@));
            let shown = storm_rained(st, storm_frame as int, speeds@, width, height);
            let next = storm_after_frame(shown);
            &&& storm_stage(final(terminal)@, cells, clouds as nat, width, height, speeds.len() as nat, bolt_start as int, next)
            &&& storm_drawn(final(terminal)@.characters, cells, clouds as nat, width as nat, speeds.len() as nat, height as nat, shown)
            &&& final(rng)@ == next.rng
            &&& final(xs)@ == next.xs
            &&& final(ys)@ == next.ys
            &&& final(glow)@ == next.glow
            &&& *final(flash) == next.flash
            &&& final(frames)@.last()@ == render_canvas(
                draw_all(
                    text_canvas(input@),
                    storm_looks(cells, clouds as nat, width as nat, speeds.len() as nat, height as nat, shown),
                ),
            )
        }),
        rain_ok(final(xs)@, final(ys)@, speeds@, width as int, speeds.len() as int),
        final(glow).len() == count,
        final(frames).len() == old(frames).len() + 1,
        forall|f: int| 0 <= f < old(frames).len() ==> #[trigger] final(frames)@[f] == old(frames)@[f],
{
    let ghost cells = text_cells(text_rows(input@));
    let ghost sh = storm_rained(st, storm_frame as int, speeds@, width, height);
    storm_paint(
        terminal,
        rng,
        glow,
        xs,
        ys,
        speeds,
        count,
        clouds,
        width,
        height,
        bolt_start,
        *flash,
        storm_frame,
        Ghost(cells),
        Ghost(st),
    );
    proof {
        lemma_storm_frame(
            cleared(terminal@.canvas),
            terminal@.characters,
            cells,
            clouds as nat,
            width as nat,
            speeds.len() as nat,
            height as nat,
            sh,
        );
    }
    snapshot(terminal, frames);
    fade_glow(glow);
    if *flash > 0 {
        *flash = *flash - 1;
    }
    proof {
        assert(glow@ =~= faded(sh.glow));
    }
}

/// The flash at the start of storm frame `s`: one frame left after a strike, none
/// otherwise.
proof fn lemma_storm_flash(
    start: StormNumbers,
    s: nat,
    cells: Seq<(char, Coord)>,
    speeds: Seq<i32>,
    width: usize,
    height: usize,
)
    requires
        start.flash == 0,
    ensures
        storm_numbers(start, s, cells, speeds, width, height).flash == if s >= 1 && strike_frame(s - 1) {
            1u8
        } else {
            0u8
        },
    decreases s,
{
    if s > 0 {
        lemma_storm_flash(start, (s - 1) as nat, cells, speeds, width, height);
    }
}

/// Fifty-six frames of the storm: lightning strikes in frames 7, 25, 41 and 50 and flashes
/// for two frames, the clouds (characters `count..count + clouds`) light up in a flash, the
/// rain (the `speeds.len()` characters after them) falls, and the text glows where lightning
/// struck; the lightning is hidden at the end.
#[verifier::spinoff_prover]
#[verifier::rlimit(100)]
fn rage(
    terminal: &mut Terminal,
    input: &str,
    rng: &mut StormRng,
    glow: &mut Vec<u8>,
    xs: &mut Vec<i32>,
    ys: &mut Vec<i32>,
    speeds: &Vec<i32>,
    count: usize,
    clouds: usize,
    width: usize,
    height: usize,
    frames: &mut Vec<String>,
)
    requires
        old(terminal).wf(),
        cleared(old(terminal)@.canvas) == text_canvas(input@),
        at_home(old(terminal)@.characters, text_cells(text_rows(input@))),
        count == text_cells(text_rows(input@)).len(),
        count + clouds + speeds.len() == old(terminal)@.characters.len(),
        (width as nat, height as nat) == text_grid(input@),
        clouds == cloud_count(width as nat),
        1 <= width <= i32::MAX,
        1 <= height <= i32::MAX,
        rain_ok(old(xs)@, old(ys)@, speeds@, width as int, speeds.len() as int),
        old(glow).len() == count,
        forall|i: int| 0 <= i < count ==> (#[trigger] old(terminal)@.characters[i]).visible,
        forall|k: int|
            0 <= k < clouds ==> {
                &&& (#[trigger] old(terminal)@.characters[count + k]).visible
                &&& old(terminal)@.characters[count + k].position == Coord {
                    x: cloud_x(k, clouds as nat, width as nat, 0) as i32,
                    y: 0,
                }
            },
    ensures
        final(terminal).wf(),
        cleared(final(terminal)@.canvas) == cleared(old(terminal)@.canvas),
        at_home(final(terminal)@.characters, text_cells(text_rows(input@))),
        final(terminal)@.characters.len() >= count + clouds + speeds.len(),
        forall|i: int|
            count + clouds + speeds.len() <= i < final(terminal)@.characters.len() ==> !(
            #[trigger] final(terminal)@.characters[i]).visible,
        forall|i: int| 0 <= i < count ==> (#[trigger] final(terminal)@.characters[i]).visible,
        forall|k: int|
            0 <= k < clouds ==> {
                &&& (#[trigger] final(terminal)@.characters[count + k]).visible
                &&& final(terminal)@.characters[count + k].position == Coord {
                    x: cloud_x(k, clouds as nat, width as nat, 0) as i32,
                    y: 0,
                }
            },
        forall|k: int|
            0 <= k < clouds ==> {
                &&& (#[trigger] final(terminal)@.characters[count + k]).symbol == cloud_symbol(k)
                &&& final(terminal)@.characters[count + k].style == cloud_style()
            },
        forall|k: int|
            0 <= k < speeds.len() ==> {
                &&& (#[trigger] final(terminal)@.characters[count + clouds + k]).symbol == rain_symbol(k)
                &&& final(terminal)@.characters[count + clouds + k].style == foreground_only(rain_color())
            },
        rain_ok(final(xs)@, final(ys)@, speeds@, width as int, speeds.len() as int),
        final(glow).len() == count,
        final(frames).len() == old(frames).len() + 56,
        forall|f: int| 0 <= f < old(frames).len() ==> #[trigger] final(frames)@[f] == old(frames)@[f],
        ({
            let start = StormNumbers {
                rng: old(rng)@,
                xs: old(xs)@,
                ys: old(ys)@,
                glow: old(glow)@,
                flash: 0,
                strikes: 0,
                bolt: Seq::empty(),
                bolt_state: 0,
            };
            let end = storm_numbers(start, 56, text_cells(text_rows(input@)), speeds@, width, height);
            &&& forall|s: int|
                0 <= s < 56 ==> (#[trigger] final(frames)@[old(frames).len() + s])@ == storm_frame_from(
                    input@,
                    start,
                    speeds@,
                    s,
                )
            &&& final(rng)@ == end.rng
            &&& final(xs)@ == end.xs
            &&& final(ys)@ == end.ys
            &&& final(glow)@ == end.glow
        }),
{
    let ghost cells = text_cells(text_rows(input@));
    let ghost start = StormNumbers {
        rng: rng@,
        xs: xs@,
        ys: ys@,
        glow: glow@,
        flash: 0,
        strikes: 0,
        bolt: Seq::empty(),
        bolt_state: 0,
    };
    let ghost drops = speeds.len();
    let base = terminal.characters().len();
    let mut bolt_start: usize = base;
    let mut flash: u8 = 0;
    let mut storm_frame: usize = 0;
    proof {
        assert(storm_numbers(start, 0, cells, speeds@, width, height) == start);
        assert(start.strikes * height == 0) by (nonlinear_arith)
            requires
                start.strikes == 0,
        ;
    }
    while storm_frame < 56
        invariant
            storm_frame <= 56,
            frames.len() == old(frames).len() + storm_frame,
            forall|f: int| 0 <= f < old(frames).len() ==> #[trigger] frames@[f] == old(frames)@[f],
            forall|f: int|
                0 <= f < storm_frame ==> (#[trigger] frames@[old(frames).len() + f])@ == storm_frame_from(
                    input@,
                    start,
                    speeds@,
                    f,
                ),
            1 <= width <= i32::MAX,
            1 <= height <= i32::MAX,
            (width as nat, height as nat) == text_grid(input@),
            clouds == cloud_count(width as nat),
            drops == speeds.len(),
            terminal.wf(),
            cleared(terminal@.canvas) == cleared(old(terminal)@.canvas),
            cleared(old(terminal)@.canvas) == text_canvas(input@),
            cells == text_cells(text_rows(input@)),
            count == cells.len(),
            base == count + clouds + speeds.len(),
            ({
                let st = storm_numbers(start, storm_frame as nat, cells, speeds@, width, height);
                &&& storm_stage(terminal@, cells, clouds as nat, width, height, drops as nat, bolt_start as int, st)
                &&& rng@ == st.rng
                &&& xs@ == st.xs
                &&& ys@ == st.ys
                &&& glow@ == st.glow
                &&& flash == st.flash
            }),
            storm_frame > 0 ==> storm_drawn(
                terminal@.characters,
                cells,
                clouds as nat,
                width as nat,
                drops as nat,
                height as nat,
                storm_shown(
                    storm_numbers(start, (storm_frame - 1) as nat, cells, speeds@, width, height),
                    storm_frame - 1,
                    cells,
                    speeds@,
                    width,
                    height,
                ),
            ),
            glow.len() == count,
            flash <= 2,
            rain_ok(xs@, ys@, speeds@, width as int, speeds.len() as int),
        decreases 56 - storm_frame,
    {
        let ghost st = storm_numbers(start, storm_frame as nat, cells, speeds@, width, height);
        let ghost struck = storm_struck(st, storm_frame as int, cells, width, height);
        storm_strike(
            terminal,
            rng,
            glow,
            count,
            clouds,
            speeds.len(),
            width,
            height,
            &mut bolt_start,
            &mut flash,
            storm_frame,
            Ghost(cells),
            Ghost(st),
        );
        storm_show(
            terminal,
            input,
            rng,
            glow,
            xs,
            ys,
            speeds,
            count,
            clouds,
            width,
            height,
            bolt_start,
            &mut flash,
            storm_frame,
            frames,
            Ghost(struck),
        );
        proof {
            assert(storm_numbers(start, (storm_frame + 1) as nat, cells, speeds@, width, height) == storm_next(
                st,
                storm_frame as int,
                cells,
                speeds@,
                width,
                height,
            ));
            assert(frames@[old(frames).len() + storm_frame as int]@ == storm_frame_from(input@, start, speeds@, storm_frame as int));
        }
        storm_frame += 1;
    }
    let ghost last = storm_numbers(start, 56, cells, speeds@, width, height);
    let ghost before = terminal@.characters;
    let end = terminal.characters().len();
    hide_range(terminal, bolt_start, end);
    proof {
        let shown = storm_shown(storm_numbers(start, 55, cells, speeds@, width, height), 55, cells, speeds@, width, height);
        lemma_storm_flash(start, 55, cells, speeds@, width, height);
        assert(shown.flash == 0);
        assert forall|k: int| 0 <= k < clouds implies {
            &&& (#[trigger] terminal@.characters[count + k]).symbol == cloud_symbol(k)
            &&& terminal@.characters[count + k].style == cloud_style()
        } by {
            assert(terminal@.characters[count + k] == before[count + k]);
        }
        assert forall|k: int| 0 <= k < speeds.len() implies {
            &&& (#[trigger] terminal@.characters[count + clouds + k]).symbol == rain_symbol(k)
            &&& terminal@.characters[count + clouds + k].style == foreground_only(rain_color())
        } by {
            assert(terminal@.characters[count + clouds + k] == before[count + clouds + k]);
        }
        assert forall|i: int| 0 <= i < base implies #[trigger] terminal@.characters[i] == before[i] by {}
        assert forall|i: int| base <= i < terminal@.characters.len() implies !(#[trigger] terminal@.characters[i]).visible by {
            if i < bolt_start {
                assert(!before[i].visible);
            }
        }
    }
}

/// The numbers at the start of clearing frame `c`, from `st` as the storm ended: every
/// frame the rain falls, without drifting, and the glow fades.
pub open spec fn clearing_numbers(st: StormNumbers, c: nat, speeds: Seq<i32>, width: usize, height: usize) -> StormNumbers
    decreases c,
{
    if c == 0 {
        st
    } else {
        let rained = storm_rained(clearing_numbers(st, (c - 1) as nat, speeds, width, height), 1, speeds, width, height);
        StormNumbers { glow: faded(rained.glow), ..rained }
    }
}

/// The column of cloud `index`, whose target is `target`, `distance` columns off it: left
/// for even clouds, right for odd ones.
pub open spec fn drifted(target: i32, index: int, distance: int) -> i32 {
    (if index % 2 == 0 {
        target - distance
    } else {
        target + distance
    }) as i32
}

/// The columns the clouds over a canvas `width` wide settle on.
pub open spec fn spread_targets(width: nat) -> Seq<i32> {
    Seq::new(cloud_count(width), |k: int| cloud_target(k as nat, cloud_count(width), width) as i32)
}

/// What the characters look like in clearing frame `c`, showing the numbers `st` once the
/// rain has fallen: the text lit by its glow alone, the clouds drifted `c + 1` columns off
/// their places, the raindrops with the first `drops * (c + 1) / 10` of them gone, and
/// nothing after them.
#[verifier::opaque]
pub open spec fn clearing_looks(
    cells: Seq<(char, Coord)>,
    targets: Seq<i32>,
    drops: nat,
    c: int,
    st: StormNumbers,
) -> Seq<EffectCharacter> {
    let count = cells.len();
    let clouds = targets.len();
    let rain = count + clouds;
    Seq::new(
        rain + drops,
        |i: int|
            if i < count {
                lit_character(cells[i], storm_style(st.glow[i], 0))
            } else if i < rain {
                look(
                    cloud_symbol(i - count),
                    Coord { x: drifted(targets[i - count], i - count, c + 1), y: 0 },
                    cloud_style(),
                    true,
                )
            } else {
                look(
                    rain_symbol(i - rain),
                    Coord { x: st.xs[i - rain], y: st.ys[i - rain] },
                    foreground_only(rain_color()),
                    i - rain >= (drops * (c + 1)) / 10,
                )
            },
    )
}

/// Clearing frame `c` drawn on `canvas` over the text's `cells`, the storm having ended with
/// the numbers `st`, raindrops of `speeds` and clouds settled on `targets`.
#[verifier::opaque]
pub open spec fn clearing_render(
    canvas: CanvasView,
    cells: Seq<(char, Coord)>,
    st: StormNumbers,
    speeds: Seq<i32>,
    targets: Seq<i32>,
    width: usize,
    height: usize,
    c: int,
) -> Seq<char> {
    let shown = storm_rained(clearing_numbers(st, c as nat, speeds, width, height), 1, speeds, width, height);
    render_canvas(draw_all(canvas, clearing_looks(cells, targets, speeds.len(), c, shown)))
}

/// Clearing frame `c` over `text`, the storm having ended with the numbers `st`,
/// raindrops of `speeds` and clouds settled on `targets`.
pub open spec fn clearing_frame_from(
    text: Seq<char>,
    st: StormNumbers,
    speeds: Seq<i32>,
    targets: Seq<i32>,
    c: int,
) -> Seq<char> {
    clearing_render(
        text_canvas(text),
        text_cells(text_rows(text)),
        st,
        speeds,
        targets,
        text_grid(text).0 as usize,
        text_grid(text).1 as usize,
        c,
    )
}

/// Clearing frame `c` (of ten) over `text`, whose bytes are `bytes`.
pub open spec fn clearing_frame(text: Seq<char>, bytes: Seq<u8>, c: int) -> Seq<char> {
    let cells = text_cells(text_rows(text));
    let (width, height) = text_grid(text);
    let (start, speeds) = storm_start(text, bytes);
    clearing_frame_from(
        text,
        storm_numbers(start, 56, cells, speeds, width as usize, height as usize),
        speeds,
        spread_targets(width),
        c,
    )
}

/// Characters that draw as `clearing_looks` says, with every later one hidden, draw the
/// clearing frame.
proof fn lemma_clearing_frame(
    canvas: CanvasView,
    characters: Seq<EffectCharacter>,
    cells: Seq<(char, Coord)>,
    targets: Seq<i32>,
    drops: nat,
    c: int,
    st: StormNumbers,
)
    requires
        characters.len() >= cells.len() + targets.len() + drops,
        forall|i: int|
            0 <= i < cells.len() ==> same_look(#[trigger] characters[i], lit_character(cells[i], storm_style(st.glow[i], 0))),
        forall|k: int|
            0 <= k < targets.len() ==> same_look(
                #[trigger] characters[cells.len() + k],
                look(cloud_symbol(k), Coord { x: drifted(targets[k], k, c + 1), y: 0 }, cloud_style(), true),
            ),
        forall|k: int|
            0 <= k < drops ==> same_look(
                #[trigger] characters[cells.len() + targets.len() + k],
                look(
                    rain_symbol(k),
                    Coord { x: st.xs[k], y: st.ys[k] },
                    foreground_only(rain_color()),
                    k >= (drops * (c + 1)) / 10,
                ),
            ),
        forall|i: int| cells.len() + targets.len() + drops <= i < characters.len() ==> !(#[trigger] characters[i]).visible,
    ensures
        draw_all(canvas, characters) == draw_all(canvas, clearing_looks(cells, targets, drops, c, st)),
{
    let count = cells.len();
    let rain = count + targets.len();
    let shown = characters.take((rain + drops) as int);
    let looks = clearing_looks(cells, targets, drops, c, st);
    reveal(clearing_looks);
    lemma_hidden_characters_draw_nothing(canvas, characters, (rain + drops) as int);
    assert forall|i: int| 0 <= i < shown.len() implies same_drawn(#[trigger] shown[i], looks[i]) by {
        assert(shown[i] == characters[i]);
        if i < count {
        } else if i < rain {
            assert(same_look(characters[count + (i - count)], looks[i]));
        } else {
            assert(same_look(characters[rain + (i - rain)], looks[i]));
        }
    }
    lemma_draw_all_drawn(canvas, shown, looks);
}

/// The storm's characters as it clears: the text shown, the clouds shown in their symbols
/// and dark, and the raindrops in their symbols and colour.
#[verifier::opaque]
pub open spec fn clearing_stage(characters: Seq<EffectCharacter>, count: nat, clouds: nat, drops: nat) -> bool {
    &&& characters.len() >= count + clouds + drops
    &&& forall|i: int| 0 <= i < count ==> (#[trigger] characters[i]).visible
    &&& forall|k: int|
        0 <= k < clouds ==> {
            &&& (#[trigger] characters[count + k]).visible
            &&& characters[count + k].symbol == cloud_symbol(k)
            &&& characters[count + k].style == cloud_style()
        }
    &&& forall|k: int|
        0 <= k < drops ==> {
            &&& (#[trigger] characters[count + clouds + k]).symbol == rain_symbol(k)
            &&& characters[count + clouds + k].style == foreground_only(rain_color())
        }
}

/// Clearing frame `frame`: the rain falls without drifting and its first
/// `drops * (frame + 1) / 10` drops disappear, the clouds drift `frame + 1` columns off
/// their places, and the text glows while its glow fades.
#[verifier::spinoff_prover]
#[verifier::rlimit(60)]
fn clear_step(
    terminal: &mut Terminal,
    rng: &mut StormRng,
    glow: &mut Vec<u8>,
    xs: &mut Vec<i32>,
    ys: &mut Vec<i32>,
    speeds: &Vec<i32>,
    targets: &Vec<i32>,
    count: usize,
    width: usize,
    height: usize,
    frame: usize,
    frames: &mut Vec<String>,
    Ghost(cells): Ghost<Seq<(char, Coord)>>,
    Ghost(canvas): Ghost<CanvasView>,
    Ghost(st): Ghost<StormNumbers>,
)
    requires
        frame < 10,
        old(terminal).wf(),
        cleared(old(terminal)@.canvas) == canvas,
        at_home(old(terminal)@.characters, cells),
        count == cells.len(),
        count + targets.len() + speeds.len() <= old(terminal)@.characters.len(),
        forall|i: int|
            count + targets.len() + speeds.len() <= i < old(terminal)@.characters.len() ==> !(
            #[trigger] old(terminal)@.characters[i]).visible,
        clearing_stage(old(terminal)@.characters, count as nat, targets.len() as nat, speeds.len() as nat),
        speeds.len() <= 512,
        1 <= width <= i32::MAX,
        width + 9 <= i32::MAX,
        1 <= height <= i32::MAX,
        forall|j: int| 0 <= j < targets.len() ==> 0 <= #[trigger] targets[j] < width,
        rain_ok(old(xs)@, old(ys)@, speeds@, width as int, speeds.len() as int),
        old(glow).len() == count,
        old(rng)@ == st.rng,
        old(xs)@ == st.xs,
        old(ys)@ == st.ys,
        old(glow)@ == st.glow,
    ensures
        final(terminal).wf(),
        cleared(final(terminal)@.canvas) == cleared(old(terminal)@.canvas),
        at_home(final(terminal)@.characters, cells),
        final(terminal)@.characters.len() == old(terminal)@.characters.len(),
        forall|i: int|
            count + targets.len() + speeds.len() <= i < final(terminal)@.characters.len()
                ==> #[trigger] final(terminal)@.characters[i] == old(terminal)@.characters[i],
        clearing_stage(final(terminal)@.characters, count as nat, targets.len() as nat, speeds.len() as nat),
        rain_ok(final(xs)@, final(ys)@, speeds@, width as int, speeds.len() as int),
        final(glow).len() == count,
        ({
            let shown = storm_rained(st, 1, speeds@, width, height);
            &&& final(rng)@ == shown.rng
            &&& final(xs)@ == shown.xs
            &&& final(ys)@ == shown.ys
            &&& final(glow)@ == faded(shown.glow)
            &&& final(frames)@.last()@ == render_canvas(
                draw_all(canvas, clearing_looks(cells, targets@, speeds.len() as nat, frame as int, shown)),
            )
        }),
        final(frames).len() == old(frames).len() + 1,
        forall|f: int| 0 <= f < old(frames).len() ==> #[trigger] final(frames)@[f] == old(frames)@[f],
{
    let ghost sh = storm_rained(st, 1, speeds@, width, height);
    let total = terminal.characters().len();
    let clouds = targets.len();
    let drops = speeds.len();
    proof {
        reveal(clearing_stage);
    }
    assert(drops * (frame + 1) <= 5120) by (nonlinear_arith)
        requires
            drops <= 512,
            frame < 10,
    ;
    let hidden = drops * (frame + 1) / 10;
    let ghost before_rain = terminal@.characters;
    fall_rain(terminal, rng, xs, ys, speeds, count + clouds, width, height, false, Some(hidden));
    let ghost before_clouds = terminal@.characters;
    place_clouds(terminal, count, targets, (frame + 1) as i32, width, false);
    let ghost before_light = terminal@.characters;
    light_text(terminal, glow, 0);
    let ghost lit = terminal@;
    fade_glow(glow);
    proof {
        assert(sh.xs == xs@ && sh.ys == ys@ && sh.rng == rng@);
        assert(glow@ =~= faded(sh.glow));
        assert forall|i: int| 0 <= i < count implies same_look(
            #[trigger] lit.characters[i],
            lit_character(cells[i], storm_style(sh.glow[i], 0)),
        ) && lit.characters[i].visible by {
            assert(before_light[i] == before_clouds[i]);
            assert(before_clouds[i] == before_rain[i]);
        }
        assert forall|k: int| 0 <= k < clouds implies same_look(
            #[trigger] lit.characters[count + k],
            look(cloud_symbol(k), Coord { x: drifted(targets@[k], k, frame + 1), y: 0 }, cloud_style(), true),
        ) by {
            assert(lit.characters[count + k] == before_light[count + k]);
            assert(placed_cloud(
                before_clouds[count + k],
                before_light[count + k],
                k,
                targets@[k] as int,
                (frame + 1) as int,
                false,
            ));
            assert(before_clouds[count + k] == before_rain[count + k]);
        }
        assert forall|k: int| 0 <= k < drops implies same_look(
            #[trigger] lit.characters[count + clouds + k],
            look(
                rain_symbol(k),
                Coord { x: sh.xs[k], y: sh.ys[k] },
                foreground_only(rain_color()),
                k >= (drops * (frame + 1)) / 10,
            ),
        ) by {
            assert(lit.characters[count + clouds + k] == before_light[count + clouds + k]);
            assert(before_light[count + clouds + k] == before_clouds[count + clouds + k]);
        }
        assert forall|i: int| count + clouds + drops <= i < lit.characters.len() implies #[trigger] lit.characters[i]
            == before_rain[i] by {
            assert(lit.characters[i] == before_light[i]);
            assert(before_light[i] == before_clouds[i]);
        }
        lemma_clearing_frame(cleared(lit.canvas), lit.characters, cells, targets@, drops as nat, frame as int, sh);
    }
    snapshot(terminal, frames);
    proof {
        reveal(clearing_stage);
    }
}




/// Ten frames of the storm clearing: the rain keeps falling while more of it disappears
/// each frame, the clouds drift a column further off their places each frame, and the
/// text's glow fades; the clouds and the rain are hidden at the end.
#[verifier::spinoff_prover]
#[verifier::rlimit(60)]
fn clear_up(
    terminal: &mut Terminal,
    rng: &mut StormRng,
    glow: &mut Vec<u8>,
    xs: &mut Vec<i32>,
    ys: &mut Vec<i32>,
    speeds: &Vec<i32>,
    targets: &Vec<i32>,
    count: usize,
    width: usize,
    height: usize,
    frames: &mut Vec<String>,
    Ghost(cells): Ghost<Seq<(char, Coord)>>,
    Ghost(canvas): Ghost<CanvasView>,
    Ghost(st0): Ghost<StormNumbers>,
)
    requires
        old(terminal).wf(),
        cleared(old(terminal)@.canvas) == canvas,
        at_home(old(terminal)@.characters, cells),
        count == cells.len(),
        count + targets.len() + speeds.len() <= old(terminal)@.characters.len(),
        forall|i: int|
            count + targets.len() + speeds.len() <= i < old(terminal)@.characters.len() ==> !(
            #[trigger] old(terminal)@.characters[i]).visible,
        clearing_stage(old(terminal)@.characters, count as nat, targets.len() as nat, speeds.len() as nat),
        speeds.len() <= 512,
        1 <= width <= i32::MAX,
        width + 9 <= i32::MAX,
        1 <= height <= i32::MAX,
        forall|j: int| 0 <= j < targets.len() ==> 0 <= #[trigger] targets[j] < width,
        rain_ok(old(xs)@, old(ys)@, speeds@, width as int, speeds.len() as int),
        old(glow).len() == count,
        old(rng)@ == st0.rng,
        old(xs)@ == st0.xs,
        old(ys)@ == st0.ys,
        old(glow)@ == st0.glow,
    ensures
        final(terminal).wf(),
        cleared(final(terminal)@.canvas) == cleared(old(terminal)@.canvas),
        at_home(final(terminal)@.characters, cells),
        forall|i: int| count <= i < final(terminal)@.characters.len() ==> !(#[trigger] final(terminal)@.characters[i]).visible,
        final(frames).len() == old(frames).len() + 10,
        forall|f: int| 0 <= f < old(frames).len() ==> #[trigger] final(frames)@[f] == old(frames)@[f],
        forall|c: int|
            0 <= c < 10 ==> (#[trigger] final(frames)@[old(frames).len() + c])@ == clearing_render(
                canvas,
                cells,
                st0,
                speeds@,
                targets@,
                width,
                height,
                c,
            ),
{
    let clouds = targets.len();
    let drops = speeds.len();
    let total = terminal.characters().len();
    assert(count + clouds + drops <= total);
    let base = count + clouds + drops;
    let mut frame: usize = 0;
    while frame < 10
        invariant
            frame <= 10,
            frames.len() == old(frames).len() + frame,
            forall|f: int| 0 <= f < old(frames).len() ==> #[trigger] frames@[f] == old(frames)@[f],
            forall|c: int|
                0 <= c < frame ==> (#[trigger] frames@[old(frames).len() + c])@ == clearing_render(
                    canvas,
                    cells,
                    st0,
                    speeds@,
                    targets@,
                    width,
                    height,
                    c,
                ),
            drops == speeds.len(),
            drops <= 512,
            clouds == targets.len(),
            1 <= width <= i32::MAX,
            width + 9 <= i32::MAX,
            1 <= height <= i32::MAX,
            terminal.wf(),
            cleared(terminal@.canvas) == cleared(old(terminal)@.canvas),
            cleared(old(terminal)@.canvas) == canvas,
            at_home(terminal@.characters, cells),
            count == cells.len(),
            base == count + clouds + drops,
            base <= terminal@.characters.len(),
            terminal@.characters.len() == old(terminal)@.characters.len(),
            forall|i: int| base <= i < terminal@.characters.len() ==> #[trigger] terminal@.characters[i]
                == old(terminal)@.characters[i],
            clearing_stage(terminal@.characters, count as nat, clouds as nat, drops as nat),
            forall|i: int| base <= i < old(terminal)@.characters.len() ==> !(#[trigger] old(terminal)@.characters[i]).visible,
            glow.len() == count,
            forall|j: int| 0 <= j < clouds ==> 0 <= #[trigger] targets[j] < width,
            rain_ok(xs@, ys@, speeds@, width as int, drops as int),
            ({
                let st = clearing_numbers(st0, frame as nat, speeds@, width, height);
                &&& rng@ == st.rng
                &&& xs@ == st.xs
                &&& ys@ == st.ys
                &&& glow@ == st.glow
            }),
        decreases 10 - frame,
    {
        let ghost st = clearing_numbers(st0, frame as nat, speeds@, width, height);
        clear_step(
            terminal,
            rng,
            glow,
            xs,
            ys,
            speeds,
            targets,
            count,
            width,
            height,
            frame,
            frames,
            Ghost(cells),
            Ghost(canvas),
            Ghost(st),
        );
        proof {
            assert(clearing_numbers(st0, (frame + 1) as nat, speeds@, width, height).glow == glow@);
            reveal(clearing_render);
            assert(frames@[old(frames).len() + frame as int]@ == clearing_render(
                canvas,
                cells,
                st0,
                speeds@,
                targets@,
                width,
                height,
                frame as int,
            ));
        }
        frame += 1;
    }
    let ghost before = terminal@.characters;
    hide_range(terminal, count, base);
    proof {
        assert forall|i: int| count <= i < terminal@.characters.len() implies !(#[trigger] terminal@.characters[i]).visible by {
            if i >= base {
                assert(terminal@.characters[i] == before[i]);
                assert(before[i] == old(terminal)@.characters[i]);
            }
        }
    }
}


/// The storm's last frame is the input text as a fresh terminal renders it: a terminal
/// laid out from `text` as `Terminal::from_text` lays it out, rendered, shows
/// `lit_text_frame(text, plain_style())`.
pub proof fn lemma_storm_ends_as_fresh_text(text: Seq<char>, fresh: TerminalView)
    requires
        fresh.canvas.width == text_grid(text).0,
        fresh.canvas.height == text_grid(text).1,
        fresh.canvas.cells == Seq::new(fresh.canvas.width * fresh.canvas.height, |i: int| blank_cell()),
        fresh.canvas.blank == blank_cell(),
        placed(fresh.characters, text_cells(text_rows(text))),
    ensures
        render_canvas(frame_canvas(fresh)) == lit_text_frame(text, plain_style()),
{
    let cells = text_cells(text_rows(text));
    let canvas = cleared(fresh.canvas);
    assert(canvas.cells =~= text_canvas(text).cells);
    assert(canvas == text_canvas(text));
    let expected = Seq::new(cells.len(), |i: int| lit_character(cells[i], plain_style()));
    assert forall|i: int| 0 <= i < fresh.characters.len() implies same_look(#[trigger] fresh.characters[i], expected[i]) by {}
    lemma_draw_all_looks(canvas, fresh.characters, expected);
}

impl Thunderstorm {
    /// The frames of the storm over `input`: ten frames of clouds drifting in over the
    /// darkened text, fifty-six of rain and lightning, ten in which the clouds drift off and
    /// the rain thins out, twelve in which the text alone brightens through `fade_colors`,
    /// and last the text as it came in.
    #[verifier::spinoff_prover]
    #[verifier::rlimit(40)]
    pub fn frames(&self, input: &str, fade_colors: &Vec<Color>) -> (frames: Vec<String>)
        requires
            text_grid(input@).0 * text_grid(input@).1 <= usize::MAX,
            text_grid(input@).0 + 9 <= i32::MAX,
            text_grid(input@).1 <= i32::MAX,
            fade_colors.len() == 12,
        ensures
            frames.len() == 89,
            forall|f: int| 0 <= f < 10 ==> (#[trigger] frames[f])@ == forming_frame(input@, f),
            forall|s: int| 0 <= s < 56 ==> (#[trigger] frames[10 + s])@ == storm_frame(input@, input.spec_bytes(), s),
            forall|c: int| 0 <= c < 10 ==> (#[trigger] frames[66 + c])@ == clearing_frame(input@, input.spec_bytes(), c),
            forall|f: int|
                0 <= f < 12 ==> (#[trigger] frames[76 + f])@ == lit_text_frame(
                    input@,
                    foreground_only(fade_colors@[f]),
                ),
            frames[88]@ == lit_text_frame(input@, plain_style()),
    {
        let mut terminal = Terminal::from_text(input);
        let ghost cells = text_cells(text_rows(input@));
        let ghost canvas0 = terminal@.canvas;
        proof {
            lemma_rows_nonempty(input@);
            assert(canvas0.cells =~= text_canvas(input@).cells);
            assert(cleared(canvas0).cells =~= canvas0.cells);
        }
        let width = terminal.canvas().width();
        let height = terminal.canvas().height();
        let count = terminal.characters().len();
        let mut glow: Vec<u8> = Vec::new();
        let mut rng = StormRng::new(seed_from_input(input));
        let ghost seed0 = rng@;
        let mut index: usize = 0;
        while index < count
            invariant
                index <= count,
                count == terminal@.characters.len(),
                count == cells.len(),
                terminal.wf(),
                cleared(terminal@.canvas) == canvas0,
                at_home(terminal@.characters, cells),
                cells == text_cells(text_rows(input@)),
                forall|i: int|
                    0 <= i < count ==> {
                        &&& (#[trigger] terminal@.characters[i]).visible
                        &&& i < index ==> same_look(terminal@.characters[i], lit_character(cells[i], dark_style()))
                    },
                glow.len() == index,
                forall|i: int| 0 <= i < index ==> #[trigger] glow@[i] == 0,
                rng@ == seed0,
            decreases count - index,
        {
            let symbol = terminal.characters()[index].input_symbol;
            repaint(&mut terminal, index, symbol, Style::default().with_foreground(Color::rgb(42, 45, 64)));
            glow.push(0);
            index += 1;
        }
        let half = width / 2 + width % 2;
        let clouds: usize = if half > 512 {
            512
        } else if half < 1 {
            1
        } else {
            half
        };
        let mut targets: Vec<i32> = Vec::new();
        let mut k: usize = 0;
        while k < clouds
            invariant
                1 <= clouds <= 512,
                k <= clouds,
                1 <= width,
                width + 9 <= i32::MAX,
                terminal.wf(),
                cleared(terminal@.canvas) == canvas0,
                at_home(terminal@.characters, cells),
                count == cells.len(),
                terminal@.characters.len() == count + k,
                targets.len() == k,
                forall|j: int| 0 <= j < k ==> 0 <= #[trigger] targets[j] < width,
                cells == text_cells(text_rows(input@)),
                width == text_grid(input@).0,
                clouds == cloud_count(width as nat),
                forall|i: int|
                    0 <= i < count ==> same_look(#[trigger] terminal@.characters[i], lit_character(cells[i], dark_style())),
                forall|j: int| 0 <= j < k ==> #[trigger] targets@[j] == cloud_target(j as nat, clouds as nat, width as nat),
                forall|j: int|
                    0 <= j < k ==> {
                        &&& (#[trigger] terminal@.characters[count + j]).symbol == cloud_symbol(j)
                        &&& terminal@.characters[count + j].style == cloud_style()
                    },
            decreases clouds - k,
        {
            let target: i32 = if clouds == 1 {
                0
            } else {
                let gaps = (clouds - 1) as u64;
                let columns = (width - 1) as u64;
                assert((k as int) * (columns as int) <= 512 * (columns as int)) by (nonlinear_arith)
                    requires
                        k < 512,
                ;
                let product = (k as u64) * columns;
                let spread = product / gaps;
                assert(spread <= columns) by (nonlinear_arith)
                    requires
                        spread == product / gaps,
                        product == (k as int) * (columns as int),
                        k <= gaps,
                        gaps >= 1,
                ;
                spread as i32
            };
            let start_x = if k % 2 == 0 {
                target - 10
            } else {
                target + 10
            };
            let symbol = next_cloud_symbol(k);
            let ghost before = terminal@.characters;
            terminal.add_character(symbol, Coord::new(start_x, 0));
            let last = terminal.characters().len() - 1;
            set_shown(&mut terminal, last, true);
            repaint(&mut terminal, last, symbol, Style::default().with_foreground(Color::rgb(70, 75, 96)));
            proof {
                assert forall|i: int| 0 <= i < cells.len() implies #[trigger] terminal@.characters[i] == before[i] by {}
                assert forall|j: int| 0 <= j < k implies #[trigger] terminal@.characters[count + j] == before[count + j] by {}
                assert(target == cloud_target(k as nat, clouds as nat, width as nat));
            }
            targets.push(target);
            k += 1;
        }
        let area = width * height;
        let third = area / 3;
        let wide = if third > width / 2 {
            third
        } else {
            width / 2
        };
        let some = if wide >= 1 {
            wide
        } else {
            1
        };
        let drops: usize = if some > 512 {
            512
        } else {
            some
        };
        let mut xs: Vec<i32> = Vec::new();
        let mut ys: Vec<i32> = Vec::new();
        let mut speeds: Vec<i32> = Vec::new();
        let mut k: usize = 0;
        while k < drops
            invariant
                1 <= drops <= 512,
                k <= drops,
                1 <= width <= i32::MAX,
                1 <= height <= i32::MAX,
                terminal.wf(),
                cleared(terminal@.canvas) == canvas0,
                at_home(terminal@.characters, cells),
                count == cells.len(),
                terminal@.characters.len() == count + clouds + k,
                rain_ok(xs@, ys@, speeds@, width as int, k as int),
                cells == text_cells(text_rows(input@)),
                width == text_grid(input@).0,
                clouds == cloud_count(width as nat),
                targets.len() == clouds,
                forall|j: int|
                    0 <= j < clouds ==> 0 <= #[trigger] targets@[j] < width && targets@[j] == cloud_target(
                        j as nat,
                        clouds as nat,
                        width as nat,
                    ),
                forall|i: int|
                    0 <= i < count ==> same_look(#[trigger] terminal@.characters[i], lit_character(cells[i], dark_style())),
                forall|j: int|
                    0 <= j < clouds ==> {
                        &&& (#[trigger] terminal@.characters[count + j]).symbol == cloud_symbol(j)
                        &&& terminal@.characters[count + j].style == cloud_style()
                    },
                forall|j: int| 0 <= j < k ==> !(#[trigger] terminal@.characters[count + clouds + j]).visible,
                height == text_grid(input@).1,
                (xs@, ys@, speeds@, rng@) == rain_setup(seed0, width, height, k as nat),
            decreases drops - k,
        {
            let ghost state = rng@;
            let x = rng.range(width) as i32;
            let y = rng.range(height) as i32;
            let speed = 1 + rng.range(2) as i32;
            proof {
                let (sx, first) = storm_draw(state, width);
                let (sy, second) = storm_draw(first, height);
                let (sv, third) = storm_draw(second, 2);
                assert(x == sx && y == sy && speed == 1 + sv && rng@ == third);
            }
            let symbol = next_rain_symbol(k);
            let ghost before = terminal@.characters;
            terminal.add_character(symbol, Coord::new(x, y));
            let last = terminal.characters().len() - 1;
            set_shown(&mut terminal, last, false);
            repaint(&mut terminal, last, symbol, Style::default().with_foreground(Color::rgb(80, 130, 190)));
            proof {
                assert forall|i: int| 0 <= i < cells.len() implies #[trigger] terminal@.characters[i] == before[i] by {}
                assert forall|j: int| 0 <= j < clouds implies #[trigger] terminal@.characters[count + j] == before[count + j] by {}
                assert forall|j: int| 0 <= j < k implies #[trigger] terminal@.characters[count + clouds + j]
                    == before[count + clouds + j] by {}
            }
            xs.push(x);
            ys.push(y);
            speeds.push(speed);
            k += 1;
        }
        let base = terminal.characters().len();
        let mut frames: Vec<String> = Vec::new();
        proof {
            assert forall|i: int| count + clouds <= i < terminal@.characters.len() implies !(
            #[trigger] terminal@.characters[i]).visible by {
                assert(terminal@.characters[count + clouds + (i - count - clouds)] == terminal@.characters[i]);
            }
        }
        gather_clouds(&mut terminal, input, count, &targets, width, &mut frames);
        let ghost forming = frames@;
        let ghost begun = StormNumbers {
            rng: rng@,
            xs: xs@,
            ys: ys@,
            glow: glow@,
            flash: 0,
            strikes: 0,
            bolt: Seq::empty(),
            bolt_state: 0,
        };
        proof {
            assert(drops == rain_count(width as nat, height as nat));
            assert(glow@ =~= Seq::new(count as nat, |i: int| 0u8));
            assert(seed0 == nonzero_or(fnv1a(input.spec_bytes()) ^ 0x7468_756e_6465_7273u64, golden_seed()));
            assert(begun == storm_start(input@, input.spec_bytes()).0);
            assert(speeds@ == storm_start(input@, input.spec_bytes()).1);
        }
        rage(&mut terminal, input, &mut rng, &mut glow, &mut xs, &mut ys, &speeds, count, clouds, width, height, &mut frames);
        let ghost raging = frames@;
        let ghost ended = storm_numbers(begun, 56, cells, speeds@, width, height);
        proof {
            reveal(clearing_stage);
            assert(targets@ =~= spread_targets(width as nat));
        }
        clear_up(
            &mut terminal,
            &mut rng,
            &mut glow,
            &mut xs,
            &mut ys,
            &speeds,
            &targets,
            count,
            width,
            height,
            &mut frames,
            Ghost(cells),
            Ghost(text_canvas(input@)),
            Ghost(ended),
        );
        let ghost clearing = frames@;
        fade_in(&mut terminal, input, count, fade_colors, &mut frames);
        proof {
            assert forall|f: int| 0 <= f < 10 implies (#[trigger] frames@[f])@ == forming_frame(input@, f) by {
                assert(frames@[f] == clearing[f]);
                assert(clearing[f] == raging[f]);
                assert(raging[f] == forming[f]);
                assert(forming[0 + f] == forming[f]);
            }
            assert forall|st: int| 0 <= st < 56 implies (#[trigger] frames@[10 + st])@ == storm_frame(
                input@,
                input.spec_bytes(),
                st,
            ) by {
                assert(frames@[10 + st] == clearing[10 + st]);
                assert(clearing[10 + st] == raging[10 + st]);
            }
            assert forall|c: int| 0 <= c < 10 implies (#[trigger] frames@[66 + c])@ == clearing_frame(
                input@,
                input.spec_bytes(),
                c,
            ) by {
                assert(frames@[66 + c] == clearing[66 + c]);
            }
        }
        frames
    }
}

} // verus!
