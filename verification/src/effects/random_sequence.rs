use vstd::prelude::*;

use crate::effects::random::{
    draw_mod_usize, fisher_yates, fnv1a, fnv1a_hash, golden_seed, lemma_fisher_yates_permutes,
    lemma_picks_in_range, nonzero_or, shuffle_passes, xorshift64,
};
use crate::engine::animation::{activated, step_scene, CharacterVisual, Frame, Scene, SceneView};
use crate::engine::canvas::render_canvas;
use crate::engine::character::{CharacterId, EffectCharacter};
use crate::engine::edit::lit_character;
use crate::engine::terminal::{
    any_scene_running, cleared, draw_all, lemma_draw_all_looks, lemma_text_cells_fit, lemma_text_cells_in_grid,
    same_look, scene_running,
    text_canvas, text_cells, Terminal,
};
use crate::utils::geometry::Coord;
use crate::utils::graphics::{foreground_only, rgb_of, Color, Style};
use crate::utils::text::{lemma_rows_nonempty, text_grid, text_rows};
use vstd::string::StringSliceAdditionalSpecFns;

verus! {

/// Characters fade in one by one in a random order.
pub struct RandomSequence;

impl RandomSequence {
    /// The frames of the random sequence: the characters are shuffled from `seed`, and
    /// each frame the last few still waiting start fading in, `batches` giving how many for
    /// each number waiting (at least one, at most all); each fades from black through its
    /// ten colours in `fade_colors` (ten per cell, row by row), five steps each. One frame
    /// per step until the last to start has finished; none when the text has no character.
    #[verifier::spinoff_prover]
    #[verifier::rlimit(50)]
    pub fn frames(&self, input: &str, seed: u64, batches: &Vec<usize>, fade_colors: &Vec<Color>) -> (frames: Vec<
        String,
    >)
        requires
            10 * (text_grid(input@).0 * text_grid(input@).1) <= usize::MAX,
            text_grid(input@).0 <= i32::MAX,
            text_grid(input@).1 <= i32::MAX,
            batches.len() > text_cells(text_rows(input@)).len(),
            fade_colors.len() == 10 * (text_grid(input@).0 * text_grid(input@).1),
        ensures
            frames.len() == sequence_frame_count(input@, batches@),
            forall|t: int|
                0 <= t < frames.len() ==> (#[trigger] frames[t])@ == sequence_frame(
                    input@,
                    seed,
                    batches@,
                    fade_colors@,
                    t,
                ),
            frames.len() > 0 ==> frames@.last()@ == faded_text(input@, fade_colors@),
    {
        let ghost text = input@;
        let ghost rows = text_rows(text);
        let ghost cells = text_cells(rows);
        let ghost raw = batches@;
        let mut terminal = Terminal::from_text(input);
        let count = terminal.characters().len();
        if count == 0 {
            return Vec::new();
        }
        let width = terminal.canvas().width();
        let height = terminal.canvas().height();
        let ghost canvas0 = terminal@.canvas;
        proof {
            lemma_rows_nonempty(text);
            lemma_text_cells_in_grid(rows);
            assert(canvas0.cells =~= text_canvas(text).cells);
            assert(cleared(canvas0).cells =~= canvas0.cells);
            assert forall|i: int| 0 <= i < count implies has_fade(
                (#[trigger] cells[i]).1,
                width as nat,
                fade_colors.len() as nat,
            ) by {
                let x = cells[i].1.x as int;
                let y = cells[i].1.y as int;
                assert(10 * (y * width + x) + 10 <= 10 * (width * height)) by (nonlinear_arith)
                    requires
                        0 <= x < width,
                        0 <= y < height,
                ;
            }
        }
        let mut pending: Vec<usize> = Vec::new();
        let mut index: usize = 0;
        while index < count
            invariant
                index <= count,
                count == cells.len(),
                count == terminal@.characters.len(),
                cells == text_cells(rows),
                terminal.wf(),
                terminal@.canvas == canvas0,
                pending@ == Seq::new(index as nat, |i: int| i as usize),
                forall|i: int|
                    0 <= i < count ==> {
                        &&& (#[trigger] terminal@.characters[i]).position == cells[i].1
                        &&& terminal@.characters[i].input_symbol == cells[i].0
                        &&& terminal@.characters[i].animation@.active_scene is None
                        &&& terminal@.characters[i].wf()
                    },
                forall|i: int|
                    0 <= i < count ==> #[trigger] terminal@.characters[i].symbol == cells[i].0,
                forall|i: int|
                    0 <= i < index ==> {
                        &&& !(#[trigger] terminal@.characters[i]).visible
                        &&& terminal@.characters[i].style == foreground_only(starting_color())
                    },
            decreases count - index,
        {
            let ghost current = terminal@.characters;
            pending.push(index);
            let symbol = terminal.characters()[index].input_symbol;
            let characters = terminal.characters_mut();
            characters[index].visible = false;
            characters[index].set_appearance(symbol, Style::default().with_foreground(Color::rgb(0, 0, 0)));
            proof {
                assert(pending@ =~= Seq::new((index + 1) as nat, |i: int| i as usize));
                assert forall|i: int| 0 <= i < count && i != index implies #[trigger] terminal@.characters[i]
                    == current[i] by {}
                assert(crate::engine::terminal::all_wf(terminal@.characters)) by {
                    assert forall|i: int| 0 <= i < count implies (#[trigger] terminal@.characters[i]).wf() by {
                        if i != index {
                            assert(terminal@.characters[i] == current[i]);
                        }
                    }
                }
            }
            index += 1;
        }
        let ghost all = pending@;
        shuffle(pending.as_mut_slice(), seed);
        let ghost order = pending@;
        proof {
            broadcast use vstd::seq_lib::to_multiset_contains, vstd::seq_lib::to_multiset_len;

            assert(order == reveal_order(count as nat, seed));
            assert(order.len() == count) by {
                assert(order.to_multiset().len() == all.to_multiset().len());
            }
            assert(all.no_duplicates());
            all.lemma_multiset_has_no_duplicates();
            order.lemma_multiset_has_no_duplicates_conv();
            assert forall|k: int| 0 <= k < count implies #[trigger] order[k] < count by {
                assert(order.contains(order[k]));
                assert(order.to_multiset().count(order[k]) > 0);
                assert(all.to_multiset().count(order[k]) > 0);
                assert(all.contains(order[k]));
            }
            assert forall|i: int| 0 <= i < count implies {
                &&& 0 <= #[trigger] position_in(order, i) < count
                &&& order[position_in(order, i)] == i
            } by {
                assert(all[i] == i as usize);
                assert(all.contains(i as usize));
                assert(all.to_multiset().count(i as usize) > 0);
                assert(order.to_multiset().count(i as usize) > 0);
                assert(order.contains(i as usize));
            }
            lemma_text_cells_fit(rows);
            assert(rows.len() * crate::utils::text::longest_row(rows) <= width * height) by (nonlinear_arith)
                requires
                    rows.len() <= height,
                    crate::utils::text::longest_row(rows) <= width,
            ;
            assert(count + 50 <= usize::MAX) by (nonlinear_arith)
                requires
                    count <= width * height,
                    10 * (width * height) <= usize::MAX,
                    count >= 1,
            ;
        }
        let ghost last_turn = reveal_turn(raw, count as int, 0, 0);
        proof {
            lemma_reveal_turn_bound(raw, count as int, 0, 0);
            lemma_reveal_turn_after(raw, count as int, 0, 0);
            assert forall|i: int| 0 <= i < count implies fading(
                #[trigger] terminal@.characters[i],
                cells[i],
                sequence_start(text, seed, raw, i),
                fade_colors@,
                fade_base(width as nat, cells[i]),
                0,
            ) by {
                lemma_reveal_turn_after(raw, count as int, position_in(order, i), 0);
            }
        }
        let mut frames: Vec<String> = Vec::new();
        let mut t: usize = 0;
        while pending.len() > 0 || any_scene_running(terminal.characters())
            invariant
                count == cells.len(),
                count >= 1,
                cells == text_cells(rows),
                rows == text_rows(text),
                text == input@,
                raw == batches@,
                (width as nat, height as nat) == text_grid(text),
                batches.len() > count,
                10 * (width * height) <= usize::MAX,
                fade_colors.len() == 10 * (width * height),
                forall|i: int|
                    0 <= i < count ==> has_fade((#[trigger] cells[i]).1, width as nat, fade_colors.len() as nat),
                terminal.wf(),
                cleared(terminal@.canvas) == canvas0,
                canvas0 == text_canvas(text),
                terminal@.characters.len() == count,
                order == reveal_order(count as nat, seed),
                order.len() == count,
                order.no_duplicates(),
                forall|k: int| 0 <= k < count ==> #[trigger] order[k] < count,
                forall|i: int|
                    0 <= i < count ==> {
                        &&& 0 <= #[trigger] position_in(order, i) < count
                        &&& order[position_in(order, i)] == i
                    },
                pending.len() <= count,
                pending@ == order.take(pending.len() as int),
                forall|k: int|
                    0 <= k < count ==> {
                        &&& k < pending.len() ==> #[trigger] reveal_turn(raw, count as int, k, 0) == reveal_turn(
                            raw,
                            pending.len() as int,
                            k,
                            t as int,
                        )
                        &&& k >= pending.len() ==> reveal_turn(raw, count as int, k, 0) < t
                    },
                forall|i: int|
                    0 <= i < count ==> fading(
                        #[trigger] terminal@.characters[i],
                        cells[i],
                        sequence_start(text, seed, raw, i),
                        fade_colors@,
                        fade_base(width as nat, cells[i]),
                        t as int,
                    ),
                last_turn == reveal_turn(raw, count as int, 0, 0),
                last_turn <= count,
                count + 50 <= usize::MAX,
                t <= last_turn + 50,
                frames.len() == t,
                forall|f: int|
                    0 <= f < frames.len() ==> (#[trigger] frames[f])@ == sequence_frame(
                        text,
                        seed,
                        raw,
                        fade_colors@,
                        f,
                    ),
            decreases last_turn + 50 - t,
        {
            proof {
                assert(t < last_turn + 50) by {
                    if pending.len() > 0 {
                        assert(reveal_turn(raw, count as int, 0, 0) == reveal_turn(raw, pending.len() as int, 0, t as int));
                        lemma_reveal_turn_after(raw, pending.len() as int, 0, t as int);
                    } else {
                        let i = choose|i: int| 0 <= i < count && scene_running(#[trigger] terminal@.characters[i]);
                        assert(fading(terminal@.characters[i], cells[i], sequence_start(text, seed, raw, i), fade_colors@, fade_base(width as nat, cells[i]), t as int));
                        let k = position_in(order, i);
                        lemma_reveal_turn_monotone(raw, count as int, 0, k, 0);
                    }
                }
            }
            let ghost waiting = terminal@.characters;
            let ghost pend = pending.len() as int;
            let ghost size: int = 0;
            if pending.len() > 0 {
                let p = pending.len();
                let asked = batches[p];
                let batch = if asked < 1 {
                    1
                } else if asked > p {
                    p
                } else {
                    asked
                };
                proof {
                    size = batch as int;
                    assert forall|i: int| 0 <= i < count implies has_fade(
                        (#[trigger] terminal@.characters[i]).position,
                        width as nat,
                        fade_colors.len() as nat,
                    ) by {
                        assert(fading(terminal@.characters[i], cells[i], sequence_start(text, seed, raw, i), fade_colors@, fade_base(width as nat, cells[i]), t as int));
                    }
                }
                start_batch(&mut terminal, &mut pending, batch, fade_colors, width);
            }
            let ghost lit = terminal@.characters;
            proof {
                assert(size == if pend > 0 { batch_size(raw, pend) } else { 0 });
                assert forall|i: int| 0 <= i < count implies started(
                    #[trigger] lit[i],
                    cells[i],
                    sequence_start(text, seed, raw, i),
                    fade_colors@,
                    fade_base(width as nat, cells[i]),
                    t as int,
                ) by {
                    let k = position_in(order, i);
                    let start = sequence_start(text, seed, raw, i);
                    assert(start == reveal_turn(raw, count as int, k, 0));
                    assert(fading(waiting[i], cells[i], start, fade_colors@, fade_base(width as nat, cells[i]), t as int));
                    if pend > 0 {
                        let popped = order.take(pend).subrange(pend - size, pend);
                        if pend - size <= k < pend {
                            assert(popped[k - (pend - size)] == i as usize);
                            assert(popped.contains(i as usize));
                            assert(start == t);
                        } else {
                            assert(!popped.contains(i as usize)) by {
                                if popped.contains(i as usize) {
                                    let w = choose|w: int| 0 <= w < popped.len() && popped[w] == i as usize;
                                    assert(order[pend - size + w] == i as usize);
                                    assert(order[k] == i as usize);
                                }
                            }
                            if k < pend - size {
                                lemma_reveal_turn_after(raw, pend - size, k, t + 1);
                            }
                        }
                    }
                }
            }
            terminal.step();
            let ghost stepped = terminal@.characters;
            let ghost expected = Seq::new(
                cells.len(),
                |i: int|
                    sequence_character(
                        cells[i],
                        sequence_start(text, seed, raw, i),
                        fade_colors@,
                        fade_base(width as nat, cells[i]),
                        t as int,
                    ),
            );
            proof {
                assert forall|i: int| 0 <= i < count implies {
                    &&& fading(
                        #[trigger] stepped[i],
                        cells[i],
                        sequence_start(text, seed, raw, i),
                        fade_colors@,
                        fade_base(width as nat, cells[i]),
                        t + 1,
                    )
                    &&& same_look(stepped[i], expected[i])
                } by {
                    lemma_fading_step(
                        lit[i],
                        stepped[i],
                        cells[i],
                        sequence_start(text, seed, raw, i),
                        fade_colors@,
                        fade_base(width as nat, cells[i]),
                        t as int,
                    );
                }
                lemma_draw_all_looks(canvas0, stepped, expected);
                assert forall|k: int| 0 <= k < count implies {
                    &&& k < pending.len() ==> #[trigger] reveal_turn(raw, count as int, k, 0) == reveal_turn(
                        raw,
                        pending.len() as int,
                        k,
                        t + 1,
                    )
                    &&& k >= pending.len() ==> reveal_turn(raw, count as int, k, 0) < t + 1
                } by {}
            }
            let rendered = terminal.render_frame();
            proof {
                assert(cleared(terminal@.canvas).cells =~= canvas0.cells);
                assert(rendered@ == sequence_frame(text, seed, raw, fade_colors@, t as int));
            }
            let ghost earlier = frames@;
            frames.push(rendered);
            proof {
                assert forall|f: int| 0 <= f < frames.len() implies (#[trigger] frames[f])@ == sequence_frame(
                    text,
                    seed,
                    raw,
                    fade_colors@,
                    f,
                ) by {
                    if f < earlier.len() {
                        assert(frames[f] == earlier[f]);
                    }
                }
            }
            t += 1;
        }
        proof {
            let first = order[0] as int;
            assert(position_in(order, first) == 0) by {
                let k = position_in(order, first);
                assert(order[k] == order[0]);
            }
            assert(fading(terminal@.characters[first], cells[first], sequence_start(text, seed, raw, first), fade_colors@, fade_base(width as nat, cells[first]), t as int));
            if t < last_turn + 50 {
                assert(scene_running(terminal@.characters[first]));
            }
        }
        proof {
            lemma_sequence_ends_faded(text, seed, raw, fade_colors@);
            assert(frames@.last() == frames[frames.len() - 1]);
        }
        frames
    }

    pub fn new() -> (effect: Self)
        ensures
            effect == RandomSequence,
    {
        RandomSequence
    }

    pub fn name(&self) -> (name: &'static str)
        ensures
            name@ == "random_sequence"@,
    {
        "random_sequence"
    }
}

impl Default for RandomSequence {
    fn default() -> (effect: Self)
        ensures
            effect == RandomSequence,
    {
        Self::new()
    }
}

pub fn rgb_components(color: Color) -> (channels: (u8, u8, u8))
    ensures
        channels == rgb_of(color),
{
    match color {
        Color::Rgb { r, g, b } => (r, g, b),
        Color::Ansi(value) => (value, value, value),
    }
}

/// The order's seed: the clock reading `timestamp` (nanoseconds since the Unix epoch, or 0
/// when the clock is before it) mixed with the FNV-1a hash of the input; never zero.
pub fn seed_for(input: &str, timestamp: u64) -> (seed: u64)
    ensures
        seed == nonzero_or(timestamp ^ fnv1a(input.spec_bytes()), golden_seed()),
{
    let hash = fnv1a_hash(input);
    let seed = timestamp ^ hash;
    if seed == 0 {
        0x9e37_79b9_7f4a_7c15
    } else {
        seed
    }
}

/// Fisher-Yates shuffle from the given state: xorshift64 steps, each index drawn as the
/// state (as `usize`) modulo the range.
pub fn shuffle<T>(values: &mut [T], state: u64)
    ensures
        final(values)@ == fisher_yates(old(values)@, state, draw_mod_usize()).0,
        final(values)@.to_multiset() == old(values)@.to_multiset(),
{
    let len = values.len();
    proof {
        lemma_picks_in_range();
        lemma_fisher_yates_permutes(values@, state, draw_mod_usize());
    }
    if len < 2 {
        return;
    }
    let ghost target = fisher_yates(values@, state, draw_mod_usize());
    let mut state = state;
    let mut index = len - 1;
    while index >= 1
        invariant
            index < len,
            values@.len() == len,
            shuffle_passes(values@, state, index as nat, draw_mod_usize()) == target,
        decreases index,
    {
        state ^= state << 13;
        state ^= state >> 7;
        state ^= state << 17;
        let other = (state as usize) % (index + 1);
        values.swap(index, other);
        index -= 1;
    }
}

/// How many characters start fading while `pending` wait: the count `raw` gives for that
/// many waiting (four in a thousand, rounded down), at least one and at most all.
pub open spec fn batch_size(raw: Seq<usize>, pending: int) -> int {
    let r = raw[pending] as int;
    if r < 1 {
        1
    } else if r > pending {
        pending
    } else {
        r
    }
}

/// The frame in which the character at position `k` of the order starts fading, counting
/// from frame `t` with the first `pending` positions of the order still waiting; batches
/// leave from the end of the order.
pub open spec fn reveal_turn(raw: Seq<usize>, pending: int, k: int, t: int) -> int
    decreases pending,
{
    if pending <= 0 || k >= pending - batch_size(raw, pending) {
        t
    } else {
        reveal_turn(raw, pending - batch_size(raw, pending), k, t + 1)
    }
}

/// A character starts fading no earlier than the frame the count starts from.
proof fn lemma_reveal_turn_after(raw: Seq<usize>, pending: int, k: int, t: int)
    ensures
        reveal_turn(raw, pending, k, t) >= t,
    decreases pending,
{
    if pending > 0 && k < pending - batch_size(raw, pending) {
        lemma_reveal_turn_after(raw, pending - batch_size(raw, pending), k, t + 1);
    }
}

/// Characters earlier in the order start fading no earlier than later ones.
proof fn lemma_reveal_turn_monotone(raw: Seq<usize>, pending: int, j: int, k: int, t: int)
    requires
        j <= k,
    ensures
        reveal_turn(raw, pending, j, t) >= reveal_turn(raw, pending, k, t),
    decreases pending,
{
    if pending > 0 {
        let rest = pending - batch_size(raw, pending);
        if j < rest {
            lemma_reveal_turn_after(raw, rest, j, t + 1);
            if k < rest {
                lemma_reveal_turn_monotone(raw, rest, j, k, t + 1);
            }
        }
    }
}

/// The order in which the `count` characters of the text start fading: their indices
/// shuffled from `seed`.
pub open spec fn reveal_order(count: nat, seed: u64) -> Seq<usize> {
    fisher_yates(Seq::new(count, |i: int| i as usize), seed, draw_mod_usize()).0
}

/// The position of character `i` in the order.
pub open spec fn position_in(order: Seq<usize>, i: int) -> int {
    choose|k: int| 0 <= k < order.len() && order[k] == i
}

/// The colour a character starts from.
pub open spec fn starting_color() -> Color {
    Color::Rgb { r: 0, g: 0, b: 0 }
}

/// The fade of a character: ten frames of five steps each, its symbol in the colours
/// `fade` holds from `base` on.
pub open spec fn fade_frames(symbol: char, fade: Seq<Color>, base: int) -> Seq<Frame> {
    Seq::new(
        10,
        |j: int| Frame { visual: CharacterVisual { symbol, style: foreground_only(fade[base + j]) }, duration: 5 },
    )
}

/// Where a character's fade is `k` steps after it started.
pub open spec fn fade_state(symbol: char, fade: Seq<Color>, base: int, k: int) -> SceneView {
    let frames = fade_frames(symbol, fade, base);
    if k < 50 {
        SceneView {
            frames,
            frame_index: (k / 5) as nat,
            frame_tick: (k % 5) as nat,
            looping: false,
            active: true,
            finished: false,
        }
    } else {
        SceneView { frames, frame_index: 9, frame_tick: 0, looping: false, active: false, finished: true }
    }
}

/// The colour a character shows `k` (at least one) steps after its fade started.
pub open spec fn fade_color(fade: Seq<Color>, base: int, k: int) -> Color {
    fade[base + if (k - 1) / 5 < 9 {
        (k - 1) / 5
    } else {
        9
    }]
}

proof fn lemma_fade_step(symbol: char, fade: Seq<Color>, base: int, k: int)
    requires
        k >= 0,
    ensures
        step_scene(fade_state(symbol, fade, base, k)).0 == fade_state(symbol, fade, base, k + 1),
        k < 50 ==> step_scene(fade_state(symbol, fade, base, k)).1 == Some(
            CharacterVisual { symbol, style: foreground_only(fade_color(fade, base, k + 1)) },
        ),
        k >= 50 ==> step_scene(fade_state(symbol, fade, base, k)).1 is None,
{
    let frames = fade_frames(symbol, fade, base);
    assert(frames.len() == 10);
    if k < 50 {
        assert(frames[k / 5].duration == 5);
    }
}

/// The first of the ten colours of the character on `cell` in the fade table: ten per
/// cell, row by row.
pub open spec fn fade_base(width: nat, cell: (char, Coord)) -> int {
    10 * (cell.1.y * width + cell.1.x)
}

/// The text alone on its canvas, the character at column `x` of row `y` in the last colour
/// of its fade: `fade[10 * (y * width + x) + 9]`.
pub open spec fn faded_text(text: Seq<char>, fade: Seq<Color>) -> Seq<char> {
    let cells = text_cells(text_rows(text));
    let width = text_grid(text).0;
    render_canvas(
        draw_all(
            text_canvas(text),
            Seq::new(
                cells.len(),
                |i: int| lit_character(cells[i], foreground_only(fade[10 * (cells[i].1.y * width + cells[i].1.x) + 9])),
            ),
        ),
    )
}

/// Every character of the text has a place in the order it is revealed in.
proof fn lemma_order_positions(count: nat, seed: u64)
    requires
        count <= usize::MAX,
    ensures
        forall|i: int| 0 <= i < count ==> 0 <= #[trigger] position_in(reveal_order(count, seed), i) < count,
{
    broadcast use vstd::seq_lib::to_multiset_contains;

    let all = Seq::new(count, |i: int| i as usize);
    let order = reveal_order(count, seed);
    lemma_picks_in_range();
    lemma_fisher_yates_permutes(all, seed, draw_mod_usize());
    assert forall|i: int| 0 <= i < count implies 0 <= #[trigger] position_in(order, i) < count by {
        assert(all[i] == i as usize);
        assert(all.contains(i as usize));
        assert(all.to_multiset().count(i as usize) > 0);
        assert(order.to_multiset().count(i as usize) > 0);
        assert(order.contains(i as usize));
    }
}

/// The random sequence of a text with characters ends with every character faded in: the
/// last frame shows each character at its place in the last colour of its own fade.
pub proof fn lemma_sequence_ends_faded(text: Seq<char>, seed: u64, raw: Seq<usize>, fade: Seq<Color>)
    requires
        text_cells(text_rows(text)).len() > 0,
        text_cells(text_rows(text)).len() <= usize::MAX,
    ensures
        sequence_frame(text, seed, raw, fade, sequence_frame_count(text, raw) - 1) == faded_text(text, fade),
{
    let cells = text_cells(text_rows(text));
    let count = cells.len();
    let width = text_grid(text).0;
    let last = sequence_frame_count(text, raw) - 1;
    lemma_order_positions(count, seed);
    let shown = Seq::new(
        cells.len(),
        |i: int| sequence_character(cells[i], sequence_start(text, seed, raw, i), fade, fade_base(width, cells[i]), last),
    );
    let settled = Seq::new(
        cells.len(),
        |i: int| lit_character(cells[i], foreground_only(fade[10 * (cells[i].1.y * width + cells[i].1.x) + 9])),
    );
    assert forall|i: int| 0 <= i < cells.len() implies shown[i] == settled[i] by {
        let p = position_in(reveal_order(count, seed), i);
        assert(0 <= p);
        lemma_reveal_turn_monotone(raw, count as int, 0, p, 0);
        let start = sequence_start(text, seed, raw, i);
        assert(start <= last - 49);
        assert((last - start + 1 - 1) / 5 >= 9);
    }
    assert(shown =~= settled);
}

/// The frame in which character `i` of `text` starts fading.
pub open spec fn sequence_start(text: Seq<char>, seed: u64, raw: Seq<usize>, i: int) -> int {
    let count = text_cells(text_rows(text)).len();
    reveal_turn(raw, count as int, position_in(reveal_order(count, seed), i), 0)
}

/// A character of the text as frame `t` shows it when it starts fading in frame `start`:
/// hidden in the starting colour before, then through the colours of its fade from `base`.
pub open spec fn sequence_character(cell: (char, Coord), start: int, fade: Seq<Color>, base: int, t: int) -> EffectCharacter {
    EffectCharacter {
        id: CharacterId(0),
        input_symbol: cell.0,
        symbol: cell.0,
        position: cell.1,
        style: if t < start {
            foreground_only(starting_color())
        } else {
            foreground_only(fade_color(fade, base, t - start + 1))
        },
        visible: start <= t,
        animation: arbitrary(),
    }
}

/// Frame `t` of the random sequence of `text` with the order shuffled from `seed`.
pub open spec fn sequence_frame(text: Seq<char>, seed: u64, raw: Seq<usize>, fade: Seq<Color>, t: int) -> Seq<char> {
    let cells = text_cells(text_rows(text));
    let width = text_grid(text).0;
    render_canvas(
        draw_all(
            text_canvas(text),
            Seq::new(
                cells.len(),
                |i: int|
                    sequence_character(cells[i], sequence_start(text, seed, raw, i), fade, fade_base(width, cells[i]), t),
            ),
        ),
    )
}

/// The number of frames: until the last character to start has faded for fifty steps;
/// none when the text has no character.
pub open spec fn sequence_frame_count(text: Seq<char>, raw: Seq<usize>) -> int {
    let count = text_cells(text_rows(text)).len();
    if count == 0 {
        0
    } else {
        reveal_turn(raw, count as int, 0, 0) + 50
    }
}

/// A character at the start of frame `t`: waiting, hidden in the starting colour, until its
/// fade starts in frame `start`, then `t - start` steps into it.
spec fn fading(character: EffectCharacter, cell: (char, Coord), start: int, fade: Seq<Color>, base: int, t: int) -> bool {
    &&& character.position == cell.1
    &&& character.input_symbol == cell.0
    &&& character.wf()
    &&& character.symbol == cell.0
    &&& t <= start ==> {
        &&& !character.visible
        &&& character.animation@.active_scene is None
        &&& character.style == foreground_only(starting_color())
    }
    &&& start < t ==> {
        &&& character.visible
        &&& character.animation@.active_scene == Some(fade_state(cell.0, fade, base, t - start))
        &&& character.style == foreground_only(fade_color(fade, base, t - start))
    }
}

/// Like `fading`, once the characters whose fade starts in frame `t` have started it.
spec fn started(character: EffectCharacter, cell: (char, Coord), start: int, fade: Seq<Color>, base: int, t: int) -> bool {
    &&& character.position == cell.1
    &&& character.input_symbol == cell.0
    &&& character.wf()
    &&& character.symbol == cell.0
    &&& t < start ==> {
        &&& !character.visible
        &&& character.animation@.active_scene is None
        &&& character.style == foreground_only(starting_color())
    }
    &&& start == t ==> {
        &&& character.visible
        &&& character.animation@.active_scene == Some(fade_state(cell.0, fade, base, 0))
        &&& character.style == foreground_only(starting_color())
    }
    &&& start < t ==> {
        &&& character.visible
        &&& character.animation@.active_scene == Some(fade_state(cell.0, fade, base, t - start))
        &&& character.style == foreground_only(fade_color(fade, base, t - start))
    }
}

proof fn lemma_fading_step(
    before: EffectCharacter,
    after: EffectCharacter,
    cell: (char, Coord),
    start: int,
    fade: Seq<Color>,
    base: int,
    t: int,
)
    requires
        t >= 0,
        started(before, cell, start, fade, base, t),
        crate::engine::character::character_stepped(before, after),
    ensures
        fading(after, cell, start, fade, base, t + 1),
        crate::engine::terminal::same_look(after, sequence_character(cell, start, fade, base, t)),
{
    if start <= t {
        lemma_fade_step(cell.0, fade, base, t - start);
    }
}

/// A character starts fading at most `pending` frames after the count starts.
proof fn lemma_reveal_turn_bound(raw: Seq<usize>, pending: int, k: int, t: int)
    ensures
        reveal_turn(raw, pending, k, t) <= t + if pending > 0 {
            pending
        } else {
            0
        },
    decreases pending,
{
    if pending > 0 && k < pending - batch_size(raw, pending) {
        lemma_reveal_turn_bound(raw, pending - batch_size(raw, pending), k, t + 1);
    }
}

/// A character's fade, not yet started.
fn fade_scene(symbol: char, fade_colors: &Vec<Color>, base: usize) -> (scene: Scene)
    requires
        base + 10 <= fade_colors.len(),
    ensures
        scene.wf(),
        scene@ == (SceneView {
            frames: fade_frames(symbol, fade_colors@, base as int),
            frame_index: 0,
            frame_tick: 0,
            looping: false,
            active: false,
            finished: false,
        }),
{
    let mut frames: Vec<Frame> = Vec::new();
    let mut j: usize = 0;
    while j < 10
        invariant
            j <= 10,
            base + 10 <= fade_colors.len(),
            frames@ == Seq::new(
                j as nat,
                |m: int|
                    Frame {
                        visual: CharacterVisual { symbol, style: foreground_only(fade_colors@[base + m]) },
                        duration: 5,
                    },
            ),
        decreases 10 - j,
    {
        frames.push(
            Frame::new(CharacterVisual::new(symbol, Style::default().with_foreground(fade_colors[base + j])), 5),
        );
        assert(frames@ =~= Seq::new(
            (j + 1) as nat,
            |m: int|
                Frame {
                    visual: CharacterVisual { symbol, style: foreground_only(fade_colors@[base + m]) },
                    duration: 5,
                },
        ));
        j += 1;
    }
    assert(frames@ =~= fade_frames(symbol, fade_colors@, base as int));
    Scene::with_frames(frames, false)
}

/// Whether the character at `position` has its ten fade colours in a table of `len`
/// colours for a canvas `width` wide.
spec fn has_fade(position: Coord, width: nat, len: nat) -> bool {
    &&& 0 <= position.x < width
    &&& 0 <= position.y
    &&& 10 * (position.y * width + position.x) + 10 <= len
}

/// Starts the fade of the last `size` characters waiting in `pending`, from the last one:
/// each shows and its fade begins; the others stay as they are.
fn start_batch(terminal: &mut Terminal, pending: &mut Vec<usize>, size: usize, fade_colors: &Vec<Color>, width: usize)
    requires
        old(terminal).wf(),
        size <= old(pending).len(),
        forall|k: int| 0 <= k < old(pending).len() ==> #[trigger] old(pending)@[k] < old(terminal)@.characters.len(),
        forall|i: int|
            0 <= i < old(terminal)@.characters.len() ==> has_fade(
                (#[trigger] old(terminal)@.characters[i]).position,
                width as nat,
                fade_colors.len() as nat,
            ),
    ensures
        final(terminal).wf(),
        final(terminal)@.canvas == old(terminal)@.canvas,
        final(terminal)@.characters.len() == old(terminal)@.characters.len(),
        final(pending)@ == old(pending)@.take(old(pending).len() - size),
        forall|i: int|
            0 <= i < old(terminal)@.characters.len() ==> {
                let before = old(terminal)@.characters[i];
                let after = #[trigger] final(terminal)@.characters[i];
                if old(pending)@.subrange(old(pending).len() - size, old(pending).len() as int).contains(i as usize) {
                    &&& after.wf()
                    &&& after.visible
                    &&& after.position == before.position
                    &&& after.input_symbol == before.input_symbol
                    &&& after.symbol == before.symbol
                    &&& after.style == before.style
                    &&& after.animation@.active_scene == Some(
                        fade_state(
                            before.input_symbol,
                            fade_colors@,
                            10 * (before.position.y * width + before.position.x),
                            0,
                        ),
                    )
                } else {
                    after == before
                }
            },
{
    let ghost original = pending@;
    let ghost first = terminal@.characters;
    let ghost low = original.len() - size;
    let count = terminal.characters().len();
    let mut j: usize = 0;
    while j < size
        invariant
            j <= size,
            size <= original.len(),
            low == original.len() - size,
            pending@ == original.take(original.len() - j),
            forall|k: int| 0 <= k < original.len() ==> #[trigger] original[k] < count,
            count == first.len(),
            first == old(terminal)@.characters,
            forall|i: int| 0 <= i < count ==> has_fade((#[trigger] first[i]).position, width as nat, fade_colors.len() as nat),
            terminal.wf(),
            terminal@.canvas == old(terminal)@.canvas,
            terminal@.characters.len() == count,
            forall|i: int|
                0 <= i < count ==> {
                    let before = first[i];
                    let after = #[trigger] terminal@.characters[i];
                    if original.subrange(original.len() - j, original.len() as int).contains(i as usize) {
                        &&& after.wf()
                        &&& after.visible
                        &&& after.position == before.position
                        &&& after.input_symbol == before.input_symbol
                        &&& after.symbol == before.symbol
                        &&& after.style == before.style
                        &&& after.animation@.active_scene == Some(
                            fade_state(
                                before.input_symbol,
                                fade_colors@,
                                10 * (before.position.y * width + before.position.x),
                                0,
                            ),
                        )
                    } else {
                        after == before
                    }
                },
        decreases size - j,
    {
        let ghost current = terminal@.characters;
        let popped = pending.pop();
        let i = match popped {
            Some(value) => value,
            None => 0,
        };
        assert(i == original[original.len() - j - 1]);
        let position = terminal.characters()[i].position;
        let symbol = terminal.characters()[i].input_symbol;
        assert(position == first[i as int].position);
        let base = (position.y as usize * width + position.x as usize) * 10;
        let scene = fade_scene(symbol, fade_colors, base);
        let characters = terminal.characters_mut();
        characters[i].visible = true;
        characters[i].animation.activate_scene(scene);
        proof {
            assert(pending@ =~= original.take(original.len() - (j + 1)));
            assert forall|m: int| 0 <= m < count && m != i implies #[trigger] terminal@.characters[m] == current[m] by {}
            assert(crate::engine::terminal::all_wf(terminal@.characters)) by {
                assert forall|m: int| 0 <= m < count implies (#[trigger] terminal@.characters[m]).wf() by {
                    if m != i {
                        assert(terminal@.characters[m] == current[m]);
                    }
                }
            }
            let next = original.subrange(original.len() - (j + 1), original.len() as int);
            let prev = original.subrange(original.len() - j, original.len() as int);
            assert(next =~= seq![i].add(prev));
            assert forall|m: int| 0 <= m < count implies #[trigger] next.contains(m as usize) == (m == i
                || prev.contains(m as usize)) by {
                if prev.contains(m as usize) {
                    let w = choose|w: int| 0 <= w < prev.len() && prev[w] == m as usize;
                    assert(next[w + 1] == m as usize);
                }
                if next.contains(m as usize) && m != i {
                    let w = choose|w: int| 0 <= w < next.len() && next[w] == m as usize;
                    assert(w > 0);
                    assert(prev[w - 1] == m as usize);
                }
                if m == i {
                    assert(next[0] == m as usize);
                }
            }
        }
        j += 1;
    }
}

} // verus!
