use vstd::prelude::*;

use crate::effects::random::{
    draw_mod_u64, fisher_yates, fnv1a, fnv1a_hash, golden_seed, lemma_fisher_yates_permutes,
    lemma_picks_in_range, nonzero_or, shuffle_passes, xorshift64,
};
use crate::engine::canvas::{render_canvas, CanvasView};
use crate::engine::character::{CharacterId, EffectCharacter};
use crate::engine::edit::{at_home, hide_range, lit_character, repaint, set_shown, snapshot};
pub use crate::engine::edit::row_colored_frame;
use crate::engine::terminal::{
    cleared, draw_all, frame_canvas, lemma_draw_all_drawn, lemma_draw_all_looks,
    lemma_hidden_characters_draw_nothing, lemma_text_cells_in_grid, same_drawn, same_look, text_canvas, text_cells,
    Terminal, TerminalView,
};
use crate::utils::geometry::Coord;
use crate::utils::graphics::{foreground_only, plain_style, Color, Style};
use crate::utils::text::{lemma_rows_nonempty, text_grid, text_rows};
use vstd::string::StringSliceAdditionalSpecFns;

verus! {

/// Columns of code rain fall over the canvas until the text resolves out of it.
#[derive(Debug, Clone)]
pub struct Matrix;

impl Matrix {
    pub fn new() -> (effect: Self)
        ensures
            effect == Matrix,
    {
        Matrix
    }

    pub fn name(&self) -> (name: &'static str)
        ensures
            name@ == "matrix"@,
    {
        "matrix"
    }

    /// The frames of the matrix: code rain falls in columns over the hidden text for
    /// `rain_duration` steps; the canvas fills with code one row per frame; the cells resolve
    /// in a random order over 12 to 36 frames, each showing its text character in its row's
    /// colour from `resolve_colors`; the text fades over eight frames through
    /// `fade_colors` (one colour per row for each step); last the text in `row_colors`,
    /// unless the last fade frame already shows it so. `rain_styles` holds the style of a
    /// rain cell for each trail length and distance from the head, at
    /// `length * (max_length(height) + 1) + distance` (the caller works out the gradients).
    #[verifier::spinoff_prover]
    #[verifier::rlimit(100)]
    pub fn frames(
        &self,
        input: &str,
        rain_styles: &Vec<Style>,
        resolve_colors: &Vec<Color>,
        fade_colors: &Vec<Color>,
        row_colors: &Vec<Color>,
    ) -> (frames: Vec<String>)
        requires
            2 * (text_grid(input@).0 * text_grid(input@).1) <= usize::MAX,
            text_grid(input@).0 <= i32::MAX,
            text_grid(input@).1 <= max_rain_height(),
            4 * text_grid(input@).1 + text_grid(input@).0 / 2 + 24 <= usize::MAX,
            rain_styles.len() == (max_length(text_grid(input@).1 as usize) + 1) * (max_length(
                text_grid(input@).1 as usize,
            ) + 1),
            resolve_colors.len() == text_grid(input@).1,
            fade_colors.len() == 8 * text_grid(input@).1,
            row_colors.len() == text_grid(input@).1,
        ensures
            frames.len() == matrix_frame_count(input@, fade_colors@, row_colors@),
            forall|f: int|
                0 <= f < rain_duration(text_grid(input@).0, text_grid(input@).1) ==> (#[trigger] frames[f])@ == rain_frame(
                    input@,
                    input.spec_bytes(),
                    rain_styles@,
                    f,
                ),
            forall|r: int|
                0 <= r < text_grid(input@).1 ==> (#[trigger] frames[rain_duration(
                    text_grid(input@).0,
                    text_grid(input@).1,
                ) + r])@ == fill_frame(input@, input.spec_bytes(), rain_styles@, r),
            forall|c: int|
                0 <= c < resolve_frames(text_grid(input@).0 * text_grid(input@).1) ==> (#[trigger] frames[rain_duration(
                    text_grid(input@).0,
                    text_grid(input@).1,
                ) + text_grid(input@).1 + c])@ == resolve_frame(
                    input@,
                    input.spec_bytes(),
                    rain_styles@,
                    resolve_colors@,
                    c,
                ),
            forall|step: int|
                1 <= step <= 8 ==> (#[trigger] frames[frames_before_fade(input@) + step - 1])@ == fade_frame(
                    input@,
                    fade_colors@,
                    step,
                ),
            frames@.last()@ == row_colored_frame(input@, row_colors@),
    {
        let ghost text = input@;
        let ghost cells = text_cells(text_rows(text));
        let mut rng = MatrixRng::new(seed_from_input(input));
        let ghost seeded = rng@;
        let (mut terminal, mut rain_symbols) = set_up_matrix(input, rain_styles, &mut rng);
        let ghost after_setup = rng@;
        let width = terminal.canvas().width();
        let height = terminal.canvas().height();
        let area = width * height;
        let total = terminal.characters().len();
        let count = total - area;
        let text_at = index_text(&terminal, width, height, Ghost(text));
        let mut columns: Vec<RainColumn> = Vec::new();
        let mut x: usize = 0;
        while x < width
            invariant
                x <= width,
                height <= max_rain_height(),
                columns.len() == x,
                forall|c: int| 0 <= c < x ==> column_wf(#[trigger] columns[c], height),
                (columns@, rng@) == columns_start(height, after_setup, x as nat),
            decreases width - x,
        {
            columns.push(RainColumn::new(height, &mut rng));
            x += 1;
        }
        let mut frames: Vec<String> = Vec::new();
        let steps = height * 4 + width / 2 + 24;
        let duration: usize = if steps < 32 {
            32
        } else if steps > 120 {
            120
        } else {
            steps
        };
        let mut f: usize = 0;
        while f < duration
            invariant
                f <= duration,
                text == input@,
                cells == text_cells(text_rows(text)),
                count == cells.len(),
                (width as nat, height as nat) == text_grid(text),
                height <= max_rain_height(),
                2 * (width * height) <= usize::MAX,
                columns.len() == width,
                forall|c: int| 0 <= c < width ==> column_wf(#[trigger] columns[c], height),
                rain_symbols.len() == width * height,
                rain_styles.len() == (max_length(height) + 1) * (max_length(height) + 1),
                terminal.wf(),
                matrix_stage(terminal@, text),
                frames.len() == f,
                rain_in_place(terminal@.characters, count as nat, width as nat, height as nat),
                (RainState { columns: columns@, symbols: rain_symbols@, rng: rng@ }) == rain_after(
                    rain_start(input@, input.spec_bytes()),
                    width as nat,
                    height as nat,
                    f as nat,
                ),
                forall|g: int|
                    0 <= g < f ==> (#[trigger] frames@[g])@ == rain_frame(input@, input.spec_bytes(), rain_styles@, g),
                f > 0 ==> rain_rows_shown(
                    terminal@.characters,
                    count as nat,
                    width as nat,
                    height as nat,
                    RainState { columns: columns@, symbols: rain_symbols@, rng: rng@ },
                    rain_styles@,
                    0,
                ),
            decreases duration - f,
        {
            let ghost before = terminal@.characters;
            rain_fall(
                &mut terminal,
                &mut columns,
                &mut rain_symbols,
                &mut rng,
                rain_styles,
                count,
                width,
                height,
                Ghost(text),
            );
            proof {
                assert forall|x: int, y: int| 0 <= x < width && 0 <= y < height implies (
                #[trigger] terminal@.characters[rain_slot(count as nat, height as nat, x, y)]).position
                    == (Coord { x: x as i32, y: y as i32 }) by {
                    assert(terminal@.characters[rain_slot(count as nat, height as nat, x, y)].position
                        == before[rain_slot(count as nat, height as nat, x, y)].position);
                }
                assert forall|i: int| 0 <= i < count implies !(#[trigger] terminal@.characters[i]).visible by {
                    assert(terminal@.characters[i] == before[i]);
                }
                lemma_rain_frame(
                    cleared(terminal@.canvas),
                    terminal@.characters,
                    count as nat,
                    width as nat,
                    height as nat,
                    RainState { columns: columns@, symbols: rain_symbols@, rng: rng@ },
                    rain_styles@,
                );
            }
            snapshot(&mut terminal, &mut frames);
            f += 1;
        }
        let ghost rained = frames@;
        let ghost end = RainState { columns: columns@, symbols: rain_symbols@, rng: rng@ };
        proof {
            assert(duration == rain_duration(width as nat, height as nat));
        }
        let mut row: usize = 0;
        while row < height
            invariant
                row <= height,
                text == input@,
                cells == text_cells(text_rows(text)),
                count == cells.len(),
                (width as nat, height as nat) == text_grid(text),
                height <= max_rain_height(),
                2 * (width * height) <= usize::MAX,
                rain_symbols.len() == width * height,
                rain_styles.len() == (max_length(height) + 1) * (max_length(height) + 1),
                terminal.wf(),
                matrix_stage(terminal@, text),
                frames.len() == duration + row,
                rained.len() == duration,
                forall|g: int| 0 <= g < duration ==> #[trigger] frames@[g] == rained[g],
                duration == rain_duration(width as nat, height as nat),
                end == rain_after(rain_start(input@, input.spec_bytes()), width as nat, height as nat, duration as nat),
                (rain_symbols@, rng@) == filled(end.symbols, end.rng, width as nat, row as nat),
                rain_in_place(terminal@.characters, count as nat, width as nat, height as nat),
                rain_rows_shown(terminal@.characters, count as nat, width as nat, height as nat, end, rain_styles@, row as int),
                row > 0 ==> drawn_as(
                    terminal@.characters,
                    fill_looks(count as nat, width as nat, height as nat, end, rain_symbols@, row - 1, rain_styles@),
                ),
                forall|r: int|
                    0 <= r < row ==> (#[trigger] frames@[duration + r])@ == fill_frame(
                        input@,
                        input.spec_bytes(),
                        rain_styles@,
                        r,
                    ),
            decreases height - row,
        {
            let ghost before = terminal@.characters;
            fill_rows(
                &mut terminal,
                &mut rain_symbols,
                &mut rng,
                rain_styles,
                count,
                width,
                height,
                row,
                Ghost(text),
            );
            proof {
                assert forall|x: int, y: int| 0 <= x < width && 0 <= y < height implies (
                #[trigger] terminal@.characters[rain_slot(count as nat, height as nat, x, y)]).position
                    == (Coord { x: x as i32, y: y as i32 }) by {
                    lemma_slot_parts(count as nat, height as nat, x, y);
                    lemma_rain_slot_in_range(count as nat, width as nat, height as nat, x, y);
                    let slot = rain_slot(count as nat, height as nat, x, y);
                    assert(before[slot].position == (Coord { x: x as i32, y: y as i32 }));
                    if y > row {
                        assert(!visited(count as nat, height as nat, slot, 0, row + 1));
                        assert(terminal@.characters[slot] == before[slot]);
                    }
                }
                assert forall|i: int| 0 <= i < count implies !(#[trigger] terminal@.characters[i]).visible by {
                    assert(!visited(count as nat, height as nat, i, 0, row + 1));
                    assert(terminal@.characters[i] == before[i]);
                }
                assert forall|x: int, y: int| 0 <= x < width && row + 1 <= y < height implies {
                    let after = #[trigger] terminal@.characters[rain_slot(count as nat, height as nat, x, y)];
                    let column = end.columns[x];
                    &&& after.visible == trail_covers(column, y)
                    &&& trail_covers(column, y) ==> {
                        &&& after.symbol == end.symbols[y * width + x]
                        &&& after.style == rain_styles@[column.length * (max_length(height) + 1) + (column.head - y)]
                    }
                } by {
                    lemma_slot_parts(count as nat, height as nat, x, y);
                    lemma_rain_slot_in_range(count as nat, width as nat, height as nat, x, y);
                    let slot = rain_slot(count as nat, height as nat, x, y);
                    assert(!visited(count as nat, height as nat, slot, 0, row + 1));
                    assert(terminal@.characters[slot] == before[slot]);
                    assert(before[slot] == before[rain_slot(count as nat, height as nat, x, y)]);
                }
                lemma_fill_frame(
                    cleared(terminal@.canvas),
                    terminal@.characters,
                    count as nat,
                    width as nat,
                    height as nat,
                    end,
                    rain_symbols@,
                    row as int,
                    rain_styles@,
                );
            }
            snapshot(&mut terminal, &mut frames);
            row += 1;
        }

        let ghost filling = frames@;
        let ghost filled_looks = fill_looks(
            count as nat,
            width as nat,
            height as nat,
            end,
            rain_symbols@,
            height - 1,
            rain_styles@,
        );
        let ghost after_fill = rng@;
        let mut order: Vec<usize> = Vec::new();
        let mut n: usize = 0;
        while n < area
            invariant
                n <= area,
                order@ == Seq::new(n as nat, |m: int| m as usize),
            decreases area - n,
        {
            order.push(n);
            proof {
                assert(order@ =~= Seq::new((n + 1) as nat, |m: int| m as usize));
            }
            n += 1;
        }
        let ghost all = order@;
        rng.shuffle(order.as_mut_slice());
        let ghost shuffled = rng@;
        proof {
            broadcast use vstd::seq_lib::to_multiset_len;

            assert(order@.to_multiset().len() == all.to_multiset().len());
        }
        let spread: usize = if area < 12 {
            12
        } else if area > 36 {
            36
        } else {
            area
        };
        proof {
            lemma_rows_nonempty(text);
            assert(area >= 1) by (nonlinear_arith)
                requires
                    width >= 1,
                    height >= 1,
                    area == width * height,
            ;
            let x = area + spread - 1;
            vstd::arithmetic::div_mod::lemma_fundamental_div_mod(x as int, spread as int);
            vstd::arithmetic::div_mod::lemma_mod_pos_bound(x as int, spread as int);
            let q = x as int / spread as int;
            let r = x as int % spread as int;
            assert(q <= area) by (nonlinear_arith)
                requires
                    x == spread * q + r,
                    0 <= r,
                    x == area + spread - 1,
                    spread >= 1,
                    area >= 1,
            ;
        }
        let mut batch = (area + spread - 1) / spread;
        if batch < 1 {
            batch = 1;
        }
        proof {
            assert forall|k: int| 0 <= k < order.len() implies #[trigger] order[k] < width * height by {
                assert(order@.to_multiset().count(order[k]) > 0) by {
                    broadcast use vstd::seq_lib::to_multiset_contains;

                    assert(order@.contains(order[k]));
                }
                assert(all.to_multiset().count(order[k]) > 0);
                broadcast use vstd::seq_lib::to_multiset_contains;

                assert(all.contains(order[k]));
            }
        }
        let ghost resolve_start = frames.len();
        proof {
            assert(batch == resolve_batch(area as nat));
            assert(all =~= Seq::new((width * height) as nat, |m: int| m as usize));
            assert(resolve_frame_inputs(input@, input.spec_bytes(), rain_styles@, filled_looks, shuffled, order@));
        }
        let mut start: usize = 0;
        let mut chunks: usize = 0;
        while start < area
            invariant
                start <= area,
                area >= 1,
                area == width * height,
                batch >= 1,
                batch <= area,
                chunks <= start,
                chunks * batch >= start,
                chunks == 0 ==> start == 0,
                chunks > 0 ==> (chunks - 1) * batch < start,
                start < area ==> start == chunks * batch,
                text == input@,
                cells == text_cells(text_rows(text)),
                count == cells.len(),
                (width as nat, height as nat) == text_grid(text),
                2 * (width * height) <= usize::MAX,
                order.len() == area,
                forall|k: int| 0 <= k < order.len() ==> #[trigger] order[k] < width * height,
                order@.to_multiset() == all.to_multiset(),
                all == Seq::new(area as nat, |m: int| m as usize),
                text_at.len() == area,
                forall|m: int| 0 <= m < text_at.len() ==> #[trigger] text_at[m] <= count,
                resolve_colors.len() == height,
                terminal.wf(),
                matrix_stage(terminal@, text),
                frames.len() == resolve_start + chunks,
                filling.len() == duration + height,
                resolve_start == duration + height,
                forall|g: int| 0 <= g < duration + height ==> #[trigger] frames@[g] == filling[g],
                forall|k: int|
                    0 <= k < start ==> !terminal@.characters[rain_of_cell(
                        count as nat,
                        width as nat,
                        height as nat,
                        #[trigger] order[k] as int,
                    )].visible,
                batch == resolve_batch(area as nat),
                text_at@ == text_index(cells, width as nat, area as nat, count as nat),
                ({
                    let (model, state) = resolve_models(
                        filled_looks,
                        shuffled,
                        order@,
                        batch as nat,
                        cells,
                        text_at@,
                        resolve_colors@,
                        width as nat,
                        height as nat,
                        chunks as nat,
                    );
                    &&& drawn_as(terminal@.characters, model)
                    &&& rng@ == state
                }),
                forall|j: int|
                    0 <= j < chunks ==> (#[trigger] frames@[resolve_start + j])@ == resolve_frame(
                        input@,
                        input.spec_bytes(),
                        rain_styles@,
                        resolve_colors@,
                        j,
                    ),
                resolve_frame_inputs(input@, input.spec_bytes(), rain_styles@, filled_looks, shuffled, order@),
            decreases area - start,
        {
            let ghost model = resolve_models(
                filled_looks,
                shuffled,
                order@,
                batch as nat,
                cells,
                text_at@,
                resolve_colors@,
                width as nat,
                height as nat,
                chunks as nat,
            ).0;
            let end = if start + batch < area {
                start + batch
            } else {
                area
            };
            resolve_chunk(
                &mut terminal,
                &order,
                start,
                end,
                &text_at,
                &mut rng,
                resolve_colors,
                count,
                width,
                height,
                Ghost(text),
                Ghost(model),
            );
            let ghost shot = terminal@;
            proof {
                let next = resolve_models(
                    filled_looks,
                    shuffled,
                    order@,
                    batch as nat,
                    cells,
                    text_at@,
                    resolve_colors@,
                    width as nat,
                    height as nat,
                    (chunks + 1) as nat,
                ).0;
                assert(start == chunks * batch);
                lemma_draw_all_drawn(cleared(shot.canvas), shot.characters, next);
            }
            snapshot(&mut terminal, &mut frames);
            proof {
                assert(terminal@.characters == shot.characters);
                assert(frames@[resolve_start + chunks as int]@ == resolve_frame(
                    input@,
                    input.spec_bytes(),
                    rain_styles@,
                    resolve_colors@,
                    chunks as int,
                ));
                assert(chunks * batch + batch == (chunks + 1) * batch) by (nonlinear_arith);
            }
            start = end;
            chunks += 1;
        }
        proof {
            lemma_chunk_count(area as int, batch as int, chunks as int);
            lemma_all_rain_hidden(terminal@.characters, order@, count as nat, width as nat, height as nat);
            assert(frames.len() == frames_before_fade(text));
        }
        let ghost resolved = frames@;
        let mut step: usize = 1;
        while step <= 8
            invariant
                1 <= step <= 9,
                text == input@,
                cells == text_cells(text_rows(text)),
                count == cells.len(),
                (width as nat, height as nat) == text_grid(text),
                fade_colors.len() == 8 * height,
                terminal.wf(),
                matrix_stage(terminal@, text),
                forall|j: int| count <= j < terminal@.characters.len() ==> !(#[trigger] terminal@.characters[j]).visible,
                frames.len() == frames_before_fade(text) + step - 1,
                resolved.len() == frames_before_fade(text),
                forall|g: int| 0 <= g < frames_before_fade(text) ==> #[trigger] frames@[g] == resolved[g],
                filling.len() == duration + height,
                frames_before_fade(text) >= duration + height,
                forall|g: int| 0 <= g < duration + height ==> #[trigger] resolved[g] == filling[g],
                forall|s: int|
                    1 <= s < step ==> (#[trigger] frames[frames_before_fade(text) + s - 1])@ == fade_frame(
                        text,
                        fade_colors@,
                        s,
                    ),
            decreases 9 - step,
        {
            let ghost old_frames = frames@;
            fade_step(&mut terminal, &mut frames, fade_colors, step, count, height, Ghost(text));
            proof {
                assert forall|s: int|
                    1 <= s < step + 1 implies (#[trigger] frames[frames_before_fade(text) + s - 1])@ == fade_frame(
                    text,
                    fade_colors@,
                    s,
                ) by {
                    if s < step {
                        assert(frames[frames_before_fade(text) + s - 1] == old_frames[frames_before_fade(text) + s - 1]);
                    }
                }
            }
            step += 1;
        }
        let total = terminal.characters().len();
        hide_range(&mut terminal, count, total);
        fade_text(&mut terminal, row_colors, 0, count, height, Ghost(text));
        let ghost shot = terminal@;
        let final_frame = terminal.render_frame();
        proof {
            lemma_draw_all_looks(cleared(shot.canvas), shot.characters, shot.characters);
            lemma_rows_colored(text, shot.characters, row_colors@);
            assert(final_frame@ == row_colored_frame(text, row_colors@));
            assert(frames@.last() == frames[frames_before_fade(text) + 8 - 1]);
        }
        let ghost faded = frames@;
        if frames[frames.len() - 1] != final_frame {
            frames.push(final_frame);
        }
        proof {
            assert forall|g: int| 0 <= g < rain_duration(width as nat, height as nat) implies (#[trigger] frames@[g])@
                == rain_frame(input@, input.spec_bytes(), rain_styles@, g) by {
                assert(frames@[g] == faded[g]);
                assert(faded[g] == resolved[g]);
                assert(resolved[g] == filling[g]);
                assert(filling[g] == rained[g]);
            }
            assert forall|r: int| 0 <= r < height implies (#[trigger] frames@[duration + r])@ == fill_frame(
                input@,
                input.spec_bytes(),
                rain_styles@,
                r,
            ) by {
                assert(frames@[duration + r] == faded[duration + r]);
                assert(faded[duration + r] == resolved[duration + r]);
                assert(resolved[duration + r] == filling[duration + r]);
            }
            assert forall|c: int| 0 <= c < resolve_frames(area as nat) implies (#[trigger] frames@[resolve_start + c])@
                == resolve_frame(input@, input.spec_bytes(), rain_styles@, resolve_colors@, c) by {
                assert(frames@[resolve_start + c] == faded[resolve_start + c]);
                assert(faded[resolve_start + c] == resolved[resolve_start + c]);
            }
        }
        frames
    }
}

impl Default for Matrix {
    fn default() -> (effect: Self)
        ensures
            effect == Matrix,
    {
        Self::new()
    }
}

/// The symbols the rain is made of: digits, lower and upper case letters, then
/// `@#$%&*+-=<>`.
pub open spec fn matrix_symbols() -> Seq<char> {
    seq![
        '0', '1', '2', '3', '4', '5', '6', '7', '8', '9', 'a', 'b', 'c', 'd', 'e', 'f', 'g', 'h',
        'i', 'j', 'k', 'l', 'm', 'n', 'o', 'p', 'q', 'r', 's', 't', 'u', 'v', 'w', 'x', 'y', 'z',
        'A', 'B', 'C', 'D', 'E', 'F', 'G', 'H', 'I', 'J', 'K', 'L', 'M', 'N', 'O', 'P', 'Q', 'R',
        'S', 'T', 'U', 'V', 'W', 'X', 'Y', 'Z', '@', '#', '$', '%', '&', '*', '+', '-', '=', '<',
        '>',
    ]
}

/// A value below `bound` drawn from the state, and the next state; bounds of zero and one
/// give 0 without drawing.
pub open spec fn range_draw(state: u64, bound: usize) -> (usize, u64) {
    if bound <= 1 {
        (0, state)
    } else {
        ((xorshift64(state) % (bound as u64)) as usize, xorshift64(state))
    }
}

/// A uniformly drawn rain symbol.
pub fn random_matrix_symbol(rng: &mut MatrixRng) -> (symbol: char)
    ensures
        ({
            let (index, next) = range_draw(old(rng)@, 73);
            symbol == matrix_symbols()[index as int] && final(rng)@ == next
        }),
{
    let symbols: [char; 73] = [
        '0', '1', '2', '3', '4', '5', '6', '7', '8', '9', 'a', 'b', 'c', 'd', 'e', 'f', 'g', 'h',
        'i', 'j', 'k', 'l', 'm', 'n', 'o', 'p', 'q', 'r', 's', 't', 'u', 'v', 'w', 'x', 'y', 'z',
        'A', 'B', 'C', 'D', 'E', 'F', 'G', 'H', 'I', 'J', 'K', 'L', 'M', 'N', 'O', 'P', 'Q', 'R',
        'S', 'T', 'U', 'V', 'W', 'X', 'Y', 'Z', '@', '#', '$', '%', '&', '*', '+', '-', '=', '<',
        '>',
    ];
    assert(symbols@ =~= matrix_symbols());
    symbols[rng.range(73)]
}

/// The FNV-1a hash of the input, never zero.
pub fn seed_from_input(input: &str) -> (seed: u64)
    ensures
        seed == nonzero_or(fnv1a(input.spec_bytes()), golden_seed()),
{
    let hash = fnv1a_hash(input);
    if hash == 0 {
        0x9e37_79b9_7f4a_7c15
    } else {
        hash
    }
}

/// The tallest canvas the rain handles: a column's head runs down to the height plus the
/// column's length (up to twice the height), and that row arithmetic is done in `i32`.
pub open spec fn max_rain_height() -> int {
    0x3fff_ffff
}

/// One falling column of rain: the row of its head, its length, how many steps each row
/// takes, the steps spent on the current row, and the pause before it starts again.
#[derive(Debug, Clone, Copy)]
pub struct RainColumn {
    pub head: i32,
    pub length: usize,
    pub fall_delay: usize,
    pub delay_tick: usize,
    pub restart_delay: usize,
}

/// The longest column on a canvas of `height` rows: the height, and at least three.
pub open spec fn max_length(height: usize) -> usize {
    if height >= 3 {
        height
    } else {
        3
    }
}

/// A column's head, length and fall delay drawn in turn: head above the canvas, length
/// from three to the height, fall delay from one to four. Returns them and the next state.
pub open spec fn column_draw(height: usize, state: u64) -> (i32, usize, usize, u64) {
    let (head, s1) = range_draw(state, (height + 1) as usize);
    let (length, s2) = range_draw(s1, (max_length(height) - 3 + 1) as usize);
    let (delay, s3) = range_draw(s2, 4);
    (-(head as i32) as i32, (3 + length) as usize, (1 + delay) as usize, s3)
}

/// The invariant a column keeps on a canvas of `height` rows.
pub open spec fn column_wf(column: RainColumn, height: usize) -> bool {
    &&& height <= max_rain_height()
    &&& 3 <= column.length <= max_length(height)
    &&& 1 <= column.fall_delay <= 4
    &&& column.delay_tick < column.fall_delay
    &&& -(height as int) <= column.head <= height + column.length
    &&& column.restart_delay < 16
}

/// The column after one step of the rain, and the next state.
pub open spec fn column_step(column: RainColumn, height: usize, state: u64) -> (RainColumn, u64) {
    if column.restart_delay > 0 {
        (RainColumn { restart_delay: (column.restart_delay - 1) as usize, ..column }, state)
    } else if column.delay_tick + 1 < column.fall_delay {
        (RainColumn { delay_tick: (column.delay_tick + 1) as usize, ..column }, state)
    } else if column.head + 1 - column.length > height {
        let (head, length, fall_delay, s1) = column_draw(height, state);
        let (restart, s2) = range_draw(s1, 14);
        (RainColumn { head, length, fall_delay, delay_tick: 0, restart_delay: (2 + restart) as usize }, s2)
    } else {
        (RainColumn { head: (column.head + 1) as i32, delay_tick: 0, ..column }, state)
    }
}

impl RainColumn {
    /// A fresh column for a canvas of `height` rows, waiting up to nine steps to start.
    pub fn new(height: usize, rng: &mut MatrixRng) -> (column: Self)
        requires
            height <= max_rain_height(),
        ensures
            column_wf(column, height),
            ({
                let (head, length, fall_delay, s1) = column_draw(height, old(rng)@);
                let (restart, s2) = range_draw(s1, 10);
                column == RainColumn { head, length, fall_delay, delay_tick: 0, restart_delay: restart }
                    && final(rng)@ == s2
            }),
    {
        let maximum_length = if height >= 3 {
            height
        } else {
            3
        };
        let minimum_length = if maximum_length <= 3 {
            maximum_length
        } else {
            3
        };
        Self {
            head: -(rng.range(height.saturating_add(1)) as i32),
            length: minimum_length + rng.range(maximum_length.saturating_sub(minimum_length) + 1),
            fall_delay: 1 + rng.range(4),
            delay_tick: 0,
            restart_delay: rng.range(10),
        }
    }

    /// Advances the column by one step: wait out the restart delay, then move the head
    /// down a row every `fall_delay` steps, and start over once the tail has left the canvas.
    pub fn step(&mut self, height: usize, rng: &mut MatrixRng)
        requires
            column_wf(*old(self), height),
        ensures
            column_wf(*final(self), height),
            (*final(self), final(rng)@) == column_step(*old(self), height, old(rng)@),
    {
        if self.restart_delay > 0 {
            self.restart_delay -= 1;
            return;
        }
        self.delay_tick += 1;
        if self.delay_tick < self.fall_delay {
            return;
        }
        self.delay_tick = 0;
        self.head += 1;
        if self.head - self.length as i32 > height as i32 {
            let maximum_length = if height >= 3 {
                height
            } else {
                3
            };
            let minimum_length = if maximum_length <= 3 {
                maximum_length
            } else {
                3
            };
            self.head = -(rng.range(height.saturating_add(1)) as i32);
            self.length = minimum_length + rng.range(
                maximum_length.saturating_sub(minimum_length) + 1,
            );
            self.fall_delay = 1 + rng.range(4);
            self.restart_delay = 2 + rng.range(14);
        }
    }
}

/// A xorshift64 generator.
#[derive(Debug, Clone)]
pub struct MatrixRng {
    state: u64,
}

impl View for MatrixRng {
    type V = u64;

    closed spec fn view(&self) -> u64 {
        self.state
    }
}

impl MatrixRng {
    /// A generator seeded with `seed` (or a fixed constant in place of zero).
    pub fn new(seed: u64) -> (rng: Self)
        ensures
            rng@ == nonzero_or(seed, golden_seed()),
    {
        Self {
            state: if seed == 0 {
                0x9e37_79b9_7f4a_7c15
            } else {
                seed
            },
        }
    }

    pub fn next_u64(&mut self) -> (value: u64)
        ensures
            value == xorshift64(old(self)@),
            final(self)@ == value,
    {
        let mut value = self.state;
        value ^= value << 13;
        value ^= value >> 7;
        value ^= value << 17;
        self.state = value;
        value
    }

    /// A value below `upper_bound`; bounds of zero and one give 0 without drawing.
    pub fn range(&mut self, upper_bound: usize) -> (value: usize)
        ensures
            (value, final(self)@) == range_draw(old(self)@, upper_bound),
    {
        if upper_bound <= 1 {
            0
        } else {
            (self.next_u64() % upper_bound as u64) as usize
        }
    }

    /// True with probability `numerator / denominator`; a zero denominator is false and
    /// draws nothing.
    pub fn chance(&mut self, numerator: usize, denominator: usize) -> (hit: bool)
        ensures
            denominator == 0 ==> !hit && final(self)@ == old(self)@,
            denominator != 0 ==> {
                let (value, next) = range_draw(old(self)@, denominator);
                hit == (value < numerator) && final(self)@ == next
            },
    {
        denominator != 0 && self.range(denominator) < numerator
    }

    /// Fisher-Yates shuffle drawing each index with `range`.
    pub fn shuffle<T>(&mut self, values: &mut [T])
        ensures
            (final(values)@, final(self)@) == fisher_yates(old(values)@, old(self)@, draw_mod_u64()),
            final(values)@.to_multiset() == old(values)@.to_multiset(),
    {
        let len = values.len();
        proof {
            lemma_picks_in_range();
            lemma_fisher_yates_permutes(values@, self@, draw_mod_u64());
        }
        if len < 2 {
            return;
        }
        let ghost target = fisher_yates(values@, self@, draw_mod_u64());
        let mut index = len - 1;
        while index >= 1
            invariant
                index < len,
                values@.len() == len,
                shuffle_passes(values@, self@, index as nat, draw_mod_u64()) == target,
            decreases index,
        {
            let other = self.range(index + 1);
            values.swap(index, other);
            index -= 1;
        }
    }
}

/// Drawing the text's characters in their rows' colours at their places, with every later
/// character hidden, shows the text alone in those colours.
proof fn lemma_rows_colored(text: Seq<char>, characters: Seq<EffectCharacter>, colors: Seq<Color>)
    requires
        characters.len() >= text_cells(text_rows(text)).len(),
        forall|i: int|
            0 <= i < text_cells(text_rows(text)).len() ==> {
                let cell = text_cells(text_rows(text))[i];
                &&& (#[trigger] characters[i]).visible
                &&& characters[i].position == cell.1
                &&& characters[i].symbol == cell.0
                &&& characters[i].style == foreground_only(colors[cell.1.y as int])
            },
        forall|i: int|
            text_cells(text_rows(text)).len() <= i < characters.len() ==> !(#[trigger] characters[i]).visible,
    ensures
        render_canvas(draw_all(text_canvas(text), characters)) == row_colored_frame(text, colors),
{
    let cells = text_cells(text_rows(text));
    let canvas = text_canvas(text);
    let shown = characters.take(cells.len() as int);
    let expected = Seq::new(
        cells.len(),
        |i: int| lit_character(cells[i], foreground_only(colors[cells[i].1.y as int])),
    );
    lemma_hidden_characters_draw_nothing(canvas, characters, cells.len() as int);
    assert forall|i: int| 0 <= i < shown.len() implies same_look(#[trigger] shown[i], expected[i]) by {
        assert(shown[i] == characters[i]);
    }
    lemma_draw_all_looks(canvas, shown, expected);
}

/// The number of steps the rain falls: four per row, one per two columns and 24 more, kept
/// between 32 and 120.
pub open spec fn rain_duration(width: nat, height: nat) -> int {
    let steps = (4 * height + width / 2 + 24) as int;
    if steps < 32 {
        32
    } else if steps > 120 {
        120
    } else {
        steps
    }
}

/// The number of cells resolved per frame: the cells spread over 12 to 36 frames.
pub open spec fn resolve_batch(cells: nat) -> int {
    let frames = if cells < 12 {
        12
    } else if cells > 36 {
        36
    } else {
        cells as int
    };
    let batch = (cells + frames - 1) / frames;
    if batch < 1 {
        1
    } else {
        batch
    }
}

/// The number of frames in which the cells resolve: one per batch.
pub open spec fn resolve_frames(cells: nat) -> int {
    (cells + resolve_batch(cells) - 1) / resolve_batch(cells)
}

/// The frames before the text fades: the rain, one frame per row filling the canvas with
/// code, and the resolving.
pub open spec fn frames_before_fade(text: Seq<char>) -> int {
    let (width, height) = text_grid(text);
    rain_duration(width, height) + height + resolve_frames(width * height)
}

/// Fade frame `step` (from 1 to 8): the text alone, each row in its colour for that step.
pub open spec fn fade_frame(text: Seq<char>, fade_colors: Seq<Color>, step: int) -> Seq<char> {
    let height = text_grid(text).1;
    row_colored_frame(text, fade_colors.subrange((step - 1) * height, step * height))
}

/// The number of frames of the matrix: the rain, the filling, the resolving and the eight
/// fade frames, and the text in its final colours unless the last fade frame already shows
/// it so.
pub open spec fn matrix_frame_count(text: Seq<char>, fade_colors: Seq<Color>, row_colors: Seq<Color>) -> int {
    frames_before_fade(text) + 8 + if row_colored_frame(text, row_colors) == fade_frame(text, fade_colors, 8) {
        0int
    } else {
        1int
    }
}

/// What stays through the matrix: the text's characters at home on their canvas, then one
/// rain character for each cell.
spec fn matrix_stage(view: TerminalView, text: Seq<char>) -> bool {
    let (width, height) = text_grid(text);
    let cells = text_cells(text_rows(text));
    &&& cleared(view.canvas) == text_canvas(text)
    &&& view.characters.len() == cells.len() + width * height
    &&& at_home(view.characters, cells)
    &&& forall|i: int|
        0 <= i < cells.len() ==> {
            &&& 0 <= (#[trigger] cells[i]).1.x < width
            &&& 0 <= cells[i].1.y < height
        }
}

/// The index of the rain character of cell `(x, y)`: they follow the text's `count`
/// characters column by column.
pub open spec fn rain_slot(count: nat, height: nat, x: int, y: int) -> int {
    count + x * height + y
}

proof fn lemma_rain_slot_in_range(count: nat, width: nat, height: nat, x: int, y: int)
    requires
        0 <= x < width,
        0 <= y < height,
    ensures
        count <= rain_slot(count, height, x, y) < count + width * height,
{
    assert(0 <= x * height + y < width * height) by (nonlinear_arith)
        requires
            0 <= x < width,
            0 <= y < height,
    ;
}

/// The table of the text's characters by cell, row by row: the index of the character on
/// each cell, or `count` where there is none.
fn index_text(terminal: &Terminal, width: usize, height: usize, Ghost(text): Ghost<Seq<char>>) -> (text_at: Vec<usize>)
    requires
        matrix_stage(terminal@, text),
        (width as nat, height as nat) == text_grid(text),
        2 * (width * height) <= usize::MAX,
    ensures
        text_at.len() == width * height,
        forall|n: int| 0 <= n < text_at.len() ==> #[trigger] text_at[n] <= text_cells(text_rows(text)).len(),
        text_at@ == text_index(
            text_cells(text_rows(text)),
            width as nat,
            (width * height) as nat,
            text_cells(text_rows(text)).len(),
        ),
{
    let ghost cells = text_cells(text_rows(text));
    let total = terminal.characters().len();
    let area = width * height;
    let count = total - area;
    let mut text_at: Vec<usize> = Vec::new();
    let mut n: usize = 0;
    while n < area
        invariant
            n <= area,
            text_at.len() == n,
            count == cells.len(),
            forall|m: int| 0 <= m < text_at.len() ==> #[trigger] text_at[m] <= count,
            forall|m: int| 0 <= m < text_at.len() ==> #[trigger] text_at[m] == count,
        decreases area - n,
    {
        text_at.push(count);
        n += 1;
    }
    proof {
        assert(text_at@ =~= text_index(cells, width as nat, area as nat, 0));
    }
    let mut i: usize = 0;
    while i < count
        invariant
            i <= count,
            count == cells.len(),
            cells == text_cells(text_rows(text)),
            area == width * height,
            text_at@ == text_index(cells, width as nat, area as nat, i as nat),
            total == terminal@.characters.len(),
            matrix_stage(terminal@, text),
            (width as nat, height as nat) == text_grid(text),
            text_at.len() == area,
            forall|m: int| 0 <= m < text_at.len() ==> #[trigger] text_at[m] <= count,
        decreases count - i,
    {
        let position = terminal.characters()[i].position;
        assert(position == cells[i as int].1);
        proof {
            lemma_cell_in_table(width as nat, height as nat, position.x as int, position.y as int);
        }
        text_at.set(position.y as usize * width + position.x as usize, i);
        proof {
            assert(text_at@ =~= text_index(cells, width as nat, area as nat, (i + 1) as nat));
        }
        i += 1;
    }
    text_at
}

proof fn lemma_cell_in_table(width: nat, height: nat, x: int, y: int)
    requires
        0 <= x < width,
        0 <= y < height,
    ensures
        0 <= y * width + x < width * height,
{
    assert(0 <= y * width + x < width * height) by (nonlinear_arith)
        requires
            0 <= x < width,
            0 <= y < height,
    ;
}

/// The rain symbols and the generator's state after the first `n` cells, column by column,
/// each drew its first symbol; `symbols` holds the symbols before.
pub open spec fn setup_fold(symbols: Seq<char>, state: u64, width: nat, height: nat, n: nat) -> (Seq<char>, u64)
    decreases n,
{
    if n == 0 {
        (symbols, state)
    } else {
        let (before, current) = setup_fold(symbols, state, width, height, (n - 1) as nat);
        let x = (n - 1) / (height as int);
        let y = (n - 1) % (height as int);
        let (index, next) = range_draw(current, 73);
        (before.update(y * width + x, matrix_symbols()[index as int]), next)
    }
}

/// The first `n` columns as they start, drawn in turn from the generator at `state`, and
/// the generator's state after.
pub open spec fn columns_start(height: usize, state: u64, n: nat) -> (Seq<RainColumn>, u64)
    decreases n,
{
    if n == 0 {
        (Seq::empty(), state)
    } else {
        let (before, current) = columns_start(height, state, (n - 1) as nat);
        let (head, length, fall_delay, s1) = column_draw(height, current);
        let (restart, s2) = range_draw(s1, 10);
        (before.push(RainColumn { head, length, fall_delay, delay_tick: 0, restart_delay: restart }), s2)
    }
}

/// The code rain between frames: its columns, the symbols of its cells, and the
/// generator's state.
pub struct RainState {
    pub columns: Seq<RainColumn>,
    pub symbols: Seq<char>,
    pub rng: u64,
}

/// The rain after one more step: every column steps, then every covered cell may draw a
/// fresh symbol.
pub open spec fn rain_step(st: RainState, width: nat, height: nat) -> RainState {
    let (columns, current) = columns_fold(st.columns, height as usize, st.rng, width);
    let (symbols, next) = trail_fold(st.symbols, current, columns, width, height, width * height);
    RainState { columns, symbols, rng: next }
}

/// The rain after `f` steps from `start`.
pub open spec fn rain_after(start: RainState, width: nat, height: nat, f: nat) -> RainState
    decreases f,
{
    if f == 0 {
        start
    } else {
        rain_step(rain_after(start, width, height, (f - 1) as nat), width, height)
    }
}

/// The rain over `text`, whose bytes are `bytes`, before its first step.
pub open spec fn rain_start(text: Seq<char>, bytes: Seq<u8>) -> RainState {
    let (width, height) = text_grid(text);
    let seed = nonzero_or(fnv1a(bytes), golden_seed());
    let (symbols, state) = setup_fold(Seq::new(width * height, |i: int| '0'), seed, width, height, width * height);
    let (columns, next) = columns_start(height as usize, state, width);
    RainState { columns, symbols, rng: next }
}

/// What the characters look like in a frame of the rain `st`: the text hidden, and the
/// character of cell `(x, y)` showing where a trail covers it, with the cell's symbol in
/// the style for its distance from the head.
pub open spec fn rain_looks(count: nat, width: nat, height: nat, st: RainState, rain_styles: Seq<Style>) -> Seq<EffectCharacter> {
    Seq::new(count + width * height, |i: int| rain_look(count, width, height, st, rain_styles, i))
}

/// What character `i` looks like in a frame of the rain `st` (see `rain_looks`).
pub open spec fn rain_look(count: nat, width: nat, height: nat, st: RainState, rain_styles: Seq<Style>, i: int) -> EffectCharacter {
    if i < count {
        EffectCharacter {
            id: CharacterId(0),
            input_symbol: ' ',
            symbol: ' ',
            position: Coord { x: 0, y: 0 },
            style: plain_style(),
            visible: false,
            animation: arbitrary(),
        }
    } else {
        let x = (i - count) / (height as int);
        let y = (i - count) % (height as int);
        let column = st.columns[x];
        EffectCharacter {
            id: CharacterId(0),
            input_symbol: ' ',
            symbol: st.symbols[y * width + x],
            position: Coord { x: x as i32, y: y as i32 },
            style: rain_styles[column.length * (max_length(height as usize) + 1) + (column.head - y)],
            visible: trail_covers(column, y),
            animation: arbitrary(),
        }
    }
}

/// Frame `f` of the code rain over `text`, whose bytes are `bytes`, with rain styles
/// `rain_styles`.
pub open spec fn rain_frame(text: Seq<char>, bytes: Seq<u8>, rain_styles: Seq<Style>, f: int) -> Seq<char> {
    let (width, height) = text_grid(text);
    let count = text_cells(text_rows(text)).len();
    render_canvas(
        draw_all(
            text_canvas(text),
            rain_looks(count, width, height, rain_after(rain_start(text, bytes), width, height, (f + 1) as nat), rain_styles),
        ),
    )
}

/// Whether the rain characters stand at their cells: the character of cell `(x, y)` at
/// `(x, y)`, and the text hidden.
pub open spec fn rain_in_place(characters: Seq<EffectCharacter>, count: nat, width: nat, height: nat) -> bool {
    &&& characters.len() == count + width * height
    &&& forall|i: int| 0 <= i < count ==> !(#[trigger] characters[i]).visible
    &&& forall|x: int, y: int|
        0 <= x < width && 0 <= y < height ==> (#[trigger] characters[rain_slot(count, height, x, y)]).position
            == Coord { x: x as i32, y: y as i32 }
}

/// Characters that stand and show as the rain `st` says draw its frame.
proof fn lemma_rain_frame(
    canvas: CanvasView,
    characters: Seq<EffectCharacter>,
    count: nat,
    width: nat,
    height: nat,
    st: RainState,
    rain_styles: Seq<Style>,
)
    requires
        height >= 1,
        rain_in_place(characters, count, width, height),
        forall|x: int, y: int|
            0 <= x < width && 0 <= y < height ==> {
                let after = #[trigger] characters[rain_slot(count, height, x, y)];
                let column = st.columns[x];
                &&& after.visible == trail_covers(column, y)
                &&& trail_covers(column, y) ==> {
                    &&& after.symbol == st.symbols[y * width + x]
                    &&& after.style == rain_styles[column.length * (max_length(height as usize) + 1) + (column.head - y)]
                }
            },
    ensures
        draw_all(canvas, characters) == draw_all(canvas, rain_looks(count, width, height, st, rain_styles)),
{
    let looks = rain_looks(count, width, height, st, rain_styles);
    assert(looks.len() == count + width * height);
    assert(characters.len() == count + width * height);
    assert forall|i: int| 0 <= i < characters.len() implies same_drawn(#[trigger] characters[i], looks[i]) by {
        if i >= count {
            let n = i - count;
            let x = n / (height as int);
            let y = n % (height as int);
            vstd::arithmetic::div_mod::lemma_fundamental_div_mod(n, height as int);
            vstd::arithmetic::div_mod::lemma_mod_bound(n, height as int);
            assert(x < width) by (nonlinear_arith)
                requires
                    n == height * x + y,
                    0 <= y < height,
                    n < width * height,
            ;
            assert(x >= 0) by (nonlinear_arith)
                requires
                    n == height * x + y,
                    y < height,
                    n >= 0,
                    height >= 1,
            ;
            assert(rain_slot(count, height, x, y) == i) by (nonlinear_arith)
                requires
                    n == height * x + y,
                    i == count + n,
            ;
            assert(characters[rain_slot(count, height, x, y)] == characters[i]);
            assert(characters[rain_slot(count, height, x, y)].position == (Coord { x: x as i32, y: y as i32 }));
        }
    }
    assert(looks.len() == characters.len());
    lemma_draw_all_drawn(canvas, characters, looks);
}

/// Whether the rain characters of rows `from..` show the rain `st`: each shows where a
/// trail covers its cell, with the cell's symbol in the style for its distance from the head.
pub open spec fn rain_rows_shown(
    characters: Seq<EffectCharacter>,
    count: nat,
    width: nat,
    height: nat,
    st: RainState,
    rain_styles: Seq<Style>,
    from: int,
) -> bool {
    forall|x: int, y: int|
        0 <= x < width && from <= y < height ==> {
            let after = #[trigger] characters[rain_slot(count, height, x, y)];
            let column = st.columns[x];
            &&& after.visible == trail_covers(column, y)
            &&& trail_covers(column, y) ==> {
                &&& after.symbol == st.symbols[y * width + x]
                &&& after.style == rain_styles[column.length * (max_length(height as usize) + 1) + (column.head - y)]
            }
        }
}

/// The rain symbols and the generator's state once `rows` rows have filled with code, from
/// `symbols` and `state` as the rain ended: filling row `r` may draw afresh over rows `0..=r`.
pub open spec fn filled(symbols: Seq<char>, state: u64, width: nat, rows: nat) -> (Seq<char>, u64)
    decreases rows,
{
    if rows == 0 {
        (symbols, state)
    } else {
        let (before, current) = filled(symbols, state, width, (rows - 1) as nat);
        fill_fold(before, current, rows * width)
    }
}

/// What character `i` looks like once rows `0..=row` have filled with code showing
/// `symbols`: those rows shown, in the style for their distance above the row being
/// filled; the rows below as the rain `end` left them.
pub open spec fn fill_look(
    count: nat,
    width: nat,
    height: nat,
    end: RainState,
    symbols: Seq<char>,
    row: int,
    rain_styles: Seq<Style>,
    i: int,
) -> EffectCharacter {
    let x = (i - count) / (height as int);
    let y = (i - count) % (height as int);
    if i >= count && y <= row {
        EffectCharacter {
            id: CharacterId(0),
            input_symbol: ' ',
            symbol: symbols[y * width + x],
            position: Coord { x: x as i32, y: y as i32 },
            style: rain_styles[height * (max_length(height as usize) + 1) + (row - y + 1)],
            visible: true,
            animation: arbitrary(),
        }
    } else {
        rain_look(count, width, height, end, rain_styles, i)
    }
}

/// What the characters look like once rows `0..=row` have filled with code.
pub open spec fn fill_looks(
    count: nat,
    width: nat,
    height: nat,
    end: RainState,
    symbols: Seq<char>,
    row: int,
    rain_styles: Seq<Style>,
) -> Seq<EffectCharacter> {
    Seq::new(count + width * height, |i: int| fill_look(count, width, height, end, symbols, row, rain_styles, i))
}

/// Fill frame `row` over `text`, whose bytes are `bytes`: the rows down to `row` filled
/// with code, the rows below as the rain ended.
pub open spec fn fill_frame(text: Seq<char>, bytes: Seq<u8>, rain_styles: Seq<Style>, row: int) -> Seq<char> {
    let (width, height) = text_grid(text);
    let count = text_cells(text_rows(text)).len();
    let end = rain_after(rain_start(text, bytes), width, height, rain_duration(width, height) as nat);
    let symbols = filled(end.symbols, end.rng, width, (row + 1) as nat).0;
    render_canvas(draw_all(text_canvas(text), fill_looks(count, width, height, end, symbols, row, rain_styles)))
}

/// Characters that stand and show as a fill frame says draw it.
proof fn lemma_fill_frame(
    canvas: CanvasView,
    characters: Seq<EffectCharacter>,
    count: nat,
    width: nat,
    height: nat,
    end: RainState,
    symbols: Seq<char>,
    row: int,
    rain_styles: Seq<Style>,
)
    requires
        height >= 1,
        0 <= row,
        rain_in_place(characters, count, width, height),
        rain_rows_shown(characters, count, width, height, end, rain_styles, row + 1),
        forall|x: int, y: int|
            0 <= x < width && 0 <= y <= row ==> {
                let after = #[trigger] characters[rain_slot(count, height, x, y)];
                &&& after.visible
                &&& after.symbol == symbols[y * width + x]
                &&& after.style == rain_styles[height * (max_length(height as usize) + 1) + (row - y + 1)]
            },
    ensures
        draw_all(canvas, characters) == draw_all(canvas, fill_looks(count, width, height, end, symbols, row, rain_styles)),
        drawn_as(characters, fill_looks(count, width, height, end, symbols, row, rain_styles)),
{
    let looks = fill_looks(count, width, height, end, symbols, row, rain_styles);
    assert(looks.len() == characters.len());
    assert forall|i: int| 0 <= i < characters.len() implies same_drawn(#[trigger] characters[i], looks[i]) by {
        if i >= count {
            let n = i - count;
            let x = n / (height as int);
            let y = n % (height as int);
            vstd::arithmetic::div_mod::lemma_fundamental_div_mod(n, height as int);
            vstd::arithmetic::div_mod::lemma_mod_bound(n, height as int);
            assert(x < width) by (nonlinear_arith)
                requires
                    n == height * x + y,
                    0 <= y < height,
                    n < width * height,
            ;
            assert(x >= 0) by (nonlinear_arith)
                requires
                    n == height * x + y,
                    y < height,
                    n >= 0,
                    height >= 1,
            ;
            assert(rain_slot(count, height, x, y) == i) by (nonlinear_arith)
                requires
                    n == height * x + y,
                    i == count + n,
            ;
            assert(characters[rain_slot(count, height, x, y)] == characters[i]);
            assert(characters[rain_slot(count, height, x, y)].position == (Coord { x: x as i32, y: y as i32 }));
        }
    }
    lemma_draw_all_drawn(canvas, characters, looks);
}

/// For each cell (numbered row by row), the index of the text character standing on it
/// among the first `i`, or the number of text characters for none.
pub open spec fn text_index(cells: Seq<(char, Coord)>, width: nat, area: nat, i: nat) -> Seq<usize>
    decreases i,
{
    if i == 0 {
        Seq::new(area, |n: int| cells.len() as usize)
    } else {
        text_index(cells, width, area, (i - 1) as nat).update(
            cells[i - 1].1.y * width + cells[i - 1].1.x,
            (i - 1) as usize,
        )
    }
}

/// Whether `characters` draw as `model` does: each hidden where it is hidden, and shown
/// with its look where it is shown.
pub open spec fn drawn_as(characters: Seq<EffectCharacter>, model: Seq<EffectCharacter>) -> bool {
    &&& characters.len() == model.len()
    &&& forall|i: int| 0 <= i < characters.len() ==> same_drawn(#[trigger] characters[i], model[i])
}

/// The flicker before a resolve step: each of the first `m` characters that is shown and
/// is a rain character draws a fresh symbol one time in ten. Returns the characters and
/// the generator's state after.
pub open spec fn flicker(model: Seq<EffectCharacter>, state: u64, count: nat, m: nat) -> (Seq<EffectCharacter>, u64)
    decreases m,
{
    if m == 0 {
        (model, state)
    } else {
        let (before, current) = flicker(model, state, count, (m - 1) as nat);
        let i = m - 1;
        if before[i].visible && i >= count {
            let (roll, rolled) = range_draw(current, 10);
            if roll < 1 {
                let (index, next) = range_draw(rolled, 73);
                (before.update(i, EffectCharacter { symbol: matrix_symbols()[index as int], ..before[i] }), next)
            } else {
                (before, rolled)
            }
        } else {
            (before, current)
        }
    }
}

/// The cells `order[start..k]` resolved: each cell's rain character hidden, and the text
/// character on it (if any) shown in its row's colour from `colors`.
pub open spec fn resolve_fold(
    model: Seq<EffectCharacter>,
    order: Seq<usize>,
    start: nat,
    k: nat,
    cells: Seq<(char, Coord)>,
    text_at: Seq<usize>,
    colors: Seq<Color>,
    width: nat,
    height: nat,
) -> Seq<EffectCharacter>
    decreases k,
{
    if k <= start {
        model
    } else {
        let before = resolve_fold(model, order, start, (k - 1) as nat, cells, text_at, colors, width, height);
        let n = order[k - 1] as int;
        let x = n % (width as int);
        let y = n / (width as int);
        let slot = cells.len() + x * height + y;
        let hidden = before.update(slot, EffectCharacter { visible: false, ..before[slot] });
        let t = text_at[n] as int;
        if t < cells.len() {
            hidden.update(t, lit_character(cells[t], foreground_only(colors[y])))
        } else {
            hidden
        }
    }
}

/// The characters after each of the first `j` resolve steps from `model`, each resolving
/// the next `batch` cells of `order` after a flicker, and the generator's state after.
pub open spec fn resolve_models(
    model: Seq<EffectCharacter>,
    state: u64,
    order: Seq<usize>,
    batch: nat,
    cells: Seq<(char, Coord)>,
    text_at: Seq<usize>,
    colors: Seq<Color>,
    width: nat,
    height: nat,
    j: nat,
) -> (Seq<EffectCharacter>, u64)
    decreases j,
{
    if j == 0 {
        (model, state)
    } else {
        let (before, current) = resolve_models(model, state, order, batch, cells, text_at, colors, width, height, (j - 1) as nat);
        let start = (j - 1) * batch;
        let end: int = if start + batch < width * height { start + batch } else { (width * height) as int };
        let (flickered, next) = flicker(before, current, cells.len(), before.len());
        (resolve_fold(flickered, order, start as nat, end as nat, cells, text_at, colors, width, height), next)
    }
}

/// Whether `start` is what the canvas shows once filled with code over `text`, and
/// `order` and `state` the shuffled cells and the generator's state after the shuffle.
pub open spec fn resolve_frame_inputs(
    text: Seq<char>,
    bytes: Seq<u8>,
    rain_styles: Seq<Style>,
    start: Seq<EffectCharacter>,
    state: u64,
    order: Seq<usize>,
) -> bool {
    let (width, height) = text_grid(text);
    let count = text_cells(text_rows(text)).len();
    let end = rain_after(rain_start(text, bytes), width, height, rain_duration(width, height) as nat);
    let (symbols, filled_state) = filled(end.symbols, end.rng, width, height);
    &&& start == fill_looks(count, width, height, end, symbols, height - 1, rain_styles)
    &&& (order, state) == fisher_yates(Seq::new(width * height, |m: int| m as usize), filled_state, draw_mod_u64())
}

/// Resolve frame `c` over `text`, whose bytes are `bytes`: after the canvas filled with
/// code, the cells resolve in a shuffled order, a batch per frame, each showing its text
/// character in its row's colour from `colors` while the rest of the rain flickers.
pub open spec fn resolve_frame(
    text: Seq<char>,
    bytes: Seq<u8>,
    rain_styles: Seq<Style>,
    colors: Seq<Color>,
    c: int,
) -> Seq<char> {
    let (width, height) = text_grid(text);
    let cells = text_cells(text_rows(text));
    let count = cells.len();
    let area = width * height;
    let end = rain_after(rain_start(text, bytes), width, height, rain_duration(width, height) as nat);
    let (symbols, state) = filled(end.symbols, end.rng, width, height);
    let start = fill_looks(count, width, height, end, symbols, height - 1, rain_styles);
    let (order, shuffled) = fisher_yates(Seq::new(area, |m: int| m as usize), state, draw_mod_u64());
    let model = resolve_models(
        start,
        shuffled,
        order,
        resolve_batch(area) as nat,
        cells,
        text_index(cells, width, area, count),
        colors,
        width,
        height,
        (c + 1) as nat,
    ).0;
    render_canvas(draw_all(text_canvas(text), model))
}

/// The terminal of the text with its characters hidden and a hidden rain character on every
/// cell, added column by column, each showing a random symbol in the style for the head of
/// a one-cell column; returns it with the symbols by cell, row by row.
fn set_up_matrix(input: &str, rain_styles: &Vec<Style>, rng: &mut MatrixRng) -> (set: (Terminal, Vec<char>))
    requires
        2 * (text_grid(input@).0 * text_grid(input@).1) <= usize::MAX,
        text_grid(input@).0 <= i32::MAX,
        text_grid(input@).1 <= max_rain_height(),
        rain_styles.len() == (max_length(text_grid(input@).1 as usize) + 1) * (max_length(
            text_grid(input@).1 as usize,
        ) + 1),
    ensures
        set.0.wf(),
        matrix_stage(set.0@, input@),
        set.1.len() == text_grid(input@).0 * text_grid(input@).1,
        rain_in_place(
            set.0@.characters,
            text_cells(text_rows(input@)).len(),
            text_grid(input@).0,
            text_grid(input@).1,
        ),
        (set.1@, final(rng)@) == setup_fold(
            Seq::new(text_grid(input@).0 * text_grid(input@).1, |i: int| '0'),
            old(rng)@,
            text_grid(input@).0,
            text_grid(input@).1,
            text_grid(input@).0 * text_grid(input@).1,
        ),
{
    let ghost text = input@;
    let ghost rows = text_rows(text);
    let ghost cells = text_cells(rows);
    let mut terminal = Terminal::from_text(input);
    let width = terminal.canvas().width();
    let height = terminal.canvas().height();
    let count = terminal.characters().len();
    let ghost canvas0 = terminal@.canvas;
    proof {
        lemma_rows_nonempty(text);
        lemma_text_cells_in_grid(rows);
        assert(canvas0.cells =~= text_canvas(text).cells);
        assert(cleared(canvas0).cells =~= canvas0.cells);
    }
    hide_range(&mut terminal, 0, count);
    let ghost hidden = terminal@.characters;
    let longest: usize = if height >= 3 {
        height
    } else {
        3
    };
    assert(longest == max_length(height));
    assert(rain_styles.len() == (longest + 1) * (longest + 1));
    assert(longest + 1 < (longest + 1) * (longest + 1)) by (nonlinear_arith)
        requires
            longest >= 3,
    ;
    let first_style = rain_styles[longest + 1];
    let area = width * height;
    let mut rain_symbols: Vec<char> = Vec::new();
    let mut n: usize = 0;
    while n < area
        invariant
            n <= area,
            rain_symbols.len() == n,
            forall|m: int| 0 <= m < n ==> #[trigger] rain_symbols@[m] == '0',
        decreases area - n,
    {
        rain_symbols.push('0');
        n += 1;
    }
    let ghost zeros = Seq::new((width * height) as nat, |i: int| '0');
    let ghost state0 = rng@;
    proof {
        assert(rain_symbols@ =~= zeros);
    }
    let mut x: usize = 0;
    while x < width
        invariant
            x <= width,
            area == width * height,
            (width as nat, height as nat) == text_grid(text),
            width <= i32::MAX,
            height <= max_rain_height(),
            terminal.wf(),
            terminal@.canvas == canvas0,
            count == cells.len(),
            terminal@.characters.len() == count + x * height,
            forall|i: int| 0 <= i < count ==> #[trigger] terminal@.characters[i] == hidden[i],
            rain_symbols.len() == area,
            forall|i: int| 0 <= i < count ==> !(#[trigger] hidden[i]).visible,
            (rain_symbols@, rng@) == setup_fold(zeros, state0, width as nat, height as nat, (x * height) as nat),
            forall|xx: int, yy: int|
                0 <= xx < x && 0 <= yy < height ==> (#[trigger] terminal@.characters[rain_slot(
                    count as nat,
                    height as nat,
                    xx,
                    yy,
                )]).position == (Coord { x: xx as i32, y: yy as i32 }),
        decreases width - x,
    {
        let mut y: usize = 0;
        while y < height
            invariant
                x < width,
                y <= height,
                area == width * height,
                width <= i32::MAX,
                height <= max_rain_height(),
                terminal.wf(),
                terminal@.canvas == canvas0,
                count == cells.len(),
                terminal@.characters.len() == count + x * height + y,
                forall|i: int| 0 <= i < count ==> #[trigger] terminal@.characters[i] == hidden[i],
                rain_symbols.len() == area,
                (rain_symbols@, rng@) == setup_fold(zeros, state0, width as nat, height as nat, (x * height + y) as nat),
                forall|xx: int, yy: int|
                    0 <= xx < width && 0 <= yy < height && (xx < x || (xx == x && yy < y)) ==> (
                    #[trigger] terminal@.characters[rain_slot(count as nat, height as nat, xx, yy)]).position
                        == (Coord { x: xx as i32, y: yy as i32 }),
            decreases height - y,
        {
            let ghost state = rng@;
            let symbol = random_matrix_symbol(rng);
            let ghost before = terminal@.characters;
            terminal.add_character(symbol, Coord::new(x as i32, y as i32));
            let last = terminal.characters().len() - 1;
            set_shown(&mut terminal, last, false);
            repaint(&mut terminal, last, symbol, first_style);
            proof {
                lemma_cell_in_table(width as nat, height as nat, x as int, y as int);
                assert forall|i: int| 0 <= i < count implies #[trigger] terminal@.characters[i] == hidden[i] by {
                    assert(terminal@.characters[i] == before[i]);
                }
            }
            let ghost symbols_before = rain_symbols@;
            rain_symbols.set(y * width + x, symbol);
            proof {
                lemma_slot_parts(count as nat, height as nat, x as int, y as int);
                assert(rain_slot(count as nat, height as nat, x as int, y as int) == count + x * height + y);
                assert(x * height + y + 1 - 1 == x * height + y);
                assert forall|xx: int, yy: int|
                    0 <= xx < width && 0 <= yy < height && (xx < x || (xx == x && yy < y + 1)) implies (
                    #[trigger] terminal@.characters[rain_slot(count as nat, height as nat, xx, yy)]).position
                        == (Coord { x: xx as i32, y: yy as i32 }) by {
                    if xx == x && yy == y {
                    } else {
                        lemma_reading_order(height as nat, yy, xx, y as int, x as int);
                        assert(terminal@.characters[rain_slot(count as nat, height as nat, xx, yy)] == before[rain_slot(
                            count as nat,
                            height as nat,
                            xx,
                            yy,
                        )]);
                    }
                }
            }
            y += 1;
        }
        assert(count + x * height + height == count + (x + 1) * height) by (nonlinear_arith);
        x += 1;
    }
    (terminal, rain_symbols)
}

proof fn lemma_style_in_table(longest: nat, length: nat, distance: nat)
    requires
        length <= longest,
        distance <= longest,
    ensures
        length * (longest + 1) + distance < (longest + 1) * (longest + 1),
{
    assert(length * (longest + 1) + distance < (longest + 1) * (longest + 1)) by (nonlinear_arith)
        requires
            length <= longest,
            distance <= longest,
    ;
}

/// The columns after the first `n` of them each took a step, in turn, drawing from the
/// generator at `state`; and the generator's state after.
pub open spec fn columns_fold(columns: Seq<RainColumn>, height: usize, state: u64, n: nat) -> (Seq<RainColumn>, u64)
    decreases n,
{
    if n == 0 {
        (columns, state)
    } else {
        let (before, current) = columns_fold(columns, height, state, (n - 1) as nat);
        let (stepped, next) = column_step(columns[n - 1], height, current);
        (before.update(n - 1, stepped), next)
    }
}

/// Whether a column's trail covers row `y`: at most its length less one below its head.
pub open spec fn trail_covers(column: RainColumn, y: int) -> bool {
    0 <= column.head - y < column.length
}

/// The rain symbols and the generator's state after the first `n` cells, column by column,
/// each drew a fresh symbol one time in twelve where a trail of `columns` covers it.
pub open spec fn trail_fold(
    symbols: Seq<char>,
    state: u64,
    columns: Seq<RainColumn>,
    width: nat,
    height: nat,
    n: nat,
) -> (Seq<char>, u64)
    decreases n,
{
    if n == 0 {
        (symbols, state)
    } else {
        let (before, current) = trail_fold(symbols, state, columns, width, height, (n - 1) as nat);
        let x = (n - 1) / (height as int);
        let y = (n - 1) % (height as int);
        if trail_covers(columns[x], y) {
            let (roll, after_roll) = range_draw(current, 12);
            if roll < 1 {
                let (index, after_symbol) = range_draw(after_roll, 73);
                (before.update(y * width + x, matrix_symbols()[index as int]), after_symbol)
            } else {
                (before, after_roll)
            }
        } else {
            (before, current)
        }
    }
}

proof fn lemma_cell_number_injective(width: nat, a: int, b: int, x: int, y: int)
    requires
        0 <= a < width,
        0 <= x < width,
        0 <= b,
        0 <= y,
        b * width + a == y * width + x,
    ensures
        a == x,
        b == y,
{
    if b < y || (b == y && a < x) {
        lemma_reading_order(width, a, b, x, y);
    } else if y < b || (y == b && x < a) {
        lemma_reading_order(width, x, y, a, b);
    }
}

/// One step of the rain: every column takes a step in turn; then, column by column, each
/// cell a column's trail covers draws a fresh symbol one time in twelve and shows its rain
/// character in the style for its distance from the head, and every other cell hides its
/// rain character.
fn rain_fall(
    terminal: &mut Terminal,
    columns: &mut Vec<RainColumn>,
    rain_symbols: &mut Vec<char>,
    rng: &mut MatrixRng,
    rain_styles: &Vec<Style>,
    count: usize,
    width: usize,
    height: usize,
    Ghost(text): Ghost<Seq<char>>,
)
    requires
        old(terminal).wf(),
        matrix_stage(old(terminal)@, text),
        (width as nat, height as nat) == text_grid(text),
        count == text_cells(text_rows(text)).len(),
        height <= max_rain_height(),
        2 * (width * height) <= usize::MAX,
        old(columns).len() == width,
        forall|c: int| 0 <= c < width ==> column_wf(#[trigger] old(columns)[c], height),
        old(rain_symbols).len() == width * height,
        rain_styles.len() == (max_length(height) + 1) * (max_length(height) + 1),
    ensures
        final(terminal).wf(),
        matrix_stage(final(terminal)@, text),
        final(columns).len() == width,
        forall|c: int| 0 <= c < width ==> column_wf(#[trigger] final(columns)[c], height),
        final(rain_symbols).len() == width * height,
        final(columns)@ == columns_fold(old(columns)@, height, old(rng)@, width as nat).0,
        (final(rain_symbols)@, final(rng)@) == trail_fold(
            old(rain_symbols)@,
            columns_fold(old(columns)@, height, old(rng)@, width as nat).1,
            final(columns)@,
            width as nat,
            height as nat,
            (width * height) as nat,
        ),
        forall|i: int| 0 <= i < count ==> #[trigger] final(terminal)@.characters[i] == old(terminal)@.characters[i],
        forall|x: int, y: int|
            0 <= x < width && 0 <= y < height ==> {
                let before = old(terminal)@.characters[rain_slot(count as nat, height as nat, x, y)];
                let after = #[trigger] final(terminal)@.characters[rain_slot(count as nat, height as nat, x, y)];
                let column = final(columns)@[x];
                &&& after.visible == trail_covers(column, y)
                &&& after.position == before.position
                &&& after.input_symbol == before.input_symbol
                &&& trail_covers(column, y) ==> {
                    &&& after.symbol == final(rain_symbols)@[y * width + x]
                    &&& after.style == rain_styles@[column.length * (max_length(height) + 1) + (column.head - y)]
                }
                &&& !trail_covers(column, y) ==> after.symbol == before.symbol && after.style == before.style
            },
{
    let ghost start = terminal@.characters;
    let ghost columns0 = columns@;
    let ghost symbols0 = rain_symbols@;
    let ghost state0 = rng@;
    let total = terminal.characters().len();
    let mut c: usize = 0;
    while c < width
        invariant
            c <= width,
            columns.len() == width,
            columns0.len() == width,
            forall|k: int| 0 <= k < width ==> column_wf(#[trigger] columns[k], height),
            forall|k: int| 0 <= k < width ==> column_wf(#[trigger] columns0[k], height),
            (columns@, rng@) == columns_fold(columns0, height, state0, c as nat),
            forall|k: int| c <= k < width ==> #[trigger] columns@[k] == columns0[k],
        decreases width - c,
    {
        let mut column = columns[c];
        column.step(height, rng);
        columns.set(c, column);
        c += 1;
    }
    let ghost state1 = rng@;
    let longest: usize = if height >= 3 {
        height
    } else {
        3
    };
    let mut x: usize = 0;
    while x < width
        invariant
            x <= width,
            longest == max_length(height),
            (width as nat, height as nat) == text_grid(text),
            height <= max_rain_height(),
            columns.len() == width,
            forall|k: int| 0 <= k < width ==> column_wf(#[trigger] columns[k], height),
            rain_symbols.len() == width * height,
            rain_styles.len() == (longest + 1) * (longest + 1),
            terminal.wf(),
            terminal@.canvas == old(terminal)@.canvas,
            start == old(terminal)@.characters,
            total == start.len(),
            total == count + width * height,
            terminal@.characters.len() == total,
            (rain_symbols@, rng@) == trail_fold(symbols0, state1, columns@, width as nat, height as nat, (x * height) as nat),
            forall|i: int| 0 <= i < total && !(count <= i < count + x * height) ==> #[trigger] terminal@.characters[i] == start[i],
            forall|a: int, b: int|
                0 <= a < x && 0 <= b < height ==> {
                    let before = start[rain_slot(count as nat, height as nat, a, b)];
                    let after = #[trigger] terminal@.characters[rain_slot(count as nat, height as nat, a, b)];
                    let column = columns@[a];
                    &&& after.visible == trail_covers(column, b)
                    &&& after.position == before.position
                    &&& after.input_symbol == before.input_symbol
                    &&& trail_covers(column, b) ==> {
                        &&& after.symbol == rain_symbols@[b * width + a]
                        &&& after.style == rain_styles@[column.length * (longest + 1) + (column.head - b)]
                    }
                    &&& !trail_covers(column, b) ==> after.symbol == before.symbol && after.style == before.style
                },
        decreases width - x,
    {
        let column = columns[x];
        assert(column_wf(columns[x as int], height));
        let mut y: usize = 0;
        while y < height
            invariant
                x < width,
                y <= height,
                longest == max_length(height),
                column == columns@[x as int],
                column_wf(column, height),
                height <= max_rain_height(),
                columns.len() == width,
                rain_symbols.len() == width * height,
                rain_styles.len() == (longest + 1) * (longest + 1),
                terminal.wf(),
                terminal@.canvas == old(terminal)@.canvas,
                total == start.len(),
                total == count + width * height,
                terminal@.characters.len() == total,
                (rain_symbols@, rng@) == trail_fold(
                    symbols0,
                    state1,
                    columns@,
                    width as nat,
                    height as nat,
                    (x * height + y) as nat,
                ),
                forall|i: int|
                    0 <= i < total && !(count <= i < count + x * height + y) ==> #[trigger] terminal@.characters[i]
                        == start[i],
                forall|a: int, b: int|
                    0 <= a <= x && 0 <= b < height && (a < x || b < y) ==> {
                        let before = start[rain_slot(count as nat, height as nat, a, b)];
                        let after = #[trigger] terminal@.characters[rain_slot(count as nat, height as nat, a, b)];
                        let col = columns@[a];
                        &&& after.visible == trail_covers(col, b)
                        &&& after.position == before.position
                        &&& after.input_symbol == before.input_symbol
                        &&& trail_covers(col, b) ==> {
                            &&& after.symbol == rain_symbols@[b * width + a]
                            &&& after.style == rain_styles@[col.length * (longest + 1) + (col.head - b)]
                        }
                        &&& !trail_covers(col, b) ==> after.symbol == before.symbol && after.style == before.style
                    },
            decreases height - y,
        {
            proof {
                lemma_cell_in_table(width as nat, height as nat, x as int, y as int);
                lemma_rain_slot_in_range(count as nat, width as nat, height as nat, x as int, y as int);
                lemma_slot_parts(count as nat, height as nat, x as int, y as int);
            }
            let index = y * width + x;
            let distance = column.head - y as i32;
            let visible = distance >= 0 && (distance as usize) < column.length;
            let ghost symbols_before = rain_symbols@;
            if visible && rng.chance(1, 12) {
                let symbol = random_matrix_symbol(rng);
                rain_symbols.set(index, symbol);
            }
            let slot = count + x * height + y;
            let ghost before = terminal@.characters;
            set_shown(terminal, slot, visible);
            if visible {
                proof {
                    lemma_style_in_table(longest as nat, column.length as nat, distance as nat);
                }
                let style = rain_styles[column.length * (longest + 1) + distance as usize];
                repaint(terminal, slot, rain_symbols[index], style);
            }
            proof {
                assert(slot == x * height + y + count);
                assert forall|i: int|
                    0 <= i < total && !(count <= i < count + x * height + y + 1) implies #[trigger] terminal@.characters[i]
                        == start[i] by {
                    assert(terminal@.characters[i] == before[i]);
                }
                assert forall|a: int, b: int|
                    0 <= a <= x && 0 <= b < height && (a < x || b < y + 1) implies {
                        let before_start = start[rain_slot(count as nat, height as nat, a, b)];
                        let after = #[trigger] terminal@.characters[rain_slot(count as nat, height as nat, a, b)];
                        let col = columns@[a];
                        &&& after.visible == trail_covers(col, b)
                        &&& after.position == before_start.position
                        &&& after.input_symbol == before_start.input_symbol
                        &&& trail_covers(col, b) ==> {
                            &&& after.symbol == rain_symbols@[b * width + a]
                            &&& after.style == rain_styles@[col.length * (longest + 1) + (col.head - b)]
                        }
                        &&& !trail_covers(col, b) ==> after.symbol == before_start.symbol && after.style
                            == before_start.style
                    } by {
                    let other = rain_slot(count as nat, height as nat, a, b);
                    lemma_slot_parts(count as nat, height as nat, a, b);
                    lemma_rain_slot_in_range(count as nat, width as nat, height as nat, a, b);
                    if a != x || b != y {
                        assert(other != slot);
                        assert(terminal@.characters[other] == before[other]);
                        lemma_cell_in_table(width as nat, height as nat, a, b);
                        if b * width + a == y * width + x {
                            lemma_cell_number_injective(width as nat, a, b, x as int, y as int);
                        }
                        assert(rain_symbols@[b * width + a] == symbols_before[b * width + a]);
                    } else {
                        assert(before[slot as int] == start[slot as int]);
                    }
                }
                let n = x * height + y;
                vstd::arithmetic::div_mod::lemma_fundamental_div_mod_converse(n as int, height as int, x as int, y as int);
                assert(trail_covers(column, y as int) == visible);
            }
            y += 1;
        }
        proof {
            assert(x * height + height == (x + 1) * height) by (nonlinear_arith);
        }
        x += 1;
    }
    proof {
        assert(width * height == width * height);
        assert forall|i: int| 0 <= i < count implies #[trigger] terminal@.characters[i] == old(terminal)@.characters[i] by {}
    }
}

/// The rain symbols and the generator's state after the first `n` cells, row by row, each
/// drew a fresh symbol one time in eight.
pub open spec fn fill_fold(symbols: Seq<char>, state: u64, n: nat) -> (Seq<char>, u64)
    decreases n,
{
    if n == 0 {
        (symbols, state)
    } else {
        let (before, current) = fill_fold(symbols, state, (n - 1) as nat);
        let (roll, after_roll) = range_draw(current, 8);
        if roll < 1 {
            let (index, after_symbol) = range_draw(after_roll, 73);
            (before.update(n - 1, matrix_symbols()[index as int]), after_symbol)
        } else {
            (before, after_roll)
        }
    }
}

/// Whether character `i` is the rain character of a cell before `(x, y)` in reading order.
spec fn visited(count: nat, height: nat, i: int, x: int, y: int) -> bool {
    count <= i && ((i - count) % (height as int) < y || ((i - count) % (height as int) == y && (i - count) / (height as int) < x))
}

proof fn lemma_slot_parts(count: nat, height: nat, x: int, y: int)
    requires
        0 <= x,
        0 <= y < height,
    ensures
        (rain_slot(count, height, x, y) - count) % (height as int) == y,
        (rain_slot(count, height, x, y) - count) / (height as int) == x,
{
    vstd::arithmetic::div_mod::lemma_fundamental_div_mod_converse(x * height + y, height as int, x, y);
}

proof fn lemma_reading_order(width: nat, x1: int, y1: int, x2: int, y2: int)
    requires
        0 <= x1 < width,
        0 <= x2 < width,
        0 <= y1,
        y1 < y2 || (y1 == y2 && x1 < x2),
    ensures
        y1 * width + x1 < y2 * width + x2,
{
    assert(y1 * width + x1 < y2 * width + x2) by (nonlinear_arith)
        requires
            0 <= x1 < width,
            0 <= x2 < width,
            0 <= y1,
            y1 < y2 || (y1 == y2 && x1 < x2),
    ;
}

/// One frame of the canvas filling with code: the cells of the rows down to `reveal_row`,
/// in reading order, each draw a fresh symbol one time in eight, and their rain characters
/// show their symbols, each in the style for its distance above that row in a trail as
/// tall as the canvas; every other character stays.
fn fill_rows(
    terminal: &mut Terminal,
    rain_symbols: &mut Vec<char>,
    rng: &mut MatrixRng,
    rain_styles: &Vec<Style>,
    count: usize,
    width: usize,
    height: usize,
    reveal_row: usize,
    Ghost(text): Ghost<Seq<char>>,
)
    requires
        old(terminal).wf(),
        matrix_stage(old(terminal)@, text),
        (width as nat, height as nat) == text_grid(text),
        count == text_cells(text_rows(text)).len(),
        height <= max_rain_height(),
        2 * (width * height) <= usize::MAX,
        reveal_row < height,
        old(rain_symbols).len() == width * height,
        rain_styles.len() == (max_length(height) + 1) * (max_length(height) + 1),
    ensures
        final(terminal).wf(),
        matrix_stage(final(terminal)@, text),
        final(rain_symbols).len() == width * height,
        (final(rain_symbols)@, final(rng)@) == fill_fold(
            old(rain_symbols)@,
            old(rng)@,
            ((reveal_row + 1) * width) as nat,
        ),
        forall|i: int|
            0 <= i < old(terminal)@.characters.len() && !visited(count as nat, height as nat, i, 0, reveal_row + 1)
                ==> #[trigger] final(terminal)@.characters[i] == old(terminal)@.characters[i],
        forall|x: int, y: int|
            0 <= x < width && 0 <= y <= reveal_row ==> {
                let before = old(terminal)@.characters[rain_slot(count as nat, height as nat, x, y)];
                let after = #[trigger] final(terminal)@.characters[rain_slot(count as nat, height as nat, x, y)];
                &&& after.visible
                &&& after.symbol == final(rain_symbols)@[y * width + x]
                &&& after.style == rain_styles@[height * (max_length(height) + 1) + (reveal_row - y + 1)]
                &&& after.position == before.position
                &&& after.input_symbol == before.input_symbol
            },
{
    let ghost start = terminal@.characters;
    let ghost symbols0 = rain_symbols@;
    let ghost state0 = rng@;
    let total = terminal.characters().len();
    let longest: usize = if height >= 3 {
        height
    } else {
        3
    };
    let mut y: usize = 0;
    while y <= reveal_row
        invariant
            y <= reveal_row + 1,
            reveal_row < height,
            longest == max_length(height),
            (width as nat, height as nat) == text_grid(text),
            height <= max_rain_height(),
            rain_symbols.len() == width * height,
            rain_styles.len() == (longest + 1) * (longest + 1),
            terminal.wf(),
            terminal@.canvas == old(terminal)@.canvas,
            start == old(terminal)@.characters,
            total == start.len(),
            total == count + width * height,
            terminal@.characters.len() == total,
            (rain_symbols@, rng@) == fill_fold(symbols0, state0, (y * width) as nat),
            forall|i: int|
                0 <= i < total && !visited(count as nat, height as nat, i, 0, y as int) ==> #[trigger] terminal@.characters[i]
                    == start[i],
            forall|a: int, b: int|
                0 <= a < width && 0 <= b < y ==> {
                    let after = #[trigger] terminal@.characters[rain_slot(count as nat, height as nat, a, b)];
                    let before = start[rain_slot(count as nat, height as nat, a, b)];
                    &&& after.visible
                    &&& after.symbol == rain_symbols@[b * width + a]
                    &&& after.style == rain_styles@[height * (longest + 1) + (reveal_row - b + 1)]
                    &&& after.position == before.position
                    &&& after.input_symbol == before.input_symbol
                },
        decreases reveal_row + 1 - y,
    {
        let mut x: usize = 0;
        while x < width
            invariant
                x <= width,
                y <= reveal_row,
                reveal_row < height,
                longest == max_length(height),
                height <= max_rain_height(),
                rain_symbols.len() == width * height,
                rain_styles.len() == (longest + 1) * (longest + 1),
                terminal.wf(),
                terminal@.canvas == old(terminal)@.canvas,
                total == start.len(),
                total == count + width * height,
                terminal@.characters.len() == total,
                (rain_symbols@, rng@) == fill_fold(symbols0, state0, (y * width + x) as nat),
                forall|i: int|
                    0 <= i < total && !visited(count as nat, height as nat, i, x as int, y as int)
                        ==> #[trigger] terminal@.characters[i] == start[i],
                forall|a: int, b: int|
                    0 <= a < width && 0 <= b <= y && (b < y || a < x) ==> {
                        let after = #[trigger] terminal@.characters[rain_slot(count as nat, height as nat, a, b)];
                        let before = start[rain_slot(count as nat, height as nat, a, b)];
                        &&& after.visible
                        &&& after.symbol == rain_symbols@[b * width + a]
                        &&& after.style == rain_styles@[height * (longest + 1) + (reveal_row - b + 1)]
                        &&& after.position == before.position
                        &&& after.input_symbol == before.input_symbol
                    },
            decreases width - x,
        {
            proof {
                lemma_cell_in_table(width as nat, height as nat, x as int, y as int);
                lemma_rain_slot_in_range(count as nat, width as nat, height as nat, x as int, y as int);
                lemma_style_in_table(longest as nat, height as nat, (reveal_row - y + 1) as nat);
                lemma_slot_parts(count as nat, height as nat, x as int, y as int);
            }
            let index = y * width + x;
            let ghost symbols_before = rain_symbols@;
            if rng.chance(1, 8) {
                let symbol = random_matrix_symbol(rng);
                rain_symbols.set(index, symbol);
            }
            let slot = count + x * height + y;
            let ghost before = terminal@.characters;
            set_shown(terminal, slot, true);
            let style = rain_styles[height * (longest + 1) + (reveal_row - y + 1)];
            repaint(terminal, slot, rain_symbols[index], style);
            proof {
                assert forall|i: int|
                    0 <= i < total && !visited(count as nat, height as nat, i, (x + 1) as int, y as int)
                        implies #[trigger] terminal@.characters[i] == start[i] by {
                    if i != slot {
                        assert(terminal@.characters[i] == before[i]);
                    }
                }
                assert forall|a: int, b: int|
                    0 <= a < width && 0 <= b <= y && (b < y || a < x + 1) implies {
                        let after = #[trigger] terminal@.characters[rain_slot(count as nat, height as nat, a, b)];
                        let before_start = start[rain_slot(count as nat, height as nat, a, b)];
                        &&& after.visible
                        &&& after.symbol == rain_symbols@[b * width + a]
                        &&& after.style == rain_styles@[height * (longest + 1) + (reveal_row - b + 1)]
                        &&& after.position == before_start.position
                        &&& after.input_symbol == before_start.input_symbol
                    } by {
                    let other = rain_slot(count as nat, height as nat, a, b);
                    lemma_slot_parts(count as nat, height as nat, a, b);
                    lemma_rain_slot_in_range(count as nat, width as nat, height as nat, a, b);
                    if a != x || b != y {
                        assert(other != slot);
                        assert(terminal@.characters[other] == before[other]);
                        lemma_reading_order(width as nat, a, b, x as int, y as int);
                        assert(rain_symbols@[b * width + a] == symbols_before[b * width + a]);
                    } else {
                        assert(!visited(count as nat, height as nat, slot as int, x as int, y as int));
                        assert(before[slot as int] == start[slot as int]);
                    }
                }
            }
            x += 1;
        }
        proof {
            assert(y * width + width == (y + 1) * width) by (nonlinear_arith);
            assert forall|i: int|
                0 <= i < total && !visited(count as nat, height as nat, i, 0, (y + 1) as int) implies #[trigger] terminal@.characters[i]
                    == start[i] by {
                if count <= i {
                    assert((i - count) / (height as int) < width) by {
                        assert(height * width == width * height) by (nonlinear_arith);
                        lemma_cell_of_number(height as nat, width as nat, i - count);
                    }
                }
            }
        }
        y += 1;
    }
}

/// The rain character of the cell numbered `n` (row by row) on a canvas `width` wide.
pub open spec fn rain_of_cell(count: nat, width: nat, height: nat, n: int) -> int {
    rain_slot(count, height, n % (width as int), n / (width as int))
}

proof fn lemma_cell_of_number(width: nat, height: nat, n: int)
    requires
        0 <= n < width * height,
    ensures
        0 <= n % (width as int) < width,
        0 <= n / (width as int) < height,
{
    let w = width as int;
    assert(width > 0) by (nonlinear_arith)
        requires
            0 <= n < width * height,
    ;
    vstd::arithmetic::div_mod::lemma_fundamental_div_mod(n, w);
    vstd::arithmetic::div_mod::lemma_mod_pos_bound(n, w);
    vstd::arithmetic::div_mod::lemma_div_pos_is_pos(n, w);
    let q = n / w;
    let r = n % w;
    assert(q < height) by (nonlinear_arith)
        requires
            n == w * q + r,
            0 <= r,
            n < w * height,
            w > 0,
    ;
}

/// One frame of the resolving: rain characters that show change symbol now and then, then
/// the cells `order[start..end]` lose their rain character and show their text character,
/// if any, in the colour `resolve_colors` gives its row.
fn resolve_chunk(
    terminal: &mut Terminal,
    order: &Vec<usize>,
    start: usize,
    end: usize,
    text_at: &Vec<usize>,
    rng: &mut MatrixRng,
    resolve_colors: &Vec<Color>,
    count: usize,
    width: usize,
    height: usize,
    Ghost(text): Ghost<Seq<char>>,
    Ghost(model): Ghost<Seq<EffectCharacter>>,
)
    requires
        old(terminal).wf(),
        matrix_stage(old(terminal)@, text),
        (width as nat, height as nat) == text_grid(text),
        count == text_cells(text_rows(text)).len(),
        2 * (width * height) <= usize::MAX,
        order.len() == width * height,
        forall|k: int| 0 <= k < order.len() ==> #[trigger] order[k] < width * height,
        start <= end <= order.len(),
        text_at.len() == width * height,
        forall|n: int| 0 <= n < text_at.len() ==> #[trigger] text_at[n] <= count,
        resolve_colors.len() == height,
        forall|k: int|
            0 <= k < start ==> !old(terminal)@.characters[rain_of_cell(
                count as nat,
                width as nat,
                height as nat,
                #[trigger] order[k] as int,
            )].visible,
        drawn_as(old(terminal)@.characters, model),
        text_at@ == text_index(text_cells(text_rows(text)), width as nat, (width * height) as nat, count as nat),
    ensures
        final(terminal).wf(),
        matrix_stage(final(terminal)@, text),
        ({
            let (flickered, next) = flicker(model, old(rng)@, count as nat, model.len());
            &&& drawn_as(
                final(terminal)@.characters,
                resolve_fold(
                    flickered,
                    order@,
                    start as nat,
                    end as nat,
                    text_cells(text_rows(text)),
                    text_at@,
                    resolve_colors@,
                    width as nat,
                    height as nat,
                ),
            )
            &&& final(rng)@ == next
        }),
        forall|k: int|
            0 <= k < end ==> !final(terminal)@.characters[rain_of_cell(
                count as nat,
                width as nat,
                height as nat,
                #[trigger] order[k] as int,
            )].visible,
{
    let ghost cells = text_cells(text_rows(text));
    let ghost first = terminal@.characters;
    let total = terminal.characters().len();
    let mut m: usize = 0;
    while m < total
        invariant
            m <= total,
            terminal.wf(),
            terminal@.canvas == old(terminal)@.canvas,
            first == old(terminal)@.characters,
            total == first.len(),
            terminal@.characters.len() == total,
            forall|i: int| 0 <= i < count ==> #[trigger] terminal@.characters[i] == first[i],
            forall|i: int| 0 <= i < total ==> (#[trigger] terminal@.characters[i]).visible == first[i].visible,
            count == cells.len(),
            matrix_stage(old(terminal)@, text),
            model.len() == total,
            drawn_as(terminal@.characters, flicker(model, old(rng)@, count as nat, m as nat).0),
            rng@ == flicker(model, old(rng)@, count as nat, m as nat).1,
        decreases total - m,
    {
        let ghost fl = flicker(model, old(rng)@, count as nat, m as nat).0;
        let ghost chars_before = terminal@.characters;
        proof {
            assert(same_drawn(terminal@.characters[m as int], fl[m as int]));
        }
        if terminal.characters()[m].visible && m >= count && rng.chance(1, 10) {
            let symbol = random_matrix_symbol(rng);
            let style = terminal.characters()[m].style;
            let ghost before = terminal@.characters;
            repaint(terminal, m, symbol, style);
            proof {
                assert forall|i: int| 0 <= i < total && i != m implies #[trigger] terminal@.characters[i]
                    == before[i] by {}
            }
        }
        proof {
            let next = flicker(model, old(rng)@, count as nat, (m + 1) as nat).0;
            assert forall|i: int| 0 <= i < terminal@.characters.len() implies same_drawn(
                #[trigger] terminal@.characters[i],
                next[i],
            ) by {
                if i != m {
                    assert(terminal@.characters[i] == chars_before[i]);
                    assert(same_drawn(chars_before[i], fl[i]));
                }
            }
        }
        m += 1;
    }
    let ghost flickered = terminal@.characters;
    let ghost fl = flicker(model, old(rng)@, count as nat, model.len()).0;
    proof {
        assert forall|j: int| 0 <= j < start implies !terminal@.characters[rain_of_cell(
            count as nat,
            width as nat,
            height as nat,
            #[trigger] order[j] as int,
        )].visible by {
            lemma_cell_of_number(width as nat, height as nat, order[j] as int);
            lemma_rain_slot_in_range(
                count as nat,
                width as nat,
                height as nat,
                order[j] as int % width as int,
                order[j] as int / width as int,
            );
            let r = rain_of_cell(count as nat, width as nat, height as nat, order[j] as int);
            assert(terminal@.characters[r].visible == first[r].visible);
        }
    }
    let mut k: usize = start;
    while k < end
        invariant
            start <= k <= end,
            end <= order.len(),
            order.len() == width * height,
            forall|j: int| 0 <= j < order.len() ==> #[trigger] order[j] < width * height,
            text_at.len() == width * height,
            forall|n: int| 0 <= n < text_at.len() ==> #[trigger] text_at[n] <= count,
            resolve_colors.len() == height,
            (width as nat, height as nat) == text_grid(text),
            2 * (width * height) <= usize::MAX,
            terminal.wf(),
            terminal@.canvas == old(terminal)@.canvas,
            total == count + width * height,
            terminal@.characters.len() == total,
            count == cells.len(),
            forall|i: int|
                0 <= i < count ==> {
                    &&& (#[trigger] terminal@.characters[i]).position == first[i].position
                    &&& terminal@.characters[i].input_symbol == first[i].input_symbol
                },
            forall|j: int|
                0 <= j < k ==> !terminal@.characters[rain_of_cell(
                    count as nat,
                    width as nat,
                    height as nat,
                    #[trigger] order[j] as int,
                )].visible,
            cells == text_cells(text_rows(text)),
            forall|i: int| 0 <= i < count ==> (#[trigger] first[i]).position == cells[i].1 && first[i].input_symbol == cells[i].0,
            text_at@ == text_index(cells, width as nat, (width * height) as nat, count as nat),
            drawn_as(
                terminal@.characters,
                resolve_fold(fl, order@, start as nat, k as nat, cells, text_at@, resolve_colors@, width as nat, height as nat),
            ),
        decreases end - k,
    {
        let ghost modeled = resolve_fold(fl, order@, start as nat, k as nat, cells, text_at@, resolve_colors@, width as nat, height as nat);
        let n = order[k];
        proof {
            lemma_cell_of_number(width as nat, height as nat, n as int);
            lemma_rain_slot_in_range(
                count as nat,
                width as nat,
                height as nat,
                n as int % width as int,
                n as int / width as int,
            );
        }
        let x = n % width;
        let y = n / width;
        let slot = count + x * height + y;
        let ghost before = terminal@.characters;
        set_shown(terminal, slot, false);
        let t = text_at[n];
        if t < count {
            let symbol = terminal.characters()[t].input_symbol;
            set_shown(terminal, t, true);
            repaint(terminal, t, symbol, Style::default().with_foreground(resolve_colors[y]));
        }
        proof {
            assert forall|j: int| 0 <= j < k + 1 implies !terminal@.characters[rain_of_cell(
                count as nat,
                width as nat,
                height as nat,
                #[trigger] order[j] as int,
            )].visible by {
                let r = rain_of_cell(count as nat, width as nat, height as nat, order[j] as int);
                lemma_cell_of_number(width as nat, height as nat, order[j] as int);
                lemma_rain_slot_in_range(
                    count as nat,
                    width as nat,
                    height as nat,
                    order[j] as int % width as int,
                    order[j] as int / width as int,
                );
                if j < k {
                    assert(!before[r].visible);
                    if r != slot as int {
                        assert(terminal@.characters[r] == before[r]);
                    }
                }
            }
            let next = resolve_fold(fl, order@, start as nat, (k + 1) as nat, cells, text_at@, resolve_colors@, width as nat, height as nat);
            assert(slot as int == cells.len() + (n as int % width as int) * height + n as int / width as int);
            assert forall|i: int| 0 <= i < terminal@.characters.len() implies same_drawn(
                #[trigger] terminal@.characters[i],
                next[i],
            ) by {
                if i != slot as int && i != t as int {
                    assert(terminal@.characters[i] == before[i]);
                    assert(same_drawn(before[i], modeled[i]));
                }
                if i == t as int && t < count {
                    assert(before[i].position == cells[i].1);
                }
            }
        }
        k += 1;
    }
}

/// Every text character shows its own symbol in its row's colour from `colors`, counted
/// from `offset`; the rain characters stay as they are.
fn fade_text(
    terminal: &mut Terminal,
    colors: &Vec<Color>,
    offset: usize,
    count: usize,
    height: usize,
    Ghost(text): Ghost<Seq<char>>,
)
    requires
        old(terminal).wf(),
        matrix_stage(old(terminal)@, text),
        height == text_grid(text).1,
        count == text_cells(text_rows(text)).len(),
        offset + height <= colors.len(),
    ensures
        final(terminal).wf(),
        matrix_stage(final(terminal)@, text),
        forall|i: int|
            count <= i < old(terminal)@.characters.len() ==> #[trigger] final(terminal)@.characters[i]
                == old(terminal)@.characters[i],
        forall|i: int|
            0 <= i < count ==> {
                let cell = text_cells(text_rows(text))[i];
                &&& (#[trigger] final(terminal)@.characters[i]).visible
                &&& final(terminal)@.characters[i].symbol == cell.0
                &&& final(terminal)@.characters[i].style == foreground_only(colors@[offset + cell.1.y])
            },
{
    let ghost cells = text_cells(text_rows(text));
    let ghost start = terminal@.characters;
    let mut i: usize = 0;
    while i < count
        invariant
            i <= count,
            count == cells.len(),
            cells == text_cells(text_rows(text)),
            matrix_stage(old(terminal)@, text),
            height == text_grid(text).1,
            offset + height <= colors.len(),
            start == old(terminal)@.characters,
            terminal.wf(),
            terminal@.canvas == old(terminal)@.canvas,
            terminal@.characters.len() == start.len(),
            forall|m: int| i <= m < start.len() ==> #[trigger] terminal@.characters[m] == start[m],
            forall|m: int|
                0 <= m < i ==> {
                    &&& (#[trigger] terminal@.characters[m]).visible
                    &&& terminal@.characters[m].symbol == cells[m].0
                    &&& terminal@.characters[m].style == foreground_only(colors@[offset + cells[m].1.y])
                    &&& terminal@.characters[m].position == cells[m].1
                    &&& terminal@.characters[m].input_symbol == cells[m].0
                },
        decreases count - i,
    {
        let position = terminal.characters()[i].position;
        let symbol = terminal.characters()[i].input_symbol;
        assert(position == cells[i as int].1);
        let ghost before = terminal@.characters;
        set_shown(terminal, i, true);
        repaint(terminal, i, symbol, Style::default().with_foreground(colors[offset + position.y as usize]));
        proof {
            assert forall|m: int| 0 <= m < start.len() && m != i implies #[trigger] terminal@.characters[m]
                == before[m] by {}
        }
        i += 1;
    }
}

/// Once every cell of a permutation of all the cells has lost its rain character, every
/// rain character is hidden.
proof fn lemma_all_rain_hidden(
    characters: Seq<EffectCharacter>,
    order: Seq<usize>,
    count: nat,
    width: nat,
    height: nat,
)
    requires
        characters.len() == count + width * height,
        width * height <= usize::MAX,
        order.to_multiset() == Seq::new(width * height, |n: int| n as usize).to_multiset(),
        forall|k: int|
            0 <= k < order.len() ==> !characters[rain_of_cell(count, width, height, #[trigger] order[k] as int)].visible,
    ensures
        forall|j: int| count <= j < characters.len() ==> !(#[trigger] characters[j]).visible,
{
    broadcast use vstd::seq_lib::to_multiset_contains;

    let all = Seq::new(width * height, |n: int| n as usize);
    assert forall|j: int| count <= j < characters.len() implies !(#[trigger] characters[j]).visible by {
        let h = height as int;
        let w = width as int;
        let d = j - count;
        assert(h > 0) by (nonlinear_arith)
            requires
                0 <= d < width * height,
                h == height,
        ;
        vstd::arithmetic::div_mod::lemma_fundamental_div_mod(d, h);
        vstd::arithmetic::div_mod::lemma_mod_pos_bound(d, h);
        vstd::arithmetic::div_mod::lemma_div_pos_is_pos(d, h);
        let q = d / h;
        let r = d % h;
        assert(q < width) by (nonlinear_arith)
            requires
                d == h * q + r,
                0 <= r,
                d < width * height,
                h > 0,
                h == height,
        ;
        lemma_cell_in_table(width, height, q, r);
        let n = r * w + q;
        vstd::arithmetic::div_mod::lemma_fundamental_div_mod_converse(n, w, r, q);
        assert(rain_of_cell(count, width, height, n) == j) by (nonlinear_arith)
            requires
                n % w == q,
                n / w == r,
                d == h * q + r,
                j == count + d,
                rain_of_cell(count, width, height, n) == count + (n % w) * height + n / w,
                h == height,
        ;
        assert(all[n] == n as usize);
        assert(all.contains(n as usize));
        assert(all.to_multiset().count(n as usize) > 0);
        assert(order.to_multiset().count(n as usize) > 0);
        assert(order.contains(n as usize));
        let k = choose|k: int| 0 <= k < order.len() && order[k] == n as usize;
        assert(!characters[rain_of_cell(count, width, height, order[k] as int)].visible);
    }
}

proof fn lemma_chunk_count(area: int, batch: int, chunks: int)
    requires
        batch > 0,
        chunks >= 1,
        (chunks - 1) * batch < area <= chunks * batch,
    ensures
        chunks == (area + batch - 1) / batch,
{
    let rest = area + batch - 1 - batch * chunks;
    assert(0 <= rest < batch) by (nonlinear_arith)
        requires
            rest == area + batch - 1 - batch * chunks,
            (chunks - 1) * batch < area <= chunks * batch,
    ;
    vstd::arithmetic::div_mod::lemma_fundamental_div_mod_converse(area + batch - 1, batch, chunks, rest);
}

/// Fade frame `step`: the text in its row colours for that step, the rain hidden.
fn fade_step(
    terminal: &mut Terminal,
    frames: &mut Vec<String>,
    fade_colors: &Vec<Color>,
    step: usize,
    count: usize,
    height: usize,
    Ghost(text): Ghost<Seq<char>>,
)
    requires
        old(terminal).wf(),
        matrix_stage(old(terminal)@, text),
        forall|j: int|
            count <= j < old(terminal)@.characters.len() ==> !(#[trigger] old(terminal)@.characters[j]).visible,
        height == text_grid(text).1,
        count == text_cells(text_rows(text)).len(),
        fade_colors.len() == 8 * height,
        1 <= step <= 8,
    ensures
        final(terminal).wf(),
        matrix_stage(final(terminal)@, text),
        forall|j: int|
            count <= j < final(terminal)@.characters.len() ==> !(#[trigger] final(terminal)@.characters[j]).visible,
        final(frames)@.len() == old(frames)@.len() + 1,
        forall|f: int| 0 <= f < old(frames)@.len() ==> #[trigger] final(frames)@[f] == old(frames)@[f],
        final(frames)@.last()@ == fade_frame(text, fade_colors@, step as int),
{
    let ghost cells = text_cells(text_rows(text));
    let ghost before_fade = terminal@.characters;
    assert((step - 1) * height + height <= 8 * height) by (nonlinear_arith)
        requires
            1 <= step <= 8,
    ;
    assert(step * height == (step - 1) * height + height) by (nonlinear_arith);
    fade_text(terminal, fade_colors, (step - 1) * height, count, height, Ghost(text));
    let ghost shot = terminal@;
    snapshot(terminal, frames);
    proof {
        let colors = fade_colors@.subrange((step - 1) * height, step * height);
        assert forall|j: int| count <= j < shot.characters.len() implies !(#[trigger] shot.characters[j]).visible by {
            assert(shot.characters[j] == before_fade[j]);
        }
        assert forall|i: int| 0 <= i < cells.len() implies (#[trigger] shot.characters[i]).style
            == foreground_only(colors[cells[i].1.y as int]) by {
            assert(0 <= cells[i].1.y < height);
            assert(colors[cells[i].1.y as int] == fade_colors@[(step - 1) * height + cells[i].1.y]);
        }
        lemma_rows_colored(text, shot.characters, colors);
    }
}

} // verus!
