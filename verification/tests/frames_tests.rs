use ttfx::effects::blackhole;
use ttfx::effects::burn::Burn;
use ttfx::effects::colorshift::Colorshift;
use ttfx::effects::decrypt::Decrypt;
use ttfx::effects::highlight::Highlight;
use ttfx::effects::laseretch::Laseretch;
use ttfx::effects::matrix::Matrix;
use ttfx::effects::overflow::Overflow;
use ttfx::effects::pour;
use ttfx::effects::print::Print;
use ttfx::effects::random_sequence::RandomSequence;
use ttfx::effects::sweep::Sweep;
use ttfx::effects::synthgrid::Synthgrid;
use ttfx::effects::thunderstorm::Thunderstorm;
use ttfx::effects::waves::Waves;
use ttfx::effects::wipe::Wipe;
use ttfx::engine::character::CharacterId;
use ttfx::engine::terminal::Terminal;
use ttfx::utils::geometry::Coord;
use ttfx::utils::graphics::{Color, Style};

fn fg(r: u8, g: u8, b: u8) -> String {
    format!("\x1b[38;2;{r};{g};{b}m")
}

const RESET: &str = "\x1b[0m";

#[test]
fn terminal_lays_out_the_text() {
    let terminal = Terminal::from_text("ab\nc");
    assert_eq!(terminal.canvas().width(), 2);
    assert_eq!(terminal.canvas().height(), 2);
    let characters = terminal.characters();
    assert_eq!(characters.len(), 3);
    assert_eq!(characters[0].input_symbol, 'a');
    assert_eq!(characters[1].position, Coord::new(1, 0));
    assert_eq!(characters[2].position, Coord::new(0, 1));
    assert_eq!(characters[2].id, CharacterId(2));
    assert!(characters.iter().all(|c| c.visible && c.style == Style::default()));
}

#[test]
fn terminal_renders_the_text_back() {
    let mut terminal = Terminal::from_text("ab\nc");
    assert_eq!(terminal.render_frame(), "ab\nc ");
}

#[test]
fn later_characters_cover_earlier_ones() {
    let mut terminal = Terminal::from_text("ab");
    let id = terminal.add_character('#', Coord::new(0, 0));
    assert_eq!(id, CharacterId(2));
    assert_eq!(terminal.render_frame(), "#b");
    terminal.character_mut(id).unwrap().visible = false;
    assert_eq!(terminal.render_frame(), "ab");
}

#[test]
fn removing_a_character_uncovers_the_cell() {
    let mut terminal = Terminal::from_text("ab");
    let removed = terminal.remove_character(CharacterId(1)).unwrap();
    assert_eq!(removed.input_symbol, 'b');
    assert!(terminal.character(CharacterId(1)).is_none());
    assert!(terminal.remove_character(CharacterId(7)).is_none());
    assert_eq!(terminal.render_frame(), "a ");
}

#[test]
fn characters_off_the_canvas_are_not_drawn() {
    let mut terminal = Terminal::new(2, 1);
    terminal.add_character('x', Coord::new(-1, 0));
    terminal.add_character('y', Coord::new(2, 0));
    terminal.add_character('z', Coord::new(1, 0));
    assert_eq!(terminal.render_frame(), " z");
}

#[test]
fn blackhole_seed_folds_the_bytes() {
    assert_eq!(blackhole::seed_from_input(""), 0x9e37_79b9_7f4a_7c15);
    assert_eq!(blackhole::seed_from_input("a"), 0x22bf_eb33_4b90_d811);
    assert_ne!(blackhole::seed_from_input("ab"), blackhole::seed_from_input("ba"));
}

#[test]
fn pour_seed_hashes_symbols_and_identities() {
    let terminal = Terminal::from_text("a");
    assert_eq!(pour::initial_seed(terminal.characters()), 0x089b_e207_b544_f1e4);
    assert_eq!(pour::initial_seed(&[]), 0xcbf2_9ce4_8422_2325);
}

#[test]
fn sweep_reveals_white_then_colours_from_the_right() {
    let colors = vec![Color::rgb(1, 2, 3)];
    let frames = Sweep::new().frames("ab", &colors);
    let white = fg(255, 255, 255);
    let row = fg(1, 2, 3);
    assert_eq!(frames.len(), 4);
    assert_eq!(frames[0], format!("{white}a{RESET} "));
    assert_eq!(frames[1], format!("{white}ab{RESET}"));
    assert_eq!(frames[2], format!("{white}a{RESET}{row}b{RESET}"));
    assert_eq!(frames[3], format!("{row}ab{RESET}"));
}

#[test]
fn sweep_of_no_text_has_no_frames() {
    assert!(Sweep::new().frames("", &vec![Color::rgb(0, 0, 0)]).is_empty());
}

#[test]
fn wipe_reveals_one_diagonal_per_frame() {
    let colors = vec![Color::rgb(9, 9, 9), Color::rgb(7, 7, 7)];
    let frames = Wipe::new().frames("ab\nc", &colors);
    let top = fg(9, 9, 9);
    let bottom = fg(7, 7, 7);
    assert_eq!(frames.len(), 3);
    assert_eq!(frames[0], format!("  \n{bottom}c{RESET} "));
    assert_eq!(frames[1], format!("{top}a{RESET} \n{bottom}c{RESET} "));
    assert_eq!(frames[2], format!("{top}ab{RESET}\n{bottom}c{RESET} "));
}

#[test]
fn colorshift_cycles_each_column_through_the_spectrum() {
    let spectrum = vec![Color::rgb(255, 0, 0), Color::rgb(0, 0, 255)];
    let frames = Colorshift::new().frames("ab", &spectrum);
    let red = fg(255, 0, 0);
    let blue = fg(0, 0, 255);
    assert_eq!(frames.len(), 10);
    assert_eq!(frames[0], format!("{red}a{RESET}{blue}b{RESET}"));
    assert_eq!(frames[4], frames[0]);
    assert_eq!(frames[5], format!("{blue}a{RESET}{red}b{RESET}"));
}

#[test]
fn colorshift_with_no_colours_has_no_frames() {
    assert!(Colorshift::new().frames("ab", &Vec::new()).is_empty());
}

#[test]
fn overflow_makes_nine_frames_per_row() {
    let colors = vec![Color::rgb(1, 1, 1), Color::rgb(2, 2, 2)];
    let frames = Overflow::new().frames("ab\ncd", &colors);
    assert_eq!(frames.len(), 18);
}

#[test]
fn thunderstorm_frame_count_and_ending() {
    let fade: Vec<Color> = (1..=12u8).map(|i| Color::rgb(i, i, i)).collect();
    let frames = Thunderstorm::new().frames("ab\ncd", &fade);
    assert_eq!(frames.len(), 89);
    assert_eq!(frames[88], "ab\ncd");
    let grey = fg(3, 3, 3);
    assert_eq!(frames[78], format!("{grey}ab{RESET}\n{grey}cd{RESET}"));
}

#[test]
fn thunderstorm_clouds_drift_in_over_the_dark_text() {
    let fade = vec![Color::rgb(0, 0, 0); 12];
    let frames = Thunderstorm::new().frames("ab\ncd", &fade);
    let dark = fg(42, 45, 64);
    let cloud = fg(70, 75, 96);
    assert_eq!(frames[0], format!("{dark}ab{RESET}\n{dark}cd{RESET}"));
    assert_eq!(frames[9], format!("{cloud}~{RESET}{dark}b{RESET}\n{dark}cd{RESET}"));
}

#[test]
fn thunderstorm_of_no_text_still_storms() {
    let fade = vec![Color::rgb(0, 0, 0); 12];
    let frames = Thunderstorm::new().frames("", &fade);
    assert_eq!(frames.len(), 89);
    assert_eq!(frames[88], " ");
}

#[test]
fn highlight_sweeps_white_three_frames_per_column() {
    let colors = vec![Color::rgb(1, 1, 1), Color::rgb(2, 2, 2)];
    let frames = Highlight::new().frames("ab", &colors);
    let white = fg(255, 255, 255);
    let (one, two) = (fg(1, 1, 1), fg(2, 2, 2));
    assert_eq!(frames.len(), 5);
    assert_eq!(frames[0], format!("{white}a{RESET}{two}b{RESET}"));
    assert_eq!(frames[1], format!("{white}ab{RESET}"));
    assert_eq!(frames[2], format!("{white}ab{RESET}"));
    assert_eq!(frames[3], format!("{one}a{RESET}{white}b{RESET}"));
    assert_eq!(frames[4], format!("{one}a{RESET}{two}b{RESET}"));
}

#[test]
fn highlight_of_no_text_has_no_frames() {
    assert!(Highlight::new().frames("", &Vec::new()).is_empty());
}

fn wave_colors() -> Vec<Color> {
    (0..8u8).map(|i| Color::rgb(i, i, i)).collect()
}

#[test]
fn waves_roll_through_one_character() {
    let frames = Waves::new().frames("a", &wave_colors(), &vec![Color::rgb(9, 9, 9)]);
    assert_eq!(frames.len(), 49);
    assert_eq!(frames[0], format!("{}\u{2581}{RESET}", fg(0, 0, 0)));
    assert_eq!(frames[1], frames[0]);
    assert_eq!(frames[2], format!("{}\u{2582}{RESET}", fg(1, 1, 1)));
    assert_eq!(frames[47], format!("{}\u{2588}{RESET}", fg(7, 7, 7)));
    assert_eq!(frames[48], format!("{}a{RESET}", fg(9, 9, 9)));
}

#[test]
fn waves_wait_one_step_per_column() {
    let frames = Waves::new().frames("ab", &wave_colors(), &vec![Color::rgb(9, 9, 9)]);
    assert_eq!(frames.len(), 50);
    assert_eq!(frames[0], format!("{}\u{2581}{RESET}b", fg(0, 0, 0)));
    assert_eq!(frames[1], format!("{}\u{2581}\u{2581}{RESET}", fg(0, 0, 0)));
    assert_eq!(frames[49], format!("{}ab{RESET}", fg(9, 9, 9)));
}

#[test]
fn waves_of_no_text_show_the_blank_canvas() {
    let frames = Waves::new().frames("", &wave_colors(), &vec![Color::rgb(9, 9, 9)]);
    assert_eq!(frames, vec![" ".to_string()]);
}

fn cooling_table() -> Vec<Color> {
    (1..=12u8).map(|i| Color::rgb(i, 0, 0)).collect()
}

#[test]
fn laseretch_etches_and_cools_one_character() {
    let frames = Laseretch::new().frames("a", &vec![Color::rgb(0, 9, 0)], &vec![Color::rgb(0, 0, 9)], &cooling_table());
    assert_eq!(frames.len(), 14);
    assert_eq!(frames[0], format!("\x1b[1;38;2;255;255;180m\u{2588}{RESET}"));
    assert_eq!(frames[1], frames[0]);
    assert_eq!(frames[2], format!("\x1b[1;38;2;2;0;0ma{RESET}"));
    assert_eq!(frames[12], format!("{}a{RESET}", fg(12, 0, 0)));
    assert_eq!(frames[13], format!("{}a{RESET}", fg(0, 0, 9)));
}

#[test]
fn laseretch_keeps_white_space_plain() {
    let colors = vec![Color::rgb(0, 9, 0); 3];
    let frames = Laseretch::new().frames("a b", &colors, &vec![Color::rgb(0, 0, 9)], &cooling_table());
    let row = fg(0, 0, 9);
    assert_eq!(frames[frames.len() - 1], format!("{row}a{RESET} {row}b{RESET}"));
}

#[test]
fn laseretch_of_blank_text_is_one_frame() {
    let colors = vec![Color::rgb(0, 9, 0); 2];
    let frames = Laseretch::new().frames("  ", &colors, &vec![Color::rgb(0, 0, 9)], &cooling_table());
    assert_eq!(frames, vec!["  ".to_string()]);
}

#[test]
fn burn_runs_one_character_through_four_flames() {
    let frames = Burn::new().frames("a", &vec![Color::rgb(0, 0, 9)]);
    assert_eq!(frames.len(), 9);
    assert_eq!(frames[0], format!("{}\u{2581}{RESET}", fg(255, 255, 255)));
    assert_eq!(frames[1], frames[0]);
    assert_eq!(frames[2], format!("{}\u{2584}{RESET}", fg(0xff, 0xf7, 0x5d)));
    assert_eq!(frames[4], format!("{}\u{2587}{RESET}", fg(0xfe, 0x65, 0x0d)));
    assert_eq!(frames[7], format!("{}\u{2582}{RESET}", fg(0x8a, 0x00, 0x3c)));
    assert_eq!(frames[8], format!("{}a{RESET}", fg(0, 0, 9)));
}

#[test]
fn burn_lights_the_bottom_row_first() {
    let colors = vec![Color::rgb(0, 0, 1), Color::rgb(0, 0, 2)];
    let frames = Burn::new().frames("a\nb", &colors);
    assert_eq!(frames.len(), 12);
    let ash = fg(0x83, 0x73, 0x73);
    let white = fg(255, 255, 255);
    assert_eq!(frames[0], format!("{ash}a{RESET}\n{white}\u{2586}{RESET}"));
    assert_eq!(frames[2], format!("{ash}a{RESET}\n{}\u{2581}{RESET}", fg(0xff, 0xf7, 0x5d)));
    assert_eq!(frames[3], format!("{white}\u{2581}{RESET}\n{}\u{2581}{RESET}", fg(0xff, 0xf7, 0x5d)));
    assert_eq!(frames[11], format!("{}a{RESET}\n{}b{RESET}", fg(0, 0, 1), fg(0, 0, 2)));
}

#[test]
fn burn_of_no_text_has_no_frames() {
    assert!(Burn::new().frames("", &vec![Color::rgb(0, 0, 1)]).is_empty());
}

#[test]
fn synthgrid_spreads_flickers_and_reveals() {
    let grid_colors = vec![Color::rgb(1, 0, 0), Color::rgb(2, 0, 0)];
    let text_colors = vec![Color::rgb(0, 0, 1), Color::rgb(0, 0, 2), Color::rgb(0, 0, 3)];
    let frames = Synthgrid::new().frames("ab", &grid_colors, &vec![0, 5], &text_colors);
    assert_eq!(frames.len(), 26);
    assert_eq!(frames[0], "  ");
    assert_eq!(frames[1], format!("{}\u{253c}{RESET} ", fg(1, 0, 0)));
    let full = format!("{}\u{253c}{RESET}{}\u{2500}{RESET}", fg(1, 0, 0), fg(2, 0, 0));
    assert_eq!(frames[6], full);
    assert_eq!(frames[12], full);
    assert_eq!(frames[13], format!("{}\u{2591}{RESET}{}\u{2500}{RESET}", fg(0x8a, 0, 0x8a), fg(2, 0, 0)));
    assert_eq!(frames[14], format!("{}\u{2592}{RESET}{}\u{2500}{RESET}", fg(0xcc, 0, 0xcc), fg(2, 0, 0)));
    assert_eq!(frames[17], format!("{}a{RESET} ", fg(0, 0, 1)));
    assert_eq!(frames[20], format!("{}a{RESET}{}\u{2591}{RESET}", fg(0, 0, 1), fg(0x8a, 0, 0x8a)));
    assert_eq!(frames[25], format!("{}a{RESET}{}b{RESET}", fg(0, 0, 1), fg(0, 0, 2)));
}

#[test]
fn synthgrid_shows_white_space_at_once() {
    let cells = vec![Color::rgb(1, 0, 0); 3];
    let text_colors = vec![Color::rgb(0, 0, 1), Color::rgb(0, 0, 2), Color::rgb(0, 0, 3)];
    let frames = Synthgrid::new().frames("a b", &cells, &vec![9, 9, 9], &text_colors);
    assert_eq!(frames.len(), 26);
    assert_eq!(frames[9], "   ");
    assert_eq!(frames[25], format!("{}a{RESET}{} {RESET}{}b{RESET}", fg(0, 0, 1), fg(0, 0, 2), fg(0, 0, 3)));
}

fn matrix_styles(height: usize) -> Vec<Style> {
    let longest = height.max(3);
    vec![Style::default().with_foreground(Color::rgb(0, 99, 0)); (longest + 1) * (longest + 1)]
}

#[test]
fn matrix_fades_the_text_in_after_the_rain() {
    let fade: Vec<Color> = (1..=8u8).map(|s| Color::rgb(s, 0, 0)).collect();
    let frames = Matrix::new().frames("a", &matrix_styles(1), &vec![Color::rgb(0, 5, 0)], &fade, &vec![Color::rgb(0, 0, 9)]);
    assert_eq!(frames.len(), 43);
    assert_eq!(frames[34], format!("{}a{RESET}", fg(1, 0, 0)));
    assert_eq!(frames[41], format!("{}a{RESET}", fg(8, 0, 0)));
    assert_eq!(frames[42], format!("{}a{RESET}", fg(0, 0, 9)));
}

#[test]
fn matrix_skips_a_final_frame_the_fade_already_shows() {
    let fade: Vec<Color> = (1..=8u8).map(|s| Color::rgb(s, 0, 0)).collect();
    let frames = Matrix::new().frames("a", &matrix_styles(1), &vec![Color::rgb(0, 5, 0)], &fade, &vec![Color::rgb(8, 0, 0)]);
    assert_eq!(frames.len(), 42);
    assert_eq!(frames[41], format!("{}a{RESET}", fg(8, 0, 0)));
}

#[test]
fn matrix_colours_each_row_while_fading() {
    let fade: Vec<Color> = (1..=16u8).map(|s| Color::rgb(s, 0, 0)).collect();
    let rows = vec![Color::rgb(0, 0, 1), Color::rgb(0, 0, 2)];
    let frames = Matrix::new().frames("ab\nc", &matrix_styles(2), &rows, &fade, &rows);
    assert_eq!(frames.len(), 48);
    assert_eq!(frames[39], format!("{}ab{RESET}\n{}c{RESET} ", fg(1, 0, 0), fg(2, 0, 0)));
    assert_eq!(frames[47], format!("{}ab{RESET}\n{}c{RESET} ", fg(0, 0, 1), fg(0, 0, 2)));
}

fn fade_table(cells: u8) -> Vec<Color> {
    (0..cells).flat_map(|cell| (0..10u8).map(move |step| Color::rgb(cell, step, 1))).collect()
}

#[test]
fn random_sequence_fades_one_character_through_ten_colours() {
    let frames = RandomSequence::new().frames("a", 7, &vec![0, 0], &fade_table(1));
    assert_eq!(frames.len(), 50);
    assert_eq!(frames[0], format!("{}a{RESET}", fg(0, 0, 1)));
    assert_eq!(frames[4], frames[0]);
    assert_eq!(frames[5], format!("{}a{RESET}", fg(0, 1, 1)));
    assert_eq!(frames[49], format!("{}a{RESET}", fg(0, 9, 1)));
}

#[test]
fn random_sequence_starts_one_more_character_each_frame() {
    let frames = RandomSequence::new().frames("ab", 7, &vec![0, 0, 0], &fade_table(2));
    assert_eq!(frames.len(), 51);
    let first_a = format!("{}a{RESET} ", fg(0, 0, 1));
    let first_b = format!(" {}b{RESET}", fg(1, 0, 1));
    assert!(frames[0] == first_a || frames[0] == first_b);
    assert_eq!(frames[50], format!("{}a{RESET}{}b{RESET}", fg(0, 9, 1), fg(1, 9, 1)));
}

#[test]
fn random_sequence_takes_batches_from_the_table() {
    let frames = RandomSequence::new().frames("abc", 7, &vec![0, 0, 0, 2], &fade_table(3));
    assert_eq!(frames.len(), 51);
    assert_eq!(frames[0].matches('\u{1b}').count(), 4);
}

#[test]
fn random_sequence_of_no_text_has_no_frames() {
    assert!(RandomSequence::new().frames("", 7, &vec![0], &fade_table(1)).is_empty());
}

#[test]
fn decrypt_of_no_text_is_the_blank_canvas() {
    assert_eq!(Decrypt::new().frames("", &vec![Color::rgb(0, 0, 9)]), vec![" ".to_string()]);
}

#[test]
fn decrypt_ends_on_the_blocks_then_the_text() {
    let frames = Decrypt::new().frames("a", &vec![Color::rgb(0, 0, 9)]);
    let n = frames.len();
    assert!(1 + 10 <= n && n <= 1 + 25);
    assert_eq!(frames[n - 1], format!("{}a{RESET}", fg(0, 0, 9)));
    assert!(frames[n - 2].contains('\u{2591}'));
    assert!(frames[n - 3].contains('\u{2592}'));
    assert!(frames[n - 4].contains('\u{2593}'));
    assert!(frames[n - 5].contains('\u{2588}'));
    assert_eq!(frames, Decrypt::new().frames("a", &vec![Color::rgb(0, 0, 9)]));
}

#[test]
fn decrypt_types_two_characters_per_frame() {
    let frames = Decrypt::new().frames("abc", &vec![Color::rgb(0, 0, 9)]);
    assert_eq!(frames[0].matches('\u{1b}').count(), 4);
    assert!(!frames[0].ends_with(RESET));
    assert_eq!(frames[1].matches('\u{1b}').count(), 6);
    assert_eq!(frames[frames.len() - 1], format!("{}abc{RESET}", fg(0, 0, 9)));
}

#[test]
fn print_types_each_character_and_returns_for_the_next_row() {
    let rows = vec![Color::rgb(0, 0, 1), Color::rgb(0, 0, 2)];
    let paths = vec![vec![Coord::new(1, 0), Coord::new(0, 1)]];
    let frames = Print::new().frames("ab\nc", &rows, &paths);
    let head = format!("{}\u{2588}{RESET}", fg(255, 255, 255));
    let (r0, r1) = (fg(0, 0, 1), fg(0, 0, 2));
    assert_eq!(
        frames,
        vec![
            format!("{r0}a{RESET}{head}\n  "),
            format!("{r0}ab{RESET}\n  "),
            format!("{r0}a{RESET}{head}\n  "),
            format!("{r0}ab{RESET}\n{head} "),
            format!("{r0}ab{RESET}\n{r1}c{RESET}{head}"),
            format!("{r0}ab{RESET}\n{r1}c{RESET} "),
        ]
    );
}

#[test]
fn print_of_no_text_is_the_blank_canvas() {
    assert_eq!(Print::new().frames("", &vec![Color::rgb(0, 0, 1)], &vec![]), vec![" ".to_string()]);
}

#[test]
fn laseretch_frame_count_follows_the_sweep() {
    let red = vec![Color::rgb(0, 0, 9)];
    let two = vec![Color::rgb(0, 0, 9); 2];
    assert_eq!(Laseretch::new().frames("ab", &vec![Color::rgb(0, 9, 0); 2], &red, &cooling_table()).len(), 16);
    assert_eq!(Laseretch::new().frames("a b", &vec![Color::rgb(0, 9, 0); 3], &red, &cooling_table()).len(), 17);
    let rows: Vec<Color> = (1..=24u8).map(|i| Color::rgb(i, 0, 0)).collect();
    assert_eq!(Laseretch::new().frames("a\nb", &vec![Color::rgb(0, 9, 0)], &two, &rows).len(), 17);
}

#[test]
fn thunderstorm_ends_as_a_fresh_terminal_renders_the_text() {
    let fade = vec![Color::rgb(5, 5, 5); 12];
    for input in ["ab\ncd", "x", "a  b\n\nc"] {
        let frames = Thunderstorm::new().frames(input, &fade);
        let mut fresh = Terminal::from_text(input);
        assert_eq!(frames[88], fresh.render_frame());
    }
}

#[test]
fn thunderstorm_is_the_same_for_the_same_text() {
    let fade = vec![Color::rgb(5, 5, 5); 12];
    let first = Thunderstorm::new().frames("storm\nover", &fade);
    let second = Thunderstorm::new().frames("storm\nover", &fade);
    assert_eq!(first, second);
    assert_ne!(first[17], first[16]);
}

#[test]
fn matrix_rain_is_the_same_for_the_same_text() {
    let fade: Vec<Color> = (1..=16u8).map(|s| Color::rgb(s, 0, 0)).collect();
    let rows = vec![Color::rgb(0, 0, 1), Color::rgb(0, 0, 2)];
    let first = Matrix::new().frames("ab\nc", &matrix_styles(2), &rows, &fade, &rows);
    let second = Matrix::new().frames("ab\nc", &matrix_styles(2), &rows, &fade, &rows);
    assert_eq!(first, second);
    assert!(first.len() > 32);
}

#[test]
fn run_steps_stops_at_the_first_no() {
    let mut terminal = Terminal::from_text("ab");
    let frames = terminal.run_steps(5, |_terminal: &Terminal, step: usize| step < 2);
    assert_eq!(frames.len(), 2);
    let expected = Terminal::from_text("ab").render_frame();
    assert_eq!(frames[0], expected);
    assert_eq!(frames[1], expected);
}

#[test]
fn run_steps_makes_at_most_max_steps_frames() {
    let mut terminal = Terminal::from_text("x\ny");
    assert_eq!(terminal.run_steps(3, |_terminal: &Terminal, _step: usize| true).len(), 3);
    assert!(terminal.run_steps(0, |_terminal: &Terminal, _step: usize| true).is_empty());
    assert!(terminal.run_steps(4, |_terminal: &Terminal, _step: usize| false).is_empty());
}
