use ttfx::effects::beams::{self, Beams, SimpleRng};
use ttfx::effects::binarypath::{self, Binarypath};
use ttfx::effects::decrypt::ciphertext_color;
use ttfx::effects::fireworks::mix_seed;
use ttfx::effects::overflow::{self, input_rows};
use ttfx::effects::random::fnv1a_hash;
use ttfx::effects::scattered::interpolate_channel;
use ttfx::effects::spray::{index_to_coord, SprayRng};
use ttfx::effects::swarm::{jitter_coord, SwarmRng};
use ttfx::effects::synthgrid::{deterministic_noise, reveal_delay, Synthgrid};
use ttfx::effects::thunderstorm::{self, storm_text_style, StormRng};
use ttfx::effects::unstable::{clamp_coord, random_edge_coord, SmallRng};
use ttfx::effects::vhstape::{foreground_style, TapeRng};
use ttfx::effects::{
    blackhole, bouncyballs, bubbles, burn, colorshift, crumble, errorcorrect, expand, highlight,
    laseretch, matrix, middleout, pour, print, rain, random_sequence, rings, scattered, slice,
    smoke, spotlights, spray, sweep, unstable, vhstape, waves, wipe,
};
use ttfx::utils::geometry::Coord;
use ttfx::utils::graphics::{Color, Style};

const XORSHIFT_OF_ONE: u64 = 1_082_269_761;
const XORSHIFT_OF_ONE_TWICE: u64 = 1_152_992_998_833_853_505;

fn sorted(mut values: Vec<usize>) -> Vec<usize> {
    values.sort();
    values
}

#[test]
fn effect_names() {
    assert_eq!(Beams::new().name(), "beams");
    assert_eq!(Binarypath::new().name(), "binarypath");
    assert_eq!(blackhole::Blackhole::new().name(), "blackhole");
    assert_eq!(bouncyballs::Bouncyballs::new().name(), "bouncyballs");
    assert_eq!(bubbles::Bubbles::new().name(), "bubbles");
    assert_eq!(burn::Burn::new().name(), "burn");
    assert_eq!(colorshift::Colorshift::new().name(), "colorshift");
    assert_eq!(crumble::Crumble::new().name(), "crumble");
    assert_eq!(errorcorrect::Errorcorrect::new().name(), "errorcorrect");
    assert_eq!(expand::Expand::new().name(), "expand");
    assert_eq!(highlight::Highlight::new().name(), "highlight");
    assert_eq!(laseretch::Laseretch::new().name(), "laseretch");
    assert_eq!(matrix::Matrix::new().name(), "matrix");
    assert_eq!(middleout::Middleout::new().name(), "middleout");
    assert_eq!(overflow::Overflow::new().name(), "overflow");
    assert_eq!(pour::Pour::new().name(), "pour");
    assert_eq!(print::Print::new().name(), "print");
    assert_eq!(rain::Rain::new().name(), "rain");
    assert_eq!(random_sequence::RandomSequence::new().name(), "random_sequence");
    assert_eq!(rings::Rings::new().name(), "rings");
    assert_eq!(scattered::Scattered::new().name(), "scattered");
    assert_eq!(slice::Slice::new().name(), "slice");
    assert_eq!(smoke::Smoke::new().name(), "smoke");
    assert_eq!(spotlights::Spotlights::new().name(), "spotlights");
    assert_eq!(spray::Spray::new().name(), "spray");
    assert_eq!(sweep::Sweep::new().name(), "sweep");
    assert_eq!(Synthgrid::new().name(), "synthgrid");
    assert_eq!(thunderstorm::Thunderstorm::new().name(), "thunderstorm");
    assert_eq!(unstable::Unstable::new().name(), "unstable");
    assert_eq!(vhstape::Vhstape::new().name(), "vhstape");
    assert_eq!(waves::Waves::new().name(), "waves");
    assert_eq!(wipe::Wipe::new().name(), "wipe");
}

#[test]
fn fnv1a_hash_values() {
    assert_eq!(fnv1a_hash(""), 0xcbf2_9ce4_8422_2325);
    assert_eq!(fnv1a_hash("abc"), 0xe71f_a219_0541_574b);
    assert_eq!(fnv1a_hash("hello"), 0xa430_d846_80aa_bd0b);
}

#[test]
fn seeds_follow_the_input_hash() {
    assert_eq!(beams::hash_input("abc"), 0xe71f_a219_0541_574b);
    assert_eq!(binarypath::seed_from_input("hello"), 0xa430_d846_80aa_bd0b);
    assert_eq!(thunderstorm::seed_from_input("a"), 15_783_895_286_342_262_527);
    assert_ne!(overflow::seed_from_input(""), 0);
}

#[test]
fn xorshift_values() {
    let mut rng = SimpleRng::new(1);
    assert_eq!(rng.next_u64(), XORSHIFT_OF_ONE);
    assert_eq!(rng.next_u64(), XORSHIFT_OF_ONE_TWICE);
    let mut seed = 1u64;
    assert_eq!(binarypath::next_random(&mut seed), XORSHIFT_OF_ONE);
    assert_eq!(seed, XORSHIFT_OF_ONE);
}

#[test]
fn zero_seed_is_replaced() {
    let mut zero = SimpleRng::new(0);
    let mut golden = SimpleRng::new(0x9e37_79b9_7f4a_7c15);
    assert_eq!(zero.next_u64(), golden.next_u64());
    assert_ne!(zero.next_u64(), 0);
    let mut tape = TapeRng::new(0);
    let mut fallback = TapeRng::new(0xa076_1d64_78bd_642f);
    assert_eq!(tape.next_u64(), fallback.next_u64());
}

#[test]
fn range_draws_stay_in_range() {
    let mut rng = SimpleRng::new(1);
    assert_eq!(rng.range_usize(10), (XORSHIFT_OF_ONE % 10) as usize);
    for bound in 2..50 {
        assert!(rng.range_usize(bound) < bound);
    }
    assert_eq!(rng.range_usize(1), 0);
    assert_eq!(rng.range_usize(0), 0);
    let mut tape = TapeRng::new(1);
    assert_eq!(tape.below(10), 1);
    for _ in 0..50 {
        let value = tape.range_i32(-4, 4);
        assert!((-4..=4).contains(&value));
    }
    assert_eq!(tape.range_i32(3, 3), 3);
}

#[test]
fn lcg_values() {
    let mut rng = StormRng::new(1);
    assert_eq!(rng.next_u64(), 7_806_831_264_735_756_412);
    let mut zero = StormRng::new(0);
    let mut golden = StormRng::new(0x9e37_79b9_7f4a_7c15);
    assert_eq!(zero.next_u64(), golden.next_u64());
    assert_eq!(rng.range(1), 0);
}

#[test]
fn shuffle_with_known_draws() {
    let mut values: Vec<usize> = (0..6).collect();
    let mut rng = SimpleRng::new(1);
    beams::shuffle(&mut values, &mut rng);
    assert_eq!(values, vec![4, 5, 2, 1, 0, 3]);
    assert_eq!(rng.next_u64(), {
        let mut check = SimpleRng::new(9_659_130_143_999_365_733);
        check.next_u64()
    });
}

#[test]
fn shuffles_are_permutations() {
    let original: Vec<usize> = (0..40).collect();
    let mut a = original.clone();
    let mut seed = 7u64;
    binarypath::shuffle(&mut a, &mut seed);
    assert_eq!(sorted(a.clone()), original);
    assert_ne!(a, original);
    let mut b = original.clone();
    SprayRng::from_input("spray").shuffle(&mut b);
    assert_eq!(sorted(b), original);
    let mut c = original.clone();
    random_sequence::shuffle(&mut c, 99);
    assert_eq!(sorted(c), original);
    let mut d = original.clone();
    overflow::shuffle(&mut d, &mut 5u64);
    assert_eq!(sorted(d), original);
}

#[test]
fn shuffles_are_deterministic() {
    let mut first: Vec<usize> = (0..20).collect();
    let mut second = first.clone();
    SprayRng::from_input("same text").shuffle(&mut first);
    SprayRng::from_input("same text").shuffle(&mut second);
    assert_eq!(first, second);
}

#[test]
fn shuffling_short_slices_draws_nothing() {
    let mut one = vec![42usize];
    let mut rng = SimpleRng::new(1);
    beams::shuffle(&mut one, &mut rng);
    assert_eq!(one, vec![42]);
    assert_eq!(rng.next_u64(), XORSHIFT_OF_ONE);
    let mut empty: Vec<usize> = Vec::new();
    beams::shuffle(&mut empty, &mut rng);
    assert!(empty.is_empty());
}

#[test]
fn binary_route_turns_once() {
    let mut seed = 1u64;
    let route = binarypath::make_route(Coord::new(3, 2), 10, 5, &mut seed);
    assert_eq!(route, vec![Coord::new(9, 0), Coord::new(3, 0), Coord::new(3, 2)]);
    assert_eq!(seed, XORSHIFT_OF_ONE_TWICE);
}

#[test]
fn binary_styles() {
    assert_eq!(binarypath::binary_style('1'), Style::default().with_foreground(Color::rgb(0, 209, 255)));
    assert_eq!(binarypath::binary_style('0'), Style::default().with_foreground(Color::rgb(138, 0, 138)));
}

#[test]
fn ciphertext_greens() {
    assert_eq!(ciphertext_color(0), Color::rgb(0, 0x80, 0));
    assert_eq!(ciphertext_color(1), Color::rgb(0, 0xcb, 0));
    assert_eq!(ciphertext_color(9), Color::rgb(0, 0xff, 0));
}

#[test]
fn splitmix_values() {
    assert_eq!(mix_seed(0), 0);
    assert_eq!(mix_seed(1), 6_238_072_747_940_578_789);
    assert_eq!(mix_seed(12345), 17_540_659_726_606_785_873);
}

#[test]
fn channel_interpolation_rounds_half_away_from_zero() {
    assert_eq!(interpolate_channel(0, 255, 1, 2), 128);
    assert_eq!(interpolate_channel(255, 0, 1, 2), 127);
    assert_eq!(interpolate_channel(0, 255, 1, 3), 85);
    assert_eq!(interpolate_channel(10, 20, 0, 0), 10);
    assert_eq!(interpolate_channel(10, 20, 5, 0), 60);
}

#[test]
fn overflow_rows() {
    assert_eq!(input_rows("ab\nc"), vec![vec!['a', 'b'], vec!['c']]);
    assert_eq!(input_rows(""), vec![Vec::<char>::new()]);
}

#[test]
fn spray_positions_in_reading_order() {
    assert_eq!(index_to_coord("ab\ncd", 2, 0), Some(Coord::new(0, 0)));
    assert_eq!(index_to_coord("ab\ncd", 2, 3), Some(Coord::new(1, 1)));
    assert_eq!(index_to_coord("ab\n\ncde", 3, 4), Some(Coord::new(2, 2)));
    assert_eq!(index_to_coord("ab\ncd", 2, 4), None);
    assert_eq!(index_to_coord("", 1, 0), None);
}

#[test]
fn swarm_jitter_stays_on_canvas() {
    let mut rng = SwarmRng::new(3);
    for _ in 0..40 {
        let moved = jitter_coord(&mut rng, Coord::new(0, 4), 5, 5);
        assert!((0..=2).contains(&moved.x));
        assert!((3..=4).contains(&moved.y));
    }
}

#[test]
fn synthgrid_reveal_follows_the_diagonal() {
    assert_eq!(reveal_delay(Coord::new(0, 0), 10, 5, 40), 0);
    assert_eq!(reveal_delay(Coord::new(9, 4), 10, 5, 40), 39);
    assert_eq!(reveal_delay(Coord::new(3, 2), 10, 5, 40), 15);
    assert_eq!(reveal_delay(Coord::new(-3, 2), 10, 5, 40), 6);
    assert_eq!(reveal_delay(Coord::new(5, 5), 1, 1, 40), 0);
}

#[test]
fn synthgrid_noise_values() {
    assert_eq!(deterministic_noise(1, 2), 363_033_792);
    assert_eq!(deterministic_noise(-5, 3), 979_173_804);
    assert_eq!(deterministic_noise(0, 0), 0);
}

#[test]
fn storm_styles() {
    let flash = storm_text_style(0, 1);
    assert!(flash.bold);
    assert_eq!(flash.colors.background, Some(Color::rgb(65, 75, 110)));
    assert_eq!(storm_text_style(3, 0), Style::default().with_foreground(Color::rgb(105, 136, 184)));
    assert_eq!(storm_text_style(20, 0), Style::default().with_foreground(Color::rgb(255, 255, 255)));
    assert_eq!(storm_text_style(0, 0), Style::default().with_foreground(Color::rgb(42, 45, 64)));
}

#[test]
fn unstable_edges() {
    assert_eq!(clamp_coord(Coord::new(-3, 9), 4, 4), Coord::new(0, 3));
    let mut rng = SmallRng::from_input("hi");
    let edge = random_edge_coord(&mut rng, 10, 6);
    assert_eq!(edge.x, 0);
    assert!((0..=5).contains(&edge.y));
    for _ in 0..40 {
        let point = random_edge_coord(&mut rng, 10, 6);
        assert!(point.x == 0 || point.x == 9 || point.y == 0 || point.y == 5);
    }
}

#[test]
fn vhstape_recolours_only_the_foreground() {
    let mut style = Style::default().with_background(Color::ansi(1));
    style.underline = true;
    let tinted = foreground_style(style, Color::rgb(0, 230, 255));
    assert!(tinted.underline);
    assert_eq!(tinted.colors.background, Some(Color::ansi(1)));
    assert_eq!(tinted.colors.foreground, Some(Color::rgb(0, 230, 255)));
}
