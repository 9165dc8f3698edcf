use ttfx::engine::animation::{Animation, CharacterVisual, Frame, Scene};
use ttfx::engine::canvas::{Canvas, Cell};
use ttfx::engine::character::CharacterId;
use ttfx::engine::motion::Waypoint;
use ttfx::utils::geometry::Coord;
use ttfx::utils::graphics::{Color, Style};

fn visual(symbol: char) -> CharacterVisual {
    CharacterVisual::new(symbol, Style::default())
}

fn cell(symbol: char) -> Cell {
    Cell { symbol, style: Style::default() }
}

#[test]
fn new_canvas_is_blank() {
    let canvas = Canvas::new(3, 2);
    assert_eq!(canvas.width(), 3);
    assert_eq!(canvas.height(), 2);
    assert_eq!(canvas.get(Coord::new(2, 1)), Some(&Cell::default()));
    assert_eq!(canvas.render(), "   \n   ");
}

#[test]
fn zero_size_canvas_becomes_one_cell() {
    let canvas = Canvas::new(0, 0);
    assert_eq!(canvas.width(), 1);
    assert_eq!(canvas.height(), 1);
    assert_eq!(canvas.render(), " ");
}

#[test]
fn write_then_read_back() {
    let mut canvas = Canvas::new(4, 3);
    assert!(canvas.set(Coord::new(1, 2), cell('x')));
    assert_eq!(canvas.get(Coord::new(1, 2)), Some(&cell('x')));
    assert_eq!(canvas.get(Coord::new(2, 1)), Some(&Cell::default()));
    assert_eq!(canvas.render(), "    \n    \n x  ");
}

#[test]
fn writes_off_the_canvas_are_refused() {
    let mut canvas = Canvas::new(2, 2);
    assert!(!canvas.set(Coord::new(2, 0), cell('x')));
    assert!(!canvas.set(Coord::new(0, -1), cell('x')));
    assert!(!canvas.set_symbol(Coord::new(-1, 0), 'y'));
    assert_eq!(canvas.get(Coord::new(5, 5)), None);
    assert!(!canvas.contains(Coord::new(0, 2)));
    assert!(canvas.contains(Coord::new(1, 1)));
    assert_eq!(canvas.render(), "  \n  ");
}

#[test]
fn set_symbol_keeps_the_style() {
    let mut canvas = Canvas::new(2, 1);
    let red = Style::default().with_foreground(Color::rgb(255, 0, 0));
    canvas.set(Coord::new(0, 0), Cell { symbol: 'a', style: red });
    assert!(canvas.set_symbol(Coord::new(0, 0), 'b'));
    assert_eq!(canvas.get(Coord::new(0, 0)), Some(&Cell { symbol: 'b', style: red }));
}

#[test]
fn get_mut_edits_in_place() {
    let mut canvas = Canvas::new(2, 2);
    if let Some(cell) = canvas.get_mut(Coord::new(1, 1)) {
        cell.symbol = 'z';
    }
    assert_eq!(canvas.render(), "  \n z");
    assert!(canvas.get_mut(Coord::new(2, 2)).is_none());
}

#[test]
fn clear_resets_every_cell() {
    let mut canvas = Canvas::new(2, 2);
    canvas.set(Coord::new(0, 0), cell('a'));
    canvas.set(Coord::new(1, 1), cell('b'));
    canvas.clear();
    assert_eq!(canvas.render(), "  \n  ");
    canvas.clear_with(cell('.'));
    assert_eq!(canvas.render(), "..\n..");
    canvas.set(Coord::new(0, 0), cell('a'));
    canvas.clear();
    assert_eq!(canvas.render(), "..\n..");
}

#[test]
fn render_switches_styles_and_resets_at_row_end() {
    let mut canvas = Canvas::new(3, 2);
    let red = Style::default().with_foreground(Color::rgb(255, 0, 0));
    let blue = Style::default().with_foreground(Color::ansi(4));
    canvas.set(Coord::new(0, 0), Cell { symbol: 'a', style: red });
    canvas.set(Coord::new(1, 0), Cell { symbol: 'b', style: red });
    canvas.set(Coord::new(2, 0), Cell { symbol: 'c', style: blue });
    canvas.set(Coord::new(1, 1), Cell { symbol: 'd', style: red });
    assert_eq!(
        canvas.render(),
        "\x1b[38;2;255;0;0mab\x1b[0m\x1b[38;5;4mc\x1b[0m\n \x1b[38;2;255;0;0md\x1b[0m "
    );
}

#[test]
fn frame_duration_is_at_least_one() {
    assert_eq!(Frame::new(visual('a'), 0).duration, 1);
    assert_eq!(Frame::new(visual('a'), 5).duration, 5);
}

#[test]
fn empty_scene_cannot_start() {
    let mut scene = Scene::new(false);
    assert!(!scene.activate());
    assert!(!scene.is_active());
    assert_eq!(scene.step(), None);
    assert_eq!(scene.current_visual(), None);
}

#[test]
fn scene_finishes_after_its_frames() {
    let mut scene = Scene::new(false);
    scene.add_frame(Frame::new(visual('a'), 2));
    scene.add_frame(Frame::new(visual('b'), 1));
    assert_eq!(scene.frames().len(), 2);
    assert!(scene.activate());
    assert_eq!(scene.step(), Some(visual('a')));
    assert!(scene.is_active());
    assert_eq!(scene.step(), Some(visual('a')));
    assert!(scene.is_active());
    assert_eq!(scene.step(), Some(visual('b')));
    assert!(!scene.is_active());
    assert!(scene.is_finished());
    assert_eq!(scene.step(), None);
    assert_eq!(scene.current_visual(), Some(&visual('b')));
}

#[test]
fn looping_scene_reports_finished_while_running() {
    let mut scene = Scene::with_frames(vec![Frame::new(visual('a'), 1), Frame::new(visual('b'), 1)], true);
    assert!(scene.activate());
    let shown: Vec<Option<CharacterVisual>> = (0..5).map(|_| scene.step()).collect();
    assert_eq!(
        shown,
        vec![Some(visual('a')), Some(visual('b')), Some(visual('a')), Some(visual('b')), Some(visual('a'))]
    );
    assert!(scene.is_active());
    assert!(scene.is_finished());
}

#[test]
fn one_frame_looping_scene_is_finished_after_a_step() {
    let mut scene = Scene::with_frames(vec![Frame::new(visual('x'), 1)], true);
    assert!(scene.activate());
    assert!(!scene.is_finished());
    assert_eq!(scene.step(), Some(visual('x')));
    assert!(scene.is_finished());
    assert!(scene.is_active());
    assert_eq!(scene.step(), Some(visual('x')));
    assert!(scene.is_finished());
}

#[test]
fn deactivated_scene_holds_still() {
    let mut scene = Scene::with_frames(vec![Frame::new(visual('a'), 3)], false);
    scene.activate();
    scene.step();
    scene.deactivate();
    for _ in 0..4 {
        assert_eq!(scene.step(), None);
    }
    assert!(!scene.is_finished());
    assert!(scene.activate());
    assert!(scene.is_active());
}

#[test]
fn animation_shows_the_scene() {
    let mut animation = Animation::new('x', Style::default());
    assert_eq!(animation.current_visual(), &visual('x'));
    assert_eq!(animation.step(), None);
    let scene = Scene::with_frames(vec![Frame::new(visual('a'), 1), Frame::new(visual('b'), 1)], false);
    assert!(animation.activate_scene(scene));
    assert_eq!(animation.current_visual(), &visual('a'));
    assert_eq!(animation.step(), Some(visual('a')));
    assert_eq!(animation.step(), Some(visual('b')));
    assert_eq!(animation.current_visual(), &visual('b'));
    assert!(animation.active_scene().map_or(false, |scene| scene.is_finished()));
    assert_eq!(animation.step(), None);
    assert_eq!(animation.current_visual(), &visual('b'));
}

#[test]
fn animation_refuses_an_empty_scene() {
    let mut animation = Animation::new('x', Style::default());
    assert!(!animation.activate_scene(Scene::new(true)));
    assert!(animation.active_scene().is_none());
    assert_eq!(animation.current_visual(), &visual('x'));
}

#[test]
fn set_appearance_and_deactivate() {
    let mut animation = Animation::new('x', Style::default());
    animation.activate_scene(Scene::with_frames(vec![Frame::new(visual('a'), 4)], true));
    animation.set_appearance('q', Style::default());
    assert_eq!(animation.current_visual(), &visual('q'));
    assert!(animation.active_scene().is_some());
    if let Some(scene) = animation.active_scene_mut() {
        scene.deactivate();
    }
    assert_eq!(animation.step(), None);
    animation.deactivate();
    assert!(animation.active_scene().is_none());
    assert_eq!(animation.current_visual(), &visual('q'));
}

#[test]
fn waypoint_and_id() {
    assert_eq!(Waypoint::new(Coord::new(1, 2)).coord, Coord::new(1, 2));
    assert!(CharacterId(1) < CharacterId(2));
}

#[test]
fn clear_restores_the_latest_blank() {
    let mut canvas = Canvas::new(3, 2);
    canvas.clear_with(cell('k'));
    assert!(canvas.set(Coord::new(1, 1), cell('x')));
    assert!(canvas.set_symbol(Coord::new(0, 0), 'y'));
    canvas.clear();
    for y in 0..2 {
        for x in 0..3 {
            assert_eq!(canvas.get(Coord::new(x, y)), Some(&cell('k')));
        }
    }
    let once = canvas.render();
    canvas.clear();
    assert_eq!(canvas.render(), once);
    assert_eq!((canvas.width(), canvas.height()), (3, 2));
}

#[test]
fn scene_calls_keep_the_frames() {
    let frames = vec![Frame::new(visual('a'), 2), Frame::new(visual('b'), 1)];
    let mut scene = Scene::with_frames(frames.clone(), false);
    scene.activate();
    scene.step();
    scene.deactivate();
    scene.activate();
    for _ in 0..5 {
        scene.step();
    }
    assert!(scene.is_finished());
    assert_eq!(scene.frames(), &frames[..]);
}

fn without_escapes(text: &str) -> String {
    let mut out = String::new();
    let mut inside = false;
    for c in text.chars() {
        if inside {
            if c == 'm' {
                inside = false;
            }
        } else if c == '\x1b' {
            inside = true;
        } else {
            out.push(c);
        }
    }
    out
}

#[test]
fn render_without_escapes_is_the_symbols_row_by_row() {
    let mut canvas = Canvas::new(3, 2);
    let red = Style::default().with_foreground(Color::rgb(255, 0, 0));
    let bold = Style { bold: true, ..Style::default() }.with_foreground(Color::ansi(4));
    canvas.set(Coord::new(0, 0), Cell { symbol: 'm', style: red });
    canvas.set(Coord::new(2, 0), Cell { symbol: 'c', style: bold });
    canvas.set(Coord::new(1, 1), Cell { symbol: 'd', style: red });
    let text = canvas.render();
    assert_ne!(text, "m c\n d ");
    assert_eq!(without_escapes(&text), "m c\n d ");
}
