use logo::command::Command;
use logo::cursor::{Cursor, Fig};
use logo::direction::Direction;
use logo::point::Point;
use logo::turning_direction::TurningDirection;

fn line(x1: i64, y1: i64, x2: i64, y2: i64) -> Fig {
    Fig::Line { x1, y1, x2, y2, width: String::from("2"), color: (0, 0, 0) }
}

fn run(cursor: &mut Cursor, text: &str) -> Option<Fig> {
    let command = Command::from_line(text).unwrap();
    assert!(command.is_finished());
    cursor.apply_command(&command)
}

#[test]
fn four_turns_restore_the_heading() {
    for d in [Direction::EAST, Direction::NORTH, Direction::WEST, Direction::SOUTH] {
        let l = TurningDirection::LEFT;
        let r = TurningDirection::RIGHT;
        assert_eq!(d.rotate(&l).rotate(&l).rotate(&l).rotate(&l), d);
        assert_eq!(d.rotate(&r).rotate(&r).rotate(&r).rotate(&r), d);
        assert_eq!(d.rotate(&l).rotate(&r), d);
        assert_eq!(d.rotate(&r).rotate(&l), d);
    }
}

#[test]
fn left_walks_the_cycle_forwards() {
    let l = TurningDirection::LEFT;
    let r = TurningDirection::RIGHT;
    assert_eq!(Direction::EAST.rotate(&l), Direction::NORTH);
    assert_eq!(Direction::NORTH.rotate(&l), Direction::WEST);
    assert_eq!(Direction::WEST.rotate(&l), Direction::SOUTH);
    assert_eq!(Direction::SOUTH.rotate(&l), Direction::EAST);
    assert_eq!(Direction::EAST.rotate(&r), Direction::SOUTH);
    assert_eq!(Direction::SOUTH.rotate(&r), Direction::WEST);
}

#[test]
fn next_wraps_around_in_both_directions() {
    assert_eq!(Direction::EAST._next(0), Direction::EAST);
    assert_eq!(Direction::EAST._next(5), Direction::NORTH);
    assert_eq!(Direction::EAST._next(-1), Direction::SOUTH);
    assert_eq!(Direction::NORTH._next(-6), Direction::SOUTH);
    assert_eq!(Direction::SOUTH._next(i32::MAX), Direction::WEST);
    assert_eq!(Direction::EAST._next(i32::MIN), Direction::EAST);
}

#[test]
fn unit_steps() {
    assert_eq!(Direction::EAST.value(), Point { x: 1, y: 0 });
    assert_eq!(Direction::NORTH.value(), Point { x: 0, y: -1 });
    assert_eq!(Direction::WEST.value(), Point { x: -1, y: 0 });
    assert_eq!(Direction::SOUTH.value(), Point { x: 0, y: 1 });
}

#[test]
fn a_new_cursor() {
    let c = Cursor::new(320, 320);
    assert_eq!(c.position(), Point { x: 320, y: 320 });
    assert_eq!(c.heading(), Direction::EAST);
    assert!(c.is_writing());
    assert_eq!(c.width(), "2");
    assert_eq!(c.color(), (0, 0, 0));
}

#[test]
fn aliases_move_the_cursor_alike() {
    let mut a = Cursor::new(0, 0);
    let mut b = Cursor::new(0, 0);
    assert_eq!(run(&mut a, "F 10"), run(&mut b, "FORWARD 10"));
    assert_eq!(a.position(), b.position());
    assert_eq!(a.position(), Point { x: 10, y: 0 });
}

#[test]
fn forward_draws_with_the_pen_down_only() {
    let mut c = Cursor::new(5, 5);
    assert_eq!(run(&mut c, "PENUP"), None);
    assert!(!c.is_writing());
    assert_eq!(run(&mut c, "F 7"), None);
    assert_eq!(c.position(), Point { x: 12, y: 5 });
    assert_eq!(run(&mut c, "PENDOWN"), None);
    assert_eq!(run(&mut c, "L"), None);
    assert_eq!(run(&mut c, "F 3"), Some(line(12, 5, 12, 2)));
    assert_eq!(c.position(), Point { x: 12, y: 2 });
}

#[test]
fn strokes_carry_width_and_colour() {
    let mut c = Cursor::new(0, 0);
    assert_eq!(run(&mut c, "S 4.5"), None);
    assert_eq!(run(&mut c, "C 0x102030"), None);
    assert_eq!(c.width(), "4.5");
    assert_eq!(c.color(), (16, 32, 48));
    assert_eq!(
        run(&mut c, "F 1"),
        Some(Fig::Line { x1: 0, y1: 0, x2: 1, y2: 0, width: String::from("4.5"), color: (16, 32, 48) })
    );
}

#[test]
fn repeat_zero_does_nothing() {
    let mut c = Cursor::new(3, 4);
    assert_eq!(run(&mut c, "REPEAT 0 [ FORWARD 10 ]"), None);
    assert_eq!(c.position(), Point { x: 3, y: 4 });
    assert_eq!(c.heading(), Direction::EAST);
}

#[test]
fn repeat_without_strokes_gives_no_figure() {
    let mut c = Cursor::new(0, 0);
    assert_eq!(run(&mut c, "REPEAT 3 [ LEFT ]"), None);
    assert_eq!(c.heading(), Direction::SOUTH);
    assert_eq!(run(&mut c, "REPEAT 2 [ PENUP F 4 ]"), None);
    assert_eq!(c.position(), Point { x: 0, y: 8 });
}

#[test]
fn repeat_three_times_forward_and_right() {
    let mut c = Cursor::new(0, 0);
    let fig = run(&mut c, "REPEAT 3 [ FORWARD 10 RIGHT ]");
    assert_eq!(
        fig,
        Some(Fig::Multiple(vec![line(0, 0, 10, 0), line(10, 0, 10, 10), line(10, 10, 0, 10)]))
    );
    assert_eq!(c.position(), Point { x: 0, y: 10 });
    assert_eq!(c.heading(), Direction::NORTH);
}

#[test]
fn nested_repeats_run_inner_then_outer() {
    let mut c = Cursor::new(0, 0);
    let fig = run(&mut c, "REPEAT 2 [ REPEAT 2 [ FORWARD 5 ] LEFT ]");
    let first = Fig::Multiple(vec![line(0, 0, 5, 0), line(5, 0, 10, 0)]);
    let second = Fig::Multiple(vec![line(10, 0, 10, -5), line(10, -5, 10, -10)]);
    assert_eq!(fig, Some(Fig::Multiple(vec![first, second])));
    assert_eq!(c.position(), Point { x: 10, y: -10 });
    assert_eq!(c.heading(), Direction::WEST);
}

#[test]
fn coordinates_stop_at_the_end_of_their_range() {
    let mut c = Cursor::new(i64::MAX - 5, i64::MIN + 2);
    assert_eq!(
        c.move_forwards(10),
        Some(line(i64::MAX - 5, i64::MIN + 2, i64::MAX, i64::MIN + 2))
    );
    c.rotate(&TurningDirection::LEFT);
    c.stop_writing();
    assert_eq!(c.move_forwards(4294967295), None);
    assert_eq!(c.position(), Point { x: i64::MAX, y: i64::MIN });
    c.start_writing();
    assert!(c.is_writing());
}

#[test]
fn cursor_setters() {
    let mut c = Cursor::new(0, 0);
    c.set_size("7");
    c.set_color(1, 2, 3);
    let p = Point { x: 1, y: 2 };
    let q = Point { x: 3, y: 4 };
    assert_eq!(
        c.draw_line(&p, &q),
        Fig::Line { x1: 1, y1: 2, x2: 3, y2: 4, width: String::from("7"), color: (1, 2, 3) }
    );
    let body = vec![Command::Forward(2), Command::Left];
    assert_eq!(
        c.repeat(2, &body),
        Some(Fig::Multiple(vec![
            Fig::Line { x1: 0, y1: 0, x2: 2, y2: 0, width: String::from("7"), color: (1, 2, 3) },
            Fig::Line { x1: 2, y1: 0, x2: 2, y2: -2, width: String::from("7"), color: (1, 2, 3) },
        ]))
    );
}

#[test]
fn repeating_five_times_is_twice_and_then_three_times() {
    let mut whole = Cursor::new(0, 0);
    let mut parts = Cursor::new(0, 0);
    let all = run(&mut whole, "REPEAT 5 [ F 3 L F 1 ]");
    let first = run(&mut parts, "REPEAT 2 [ F 3 L F 1 ]");
    let second = run(&mut parts, "REPEAT 3 [ F 3 L F 1 ]");
    assert_eq!(whole.position(), parts.position());
    assert_eq!(whole.heading(), parts.heading());
    assert_eq!(whole.position(), Point { x: 3, y: -1 });
    match (all, first, second) {
        (Some(Fig::Multiple(a)), Some(Fig::Multiple(mut b)), Some(Fig::Multiple(c))) => {
            b.extend(c);
            assert_eq!(a, b);
            assert_eq!(a.len(), 10);
        }
        _ => panic!("each of the three draws strokes"),
    }
}
