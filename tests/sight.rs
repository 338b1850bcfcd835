use visibility_path::line_of_sight::{line_of_sight, line_of_sight_single};
use visibility_path::reachable::reachable_positions;
use visibility_path::types::{Position, Segment};

fn pos(x: i32, y: i32) -> Position {
    Position { x, y }
}

fn seg(x1: i32, y1: i32, x2: i32, y2: i32) -> Segment {
    Segment { start: pos(x1, y1), end: pos(x2, y2) }
}

#[test]
fn has_no_line_of_sight() {
    let got = line_of_sight(
        Position { x: 0, y: 0 },
        &[Segment {
            start: Position { x: 5, y: 0 },
            end: Position { x: 5, y: 10 },
        }],
        Position { x: 10, y: 10 },
    );
    assert_eq!(got, false)
}

#[test]
fn has_line_of_sight1() {
    let got = line_of_sight(
        Position { x: 0, y: 0 },
        &[Segment {
            start: Position { x: 5, y: 9 },
            end: Position { x: 5, y: 8 },
        }],
        Position { x: 10, y: 10 },
    );
    assert_eq!(got, true)
}

#[test]
fn has_line_of_sight2() {
    let got = line_of_sight(
        Position { x: 0, y: 0 },
        &[Segment {
            start: Position { x: 11, y: 20 },
            end: Position { x: 11, y: -10 },
        }],
        Position { x: 10, y: 10 },
    );
    assert_eq!(got, true)
}

#[test]
fn empty_obstacle_set_never_blocks() {
    assert!(line_of_sight(pos(0, 0), &[], pos(-7, 3)));
}

#[test]
fn destination_on_obstacle_endpoint_is_seen() {
    // The sight line ends on the obstacle's own endpoint.
    assert!(line_of_sight_single(pos(0, 0), &seg(5, 5, 5, -5), pos(5, 5)));
    assert!(line_of_sight_single(pos(0, 0), &seg(5, 5, 5, -5), pos(5, -5)));
}

#[test]
fn parallel_obstacle_never_blocks() {
    // Collinear and overlapping, still parallel.
    assert!(line_of_sight_single(pos(0, 0), &seg(2, 0, 8, 0), pos(10, 0)));
    assert!(line_of_sight_single(pos(0, 0), &seg(0, 1, 10, 1), pos(10, 0)));
}

#[test]
fn touching_at_sight_endpoint_never_blocks() {
    // The obstacle passes through the start point.
    assert!(line_of_sight_single(pos(0, 0), &seg(-5, 5, 5, -5), pos(10, 10)));
    // The obstacle passes through the destination point.
    assert!(line_of_sight_single(pos(0, 0), &seg(5, 15, 15, 5), pos(10, 10)));
    // A little further the crossing is interior.
    assert!(!line_of_sight_single(pos(0, 0), &seg(5, 15, 15, 5), pos(11, 11)));
}

#[test]
fn crossing_at_obstacle_end_blocks() {
    // The sight line meets the obstacle's end point in its interior (t = 1).
    assert!(!line_of_sight_single(pos(0, 0), &seg(5, 10, 5, 5), pos(10, 10)));
}

#[test]
fn zero_length_sight_line_is_clear() {
    assert!(line_of_sight_single(pos(4, 4), &seg(0, 0, 8, 8), pos(4, 4)));
}

#[test]
fn reachable_positions_happy_path() {
    let start = Position { x: 0, y: 0 };
    let end = Position { x: 10, y: 10 };
    let segments = [
        Segment {
            start: Position { x: 5, y: -1 },
            end: Position { x: 5, y: 4 },
        }, Segment {
            start: Position { x: 6, y: 5 },
            end: Position { x: 6, y: 0 },
        },
    ];
    let got: Vec<Position> = reachable_positions(start, &segments, end);
    assert_eq!(got, [
        Position { x: 10, y: 10 },
        Position { x: 5, y: -1 },
        Position { x: 5, y: 4 },
        Position { x: 6, y: 5 },
    ]);
}

#[test]
fn no_reachable_pos() {
    let start = Position { x: 5, y: 5 };
    let end = Position { x: 100, y: 100 };
    let segments = [
        seg(-1, 0, 11, 0),
        seg(10, 11, 10, -1),
        seg(11, 10, -1, 10),
        seg(0, 11, 0, -1),
    ];
    let got: Vec<Position> = reachable_positions(start, &segments, end);
    assert_eq!(got, []);
}

#[test]
fn shared_endpoints_are_kept_twice() {
    let segments = [seg(3, 0, 3, 3), seg(3, 3, 6, 3)];
    let got = reachable_positions(pos(0, 0), &segments, pos(-1, -1));
    // (6, 3) is hidden behind the first segment.
    assert_eq!(got, vec![pos(-1, -1), pos(3, 0), pos(3, 3), pos(3, 3)]);
}

#[test]
fn degenerate_obstacle_never_blocks() {
    assert!(line_of_sight(pos(0, 0), &[seg(5, 5, 5, 5)], pos(10, 10)));
    assert!(line_of_sight(pos(0, 10), &[seg(5, 5, 5, 5)], pos(10, 0)));
}
