use visibility_path::geometry::edge_cost;
use visibility_path::point_map::PointMap;
use visibility_path::search::{find_path, relax};
use visibility_path::types::{Position, Segment};

fn seg(x1: i32, y1: i32, x2: i32, y2: i32) -> Segment {
    Segment { start: Position { x: x1, y: y1 }, end: Position { x: x2, y: y2 } }
}

fn pos(x: i32, y: i32) -> Position {
    Position { x, y }
}

#[test]
fn no_obstacles() {
    let start = Position { x: 0, y: 0 };
    let end = Position { x: 10, y: 10 };
    let segments: [Segment; 0] = [];
    let got = find_path(start, &segments, end);
    assert_eq!(got, Some(vec![
        Position { x: 0, y: 0 },
        Position { x: 10, y: 10 },
    ]))
}

#[test]
fn direct_path_with_obstacles() {
    let start = Position { x: 0, y: 0 };
    let end = Position { x: 10, y: 10 };
    let segments = [
        Segment {
            start: Position { x: 5, y: -1 },
            end: Position { x: 5, y: 4 },
        }, Segment {
            start: Position { x: 6, y: 5 },
            end: Position { x: 6, y: 0 },
        },
    ];
    let got = find_path(start, &segments, end);
    assert_eq!(got, Some(vec![
        Position { x: 0, y: 0 },
        Position { x: 10, y: 10 },
    ]))
}

#[test]
fn indirect_path_with_obstacles() {
    let start = Position { x: 0, y: 0 };
    let end = Position { x: 10, y: 10 };
    let segments = [
        Segment {
            start: Position { x: 5, y: -1000 },
            end: Position { x: 5, y: 10 },
        }, Segment {
            start: Position { x: 6, y: 1000 },
            end: Position { x: 6, y: 0 },
        },
    ];
    let got = find_path(start, &segments, end);
    assert_eq!(got, Some(vec![
        Position { x: 0, y: 0 },
        Position { x: 5, y: 10 },
        Position { x: 6, y: 0 },
        Position { x: 10, y: 10 },
    ]))
}

fn maze() -> Vec<Segment> {
    vec![
        seg(-100, -1, 100, -1),
        seg(11, 100, 11, -100),
        seg(100, 11, -100, 11),
        seg(-1, 100, -1, -100),
        seg(1, 9, 1, -100),
        seg(3, 9, 3, -100),
        seg(5, 9, 5, -100),
        seg(7, 9, 7, -100),
        seg(9, 9, 9, -100),
        seg(2, 100, 2, 1),
        seg(4, 100, 4, 1),
        seg(6, 100, 6, 1),
        seg(8, 100, 8, 1),
    ]
}

#[test]
fn test_maze() {
    let start = Position { x: 0, y: 0 };
    let end = Position { x: 10, y: 10 };
    let segments = maze();
    let got = find_path(start, &segments, end);
    assert_eq!(got, Some(vec![
        Position { x: 0, y: 0 },
        Position { x: 1, y: 9 },
        Position { x: 2, y: 1 },
        Position { x: 3, y: 9 },
        Position { x: 4, y: 1 },
        Position { x: 5, y: 9 },
        Position { x: 6, y: 1 },
        Position { x: 7, y: 9 },
        Position { x: 8, y: 1 },
        Position { x: 9, y: 9 },
        Position { x: 10, y: 10 },
    ]))
}

fn ring() -> Vec<Segment> {
    vec![
        seg(-1, 0, 11, 0),
        seg(10, 11, 10, -1),
        seg(11, 10, -1, 10),
        seg(0, 11, 0, -1),
    ]
}

#[test]
fn enclosed_destination_is_unreachable() {
    let got = find_path(pos(100, 100), &ring(), pos(5, 5));
    assert_eq!(got, None);
}

#[test]
fn enclosed_start_cannot_leave() {
    let got = find_path(pos(5, 5), &ring(), pos(100, 100));
    assert_eq!(got, None);
}

#[test]
fn start_equal_to_destination() {
    let got = find_path(pos(3, 4), &ring(), pos(3, 4));
    assert_eq!(got, Some(vec![pos(3, 4)]));
}

fn length(path: &[Position]) -> f64 {
    let mut total = 0.0f64;
    for w in path.windows(2) {
        let dx = (w[1].x - w[0].x) as f64;
        let dy = (w[1].y - w[0].y) as f64;
        total += (dx * dx + dy * dy).sqrt();
    }
    total
}

fn mirror(p: Position) -> Position {
    pos(p.y, p.x)
}

#[test]
fn mirrored_search_has_equal_length() {
    // Symmetric under the exchange of x and y.
    let obstacles = vec![seg(2, 8, 8, 2)];
    let a = pos(0, 1);
    let b = pos(10, 9);
    let there = find_path(a, &obstacles, b).unwrap();
    let back = find_path(mirror(a), &obstacles, mirror(b)).unwrap();
    assert_eq!(there[0], a);
    assert_eq!(back[0], mirror(a));
    assert_eq!(there.len(), 3);
    assert_eq!(back.len(), 3);
    assert!((length(&there) - length(&back)).abs() < 1e-9);
}

#[test]
fn relax_never_raises_a_distance() {
    let mut dist: PointMap<u128> = PointMap::new();
    let mut prev: PointMap<Position> = PointMap::new();
    assert!(relax(&mut dist, &mut prev, pos(0, 0), pos(1, 1), 50));
    assert!(!relax(&mut dist, &mut prev, pos(0, 0), pos(1, 1), 70));
    assert_eq!(dist.get(pos(1, 1)), Some(50));
    assert!(relax(&mut dist, &mut prev, pos(2, 2), pos(1, 1), 30));
    assert_eq!(dist.get(pos(1, 1)), Some(30));
    assert_eq!(prev.get(pos(1, 1)), Some(pos(2, 2)));
    assert!(!relax(&mut dist, &mut prev, pos(0, 0), pos(1, 1), 30));
    assert_eq!(dist.len(), 1);
}

fn cost(path: &[Position]) -> u128 {
    path.windows(2).map(|w| edge_cost(w[0], w[1]) as u128).sum()
}

fn mirror_segment(s: &Segment) -> Segment {
    Segment { start: mirror(s.start), end: mirror(s.end) }
}

#[test]
fn mirrored_scene_has_equal_cost() {
    let obstacles = vec![seg(3, -50, 3, 6), seg(-50, 3, 6, 3), seg(8, 2, 2, 8), seg(-4, 9, 1, 20)];
    let mirrored: Vec<Segment> = obstacles.iter().map(mirror_segment).collect();
    let a = pos(0, 0);
    let b = pos(10, 12);
    let there = find_path(a, &obstacles, b).unwrap();
    let back = find_path(mirror(a), &mirrored, mirror(b)).unwrap();
    assert_eq!(*there.last().unwrap(), b);
    assert_eq!(*back.last().unwrap(), mirror(b));
    assert_eq!(cost(&there), cost(&back));
}

#[test]
fn shortest_detour_is_taken() {
    // Two ways round a wall; the upper end is nearer.
    let obstacles = vec![seg(5, -30, 5, 3)];
    let got = find_path(pos(0, 0), &obstacles, pos(10, 0)).unwrap();
    assert_eq!(got, vec![pos(0, 0), pos(5, 3), pos(10, 0)]);
}

#[test]
fn clear_line_gives_direct_path_past_point_obstacle() {
    let got = find_path(pos(0, 0), &[seg(1, 1, 1, 1)], pos(2, 2));
    assert_eq!(got, Some(vec![pos(0, 0), pos(2, 2)]));
}

#[test]
fn clear_line_gives_direct_path_along_wall() {
    let got = find_path(pos(0, 0), &[seg(1, 1, 3, 3)], pos(4, 4));
    assert_eq!(got, Some(vec![pos(0, 0), pos(4, 4)]));
}

#[test]
fn hops_through_collinear_points_cost_no_less() {
    let direct = edge_cost(pos(0, 0), pos(2, 2)) as u128;
    let split = edge_cost(pos(0, 0), pos(1, 1)) as u128 + edge_cost(pos(1, 1), pos(2, 2)) as u128;
    assert!(split >= direct);
}

#[test]
fn symmetric_scene_gives_equal_costs() {
    // The list is its own mirror image, up to order and direction.
    let obstacles = vec![seg(3, -50, 3, 6), seg(-50, 3, 6, 3), seg(8, 2, 2, 8)];
    let a = pos(1, -2);
    let b = pos(10, 12);
    let there = find_path(a, &obstacles, b).unwrap();
    let back = find_path(mirror(a), &obstacles, mirror(b)).unwrap();
    assert_eq!(there[0], a);
    assert_eq!(back[0], mirror(a));
    assert_eq!(cost(&there), cost(&back));
}
