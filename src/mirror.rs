use vstd::prelude::*;

use crate::geometry::{cross, dist2_spec, dot};
use crate::line_of_sight::{blocks, clear, lemma_blocks_reversed, within_closed, within_open};
use crate::reachable::{candidates, is_step};
use crate::geometry::hop_cost;
use crate::search::{is_path, is_shortest_path, path_cost, reachable};
use crate::types::{Position, Segment};

verus! {

/// Reflection of a point across the diagonal `x == y`.
pub open spec fn mirror(p: Position) -> Position {
    Position { x: p.y, y: p.x }
}

pub open spec fn mirror_segment(s: Segment) -> Segment {
    Segment { start: mirror(s.start), end: mirror(s.end) }
}

pub open spec fn mirror_obstacles(obstacles: Seq<Segment>) -> Seq<Segment> {
    obstacles.map_values(|s: Segment| mirror_segment(s))
}

pub open spec fn mirror_path(path: Seq<Position>) -> Seq<Position> {
    path.map_values(|p: Position| mirror(p))
}

proof fn lemma_mirror_injective(p: Position, q: Position)
    ensures
        mirror(p) == mirror(q) <==> p == q,
{
}

/// An obstacle blocks a sight line exactly when its mirror image blocks the mirrored line.
pub proof fn lemma_blocks_mirror(start: Position, obstacle: Segment, destination: Position)
    ensures
        blocks(mirror(start), mirror_segment(obstacle), mirror(destination)) == blocks(start, obstacle, destination),
{
    let o = obstacle;
    let p1 = (o.start.x as int, o.start.y as int);
    let dir1 = (o.end.x - o.start.x, o.end.y - o.start.y);
    let p2 = (start.x as int, start.y as int);
    let dir2 = (destination.x - start.x, destination.y - start.y);
    let den = cross(dir1, dir2);
    let t_num = cross(p2, dir2) - cross(p1, dir2);
    let len2 = dot(dir2, dir2);
    let dt = dot((p1.0 - p2.0, p1.1 - p2.1), dir2);
    let e = dot(dir1, dir2);
    let u_num = dt * den + t_num * e;
    // In the mirror: den and t_num change sign, the dot products stay.
    assert(dt * -den + -t_num * e == -u_num) by (nonlinear_arith)
        requires u_num == dt * den + t_num * e;
    assert(-den * len2 == -(den * len2)) by (nonlinear_arith);
    if den != 0 && len2 != 0 {
        assert(den * len2 != 0) by (nonlinear_arith) requires den != 0, len2 != 0;
    }
    lemma_mirror_injective(destination, o.start);
    lemma_mirror_injective(destination, o.end);
}

/// A point is a candidate exactly when its mirror image is a candidate of the mirrored
/// obstacles.
proof fn lemma_candidates_mirror(obstacles: Seq<Segment>, destination: Position, n: Position)
    ensures
        candidates(mirror_obstacles(obstacles), mirror(destination)).contains(mirror(n))
            == candidates(obstacles, destination).contains(n),
{
    let c = candidates(obstacles, destination);
    let m = candidates(mirror_obstacles(obstacles), mirror(destination));
    assert(m.len() == c.len());
    assert forall|k: int| 0 <= k < c.len() implies m[k] == mirror(#[trigger] c[k]) by {
        if k > 0 && k % 2 == 1 {
            assert(mirror_obstacles(obstacles)[(k - 1) / 2] == mirror_segment(obstacles[(k - 1) / 2]));
        } else if k > 0 {
            assert(mirror_obstacles(obstacles)[(k - 2) / 2] == mirror_segment(obstacles[(k - 2) / 2]));
        }
    }
    if c.contains(n) {
        let k = choose|k: int| 0 <= k < c.len() && c[k] == n;
        assert(m[k] == mirror(n));
    }
    if m.contains(mirror(n)) {
        let k = choose|k: int| 0 <= k < m.len() && m[k] == mirror(n);
        assert(m[k] == mirror(c[k]));
        lemma_mirror_injective(c[k], n);
    }
}

/// One step maps to one step of the mirrored scene, and back.
pub proof fn lemma_step_mirror(from: Position, obstacles: Seq<Segment>, destination: Position, to: Position)
    ensures
        is_step(mirror(from), mirror_obstacles(obstacles), mirror(destination), mirror(to))
            == is_step(from, obstacles, destination, to),
{
    lemma_candidates_mirror(obstacles, destination, to);
    let mo = mirror_obstacles(obstacles);
    assert forall|i: int| 0 <= i < obstacles.len() implies #[trigger] blocks(
        mirror(from),
        mo[i],
        mirror(to),
    ) == blocks(from, obstacles[i], to) by {
        lemma_blocks_mirror(from, obstacles[i], to);
    }
    if clear(mirror(from), mo, mirror(to)) {
        assert forall|i: int| 0 <= i < obstacles.len() implies !#[trigger] blocks(from, obstacles[i], to) by {
            assert(blocks(mirror(from), mo[i], mirror(to)) == blocks(from, obstacles[i], to));
        }
    }
}

/// Mirroring a path across the diagonal gives a path among the mirrored obstacles, from the
/// mirrored start to the mirrored destination, whose every hop has the same length. So a
/// scene and its mirror image have paths of the same lengths, and a destination is reachable
/// exactly when its mirror image is reachable in the mirrored scene.
pub proof fn lemma_mirrored_path(path: Seq<Position>, start: Position, obstacles: Seq<Segment>, destination: Position)
    requires
        is_path(path, start, obstacles, destination),
    ensures
        is_path(mirror_path(path), mirror(start), mirror_obstacles(obstacles), mirror(destination)),
        forall|i: int|
            0 <= i < path.len() - 1 ==> dist2_spec(#[trigger] mirror_path(path)[i], mirror_path(path)[i + 1])
                == dist2_spec(path[i], path[i + 1]),
        reachable(mirror(start), mirror_obstacles(obstacles), mirror(destination)),
{
    let mp = mirror_path(path);
    assert forall|i: int| 0 <= i < mp.len() - 1 implies #[trigger] is_step(
        mp[i],
        mirror_obstacles(obstacles),
        mirror(destination),
        mp[i + 1],
    ) by {
        assert(is_step(path[i], obstacles, destination, path[i + 1]));
        lemma_step_mirror(path[i], obstacles, destination, path[i + 1]);
    }
    assert(mp.last() == mirror(destination));
    assert(is_path(mp, mirror(start), mirror_obstacles(obstacles), mirror(destination)));
}

/// The mirror of the mirrored scene is the scene itself.
proof fn lemma_mirror_twice(obstacles: Seq<Segment>)
    ensures
        mirror_obstacles(mirror_obstacles(obstacles)) == obstacles,
{
    assert(mirror_obstacles(mirror_obstacles(obstacles)) =~= obstacles);
}

/// A destination is reachable exactly when its mirror image is reachable from the mirrored
/// start among the mirrored obstacles.
pub proof fn lemma_reachable_mirror(start: Position, obstacles: Seq<Segment>, destination: Position)
    ensures
        reachable(mirror(start), mirror_obstacles(obstacles), mirror(destination))
            == reachable(start, obstacles, destination),
{
    if reachable(start, obstacles, destination) {
        let path = choose|path: Seq<Position>| is_path(path, start, obstacles, destination);
        lemma_mirrored_path(path, start, obstacles, destination);
    }
    if reachable(mirror(start), mirror_obstacles(obstacles), mirror(destination)) {
        let path = choose|path: Seq<Position>|
            is_path(path, mirror(start), mirror_obstacles(obstacles), mirror(destination));
        lemma_mirrored_path(path, mirror(start), mirror_obstacles(obstacles), mirror(destination));
        lemma_mirror_twice(obstacles);
        assert(mirror(mirror(start)) == start);
        assert(mirror(mirror(destination)) == destination);
    }
}

/// Mirroring keeps the cost of a path.
pub proof fn lemma_mirror_cost(path: Seq<Position>)
    ensures
        path_cost(mirror_path(path)) == path_cost(path),
    decreases path.len(),
{
    if path.len() > 1 {
        lemma_mirror_cost(path.drop_last());
        assert(mirror_path(path).drop_last() =~= mirror_path(path.drop_last()));
        let (p, q) = (path[path.len() - 2], path.last());
        assert(dist2_spec(mirror(p), mirror(q)) == dist2_spec(p, q));
        assert(hop_cost(mirror(p), mirror(q)) == hop_cost(p, q));
    }
}

/// A shortest path of a scene and a shortest path of its mirror image, between mirrored
/// ends, have the same cost.
pub proof fn lemma_mirrored_shortest_paths(
    path: Seq<Position>,
    mirrored: Seq<Position>,
    start: Position,
    obstacles: Seq<Segment>,
    destination: Position,
)
    requires
        is_shortest_path(path, start, obstacles, destination),
        is_shortest_path(mirrored, mirror(start), mirror_obstacles(obstacles), mirror(destination)),
    ensures
        path_cost(path) == path_cost(mirrored),
{
    lemma_mirrored_path(path, start, obstacles, destination);
    lemma_mirror_cost(path);
    lemma_mirrored_path(mirrored, mirror(start), mirror_obstacles(obstacles), mirror(destination));
    lemma_mirror_cost(mirrored);
    lemma_mirror_twice(obstacles);
    assert(mirror(mirror(start)) == start);
    assert(mirror(mirror(destination)) == destination);
    assert(is_path(mirror_path(path), mirror(start), mirror_obstacles(obstacles), mirror(destination)));
    assert(is_path(mirror_path(mirrored), start, obstacles, destination));
}

/// Two segments with the same ends, in either direction.
pub open spec fn same_segment(a: Segment, b: Segment) -> bool {
    a == b || (a.start == b.end && a.end == b.start)
}

/// `s` is, up to direction, one of `segments`.
pub open spec fn has_match(s: Segment, segments: Seq<Segment>) -> bool {
    exists|j: int| 0 <= j < segments.len() && same_segment(s, #[trigger] segments[j])
}

/// Each obstacle of either list is, up to direction, an obstacle of the other.
pub open spec fn same_scene(first: Seq<Segment>, second: Seq<Segment>) -> bool {
    &&& forall|i: int| 0 <= i < first.len() ==> #[trigger] has_match(first[i], second)
    &&& forall|j: int| 0 <= j < second.len() ==> #[trigger] has_match(second[j], first)
}

proof fn lemma_same_scene_step(first: Seq<Segment>, second: Seq<Segment>, from: Position, destination: Position, to: Position)
    requires
        same_scene(first, second),
        is_step(from, first, destination, to),
    ensures
        is_step(from, second, destination, to),
{
    let c1 = candidates(first, destination);
    let c2 = candidates(second, destination);
    let c = choose|c: int| 0 <= c < c1.len() && c1[c] == to;
    if c == 0 {
        assert(c2[0] == to);
    } else {
        let i = if c % 2 == 1 { (c - 1) / 2 } else { (c - 2) / 2 };
        assert(0 <= i < first.len());
        assert(has_match(first[i], second));
        let j = choose|j: int| 0 <= j < second.len() && same_segment(first[i], second[j]);
        if to == second[j].start {
            assert(c2[2 * j + 1] == to);
        } else {
            assert(c2[2 * j + 2] == to);
        }
    }
    assert forall|j: int| 0 <= j < second.len() implies !#[trigger] blocks(from, second[j], to) by {
        assert(has_match(second[j], first));
        let i = choose|i: int| 0 <= i < first.len() && same_segment(second[j], first[i]);
        assert(!blocks(from, first[i], to));
        lemma_blocks_reversed(from, first[i], to);
    }
}

/// A shortest path stays one when the obstacles are listed in another order or direction.
pub proof fn lemma_same_scene_shortest(path: Seq<Position>, start: Position, first: Seq<Segment>, second: Seq<Segment>, destination: Position)
    requires
        same_scene(first, second),
        is_shortest_path(path, start, first, destination),
    ensures
        is_shortest_path(path, start, second, destination),
{
    assert forall|q: Seq<Position>, a: Seq<Segment>, b: Seq<Segment>|
        same_scene(a, b) && #[trigger] is_path(q, start, a, destination) implies #[trigger] is_path(q, start, b, destination) by {
        assert forall|i: int| 0 <= i < q.len() - 1 implies #[trigger] is_step(q[i], b, destination, q[i + 1]) by {
            assert(is_step(q[i], a, destination, q[i + 1]));
            lemma_same_scene_step(a, b, q[i], destination, q[i + 1]);
        }
    }
    assert(is_path(path, start, second, destination));
    assert forall|other: Seq<Position>| #[trigger] is_path(other, start, second, destination)
        implies path_cost(path) <= path_cost(other) by {
        assert(is_path(other, start, first, destination));
    }
}

/// For obstacles symmetric under the exchange of `x` and `y` (the mirrored list describes
/// the same obstacles), a shortest path between two points and a shortest path between
/// their mirror images have the same cost.
pub proof fn lemma_symmetric_scene(
    path: Seq<Position>,
    mirrored: Seq<Position>,
    start: Position,
    obstacles: Seq<Segment>,
    destination: Position,
)
    requires
        same_scene(mirror_obstacles(obstacles), obstacles),
        is_shortest_path(path, start, obstacles, destination),
        is_shortest_path(mirrored, mirror(start), obstacles, mirror(destination)),
    ensures
        path_cost(path) == path_cost(mirrored),
{
    lemma_same_scene_shortest(mirrored, mirror(start), obstacles, mirror_obstacles(obstacles), mirror(destination));
    lemma_mirrored_shortest_paths(path, mirrored, start, obstacles, destination);
}

} // verus!
