use vstd::prelude::*;

use crate::geometry::{cross, cross_product, dot};
use crate::types::{Position, Segment};

verus! {

/// `n / d` lies in the closed interval `[0, 1]` (for `d != 0`).
pub open spec fn within_closed(n: int, d: int) -> bool {
    if d > 0 {
        0 <= n <= d
    } else {
        d <= n <= 0
    }
}

/// `n / d` lies in the open interval `(0, 1)` (for `d != 0`).
pub open spec fn within_open(n: int, d: int) -> bool {
    if d > 0 {
        0 < n < d
    } else {
        d < n < 0
    }
}

/// Whether `obstacle` strictly crosses the interior of the sight line from `start` to
/// `destination`.
///
/// The obstacle line is `P1 + t * dir1`, the sight line `P2 + u * dir2`. With
/// `den = dir1 ^ dir2`, `t = (P2 ^ dir2 - P1 ^ dir2) / den` and
/// `u = (P1 - P2 + dir1 * t) . dir2 / (dir2 . dir2)`; the obstacle blocks when
/// `0 <= t <= 1` and `0 < u < 1`. Both ratios are written here with a common denominator.
pub open spec fn blocks(start: Position, obstacle: Segment, destination: Position) -> bool {
    let p1 = (obstacle.start.x as int, obstacle.start.y as int);
    let dir1 = (obstacle.end.x - obstacle.start.x, obstacle.end.y - obstacle.start.y);
    let p2 = (start.x as int, start.y as int);
    let dir2 = (destination.x - start.x, destination.y - start.y);
    let den = cross(dir1, dir2);
    let t_num = cross(p2, dir2) - cross(p1, dir2);
    let len2 = dot(dir2, dir2);
    let u_num = dot((p1.0 - p2.0, p1.1 - p2.1), dir2) * den + t_num * dot(dir1, dir2);
    &&& destination != obstacle.start
    &&& destination != obstacle.end
    &&& den != 0
    &&& within_closed(t_num, den)
    &&& len2 != 0
    &&& within_open(u_num, den * len2)
}

/// No obstacle of `obstacles` blocks the sight line from `start` to `destination`.
pub open spec fn clear(start: Position, obstacles: Seq<Segment>, destination: Position) -> bool {
    forall|i: int| 0 <= i < obstacles.len() ==> !#[trigger] blocks(start, obstacles[i], destination)
}

/// The numerator of `u` over the denominator `den * len2` equals `-(A ^ dir1) * len2`, where
/// `A = P1 - P2`.
proof fn lemma_u_numerator(a: (int, int), dir1: (int, int), dir2: (int, int), p1: (int, int), p2: (int, int))
    requires
        a == (p1.0 - p2.0, p1.1 - p2.1),
    ensures
        dot(a, dir2) * cross(dir1, dir2) + (cross(p2, dir2) - cross(p1, dir2)) * dot(dir1, dir2)
            == -cross(a, dir1) * dot(dir2, dir2),
{
    let t = cross(p2, dir2) - cross(p1, dir2);
    let x = cross(a, dir2);
    assert(t == -x) by (nonlinear_arith)
        requires a == (p1.0 - p2.0, p1.1 - p2.1), t == cross(p2, dir2) - cross(p1, dir2),
            x == cross(a, dir2);
    let e = dot(dir1, dir2);
    assert(t * e == -(x * e)) by (nonlinear_arith)
        requires t == -x;
    lemma_identity(a.0, a.1, dir1.0, dir1.1, dir2.0, dir2.1);
}

proof fn lemma_identity(a1: int, a2: int, b1: int, b2: int, c1: int, c2: int)
    ensures
        (a1 * c1 + a2 * c2) * (b1 * c2 - b2 * c1) + -((a1 * c2 - a2 * c1) * (b1 * c1 + b2 * c2))
            == -(a1 * b2 - a2 * b1) * (c1 * c1 + c2 * c2),
{
    lemma_expand(a1 * c1, a2 * c2, b1 * c2, b2 * c1);
    lemma_expand(a1 * c2, -(a2 * c1), b1 * c1, -(b2 * c2));
    lemma_expand(a2 * b1, -(a1 * b2), c1 * c1, -(c2 * c2));
    lemma_reorder(a1, c1, b1, c2);
    lemma_reorder(a1, c1, b2, c1);
    lemma_reorder(a2, c2, b1, c2);
    lemma_reorder(a2, c2, b2, c1);
    lemma_reorder(a1, c2, b1, c1);
    lemma_reorder(a1, c2, b2, c2);
    lemma_reorder(a2, c1, b1, c1);
    lemma_reorder(a2, c1, b2, c2);
    lemma_reorder(a2, b1, c1, c1);
    lemma_reorder(a2, b1, c2, c2);
    lemma_reorder(a1, b2, c1, c1);
    lemma_reorder(a1, b2, c2, c2);
    assert(-(a1 * c2) * (b1 * c1) == -((a1 * c2) * (b1 * c1))) by (nonlinear_arith);
    assert((a1 * c2) * -(b2 * c2) == -((a1 * c2) * (b2 * c2))) by (nonlinear_arith);
    assert((a2 * c1) * -(b2 * c2) == -((a2 * c1) * (b2 * c2))) by (nonlinear_arith);
    assert(-(a2 * c1) * (b1 * c1) == -((a2 * c1) * (b1 * c1))) by (nonlinear_arith);
    assert(-(a2 * c1) * -(b2 * c2) == (a2 * c1) * (b2 * c2)) by (nonlinear_arith);
    assert(-(a1 * b2) * (c1 * c1) == -((a1 * b2) * (c1 * c1))) by (nonlinear_arith);
    assert(-(a1 * b2) * -(c2 * c2) == (a1 * b2) * (c2 * c2)) by (nonlinear_arith);
    assert((a2 * b1) * -(c2 * c2) == -((a2 * b1) * (c2 * c2))) by (nonlinear_arith);
    assert(c1 * c2 == c2 * c1) by (nonlinear_arith);
    assert(a1 * b1 * (c1 * c2) == a1 * b1 * (c2 * c1));
    assert(a2 * b2 * (c1 * c2) == a2 * b2 * (c2 * c1));
    assert(-(a1 * b2 - a2 * b1) == a2 * b1 + -(a1 * b2));
    assert(-(a1 * b2 - a2 * b1) * (c1 * c1 + c2 * c2) == (a2 * b1 + -(a1 * b2)) * (c1 * c1 - -(c2 * c2)));
    assert((a1 * c2 - a2 * c1) * (b1 * c1 + b2 * c2) == (a1 * c2 + -(a2 * c1)) * (b1 * c1 - -(b2 * c2)));
    let p1 = a1 * b1 * (c1 * c2);
    let p2 = a1 * b2 * (c1 * c1);
    let p3 = a2 * b1 * (c2 * c2);
    let p4 = a2 * b2 * (c1 * c2);
    let p5 = a1 * b2 * (c2 * c2);
    let p6 = a2 * b1 * (c1 * c1);
    assert((a1 * c1 + a2 * c2) * (b1 * c2 - b2 * c1) == p1 - p2 + p3 - p4);
    assert((a1 * c2 - a2 * c1) * (b1 * c1 + b2 * c2) == p1 + p5 - p6 - p4);
    assert(-(a1 * b2 - a2 * b1) * (c1 * c1 + c2 * c2) == p6 + p3 - p2 - p5);
}

proof fn lemma_expand(x: int, y: int, z: int, w: int)
    ensures
        (x + y) * (z - w) == x * z - x * w + y * z - y * w,
{
    assert((x + y) * (z - w) == x * z - x * w + y * z - y * w) by (nonlinear_arith);
}

proof fn lemma_reorder(a: int, c: int, b: int, d: int)
    ensures
        (a * c) * (b * d) == a * b * (c * d),
        (a * c) * (b * d) == (a * b) * (c * d),
{
    assert((a * c) * (b * d) == a * b * (c * d)) by (nonlinear_arith);
}

/// Scaling numerator and denominator by the same positive factor keeps the ratio.
proof fn lemma_within_open_scale(n: int, d: int, k: int)
    requires
        k > 0,
    ensures
        within_open(n * k, d * k) == within_open(n, d),
{
    if d > 0 {
        assert(d * k > 0) by (nonlinear_arith) requires d > 0, k > 0;
        assert((0 < n * k) == (0 < n)) by (nonlinear_arith) requires k > 0;
        assert((n * k < d * k) == (n < d)) by (nonlinear_arith) requires k > 0;
    } else {
        assert(d * k <= 0) by (nonlinear_arith) requires d <= 0, k > 0;
        assert((n * k < 0) == (n < 0)) by (nonlinear_arith) requires k > 0;
        assert((d * k < n * k) == (d < n)) by (nonlinear_arith) requires k > 0;
    }
}

/// Boundary conventions of the single-obstacle test. The obstacle never blocks a sight line
/// that ends on one of the obstacle's endpoints, nor one parallel to the obstacle (which
/// includes every sight line when the obstacle is a single point), nor one
/// whose start or destination lies on the obstacle's line (the two meet at an end of the
/// sight line, where `u` is 0 or 1).
pub proof fn lemma_boundary_conventions(start: Position, obstacle: Segment, destination: Position)
    ensures
        destination == obstacle.start || destination == obstacle.end ==> !blocks(start, obstacle, destination),
        obstacle.start == obstacle.end ==> !blocks(start, obstacle, destination),
        cross(
            (obstacle.end.x - obstacle.start.x, obstacle.end.y - obstacle.start.y),
            (destination.x - start.x, destination.y - start.y),
        ) == 0 ==> !blocks(start, obstacle, destination),
        cross(
            (start.x - obstacle.start.x, start.y - obstacle.start.y),
            (obstacle.end.x - obstacle.start.x, obstacle.end.y - obstacle.start.y),
        ) == 0 ==> !blocks(start, obstacle, destination),
        cross(
            (destination.x - obstacle.start.x, destination.y - obstacle.start.y),
            (obstacle.end.x - obstacle.start.x, obstacle.end.y - obstacle.start.y),
        ) == 0 ==> !blocks(start, obstacle, destination),
{
    let p1 = (obstacle.start.x as int, obstacle.start.y as int);
    let dir1 = (obstacle.end.x - obstacle.start.x, obstacle.end.y - obstacle.start.y);
    let p2 = (start.x as int, start.y as int);
    let dir2 = (destination.x - start.x, destination.y - start.y);
    let a = (p1.0 - p2.0, p1.1 - p2.1);
    let den = cross(dir1, dir2);
    let len2 = dot(dir2, dir2);
    lemma_u_numerator(a, dir1, dir2, p1, p2);
    let u_num = -cross(a, dir1) * len2;
    let s_rel = (start.x - obstacle.start.x, start.y - obstacle.start.y);
    let d_rel = (destination.x - obstacle.start.x, destination.y - obstacle.start.y);
    assert(cross(a, dir1) == -cross(s_rel, dir1)) by (nonlinear_arith)
        requires a == (-s_rel.0, -s_rel.1);
    assert(cross(a, dir1) == -cross(d_rel, dir1) - den) by (nonlinear_arith)
        requires a == (dir2.0 - d_rel.0, dir2.1 - d_rel.1), den == cross(dir1, dir2);
    if obstacle.start == obstacle.end {
        assert(den == 0) by (nonlinear_arith)
            requires den == cross(dir1, dir2), dir1 == (0int, 0int);
    }
    if cross(s_rel, dir1) == 0 {
        assert(u_num == 0) by (nonlinear_arith)
            requires u_num == -cross(a, dir1) * len2, cross(a, dir1) == 0;
    }
    if cross(d_rel, dir1) == 0 {
        assert(u_num == den * len2) by (nonlinear_arith)
            requires u_num == -cross(a, dir1) * len2, cross(a, dir1) == -den;
    }
}

/// The direction in which an obstacle is given does not matter.
pub proof fn lemma_blocks_reversed(start: Position, obstacle: Segment, destination: Position)
    ensures
        blocks(start, Segment { start: obstacle.end, end: obstacle.start }, destination) == blocks(start, obstacle, destination),
{
    let r = Segment { start: obstacle.end, end: obstacle.start };
    let p1 = (obstacle.start.x as int, obstacle.start.y as int);
    let e1 = (obstacle.end.x as int, obstacle.end.y as int);
    let dir1 = (obstacle.end.x - obstacle.start.x, obstacle.end.y - obstacle.start.y);
    let rdir1 = (obstacle.start.x - obstacle.end.x, obstacle.start.y - obstacle.end.y);
    let p2 = (start.x as int, start.y as int);
    let dir2 = (destination.x - start.x, destination.y - start.y);
    let den = cross(dir1, dir2);
    let rden = cross(rdir1, dir2);
    let t_num = cross(p2, dir2) - cross(p1, dir2);
    let rt_num = cross(p2, dir2) - cross(e1, dir2);
    let len2 = dot(dir2, dir2);
    let a = (p1.0 - p2.0, p1.1 - p2.1);
    let ra = (e1.0 - p2.0, e1.1 - p2.1);
    lemma_u_numerator(a, dir1, dir2, p1, p2);
    lemma_u_numerator(ra, rdir1, dir2, e1, p2);
    assert(rden == -den) by (nonlinear_arith)
        requires rden == cross(rdir1, dir2), den == cross(dir1, dir2), rdir1 == (-dir1.0, -dir1.1);
    assert(rt_num == t_num - den) by (nonlinear_arith)
        requires rt_num == cross(p2, dir2) - cross(e1, dir2), t_num == cross(p2, dir2) - cross(p1, dir2),
            den == cross(dir1, dir2), e1 == (p1.0 + dir1.0, p1.1 + dir1.1);
    assert(cross(ra, rdir1) == -cross(a, dir1)) by (nonlinear_arith)
        requires ra == (a.0 + dir1.0, a.1 + dir1.1), rdir1 == (-dir1.0, -dir1.1);
    let u = -cross(a, dir1) * len2;
    let ru = -cross(ra, rdir1) * len2;
    assert(ru == -u) by (nonlinear_arith)
        requires ru == -cross(ra, rdir1) * len2, u == -cross(a, dir1) * len2, cross(ra, rdir1) == -cross(a, dir1);
    assert(rden * len2 == -(den * len2)) by (nonlinear_arith)
        requires rden == -den;
    if den != 0 && len2 != 0 {
        assert(den * len2 != 0) by (nonlinear_arith) requires den != 0, len2 != 0;
    }
}

/// Whether the segment between `start` and `destination` avoids every obstacle.
pub fn line_of_sight(start: Position, obstacles: &[Segment], destination: Position) -> (r: bool)
    ensures
        r == clear(start, obstacles@, destination),
{
    let mut i: usize = 0;
    while i < obstacles.len()
        invariant
            i <= obstacles@.len(),
            forall|j: int| 0 <= j < i ==> !#[trigger] blocks(start, obstacles@[j], destination),
        decreases obstacles@.len() - i,
    {
        if !line_of_sight_single(start, &obstacles[i], destination) {
            return false;
        }
        i += 1;
    }
    true
}

/// Whether `obstacle` leaves the segment between `start` and `destination` free.
///
/// By convention the sight line is free when `destination` is one of the obstacle's own
/// endpoints, when the two lines are parallel, and when `start == destination`.
pub fn line_of_sight_single(start: Position, obstacle: &Segment, destination: Position) -> (r: bool)
    ensures
        r == !blocks(start, *obstacle, destination),
{
    if destination == obstacle.start || destination == obstacle.end {
        return true;
    }
    let p1: (i64, i64) = (obstacle.start.x as i64, obstacle.start.y as i64);
    let dir1: (i64, i64) = (
        obstacle.end.x as i64 - obstacle.start.x as i64,
        obstacle.end.y as i64 - obstacle.start.y as i64,
    );
    let p2: (i64, i64) = (start.x as i64, start.y as i64);
    let dir2: (i64, i64) = (destination.x as i64 - start.x as i64, destination.y as i64 - start.y as i64);

    let den: i128 = cross_product(dir1, dir2);
    if den == 0 {
        return true;
    }
    let t_num: i128 = cross_product(p2, dir2) - cross_product(p1, dir2);
    let inside: bool = if den > 0 {
        0 <= t_num && t_num <= den
    } else {
        den <= t_num && t_num <= 0
    };
    if !inside {
        return true;  // The lines meet outside the obstacle.
    }
    if dir2.0 == 0 && dir2.1 == 0 {
        return true;  // A sight line of length zero.
    }
    let a: (i64, i64) = (p1.0 - p2.0, p1.1 - p2.1);
    let u_num: i128 = -cross_product(a, dir1);
    let crossing: bool = if den > 0 {
        0 < u_num && u_num < den
    } else {
        den < u_num && u_num < 0
    };
    proof {
        let ai = (a.0 as int, a.1 as int);
        let d1 = (dir1.0 as int, dir1.1 as int);
        let d2 = (dir2.0 as int, dir2.1 as int);
        let len2 = dot(d2, d2);
        assert(len2 > 0) by (nonlinear_arith)
            requires len2 == d2.0 * d2.0 + d2.1 * d2.1, d2.0 != 0 || d2.1 != 0;
        lemma_u_numerator(ai, d1, d2, (p1.0 as int, p1.1 as int), (p2.0 as int, p2.1 as int));
        lemma_within_open_scale(u_num as int, den as int, len2);
    }
    !crossing
}

} // verus!
