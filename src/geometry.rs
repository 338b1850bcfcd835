use vstd::prelude::*;

use crate::types::Position;

verus! {

/// Squared Euclidean distance between two points, exactly.
pub open spec fn dist2_spec(p: Position, q: Position) -> int {
    (p.x - q.x) * (p.x - q.x) + (p.y - q.y) * (p.y - q.y)
}

/// Two-dimensional cross product `u.0 * v.1 - u.1 * v.0`.
pub open spec fn cross(u: (int, int), v: (int, int)) -> int {
    u.0 * v.1 - u.1 * v.0
}

/// Two-dimensional dot product `u.0 * v.0 + u.1 * v.1`.
pub open spec fn dot(u: (int, int), v: (int, int)) -> int {
    u.0 * v.0 + u.1 * v.1
}

/// Number of fractional bits of an edge cost.
pub const COST_SHIFT: u32 = 31;

/// Cost of the straight move from `p` to `q`: the Euclidean length in fixed point with
/// `COST_SHIFT` fractional bits, rounded up. That is, the least `c` with
/// `c * c >= dist2 * 4^COST_SHIFT`. Rounding up keeps a path through intermediate points from
/// costing less than the straight move.
pub open spec fn is_edge_cost(c: int, p: Position, q: Position) -> bool {
    let n = dist2_spec(p, q) * 0x4000_0000_0000_0000;
    0 <= c && n <= c * c && (c == 0 || (c - 1) * (c - 1) < n)
}

/// Integer square root: the largest `r` with `r * r <= n`.
pub open spec fn isqrt_spec(n: nat) -> nat
    decreases n,
{
    if n == 0 {
        0
    } else {
        let r = isqrt_spec((n - 1) as nat);
        if (r + 1) * (r + 1) <= n {
            r + 1
        } else {
            r
        }
    }
}

/// Cost of the straight move from `p` to `q`, as `is_edge_cost` describes it.
pub open spec fn hop_cost(p: Position, q: Position) -> nat {
    let n = (dist2_spec(p, q) * 0x4000_0000_0000_0000) as nat;
    let r = isqrt_spec(n);
    if r * r == n {
        r
    } else {
        r + 1
    }
}

/// `isqrt_spec(n)` is the root of `n` rounded down.
pub proof fn lemma_isqrt_spec(n: nat)
    ensures
        isqrt_spec(n) * isqrt_spec(n) <= n < (isqrt_spec(n) + 1) * (isqrt_spec(n) + 1),
    decreases n,
{
    if n == 0 {
        assert(isqrt_spec(0) == 0);
        assert((0 + 1) * (0 + 1) == 1) by (nonlinear_arith);
    } else {
        let r = isqrt_spec((n - 1) as nat);
        lemma_isqrt_spec((n - 1) as nat);
        let v = isqrt_spec(n);
        if (r + 1) * (r + 1) <= n {
            assert(v == r + 1);
            assert(n < (v + 1) * (v + 1)) by (nonlinear_arith)
                requires (r + 1) * (r + 1) <= n, n - 1 < (r + 1) * (r + 1), r >= 0, v == r + 1;
            assert(v * v <= n);
        } else {
            assert(v == r);
        }
    }
}

/// A number has one root rounded down.
pub proof fn lemma_root_unique(a: int, b: int, n: int)
    requires
        a >= 0,
        b >= 0,
        a * a <= n < (a + 1) * (a + 1),
        b * b <= n < (b + 1) * (b + 1),
    ensures
        a == b,
{
    if a < b {
        assert((a + 1) * (a + 1) <= b * b) by (nonlinear_arith) requires a >= 0, a + 1 <= b;
    }
    if b < a {
        assert((b + 1) * (b + 1) <= a * a) by (nonlinear_arith) requires b >= 0, b + 1 <= a;
    }
}

/// Squared distance between two points, when it fits in an `i32`.
pub fn distance2(pos1: Position, pos2: Position) -> (r: i32)
    requires
        i32::MIN <= dist2_spec(pos1, pos2) <= i32::MAX,
    ensures
        r == dist2_spec(pos1, pos2),
{
    let x: i64 = pos1.x as i64 - pos2.x as i64;
    let y: i64 = pos1.y as i64 - pos2.y as i64;
    proof {
        lemma_square_bound(x as int);
        lemma_square_bound(y as int);
    }
    let s: i128 = x as i128 * x as i128 + y as i128 * y as i128;
    s as i32
}

/// Squared distance between two points, over the whole coordinate range.
pub fn distance2_wide(pos1: Position, pos2: Position) -> (r: u128)
    ensures
        r == dist2_spec(pos1, pos2),
        r <= 0x2_0000_0000_0000_0000,
{
    let x: i64 = pos1.x as i64 - pos2.x as i64;
    let y: i64 = pos1.y as i64 - pos2.y as i64;
    proof {
        lemma_square_bound(x as int);
        lemma_square_bound(y as int);
    }
    let s: i128 = x as i128 * x as i128 + y as i128 * y as i128;
    s as u128
}

/// The square of a coordinate difference lies in `[0, 2^64]`.
pub proof fn lemma_square_bound(a: int)
    requires
        -0x1_0000_0000 <= a <= 0x1_0000_0000,
    ensures
        0 <= a * a <= 0x1_0000_0000_0000_0000,
{
    assert(0 <= a * a <= 0x1_0000_0000_0000_0000) by (nonlinear_arith)
        requires
            -0x1_0000_0000 <= a <= 0x1_0000_0000,
    ;
}

/// A product of two values of magnitude at most `2^32` has magnitude at most `2^64`.
pub proof fn lemma_product_bound(a: int, b: int)
    requires
        -0x1_0000_0000 <= a <= 0x1_0000_0000,
        -0x1_0000_0000 <= b <= 0x1_0000_0000,
    ensures
        -0x1_0000_0000_0000_0000 <= a * b <= 0x1_0000_0000_0000_0000,
{
    assert(-0x1_0000_0000_0000_0000 <= a * b <= 0x1_0000_0000_0000_0000) by (nonlinear_arith)
        requires
            -0x1_0000_0000 <= a <= 0x1_0000_0000,
            -0x1_0000_0000 <= b <= 0x1_0000_0000,
    ;
}

/// Cross product of two integer vectors whose components have magnitude at most `2^32`.
pub fn cross_product(u: (i64, i64), v: (i64, i64)) -> (r: i128)
    requires
        -0x1_0000_0000 <= u.0 <= 0x1_0000_0000,
        -0x1_0000_0000 <= u.1 <= 0x1_0000_0000,
        -0x1_0000_0000 <= v.0 <= 0x1_0000_0000,
        -0x1_0000_0000 <= v.1 <= 0x1_0000_0000,
    ensures
        r == cross((u.0 as int, u.1 as int), (v.0 as int, v.1 as int)),
        -0x2_0000_0000_0000_0000 <= r <= 0x2_0000_0000_0000_0000,
{
    proof {
        lemma_product_bound(u.0 as int, v.1 as int);
        lemma_product_bound(u.1 as int, v.0 as int);
    }
    u.0 as i128 * v.1 as i128 - u.1 as i128 * v.0 as i128
}

/// Dot product of two integer vectors whose components have magnitude at most `2^32`.
pub fn dot_product(u: (i64, i64), v: (i64, i64)) -> (r: i128)
    requires
        -0x1_0000_0000 <= u.0 <= 0x1_0000_0000,
        -0x1_0000_0000 <= u.1 <= 0x1_0000_0000,
        -0x1_0000_0000 <= v.0 <= 0x1_0000_0000,
        -0x1_0000_0000 <= v.1 <= 0x1_0000_0000,
    ensures
        r == dot((u.0 as int, u.1 as int), (v.0 as int, v.1 as int)),
        -0x2_0000_0000_0000_0000 <= r <= 0x2_0000_0000_0000_0000,
{
    proof {
        lemma_product_bound(u.0 as int, v.0 as int);
        lemma_product_bound(u.1 as int, v.1 as int);
    }
    u.0 as i128 * v.0 as i128 + u.1 as i128 * v.1 as i128
}

/// Integer square root: the largest `r` with `r * r <= n`.
pub fn isqrt(n: u128) -> (r: u64)
    ensures
        r as int * r as int <= n,
        n < (r as int + 1) * (r as int + 1),
{
    // Binary search on [lo, hi): lo * lo <= n < hi * hi.
    let mut lo: u128 = 0;
    let mut hi: u128 = 0x1_0000_0000_0000_0000;
    proof {
        assert(hi * hi == 0x1_0000_0000_0000_0000_0000_0000_0000_0000) by (nonlinear_arith)
            requires hi == 0x1_0000_0000_0000_0000;
    }
    while hi - lo > 1
        invariant
            lo < hi <= 0x1_0000_0000_0000_0000,
            lo * lo <= n,
            n < hi * hi,
        decreases hi - lo,
    {
        let mid: u128 = lo + (hi - lo) / 2;
        proof {
            assert(mid * mid < 0x1_0000_0000_0000_0000_0000_0000_0000_0000) by (nonlinear_arith)
                requires mid < 0x1_0000_0000_0000_0000;
        }
        if mid * mid <= n {
            lo = mid;
        } else {
            hi = mid;
        }
    }
    lo as u64
}

/// Cost of the straight move from `p` to `q` (see `is_edge_cost`).
pub fn edge_cost(p: Position, q: Position) -> (c: u64)
    ensures
        is_edge_cost(c as int, p, q),
        c == hop_cost(p, q),
        c == 0 <==> p == q,
{
    let d: u128 = distance2_wide(p, q);
    let n: u128 = d << 62u128;
    proof {
        assert(d << 62u128 == d * 0x4000_0000_0000_0000) by (bit_vector)
            requires d <= 0x2_0000_0000_0000_0000;
    }
    let r: u64 = isqrt(n);
    proof {
        assert(dist2_spec(p, q) >= 0) by (nonlinear_arith)
            requires dist2_spec(p, q) == d;
        let m = (dist2_spec(p, q) * 0x4000_0000_0000_0000) as nat;
        assert(m == n);
        assert(n == d * 0x4000_0000_0000_0000);
        lemma_isqrt_spec(m);
        lemma_root_unique(r as int, isqrt_spec(m) as int, m as int);
        assert(r < 0xFFFF_FFFF_FFFF_FFFF) by (nonlinear_arith)
            requires r as int * r as int <= n, n <= 0x2_0000_0000_0000_0000 * 0x4000_0000_0000_0000;
        assert((r as int) * (r as int) < 0x1_0000_0000_0000_0000_0000_0000_0000_0000) by (nonlinear_arith)
            requires r < 0xFFFF_FFFF_FFFF_FFFF;
    }
    let exact: bool = r as u128 * r as u128 == n;
    let c: u64 = if exact { r } else { r + 1 };
    proof {
        let ri = r as int;
        if exact {
            if ri > 0 {
                assert((ri - 1) * (ri - 1) < ri * ri) by (nonlinear_arith) requires ri > 0;
            }
        } else {
            assert(ri * ri < n);
        }
        if c == 0 {
            assert(n == 0);
            assert(d == 0);
            lemma_dist2_zero(p, q);
        }
        if p == q {
            let (a, b) = (p.x - q.x, p.y - q.y);
            assert(a * a + b * b == 0) by (nonlinear_arith)
                requires a == 0, b == 0;
            assert(d == 0);
            assert(n == 0);
            assert((r as int) * (r as int) <= n as int);
            assert(r == 0) by (nonlinear_arith)
                requires (r as int) * (r as int) <= 0, r >= 0;
        }
    }
    c
}

/// Two points at squared distance zero are equal.
pub proof fn lemma_dist2_zero(p: Position, q: Position)
    requires
        dist2_spec(p, q) == 0,
    ensures
        p == q,
{
    let a = p.x - q.x;
    let b = p.y - q.y;
    assert(a * a >= 0 && b * b >= 0) by (nonlinear_arith);
    assert(a == 0) by (nonlinear_arith)
        requires a * a + b * b == 0, b * b >= 0;
    assert(b == 0) by (nonlinear_arith)
        requires a * a + b * b == 0, a * a >= 0;
}

} // verus!
