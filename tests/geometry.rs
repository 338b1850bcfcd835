use visibility_path::geometry::{cross_product, distance2, distance2_wide, dot_product, edge_cost, isqrt};
use visibility_path::types::Position;

#[test]
fn cross_product_happy_path() {
    assert_eq!(cross_product((-1, 2), (3, -4)), -2)
}

#[test]
fn dot_product_happy_path() {
    assert_eq!(dot_product((-1, 2), (3, -4)), -11)
}

#[test]
fn dist2() {
    assert_eq!(distance2(
        Position { x: 0, y: 0 },
        Position { x: -2, y: -2 },
    ), 8)
}

#[test]
fn dist2_over_full_range() {
    let a = Position { x: i32::MIN, y: i32::MIN };
    let b = Position { x: i32::MAX, y: i32::MAX };
    assert_eq!(distance2_wide(a, b), 2 * (u32::MAX as u128) * (u32::MAX as u128));
}

#[test]
fn integer_square_roots() {
    assert_eq!(isqrt(0), 0);
    assert_eq!(isqrt(1), 1);
    assert_eq!(isqrt(8), 2);
    assert_eq!(isqrt(9), 3);
    assert_eq!(isqrt(u128::MAX), u64::MAX);
}

#[test]
fn edge_costs_in_fixed_point() {
    let o = Position { x: 0, y: 0 };
    assert_eq!(edge_cost(o, o), 0);
    assert_eq!(edge_cost(o, Position { x: 3, y: 4 }), 5u64 << 31);
    assert_eq!(edge_cost(Position { x: -3, y: 4 }, o), 5u64 << 31);
    // ceil(sqrt(2) * 2^31)
    assert_eq!(edge_cost(o, Position { x: 1, y: 1 }), 3037000500);
    // ceil(2 * sqrt(2) * 2^31)
    assert_eq!(edge_cost(o, Position { x: 2, y: 2 }), 6074001000);

}
