use visibility_path::min_heap::MinHeap;
use visibility_path::point_map::PointMap;
use visibility_path::types::Position;

fn pos(x: i32, y: i32) -> Position {
    Position { x, y }
}

#[test]
fn heap_pops_in_ascending_distance() {
    let mut h = MinHeap::new();
    let dists: [u128; 9] = [50, 7, 93, 7, 0, 18, 64, 3, 21];
    for (i, d) in dists.iter().enumerate() {
        h.push((*d, pos(i as i32, 0)));
    }
    assert_eq!(h.len(), 9);
    let mut out = Vec::new();
    while h.len() > 0 {
        out.push(h.pop().0);
    }
    assert_eq!(out, vec![0, 3, 7, 7, 18, 21, 50, 64, 93]);
}

#[test]
fn heap_keeps_stale_duplicates() {
    let mut h = MinHeap::new();
    h.push((10, pos(1, 1)));
    h.push((4, pos(1, 1)));
    assert_eq!(h.pop(), (4, pos(1, 1)));
    assert_eq!(h.pop(), (10, pos(1, 1)));
    assert_eq!(h.len(), 0);
}

#[test]
fn point_map_insert_and_overwrite() {
    let mut m: PointMap<u128> = PointMap::new();
    assert_eq!(m.get(pos(0, 0)), None);
    m.insert(pos(0, 0), 5);
    m.insert(pos(1, 0), 6);
    m.insert(pos(0, 0), 2);
    assert_eq!(m.get(pos(0, 0)), Some(2));
    assert_eq!(m.get(pos(1, 0)), Some(6));
    assert_eq!(m.get(pos(0, 1)), None);
    assert_eq!(m.len(), 2);
}
