use vstd::multiset::Multiset;
use vstd::prelude::*;

use crate::geometry::{edge_cost, hop_cost};
use crate::min_heap::MinHeap;
use crate::point_map::PointMap;
use crate::line_of_sight::{clear, line_of_sight};
use crate::reachable::{candidates, is_step, lemma_visible_from, reachable_positions, visible_from};
use crate::types::{Position, Segment};

verus! {

broadcast use vstd::multiset::group_multiset_axioms;

/// `path` runs from `start` to `destination`, each point after the first being a candidate
/// seen from the point before it.
pub open spec fn is_path(path: Seq<Position>, start: Position, obstacles: Seq<Segment>, destination: Position) -> bool {
    &&& path.len() >= 1
    &&& path[0] == start
    &&& path.last() == destination
    &&& forall|i: int| 0 <= i < path.len() - 1 ==> #[trigger] is_step(path[i], obstacles, destination, path[i + 1])
}

/// `walk` starts at `start`, each point after the first being a candidate seen from the
/// point before it.
pub open spec fn is_walk(walk: Seq<Position>, start: Position, obstacles: Seq<Segment>, destination: Position) -> bool {
    &&& walk.len() >= 1
    &&& walk[0] == start
    &&& forall|i: int| 0 <= i < walk.len() - 1 ==> #[trigger] is_step(walk[i], obstacles, destination, walk[i + 1])
}

/// Sum of the costs of the hops of `path`.
pub open spec fn path_cost(path: Seq<Position>) -> int
    decreases path.len(),
{
    if path.len() <= 1 {
        0
    } else {
        path_cost(path.drop_last()) + hop_cost(path[path.len() - 2], path.last())
    }
}

/// `path` is a path from `start` to `destination` of least cost.
pub open spec fn is_shortest_path(path: Seq<Position>, start: Position, obstacles: Seq<Segment>, destination: Position) -> bool {
    &&& is_path(path, start, obstacles, destination)
    &&& forall|other: Seq<Position>| #[trigger]
        is_path(other, start, obstacles, destination) ==> path_cost(path) <= path_cost(other)
}

/// Some path leads from `start` to `destination`.
pub open spec fn reachable(start: Position, obstacles: Seq<Segment>, destination: Position) -> bool {
    exists|path: Seq<Position>| #[trigger] is_path(path, start, obstacles, destination)
}

/// Every point seen from `k` has an entry in `dist`.
pub open spec fn closed(k: Position, dist: Map<Position, u128>, obstacles: Seq<Segment>, destination: Position) -> bool {
    forall|n: Position| #[trigger] is_step(k, obstacles, destination, n) ==> dist.contains_key(n)
}

/// Every point seen from `x` has a distance of at most that of `x` plus the hop.
pub open spec fn relaxed(x: Position, dist: Map<Position, u128>, obstacles: Seq<Segment>, destination: Position) -> bool {
    forall|n: Position| #[trigger]
        is_step(x, obstacles, destination, n) ==> dist.contains_key(n) && dist[n] <= dist[x] + hop_cost(x, n)
}

/// The distance of `x` is at most the cost of every walk from `start` to `x`.
pub open spec fn lower_bound(
    x: Position,
    dist: Map<Position, u128>,
    start: Position,
    obstacles: Seq<Segment>,
    destination: Position,
) -> bool {
    forall|walk: Seq<Position>| #[trigger]
        is_walk(walk, start, obstacles, destination) && walk.last() == x ==> dist[x] <= path_cost(walk)
}

proof fn lemma_path_cost_nonneg(path: Seq<Position>)
    ensures
        path_cost(path) >= 0,
    decreases path.len(),
{
    if path.len() > 1 {
        lemma_path_cost_nonneg(path.drop_last());
    }
}

/// A prefix of a walk is a walk.
proof fn lemma_walk_prefix(walk: Seq<Position>, start: Position, obstacles: Seq<Segment>, destination: Position, k: int)
    requires
        is_walk(walk, start, obstacles, destination),
        1 <= k <= walk.len(),
    ensures
        is_walk(walk.take(k), start, obstacles, destination),
{
    let t = walk.take(k);
    assert forall|i: int| 0 <= i < t.len() - 1 implies #[trigger] is_step(t[i], obstacles, destination, t[i + 1]) by {
        assert(is_step(walk[i], obstacles, destination, walk[i + 1]));
    }
}

/// Dijkstra's frontier argument: a walk whose `k`-th point is not yet expanded costs, up to
/// that point, at least the least distance `d` in the queue.
proof fn lemma_frontier(
    walk: Seq<Position>,
    k: int,
    start: Position,
    obstacles: Seq<Segment>,
    destination: Position,
    dist: Map<Position, u128>,
    done: Set<Position>,
    queue: Multiset<(u128, Position)>,
    d: int,
)
    requires
        is_walk(walk, start, obstacles, destination),
        0 <= k < walk.len(),
        !done.contains(walk[k]),
        dist.contains_key(start),
        dist[start] == 0,
        forall|p: Position| #[trigger] dist.contains_key(p) ==> done.contains(p) || queue.contains((dist[p], p)),
        forall|e: (u128, Position)| #[trigger] queue.contains(e) ==> d <= e.0,
        forall|x: Position| #[trigger] done.contains(x) ==> dist.contains_key(x) && relaxed(x, dist, obstacles, destination)
            && lower_bound(x, dist, start, obstacles, destination),
    ensures
        d <= path_cost(walk.take(k + 1)),
    decreases k,
{
    let t = walk.take(k + 1);
    if k == 0 {
        assert(queue.contains((dist[start], start)));
    } else {
        assert(t.drop_last() =~= walk.take(k));
        assert(path_cost(t) == path_cost(walk.take(k)) + hop_cost(walk[k - 1], walk[k]));
        if !done.contains(walk[k - 1]) {
            lemma_frontier(walk, k - 1, start, obstacles, destination, dist, done, queue, d);
        } else {
            lemma_walk_prefix(walk, start, obstacles, destination, k);
            assert(walk.take(k).last() == walk[k - 1]);
            assert(lower_bound(walk[k - 1], dist, start, obstacles, destination));
            assert(dist[walk[k - 1]] <= path_cost(walk.take(k)));
            let m = k - 1;
            assert(walk[m + 1] == walk[k]);
            assert(is_step(walk[m], obstacles, destination, walk[m + 1]));
            assert(dist.contains_key(walk[k]));
            assert(queue.contains((dist[walk[k]], walk[k])));
        }
    }
}

/// Points at which the search may place a distance.
pub open spec fn vertices(start: Position, obstacles: Seq<Segment>, destination: Position) -> Seq<Position> {
    candidates(obstacles, destination).push(start)
}

/// Weight of a point in the termination measure: its distance, or more than any distance.
pub open spec fn weight(dist: Map<Position, u128>, p: Position) -> int {
    if dist.contains_key(p) {
        dist[p] as int
    } else {
        0x8000_0000_0000_0000_0000_0000_0000_0000
    }
}

pub open spec fn potential(dist: Map<Position, u128>, s: Seq<Position>) -> int
    decreases s.len(),
{
    if s.len() == 0 {
        0
    } else {
        potential(dist, s.drop_last()) + weight(dist, s.last())
    }
}

proof fn lemma_potential_nonneg(dist: Map<Position, u128>, s: Seq<Position>)
    ensures
        potential(dist, s) >= 0,
    decreases s.len(),
{
    if s.len() > 0 {
        lemma_potential_nonneg(dist, s.drop_last());
    }
}

/// Lowering the weight of a point of `s`, and raising none, lowers the potential.
proof fn lemma_potential_decreases(d1: Map<Position, u128>, d2: Map<Position, u128>, s: Seq<Position>, n: Position)
    requires
        forall|p: Position| weight(d2, p) <= weight(d1, p),
        weight(d2, n) < weight(d1, n),
    ensures
        potential(d2, s) <= potential(d1, s),
        s.contains(n) ==> potential(d2, s) < potential(d1, s),
    decreases s.len(),
{
    if s.len() > 0 {
        lemma_potential_decreases(d1, d2, s.drop_last(), n);
        if s.contains(n) && s.last() != n {
            let i = choose|i: int| 0 <= i < s.len() && s[i] == n;
            assert(s.drop_last()[i] == n);
        }
    }
}

/// A sequence without duplicates, all of whose elements lie in `t`, is no longer than `t`.
proof fn lemma_len_bound(s: Seq<Position>, t: Seq<Position>)
    requires
        s.no_duplicates(),
        forall|p: Position| s.contains(p) ==> t.contains(p),
    ensures
        s.len() <= t.len(),
{
    s.unique_seq_to_set();
    t.lemma_cardinality_of_set();
    assert(s.to_set().subset_of(t.to_set()));
    vstd::set_lib::lemma_len_subset(s.to_set(), t.to_set());
}

proof fn lemma_path_in_table(
    path: Seq<Position>,
    start: Position,
    obstacles: Seq<Segment>,
    destination: Position,
    dist: Map<Position, u128>,
    i: int,
)
    requires
        is_path(path, start, obstacles, destination),
        0 <= i < path.len(),
        dist.contains_key(start),
        forall|k: Position| dist.contains_key(k) ==> closed(k, dist, obstacles, destination),
    ensures
        dist.contains_key(path[i]),
    decreases i,
{
    if i > 0 {
        lemma_path_in_table(path, start, obstacles, destination, dist, i - 1);
        let k = i - 1;
        assert(path[k + 1] == path[i]);
        assert(is_step(path[k], obstacles, destination, path[k + 1]));
    }
}

/// When every point of the table is closed, the table holds the start and not the
/// destination, no path leads from the start to the destination.
proof fn lemma_no_path(start: Position, obstacles: Seq<Segment>, destination: Position, dist: Map<Position, u128>)
    requires
        dist.contains_key(start),
        !dist.contains_key(destination),
        forall|k: Position| dist.contains_key(k) ==> closed(k, dist, obstacles, destination),
    ensures
        !reachable(start, obstacles, destination),
{
    if reachable(start, obstacles, destination) {
        let path = choose|path: Seq<Position>| is_path(path, start, obstacles, destination);
        lemma_path_in_table(path, start, obstacles, destination, dist, path.len() - 1);
    }
}

/// Records `alt` as the distance of `to`, reached from `from`, when it is better than the
/// distance known so far (or when none is known). Returns whether it was recorded.
///
/// A distance once recorded never grows: each value of the new table is at most the old one.
pub fn relax(
    dist: &mut PointMap<u128>,
    prev: &mut PointMap<Position>,
    from: Position,
    to: Position,
    alt: u128,
) -> (improved: bool)
    requires
        old(dist).wf(),
        old(prev).wf(),
    ensures
        final(dist).wf(),
        final(prev).wf(),
        improved == (!old(dist)@.contains_key(to) || alt < old(dist)@[to]),
        improved ==> final(dist)@ == old(dist)@.insert(to, alt),
        improved ==> final(dist).key_seq().to_set() == old(dist).key_seq().to_set().insert(to),
        improved ==> final(prev)@ == old(prev)@.insert(to, from),
        !improved ==> *final(dist) == *old(dist) && *final(prev) == *old(prev),
        forall|k: Position| #[trigger]
            old(dist)@.contains_key(k) ==> final(dist)@.contains_key(k) && final(dist)@[k] <= old(dist)@[k],
{
    let better: bool = match dist.get(to) {
        None => true,
        Some(d) => alt < d,
    };
    if better {
        dist.insert(to, alt);
        prev.insert(to, from);
    }
    better
}

/// `chain` starts at `k` and follows `prev` until a point without an entry.
pub open spec fn is_chain(chain: Seq<Position>, prev: Map<Position, Position>, k: Position) -> bool {
    &&& chain.len() >= 1
    &&& chain[0] == k
    &&& forall|i: int| 0 <= i < chain.len() - 1 ==> prev.contains_key(#[trigger] chain[i]) && prev[chain[i]] == chain[i + 1]
    &&& !prev.contains_key(chain.last())
}

/// In a chain, equal points at `a` and `b` give equal points `t` steps later.
proof fn lemma_chain_shift(chain: Seq<Position>, prev: Map<Position, Position>, k: Position, a: int, b: int, t: int)
    requires
        is_chain(chain, prev, k),
        0 <= a < b,
        0 <= t,
        b + t < chain.len(),
        chain[a] == chain[b],
    ensures
        chain[a + t] == chain[b + t],
    decreases t,
{
    if t > 0 {
        lemma_chain_shift(chain, prev, k, a, b, t - 1);
        let (x, y) = (a + t - 1, b + t - 1);
        assert(prev.contains_key(chain[x]) && prev[chain[x]] == chain[x + 1]);
        assert(prev.contains_key(chain[y]) && prev[chain[y]] == chain[y + 1]);
    }
}

/// A chain visits no point twice.
proof fn lemma_chain_distinct(chain: Seq<Position>, prev: Map<Position, Position>, k: Position)
    requires
        is_chain(chain, prev, k),
    ensures
        chain.no_duplicates(),
{
    assert forall|a: int, b: int| 0 <= a < b < chain.len() implies chain[a] != chain[b] by {
        if chain[a] == chain[b] {
            let t = chain.len() - 1 - b;
            lemma_chain_shift(chain, prev, k, a, b, t);
            let x = a + t;
            assert(prev.contains_key(chain[x]));
        }
    }
}

/// Where each predecessor is nearer than the point it precedes, the chain from any point of
/// the table exists.
proof fn lemma_chain_exists(prev: Map<Position, Position>, dist: Map<Position, u128>, k: Position) -> (chain: Seq<Position>)
    requires
        dist.contains_key(k),
        forall|p: Position| #[trigger]
            prev.contains_key(p) ==> dist.contains_key(p) && dist.contains_key(prev[p]) && dist[prev[p]] < dist[p],
    ensures
        is_chain(chain, prev, k),
    decreases dist[k],
{
    if !prev.contains_key(k) {
        seq![k]
    } else {
        let rest = lemma_chain_exists(prev, dist, prev[k]);
        let chain = seq![k] + rest;
        assert forall|i: int| 0 <= i < chain.len() - 1 implies prev.contains_key(#[trigger] chain[i])
            && prev[chain[i]] == chain[i + 1] by {
            if i > 0 {
                assert(chain[i] == rest[i - 1]);
                assert(chain[i + 1] == rest[i]);
            }
        }
        chain
    }
}

/// Rebuilds the path to `destination` by following `prev` back from it until a point
/// without an entry, and reversing: each point of the result is the predecessor of the next.
/// `chain` is that walk back, which must end.
fn get_path(prev: &PointMap<Position>, destination: Position, Ghost(chain): Ghost<Seq<Position>>) -> (path: Vec<Position>)
    requires
        prev.wf(),
        is_chain(chain, prev@, destination),
    ensures
        path@.len() >= 1,
        path@.last() == destination,
        !prev@.contains_key(path@[0]),
        forall|i: int| 0 < i < path@.len() ==> prev@.contains_key(#[trigger] path@[i]) && prev@[path@[i]] == path@[i - 1],
        path@.no_duplicates(),
        path@ == chain.reverse(),
{
    let mut back: Vec<Position> = Vec::new();
    let mut cur: Position = destination;
    back.push(cur);
    let mut next: Option<Position> = prev.get(cur);
    while next.is_some()
        invariant
            prev.wf(),
            is_chain(chain, prev@, destination),
            1 <= back@.len() <= chain.len(),
            back@ == chain.take(back@.len() as int),
            cur == chain[back@.len() - 1],
            match next {
                Some(n) => prev@.contains_key(cur) && prev@[cur] == n,
                None => !prev@.contains_key(cur),
            },
        decreases chain.len() - back@.len(),
    {
        let n: Position = next.unwrap();
        proof {
            let k = back@.len() - 1;
            assert(k < chain.len() - 1);
            assert(prev@[chain[k]] == chain[k + 1]);
        }
        back.push(n);
        proof {
            assert(back@ =~= chain.take(back@.len() as int));
        }
        cur = n;
        next = prev.get(cur);
    }
    proof {
        let k = back@.len() - 1;
        if k < chain.len() - 1 {
            assert(prev@.contains_key(chain[k]));
        }
        assert(back@ =~= chain);
        lemma_chain_distinct(chain, prev@, destination);
    }
    let len: usize = back.len();
    let mut path: Vec<Position> = Vec::new();
    let mut i: usize = 0;
    while i < len
        invariant
            len == back@.len(),
            i <= len,
            path@.len() == i,
            forall|j: int| 0 <= j < i ==> path@[j] == back@[len - 1 - j],
        decreases len - i,
    {
        path.push(back[len - 1 - i]);
        i += 1;
    }
    proof {
        assert(path@ =~= chain.reverse());
        assert forall|j: int| 0 < j < path@.len() implies prev@.contains_key(#[trigger] path@[j])
            && prev@[path@[j]] == path@[j - 1] by {
            let b = len - 1 - j;
            assert(prev@.contains_key(chain[b]) && prev@[chain[b]] == chain[b + 1]);
        }
        assert forall|a: int, b: int| 0 <= a < b < path@.len() implies path@[a] != path@[b] by {
            assert(chain[len - 1 - a] != chain[len - 1 - b]);
        }
    }
    path
}

/// Along a predecessor chain the cost of the prefix up to `k` is at most the distance
/// gained.
proof fn lemma_chain_cost(path: Seq<Position>, dist: Map<Position, u128>, k: int, prev: Map<Position, Position>)
    requires
        0 <= k < path.len(),
        forall|i: int| 0 < i < path.len() ==> prev.contains_key(#[trigger] path[i]) && prev[path[i]] == path[i - 1],
        forall|p: Position| #[trigger]
            prev.contains_key(p) ==> {
                &&& dist.contains_key(p)
                &&& dist.contains_key(prev[p])
                &&& dist[prev[p]] + hop_cost(prev[p], p) <= dist[p]
            },
        dist.contains_key(path[0]),
    ensures
        dist.contains_key(path[k]),
        path_cost(path.take(k + 1)) + dist[path[0]] <= dist[path[k]],
    decreases k,
{
    if k > 0 {
        lemma_chain_cost(path, dist, k - 1, prev);
        let t = path.take(k + 1);
        assert(t.drop_last() =~= path.take(k));
        assert(prev.contains_key(path[k]) && prev[path[k]] == path[k - 1]);
    } else {
        assert(path_cost(path.take(1)) == 0);
    }
}

/// Shortest-path search over the visibility graph of the obstacles, from `start` to
/// `destination`.
///
/// Edge costs are Euclidean lengths in fixed point (see `edge_cost`). Points are expanded
/// in order of least known distance, stale queue entries being skipped, and the search stops
/// when the destination is taken from the queue, its distance then being final. Returns
/// `None` exactly when no path leads from `start` to `destination`; otherwise a path of least
/// cost, which visits no point twice. When `start` equals `destination` the path is that
/// single point.
#[verifier::rlimit(60)]
pub fn find_path(start: Position, obstacles: &[Segment], destination: Position) -> (r: Option<Vec<Position>>)
    requires
        obstacles@.len() < 0x1000_0000_0000_0000,
    ensures
        match r {
            Some(path) => {
                &&& is_path(path@, start, obstacles@, destination)
                &&& path@.no_duplicates()
                &&& !clear(start, obstacles@, destination) ==> is_shortest_path(path@, start, obstacles@, destination)
            },
            None => !reachable(start, obstacles@, destination),
        },
        start == destination ==> (r matches Some(path) && path@ == seq![start]),
        start != destination && clear(start, obstacles@, destination) ==> (r matches Some(path) && path@ == seq![start, destination]),
{
    if start == destination {
        let path: Vec<Position> = vec![start];
        proof {
            assert(path@[0] == start);
            assert(path@ =~= seq![start]);
            assert forall|other: Seq<Position>| #[trigger] is_path(other, start, obstacles@, destination)
                implies path_cost(path@) <= path_cost(other) by {
                lemma_path_cost_nonneg(other);
            }
        }
        return Some(path);
    }
    if line_of_sight(start, obstacles, destination) {
        let path: Vec<Position> = vec![start, destination];
        proof {
            assert(path@ =~= seq![start, destination]);
            let c = candidates(obstacles@, destination);
            assert(c[0] == destination);
            assert(is_step(path@[0], obstacles@, destination, path@[1]));
        }
        return Some(path);
    }
    let ghost obs = obstacles@;
    let ghost verts = vertices(start, obs, destination);
    let ghost nverts = verts.len();
    let ghost mut done: Set<Position> = Set::empty();
    let mut dist: PointMap<u128> = PointMap::new();
    let mut prev: PointMap<Position> = PointMap::new();
    dist.insert(start, 0);
    let mut queue: MinHeap = MinHeap::new();
    queue.push((0, start));
    proof {
        assert(queue@ =~= Multiset::singleton((0u128, start)));
        assert(queue@.contains((0u128, start)));
        dist.lemma_keys();
        assert(dist@.contains_key(start));
        assert(verts.contains(start)) by {
            assert(verts[verts.len() - 1] == start);
        }
        assert forall|p: Position| dist.key_seq().contains(p) implies verts.contains(p) by {
            assert(dist@.contains_key(p));
        }
        lemma_len_bound(dist.key_seq(), verts);
    }
    while queue.len() > 0
        invariant
            obs == obstacles@,
            verts == vertices(start, obs, destination),
            nverts == verts.len() == 2 * obs.len() + 2,
            obs.len() < 0x1000_0000_0000_0000,
            start != destination,
            !clear(start, obs, destination),
            dist.wf(),
            prev.wf(),
            queue.wf(),
            dist@.contains_key(start),
            dist@[start] == 0,
            !prev@.contains_key(start),
            forall|k: Position| #[trigger]
                dist@.contains_key(k) ==> verts.contains(k) && (k == start || prev@.contains_key(k)),
            forall|k: Position| #[trigger]
                prev@.contains_key(k) ==> {
                    &&& dist@.contains_key(k)
                    &&& dist@.contains_key(prev@[k])
                    &&& is_step(prev@[k], obs, destination, k)
                    &&& dist@[prev@[k]] < dist@[k]
                    &&& dist@[prev@[k]] + hop_cost(prev@[k], k) <= dist@[k]
                },
            forall|x: (u128, Position)| #[trigger] queue@.contains(x) ==> dist@.contains_key(x.1) && x.0 >= dist@[x.1],
            forall|k: Position| #[trigger] dist@.contains_key(k) ==> done.contains(k) || queue@.contains((dist@[k], k)),
            forall|x: Position| #[trigger]
                done.contains(x) ==> dist@.contains_key(x) && relaxed(x, dist@, obs, destination)
                    && lower_bound(x, dist@, start, obs, destination),
            forall|x: Position, e: (u128, Position)| #[trigger] done.contains(x) && #[trigger] queue@.contains(e) ==> dist@[x] <= e.0,
            !done.contains(destination),
            dist.key_seq().len() <= nverts,
            forall|k: Position| #[trigger]
                dist@.contains_key(k) ==> dist@[k] < 0x1_0000_0000_0000_0000 * dist.key_seq().len(),
        decreases 2 * potential(dist@, verts) + queue@.len(),
    {
        proof {
            lemma_potential_nonneg(dist@, verts);
        }
        let ghost measure = 2 * potential(dist@, verts) + queue@.len();
        let ghost q0 = queue@;
        let ghost done0 = done;
        let (d, pos) = queue.pop();
        proof {
            assert(q0.contains((d, pos)));
            assert forall|x: (u128, Position)| #[trigger] queue@.contains(x) implies dist@.contains_key(x.1)
                && x.0 >= dist@[x.1] by {
                assert(q0.contains(x));
            }
        }
        let cur: u128 = dist.get(pos).unwrap();
        if d > cur {
            proof {
                assert forall|k: Position| #[trigger] dist@.contains_key(k) implies done.contains(k)
                    || queue@.contains((dist@[k], k)) by {
                    if !done.contains(k) {
                        assert(q0.contains((dist@[k], k)));
                        assert((dist@[k], k) != (d, pos));
                    }
                }
                assert forall|x: Position, e: (u128, Position)| #[trigger] done.contains(x) && #[trigger] queue@.contains(e)
                    implies dist@[x] <= e.0 by {
                    assert(q0.contains(e));
                }
                assert(2 * potential(dist@, verts) + queue@.len() < measure);
                lemma_potential_nonneg(dist@, verts);
            }
            continue;
        }
        proof {
            // `pos` leaves the queue with its final distance.
            if !done.contains(pos) {
                assert forall|walk: Seq<Position>| #[trigger]
                    is_walk(walk, start, obs, destination) && walk.last() == pos implies dist@[pos] <= path_cost(walk) by {
                    lemma_frontier(walk, walk.len() - 1, start, obs, destination, dist@, done, q0, d as int);
                    assert(walk.take(walk.len() as int) =~= walk);
                }
            }
            assert forall|x: Position| #[trigger] done.contains(x) implies dist@[x] <= cur by {
                assert(q0.contains((d, pos)));
            }
            done = done.insert(pos);
            assert forall|k: Position| #[trigger] dist@.contains_key(k) implies done.contains(k)
                || queue@.contains((dist@[k], k)) by {
                if !done.contains(k) {
                    assert(q0.contains((dist@[k], k)));
                    assert((dist@[k], k) != (d, pos));
                }
            }
            assert forall|x: Position, e: (u128, Position)| #[trigger] done.contains(x) && #[trigger] queue@.contains(e)
                implies dist@[x] <= e.0 by {
                assert(q0.contains(e));
                if x != pos {
                    assert(done0.contains(x));
                }
            }
        }
        if pos == destination {
            let ghost chain = lemma_chain_exists(prev@, dist@, destination);
            let path: Vec<Position> = get_path(&prev, destination, Ghost(chain));
            proof {
                let p = path@;
                if p.len() > 1 {
                    assert(prev@.contains_key(p[1]) && prev@[p[1]] == p[0]);
                }
                assert(dist@.contains_key(p[0]));
                lemma_chain_cost(p, dist@, p.len() - 1, prev@);
                assert(p.take(p.len() as int) =~= p);
                assert(p[0] == start) by {
                    assert(dist@.contains_key(p[0]));
                }
                assert forall|i: int| 0 <= i < p.len() - 1 implies #[trigger] is_step(p[i], obs, destination, p[i + 1]) by {
                    let k = i + 1;
                    assert(prev@.contains_key(p[k]) && prev@[p[k]] == p[k - 1]);
                }
                assert(is_path(p, start, obs, destination));
                assert forall|other: Seq<Position>| #[trigger] is_path(other, start, obs, destination)
                    implies path_cost(p) <= path_cost(other) by {
                    assert(is_walk(other, start, obs, destination));
                    assert(lower_bound(destination, dist@, start, obs, destination));
                }
            }
            return Some(path);
        }
        let ns: Vec<Position> = reachable_positions(pos, obstacles, destination);
        proof {
            lemma_visible_from(pos, obs, destination);
        }
        let mut j: usize = 0;
        while j < ns.len()
            invariant
                obs == obstacles@,
                verts == vertices(start, obs, destination),
                nverts == verts.len() == 2 * obs.len() + 2,
                obs.len() < 0x1000_0000_0000_0000,
                start != destination,
                !clear(start, obs, destination),
                ns@ == visible_from(pos, obs, destination),
                forall|n: Position| #[trigger] ns@.contains(n) <==> is_step(pos, obs, destination, n),
                j <= ns@.len(),
                dist.wf(),
                prev.wf(),
                queue.wf(),
                dist@.contains_key(start),
                dist@[start] == 0,
                !prev@.contains_key(start),
                dist@.contains_key(pos),
                dist@[pos] == cur,
                done.contains(pos),
                forall|k: Position| #[trigger]
                    dist@.contains_key(k) ==> verts.contains(k) && (k == start || prev@.contains_key(k)),
                forall|k: Position| #[trigger]
                    prev@.contains_key(k) ==> {
                        &&& dist@.contains_key(k)
                        &&& dist@.contains_key(prev@[k])
                        &&& is_step(prev@[k], obs, destination, k)
                        &&& dist@[prev@[k]] < dist@[k]
                        &&& dist@[prev@[k]] + hop_cost(prev@[k], k) <= dist@[k]
                    },
                forall|x: (u128, Position)| #[trigger] queue@.contains(x) ==> dist@.contains_key(x.1) && x.0 >= dist@[x.1],
                forall|k: Position| #[trigger] dist@.contains_key(k) ==> done.contains(k) || queue@.contains((dist@[k], k)),
                forall|x: Position| #[trigger]
                    done.contains(x) ==> dist@.contains_key(x) && (x != pos ==> relaxed(x, dist@, obs, destination))
                        && lower_bound(x, dist@, start, obs, destination) && dist@[x] <= cur,
                forall|x: Position, e: (u128, Position)| #[trigger] done.contains(x) && #[trigger] queue@.contains(e) ==> dist@[x] <= e.0,
                !done.contains(destination),
                forall|m: int| 0 <= m < j ==> dist@.contains_key(#[trigger] ns@[m]) && dist@[ns@[m]] <= cur + hop_cost(pos, ns@[m]),
                dist.key_seq().len() <= nverts,
                forall|k: Position| #[trigger]
                    dist@.contains_key(k) ==> dist@[k] < 0x1_0000_0000_0000_0000 * dist.key_seq().len(),
                2 * potential(dist@, verts) + queue@.len() < measure,
            decreases ns@.len() - j,
        {
            let n: Position = ns[j];
            let w: u64 = edge_cost(pos, n);
            proof {
                assert(ns@.contains(n));
                assert(is_step(pos, obs, destination, n));
                assert(dist.key_seq().len() <= 0x2000_0000_0000_0002);
                assert(0x1_0000_0000_0000_0000 * dist.key_seq().len() <= 0x1_0000_0000_0000_0000 * 0x2000_0000_0000_0002) by (nonlinear_arith)
                    requires dist.key_seq().len() <= 0x2000_0000_0000_0002;
            }
            let alt: u128 = cur + w as u128;
            let ghost d_old = dist@;
            let ghost q_old = queue@;
            let ghost keys_old = dist.key_seq();
            let ghost dist_old = dist;
            let improved: bool = relax(&mut dist, &mut prev, pos, n, alt);
            proof {
                assert forall|x: Position| #[trigger] done.contains(x) implies dist@[x] == d_old[x] by {
                    if x == n && improved {
                        assert(d_old[x] <= cur);
                    }
                }
                assert forall|x: Position| #[trigger] done.contains(x) && x != pos implies relaxed(x, dist@, obs, destination) by {
                    assert forall|m: Position| #[trigger] is_step(x, obs, destination, m) implies dist@.contains_key(m)
                        && dist@[m] <= dist@[x] + hop_cost(x, m) by {
                        assert(relaxed(x, d_old, obs, destination));
                        assert(d_old.contains_key(m));
                    }
                }
                assert forall|x: Position| #[trigger] done.contains(x) implies lower_bound(x, dist@, start, obs, destination) by {
                    assert(lower_bound(x, d_old, start, obs, destination));
                    assert forall|walk: Seq<Position>| #[trigger]
                        is_walk(walk, start, obs, destination) && walk.last() == x implies dist@[x] <= path_cost(walk) by {
                        assert(d_old[x] <= path_cost(walk));
                    }
                }
                assert forall|m: int| 0 <= m < j + 1 implies dist@.contains_key(#[trigger] ns@[m]) && dist@[ns@[m]] <= cur + hop_cost(pos, ns@[m]) by {
                    if m < j {
                        assert(d_old.contains_key(ns@[m]));
                    }
                }
            }
            if improved {
                proof {
                    assert(n != pos);
                    assert(n != start);
                    assert(!done.contains(n));
                    assert(verts.contains(n)) by {
                        let c = choose|c: int| 0 <= c < candidates(obs, destination).len() && candidates(obs, destination)[c] == n;
                        assert(verts[c] == n);
                    }
                    dist.lemma_keys();
                    assert forall|p: Position| dist.key_seq().contains(p) implies verts.contains(p) by {
                        assert(dist@.contains_key(p));
                    }
                    lemma_len_bound(dist.key_seq(), verts);
                    assert forall|p: Position| weight(dist@, p) <= weight(d_old, p) by {}
                    lemma_potential_decreases(d_old, dist@, verts, n);
                    dist_old.lemma_keys();
                    if d_old.contains_key(n) {
                        assert(keys_old.to_set().contains(n));
                        assert(dist.key_seq().to_set() =~= keys_old.to_set());
                        keys_old.unique_seq_to_set();
                        dist.key_seq().unique_seq_to_set();
                    } else {
                        assert(dist.key_seq().to_set() == keys_old.to_set().insert(n));
                        keys_old.unique_seq_to_set();
                        dist.key_seq().unique_seq_to_set();
                        assert(!keys_old.to_set().contains(n));
                    }
                }
                queue.push((alt, n));
                proof {
                    assert(queue@.contains((dist@[n], n)));
                    assert forall|k: Position| #[trigger] dist@.contains_key(k) implies done.contains(k)
                        || queue@.contains((dist@[k], k)) by {
                        if k != n && !done.contains(k) {
                            assert(q_old.contains((d_old[k], k)));
                        }
                    }
                    assert forall|x: (u128, Position)| #[trigger] queue@.contains(x) implies dist@.contains_key(x.1)
                        && x.0 >= dist@[x.1] by {
                        if x != (alt, n) {
                            assert(q_old.contains(x));
                        }
                    }
                    assert forall|x: Position, e: (u128, Position)| #[trigger] done.contains(x) && #[trigger] queue@.contains(e)
                        implies dist@[x] <= e.0 by {
                        if e != (alt, n) {
                            assert(q_old.contains(e));
                        }
                    }
                }
            }
            j += 1;
        }
        proof {
            assert forall|n: Position| #[trigger] is_step(pos, obs, destination, n) implies dist@.contains_key(n)
                && dist@[n] <= dist@[pos] + hop_cost(pos, n) by {
                assert(ns@.contains(n));
                let m = choose|m: int| 0 <= m < ns@.len() && ns@[m] == n;
            }
            assert(relaxed(pos, dist@, obs, destination));
            assert(2 * potential(dist@, verts) + queue@.len() < measure);
            lemma_potential_nonneg(dist@, verts);
        }
    }
    proof {
        assert forall|k: Position| dist@.contains_key(k) implies closed(k, dist@, obs, destination) by {
            if !done.contains(k) {
                assert(queue@.contains((dist@[k], k)));
                vstd::multiset::lemma_multiset_empty_len(queue@);
            }
            assert(relaxed(k, dist@, obs, destination));
        }
        if dist@.contains_key(destination) {
            assert(queue@.contains((dist@[destination], destination)));
            vstd::multiset::lemma_multiset_empty_len(queue@);
        }
        lemma_no_path(start, obs, destination, dist@);
    }
    None
}

} // verus!
