use vstd::prelude::*;

use crate::line_of_sight::{clear, line_of_sight};
use crate::types::{Position, Segment};

verus! {

/// The `k`-th point that may be visited next: the destination first, then the start and end
/// of each obstacle, obstacles in order.
pub open spec fn candidate(obstacles: Seq<Segment>, destination: Position, k: int) -> Position {
    if k == 0 {
        destination
    } else if k % 2 == 1 {
        obstacles[(k - 1) / 2].start
    } else {
        obstacles[(k - 2) / 2].end
    }
}

/// Every point that may be visited next, in order, duplicates kept.
pub open spec fn candidates(obstacles: Seq<Segment>, destination: Position) -> Seq<Position> {
    Seq::new((2 * obstacles.len() + 1) as nat, |k: int| candidate(obstacles, destination, k))
}

/// The candidates seen from `start`, in candidate order.
pub open spec fn visible_from(start: Position, obstacles: Seq<Segment>, destination: Position) -> Seq<Position> {
    candidates(obstacles, destination).filter(|c: Position| clear(start, obstacles, c))
}

/// One step of a path among the obstacles: `to` is a candidate and is seen from `from`.
pub open spec fn is_step(from: Position, obstacles: Seq<Segment>, destination: Position, to: Position) -> bool {
    candidates(obstacles, destination).contains(to) && clear(from, obstacles, to)
}

/// Appending one element to the filtered prefix.
proof fn lemma_filter_take_step(s: Seq<Position>, pred: spec_fn(Position) -> bool, k: int)
    requires
        0 <= k < s.len(),
    ensures
        s.take(k + 1).filter(pred) == if pred(s[k]) {
            s.take(k).filter(pred).push(s[k])
        } else {
            s.take(k).filter(pred)
        },
{
    reveal(Seq::filter);
    assert(s.take(k + 1).drop_last() =~= s.take(k));
}

/// Every element of a filtered sequence is an element of the sequence.
proof fn lemma_filter_subset(s: Seq<Position>, pred: spec_fn(Position) -> bool, i: int)
    requires
        0 <= i < s.filter(pred).len(),
    ensures
        s.contains(s.filter(pred)[i]),
    decreases s.len(),
{
    reveal(Seq::filter);
    if s.len() > 0 {
        let sub = s.drop_last().filter(pred);
        if i < sub.len() {
            lemma_filter_subset(s.drop_last(), pred, i);
            let j = choose|j: int| 0 <= j < s.drop_last().len() && s.drop_last()[j] == sub[i];
            assert(s[j] == s.filter(pred)[i]);
        } else {
            assert(s[s.len() - 1] == s.filter(pred)[i]);
        }
    }
}

/// The points seen from `start` are exactly those reached from it in one step.
pub proof fn lemma_visible_from(start: Position, obstacles: Seq<Segment>, destination: Position)
    ensures
        forall|n: Position|
            #[trigger] visible_from(start, obstacles, destination).contains(n) <==> is_step(
                start,
                obstacles,
                destination,
                n,
            ),
{
    let cands = candidates(obstacles, destination);
    let pred = |c: Position| clear(start, obstacles, c);
    assert forall|n: Position| #[trigger]
        visible_from(start, obstacles, destination).contains(n) <==> is_step(
            start,
            obstacles,
            destination,
            n,
        ) by {
        let vis = cands.filter(pred);
        if vis.contains(n) {
            let i = choose|i: int| 0 <= i < vis.len() && vis[i] == n;
            lemma_filter_subset(cands, pred, i);
            cands.lemma_filter_pred(pred, i);
        }
        if is_step(start, obstacles, destination, n) {
            let i = choose|i: int| 0 <= i < cands.len() && cands[i] == n;
            cands.lemma_filter_contains(pred, i);
        }
    }
}

/// The points seen from `start`: the destination first, then each obstacle endpoint, start
/// before end and obstacles in order, leaving out those that some obstacle hides.
pub fn reachable_positions(start: Position, obstacles: &[Segment], destination: Position) -> (r: Vec<Position>)
    requires
        obstacles@.len() < 0x1000_0000_0000_0000,
    ensures
        r@ == visible_from(start, obstacles@, destination),
{
    let ghost cands = candidates(obstacles@, destination);
    let ghost pred = |c: Position| clear(start, obstacles@, c);
    let mut r: Vec<Position> = Vec::new();
    proof {
        lemma_filter_take_step(cands, pred, 0);
        reveal(Seq::filter);
        assert(cands.take(0) =~= Seq::<Position>::empty());
    }
    if line_of_sight(start, obstacles, destination) {
        r.push(destination);
    }
    let mut i: usize = 0;
    while i < obstacles.len()
        invariant
            i <= obstacles@.len() < 0x1000_0000_0000_0000,
            cands == candidates(obstacles@, destination),
            pred == (|c: Position| clear(start, obstacles@, c)),
            r@ == cands.take(2 * i + 1).filter(pred),
        decreases obstacles@.len() - i,
    {
        let seg: Segment = obstacles[i];
        proof {
            assert(cands[2 * i + 1] == seg.start);
            lemma_filter_take_step(cands, pred, 2 * i + 1);
        }
        if line_of_sight(start, obstacles, seg.start) {
            r.push(seg.start);
        }
        proof {
            assert(cands[2 * i + 2] == seg.end);
            lemma_filter_take_step(cands, pred, 2 * i + 2);
        }
        if line_of_sight(start, obstacles, seg.end) {
            r.push(seg.end);
        }
        i += 1;
    }
    proof {
        assert(cands.take(2 * i + 1) =~= cands);
    }
    r
}

} // verus!
