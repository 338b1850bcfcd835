use vstd::prelude::*;

verus! {

/// A point of the plane with integer coordinates.
#[derive(Debug, Clone, Copy, PartialEq, Eq, Structural, Hash)]
pub struct Position {
    pub x: i32,
    pub y: i32,
}

/// One obstacle edge, from `start` to `end`.
#[derive(Debug, Clone, Copy, PartialEq, Eq, Structural, Hash)]
pub struct Segment {
    pub start: Position,
    pub end: Position,
}

} // verus!
