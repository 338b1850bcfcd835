pub mod types;
pub mod geometry;
pub mod line_of_sight;
pub mod reachable;
pub mod point_map;
pub mod min_heap;
pub mod search;
pub mod mirror;
