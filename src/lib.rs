//! Packs a rectangular grid with polyomino tiles by depth-first backtracking.

pub mod cells;
pub mod grid;
pub mod shape;
