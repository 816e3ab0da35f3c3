//! A minesweeper field engine: seeded mine placement, adjacency counts,
//! flood-fill reveal, marking, win detection and text rendering.

pub mod board;
pub mod field;
pub mod laws;
pub mod render;
pub mod outside;
