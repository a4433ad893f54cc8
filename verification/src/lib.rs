pub mod colour;
pub mod game;
pub mod graph;
pub mod merge;
pub mod types;
pub mod grid;
pub mod laws;
