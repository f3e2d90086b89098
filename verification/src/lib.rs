pub mod board;
pub mod game;
pub mod grid;
pub mod render;
