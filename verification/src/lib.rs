//! The rules of a snake game on a grid of cells: how the snake turns, moves,
//! grows and dies, and where its food lands. Drawing, input and the clock are
//! left to the caller, which hands in turns and elapsed time and reads the
//! board back.

pub mod direction;
pub mod game;
pub mod grid;
pub mod laws;
pub mod model;
mod random;
