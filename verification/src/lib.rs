//! A nonogram (picross) puzzle core: a bounds-checked tile grid, a line
//! constraint solver that finds the cells forced by a single row or column
//! clue, and an orchestrator that applies one autofill pass to a whole board.

pub mod action;
pub mod board;
pub mod gfx;
pub mod gui;
pub mod puzzle;
pub mod reader;
pub mod solver;
