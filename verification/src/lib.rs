//! A nonogram (picross) puzzle library: puzzles and their clues, the `.non`
//! text format, a line-logic solver with backtracking, and the game state.

pub mod puzzle;
pub mod solver;
pub mod text;
pub mod non;
pub mod save;
pub mod generate;
pub mod clock;
pub mod menu;
pub mod app;
pub mod controls;
pub mod screen;
