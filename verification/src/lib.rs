//! A solver for nonograms: given the lengths of the runs of black cells of
//! each row and column of a grid, it finds which cells are black and which
//! are white.
//!
//! A line of cells is a bit mask (`bitop`), a board holds for each row the
//! mask of the cells known black and the mask of the cells known white
//! (`common`). The line solver enumerates the fillings of one line and
//! keeps what all of them have in common (`filling`, `search_line`);
//! propagation runs it over rows and columns until nothing new is found
//! (`propagate`, `search_line`); where that stalls, a search guesses the
//! colour of a cell and learns from contradictions (`backtrack`). What it
//! means to solve a puzzle is said in `solution`. A puzzle is read from text
//! by `parse`, and a solution is turned into text by `render`.

pub mod bitop;
pub mod common;
pub mod filling;
pub mod search_line;
pub mod propagate;
pub mod solution;
pub mod backtrack;
pub mod parse;
pub mod render;
