//! A Sokoban solver.
//!
//! A puzzle is read from its text into a board ([`parse`], [`solver`]). From
//! the board the solver derives, once, the squares from which a box can
//! never reach a goal ([`dead`]) and the rooms with their goal counts
//! ([`rooms`]), and it draws a table of Zobrist keys ([`zobrist`]). A
//! best-first search ([`search`]) then looks for moves that bring every box
//! onto a goal, guided by a greedy matching of boxes to goals
//! ([`heuristic`]) and pruned by room capacity ([`deadlock`]).
//!
//! What the game allows is written down in [`moves`]; every answer of the
//! search is proved to be legal play that ends with every box on a goal.

pub mod bits;
pub mod dead;
pub mod deadlock;
pub mod heap;
pub mod heuristic;
pub mod layout;
pub mod lists;
pub mod moves;
pub mod parse;
pub mod point;
pub mod pruning;
pub mod rooms;
pub mod search;
pub mod solver;
pub mod table;
pub mod zobrist;
