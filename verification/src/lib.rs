//! A 2048 move engine and a Monte-Carlo tree search advisor built on it.
//!
//! [`line`] slides and merges one line of four cells and builds the table
//! that turns such a move into a lookup. [`grid`] is the mathematical model
//! of the grid and of its four moves, and [`board`] is the board that
//! realises them with the table; [`fen`] reads and writes a board as text.
//!
//! [`node`] holds the nodes of the search tree, [`selection`] says how the
//! search picks its way down the tree, and [`searcher`] plays the rounds of
//! the search. The search draws with the dice of [`chance`], and looks at
//! the clock and the stop flag of [`clock`] after every round.
//!
//! [`interface`] holds the commands of the text interface as far as they
//! work on the board.

pub mod board;
pub mod chance;
pub mod clock;
pub mod fen;
pub mod grid;
pub mod interface;
pub mod line;
pub mod node;
pub mod searcher;
pub mod selection;
