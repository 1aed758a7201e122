//! A two-player, turn-based, gravity-fill grid game board: pieces drop to the
//! lowest free row of a column, and after every successful insert the board
//! scans the four axes through the new piece for a run of four.
pub mod board;
