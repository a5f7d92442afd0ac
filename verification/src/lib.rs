//! Conway's Game of Life on a torus, with the cells packed one per bit.
//!
//! [`bitset::Bitset`] is the packed array of flags. [`grid::Grid`] is the
//! mathematical grid and the rule of the game, which the contracts speak of.
//! [`universe::Universe`] owns a bitset, stands for a grid, and advances it a
//! generation at a time. [`cell`] draws a generation as text, and [`random`]
//! reaches the system's random source for a first generation.

pub mod bitset;
pub mod cell;
pub mod grid;
pub mod random;
pub mod universe;
