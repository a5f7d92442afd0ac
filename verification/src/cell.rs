//! One cell, and how a generation is drawn as text.

use vstd::prelude::*;
use crate::grid::Grid;

verus! {

/// The state of one cell.
#[derive(Clone, Copy, Debug, PartialEq, Eq, Structural)]
pub enum Cell {
    Dead,
    Alive,
}

/// The square drawn for a live cell.
pub const ALIVE_SYMBOL: char = '\u{25fc}';

/// The square drawn for a dead cell.
pub const DEAD_SYMBOL: char = '\u{25fb}';

impl Cell {
    /// The cell that a flag stands for.
    pub open spec fn of(alive: bool) -> Cell {
        if alive {
            Cell::Alive
        } else {
            Cell::Dead
        }
    }

    /// The character drawn for the cell.
    pub open spec fn spec_symbol(self) -> char {
        match self {
            Cell::Alive => ALIVE_SYMBOL,
            Cell::Dead => DEAD_SYMBOL,
        }
    }

    /// The cell that a flag stands for.
    pub fn from_flag(alive: bool) -> (cell: Cell)
        ensures
            cell == Cell::of(alive),
    {
        if alive {
            Cell::Alive
        } else {
            Cell::Dead
        }
    }

    /// The character drawn for the cell.
    #[verifier::when_used_as_spec(spec_symbol)]
    pub fn symbol(self) -> (symbol: char)
        ensures
            symbol == self.spec_symbol(),
    {
        match self {
            Cell::Alive => ALIVE_SYMBOL,
            Cell::Dead => DEAD_SYMBOL,
        }
    }
}

impl Grid {
    /// The grid drawn as text: one line per row, each ended by a newline,
    /// one square per cell.
    pub open spec fn rendered(self) -> Seq<char> {
        Seq::new(
            (self.height * (self.width + 1)) as nat,
            |i: int|
                {
                    let row = i / (self.width + 1);
                    let col = i % (self.width + 1);
                    if col == self.width {
                        '\n'
                    } else {
                        Cell::of(self.alive(row, col)).spec_symbol()
                    }
                },
        )
    }
}

/// `String::push` appends the one character to the end of the string.
/// Trusted, not proved.
pub assume_specification[ String::push ](text: &mut String, ch: char)
    ensures
        final(text)@ == old(text)@.push(ch),
;

} // verus!
