//! The mathematical grid: what a universe is, and what one generation does
//! to it. Everything here is specification; nothing is compiled.

use vstd::prelude::*;
use vstd::arithmetic::div_mod::lemma_mod_bound;

verus! {

/// A `width` by `height` torus of cells, stored row by row.
pub struct Grid {
    pub width: int,
    pub height: int,
    pub cells: Seq<bool>,
}

/// The fate of one cell: a live cell survives with two or three live
/// neighbours, a dead cell comes alive with exactly three.
pub open spec fn next_cell(alive: bool, neighbors: int) -> bool {
    if alive {
        neighbors == 2 || neighbors == 3
    } else {
        neighbors == 3
    }
}

/// Whether a seed byte brings its cell to life: one byte in sixteen does,
/// the one whose low four bits are all clear.
pub open spec fn seeds_life(byte: u8) -> bool {
    byte & 15 == 0
}

impl Grid {
    /// Both sides are positive and there is one cell per position.
    pub open spec fn wf(self) -> bool {
        &&& 0 < self.width
        &&& 0 < self.height
        &&& self.cells.len() == self.width * self.height
    }

    /// The grid of the given size with every cell dead.
    pub open spec fn dead(width: int, height: int) -> Grid {
        Grid { width, height, cells: Seq::new((width * height) as nat, |i: int| false) }
    }

    /// The grid of the given size whose cells are decided, in row-major
    /// order, by the bytes of `seed`, one byte each.
    pub open spec fn seeded(width: int, height: int, seed: Seq<u8>) -> Grid {
        Grid { width, height, cells: Seq::new((width * height) as nat, |i: int| seeds_life(seed[i])) }
    }

    /// Whether `(row, col)` lies on the grid.
    pub open spec fn contains(self, row: int, col: int) -> bool {
        0 <= row < self.height && 0 <= col < self.width
    }

    /// The position of `(row, col)` in row-major order.
    pub open spec fn index_of(self, row: int, col: int) -> int {
        row * self.width + col
    }

    /// Whether the cell at `(row, col)` is alive.
    pub open spec fn alive(self, row: int, col: int) -> bool {
        self.cells[self.index_of(row, col)]
    }

    /// One if the cell `down` rows below and `right` columns to the right of
    /// `(row, col)` is alive, going round the edges; zero if it is dead.
    pub open spec fn neighbor(self, row: int, col: int, down: int, right: int) -> int {
        if self.alive((row + down) % self.height, (col + right) % self.width) {
            1
        } else {
            0
        }
    }

    /// How many of the eight cells around `(row, col)` are alive. On a grid
    /// narrower or lower than three cells some of the eight coincide, and are
    /// counted once for each direction that reaches them.
    pub open spec fn live_neighbors(self, row: int, col: int) -> int {
        self.neighbor(row, col, -1, -1) + self.neighbor(row, col, -1, 0) + self.neighbor(
            row,
            col,
            -1,
            1,
        ) + self.neighbor(row, col, 0, -1) + self.neighbor(row, col, 0, 1) + self.neighbor(
            row,
            col,
            1,
            -1,
        ) + self.neighbor(row, col, 1, 0) + self.neighbor(row, col, 1, 1)
    }

    /// The same grid with the cell at `(row, col)` alive.
    pub open spec fn with_alive(self, row: int, col: int) -> Grid {
        Grid { cells: self.cells.update(self.index_of(row, col), true), ..self }
    }

    /// The same grid with every cell named in `positions` alive.
    pub open spec fn with_all_alive(self, positions: Seq<(u32, u32)>) -> Grid {
        Grid {
            cells: Seq::new(
                self.cells.len(),
                |i: int|
                    self.cells[i] || exists|k: int|
                        0 <= k < positions.len() && self.index_of(
                            positions[k].0 as int,
                            positions[k].1 as int,
                        ) == i,
            ),
            ..self
        }
    }

    /// The next generation: every cell meets its fate at once, each judged by
    /// its neighbours in this generation.
    pub open spec fn step(self) -> Grid {
        Grid {
            cells: Seq::new(
                self.cells.len(),
                |i: int|
                    next_cell(self.cells[i], self.live_neighbors(i / self.width, i % self.width)),
            ),
            ..self
        }
    }
}

/// On a grid with every cell dead, no cell has a live neighbour.
pub proof fn lemma_dead_has_no_neighbors(width: int, height: int, row: int, col: int)
    requires
        0 < width,
        0 < height,
    ensures
        Grid::dead(width, height).live_neighbors(row, col) == 0,
{
    let grid = Grid::dead(width, height);
    assert forall|down: int, right: int| #[trigger] grid.neighbor(row, col, down, right) == 0 by {
        let r = (row + down) % height;
        let c = (col + right) % width;
        lemma_mod_bound(row + down, height);
        lemma_mod_bound(col + right, width);
        assert(0 <= r * width + c < width * height) by (nonlinear_arith)
            requires
                0 <= r < height,
                0 <= c < width,
        ;
    }
}

/// An empty universe stays empty: the generation after one in which every
/// cell is dead is that same generation.
pub proof fn lemma_dead_stays_dead(width: int, height: int)
    requires
        0 < width,
        0 < height,
    ensures
        Grid::dead(width, height).step() == Grid::dead(width, height),
{
    let grid = Grid::dead(width, height);
    assert forall|i: int| 0 <= i < grid.cells.len() implies grid.step().cells[i] == false by {
        lemma_dead_has_no_neighbors(width, height, i / width, i % width);
    }
    assert(grid.step().cells =~= grid.cells);
}

} // verus!
