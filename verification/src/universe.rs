//! The universe: a torus of cells packed into a [`Bitset`], advanced one
//! generation at a time.

use vstd::prelude::*;
use vstd::arithmetic::div_mod::{lemma_fundamental_div_mod_converse, lemma_mod_add_multiples_vanish};
use crate::bitset::{bits_of, lemma_words_for, words_for, Bitset};
use crate::cell::Cell;
use crate::grid::{seeds_life, Grid};
use crate::random::{fill_random, RandomSourceFailed};

verus! {

/// A position on a grid `width` wide and `height` high has its index below
/// `width * height`, and row and column can be read back from the index.
pub proof fn lemma_index_of(width: int, height: int, row: int, col: int)
    requires
        0 <= row < height,
        0 <= col < width,
    ensures
        0 <= row * width + col < width * height,
        (row * width + col) / width == row,
        (row * width + col) % width == col,
{
    assert(0 <= row * width && row * width + width <= width * height) by (nonlinear_arith)
        requires
            0 <= row < height,
            0 < width,
    ;
    lemma_fundamental_div_mod_converse(row * width + col, width, row, col);
}

/// What the `k`-th of the nine positions round `(row, col)`, taken row by
/// row, adds to the count of live neighbours: the centre adds nothing.
spec fn around(grid: Grid, row: int, col: int, k: int) -> int {
    if k == 4 {
        0
    } else {
        grid.neighbor(row, col, k / 3 - 1, k % 3 - 1)
    }
}

/// The live neighbours among the first `k` of the nine positions.
spec fn around_below(grid: Grid, row: int, col: int, k: int) -> int
    decreases k,
{
    if k <= 0 {
        0
    } else {
        around_below(grid, row, col, k - 1) + around(grid, row, col, k - 1)
    }
}

/// The nine positions, the centre left out, are the eight neighbours.
proof fn lemma_around_all(grid: Grid, row: int, col: int)
    ensures
        around_below(grid, row, col, 9) == grid.live_neighbors(row, col),
{
    reveal_with_fuel(around_below, 10);
}

/// Going one step back round an edge is going `extent - 1` steps forward.
proof fn lemma_wrap(pos: int, toward: int, extent: int)
    requires
        0 < extent,
        -1 <= toward <= 1,
    ensures
        (pos + if toward < 0 {
            extent - 1
        } else {
            toward
        }) % extent == (pos + toward) % extent,
{
    if toward < 0 {
        lemma_mod_add_multiples_vanish(pos - 1, extent);
    }
}

/// The position `step` places after `pos` on a ring of `extent` places.
fn wrap(pos: u32, step: u32, extent: u32) -> (place: u32)
    requires
        0 < extent,
    ensures
        place == (pos + step) % (extent as int),
        place < extent,
{
    ((pos as u64 + step as u64) % (extent as u64)) as u32
}

/// Where the character for place `col` of line `row` stands in the drawing
/// of `grid`, and that taking one character more of the drawing appends it.
/// Place `grid.width` of a line is its newline.
proof fn lemma_drawn_at(grid: Grid, row: int, col: int)
    requires
        grid.wf(),
        0 <= row < grid.height,
        0 <= col <= grid.width,
    ensures
        ({
            let at = row * (grid.width + 1) + col;
            let drawn = grid.rendered();
            &&& 0 <= at < drawn.len()
            &&& drawn.take(at + 1) == drawn.take(at).push(drawn[at])
            &&& drawn[at] == if col == grid.width {
                '\n'
            } else {
                Cell::of(grid.alive(row, col)).spec_symbol()
            }
        }),
{
    let line = grid.width + 1;
    let at = row * line + col;
    let drawn = grid.rendered();
    lemma_index_of(line, grid.height, row, col);
    assert(line * grid.height == grid.height * line) by (nonlinear_arith);
    assert(drawn.take(at + 1) =~= drawn.take(at).push(drawn[at]));
}

/// A torus of cells, one bit each.
#[derive(PartialEq, Eq, Debug)]
pub struct Universe {
    width: u32,
    height: u32,
    cells: Bitset,
}

impl View for Universe {
    type V = Grid;

    closed spec fn view(&self) -> Grid {
        Grid {
            width: self.width as int,
            height: self.height as int,
            cells: self.cells@.take(self.width * self.height),
        }
    }
}

impl Universe {
    /// Both sides are positive; the cells fill exactly the words they need;
    /// the spare bits of the last word are clear.
    #[verifier::type_invariant]
    spec fn inv(self) -> bool {
        &&& 0 < self.width
        &&& 0 < self.height
        &&& self.width * self.height <= usize::MAX
        &&& self.cells.words().len() == words_for(self.width * self.height)
        &&& forall|i: int| self.width * self.height <= i < self.cells@.len() ==> !self.cells@[i]
    }

    /// An empty universe: every cell dead.
    pub fn new(width: u32, height: u32) -> (universe: Self)
        requires
            0 < width,
            0 < height,
            width * height <= usize::MAX,
        ensures
            universe@ == Grid::dead(width as int, height as int),
    {
        let size = (width as usize) * (height as usize);
        let cells = Bitset::with_size(size);
        let universe = Universe { width, height, cells };
        assert(universe@.cells =~= Grid::dead(width as int, height as int).cells);
        universe
    }

    /// A universe whose cells are decided by the bytes of `seed`, one byte
    /// per cell in row-major order: a cell starts alive where the low four
    /// bits of its byte are clear. Bytes beyond the last cell are not read.
    pub fn from_seed(width: u32, height: u32, seed: &[u8]) -> (universe: Self)
        requires
            0 < width,
            0 < height,
            width * height <= seed@.len(),
        ensures
            universe@ == Grid::seeded(width as int, height as int, seed@),
    {
        assert(seed@.len() == seed.len());
        let size = (width as usize) * (height as usize);
        let mut cells = Bitset::with_size(size);
        let mut i: usize = 0;
        while i < size
            invariant
                i <= size,
                size <= seed@.len(),
                size <= cells@.len(),
                cells.words().len() == words_for(size as int),
                forall|j: int| 0 <= j < i ==> cells@[j] == seeds_life(seed@[j]),
                forall|j: int| i <= j < cells@.len() ==> !cells@[j],
            decreases size - i,
        {
            cells.set_to(i, seed[i] & 15 == 0);
            i += 1;
        }
        let universe = Universe { width, height, cells };
        assert(universe@.cells =~= Grid::seeded(width as int, height as int, seed@).cells);
        universe
    }

    /// A universe seeded from the system's random source, in which about
    /// one cell in sixteen starts alive; or the failure of that source.
    pub fn with_random_seed(width: u32, height: u32) -> (outcome: Result<Self, RandomSourceFailed>)
        requires
            0 < width,
            0 < height,
            width * height <= usize::MAX,
        ensures
            outcome matches Ok(universe) ==> universe@.wf() && universe@.width == width
                && universe@.height == height,
    {
        let size = (width as usize) * (height as usize);
        let mut seed: Vec<u8> = vec![0u8; size];
        match fill_random(&mut seed) {
            Ok(()) => Ok(Universe::from_seed(width, height, seed.as_slice())),
            Err(_) => Err(RandomSourceFailed),
        }
    }

    /// The number of columns.
    pub fn width(&self) -> (width: u32)
        ensures
            width == self@.width,
            self@.wf(),
    {
        proof {
            use_type_invariant(self);
            lemma_words_for(self.width * self.height);
        }
        self.width
    }

    /// The number of rows.
    pub fn height(&self) -> (height: u32)
        ensures
            height == self@.height,
            self@.wf(),
    {
        proof {
            use_type_invariant(self);
            lemma_words_for(self.width * self.height);
        }
        self.height
    }

    /// The universe drawn as text: one line per row, one square per cell.
    pub fn render(&self) -> (text: String)
        ensures
            text@ == self@.rendered(),
    {
        proof {
            use_type_invariant(self);
            lemma_words_for(self.width * self.height);
        }
        let mut text = String::new();
        let mut row: u32 = 0;
        while row < self.height
            invariant
                row <= self.height,
                0 < self.width,
                self.width * self.height <= self.cells@.len(),
                text@ == self@.rendered().take(row * (self.width + 1)),
            decreases self.height - row,
        {
            let mut col: u32 = 0;
            while col < self.width
                invariant
                    row < self.height,
                    col <= self.width,
                    self.width * self.height <= self.cells@.len(),
                    text@ == self@.rendered().take(row * (self.width + 1) + col),
                decreases self.width - col,
            {
                let idx = self.get_index(row, col);
                let cell = Cell::from_flag(self.cells.get(idx));
                proof {
                    lemma_drawn_at(self@, row as int, col as int);
                }
                text.push(cell.symbol());
                col += 1;
            }
            proof {
                lemma_drawn_at(self@, row as int, col as int);
                assert(row * (self.width + 1) + self.width + 1 == (row + 1) * (self.width + 1))
                    by (nonlinear_arith);
            }
            text.push('\n');
            row += 1;
        }
        assert(text@ == self@.rendered()) by {
            assert(row * (self.width + 1) == self@.rendered().len()) by (nonlinear_arith)
                requires
                    row == self.height,
                    self@.rendered().len() == self.height * (self.width + 1),
            ;
        }
        text
    }

    /// The packed cells, borrowed for as long as the universe is not changed:
    /// cell `i` in row-major order is bit `i % word_bits()` of word
    /// `i / word_bits()`, and the spare bits of the last word are clear.
    pub fn cells(&self) -> (raw: &[usize])
        ensures
            raw@.len() == words_for(self@.width * self@.height),
            forall|i: int|
                0 <= i < bits_of(raw@).len() ==> bits_of(raw@)[i] == (i < self@.cells.len()
                    && self@.cells[i]),
    {
        proof {
            use_type_invariant(self);
            lemma_words_for(self.width * self.height);
        }
        self.cells.as_ptr()
    }

    /// How many of the eight cells around `(row, col)` are alive, going
    /// round the edges.
    pub fn live_neighbor_count(&self, row: u32, col: u32) -> (count: u8)
        requires
            self@.contains(row as int, col as int),
        ensures
            count == self@.live_neighbors(row as int, col as int),
    {
        proof {
            use_type_invariant(self);
            lemma_words_for(self.width * self.height);
        }
        let row_steps: [u32; 3] = [self.height - 1, 0, 1];
        let col_steps: [u32; 3] = [self.width - 1, 0, 1];
        let mut count: u8 = 0;
        let mut i: usize = 0;
        while i < 3
            invariant
                i <= 3,
                self@.contains(row as int, col as int),
                self@.width * self@.height <= self.cells@.len(),
                row_steps@ == seq![(self@.height - 1) as u32, 0u32, 1u32],
                col_steps@ == seq![(self@.width - 1) as u32, 0u32, 1u32],
                count == around_below(self@, row as int, col as int, 3 * i),
                count <= 3 * i,
            decreases 3 - i,
        {
            let mut j: usize = 0;
            while j < 3
                invariant
                    i < 3,
                    j <= 3,
                    self@.contains(row as int, col as int),
                    self@.width * self@.height <= self.cells@.len(),
                    row_steps@ == seq![(self@.height - 1) as u32, 0u32, 1u32],
                    col_steps@ == seq![(self@.width - 1) as u32, 0u32, 1u32],
                    count == around_below(self@, row as int, col as int, 3 * i + j),
                    count <= 3 * i + j,
                decreases 3 - j,
            {
                let ghost k = 3 * i + j;
                assert(k / 3 == i && k % 3 == j);
                assert(around_below(self@, row as int, col as int, k + 1) == around_below(
                    self@,
                    row as int,
                    col as int,
                    k,
                ) + around(self@, row as int, col as int, k));
                if i != 1 || j != 1 {
                    let neighbor_row = wrap(row, row_steps[i], self.height);
                    let neighbor_col = wrap(col, col_steps[j], self.width);
                    proof {
                        lemma_wrap(row as int, i - 1, self.height as int);
                        lemma_wrap(col as int, j - 1, self.width as int);
                    }
                    let idx = self.get_index(neighbor_row, neighbor_col);
                    assert(self@.cells[idx as int] == self.cells@[idx as int]);
                    if self.cells.get(idx) {
                        count += 1;
                    }
                }
                j += 1;
            }
            i += 1;
        }
        proof {
            lemma_around_all(self@, row as int, col as int);
        }
        count
    }

    /// Brings the cell at `(row, col)` to life.
    pub fn set_cell(&mut self, row: u32, col: u32)
        requires
            old(self)@.contains(row as int, col as int),
        ensures
            final(self)@ == old(self)@.with_alive(row as int, col as int),
    {
        proof {
            use_type_invariant(&*self);
            lemma_words_for(self.width * self.height);
        }
        let idx = self.get_index(row, col);
        self.cells.set(idx);
        assert(self@.cells =~= old(self)@.with_alive(row as int, col as int).cells);
    }

    /// Brings every cell named in `cells` to life, each given as
    /// `(row, col)`.
    pub fn set_cells(&mut self, cells: &[(u32, u32)])
        requires
            forall|k: int|
                0 <= k < cells@.len() ==> old(self)@.contains(cells@[k].0 as int, cells@[k].1 as int),
        ensures
            final(self)@ == old(self)@.with_all_alive(cells@),
    {
        proof {
            use_type_invariant(&*self);
            lemma_words_for(self.width * self.height);
        }
        let ghost before = self@;
        assert(before.cells =~= before.with_all_alive(cells@.take(0)).cells);
        let mut k: usize = 0;
        while k < cells.len()
            invariant
                k <= cells.len(),
                before == old(self)@,
                before.cells.len() == before.width * before.height,
                forall|j: int|
                    0 <= j < cells@.len() ==> before.contains(cells@[j].0 as int, cells@[j].1 as int),
                self@ == before.with_all_alive(cells@.take(k as int)),
            decreases cells.len() - k,
        {
            let (row, col) = cells[k];
            let ghost seen = cells@.take(k as int);
            let ghost more = cells@.take(k + 1);
            let ghost at = before.index_of(row as int, col as int);
            self.set_cell(row, col);
            proof {
                let wanted = before.with_all_alive(more).cells;
                assert(more[k as int] == (row, col));
                let earlier = before.with_all_alive(seen);
                lemma_index_of(before.width, before.height, row as int, col as int);
                assert(self@ == earlier.with_alive(row as int, col as int));
                assert forall|i: int| 0 <= i < wanted.len() implies self@.cells[i] == wanted[i] by {
                    let in_seen = exists|j: int|
                        0 <= j < seen.len() && before.index_of(seen[j].0 as int, seen[j].1 as int)
                            == i;
                    let in_more = exists|j: int|
                        0 <= j < more.len() && before.index_of(more[j].0 as int, more[j].1 as int)
                            == i;
                    assert(earlier.cells[i] == (before.cells[i] || in_seen));
                    assert(wanted[i] == (before.cells[i] || in_more));
                    if i == at {
                        assert(before.index_of(
                            more[k as int].0 as int,
                            more[k as int].1 as int,
                        ) == i);
                    } else {
                        if in_seen {
                            let j = choose|j: int|
                                0 <= j < seen.len() && before.index_of(
                                    seen[j].0 as int,
                                    seen[j].1 as int,
                                ) == i;
                            assert(more[j] == seen[j]);
                        }
                        if in_more {
                            let j = choose|j: int|
                                0 <= j < more.len() && before.index_of(
                                    more[j].0 as int,
                                    more[j].1 as int,
                                ) == i;
                            assert(seen[j] == more[j]);
                        }
                    }
                }
                assert(self@.cells =~= wanted);
            }
            k += 1;
        }
        assert(cells@.take(k as int) == cells@);
    }

    /// Advances the universe by one generation. Every cell is judged by the
    /// generation before: the new cells are written to a buffer of their own,
    /// which replaces the old one when all of them are known.
    pub fn tick(&mut self)
        ensures
            final(self)@ == old(self)@.step(),
    {
        proof {
            use_type_invariant(&*self);
            lemma_words_for(self.width * self.height);
        }
        let ghost next = self@.step();
        let mut tmp_cell = self.cells.clone();
        let mut row: u32 = 0;
        while row < self.height
            invariant
                *self == *old(self),
                next == self@.step(),
                0 < self.width,
                row <= self.height,
                self.width * self.height <= usize::MAX,
                self.width * self.height <= self.cells@.len(),
                tmp_cell.words().len() == self.cells.words().len(),
                forall|i: int| 0 <= i < row * self.width ==> tmp_cell@[i] == next.cells[i],
                forall|i: int|
                    row * self.width <= i < tmp_cell@.len() ==> tmp_cell@[i] == self.cells@[i],
            decreases self.height - row,
        {
            let mut col: u32 = 0;
            while col < self.width
                invariant
                    *self == *old(self),
                    next == self@.step(),
                    row < self.height,
                    col <= self.width,
                    self.width * self.height <= usize::MAX,
                    self.width * self.height <= self.cells@.len(),
                    tmp_cell.words().len() == self.cells.words().len(),
                    forall|i: int|
                        0 <= i < row * self.width + col ==> tmp_cell@[i] == next.cells[i],
                    forall|i: int|
                        row * self.width + col <= i < tmp_cell@.len() ==> tmp_cell@[i]
                            == self.cells@[i],
                decreases self.width - col,
            {
                proof {
                    lemma_index_of(
                        self.width as int,
                        self.height as int,
                        row as int,
                        col as int,
                    );
                }
                let idx = self.get_index(row, col);
                let cell = self.cells.get(idx);
                let live_neighbors = self.live_neighbor_count(row, col);
                let next_cell = match (cell, live_neighbors) {
                    // A live cell with fewer than two live neighbours dies.
                    (true, x) if x < 2 => false,
                    // A live cell with two or three live neighbours lives on.
                    (true, 2) | (true, 3) => true,
                    // A live cell with more than three live neighbours dies.
                    (true, x) if x > 3 => false,
                    // A dead cell with exactly three live neighbours comes alive.
                    (false, 3) => true,
                    // Every other cell stays as it is.
                    (otherwise, _) => otherwise,
                };
                tmp_cell.set_to(idx, next_cell);
                col += 1;
            }
            assert(row * self.width + self.width == (row + 1) * self.width) by (nonlinear_arith);
            row += 1;
        }
        assert(row * self.width == self.width * self.height) by (nonlinear_arith)
            requires
                row == self.height,
        ;
        self.cells = tmp_cell;
        assert(self@.cells =~= next.cells);
    }

    /// The index of `(row, col)` among the cells.
    fn get_index(&self, row: u32, col: u32) -> (idx: usize)
        requires
            self@.contains(row as int, col as int),
        ensures
            idx == self@.index_of(row as int, col as int),
            idx < self@.cells.len(),
    {
        proof {
            use_type_invariant(self);
            lemma_words_for(self.width * self.height);
            lemma_index_of(self.width as int, self.height as int, row as int, col as int);
        }
        (row as usize) * (self.width as usize) + (col as usize)
    }
}

} // verus!
