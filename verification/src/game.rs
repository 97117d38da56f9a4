//! The board aggregate: the grid buffer, score and spawn bookkeeping, with
//! construction, coordinate conversion, tile spawning and the terminal check.

use vstd::prelude::*;

use crate::grid::{
    adj, cell_ok, col_of, count_nonzero, count_nonzero_prefix, finished, index_of, is_pow2,
    lemma_adj, lemma_coords, lemma_count_prefix_props, lemma_count_prefix_update, lemma_index,
    lemma_sum_prefix_le, lemma_total_update, lemma_zero_prefix, row_of, stuck_at, sum_prefix,
    total, Direction,
};
use crate::rng::{fresh_rng, rand_below, rand_ratio};

verus! {

/// Largest total of tile values the engine maintains on a board. Any merge
/// doubles a value that occurs twice, so the merged value stays below this
/// bound and within `u64`; spawning stops short of the bound.
pub const MAX_TOTAL: u64 = 0x4000_0000_0000_0000;

/// Rejected configuration when constructing a board.
#[derive(Clone, Copy, PartialEq, Eq, Structural, Debug)]
pub enum ConfigError {
    /// A grid of size zero has no cells and no defined index arithmetic.
    ZeroGridSize,
}

/// The playing board: an `N x N` grid of tiles in row-major order, together
/// with the score and the location of the most recently spawned tile.
pub struct Game {
    pub(crate) rng: rand::rngs::ThreadRng,
    pub(crate) grid_size: usize,
    pub(crate) grid: Vec<u64>,
    pub(crate) new_tile_index: Option<usize>,
    pub(crate) score: u64,
}

impl Game {
    /// Side length of the grid.
    pub open(crate) spec fn size(self) -> int {
        self.grid_size as int
    }

    /// The tile values, row-major; 0 denotes an empty cell.
    pub open(crate) spec fn cells(self) -> Seq<u64> {
        self.grid@
    }

    /// The accumulated score.
    pub open(crate) spec fn spec_score(self) -> u64 {
        self.score
    }

    /// Index of the most recently spawned tile, if any.
    pub open(crate) spec fn last_spawn(self) -> Option<usize> {
        self.new_tile_index
    }

    /// Well-formed board: positive size, a full row-major buffer, every cell
    /// either empty or a power of two at least 2, and a bounded total so
    /// that merges cannot overflow.
    pub open spec fn wf(self) -> bool {
        &&& self.size() >= 1
        &&& self.cells().len() == self.size() * self.size()
        &&& forall|i: int| 0 <= i < self.cells().len() ==> cell_ok(#[trigger] self.cells()[i])
        &&& total(self.cells()) <= MAX_TOTAL
        &&& match self.last_spawn() {
            Some(i) => i < self.cells().len(),
            None => true,
        }
    }

    /// Value invariant: on every well-formed board — and each operation of
    /// the engine keeps the board well-formed — a cell is empty or holds a
    /// power of two that is at least 2.
    pub proof fn lemma_value_invariant(self)
        requires
            self.wf(),
        ensures
            forall|i: int| 0 <= i < self.cells().len() ==> cell_ok(#[trigger] self.cells()[i]),
    {
    }

    /// Row and column of the cell at linear `index`.
    pub fn index_to_coords(&self, index: usize) -> (rc: (usize, usize))
        requires
            self.wf(),
            index < self.cells().len(),
        ensures
            rc.0 as int == row_of(self.size(), index as int),
            rc.1 as int == col_of(self.size(), index as int),
            (rc.0 as int) < self.size(),
            (rc.1 as int) < self.size(),
    {
        proof {
            lemma_coords(self.size(), index as int);
        }
        let row = index / self.grid_size;
        let col = index % self.grid_size;
        (row, col)
    }

    /// Linear index of the cell at `(row, col)`.
    pub fn coords_to_index(&self, row: usize, col: usize) -> (i: usize)
        requires
            self.wf(),
            (row as int) < self.size(),
            (col as int) < self.size(),
        ensures
            i as int == index_of(self.size(), row as int, col as int),
            i < self.cells().len(),
    {
        let len = self.grid.len();
        proof {
            lemma_index(self.size(), row as int, col as int);
            assert((self.grid_size as int) * (row as int) == (row as int) * (self.grid_size as int))
                by (nonlinear_arith);
        }
        self.grid_size * row + col
    }

    /// The neighbouring cell of `index` in `direction`, or `None` at the
    /// grid boundary.
    pub fn get_adjacent_tile_index(&self, index: usize, direction: &Direction) -> (r: Option<
        usize,
    >)
        requires
            self.wf(),
            index < self.cells().len(),
        ensures
            match r {
                Some(j) => adj(self.size(), index as int, *direction) == Some(j as int) && (j
                    as int) < self.cells().len(),
                None => adj(self.size(), index as int, *direction) is None,
            },
    {
        proof {
            lemma_coords(self.size(), index as int);
            lemma_adj(self.size(), index as int, *direction);
        }
        let (row, col) = self.index_to_coords(index);
        match direction {
            Direction::Up => {
                if row == 0 {
                    None
                } else {
                    let j = self.coords_to_index(row - 1, col);
                    proof {
                        lemma_coords(self.size(), index as int - self.size());
                    }
                    Some(j)
                }
            },
            Direction::Down => {
                if row == self.grid_size - 1 {
                    None
                } else {
                    let j = self.coords_to_index(row + 1, col);
                    proof {
                        lemma_coords(self.size(), index as int + self.size());
                    }
                    Some(j)
                }
            },
            Direction::Left => {
                if col == 0 {
                    None
                } else {
                    let j = self.coords_to_index(row, col - 1);
                    proof {
                        lemma_coords(self.size(), index as int - 1);
                    }
                    Some(j)
                }
            },
            Direction::Right => {
                if col == self.grid_size - 1 {
                    None
                } else {
                    let j = self.coords_to_index(row, col + 1);
                    proof {
                        lemma_coords(self.size(), index as int + 1);
                    }
                    Some(j)
                }
            },
        }
    }

    /// All indices of empty cells, in ascending order: exactly the cells
    /// that hold 0, so there are as many as the board has empty cells.
    pub fn get_empty_cell(&self) -> (r: Vec<usize>)
        requires
            self.wf(),
        ensures
            forall|m: int|
                0 <= m < r@.len() ==> ((#[trigger] r@[m]) as int) < self.cells().len()
                    && self.cells()[r@[m] as int] == 0,
            forall|a: int, b: int| 0 <= a < b < r@.len() ==> r@[a] < r@[b],
            forall|i: int|
                0 <= i < self.cells().len() && (#[trigger] self.cells()[i]) == 0 ==> exists|m: int|
                    0 <= m < r@.len() && r@[m] == i,
            r@.len() + count_nonzero(self.cells()) == self.cells().len(),
            r@.len() > 0 <==> count_nonzero(self.cells()) < self.cells().len(),
    {
        let mut r: Vec<usize> = Vec::new();
        let len = self.grid.len();
        let mut i: usize = 0;
        while i < len
            invariant
                self.wf(),
                i <= len,
                len == self.cells().len(),
                forall|m: int|
                    0 <= m < r@.len() ==> ((#[trigger] r@[m]) as int) < i && self.cells()[r@[m]
                        as int] == 0,
                forall|a: int, b: int| 0 <= a < b < r@.len() ==> r@[a] < r@[b],
                forall|k: int|
                    0 <= k < i && (#[trigger] self.cells()[k]) == 0 ==> exists|m: int|
                        0 <= m < r@.len() && r@[m] == k,
                r@.len() + count_nonzero_prefix(self.cells(), i as int) == i,
            decreases len - i,
        {
            proof {
                lemma_count_prefix_props(self.cells(), i as int);
                lemma_count_prefix_props(self.cells(), i as int + 1);
            }
            let ghost r0 = r@;
            if self.grid[i] == 0 {
                r.push(i);
            }
            proof {
                assert forall|k: int|
                    0 <= k < i + 1 && (#[trigger] self.cells()[k]) == 0 implies exists|m: int|
                    0 <= m < r@.len() && r@[m] == k by {
                    if k == i {
                        assert(r@[r@.len() - 1] == k);
                    } else {
                        let m = choose|m: int| 0 <= m < r0.len() && r0[m] == k;
                        assert(r@[m] == k);
                    }
                }
            }
            i = i + 1;
        }
        r
    }

    /// Total of all tile values on the board.
    pub fn grid_total(&self) -> (t: u64)
        requires
            self.wf(),
        ensures
            t as int == total(self.cells()),
    {
        let mut t: u64 = 0;
        let len = self.grid.len();
        let mut i: usize = 0;
        while i < len
            invariant
                self.wf(),
                i <= len,
                len == self.cells().len(),
                t as int == sum_prefix(self.cells(), i as int),
            decreases len - i,
        {
            proof {
                lemma_sum_prefix_le(self.cells(), i as int + 1, len as int);
            }
            t = t + self.grid[i];
            i = i + 1;
        }
        t
    }

    /// Spawn one tile: choose an empty cell uniformly at random and place a
    /// 2 (probability 9/10) or a 4 there, recording it as the last spawn.
    /// A full board is a no-op, as is a board whose total has reached the
    /// engine's bound (which keeps merges overflow-free).
    pub(crate) fn add_tile(&mut self)
        requires
            old(self).wf(),
        ensures
            final(self).wf(),
            final(self).size() == old(self).size(),
            final(self).cells().len() == old(self).cells().len(),
            final(self).spec_score() == old(self).spec_score(),
            total(old(self).cells()) <= total(final(self).cells()),
            total(final(self).cells()) <= total(old(self).cells()) + 4,
            forall|i: int|
                0 <= i < final(self).cells().len()
                    ==> ((#[trigger] final(self).cells()[i]) == old(self).cells()[i]
                        || final(self).cells()[i] == 2
                        || final(self).cells()[i] == 4),
            (count_nonzero(old(self).cells()) == old(self).cells().len()
                || total(old(self).cells()) + 4 > MAX_TOTAL)
                ==> (final(self).cells() == old(self).cells()
                    && final(self).last_spawn() == old(self).last_spawn()),
            (count_nonzero(old(self).cells()) < old(self).cells().len()
                && total(old(self).cells()) + 4 <= MAX_TOTAL)
                ==> exists|j: int|
                    0 <= j < old(self).cells().len()
                        && (#[trigger] old(self).cells()[j]) == 0
                        && (final(self).cells()[j] == 2 || final(self).cells()[j] == 4)
                        && final(self).cells() == old(self).cells().update(j, final(self).cells()[j])
                        && final(self).last_spawn() == Some(j as usize)
                        && count_nonzero(final(self).cells()) == count_nonzero(old(self).cells()) + 1,
    {
        let empties = self.get_empty_cell();
        if empties.len() > 0 {
            let t = self.grid_total();
            proof {
                crate::grid::lemma_total_nonneg(self.cells());
            }
            if t <= MAX_TOTAL - 4 {
                let k = rand_below(&mut self.rng, empties.len());
                let j = empties[k];
                let v: u64 = if rand_ratio(&mut self.rng, 9, 10) {
                    2
                } else {
                    4
                };
                proof {
                    assert(is_pow2(1));
                    assert(is_pow2(2));
                    assert(is_pow2(4));
                    lemma_total_update(self.cells(), j as int, v);
                    lemma_count_prefix_update(
                        self.cells(),
                        j as int,
                        v,
                        self.cells().len() as int,
                    );
                }
                self.grid.set(j, v);
                self.new_tile_index = Some(j);
            }
        }
    }

    /// Create a `grid_size x grid_size` board of empty cells and seed it
    /// with `start_tiles_count` random tiles (fewer only if the whole board
    /// is smaller than that); the spawn highlight is then cleared. A grid
    /// size of zero is rejected as an invalid configuration.
    pub fn new(grid_size: usize, start_tiles_count: u8) -> (r: Result<Game, ConfigError>)
        requires
            grid_size * grid_size <= usize::MAX,
        ensures
            match r {
                Ok(g) => {
                    &&& grid_size >= 1
                    &&& g.wf()
                    &&& g.size() == grid_size
                    &&& g.spec_score() == 0
                    &&& g.last_spawn() is None
                    &&& forall|i: int|
                        0 <= i < g.cells().len() ==> ((#[trigger] g.cells()[i]) == 0 || g.cells()[i]
                            == 2 || g.cells()[i] == 4)
                    &&& count_nonzero(g.cells()) == if (start_tiles_count as int)
                        <= g.cells().len() {
                        start_tiles_count as int
                    } else {
                        g.cells().len() as int
                    }
                },
                Err(e) => grid_size == 0 && e == ConfigError::ZeroGridSize,
            },
            r is Err <==> grid_size == 0,
    {
        if grid_size == 0 {
            return Err(ConfigError::ZeroGridSize);
        }
        let count = grid_size * grid_size;
        let mut grid: Vec<u64> = Vec::new();
        while grid.len() < count
            invariant
                grid@.len() <= count,
                forall|i: int| 0 <= i < grid@.len() ==> (#[trigger] grid@[i]) == 0,
            decreases count - grid@.len(),
        {
            grid.push(0);
        }
        let mut game = Game {
            rng: fresh_rng(),
            grid_size,
            grid,
            new_tile_index: None,
            score: 0,
        };
        proof {
            lemma_zero_prefix(game.cells(), game.cells().len() as int);
        }
        let mut done: u8 = 0;
        while done < start_tiles_count
            invariant
                game.wf(),
                game.size() == grid_size,
                grid_size >= 1,
                game.spec_score() == 0,
                done <= start_tiles_count,
                game.cells().len() == grid_size * grid_size,
                forall|i: int|
                    0 <= i < game.cells().len() ==> ((#[trigger] game.cells()[i]) == 0
                        || game.cells()[i] == 2 || game.cells()[i] == 4),
                count_nonzero(game.cells()) == if (done as int) <= game.cells().len() {
                    done as int
                } else {
                    game.cells().len() as int
                },
                total(game.cells()) <= 4 * (done as int),
            decreases start_tiles_count - done,
        {
            proof {
                lemma_count_prefix_props(game.cells(), game.cells().len() as int);
            }
            let ghost before = game;
            game.add_tile();
            proof {
                if count_nonzero(before.cells()) < before.cells().len() {
                    let j = choose|j: int|
                        0 <= j < before.cells().len() && (#[trigger] before.cells()[j]) == 0 && (
                        game.cells()[j] == 2 || game.cells()[j] == 4) && game.cells()
                            == before.cells().update(j, game.cells()[j]) && game.last_spawn()
                            == Some(j as usize) && count_nonzero(game.cells()) == count_nonzero(
                            before.cells(),
                        ) + 1;
                }
            }
            done = done + 1;
        }
        game.new_tile_index = None;
        Ok(game)
    }

    /// Build a board from explicit cell values, with score zero and no
    /// spawn highlight: the deterministic entry point for known positions.
    pub fn from_cells(grid_size: usize, cells: Vec<u64>) -> (g: Game)
        requires
            grid_size >= 1,
            cells@.len() == grid_size * grid_size,
            forall|i: int| 0 <= i < cells@.len() ==> cell_ok(#[trigger] cells@[i]),
            total(cells@) <= MAX_TOTAL,
        ensures
            g.wf(),
            g.size() == grid_size,
            g.cells() == cells@,
            g.spec_score() == 0,
            g.last_spawn() is None,
    {
        Game { rng: fresh_rng(), grid_size, grid: cells, new_tile_index: None, score: 0 }
    }

    /// Side length of the grid.
    pub fn grid_size(&self) -> (n: usize)
        ensures
            n as int == self.size(),
    {
        self.grid_size
    }

    /// The value of the tile at `(row, col)`; 0 is an empty cell.
    pub fn tile(&self, row: usize, col: usize) -> (v: u64)
        requires
            self.wf(),
            (row as int) < self.size(),
            (col as int) < self.size(),
        ensures
            v == self.cells()[index_of(self.size(), row as int, col as int)],
    {
        let i = self.coords_to_index(row, col);
        self.grid[i]
    }

    /// The accumulated score.
    pub fn score(&self) -> (s: u64)
        ensures
            s == self.spec_score(),
    {
        self.score
    }

    /// Index of the most recently spawned tile, if any.
    pub fn last_spawned(&self) -> (r: Option<usize>)
        ensures
            r == self.last_spawn(),
    {
        self.new_tile_index
    }

    /// The game is over exactly when no cell is empty and no two equal
    /// tiles are adjacent horizontally or vertically.
    pub fn is_finished(&self) -> (r: bool)
        requires
            self.wf(),
        ensures
            r == finished(self.size(), self.cells()),
    {
        let len = self.grid.len();
        let mut i: usize = 0;
        while i < len
            invariant
                self.wf(),
                i <= len,
                len == self.cells().len(),
                forall|k: int| 0 <= k < i ==> #[trigger] stuck_at(self.size(), self.cells(), k),
            decreases len - i,
        {
            if self.grid[i] == 0 {
                proof {
                    assert(!stuck_at(self.size(), self.cells(), i as int));
                }
                return false;
            }
            match self.get_adjacent_tile_index(i, &Direction::Right) {
                Some(right) => {
                    if self.grid[i] == self.grid[right] {
                        proof {
                            assert(!stuck_at(self.size(), self.cells(), i as int));
                        }
                        return false;
                    }
                },
                None => {},
            }
            match self.get_adjacent_tile_index(i, &Direction::Down) {
                Some(down) => {
                    if self.grid[i] == self.grid[down] {
                        proof {
                            assert(!stuck_at(self.size(), self.cells(), i as int));
                        }
                        return false;
                    }
                },
                None => {},
            }
            proof {
                assert(stuck_at(self.size(), self.cells(), i as int));
            }
            i = i + 1;
        }
        true
    }
}

} // verus!
