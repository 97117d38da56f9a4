//! Mathematical model of the board: grid geometry (rows, columns, adjacency),
//! legal tile values, and summation helpers used by the movement contracts.

use vstd::multiset::Multiset;
use vstd::prelude::*;
use vstd::arithmetic::div_mod::{
    lemma_fundamental_div_mod, lemma_fundamental_div_mod_converse,
    lemma_mod_division_less_than_divisor, lemma_multiply_divide_lt,
};

verus! {

/// A move command: the edge toward which every tile slides.
#[derive(Clone, Copy, PartialEq, Eq, Structural, Debug)]
pub enum Direction {
    Up,
    Down,
    Left,
    Right,
}

/// Row of the cell at linear index `i` on an `n x n` grid (row-major layout).
pub open spec fn row_of(n: int, i: int) -> int {
    i / n
}

/// Column of the cell at linear index `i`.
pub open spec fn col_of(n: int, i: int) -> int {
    i % n
}

/// Linear index of the cell at `(row, col)`.
pub open spec fn index_of(n: int, row: int, col: int) -> int {
    row * n + col
}

/// The cell adjacent to `i` in direction `d`, or `None` at the boundary.
pub open spec fn adj(n: int, i: int, d: Direction) -> Option<int> {
    match d {
        Direction::Up => if row_of(n, i) == 0 { None } else { Some(i - n) },
        Direction::Down => if row_of(n, i) == n - 1 { None } else { Some(i + n) },
        Direction::Left => if col_of(n, i) == 0 { None } else { Some(i - 1) },
        Direction::Right => if col_of(n, i) == n - 1 { None } else { Some(i + 1) },
    }
}

/// How many cells lie between `i` and the edge that `d` points at; the
/// measure that shrinks each time a tile keeps sliding in direction `d`.
pub open spec fn edge_dist(n: int, i: int, d: Direction) -> int {
    match d {
        Direction::Up => row_of(n, i),
        Direction::Down => n - 1 - row_of(n, i),
        Direction::Left => col_of(n, i),
        Direction::Right => n - 1 - col_of(n, i),
    }
}

/// `v` is a power of two.
pub open spec fn is_pow2(v: int) -> bool
    decreases v,
{
    if v <= 0 {
        false
    } else if v == 1 {
        true
    } else {
        v % 2 == 0 && is_pow2(v / 2)
    }
}

/// A legal tile value: empty, or a power of two that is at least 2.
pub open spec fn cell_ok(v: u64) -> bool {
    v == 0 || (v >= 2 && is_pow2(v as int))
}

/// Sum of the first `k` values of `s`.
pub open spec fn sum_prefix(s: Seq<u64>, k: int) -> int
    decreases k,
{
    if k <= 0 {
        0
    } else {
        sum_prefix(s, k - 1) + s[k - 1]
    }
}

/// Total of all tile values on the board.
pub open spec fn total(s: Seq<u64>) -> int {
    sum_prefix(s, s.len() as int)
}

/// Sum, over the first `k` cells, of the values of the cells that are locked
/// in `l1` but not in `l0`: the score earned by the merges between the two
/// lock states.
pub open spec fn gain_prefix(g: Seq<u64>, l0: Seq<bool>, l1: Seq<bool>, k: int) -> int
    decreases k,
{
    if k <= 0 {
        0
    } else {
        gain_prefix(g, l0, l1, k - 1) + if l1[k - 1] && !l0[k - 1] {
            g[k - 1] as int
        } else {
            0
        }
    }
}

/// Score earned by the merges that set a lock between `l0` and `l1`.
pub open spec fn gain(g: Seq<u64>, l0: Seq<bool>, l1: Seq<bool>) -> int {
    gain_prefix(g, l0, l1, g.len() as int)
}

/// Number of occupied cells among the first `k`.
pub open spec fn count_nonzero_prefix(s: Seq<u64>, k: int) -> int
    decreases k,
{
    if k <= 0 {
        0
    } else {
        count_nonzero_prefix(s, k - 1) + if s[k - 1] != 0 {
            1int
        } else {
            0
        }
    }
}

/// Number of occupied cells on the board.
pub open spec fn count_nonzero(s: Seq<u64>) -> int {
    count_nonzero_prefix(s, s.len() as int)
}

/// The score after earning `g` points on top of `s`, saturating at the
/// largest representable score.
pub open spec fn score_after(s: u64, g: int) -> u64 {
    if s + g > u64::MAX {
        u64::MAX
    } else {
        (s + g) as u64
    }
}

/// Multiset of the occupied tile values among the first `k` cells.
pub open spec fn tiles_prefix(s: Seq<u64>, k: int) -> Multiset<u64>
    decreases k,
{
    if k <= 0 {
        Multiset::empty()
    } else if s[k - 1] != 0 {
        tiles_prefix(s, k - 1).insert(s[k - 1])
    } else {
        tiles_prefix(s, k - 1)
    }
}

/// The tiles on the board: the multiset of all occupied cell values, with
/// positions forgotten.
pub open spec fn tiles(s: Seq<u64>) -> Multiset<u64> {
    tiles_prefix(s, s.len() as int)
}

/// Number of cells among the first `k` that hold exactly the value `v`.
pub open spec fn occ_prefix(s: Seq<u64>, v: u64, k: int) -> int
    decreases k,
{
    if k <= 0 {
        0
    } else {
        occ_prefix(s, v, k - 1) + if s[k - 1] == v {
            1int
        } else {
            0
        }
    }
}

/// The tiles multiset counts each non-zero value as often as it occurs.
pub proof fn lemma_tiles_prefix_count(s: Seq<u64>, v: u64, k: int)
    ensures
        tiles_prefix(s, k).count(v) == if v == 0 {
            0int
        } else {
            occ_prefix(s, v, k)
        },
    decreases k,
{
    broadcast use vstd::multiset::group_multiset_axioms;

    if k > 0 {
        lemma_tiles_prefix_count(s, v, k - 1);
    }
}

/// Mathematical mirror of one movement step of the resolver: from cell
/// `i`, if the neighbour toward `d` is empty and unlocked the tile slides
/// there and keeps going; if it holds the same value and is unlocked it
/// absorbs the tile, doubling, locking itself and paying its new value
/// into the (saturating) score. Returns the board, the locks, the score
/// and whether anything changed.
pub open spec fn step(n: int, g: Seq<u64>, l: Seq<bool>, s: u64, i: int, d: Direction) -> (
    Seq<u64>,
    Seq<bool>,
    u64,
    bool,
)
    decreases edge_dist(n, i, d)
        when 0 <= i < n * n && n >= 1 && g.len() == n * n
{
    proof {
        if 0 <= i < n * n && n >= 1 {
            lemma_adj(n, i, d);
        }
    }
    match adj(n, i, d) {
        None => (g, l, s, false),
        Some(j) => if g[i] != 0 && !l[j] {
            if g[j] == 0 {
                let r = step(n, g.update(j, g[i]).update(i, 0), l, s, j, d);
                (r.0, r.1, r.2, true)
            } else if g[j] == g[i] {
                (
                    g.update(j, (2 * g[i]) as u64).update(i, 0),
                    l.update(j, true),
                    score_after(s, 2 * g[i]),
                    true,
                )
            } else {
                (g, l, s, false)
            }
        } else {
            (g, l, s, false)
        },
    }
}

/// The cell that a sweep in direction `d` processes in its `k`-th call:
/// ascending row-major for Up, descending for Down, column-major from the
/// left for Left and from the right for Right.
pub open spec fn sweep_order(n: int, d: Direction, k: int) -> int {
    match d {
        Direction::Up => k,
        Direction::Down => n * n - 1 - k,
        Direction::Left => (k % n) * n + k / n,
        Direction::Right => (k % n) * n + (n - 1 - k / n),
    }
}

/// Board, locks, score and changed flag after the first `k` calls of the
/// sweep for direction `d`.
pub open spec fn sweep_prefix(
    n: int,
    g: Seq<u64>,
    l: Seq<bool>,
    s: u64,
    d: Direction,
    k: int,
) -> (Seq<u64>, Seq<bool>, u64, bool)
    decreases k,
{
    if k <= 0 {
        (g, l, s, false)
    } else {
        let p = sweep_prefix(n, g, l, s, d, k - 1);
        let r = step(n, p.0, p.1, p.2, sweep_order(n, d, k - 1), d);
        (r.0, r.1, r.2, p.3 || r.3)
    }
}

/// One whole move of the resolver: every cell processed once in the
/// direction's traversal order, starting with all merge locks clear.
/// Returns the board, the score and whether anything changed.
pub open spec fn sweep(n: int, g: Seq<u64>, s: u64, d: Direction) -> (Seq<u64>, u64, bool) {
    let r = sweep_prefix(n, g, Seq::new((n * n) as nat, |i: int| false), s, d, n * n);
    (r.0, r.2, r.3)
}

/// Weighted distance of the board's tiles from the target edge. Every
/// slide and every merge strictly decreases it, so a move that reports a
/// change cannot leave the board as it was.
pub open spec fn pot_prefix(n: int, g: Seq<u64>, d: Direction, k: int) -> int
    decreases k,
{
    if k <= 0 {
        0
    } else {
        pot_prefix(n, g, d, k - 1) + g[k - 1] * edge_dist(n, k - 1, d)
    }
}

/// Weighted distance of all tiles from the target edge.
pub open spec fn pot(n: int, g: Seq<u64>, d: Direction) -> int {
    pot_prefix(n, g, d, g.len() as int)
}

/// Overwriting one cell shifts the weighted distance by the change at
/// that cell, weighted by its own distance from the edge.
pub proof fn lemma_pot_prefix_update(n: int, s: Seq<u64>, d: Direction, j: int, v: u64, k: int)
    requires
        0 <= j < s.len(),
        k <= s.len(),
    ensures
        pot_prefix(n, s.update(j, v), d, k) == pot_prefix(n, s, d, k) + if j < k {
            (v - s[j]) * edge_dist(n, j, d)
        } else {
            0
        },
    decreases k,
{
    if k > 0 {
        lemma_pot_prefix_update(n, s, d, j, v, k - 1);
        if j == k - 1 {
            let e = edge_dist(n, j, d);
            assert((v as int) * e - (s[j] as int) * e == (v - s[j]) * e) by (nonlinear_arith);
        }
    }
}

/// Overwriting one cell changes each value's occurrence count by exactly
/// the cell's contribution.
pub proof fn lemma_occ_prefix_update(s: Seq<u64>, j: int, w: u64, v: u64, k: int)
    requires
        0 <= j < s.len(),
        k <= s.len(),
    ensures
        occ_prefix(s.update(j, w), v, k) == occ_prefix(s, v, k) + if j < k {
            (if w == v {
                1int
            } else {
                0
            }) - (if s[j] == v {
                1int
            } else {
                0
            })
        } else {
            0
        },
    decreases k,
{
    if k > 0 {
        lemma_occ_prefix_update(s, j, w, v, k - 1);
    }
}

/// Number of locks set between two lock states among the first `k`
/// cells: each merge locks exactly one cell, so this counts the merges.
pub open spec fn merges_prefix(l0: Seq<bool>, l1: Seq<bool>, k: int) -> int
    decreases k,
{
    if k <= 0 {
        0
    } else {
        merges_prefix(l0, l1, k - 1) + if l1[k - 1] && !l0[k - 1] {
            1int
        } else {
            0
        }
    }
}

/// Number of merges between two lock states of the whole board.
pub open spec fn merges(l0: Seq<bool>, l1: Seq<bool>) -> int {
    merges_prefix(l0, l1, l0.len() as int)
}

/// Identical lock states record no merge.
pub proof fn lemma_merges_prefix_refl(l: Seq<bool>, k: int)
    ensures
        merges_prefix(l, l, k) == 0,
    decreases k,
{
    if k > 0 {
        lemma_merges_prefix_refl(l, k - 1);
    }
}

/// Setting one new lock records exactly one merge.
pub proof fn lemma_merges_prefix_lock_one(l: Seq<bool>, j: int, k: int)
    requires
        0 <= j < l.len(),
        !l[j],
        k <= l.len(),
    ensures
        merges_prefix(l, l.update(j, true), k) == if j < k {
            1int
        } else {
            0
        },
    decreases k,
{
    if k > 0 {
        lemma_merges_prefix_lock_one(l, j, k - 1);
    }
}

/// A merge of zero total gain set no new lock: every locked cell was
/// already locked (newly locked cells always hold a positive value).
pub proof fn lemma_gain_zero_no_new_lock(g: Seq<u64>, l0: Seq<bool>, l1: Seq<bool>, k: int)
    requires
        k <= g.len(),
        gain_prefix(g, l0, l1, k) == 0,
        forall|i: int| 0 <= i < k ==> (((#[trigger] l1[i]) && !l0[i]) ==> g[i] >= 1),
    ensures
        forall|i: int| 0 <= i < k ==> ((#[trigger] l1[i]) ==> l0[i]),
    decreases k,
{
    if k > 0 {
        lemma_gain_prefix_nonneg(g, l0, l1, k - 1);
        lemma_gain_zero_no_new_lock(g, l0, l1, k - 1);
    }
}

/// Cell `i` cannot take part in any move: it is occupied and differs from
/// its Right and Down neighbours (where those exist).
pub open spec fn stuck_at(n: int, g: Seq<u64>, i: int) -> bool {
    &&& g[i] != 0
    &&& match adj(n, i, Direction::Right) {
        Some(j) => g[j] != g[i],
        None => true,
    }
    &&& match adj(n, i, Direction::Down) {
        Some(j) => g[j] != g[i],
        None => true,
    }
}

/// The board is terminal: no empty cell, and no two equal values adjacent
/// horizontally or vertically. Checking Right and Down from every cell
/// covers each adjacency exactly once.
pub open spec fn finished(n: int, g: Seq<u64>) -> bool {
    forall|i: int| 0 <= i < g.len() ==> #[trigger] stuck_at(n, g, i)
}

/// Coordinates of an in-range index are in range, and recombine to it.
pub proof fn lemma_coords(n: int, i: int)
    requires
        n >= 1,
        0 <= i < n * n,
    ensures
        0 <= row_of(n, i) < n,
        0 <= col_of(n, i) < n,
        index_of(n, row_of(n, i), col_of(n, i)) == i,
{
    lemma_fundamental_div_mod(i, n);
    lemma_mod_division_less_than_divisor(i, n);
    lemma_multiply_divide_lt(i, n, n);
    assert(n * (i / n) == (i / n) * n) by (nonlinear_arith);
}

/// An in-range pair of coordinates yields an in-range index with those
/// coordinates.
pub proof fn lemma_index(n: int, row: int, col: int)
    requires
        n >= 1,
        0 <= row < n,
        0 <= col < n,
    ensures
        0 <= index_of(n, row, col) < n * n,
        row_of(n, index_of(n, row, col)) == row,
        col_of(n, index_of(n, row, col)) == col,
{
    assert(0 <= row * n + col < n * n) by (nonlinear_arith)
        requires n >= 1 && 0 <= row < n && 0 <= col < n;
    lemma_fundamental_div_mod_converse(row * n + col, n, row, col);
}

/// The neighbour in direction `d`, when it exists, is in range, sits one
/// step closer to the target edge, and shares the other coordinate.
pub proof fn lemma_adj(n: int, i: int, d: Direction)
    requires
        n >= 1,
        0 <= i < n * n,
    ensures
        match adj(n, i, d) {
            Some(j) => {
                &&& 0 <= j < n * n
                &&& j != i
                &&& edge_dist(n, j, d) == edge_dist(n, i, d) - 1
                &&& match d {
                    Direction::Up => row_of(n, j) == row_of(n, i) - 1 && col_of(n, j) == col_of(n, i),
                    Direction::Down => row_of(n, j) == row_of(n, i) + 1 && col_of(n, j) == col_of(n, i),
                    Direction::Left => row_of(n, j) == row_of(n, i) && col_of(n, j) == col_of(n, i) - 1,
                    Direction::Right => row_of(n, j) == row_of(n, i) && col_of(n, j) == col_of(n, i) + 1,
                }
            },
            None => edge_dist(n, i, d) == 0,
        },
        0 <= edge_dist(n, i, d) < n,
{
    lemma_coords(n, i);
    let r = row_of(n, i);
    let c = col_of(n, i);
    match d {
        Direction::Up => {
            if r != 0 {
                lemma_index(n, r - 1, c);
                assert((r - 1) * n + c == r * n + c - n) by (nonlinear_arith);
            }
        },
        Direction::Down => {
            if r != n - 1 {
                lemma_index(n, r + 1, c);
                assert((r + 1) * n + c == r * n + c + n) by (nonlinear_arith);
            }
        },
        Direction::Left => {
            if c != 0 {
                lemma_index(n, r, c - 1);
            }
        },
        Direction::Right => {
            if c != n - 1 {
                lemma_index(n, r, c + 1);
            }
        },
    }
}

/// On a terminal board, every existing neighbour of every cell is occupied
/// and holds a different value, in all four directions: the Right/Down
/// checks of `finished` cover each adjacent pair from one of its endpoints.
pub proof fn lemma_finished_blocks(n: int, g: Seq<u64>, i: int, d: Direction)
    requires
        n >= 1,
        g.len() == n * n,
        finished(n, g),
        0 <= i < n * n,
    ensures
        match adj(n, i, d) {
            Some(j) => g[j] != 0 && g[j] != g[i],
            None => true,
        },
{
    lemma_adj(n, i, d);
    assert(stuck_at(n, g, i));
    match adj(n, i, d) {
        Some(j) => {
            assert(stuck_at(n, g, j));
            lemma_adj(n, j, d);
            match d {
                Direction::Up => {
                    // `i` is the Down neighbour of `j`.
                    lemma_adj(n, j, Direction::Down);
                    lemma_coords(n, j);
                    lemma_index(n, row_of(n, j) + 1, col_of(n, j));
                    assert((row_of(n, j) + 1) * n + col_of(n, j) == row_of(n, j) * n + col_of(n, j) + n)
                        by (nonlinear_arith);
                    assert(adj(n, j, Direction::Down) == Some(i));
                },
                Direction::Down => {
                    assert(g[j] != g[i]);
                },
                Direction::Left => {
                    // `i` is the Right neighbour of `j`.
                    lemma_adj(n, j, Direction::Right);
                    assert(adj(n, j, Direction::Right) == Some(i));
                },
                Direction::Right => {
                    assert(g[j] != g[i]);
                },
            }
        },
        None => {},
    }
}

/// Doubling a positive power of two yields a power of two.
pub proof fn lemma_pow2_double(v: int)
    requires
        v >= 1,
        is_pow2(v),
    ensures
        is_pow2(2 * v),
{
    assert((2 * v) % 2 == 0 && (2 * v) / 2 == v) by (nonlinear_arith);
}

/// Updating one cell shifts every prefix sum by the change at that cell.
pub proof fn lemma_sum_prefix_update(s: Seq<u64>, j: int, v: u64, k: int)
    requires
        0 <= j < s.len(),
        k <= s.len(),
    ensures
        sum_prefix(s.update(j, v), k) == sum_prefix(s, k) + if j < k {
            v - s[j]
        } else {
            0
        },
    decreases k,
{
    if k > 0 {
        lemma_sum_prefix_update(s, j, v, k - 1);
    }
}

/// Updating one cell shifts the board total by the change at that cell.
pub proof fn lemma_total_update(s: Seq<u64>, j: int, v: u64)
    requires
        0 <= j < s.len(),
    ensures
        total(s.update(j, v)) == total(s) + v - s[j],
{
    lemma_sum_prefix_update(s, j, v, s.len() as int);
}

/// Prefix sums of the board grow with the prefix, so each is at most the
/// total (every tile value is non-negative).
pub proof fn lemma_sum_prefix_le(s: Seq<u64>, k: int, m: int)
    requires
        0 <= k <= m <= s.len(),
    ensures
        sum_prefix(s, k) <= sum_prefix(s, m),
    decreases m,
{
    if k < m {
        lemma_sum_prefix_le(s, k, m - 1);
    }
}

/// The board total is non-negative.
pub proof fn lemma_total_nonneg(s: Seq<u64>)
    ensures
        total(s) >= 0,
{
    lemma_sum_prefix_le(s, 0, s.len() as int);
}

/// An all-empty prefix contributes nothing to the total or to the count of
/// occupied cells.
pub proof fn lemma_zero_prefix(s: Seq<u64>, k: int)
    requires
        forall|i: int| 0 <= i < k ==> s[i] == 0,
    ensures
        sum_prefix(s, k) == 0,
        count_nonzero_prefix(s, k) == 0,
    decreases k,
{
    if k > 0 {
        lemma_zero_prefix(s, k - 1);
    }
}

/// The count of occupied cells among the first `k` is between 0 and `k`,
/// and reaches `k` exactly when all of them are occupied.
pub proof fn lemma_count_prefix_props(s: Seq<u64>, k: int)
    requires
        0 <= k <= s.len(),
    ensures
        0 <= count_nonzero_prefix(s, k) <= k,
        count_nonzero_prefix(s, k) == k <==> (forall|i: int| 0 <= i < k ==> s[i] != 0),
    decreases k,
{
    if k > 0 {
        lemma_count_prefix_props(s, k - 1);
    }
}

/// Overwriting one cell changes the count of occupied cells by exactly
/// the cell's contribution.
pub proof fn lemma_count_prefix_update(s: Seq<u64>, j: int, v: u64, k: int)
    requires
        0 <= j < s.len(),
        k <= s.len(),
    ensures
        count_nonzero_prefix(s.update(j, v), k) == count_nonzero_prefix(s, k) + if j < k {
            (if v != 0 {
                1int
            } else {
                0
            }) - (if s[j] != 0 {
                1int
            } else {
                0
            })
        } else {
            0
        },
    decreases k,
{
    if k > 0 {
        lemma_count_prefix_update(s, j, v, k - 1);
    }
}

/// No merge between identical lock states: the gain is zero.
pub proof fn lemma_gain_prefix_refl(g: Seq<u64>, l: Seq<bool>, k: int)
    ensures
        gain_prefix(g, l, l, k) == 0,
    decreases k,
{
    if k > 0 {
        lemma_gain_prefix_refl(g, l, k - 1);
    }
}

/// The gain of a single new lock at `j` is the value at `j`.
pub proof fn lemma_gain_prefix_lock_one(g: Seq<u64>, l: Seq<bool>, j: int, k: int)
    requires
        0 <= j < l.len(),
        !l[j],
        k <= l.len(),
    ensures
        gain_prefix(g, l, l.update(j, true), k) == if j < k {
            g[j] as int
        } else {
            0
        },
    decreases k,
{
    if k > 0 {
        lemma_gain_prefix_lock_one(g, l, j, k - 1);
    }
}

/// Gains compose across two steps, provided locks only grow and the cells
/// locked after the first step keep their values through the second.
pub proof fn lemma_gain_prefix_compose(
    g1: Seq<u64>,
    g2: Seq<u64>,
    l0: Seq<bool>,
    l1: Seq<bool>,
    l2: Seq<bool>,
    k: int,
)
    requires
        forall|i: int| 0 <= i < k ==> (#[trigger] l0[i] ==> l1[i]),
        forall|i: int| 0 <= i < k ==> (#[trigger] l1[i] ==> l2[i]),
        forall|i: int| 0 <= i < k ==> (#[trigger] l1[i] ==> g2[i] == g1[i]),
    ensures
        gain_prefix(g2, l0, l2, k) == gain_prefix(g1, l0, l1, k) + gain_prefix(g2, l1, l2, k),
    decreases k,
{
    if k > 0 {
        lemma_gain_prefix_compose(g1, g2, l0, l1, l2, k - 1);
    }
}

/// Merges never pay a negative score: the gain over any prefix of the board
/// is non-negative.
pub proof fn lemma_gain_prefix_nonneg(g: Seq<u64>, l0: Seq<bool>, l1: Seq<bool>, k: int)
    requires
        k <= g.len(),
    ensures
        gain_prefix(g, l0, l1, k) >= 0,
    decreases k,
{
    if k > 0 {
        lemma_gain_prefix_nonneg(g, l0, l1, k - 1);
    }
}

} // verus!
