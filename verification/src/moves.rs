//! The movement resolver: one directional move over the whole board, with
//! cascading slides, merge-once-per-move semantics enforced by a per-move
//! lock array, and the traversal orders that make the locks sound.

use vstd::prelude::*;

use vstd::arithmetic::div_mod::{lemma_div_is_ordered, lemma_fundamental_div_mod_converse};

use crate::game::{Game, MAX_TOTAL};
use crate::grid::{
    adj, col_of, count_nonzero, lemma_coords, row_of, edge_dist, finished, gain, lemma_adj, lemma_finished_blocks,
    lemma_gain_prefix_compose, lemma_gain_prefix_lock_one, lemma_gain_prefix_nonneg,
    lemma_count_prefix_props, lemma_count_prefix_update, lemma_gain_prefix_refl,
    lemma_gain_zero_no_new_lock, lemma_index, lemma_occ_prefix_update, lemma_pot_prefix_update,
    lemma_merges_prefix_lock_one, lemma_merges_prefix_refl, lemma_pow2_double,
    lemma_tiles_prefix_count, lemma_total_nonneg, lemma_total_update, merges, pot,
    score_after, step, stuck_at, sweep, sweep_order, sweep_prefix, tiles, total, Direction,
};

verus! {

/// A fresh per-move merge-lock array: one entry per cell, all unlocked.
fn fresh_locks(len: usize) -> (v: Vec<bool>)
    ensures
        v@.len() == len,
        forall|i: int| 0 <= i < len ==> !(#[trigger] v@[i]),
{
    let mut v: Vec<bool> = Vec::new();
    while v.len() < len
        invariant
            v@.len() <= len,
            forall|i: int| 0 <= i < v@.len() ==> !(#[trigger] v@[i]),
        decreases len - v@.len(),
    {
        v.push(false);
    }
    v
}

/// One sweep step: the per-move invariants (score accounted by the merge
/// locks, boundary tiles at most doubled once) carry across a single
/// `move_tile` call, whatever cell it processed.
proof fn lemma_sweep_step(
    start: Game,
    pre: Game,
    post: Game,
    l0: Seq<bool>,
    lpre: Seq<bool>,
    lpost: Seq<bool>,
    d: Direction,
)
    requires
        start.wf(),
        l0.len() == start.cells().len(),
        lpre.len() == l0.len(),
        lpost.len() == l0.len(),
        forall|i: int| 0 <= i < l0.len() ==> !(#[trigger] l0[i]),
        pre.cells().len() == start.cells().len(),
        pre.size() == start.size(),
        pre.spec_score() == score_after(start.spec_score(), gain(pre.cells(), l0, lpre)),
        forall|c: int|
            0 <= c < start.cells().len() && (#[trigger] adj(start.size(), c, d)) is None
                && start.cells()[c] != 0
                ==> ((pre.cells()[c] == start.cells()[c] && !lpre[c])
                || (pre.cells()[c] == 2 * start.cells()[c] && lpre[c])),
        post.cells().len() == pre.cells().len(),
        forall|i: int| 0 <= i < lpre.len() ==> ((#[trigger] lpre[i]) ==> lpost[i]),
        forall|i: int|
            0 <= i < lpre.len() ==> ((#[trigger] lpre[i]) ==> post.cells()[i] == pre.cells()[i]),
        post.spec_score() == score_after(pre.spec_score(), gain(post.cells(), lpre, lpost)),
        forall|c: int|
            0 <= c < pre.cells().len() && (#[trigger] adj(pre.size(), c, d)) is None
                && pre.cells()[c] != 0
                ==> ((post.cells()[c] == pre.cells()[c] && lpost[c] == lpre[c])
                || (post.cells()[c] == 2 * pre.cells()[c] && lpost[c] && !lpre[c])),
    ensures
        post.spec_score() == score_after(start.spec_score(), gain(post.cells(), l0, lpost)),
        forall|c: int|
            0 <= c < start.cells().len() && (#[trigger] adj(start.size(), c, d)) is None
                && start.cells()[c] != 0
                ==> ((post.cells()[c] == start.cells()[c] && !lpost[c])
                || (post.cells()[c] == 2 * start.cells()[c] && lpost[c])),
{
    let len = start.cells().len() as int;
    lemma_gain_prefix_nonneg(pre.cells(), l0, lpre, len);
    lemma_gain_prefix_nonneg(post.cells(), lpre, lpost, len);
    lemma_gain_prefix_compose(pre.cells(), post.cells(), l0, lpre, lpost, len);
    assert forall|c: int|
        0 <= c < start.cells().len() && (#[trigger] adj(start.size(), c, d)) is None
            && start.cells()[c] != 0 implies ((post.cells()[c] == start.cells()[c] && !lpost[c])
        || (post.cells()[c] == 2 * start.cells()[c] && lpost[c])) by {
        if pre.cells()[c] == start.cells()[c] && !lpre[c] {
            assert(pre.cells()[c] != 0);
        } else {
            assert(lpre[c]);
            assert(post.cells()[c] == pre.cells()[c]);
        }
    }
}

impl Game {
    /// Try to move the tile at `tile_index` one step in `direction`.
    /// An empty neighbour receives the tile, which then keeps sliding; a
    /// neighbour of equal value absorbs it once, doubling, locking itself
    /// for the rest of the move and paying its new value into the score.
    /// The contract pins the outcome exactly: board, locks, score and the
    /// changed flag equal the model's `step` function, so in particular a
    /// merge really doubles the neighbour, zeroes the source, locks the
    /// destination and pays the score, and a slide really vacates the
    /// source. On top of that it states the laws the sweeps lean on:
    /// locks only grow and only strictly toward the target edge, a locked
    /// cell never changes again (no tile merges twice in a move), the
    /// total of tile values is conserved, the score grows exactly by the
    /// merged values, a change strictly lowers the tiles' weighted
    /// distance from the edge, and a reported no-change leaves the board
    /// untouched.
    pub fn move_tile(
        &mut self,
        tile_index: usize,
        direction: &Direction,
        merge_status: &mut Vec<bool>,
    ) -> (changed: bool)
        requires
            old(self).wf(),
            tile_index < old(self).cells().len(),
            old(merge_status)@.len() == old(self).cells().len(),
            !old(merge_status)@[tile_index as int],
            forall|i: int|
                0 <= i < old(merge_status)@.len() ==> ((#[trigger] old(merge_status)@[i])
                    ==> old(self).cells()[i] != 0),
        ensures
            final(self).wf(),
            final(self).size() == old(self).size(),
            final(self).cells().len() == old(self).cells().len(),
            final(self).last_spawn() == old(self).last_spawn(),
            final(merge_status)@.len() == old(merge_status)@.len(),
            forall|i: int|
                0 <= i < old(merge_status)@.len()
                    ==> ((#[trigger] old(merge_status)@[i]) ==> final(merge_status)@[i]),
            forall|i: int|
                0 <= i < old(merge_status)@.len()
                    ==> ((#[trigger] old(merge_status)@[i])
                        ==> final(self).cells()[i] == old(self).cells()[i]),
            forall|i: int|
                0 <= i < old(merge_status)@.len()
                    ==> (((#[trigger] final(merge_status)@[i]) && !old(merge_status)@[i])
                        ==> edge_dist(old(self).size(), i, *direction) < edge_dist(
                            old(self).size(), tile_index as int, *direction)),
            forall|i: int|
                0 <= i < old(merge_status)@.len()
                    ==> (((#[trigger] final(merge_status)@[i]) && !old(merge_status)@[i])
                        ==> final(self).cells()[i] >= 4),
            total(final(self).cells()) == total(old(self).cells()),
            final(self).spec_score() == score_after(
                old(self).spec_score(),
                gain(final(self).cells(), old(merge_status)@, final(merge_status)@),
            ),
            final(merge_status)@ == old(merge_status)@ ==> tiles(final(self).cells()) == tiles(
                old(self).cells(),
            ),
            (final(self).cells(), final(merge_status)@, final(self).spec_score(), changed) == step(
                old(self).size(),
                old(self).cells(),
                old(merge_status)@,
                old(self).spec_score(),
                tile_index as int,
                *direction,
            ),
            match adj(old(self).size(), tile_index as int, *direction) {
                Some(j) => {
                    &&& ((old(self).cells()[tile_index as int] != 0 && !old(merge_status)@[j]
                        && old(self).cells()[j] == old(self).cells()[tile_index as int]) ==> (
                    changed && final(self).cells() == old(self).cells().update(
                        j,
                        (2 * old(self).cells()[tile_index as int]) as u64,
                    ).update(tile_index as int, 0) && final(merge_status)@ == old(
                        merge_status,
                    )@.update(j, true) && final(self).spec_score() == score_after(
                        old(self).spec_score(),
                        2 * old(self).cells()[tile_index as int],
                    )))
                    &&& ((old(self).cells()[tile_index as int] != 0 && !old(merge_status)@[j]
                        && old(self).cells()[j] == 0) ==> changed)
                },
                None => true,
            },
            pot(old(self).size(), final(self).cells(), *direction) <= pot(
                old(self).size(),
                old(self).cells(),
                *direction,
            ),
            changed ==> pot(old(self).size(), final(self).cells(), *direction) < pot(
                old(self).size(),
                old(self).cells(),
                *direction,
            ),
            count_nonzero(final(self).cells()) <= count_nonzero(old(self).cells()),
            changed ==> count_nonzero(final(self).cells()) < final(self).cells().len(),
            count_nonzero(final(self).cells()) + merges(old(merge_status)@, final(merge_status)@)
                == count_nonzero(old(self).cells()),
            forall|c: int|
                0 <= c < old(self).cells().len() && (#[trigger] final(self).cells()[c]) != old(
                    self,
                ).cells()[c] ==> (c == tile_index as int || edge_dist(old(self).size(), c, *direction)
                    < edge_dist(old(self).size(), tile_index as int, *direction)),
            forall|c: int|
                0 <= c < old(self).cells().len() && c != tile_index as int && old(self).cells()[c]
                    != 0 ==> (#[trigger] final(self).cells()[c]) != 0,
            forall|c: int|
                0 <= c < old(self).cells().len() && old(self).cells()[c] == 0 && (
                #[trigger] final(self).cells()[c]) != 0 ==> (match adj(
                    old(self).size(),
                    c,
                    *direction,
                ) {
                    Some(j) => final(self).cells()[j] != 0,
                    None => true,
                }),
            match adj(old(self).size(), tile_index as int, *direction) {
                Some(j) => final(self).cells()[tile_index as int] != 0 ==> final(self).cells()[j]
                    != 0,
                None => true,
            },
            forall|c: int|
                0 <= c < old(self).cells().len()
                    && (#[trigger] adj(old(self).size(), c, *direction)) is None
                    && old(self).cells()[c] != 0
                    ==> ((final(self).cells()[c] == old(self).cells()[c]
                        && final(merge_status)@[c] == old(merge_status)@[c])
                    || (final(self).cells()[c] == 2 * old(self).cells()[c]
                        && final(merge_status)@[c] && !old(merge_status)@[c])),
            !changed ==> final(self).cells() == old(self).cells() && final(merge_status)@ == old(
                merge_status,
            )@ && final(self).spec_score() == old(self).spec_score(),
            adj(old(self).size(), tile_index as int, *direction) is None ==> !changed,
            old(self).cells()[tile_index as int] == 0 ==> !changed,
            match adj(old(self).size(), tile_index as int, *direction) {
                Some(j) => (old(merge_status)@[j] ==> !changed) && ((old(self).cells()[tile_index
                    as int] != 0 && old(self).cells()[j] != 0 && old(self).cells()[j] != old(
                    self,
                ).cells()[tile_index as int]) ==> !changed),
                None => true,
            },
        decreases edge_dist(self.size(), tile_index as int, *direction),
    {
        proof {
            lemma_adj(self.size(), tile_index as int, *direction);
            // A path that changes nothing keeps the score and records no
            // merge: gain and merge count between identical lock states
            // are zero.
            lemma_gain_prefix_refl(self.cells(), merge_status@, self.cells().len() as int);
            lemma_merges_prefix_refl(merge_status@, self.cells().len() as int);
        }
        match self.get_adjacent_tile_index(tile_index, direction) {
            Some(adjacent) => {
                if self.grid[tile_index] != 0 && !merge_status[adjacent] {
                    if self.grid[adjacent] == 0 {
                        // Slide: the neighbour is empty; move the tile there
                        // and let it keep going.
                        let v = self.grid[tile_index];
                        proof {
                            lemma_total_update(self.cells(), adjacent as int, v);
                            lemma_total_update(
                                self.cells().update(adjacent as int, v),
                                tile_index as int,
                                0u64,
                            );
                        }
                        self.grid.set(adjacent, v);
                        self.grid.set(tile_index, 0u64);
                        let ghost mid = *self;
                        let ghost lmid = merge_status@;
                        proof {
                            // Moving a value to an empty cell only rearranges
                            // the tiles: the multiset is untouched.
                            broadcast use vstd::multiset::group_multiset_axioms;

                            let g0 = old(self).cells();
                            let len = g0.len() as int;
                            assert forall|x: u64| #[trigger]
                                tiles(mid.cells()).count(x) == tiles(g0).count(x) by {
                                lemma_tiles_prefix_count(mid.cells(), x, len);
                                lemma_tiles_prefix_count(g0, x, len);
                                lemma_occ_prefix_update(g0, adjacent as int, v, x, len);
                                lemma_occ_prefix_update(
                                    g0.update(adjacent as int, v),
                                    tile_index as int,
                                    0u64,
                                    x,
                                    len,
                                );
                            }
                            assert(tiles(mid.cells()) =~= tiles(g0));
                        }
                        proof {
                            assert forall|k: int|
                                0 <= k < merge_status@.len() && (#[trigger] merge_status@[k])
                                    implies self.cells()[k] != 0 by {
                                assert(k != tile_index as int);
                                assert(k != adjacent as int);
                            }
                        }
                        let _ = self.move_tile(adjacent, direction, merge_status);
                        proof {
                            let n = old(self).size();
                            let d = *direction;
                            let g0 = old(self).cells();
                            let len0 = g0.len() as int;
                            // The slide shifts weight one cell toward the
                            // edge and keeps the number of occupied cells.
                            lemma_pot_prefix_update(n, g0, d, adjacent as int, v, len0);
                            lemma_pot_prefix_update(
                                n,
                                g0.update(adjacent as int, v),
                                d,
                                tile_index as int,
                                0u64,
                                len0,
                            );
                            assert((v - 0) * edge_dist(n, adjacent as int, d) + (0 - v)
                                * edge_dist(n, tile_index as int, d) == -(v as int))
                                by (nonlinear_arith)
                                requires
                                    edge_dist(n, adjacent as int, d) == edge_dist(
                                        n,
                                        tile_index as int,
                                        d,
                                    ) - 1,
                            ;
                            lemma_count_prefix_update(g0, adjacent as int, v, len0);
                            lemma_count_prefix_update(
                                g0.update(adjacent as int, v),
                                tile_index as int,
                                0u64,
                                len0,
                            );
                            lemma_count_prefix_props(g0, len0);
                            assert forall|i: int|
                                0 <= i < old(merge_status)@.len() && (#[trigger] old(
                                    merge_status,
                                )@[i]) implies self.cells()[i] == old(self).cells()[i] by {
                                assert(mid.cells()[i] == old(self).cells()[i]);
                            }
                            assert forall|c: int|
                                0 <= c < old(self).cells().len() && (#[trigger] adj(n, c, d))
                                    is None && old(self).cells()[c] != 0 implies ((self.cells()[c]
                                == old(self).cells()[c] && merge_status@[c] == old(
                                merge_status,
                            )@[c]) || (self.cells()[c] == 2 * old(self).cells()[c]
                                && merge_status@[c] && !old(merge_status)@[c])) by {
                                assert(c != tile_index as int);
                                assert(c != adjacent as int);
                                assert(mid.cells()[c] == old(self).cells()[c]);
                            }
                            assert forall|c: int|
                                0 <= c < old(self).cells().len() && (#[trigger] self.cells()[c])
                                    != old(self).cells()[c] implies (c == tile_index as int
                                || edge_dist(n, c, d) < edge_dist(n, tile_index as int, d)) by {
                                if c != tile_index as int && c != adjacent as int {
                                    assert(mid.cells()[c] == old(self).cells()[c]);
                                }
                            }
                            assert(self.cells()[tile_index as int] == 0);
                            assert forall|c: int|
                                0 <= c < old(self).cells().len() && c != tile_index as int && old(
                                    self,
                                ).cells()[c] != 0 implies (#[trigger] self.cells()[c]) != 0 by {
                                assert(c != adjacent as int);
                                assert(mid.cells()[c] == old(self).cells()[c]);
                            }
                            assert forall|c: int|
                                0 <= c < old(self).cells().len() && old(self).cells()[c] == 0 && (
                                #[trigger] self.cells()[c]) != 0 implies (match adj(n, c, d) {
                                Some(j) => self.cells()[j] != 0,
                                None => true,
                            }) by {
                                if c != adjacent as int {
                                    assert(c != tile_index as int);
                                    assert(mid.cells()[c] == old(self).cells()[c]);
                                }
                            }
                        }
                        true
                    } else if self.grid[adjacent] == self.grid[tile_index] {
                        // Merge: the neighbour doubles, locks, and the score
                        // grows by the new value; the merged tile stops here.
                        let v = self.grid[adjacent];
                        proof {
                            // Two distinct cells hold `v`, so `2 * v` is at
                            // most the (bounded) board total.
                            lemma_total_update(self.cells(), tile_index as int, 0u64);
                            lemma_total_update(
                                self.cells().update(tile_index as int, 0u64),
                                adjacent as int,
                                0u64,
                            );
                            lemma_total_nonneg(
                                self.cells().update(tile_index as int, 0u64).update(
                                    adjacent as int,
                                    0u64,
                                ),
                            );
                            lemma_pow2_double(v as int);
                        }
                        let merged = v * 2;
                        proof {
                            lemma_total_update(self.cells(), adjacent as int, merged);
                            lemma_total_update(
                                self.cells().update(adjacent as int, merged),
                                tile_index as int,
                                0u64,
                            );
                        }
                        self.grid.set(adjacent, merged);
                        self.grid.set(tile_index, 0u64);
                        merge_status.set(adjacent, true);
                        self.score = self.score.saturating_add(merged);
                        proof {
                            lemma_gain_prefix_lock_one(
                                self.cells(),
                                old(merge_status)@,
                                adjacent as int,
                                self.cells().len() as int,
                            );
                            lemma_merges_prefix_lock_one(
                                old(merge_status)@,
                                adjacent as int,
                                self.cells().len() as int,
                            );
                            let n = old(self).size();
                            let d = *direction;
                            let g0 = old(self).cells();
                            let len0 = g0.len() as int;
                            // The merge moves weight one cell toward the
                            // edge and occupies one cell fewer.
                            lemma_pot_prefix_update(n, g0, d, adjacent as int, merged, len0);
                            lemma_pot_prefix_update(
                                n,
                                g0.update(adjacent as int, merged),
                                d,
                                tile_index as int,
                                0u64,
                                len0,
                            );
                            assert((merged - v) * edge_dist(n, adjacent as int, d) + (0 - v)
                                * edge_dist(n, tile_index as int, d) == -(v as int))
                                by (nonlinear_arith)
                                requires
                                    merged == 2 * v,
                                    edge_dist(n, adjacent as int, d) == edge_dist(
                                        n,
                                        tile_index as int,
                                        d,
                                    ) - 1,
                            ;
                            lemma_count_prefix_update(g0, adjacent as int, merged, len0);
                            lemma_count_prefix_update(
                                g0.update(adjacent as int, merged),
                                tile_index as int,
                                0u64,
                                len0,
                            );
                            lemma_count_prefix_props(g0, len0);
                        }
                        true
                    } else {
                        false
                    }
                } else {
                    false
                }
            },
            None => false,
        }
    }

    /// Slide and merge every tile exactly once in `direction`, sweeping the
    /// board in the order that resolves destination cells before the tiles
    /// that move toward them (row-major from the top for Up, reversed for
    /// Down, column-major from the left for Left, reversed for Right);
    /// report whether anything moved or merged. No tile is spawned here.
    /// The contract pins the outcome exactly: board, score and the changed
    /// flag equal the model's `sweep` of the old board, and the flag is
    /// true precisely when the board differs from the old one. On top of
    /// that it states the laws a caller needs directly: the total of tile
    /// values is conserved, the score never decreases and only changes
    /// when the board changed, a move that leaves an unsaturated score
    /// unchanged only rearranges the multiset of tiles, a terminal board
    /// reports no change, every line ends compacted (an occupied cell's
    /// neighbour toward the moved edge is occupied), a changed board keeps
    /// an empty cell, and a tile at the target edge stays in place, at
    /// most absorbing one merge.
    #[verifier::loop_isolation(false)]
    #[verifier::rlimit(60)]
    pub fn apply_move(&mut self, direction: Direction) -> (changed: bool)
        requires
            old(self).wf(),
        ensures
            final(self).wf(),
            final(self).size() == old(self).size(),
            final(self).cells().len() == old(self).cells().len(),
            final(self).last_spawn() == old(self).last_spawn(),
            total(final(self).cells()) == total(old(self).cells()),
            final(self).spec_score() >= old(self).spec_score(),
            !changed ==> final(self).cells() == old(self).cells() && final(self).spec_score()
                == old(self).spec_score(),
            final(self).spec_score() != old(self).spec_score() ==> changed,
            finished(old(self).size(), old(self).cells()) ==> !changed,
            (final(self).spec_score() == old(self).spec_score() && old(self).spec_score()
                < u64::MAX) ==> tiles(final(self).cells()) == tiles(old(self).cells()),
            (final(self).cells(), final(self).spec_score(), changed) == sweep(
                old(self).size(),
                old(self).cells(),
                old(self).spec_score(),
                direction,
            ),
            changed <==> final(self).cells() != old(self).cells(),
            changed ==> count_nonzero(final(self).cells()) < final(self).cells().len(),
            forall|c: int|
                0 <= c < old(self).cells().len() && (#[trigger] final(self).cells()[c]) != 0
                    ==> (match adj(old(self).size(), c, direction) {
                    Some(j) => final(self).cells()[j] != 0,
                    None => true,
                }),
            forall|c: int|
                0 <= c < old(self).cells().len() && (#[trigger] adj(
                    old(self).size(),
                    c,
                    direction,
                )) is None && old(self).cells()[c] != 0 ==> (final(self).cells()[c] == old(
                    self,
                ).cells()[c] || final(self).cells()[c] == 2 * old(self).cells()[c]),
    {
        let len = self.grid.len();
        let n_ex = self.grid_size;
        let mut merge_status = fresh_locks(len);
        let ghost l0 = merge_status@;
        let ghost n0 = old(self).size();
        let ghost g0 = old(self).cells();
        let ghost s0 = old(self).spec_score();
        let mut changed = false;
        proof {
            lemma_gain_prefix_refl(self.cells(), l0, len as int);
        }
        match direction {
            Direction::Up => {
                let mut ti: usize = 0;
                while ti < len
                    invariant
                        self.wf(),
                        self.size() == old(self).size(),
                        self.cells().len() == old(self).cells().len(),
                        self.last_spawn() == old(self).last_spawn(),
                        merge_status@.len() == old(self).cells().len(),
                        total(self.cells()) == total(old(self).cells()),
                        self.spec_score() == score_after(
                            old(self).spec_score(),
                            gain(self.cells(), l0, merge_status@),
                        ),
                        forall|c: int|
                            0 <= c < old(self).cells().len() && (#[trigger] adj(
                                old(self).size(),
                                c,
                                direction,
                            )) is None && old(self).cells()[c] != 0 ==> ((self.cells()[c] == old(
                                self,
                            ).cells()[c] && !merge_status@[c]) || (self.cells()[c] == 2 * old(
                                self,
                            ).cells()[c] && merge_status@[c])),
                        !changed ==> self.cells() == old(self).cells() && merge_status@ == l0
                            && self.spec_score() == old(self).spec_score(),
                        finished(old(self).size(), old(self).cells()) ==> !changed,
                        forall|i: int|
                            0 <= i < old(self).cells().len() && (#[trigger] merge_status@[i])
                                ==> self.cells()[i] >= 4,
                        merge_status@ == l0 ==> tiles(self.cells()) == tiles(old(self).cells()),
                        pot(n0, self.cells(), direction) <= pot(n0, g0, direction),
                        changed ==> pot(n0, self.cells(), direction) < pot(n0, g0, direction),
                        changed ==> count_nonzero(self.cells()) < self.cells().len(),
                        (self.cells(), merge_status@, self.spec_score(), changed)
                            == sweep_prefix(n0, g0, l0, s0, direction, ti as int),
                            forall|c: int|
                                0 <= c < ti && (#[trigger] self.cells()[c]) != 0
                                    ==> (match adj(n0, c, direction) {
                                    Some(j) => self.cells()[j] != 0,
                                    None => true,
                                }),
                        ti <= len,
                        forall|k: int| ti <= k < len ==> !(#[trigger] merge_status@[k]),
                    decreases len - ti,
                {
                    let ghost pre = *self;
                    let ghost lpre = merge_status@;
                    let moved = self.move_tile(ti, &direction, &mut merge_status);
                    if moved {
                        changed = true;
                    }
                    proof {
                        lemma_sweep_step(*old(self), pre, *self, l0, lpre, merge_status@, direction);
                        if merge_status@ == l0 {
                            assert(lpre =~= l0);
                        }
                        if finished(old(self).size(), old(self).cells()) {
                            assert(stuck_at(old(self).size(), old(self).cells(), ti as int));
                            lemma_finished_blocks(
                                old(self).size(),
                                old(self).cells(),
                                ti as int,
                                direction,
                            );
                            assert(!moved);
                        }
                        assert(sweep_order(n0, direction, ti as int) == ti as int);
                        assert((self.cells(), merge_status@, self.spec_score(), changed)
                            == sweep_prefix(n0, g0, l0, s0, direction, ti + 1));
                        assert forall|c: int|
                            0 <= c < ti + 1 && (#[trigger] self.cells()[c]) != 0 implies (match adj(
                            n0, c, direction) {
                            Some(j) => self.cells()[j] != 0,
                            None => true,
                        }) by {
                            lemma_adj(n0, c, direction);
                            lemma_coords(n0, c);
                        }
                        assert forall|k: int| ti + 1 <= k < len implies !(merge_status@[k]) by {
                            if merge_status@[k] && !lpre[k] {
                                lemma_div_is_ordered(ti as int, k, n0);
                            }
                        }
                    }
                    ti = ti + 1;
                }
            },
            Direction::Down => {
                let mut ti: usize = len;
                while ti > 0
                    invariant
                        self.wf(),
                        self.size() == old(self).size(),
                        self.cells().len() == old(self).cells().len(),
                        self.last_spawn() == old(self).last_spawn(),
                        merge_status@.len() == old(self).cells().len(),
                        total(self.cells()) == total(old(self).cells()),
                        self.spec_score() == score_after(
                            old(self).spec_score(),
                            gain(self.cells(), l0, merge_status@),
                        ),
                        forall|c: int|
                            0 <= c < old(self).cells().len() && (#[trigger] adj(
                                old(self).size(),
                                c,
                                direction,
                            )) is None && old(self).cells()[c] != 0 ==> ((self.cells()[c] == old(
                                self,
                            ).cells()[c] && !merge_status@[c]) || (self.cells()[c] == 2 * old(
                                self,
                            ).cells()[c] && merge_status@[c])),
                        !changed ==> self.cells() == old(self).cells() && merge_status@ == l0
                            && self.spec_score() == old(self).spec_score(),
                        finished(old(self).size(), old(self).cells()) ==> !changed,
                        forall|i: int|
                            0 <= i < old(self).cells().len() && (#[trigger] merge_status@[i])
                                ==> self.cells()[i] >= 4,
                        merge_status@ == l0 ==> tiles(self.cells()) == tiles(old(self).cells()),
                        pot(n0, self.cells(), direction) <= pot(n0, g0, direction),
                        changed ==> pot(n0, self.cells(), direction) < pot(n0, g0, direction),
                        changed ==> count_nonzero(self.cells()) < self.cells().len(),
                        (self.cells(), merge_status@, self.spec_score(), changed)
                            == sweep_prefix(n0, g0, l0, s0, direction, len - ti),
                            forall|c: int|
                                ti <= c < len && (#[trigger] self.cells()[c]) != 0
                                    ==> (match adj(n0, c, direction) {
                                    Some(j) => self.cells()[j] != 0,
                                    None => true,
                                }),
                        ti <= len,
                        forall|k: int| 0 <= k < ti ==> !(#[trigger] merge_status@[k]),
                    decreases ti,
                {
                    ti = ti - 1;
                    let ghost pre = *self;
                    let ghost lpre = merge_status@;
                    let moved = self.move_tile(ti, &direction, &mut merge_status);
                    if moved {
                        changed = true;
                    }
                    proof {
                        lemma_sweep_step(*old(self), pre, *self, l0, lpre, merge_status@, direction);
                        if merge_status@ == l0 {
                            assert(lpre =~= l0);
                        }
                        if finished(old(self).size(), old(self).cells()) {
                            assert(stuck_at(old(self).size(), old(self).cells(), ti as int));
                            lemma_finished_blocks(
                                old(self).size(),
                                old(self).cells(),
                                ti as int,
                                direction,
                            );
                            assert(!moved);
                        }
                        assert(sweep_order(n0, direction, len - ti - 1) == ti as int);
                        assert((self.cells(), merge_status@, self.spec_score(), changed)
                            == sweep_prefix(n0, g0, l0, s0, direction, len - ti));
                        assert forall|c: int|
                            0 <= c < len && ti <= c && (#[trigger] self.cells()[c]) != 0 implies (match adj(
                            n0, c, direction) {
                            Some(j) => self.cells()[j] != 0,
                            None => true,
                        }) by {
                            lemma_adj(n0, c, direction);
                            lemma_coords(n0, c);
                        }
                        assert forall|k: int| 0 <= k < ti implies !(merge_status@[k]) by {
                            if merge_status@[k] && !lpre[k] {
                                lemma_div_is_ordered(k, ti as int, n0);
                            }
                        }
                    }
                }
            },
            Direction::Left => {
                let mut col: usize = 0;
                while col < n_ex
                    invariant
                        self.wf(),
                        self.size() == old(self).size(),
                        self.cells().len() == old(self).cells().len(),
                        self.last_spawn() == old(self).last_spawn(),
                        merge_status@.len() == old(self).cells().len(),
                        total(self.cells()) == total(old(self).cells()),
                        self.spec_score() == score_after(
                            old(self).spec_score(),
                            gain(self.cells(), l0, merge_status@),
                        ),
                        forall|c: int|
                            0 <= c < old(self).cells().len() && (#[trigger] adj(
                                old(self).size(),
                                c,
                                direction,
                            )) is None && old(self).cells()[c] != 0 ==> ((self.cells()[c] == old(
                                self,
                            ).cells()[c] && !merge_status@[c]) || (self.cells()[c] == 2 * old(
                                self,
                            ).cells()[c] && merge_status@[c])),
                        !changed ==> self.cells() == old(self).cells() && merge_status@ == l0
                            && self.spec_score() == old(self).spec_score(),
                        finished(old(self).size(), old(self).cells()) ==> !changed,
                        forall|i: int|
                            0 <= i < old(self).cells().len() && (#[trigger] merge_status@[i])
                                ==> self.cells()[i] >= 4,
                        merge_status@ == l0 ==> tiles(self.cells()) == tiles(old(self).cells()),
                        pot(n0, self.cells(), direction) <= pot(n0, g0, direction),
                        changed ==> pot(n0, self.cells(), direction) < pot(n0, g0, direction),
                        changed ==> count_nonzero(self.cells()) < self.cells().len(),
                        (self.cells(), merge_status@, self.spec_score(), changed)
                            == sweep_prefix(n0, g0, l0, s0, direction, (col as int) * n0),
                            forall|c: int|
                                0 <= c < len && col_of(n0, c) < col && (#[trigger] self.cells()[c]) != 0
                                    ==> (match adj(n0, c, direction) {
                                    Some(j) => self.cells()[j] != 0,
                                    None => true,
                                }),
                        col <= n_ex,
                        forall|k: int|
                            0 <= k < len && col_of(n0, k) >= col ==> !(#[trigger] merge_status@[k]),
                    decreases n_ex - col,
                {
                    let mut row: usize = 0;
                    while row < n_ex
                        invariant
                            self.wf(),
                            self.size() == old(self).size(),
                            self.cells().len() == old(self).cells().len(),
                            self.last_spawn() == old(self).last_spawn(),
                            merge_status@.len() == old(self).cells().len(),
                            total(self.cells()) == total(old(self).cells()),
                            self.spec_score() == score_after(
                                old(self).spec_score(),
                                gain(self.cells(), l0, merge_status@),
                            ),
                            forall|c: int|
                                0 <= c < old(self).cells().len() && (#[trigger] adj(
                                    old(self).size(),
                                    c,
                                    direction,
                                )) is None && old(self).cells()[c] != 0 ==> ((self.cells()[c]
                                    == old(self).cells()[c] && !merge_status@[c]) || (
                                self.cells()[c] == 2 * old(self).cells()[c]
                                    && merge_status@[c])),
                            !changed ==> self.cells() == old(self).cells() && merge_status@ == l0
                                && self.spec_score() == old(self).spec_score(),
                            finished(old(self).size(), old(self).cells()) ==> !changed,
                            forall|i: int|
                                0 <= i < old(self).cells().len() && (#[trigger] merge_status@[i])
                                    ==> self.cells()[i] >= 4,
                            merge_status@ == l0 ==> tiles(self.cells()) == tiles(old(self).cells()),
                            pot(n0, self.cells(), direction) <= pot(n0, g0, direction),
                            changed ==> pot(n0, self.cells(), direction) < pot(n0, g0, direction),
                            changed ==> count_nonzero(self.cells()) < self.cells().len(),
                            (self.cells(), merge_status@, self.spec_score(), changed)
                                == sweep_prefix(n0, g0, l0, s0, direction, (col as int) * n0 + row),
                                forall|c: int|
                                    0 <= c < len && (col_of(n0, c) < col || (col_of(n0, c) == col && row_of(n0, c) < row)) && (#[trigger] self.cells()[c]) != 0
                                        ==> (match adj(n0, c, direction) {
                                        Some(j) => self.cells()[j] != 0,
                                        None => true,
                                    }),
                            col < n_ex,
                            row <= n_ex,
                            forall|k: int|
                                0 <= k < len && col_of(n0, k) >= col ==> !(
                                #[trigger] merge_status@[k]),
                        decreases n_ex - row,
                    {
                        let ti = self.coords_to_index(row, col);
                        proof {
                            lemma_index(n0, row as int, col as int);
                        }
                        let ghost pre = *self;
                        let ghost lpre = merge_status@;
                        let moved = self.move_tile(ti, &direction, &mut merge_status);
                        if moved {
                            changed = true;
                        }
                        proof {
                            lemma_sweep_step(
                                *old(self),
                                pre,
                                *self,
                                l0,
                                lpre,
                                merge_status@,
                                direction,
                            );
                            if merge_status@ == l0 {
                                assert(lpre =~= l0);
                            }
                            if finished(old(self).size(), old(self).cells()) {
                                assert(stuck_at(old(self).size(), old(self).cells(), ti as int));
                                lemma_finished_blocks(
                                    old(self).size(),
                                    old(self).cells(),
                                    ti as int,
                                    direction,
                                );
                                assert(!moved);
                            }
                            lemma_fundamental_div_mod_converse(
                                (col as int) * n0 + row,
                                n0,
                                col as int,
                                row as int,
                            );
                            assert(sweep_order(n0, direction, (col as int) * n0 + row)
                                == ti as int);
                            assert((self.cells(), merge_status@, self.spec_score(), changed)
                                == sweep_prefix(n0, g0, l0, s0, direction,
                                    (col as int) * n0 + row + 1));
                            assert forall|c: int|
                                0 <= c < len && (col_of(n0, c) < col || (col_of(n0, c) == col
                                    && row_of(n0, c) < row + 1)) && (#[trigger] self.cells()[c]) != 0 implies (match adj(
                                n0, c, direction) {
                                Some(j) => self.cells()[j] != 0,
                                None => true,
                            }) by {
                                lemma_adj(n0, c, direction);
                                lemma_coords(n0, c);
                            }
                            assert forall|k: int|
                                0 <= k < len && col_of(n0, k) >= col implies !(
                            merge_status@[k]) by {
                                if merge_status@[k] && !lpre[k] {
                                    assert(edge_dist(n0, k, direction) < edge_dist(
                                        n0,
                                        ti as int,
                                        direction,
                                    ));
                                }
                            }
                        }
                        row = row + 1;
                    }
                    proof {
                        assert(((col as int) + 1) * n0 == (col as int) * n0 + n0)
                            by (nonlinear_arith);
                        assert forall|c: int|
                            0 <= c < len && col_of(n0, c) < col + 1 && (
                        #[trigger] self.cells()[c]) != 0 implies (match adj(n0, c, direction) {
                            Some(j) => self.cells()[j] != 0,
                            None => true,
                        }) by {
                            lemma_coords(n0, c);
                        }
                    }
                    col = col + 1;
                }
            },
            Direction::Right => {
                let mut col: usize = n_ex;
                while col > 0
                    invariant
                        self.wf(),
                        self.size() == old(self).size(),
                        self.cells().len() == old(self).cells().len(),
                        self.last_spawn() == old(self).last_spawn(),
                        merge_status@.len() == old(self).cells().len(),
                        total(self.cells()) == total(old(self).cells()),
                        self.spec_score() == score_after(
                            old(self).spec_score(),
                            gain(self.cells(), l0, merge_status@),
                        ),
                        forall|c: int|
                            0 <= c < old(self).cells().len() && (#[trigger] adj(
                                old(self).size(),
                                c,
                                direction,
                            )) is None && old(self).cells()[c] != 0 ==> ((self.cells()[c] == old(
                                self,
                            ).cells()[c] && !merge_status@[c]) || (self.cells()[c] == 2 * old(
                                self,
                            ).cells()[c] && merge_status@[c])),
                        !changed ==> self.cells() == old(self).cells() && merge_status@ == l0
                            && self.spec_score() == old(self).spec_score(),
                        finished(old(self).size(), old(self).cells()) ==> !changed,
                        forall|i: int|
                            0 <= i < old(self).cells().len() && (#[trigger] merge_status@[i])
                                ==> self.cells()[i] >= 4,
                        merge_status@ == l0 ==> tiles(self.cells()) == tiles(old(self).cells()),
                        pot(n0, self.cells(), direction) <= pot(n0, g0, direction),
                        changed ==> pot(n0, self.cells(), direction) < pot(n0, g0, direction),
                        changed ==> count_nonzero(self.cells()) < self.cells().len(),
                        (self.cells(), merge_status@, self.spec_score(), changed)
                            == sweep_prefix(n0, g0, l0, s0, direction, (n0 - col) * n0),
                            forall|c: int|
                                0 <= c < len && col_of(n0, c) >= col && (#[trigger] self.cells()[c]) != 0
                                    ==> (match adj(n0, c, direction) {
                                    Some(j) => self.cells()[j] != 0,
                                    None => true,
                                }),
                        col <= n_ex,
                        forall|k: int|
                            0 <= k < len && col_of(n0, k) < col ==> !(#[trigger] merge_status@[k]),
                    decreases col,
                {
                    col = col - 1;
                    let mut row: usize = 0;
                    while row < n_ex
                        invariant
                            self.wf(),
                            self.size() == old(self).size(),
                            self.cells().len() == old(self).cells().len(),
                            self.last_spawn() == old(self).last_spawn(),
                            merge_status@.len() == old(self).cells().len(),
                            total(self.cells()) == total(old(self).cells()),
                            self.spec_score() == score_after(
                                old(self).spec_score(),
                                gain(self.cells(), l0, merge_status@),
                            ),
                            forall|c: int|
                                0 <= c < old(self).cells().len() && (#[trigger] adj(
                                    old(self).size(),
                                    c,
                                    direction,
                                )) is None && old(self).cells()[c] != 0 ==> ((self.cells()[c]
                                    == old(self).cells()[c] && !merge_status@[c]) || (
                                self.cells()[c] == 2 * old(self).cells()[c]
                                    && merge_status@[c])),
                            !changed ==> self.cells() == old(self).cells() && merge_status@ == l0
                                && self.spec_score() == old(self).spec_score(),
                            finished(old(self).size(), old(self).cells()) ==> !changed,
                            forall|i: int|
                                0 <= i < old(self).cells().len() && (#[trigger] merge_status@[i])
                                    ==> self.cells()[i] >= 4,
                            merge_status@ == l0 ==> tiles(self.cells()) == tiles(old(self).cells()),
                            pot(n0, self.cells(), direction) <= pot(n0, g0, direction),
                            changed ==> pot(n0, self.cells(), direction) < pot(n0, g0, direction),
                            changed ==> count_nonzero(self.cells()) < self.cells().len(),
                            (self.cells(), merge_status@, self.spec_score(), changed)
                                == sweep_prefix(n0, g0, l0, s0, direction, (n0 - 1 - col) * n0 + row),
                                forall|c: int|
                                    0 <= c < len && (col_of(n0, c) > col || (col_of(n0, c) == col && row_of(n0, c) < row)) && (#[trigger] self.cells()[c]) != 0
                                        ==> (match adj(n0, c, direction) {
                                        Some(j) => self.cells()[j] != 0,
                                        None => true,
                                    }),
                            col < n_ex,
                            row <= n_ex,
                            forall|k: int|
                                0 <= k < len && col_of(n0, k) <= col ==> !(
                                #[trigger] merge_status@[k]),
                        decreases n_ex - row,
                    {
                        let ti = self.coords_to_index(row, col);
                        proof {
                            lemma_index(n0, row as int, col as int);
                        }
                        let ghost pre = *self;
                        let ghost lpre = merge_status@;
                        let moved = self.move_tile(ti, &direction, &mut merge_status);
                        if moved {
                            changed = true;
                        }
                        proof {
                            lemma_sweep_step(
                                *old(self),
                                pre,
                                *self,
                                l0,
                                lpre,
                                merge_status@,
                                direction,
                            );
                            if merge_status@ == l0 {
                                assert(lpre =~= l0);
                            }
                            if finished(old(self).size(), old(self).cells()) {
                                assert(stuck_at(old(self).size(), old(self).cells(), ti as int));
                                lemma_finished_blocks(
                                    old(self).size(),
                                    old(self).cells(),
                                    ti as int,
                                    direction,
                                );
                                assert(!moved);
                            }
                            lemma_fundamental_div_mod_converse(
                                (n0 - 1 - col) * n0 + row,
                                n0,
                                n0 - 1 - col,
                                row as int,
                            );
                            assert(sweep_order(n0, direction, (n0 - 1 - col) * n0 + row)
                                == ti as int);
                            assert((self.cells(), merge_status@, self.spec_score(), changed)
                                == sweep_prefix(n0, g0, l0, s0, direction,
                                    (n0 - 1 - col) * n0 + row + 1));
                            assert forall|c: int|
                                0 <= c < len && (col_of(n0, c) > col || (col_of(n0, c) == col
                                    && row_of(n0, c) < row + 1)) && (#[trigger] self.cells()[c]) != 0 implies (match adj(
                                n0, c, direction) {
                                Some(j) => self.cells()[j] != 0,
                                None => true,
                            }) by {
                                lemma_adj(n0, c, direction);
                                lemma_coords(n0, c);
                            }
                            assert forall|k: int|
                                0 <= k < len && col_of(n0, k) <= col implies !(
                            merge_status@[k]) by {
                                if merge_status@[k] && !lpre[k] {
                                    assert(edge_dist(n0, k, direction) < edge_dist(
                                        n0,
                                        ti as int,
                                        direction,
                                    ));
                                }
                            }
                        }
                        row = row + 1;
                    }
                    proof {
                        assert((n0 - 1 - (col as int)) * n0 + n0 == (n0 - (col as int)) * n0)
                            by (nonlinear_arith);
                        assert forall|c: int|
                            0 <= c < len && col_of(n0, c) >= col && (#[trigger] self.cells()[c])
                                != 0 implies (match adj(n0, c, direction) {
                            Some(j) => self.cells()[j] != 0,
                            None => true,
                        }) by {
                            lemma_coords(n0, c);
                        }
                    }
                }
            },
        }
        proof {
            lemma_gain_prefix_nonneg(self.cells(), l0, merge_status@, len as int);
            assert(l0 =~= Seq::new((n0 * n0) as nat, |i: int| false));
            assert forall|c: int|
                0 <= c < len && (#[trigger] self.cells()[c]) != 0 implies (match adj(
                n0, c, direction) {
                Some(j) => self.cells()[j] != 0,
                None => true,
            }) by {
                lemma_coords(n0, c);
            }
            if self.spec_score() == old(self).spec_score() && old(self).spec_score() < u64::MAX {
                // An unchanged, unsaturated score means no merge paid in, so
                // no lock was set and the tiles were only rearranged.
                lemma_gain_zero_no_new_lock(self.cells(), l0, merge_status@, len as int);
                assert(merge_status@ =~= l0);
            }
        }
        changed
    }

    /// Apply one full move: slide and merge every tile in `direction` (the
    /// board then equals the sweep of the old board), and iff that changed
    /// the board, spawn one tile — a 2 or a 4 on a previously empty cell,
    /// recorded as the last spawn. A move that changes nothing — in
    /// particular any move on a finished board — is a no-op and spawns
    /// nothing. (The one exception: the spawn is skipped when the board
    /// total is within 4 of its bound, unreachable in play.)
    pub fn move_tiles(&mut self, direction: Direction)
        requires
            old(self).wf(),
        ensures
            final(self).wf(),
            final(self).size() == old(self).size(),
            final(self).spec_score() >= old(self).spec_score(),
            total(final(self).cells()) >= total(old(self).cells()),
            finished(old(self).size(), old(self).cells())
                ==> (final(self).cells() == old(self).cells()
                    && final(self).spec_score() == old(self).spec_score()
                    && final(self).last_spawn() == old(self).last_spawn()),
            ({
                let m = sweep(
                    old(self).size(),
                    old(self).cells(),
                    old(self).spec_score(),
                    direction,
                );
                &&& (!m.2 ==> final(self).cells() == old(self).cells() && final(self).spec_score()
                    == old(self).spec_score() && final(self).last_spawn() == old(
                    self,
                ).last_spawn())
                &&& (m.2 ==> final(self).spec_score() == m.1 && (if total(m.0) + 4 <= MAX_TOTAL {
                    exists|j: int|
                        0 <= j < m.0.len() && (#[trigger] m.0[j]) == 0 && (final(self).cells()[j]
                            == 2 || final(self).cells()[j] == 4) && final(self).cells()
                            == m.0.update(j, final(self).cells()[j]) && final(self).last_spawn()
                            == Some(j as usize)
                } else {
                    final(self).cells() == m.0 && final(self).last_spawn() == old(
                        self,
                    ).last_spawn()
                }))
            }),
    {
        let changed = self.apply_move(direction);
        if changed {
            self.add_tile();
        }
    }
}

} // verus!
