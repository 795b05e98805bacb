//! The board state machine: the 4x4 grid, its free-cell index, the four
//! directional moves, random tile spawning, terminal-state detection and
//! score accounting.

use vstd::prelude::*;
use crate::index_set::{
    free_set_view, free_set_new, free_set_insert, free_set_swap_remove, free_set_len,
    free_set_is_empty, free_set_get_index,
};
use crate::line::{
    int_seq, seq_sum, nonneg, compact_line, compact_gain, compact4, lemma_int_seq_nonneg,
    lemma_seq_sum4, lemma_seq_sum16, lemma_compact_line, lemma_changed_has_zero,
};
use crate::rng::random_below;

verus! {

/// One of the four directions a round can take.
pub enum Move {
    Left,
    Right,
    Up,
    Down,
}

/// The 4x4 board: sixteen cells in row-major order, an index of the
/// currently empty cells, and the accumulated score.
#[derive(Debug)]
pub struct Board {
    values: [u64; 16],
    free: indexmap::IndexSet<usize>,
    pub score: u64,
}

/// The indices of the empty cells of a grid.
pub open spec fn free_cells(g: Seq<int>) -> Set<int> {
    Set::new(|i: int| 0 <= i < 16 && g[i] == 0)
}

/// The grid with every cell empty.
pub open spec fn zero_grid() -> Seq<int> {
    Seq::new(16, |i: int| 0)
}

/// Some cell of the grid is empty.
pub open spec fn has_zero(g: Seq<int>) -> bool {
    exists|i: int| 0 <= i < 16 && g[i] == 0
}

/// The cell at (r, c) differs from its right and its down neighbour, as far
/// as those exist.
pub open spec fn no_pair_at(g: Seq<int>, r: int, c: int) -> bool {
    &&& (r < 3 ==> g[4 * r + c] != g[4 * (r + 1) + c])
    &&& (c < 3 ==> g[4 * r + c] != g[4 * r + c + 1])
}

/// Two equal values stand next to each other in some row or column.
pub open spec fn has_adjacent_equal(g: Seq<int>) -> bool {
    exists|r: int, c: int| 0 <= r < 4 && 0 <= c < 4 && !no_pair_at(g, r, c)
}

/// A terminal grid: no empty cell and no adjacent equal pair, so no move of
/// any direction could change it.
pub open spec fn is_terminal(g: Seq<int>) -> bool {
    !has_zero(g) && !has_adjacent_equal(g)
}

/// The cell index of slot `t` of line `k` when moving in direction `m`.
/// Lines are rows for horizontal moves and columns for vertical ones; slot 0
/// is the edge the tiles are pushed toward.
pub open spec fn cell_at(m: Move, k: int, t: int) -> int {
    match m {
        Move::Left => 4 * k + t,
        Move::Right => 4 * k + 3 - t,
        Move::Up => 4 * t + k,
        Move::Down => 4 * (3 - t) + k,
    }
}

/// The line that cell `i` belongs to when moving in direction `m`.
pub open spec fn line_no(m: Move, i: int) -> int {
    match m {
        Move::Left => i / 4,
        Move::Right => i / 4,
        Move::Up => i % 4,
        Move::Down => i % 4,
    }
}

/// The slot that cell `i` occupies within its line when moving in `m`.
pub open spec fn slot_no(m: Move, i: int) -> int {
    match m {
        Move::Left => i % 4,
        Move::Right => 3 - i % 4,
        Move::Up => i / 4,
        Move::Down => 3 - i / 4,
    }
}

/// Line `k` of the grid, read in traversal order for direction `m`.
pub open spec fn line_of(g: Seq<int>, m: Move, k: int) -> Seq<int> {
    Seq::new(4, |t: int| g[cell_at(m, k, t)])
}

/// The grid after one move in direction `m`, before any tile is spawned:
/// every line is compacted toward the target edge.
pub open spec fn move_grid(g: Seq<int>, m: Move) -> Seq<int> {
    Seq::new(16, |i: int| compact_line(line_of(g, m, line_no(m, i)))[slot_no(m, i)])
}

/// The score gained by one move in direction `m`: the values produced by
/// the merges of all four lines.
pub open spec fn move_gain(g: Seq<int>, m: Move) -> int {
    compact_gain(line_of(g, m, 0)) + compact_gain(line_of(g, m, 1)) + compact_gain(
        line_of(g, m, 2),
    ) + compact_gain(line_of(g, m, 3))
}

/// The four cells of the grid at the given indices, as a line.
pub open spec fn four_at(g: Seq<int>, i0: usize, i1: usize, i2: usize, i3: usize) -> Seq<int> {
    seq![g[i0 as int], g[i1 as int], g[i2 as int], g[i3 as int]]
}

/// The grid with the four given cells replaced by the cells of `line`.
pub open spec fn update4(
    g: Seq<int>,
    i0: usize,
    i1: usize,
    i2: usize,
    i3: usize,
    line: Seq<int>,
) -> Seq<int> {
    g.update(i0 as int, line[0]).update(i1 as int, line[1]).update(i2 as int, line[2]).update(
        i3 as int,
        line[3],
    )
}

/// The sums of the lines from `k` on, in the traversal order of `m`.
spec fn sums_from(g: Seq<int>, m: Move, k: int) -> int
    decreases 4 - k,
{
    if k < 0 || k >= 4 {
        0
    } else {
        seq_sum(line_of(g, m, k)) + sums_from(g, m, k + 1)
    }
}

/// The gains of the lines before `k`, in the traversal order of `m`.
spec fn gains_upto(g: Seq<int>, m: Move, k: int) -> int
    decreases k,
{
    if k <= 0 {
        0
    } else {
        gains_upto(g, m, k - 1) + compact_gain(line_of(g, m, k - 1))
    }
}

/// `cell_at` and the (line, slot) decomposition are mutually inverse, and
/// both stay within the sixteen cells.
pub proof fn lemma_cell_at_inverse(m: Move)
    ensures
        forall|k: int, t: int|
            0 <= k < 4 && 0 <= t < 4 ==> 0 <= #[trigger] cell_at(m, k, t) < 16 && line_no(
                m,
                cell_at(m, k, t),
            ) == k && slot_no(m, cell_at(m, k, t)) == t,
        forall|i: int|
            0 <= i < 16 ==> #[trigger] cell_at(m, line_no(m, i), slot_no(m, i)) == i && 0 <= line_no(
                m,
                i,
            ) < 4 && 0 <= slot_no(m, i) < 4,
{
}

/// Every line of a nonnegative grid is a nonnegative four-cell line whose
/// compaction gains at least zero and at most the line's sum.
proof fn lemma_line_facts(g: Seq<int>, m: Move, k: int)
    requires
        g.len() == 16,
        nonneg(g),
        0 <= k < 4,
    ensures
        line_of(g, m, k).len() == 4,
        nonneg(line_of(g, m, k)),
        seq_sum(line_of(g, m, k)) == g[cell_at(m, k, 0)] + g[cell_at(m, k, 1)] + g[cell_at(
            m,
            k,
            2,
        )] + g[cell_at(m, k, 3)],
        0 <= compact_gain(line_of(g, m, k)) <= seq_sum(line_of(g, m, k)),
        compact_line(line_of(g, m, k)).len() == 4,
{
    let line = line_of(g, m, k);
    lemma_cell_at_inverse(m);
    assert forall|t: int| 0 <= t < 4 implies line[t] >= 0 by {
        assert(line[t] == g[cell_at(m, k, t)]);
    }
    lemma_seq_sum4(line);
    lemma_compact_line(line);
}

/// The sums of the four lines of a move add up to the sum of the grid, and
/// every tail of that decomposition is nonnegative.
proof fn lemma_sums_from(g: Seq<int>, m: Move)
    requires
        g.len() == 16,
        nonneg(g),
    ensures
        sums_from(g, m, 0) == seq_sum(g),
        forall|k: int| 0 <= k <= 4 ==> #[trigger] sums_from(g, m, k) >= 0,
{
    lemma_seq_sum16(g);
    lemma_line_facts(g, m, 0);
    lemma_line_facts(g, m, 1);
    lemma_line_facts(g, m, 2);
    lemma_line_facts(g, m, 3);
    assert(sums_from(g, m, 4) == 0);
    assert(sums_from(g, m, 3) == seq_sum(line_of(g, m, 3)) + sums_from(g, m, 4));
    assert(sums_from(g, m, 2) == seq_sum(line_of(g, m, 2)) + sums_from(g, m, 3));
    assert(sums_from(g, m, 1) == seq_sum(line_of(g, m, 1)) + sums_from(g, m, 2));
    assert(sums_from(g, m, 0) == seq_sum(line_of(g, m, 0)) + sums_from(g, m, 1));
    assert(sums_from(g, m, 0) == seq_sum(g)) by {
        lemma_cell_at_inverse(m);
        assert(seq_sum(g) == g[0] + g[1] + g[2] + g[3] + g[4] + g[5] + g[6] + g[7] + g[8] + g[9]
            + g[10] + g[11] + g[12] + g[13] + g[14] + g[15]);
    }
    assert forall|k: int| 0 <= k <= 4 implies #[trigger] sums_from(g, m, k) >= 0 by {
        assert(sums_from(g, m, 4) >= 0);
        assert(sums_from(g, m, 3) >= 0);
        assert(sums_from(g, m, 2) >= 0);
        assert(sums_from(g, m, 1) >= 0);
        assert(sums_from(g, m, 0) >= 0);
    }
}

/// Every tail of the line-sum decomposition of a nonnegative grid is
/// nonnegative.
proof fn lemma_sums_from_nonneg(g: Seq<int>, m: Move, k: int)
    requires
        g.len() == 16,
        nonneg(g),
        0 <= k <= 4,
    ensures
        sums_from(g, m, k) >= 0,
    decreases 4 - k,
{
    if k < 4 {
        lemma_sums_from_nonneg(g, m, k + 1);
        lemma_line_facts(g, m, k);
    }
}

/// Cell index of slot `t` of line `k` for a move in the given direction:
/// the executable form of `cell_at`.
fn line_cell(movement: &Move, k: usize, t: usize) -> (i: usize)
    requires
        k < 4,
        t < 4,
    ensures
        i == cell_at(*movement, k as int, t as int),
        i < 16,
{
    match movement {
        Move::Left => 4 * k + t,
        Move::Right => 4 * k + 3 - t,
        Move::Up => 4 * t + k,
        Move::Down => 4 * (3 - t) + k,
    }
}

/// A move that changes the grid leaves at least one empty cell, so a tile
/// can always be spawned after a move that did something.
pub proof fn lemma_changed_move_has_zero(g: Seq<int>, m: Move)
    requires
        g.len() == 16,
        move_grid(g, m) != g,
    ensures
        has_zero(move_grid(g, m)),
{
    let h = move_grid(g, m);
    lemma_cell_at_inverse(m);
    assert(exists|i: int| 0 <= i < 16 && h[i] != g[i]) by {
        if forall|i: int| 0 <= i < 16 ==> h[i] == g[i] {
            assert(h =~= g);
        }
    }
    let i = choose|i: int| 0 <= i < 16 && h[i] != g[i];
    let k = line_no(m, i);
    let t0 = slot_no(m, i);
    let lk = line_of(g, m, k);
    assert(g[i] == lk[t0]);
    assert(h[i] == compact_line(lk)[t0]);
    assert(compact_line(lk) != lk);
    lemma_changed_has_zero(lk);
    let t = choose|t: int| 0 <= t < lk.len() && compact_line(lk)[t] == 0;
    let j = cell_at(m, k, t);
    assert(h[j] == compact_line(lk)[t]);
}

/// Each line of the grid after a move is the compaction of the same line
/// of the grid before it.
pub proof fn lemma_move_grid_lines(g: Seq<int>, m: Move)
    requires
        g.len() == 16,
    ensures
        forall|k: int|
            0 <= k < 4 ==> #[trigger] line_of(move_grid(g, m), m, k) == compact_line(
                line_of(g, m, k),
            ),
{
    lemma_cell_at_inverse(m);
    assert forall|k: int| 0 <= k < 4 implies #[trigger] line_of(move_grid(g, m), m, k)
        == compact_line(line_of(g, m, k)) by {
        lemma_compact_line(line_of(g, m, k));
        assert forall|t: int| 0 <= t < 4 implies line_of(move_grid(g, m), m, k)[t]
            == compact_line(line_of(g, m, k))[t] by {
            let i = cell_at(m, k, t);
            assert(line_of(move_grid(g, m), m, k)[t] == move_grid(g, m)[i]);
            assert(move_grid(g, m)[i] == compact_line(line_of(g, m, line_no(m, i)))[slot_no(m, i)]);
        }
        assert(line_of(move_grid(g, m), m, k) =~= compact_line(line_of(g, m, k)));
    }
}

/// A grid has at most sixteen empty cells, a finite set.
pub proof fn lemma_free_cells_finite(g: Seq<int>)
    ensures
        free_cells(g).finite(),
        free_cells(g).len() <= 16,
{
    vstd::set_lib::lemma_int_range(0, 16);
    assert(free_cells(g).subset_of(vstd::set_lib::set_int_range(0, 16)));
    vstd::set_lib::lemma_len_subset(free_cells(g), vstd::set_lib::set_int_range(0, 16));
}

/// Row-major cell index of a (row, column) position.
pub fn index(row: usize, col: usize) -> (i: usize)
    requires
        row < 4,
        col < 4,
    ensures
        i == row * 4 + col,
{
    row * 4 + col
}

impl Board {
    /// The cells of the board as mathematical integers, row-major.
    pub closed spec fn grid(self) -> Seq<int> {
        int_seq(self.values@)
    }

    /// The accumulated score, as a mathematical integer.
    pub closed spec fn spec_score(self) -> int {
        self.score as int
    }

    /// The free-cell index mirrors exactly the empty cells of the grid.
    pub closed spec fn wf(self) -> bool {
        free_set_view(self.free) == free_cells(self.grid())
    }

    /// Value of the cell at a (row, column) position.
    fn get(&self, row: usize, col: usize) -> (v: u64)
        requires
            row < 4,
            col < 4,
        ensures
            v as int == self.grid()[row * 4 + col],
    {
        self.values[index(row, col)]
    }

    /// Writes `value` at cell `idx` and keeps the free-cell index in sync:
    /// the single mutation point that every grid write funnels through.
    fn set_index(&mut self, idx: usize, value: u64)
        requires
            old(self).wf(),
            idx < 16,
        ensures
            final(self).wf(),
            final(self).grid() == old(self).grid().update(idx as int, value as int),
            final(self).spec_score() == old(self).spec_score(),
    {
        self.values[idx] = value;
        if value == 0 {
            free_set_insert(&mut self.free, idx);
        } else {
            free_set_swap_remove(&mut self.free, idx);
        }
        proof {
            assert(self.grid() =~= old(self).grid().update(idx as int, value as int));
            assert(free_set_view(self.free) =~= free_cells(self.grid()));
        }
    }

    /// Builds a board directly from explicit cell values and a score.
    pub fn with_values(values: [u64; 16], score: u64) -> (b: Board)
        ensures
            b.wf(),
            b.grid() == int_seq(values@),
            b.spec_score() == score as int,
    {
        let mut free = free_set_new();
        proof {
            assert(free_set_view(free) =~= Set::new(
                |j: int| 0 <= j < 0 && int_seq(values@)[j] == 0,
            ));
        }
        let mut i: usize = 0;
        while i < 16
            invariant
                i <= 16,
                free_set_view(free) == Set::new(
                    |j: int| 0 <= j < i && int_seq(values@)[j] == 0,
                ),
            decreases 16 - i,
        {
            if values[i] == 0 {
                free_set_insert(&mut free, i);
            }
            proof {
                assert(free_set_view(free) =~= Set::new(
                    |j: int| 0 <= j < i + 1 && int_seq(values@)[j] == 0,
                ));
            }
            i = i + 1;
        }
        let b = Board { values, free, score };
        proof {
            assert(free_set_view(b.free) =~= free_cells(b.grid()));
        }
        b
    }

    /// Writes `value` into one empty cell picked at random. On a full board
    /// this is a no-op: a board without free cells simply cannot receive a
    /// new tile.
    pub fn set_free_random(&mut self, value: u64)
        requires
            old(self).wf(),
            value != 0,
        ensures
            final(self).wf(),
            final(self).spec_score() == old(self).spec_score(),
            !has_zero(old(self).grid()) ==> final(self).grid() == old(self).grid(),
            has_zero(old(self).grid()) ==> exists|i: int|
                0 <= i < 16 && old(self).grid()[i] == 0 && final(self).grid() == old(
                    self,
                ).grid().update(i, value as int),
    {
        let max = free_set_len(&self.free);
        proof {
            lemma_free_cells_finite(self.grid());
        }
        if max == 0 {
            proof {
                free_set_view(self.free).lemma_len0_is_empty();
                assert(!has_zero(self.grid())) by {
                    if has_zero(self.grid()) {
                        let i = choose|i: int| 0 <= i < 16 && self.grid()[i] == 0;
                        assert(free_cells(self.grid()).contains(i));
                    }
                }
            }
            return ;
        }
        let pos = random_below(max);
        if let Some(free_index) = free_set_get_index(&self.free, pos) {
            proof {
                assert(free_cells(old(self).grid()).contains(free_index as int));
            }
            self.set_index(free_index, value);
            proof {
                let i = free_index as int;
                assert(0 <= i < 16 && old(self).grid()[i] == 0 && self.grid() == old(
                    self,
                ).grid().update(i, value as int));
            }
        }
    }

    /// A fresh game: an empty board seeded with a 2-tile and then a 4-tile
    /// in two random free cells.
    pub fn new() -> (b: Board)
        ensures
            b.wf(),
            b.spec_score() == 0,
            exists|i: int, j: int|
                0 <= i < 16 && 0 <= j < 16 && i != j && b.grid() == zero_grid().update(
                    i,
                    2,
                ).update(j, 4),
    {
        let mut board = Board::default();
        proof {
            assert(zero_grid()[0] == 0);
        }
        board.set_free_random(2);
        let ghost g1 = board.grid();
        proof {
            let i = choose|i: int|
                0 <= i < 16 && zero_grid()[i] == 0 && g1 == zero_grid().update(i, 2);
            let k: int = if i == 0 { 1 } else { 0 };
            assert(g1[k] == 0);
        }
        board.set_free_random(4);
        proof {
            let i = choose|i: int|
                0 <= i < 16 && zero_grid()[i] == 0 && g1 == zero_grid().update(i, 2);
            let j = choose|j: int|
                0 <= j < 16 && g1[j] == 0 && board.grid() == g1.update(j, 4);
            assert(g1[i] == 2);
            assert(board.grid() == zero_grid().update(i, 2).update(j, 4));
        }
        board
    }

    /// Compacts the line formed by the four given cells toward the first of
    /// them, merging equal adjacent values once each, and adds the merge
    /// values to the score.
    fn compact_cells(&mut self, i0: usize, i1: usize, i2: usize, i3: usize) -> (changed: bool)
        requires
            old(self).wf(),
            i0 < 16 && i1 < 16 && i2 < 16 && i3 < 16,
            i0 != i1 && i0 != i2 && i0 != i3 && i1 != i2 && i1 != i3 && i2 != i3,
            old(self).spec_score() + seq_sum(four_at(old(self).grid(), i0, i1, i2, i3))
                <= u64::MAX,
        ensures
            final(self).wf(),
            final(self).grid() == update4(
                old(self).grid(),
                i0,
                i1,
                i2,
                i3,
                compact_line(four_at(old(self).grid(), i0, i1, i2, i3)),
            ),
            final(self).spec_score() == old(self).spec_score() + compact_gain(
                four_at(old(self).grid(), i0, i1, i2, i3),
            ),
            changed == (final(self).grid() != old(self).grid()),
    {
        let ghost g0 = self.grid();
        let ghost line0 = four_at(g0, i0, i1, i2, i3);
        let cells: [u64; 4] = [self.values[i0], self.values[i1], self.values[i2], self.values[i3]];
        proof {
            assert(int_seq(cells@) =~= line0);
            lemma_int_seq_nonneg(cells@);
            lemma_compact_line(line0);
            lemma_seq_sum4(line0);
        }
        let (out, gain, line_changed) = compact4(cells);
        self.set_index(i0, out[0]);
        self.set_index(i1, out[1]);
        self.set_index(i2, out[2]);
        self.set_index(i3, out[3]);
        proof {
            let cl = compact_line(line0);
            assert(int_seq(out@) == cl);
            assert(out@[0] as int == cl[0] && out@[1] as int == cl[1] && out@[2] as int == cl[2]
                && out@[3] as int == cl[3]);
            assert(self.grid() == update4(g0, i0, i1, i2, i3, cl));
        }
        self.score = self.score + gain;
        proof {
            let cl = compact_line(line0);
            let gf = self.grid();
            if line_changed {
                assert(gf != g0) by {
                    if out@[0] != cells@[0] {
                        assert(gf[i0 as int] != g0[i0 as int]);
                    } else if out@[1] != cells@[1] {
                        assert(gf[i1 as int] != g0[i1 as int]);
                    } else if out@[2] != cells@[2] {
                        assert(gf[i2 as int] != g0[i2 as int]);
                    } else if out@[3] != cells@[3] {
                        assert(gf[i3 as int] != g0[i3 as int]);
                    } else {
                        assert(out@ =~= cells@);
                        assert(false);
                    }
                }
            } else {
                assert(out@ == cells@);
                assert(gf =~= g0);
            }
        }
        line_changed
    }

    /// Applies a move: every line of the given direction is compacted toward
    /// its target edge. Returns whether any tile slid or merged; only then
    /// has the board changed.
    #[verifier::rlimit(100)]
    pub fn apply_move(&mut self, movement: Move) -> (changed: bool)
        requires
            old(self).wf(),
            old(self).spec_score() + seq_sum(old(self).grid()) <= u64::MAX,
        ensures
            final(self).wf(),
            final(self).grid() == move_grid(old(self).grid(), movement),
            final(self).spec_score() == old(self).spec_score() + move_gain(
                old(self).grid(),
                movement,
            ),
            old(self).spec_score() <= final(self).spec_score(),
            changed == (final(self).grid() != old(self).grid()),
    {
        let ghost g0 = self.grid();
        let ghost s0 = self.spec_score();
        proof {
            lemma_int_seq_nonneg(self.values@);
            lemma_sums_from(g0, movement);
            lemma_cell_at_inverse(movement);
        }
        let mut changed = false;
        let mut k: usize = 0;
        while k < 4
            invariant
                k <= 4,
                self.wf(),
                g0.len() == 16,
                nonneg(g0),
                forall|i: int|
                    0 <= i < 16 && line_no(movement, i) < k ==> self.grid()[i] == move_grid(
                        g0,
                        movement,
                    )[i],
                forall|i: int|
                    0 <= i < 16 && line_no(movement, i) >= k ==> self.grid()[i] == g0[i],
                self.spec_score() == s0 + gains_upto(g0, movement, k as int),
                self.spec_score() + sums_from(g0, movement, k as int) <= u64::MAX,
                changed == (exists|j: int|
                    0 <= j < k && compact_line(line_of(g0, movement, j)) != line_of(
                        g0,
                        movement,
                        j,
                    )),
            decreases 4 - k,
        {
            let i0 = line_cell(&movement, k, 0);
            let i1 = line_cell(&movement, k, 1);
            let i2 = line_cell(&movement, k, 2);
            let i3 = line_cell(&movement, k, 3);
            let ghost gk = self.grid();
            let ghost lk = line_of(g0, movement, k as int);
            proof {
                lemma_cell_at_inverse(movement);
                lemma_line_facts(g0, movement, k as int);
                assert(four_at(gk, i0, i1, i2, i3) =~= lk);
                assert(sums_from(g0, movement, k as int) == seq_sum(lk) + sums_from(
                    g0,
                    movement,
                    k as int + 1,
                ));
                lemma_sums_from_nonneg(g0, movement, k as int + 1);
            }
            let ck = self.compact_cells(i0, i1, i2, i3);
            proof {
                let cl = compact_line(lk);
                assert(self.grid() == update4(gk, i0, i1, i2, i3, cl));
                // the grid invariant, cell by cell
                assert forall|i: int|
                    0 <= i < 16 && line_no(movement, i) < k + 1 implies self.grid()[i]
                    == move_grid(g0, movement)[i] by {
                    if line_no(movement, i) == k as int {
                        let t = slot_no(movement, i);
                        assert(cell_at(movement, k as int, t) == i);
                        if t == 0 {
                            assert(i == i0 as int);
                        } else if t == 1 {
                            assert(i == i1 as int);
                        } else if t == 2 {
                            assert(i == i2 as int);
                        } else {
                            assert(i == i3 as int);
                        }
                        assert(self.grid()[i] == cl[t]);
                    } else {
                        assert(i != i0 as int && i != i1 as int && i != i2 as int && i
                            != i3 as int);
                    }
                }
                assert forall|i: int|
                    0 <= i < 16 && line_no(movement, i) >= k + 1 implies self.grid()[i]
                    == g0[i] by {
                    assert(i != i0 as int && i != i1 as int && i != i2 as int && i != i3 as int);
                }
                // the score and its budget
                assert(gains_upto(g0, movement, k as int + 1) == gains_upto(
                    g0,
                    movement,
                    k as int,
                ) + compact_gain(lk));
                // whether this line changed
                assert(ck == (cl != lk)) by {
                    if cl == lk {
                        assert(self.grid() =~= gk);
                    } else {
                        assert(exists|t: int| 0 <= t < 4 && cl[t] != lk[t]) by {
                            if forall|t: int| 0 <= t < 4 ==> cl[t] == lk[t] {
                                assert(cl =~= lk);
                            }
                        }
                        let t = choose|t: int| 0 <= t < 4 && cl[t] != lk[t];
                        if t == 0 {
                            assert(self.grid()[i0 as int] != gk[i0 as int]);
                        } else if t == 1 {
                            assert(self.grid()[i1 as int] != gk[i1 as int]);
                        } else if t == 2 {
                            assert(self.grid()[i2 as int] != gk[i2 as int]);
                        } else {
                            assert(self.grid()[i3 as int] != gk[i3 as int]);
                        }
                    }
                }
            }
            let prev_changed = changed;
            changed = changed || ck;
            proof {
                if ck {
                    assert(compact_line(line_of(g0, movement, k as int)) != line_of(
                        g0,
                        movement,
                        k as int,
                    ));
                } else if prev_changed {
                    let j = choose|j: int|
                        0 <= j < k && compact_line(line_of(g0, movement, j)) != line_of(
                            g0,
                            movement,
                            j,
                        );
                    assert(0 <= j < k + 1 && compact_line(line_of(g0, movement, j)) != line_of(
                        g0,
                        movement,
                        j,
                    ));
                }
            }
            k = k + 1;
        }
        proof {
            lemma_cell_at_inverse(movement);
            lemma_line_facts(g0, movement, 0);
            lemma_line_facts(g0, movement, 1);
            lemma_line_facts(g0, movement, 2);
            lemma_line_facts(g0, movement, 3);
            assert(self.grid() =~= move_grid(g0, movement));
            assert(gains_upto(g0, movement, 4) == move_gain(g0, movement)) by {
                assert(gains_upto(g0, movement, 0) == 0);
                assert(gains_upto(g0, movement, 1) == gains_upto(g0, movement, 0) + compact_gain(
                    line_of(g0, movement, 0),
                ));
                assert(gains_upto(g0, movement, 2) == gains_upto(g0, movement, 1) + compact_gain(
                    line_of(g0, movement, 1),
                ));
                assert(gains_upto(g0, movement, 3) == gains_upto(g0, movement, 2) + compact_gain(
                    line_of(g0, movement, 2),
                ));
                assert(gains_upto(g0, movement, 4) == gains_upto(g0, movement, 3) + compact_gain(
                    line_of(g0, movement, 3),
                ));
            }
            // the change flag agrees with the grid comparison
            if changed {
                let j = choose|j: int|
                    0 <= j < 4 && compact_line(line_of(g0, movement, j)) != line_of(
                        g0,
                        movement,
                        j,
                    );
                let lj = line_of(g0, movement, j);
                let cj = compact_line(lj);
                lemma_line_facts(g0, movement, j);
                assert(exists|t: int| 0 <= t < 4 && cj[t] != lj[t]) by {
                    if forall|t: int| 0 <= t < 4 ==> cj[t] == lj[t] {
                        assert(cj =~= lj);
                    }
                }
                let t = choose|t: int| 0 <= t < 4 && cj[t] != lj[t];
                let i = cell_at(movement, j, t);
                assert(self.grid()[i] == cj[t]);
                assert(g0[i] == lj[t]);
                assert(self.grid() != g0);
            } else {
                assert(self.grid() =~= g0);
            }
        }
        changed
    }

    /// One full round: apply the move; when it changed the board, spawn a
    /// 2-tile into a random free cell; then report whether the game is over.
    pub fn round(&mut self, movement: Move) -> (r: bool)
        requires
            old(self).wf(),
            old(self).spec_score() + seq_sum(old(self).grid()) <= u64::MAX,
        ensures
            final(self).wf(),
            final(self).spec_score() == old(self).spec_score() + move_gain(
                old(self).grid(),
                movement,
            ),
            old(self).spec_score() <= final(self).spec_score(),
            r == is_terminal(final(self).grid()),
            move_grid(old(self).grid(), movement) == old(self).grid() ==> final(self).grid()
                == old(self).grid(),
            move_grid(old(self).grid(), movement) != old(self).grid() ==> exists|i: int|
                0 <= i < 16 && move_grid(old(self).grid(), movement)[i] == 0 && final(self).grid()
                    == move_grid(old(self).grid(), movement).update(i, 2),
    {
        let ghost g0 = self.grid();
        let changed = self.apply_move(movement);
        if changed {
            proof {
                lemma_changed_move_has_zero(g0, movement);
            }
            self.set_free_random(2);
        }
        self.is_over()
    }

    /// True when the game is over: no free cell is left and no two equal
    /// values stand next to each other in any row or column.
    pub fn is_over(&self) -> (r: bool)
        requires
            self.wf(),
        ensures
            r == is_terminal(self.grid()),
    {
        let no_free = free_set_is_empty(&self.free);
        proof {
            if no_free {
                assert(!has_zero(self.grid())) by {
                    if has_zero(self.grid()) {
                        let i = choose|i: int| 0 <= i < 16 && self.grid()[i] == 0;
                        assert(free_cells(self.grid()).contains(i));
                    }
                }
            } else {
                assert(has_zero(self.grid())) by {
                    if !has_zero(self.grid()) {
                        assert(free_cells(self.grid()) =~= Set::empty());
                    }
                }
            }
        }
        no_free && !self.can_merge()
    }

    /// True when some value in the board stands next to an equal one, so a
    /// move in some direction would merge them.
    fn can_merge(&self) -> (r: bool)
        ensures
            r == has_adjacent_equal(self.grid()),
    {
        let mut row: usize = 0;
        while row < 4
            invariant
                row <= 4,
                forall|p: int, q: int| 0 <= p < row && 0 <= q < 4 ==> no_pair_at(self.grid(), p, q),
            decreases 4 - row,
        {
            let mut col: usize = 0;
            while col < 4
                invariant
                    row < 4,
                    col <= 4,
                    forall|p: int, q: int|
                        0 <= p < row && 0 <= q < 4 ==> no_pair_at(self.grid(), p, q),
                    forall|q: int| 0 <= q < col ==> no_pair_at(self.grid(), row as int, q),
                decreases 4 - col,
            {
                if row < 3 && self.get(row, col) == self.get(row + 1, col) {
                    proof {
                        assert(!no_pair_at(self.grid(), row as int, col as int));
                    }
                    return true;
                }
                if col < 3 && self.get(row, col) == self.get(row, col + 1) {
                    proof {
                        assert(!no_pair_at(self.grid(), row as int, col as int));
                    }
                    return true;
                }
                col = col + 1;
            }
            row = row + 1;
        }
        false
    }

    /// A copy of the board as four rows of four values.
    pub fn as_rows(&self) -> (rows: Vec<Vec<u64>>)
        ensures
            rows@.len() == 4,
            forall|r: int| 0 <= r < 4 ==> #[trigger] rows@[r]@.len() == 4,
            forall|r: int, c: int|
                0 <= r < 4 && 0 <= c < 4 ==> #[trigger] rows@[r]@[c] as int == self.grid()[4 * r
                    + c],
    {
        let mut rows: Vec<Vec<u64>> = Vec::new();
        let mut r: usize = 0;
        while r < 4
            invariant
                r <= 4,
                rows@.len() == r,
                forall|p: int| 0 <= p < r ==> #[trigger] rows@[p]@.len() == 4,
                forall|p: int, c: int|
                    0 <= p < r && 0 <= c < 4 ==> #[trigger] rows@[p]@[c] as int == self.grid()[4
                        * p + c],
            decreases 4 - r,
        {
            let mut row: Vec<u64> = Vec::new();
            let mut c: usize = 0;
            while c < 4
                invariant
                    r < 4,
                    c <= 4,
                    row@.len() == c,
                    forall|q: int|
                        0 <= q < c ==> #[trigger] row@[q] as int == self.grid()[4 * r + q],
                decreases 4 - c,
            {
                row.push(self.get(r, c));
                c = c + 1;
            }
            rows.push(row);
            r = r + 1;
        }
        rows
    }
}

impl PartialEq for Board {
    /// Two boards are equal when their grids and their scores agree; the
    /// free-cell index is determined by the grid.
    fn eq(&self, other: &Board) -> (r: bool) {
        let mut same = self.score == other.score;
        let mut k: usize = 0;
        while k < 16
            invariant
                k <= 16,
                same == (self.score == other.score && forall|j: int|
                    0 <= j < k ==> self.values@[j] == other.values@[j]),
            decreases 16 - k,
        {
            if self.values[k] != other.values[k] {
                same = false;
            }
            k = k + 1;
        }
        proof {
            if same {
                assert(self.values@ =~= other.values@);
            }
        }
        same
    }
}

impl vstd::std_specs::cmp::PartialEqSpecImpl for Board {
    open spec fn obeys_eq_spec() -> bool {
        true
    }

    closed spec fn eq_spec(&self, other: &Board) -> bool {
        self.values@ == other.values@ && self.score == other.score
    }
}

impl Default for Board {
    /// The empty board: every cell free, score zero.
    fn default() -> (b: Board)
        ensures
            b.wf(),
            b.grid() == zero_grid(),
            b.spec_score() == 0,
    {
        let b = Board::with_values([0, 0, 0, 0, 0, 0, 0, 0, 0, 0, 0, 0, 0, 0, 0, 0], 0);
        proof {
            assert(b.grid() =~= zero_grid());
        }
        b
    }
}

} // verus!
