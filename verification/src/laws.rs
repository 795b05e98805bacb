//! Laws of the move algebra: properties that hold of every grid and every
//! direction, stated over the grid model and proved once and for all.

use vstd::prelude::*;
use crate::board::{
    Move, move_grid, move_gain, line_of, cell_at, line_no, slot_no, lemma_cell_at_inverse,
    lemma_move_grid_lines,
};
use crate::line::{
    seq_sum, nonzeros, merge_line, compact_line, compact_gain, line_gain, lemma_nonzeros,
    lemma_merge_line, lemma_nonzeros_of_padded, lemma_unchanged_gain_zero, lemma_seq_sum4,
    lemma_seq_sum16, lemma_nonzeros_member, lemma_nonzeros_adjacent, lemma_merge_provenance,
};

verus! {

/// How many cells of a grid hold a tile.
pub open spec fn tile_count(g: Seq<int>) -> int {
    seq_sum(Seq::new(g.len(), |i: int| if g[i] == 0 { 0int } else { 1int }))
}

/// The tile count of a sequence is the number of its nonzero elements.
proof fn lemma_tile_count_is_nonzeros(s: Seq<int>)
    ensures
        tile_count(s) == nonzeros(s).len(),
    decreases s.len(),
{
    let ones = Seq::new(s.len(), |i: int| if s[i] == 0 { 0int } else { 1int });
    if s.len() == 0 {
    } else {
        lemma_tile_count_is_nonzeros(s.skip(1));
        assert(ones.skip(1) =~= Seq::new(
            s.skip(1).len(),
            |i: int| if s.skip(1)[i] == 0 { 0int } else { 1int },
        ));
        assert(seq_sum(ones) == ones[0] + seq_sum(ones.skip(1)));
        if s[0] != 0 {
            assert(nonzeros(s) == seq![s[0]] + nonzeros(s.skip(1)));
        }
    }
}

/// A move that reports no change is stable: the same direction applied again
/// still changes nothing, and the move gained no score.
pub proof fn lemma_unchanged_move_is_stable(g: Seq<int>, m: Move)
    requires
        g.len() == 16,
        move_grid(g, m) == g,
    ensures
        move_grid(move_grid(g, m), m) == move_grid(g, m),
        move_gain(g, m) == 0,
{
    lemma_move_grid_lines(g, m);
    assert forall|k: int| 0 <= k < 4 implies #[trigger] compact_gain(line_of(g, m, k)) == 0 by {
        assert(line_of(move_grid(g, m), m, k) == compact_line(line_of(g, m, k)));
        assert(line_of(move_grid(g, m), m, k) == line_of(g, m, k));
        lemma_unchanged_gain_zero(line_of(g, m, k));
    }
}

/// Merging two tiles of value `v` adds exactly `v + v` to the score: a line
/// holding just that pair compacts to one doubled tile at the edge, and the
/// pass gains exactly the doubled value.
pub proof fn lemma_merge_pair_gain(v: int)
    requires
        v != 0,
    ensures
        compact_line(seq![v, v, 0, 0]) == seq![2 * v, 0, 0, 0],
        compact_gain(seq![v, v, 0, 0]) == 2 * v,
{
    let s = seq![v, v, 0, 0];
    assert(nonzeros(Seq::<int>::empty()) == Seq::<int>::empty());
    assert(merge_line(Seq::<int>::empty()) == Seq::<int>::empty());
    assert(crate::line::line_gain(Seq::<int>::empty()) == 0);
    assert(seq![v] + Seq::<int>::empty() =~= seq![v]);
    assert(seq![2 * v] + Seq::<int>::empty() =~= seq![2 * v]);
    assert(s.skip(1) =~= seq![v, 0int, 0int]);
    assert(seq![v, 0int, 0int].skip(1) =~= seq![0int, 0int]);
    assert(seq![0int, 0int].skip(1) =~= seq![0int]);
    assert(seq![0int].skip(1) =~= Seq::<int>::empty());
    assert(nonzeros(seq![0int]) =~= Seq::<int>::empty());
    assert(nonzeros(seq![0int, 0int]) =~= Seq::<int>::empty());
    assert(nonzeros(seq![v, 0int, 0int]) =~= seq![v]);
    assert(nonzeros(s) =~= seq![v, v]);
    let w = seq![v, v];
    assert(w.skip(2) =~= Seq::<int>::empty());
    assert(merge_line(w) =~= seq![2 * v]);
    assert(line_gain(w) == 2 * v) by {
        assert(line_gain(w) == w[0] * 2 + line_gain(w.skip(2)));
    }
    assert(compact_line(s) =~= seq![2 * v, 0int, 0int, 0int]);
}

/// The merge-once rule: a line of four equal tiles merges into two doubled
/// pairs, never into one tile of four times the value.
pub proof fn lemma_four_equal_merge_once(v: int)
    requires
        v != 0,
    ensures
        compact_line(seq![v, v, v, v]) == seq![2 * v, 2 * v, 0, 0],
        compact_gain(seq![v, v, v, v]) == 4 * v,
{
    let s = seq![v, v, v, v];
    assert(nonzeros(Seq::<int>::empty()) == Seq::<int>::empty());
    assert(merge_line(Seq::<int>::empty()) == Seq::<int>::empty());
    assert(crate::line::line_gain(Seq::<int>::empty()) == 0);
    assert(seq![v] + Seq::<int>::empty() =~= seq![v]);
    assert(seq![2 * v] + Seq::<int>::empty() =~= seq![2 * v]);
    assert(s.skip(1) =~= seq![v, v, v]);
    assert(seq![v, v, v].skip(1) =~= seq![v, v]);
    assert(seq![v, v].skip(1) =~= seq![v]);
    assert(seq![v].skip(1) =~= Seq::<int>::empty());
    assert(nonzeros(seq![v]) =~= seq![v]);
    assert(nonzeros(seq![v, v]) =~= seq![v, v]);
    assert(nonzeros(seq![v, v, v]) =~= seq![v, v, v]);
    assert(nonzeros(s) =~= s);
    assert(s.skip(2) =~= seq![v, v]);
    assert(seq![v, v].skip(2) =~= Seq::<int>::empty());
    assert(merge_line(seq![v, v]) =~= seq![2 * v]);
    assert(merge_line(s) =~= seq![2 * v, 2 * v]);
    assert(line_gain(seq![v, v]) == 2 * v) by {
        assert(line_gain(seq![v, v]) == v * 2 + line_gain(seq![v, v].skip(2)));
    }
    assert(line_gain(s) == 4 * v) by {
        assert(line_gain(s) == v * 2 + line_gain(s.skip(2)));
    }
    assert(compact_line(s) =~= seq![2 * v, 2 * v, 0int, 0int]);
}

/// The conservation law of a move: the number of tiles never increases, and
/// no tile value appears that was not on the board before, except as the sum
/// of two equal tiles that stood in the moved line.
pub proof fn lemma_move_conserves_tiles(g: Seq<int>, m: Move)
    requires
        g.len() == 16,
    ensures
        tile_count(move_grid(g, m)) <= tile_count(g),
        forall|i: int|
            0 <= i < 16 && #[trigger] move_grid(g, m)[i] != 0 ==> (exists|j: int|
                0 <= j < 16 && (#[trigger] g[j]) == move_grid(g, m)[i]) || (exists|j1: int, j2: int|
                #![trigger g[j1], g[j2]]
                0 <= j1 < 16 && 0 <= j2 < 16 && j1 != j2 && g[j1] == g[j2] && g[j1] + g[j2]
                    == move_grid(g, m)[i]),
{
    let h = move_grid(g, m);
    lemma_cell_at_inverse(m);
    lemma_move_grid_lines(g, m);
    lemma_line_count(g, m);
    lemma_line_count(h, m);
    assert forall|k: int| 0 <= k < 4 implies #[trigger] tile_count(line_of(h, m, k))
        <= tile_count(line_of(g, m, k)) by {
        let lk = line_of(g, m, k);
        lemma_tile_count_is_nonzeros(lk);
        lemma_tile_count_is_nonzeros(line_of(h, m, k));
        lemma_nonzeros(lk);
        lemma_merge_line(nonzeros(lk));
        lemma_nonzeros_of_padded(
            merge_line(nonzeros(lk)),
            (4 - merge_line(nonzeros(lk)).len()) as nat,
        );
        assert(line_of(h, m, k) == compact_line(lk));
        assert(nonzeros(compact_line(lk)) == merge_line(nonzeros(lk)));
    }
    assert forall|i: int| 0 <= i < 16 && #[trigger] h[i] != 0 implies (exists|j: int|
        0 <= j < 16 && (#[trigger] g[j]) == h[i]) || (exists|j1: int, j2: int|
        #![trigger g[j1], g[j2]]
        0 <= j1 < 16 && 0 <= j2 < 16 && j1 != j2 && g[j1] == g[j2] && g[j1] + g[j2] == h[i]) by {
        let k = line_no(m, i);
        let t = slot_no(m, i);
        let lk = line_of(g, m, k);
        let w = nonzeros(lk);
        lemma_nonzeros(lk);
        lemma_merge_line(w);
        assert(h[i] == compact_line(lk)[t]);
        assert(t < merge_line(w).len());
        assert(merge_line(w)[t] == h[i]);
        lemma_merge_provenance(w, t);
        if exists|p: int| 0 <= p < w.len() && (#[trigger] w[p]) == merge_line(w)[t] {
            let p = choose|p: int| 0 <= p < w.len() && (#[trigger] w[p]) == merge_line(w)[t];
            lemma_nonzeros_member(lk, p);
            let q = choose|q: int| 0 <= q < lk.len() && lk[q] == nonzeros(lk)[p];
            let j = cell_at(m, k, q);
            assert(g[j] == lk[q]);
            assert(g[j] == h[i]);
        } else {
            let p = choose|p: int|
                0 <= p && p + 1 < w.len() && (#[trigger] w[p]) == w[p + 1] && w[p] + w[p + 1]
                    == merge_line(w)[t];
            lemma_nonzeros_adjacent(lk, p);
            let (q1, q2) = choose|q1: int, q2: int|
                0 <= q1 < q2 < lk.len() && lk[q1] == nonzeros(lk)[p] && lk[q2] == nonzeros(lk)[p
                    + 1];
            let j1 = cell_at(m, k, q1);
            let j2 = cell_at(m, k, q2);
            assert(slot_no(m, j1) == q1 && slot_no(m, j2) == q2);
            assert(j1 != j2);
            assert(g[j1] == lk[q1] && g[j2] == lk[q2]);
            assert(g[j1] == g[j2] && g[j1] + g[j2] == h[i]);
        }
    }
}

/// The tile count of a grid is the sum of the tile counts of the four lines
/// of any direction.
proof fn lemma_line_count(g: Seq<int>, m: Move)
    requires
        g.len() == 16,
    ensures
        tile_count(g) == tile_count(line_of(g, m, 0)) + tile_count(line_of(g, m, 1)) + tile_count(
            line_of(g, m, 2),
        ) + tile_count(line_of(g, m, 3)),
{
    lemma_cell_at_inverse(m);
    let ones = Seq::new(g.len(), |i: int| if g[i] == 0 { 0int } else { 1int });
    lemma_seq_sum16(ones);
    assert forall|k: int| 0 <= k < 4 implies #[trigger] tile_count(line_of(g, m, k)) == ones[
        cell_at(m, k, 0)
    ] + ones[cell_at(m, k, 1)] + ones[cell_at(m, k, 2)] + ones[cell_at(m, k, 3)] by {
        let lk = line_of(g, m, k);
        let lones = Seq::new(lk.len(), |t: int| if lk[t] == 0 { 0int } else { 1int });
        lemma_seq_sum4(lones);
        assert(lones[0] == ones[cell_at(m, k, 0)] && lones[1] == ones[cell_at(m, k, 1)]
            && lones[2] == ones[cell_at(m, k, 2)] && lones[3] == ones[cell_at(m, k, 3)]);
    }
}

/// A tile value of the game: a power of two, at least 2.
pub open spec fn is_tile_value(v: int) -> bool
    decreases v,
{
    if v == 2 {
        true
    } else if v <= 2 || v % 2 != 0 {
        false
    } else {
        is_tile_value(v / 2)
    }
}

/// The double of a tile value is a tile value.
proof fn lemma_double_tile_value(v: int)
    requires
        is_tile_value(v),
    ensures
        is_tile_value(2 * v),
{
    assert((2 * v) / 2 == v);
}

/// Moves keep every tile a power of two: a merge doubles a power of two and
/// nothing else writes a new value.
pub proof fn lemma_move_preserves_tile_values(g: Seq<int>, m: Move)
    requires
        g.len() == 16,
        forall|i: int| 0 <= i < 16 && g[i] != 0 ==> is_tile_value(#[trigger] g[i]),
    ensures
        forall|i: int|
            0 <= i < 16 && move_grid(g, m)[i] != 0 ==> is_tile_value(
                #[trigger] move_grid(g, m)[i],
            ),
{
    let h = move_grid(g, m);
    lemma_move_conserves_tiles(g, m);
    assert forall|i: int| 0 <= i < 16 && h[i] != 0 implies is_tile_value(#[trigger] h[i]) by {
        assert(move_grid(g, m)[i] == h[i]);
        if exists|j: int| 0 <= j < 16 && (#[trigger] g[j]) == h[i] {
            let j = choose|j: int| 0 <= j < 16 && (#[trigger] g[j]) == h[i];
            assert(is_tile_value(g[j]));
        } else {
            let (j1, j2) = choose|j1: int, j2: int|
                #![trigger g[j1], g[j2]]
                0 <= j1 < 16 && 0 <= j2 < 16 && j1 != j2 && g[j1] == g[j2] && g[j1] + g[j2]
                    == h[i];
            assert(g[j1] != 0);
            lemma_double_tile_value(g[j1]);
            assert(2 * g[j1] == h[i]);
        }
    }
}

} // verus!
