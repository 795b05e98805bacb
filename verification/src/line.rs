//! Compaction and merging of a single line of tiles.
//!
//! A line is one row or one column of the grid, read in the direction of the
//! move. Compacting a line slides every nonzero tile toward the front,
//! merging each pair of equal adjacent tiles once, front first, and pads the
//! tail with zeros. The spec functions here define that transformation over
//! mathematical sequences; `compact4` is the verified executable version for
//! the four-cell lines of the 4x4 grid.

use vstd::prelude::*;

verus! {

/// Sum of all elements of a sequence.
pub open spec fn seq_sum(s: Seq<int>) -> int
    decreases s.len(),
{
    if s.len() == 0 {
        0
    } else {
        s[0] + seq_sum(s.skip(1))
    }
}

/// All elements of the sequence are nonnegative.
pub open spec fn nonneg(s: Seq<int>) -> bool {
    forall|i: int| 0 <= i < s.len() ==> s[i] >= 0
}

/// The nonzero elements of a sequence, in order.
pub open spec fn nonzeros(s: Seq<int>) -> Seq<int>
    decreases s.len(),
{
    if s.len() == 0 {
        Seq::empty()
    } else if s[0] == 0 {
        nonzeros(s.skip(1))
    } else {
        seq![s[0]] + nonzeros(s.skip(1))
    }
}

/// Merge equal adjacent elements of a gap-free line, front first, each
/// element merging at most once.
pub open spec fn merge_line(w: Seq<int>) -> Seq<int>
    decreases w.len(),
{
    if w.len() < 2 {
        w
    } else if w[0] == w[1] {
        seq![w[0] * 2] + merge_line(w.skip(2))
    } else {
        seq![w[0]] + merge_line(w.skip(1))
    }
}

/// The score gained by merging: the sum of the values produced by merges.
pub open spec fn line_gain(w: Seq<int>) -> int
    decreases w.len(),
{
    if w.len() < 2 {
        0
    } else if w[0] == w[1] {
        w[0] * 2 + line_gain(w.skip(2))
    } else {
        line_gain(w.skip(1))
    }
}

/// A full compaction pass over a line: slide the nonzero tiles to the front,
/// merge equal adjacent pairs once each, and pad the tail with zeros.
pub open spec fn compact_line(s: Seq<int>) -> Seq<int> {
    let m = merge_line(nonzeros(s));
    m + Seq::new((s.len() - m.len()) as nat, |i: int| 0)
}

/// The score gained by one compaction pass over a line.
pub open spec fn compact_gain(s: Seq<int>) -> int {
    line_gain(nonzeros(s))
}

/// The elements of a sequence of machine words, as mathematical integers.
pub open spec fn int_seq(s: Seq<u64>) -> Seq<int> {
    s.map_values(|v: u64| v as int)
}

/// A sequence of machine words is nonnegative as integers.
pub proof fn lemma_int_seq_nonneg(s: Seq<u64>)
    ensures
        nonneg(int_seq(s)),
{
    assert forall|i: int| 0 <= i < int_seq(s).len() implies int_seq(s)[i] >= 0 by {
        assert(int_seq(s)[i] == s[i] as int);
    }
}

/// The sum of a four-element sequence, written out.
pub proof fn lemma_seq_sum4(s: Seq<int>)
    requires
        s.len() == 4,
    ensures
        seq_sum(s) == s[0] + s[1] + s[2] + s[3],
{
    assert(seq_sum(s) == s[0] + seq_sum(s.skip(1)));
    assert(s.skip(1)[0] == s[1]);
    assert(s.skip(1).skip(1) =~= s.skip(2));
    assert(seq_sum(s.skip(1)) == s[1] + seq_sum(s.skip(2)));
    assert(s.skip(2)[0] == s[2]);
    assert(s.skip(2).skip(1) =~= s.skip(3));
    assert(seq_sum(s.skip(2)) == s[2] + seq_sum(s.skip(3)));
    assert(s.skip(3)[0] == s[3]);
    assert(s.skip(3).skip(1) =~= s.skip(4));
    assert(s.skip(4).len() == 0);
    assert(seq_sum(s.skip(4)) == 0);
    assert(seq_sum(s.skip(3)) == s[3] + seq_sum(s.skip(4)));
}

/// The sum of a sixteen-element sequence, written out cell by cell.
pub proof fn lemma_seq_sum16(s: Seq<int>)
    requires
        s.len() == 16,
    ensures
        seq_sum(s) == s[0] + s[1] + s[2] + s[3] + s[4] + s[5] + s[6] + s[7] + s[8] + s[9] + s[10]
            + s[11] + s[12] + s[13] + s[14] + s[15],
{
    assert forall|k: int| 0 <= k < 16 implies #[trigger] seq_sum(s.skip(k)) == s[k] + seq_sum(
        s.skip(k + 1),
    ) by {
        assert(s.skip(k)[0] == s[k]);
        assert(s.skip(k).skip(1) =~= s.skip(k + 1));
    }
    assert(s.skip(0) =~= s);
    assert(s.skip(16).len() == 0);
    assert(seq_sum(s.skip(16)) == 0);
}

/// `nonzeros` keeps the length bounded, the sum exact, every kept element
/// nonzero, and nonnegativity.
pub proof fn lemma_nonzeros(s: Seq<int>)
    ensures
        nonzeros(s).len() <= s.len(),
        seq_sum(nonzeros(s)) == seq_sum(s),
        forall|i: int| 0 <= i < nonzeros(s).len() ==> nonzeros(s)[i] != 0,
        nonneg(s) ==> nonneg(nonzeros(s)),
    decreases s.len(),
{
    if s.len() == 0 {
    } else {
        lemma_nonzeros(s.skip(1));
        assert(s.skip(1).len() == s.len() - 1);
        if s[0] != 0 {
            let t = seq![s[0]] + nonzeros(s.skip(1));
            assert(t.skip(1) =~= nonzeros(s.skip(1)));
            assert(seq_sum(t) == s[0] + seq_sum(nonzeros(s.skip(1))));
        }
    }
}

/// Merging keeps the length bounded, preserves the sum, keeps every element
/// nonzero when the input is gap-free, and keeps nonnegativity; the gain is
/// between zero and the sum for nonnegative input.
pub proof fn lemma_merge_line(w: Seq<int>)
    ensures
        merge_line(w).len() <= w.len(),
        seq_sum(merge_line(w)) == seq_sum(w),
        (forall|i: int| 0 <= i < w.len() ==> w[i] != 0) ==> (forall|i: int|
            0 <= i < merge_line(w).len() ==> merge_line(w)[i] != 0),
        nonneg(w) ==> nonneg(merge_line(w)),
        nonneg(w) ==> 0 <= line_gain(w) <= seq_sum(w),
    decreases w.len(),
{
    if w.len() < 2 {
        if w.len() == 1 {
            assert(seq_sum(w) == w[0] + seq_sum(w.skip(1)));
            assert(w.skip(1).len() == 0);
        }
    } else if w[0] == w[1] {
        lemma_merge_line(w.skip(2));
        let t = seq![w[0] * 2] + merge_line(w.skip(2));
        assert(t.skip(1) =~= merge_line(w.skip(2)));
        assert(seq_sum(t) == w[0] * 2 + seq_sum(merge_line(w.skip(2))));
        assert(w.skip(1).skip(1) =~= w.skip(2));
        assert(seq_sum(w) == w[0] + seq_sum(w.skip(1)));
        assert(w.skip(1)[0] == w[1]);
        assert(seq_sum(w.skip(1)) == w[1] + seq_sum(w.skip(2)));
        assert(forall|i: int| 0 <= i < w.skip(2).len() ==> w.skip(2)[i] == w[i + 2]);
    } else {
        lemma_merge_line(w.skip(1));
        let t = seq![w[0]] + merge_line(w.skip(1));
        assert(t.skip(1) =~= merge_line(w.skip(1)));
        assert(seq_sum(t) == w[0] + seq_sum(merge_line(w.skip(1))));
        assert(seq_sum(w) == w[0] + seq_sum(w.skip(1)));
        assert(forall|i: int| 0 <= i < w.skip(1).len() ==> w.skip(1)[i] == w[i + 1]);
    }
}

/// A merge pass that does not shorten the line did nothing: the line comes
/// back unchanged and the gain is zero.
pub proof fn lemma_merge_line_same_len(w: Seq<int>)
    requires
        merge_line(w).len() == w.len(),
    ensures
        merge_line(w) == w,
        line_gain(w) == 0,
    decreases w.len(),
{
    if w.len() < 2 {
    } else if w[0] == w[1] {
        lemma_merge_line(w.skip(2));
        let t = seq![w[0] * 2] + merge_line(w.skip(2));
        assert(t.len() <= 1 + w.len() - 2);
        assert(false);
    } else {
        let t = seq![w[0]] + merge_line(w.skip(1));
        assert(merge_line(w.skip(1)).len() == w.skip(1).len());
        lemma_merge_line_same_len(w.skip(1));
        assert(t =~= w);
    }
}

/// The compacted line has the same length and the same sum as the input, and
/// the gain of the pass is at most the sum of the input when all values are
/// nonnegative.
pub proof fn lemma_compact_line(s: Seq<int>)
    ensures
        compact_line(s).len() == s.len(),
        seq_sum(compact_line(s)) == seq_sum(s),
        nonneg(s) ==> 0 <= compact_gain(s) <= seq_sum(s),
        nonneg(s) ==> nonneg(compact_line(s)),
{
    lemma_nonzeros(s);
    lemma_merge_line(nonzeros(s));
    let m = merge_line(nonzeros(s));
    let pad = Seq::new((s.len() - m.len()) as nat, |i: int| 0);
    lemma_seq_sum_zero_pad(m, pad);
}

/// Appending zeros to a sequence does not change its sum.
proof fn lemma_seq_sum_zero_pad(m: Seq<int>, pad: Seq<int>)
    requires
        forall|i: int| 0 <= i < pad.len() ==> pad[i] == 0,
    ensures
        seq_sum(m + pad) == seq_sum(m),
    decreases m.len() + pad.len(),
{
    if m.len() > 0 {
        assert((m + pad).skip(1) =~= m.skip(1) + pad);
        lemma_seq_sum_zero_pad(m.skip(1), pad);
        assert(seq_sum(m + pad) == (m + pad)[0] + seq_sum(m.skip(1) + pad));
    } else if pad.len() > 0 {
        assert(m + pad =~= pad);
        assert((m + pad).skip(1) =~= pad.skip(1));
        lemma_seq_sum_zero_pad(m, pad.skip(1));
        assert(seq_sum(pad) == pad[0] + seq_sum(pad.skip(1)));
    } else {
        assert(m + pad =~= m);
    }
}

/// A compaction pass that leaves the line as it was gained nothing.
pub proof fn lemma_unchanged_gain_zero(s: Seq<int>)
    requires
        compact_line(s) == s,
    ensures
        compact_gain(s) == 0,
{
    lemma_nonzeros(s);
    lemma_merge_line(nonzeros(s));
    let w = nonzeros(s);
    let m = merge_line(w);
    if m.len() < w.len() {
        // the compacted line then holds fewer nonzero cells than the input
        lemma_nonzeros_of_padded(m, (s.len() - m.len()) as nat);
        assert(nonzeros(compact_line(s)) == m);
        assert(nonzeros(s) == w);
        assert(m.len() == w.len());
        assert(false);
    } else {
        lemma_merge_line_same_len(w);
    }
}

/// The nonzero elements of a gap-free line padded with zeros are the line
/// itself.
pub proof fn lemma_nonzeros_of_padded(m: Seq<int>, k: nat)
    requires
        forall|i: int| 0 <= i < m.len() ==> m[i] != 0,
    ensures
        nonzeros(m + Seq::new(k, |i: int| 0)) == m,
    decreases m.len() + k,
{
    let pad = Seq::new(k, |i: int| 0);
    let s = m + pad;
    if m.len() > 0 {
        assert(s[0] == m[0]);
        assert(s.skip(1) =~= m.skip(1) + pad);
        lemma_nonzeros_of_padded(m.skip(1), k);
        assert(nonzeros(s) == seq![s[0]] + nonzeros(s.skip(1)));
        assert(seq![m[0]] + m.skip(1) =~= m);
    } else if k > 0 {
        assert(s =~= pad);
        assert(s[0] == 0);
        assert(s.skip(1) =~= m + Seq::new((k - 1) as nat, |i: int| 0));
        lemma_nonzeros_of_padded(m, (k - 1) as nat);
    } else {
        assert(s =~= m);
    }
}

/// A compaction pass that changed the line leaves at least one empty cell.
pub proof fn lemma_changed_has_zero(s: Seq<int>)
    requires
        compact_line(s) != s,
    ensures
        exists|i: int| 0 <= i < s.len() && compact_line(s)[i] == 0,
{
    lemma_nonzeros(s);
    lemma_merge_line(nonzeros(s));
    let w = nonzeros(s);
    let m = merge_line(w);
    if m.len() < s.len() {
        assert(compact_line(s)[s.len() - 1] == 0);
    } else {
        assert(m.len() == s.len());
        assert(w.len() == s.len());
        lemma_merge_line_same_len(w);
        lemma_nonzeros_full(s);
        assert(compact_line(s) =~= s);
        assert(false);
    }
}

/// Compacts one four-cell line toward its front: the executable form of
/// `compact_line`. Also returns the score gained by the merges and whether
/// any tile slid or merged.
pub fn compact4(cells: [u64; 4]) -> (r: ([u64; 4], u64, bool))
    requires
        seq_sum(int_seq(cells@)) <= u64::MAX,
    ensures
        int_seq(r.0@) == compact_line(int_seq(cells@)),
        r.1 as int == compact_gain(int_seq(cells@)),
        r.2 == (r.0@ != cells@),
{
    let ghost s = int_seq(cells@);
    proof {
        lemma_int_seq_nonneg(cells@);
        lemma_nonzeros(s);
        lemma_merge_line(nonzeros(s));
        assert(s.skip(0) =~= s);
    }
    // gather the nonzero tiles, front first
    let mut vals: Vec<u64> = Vec::new();
    let mut t: usize = 0;
    while t < 4
        invariant
            t <= 4,
            s == int_seq(cells@),
            s.len() == 4,
            vals@.len() <= t,
            int_seq(vals@) + nonzeros(s.skip(t as int)) == nonzeros(s),
        decreases 4 - t,
    {
        proof {
            assert(s.skip(t as int)[0] == s[t as int]);
            assert(s.skip(t as int).skip(1) =~= s.skip(t as int + 1));
        }
        let ghost vp = vals@;
        if cells[t] != 0 {
            vals.push(cells[t]);
            proof {
                assert(int_seq(vals@) =~= int_seq(vp) + seq![s[t as int]]);
                assert((int_seq(vp) + seq![s[t as int]]) + nonzeros(s.skip(t as int + 1)) =~= int_seq(
                    vp,
                ) + (seq![s[t as int]] + nonzeros(s.skip(t as int + 1))));
            }
        }
        t = t + 1;
    }
    let ghost w = nonzeros(s);
    proof {
        assert(s.skip(4) =~= Seq::<int>::empty());
        assert(int_seq(vals@) + Seq::<int>::empty() =~= int_seq(vals@));
        assert(int_seq(vals@) == w);
    }
    // merge equal adjacent tiles, front first, each at most once
    let mut out: [u64; 4] = [0, 0, 0, 0];
    let mut oi: usize = 0;
    let mut gain: u64 = 0;
    let mut p: usize = 0;
    proof {
        assert(w.skip(0) =~= w);
        assert(int_seq(out@).take(0) =~= Seq::<int>::empty());
        assert(Seq::<int>::empty() + merge_line(w) =~= merge_line(w));
    }
    while p < vals.len()
        invariant
            int_seq(vals@) == w,
            w == nonzeros(s),
            seq_sum(w) <= u64::MAX,
            nonneg(w),
            0 <= line_gain(w) <= seq_sum(w),
            vals@.len() <= 4,
            p <= vals@.len(),
            oi <= p,
            out@.len() == 4,
            merge_line(w) == int_seq(out@).take(oi as int) + merge_line(w.skip(p as int)),
            line_gain(w) == gain + line_gain(w.skip(p as int)),
            forall|i: int| oi <= i < 4 ==> int_seq(out@)[i] == 0,
        decreases vals@.len() - p,
    {
        proof {
            assert(w.skip(p as int)[0] == w[p as int]);
            assert(w[p as int] == vals@[p as int] as int);
            lemma_suffix_facts(w, p as int);
        }
        let ghost out_before = out@;
        let ghost oi0 = oi as int;
        if p + 1 < vals.len() && vals[p] == vals[p + 1] {
            proof {
                assert(w.skip(p as int)[1] == w[p as int + 1]);
                assert(w.skip(p as int).skip(2) =~= w.skip(p as int + 2));
                lemma_suffix_facts(w, p as int + 2);
                assert(merge_line(w.skip(p as int)) == seq![w[p as int] * 2] + merge_line(
                    w.skip(p as int + 2),
                ));
                assert(line_gain(w.skip(p as int)) == w[p as int] * 2 + line_gain(
                    w.skip(p as int + 2),
                ));
            }
            let m = vals[p] * 2;
            out[oi] = m;
            gain = gain + m;
            proof {
                assert(int_seq(out@).take(oi0 + 1) =~= int_seq(out_before).take(oi0) + seq![
                    m as int,
                ]);
                assert((int_seq(out_before).take(oi0) + seq![m as int]) + merge_line(
                    w.skip(p as int + 2),
                ) =~= int_seq(out_before).take(oi0) + (seq![m as int] + merge_line(
                    w.skip(p as int + 2),
                )));
                assert forall|i: int| oi0 + 1 <= i < 4 implies int_seq(out@)[i] == 0 by {
                    assert(out@[i] == out_before[i]);
                    assert(int_seq(out_before)[i] == 0);
                }
            }
            p = p + 2;
            oi = oi + 1;
        } else {
            proof {
                if p + 1 < vals@.len() {
                    assert(w.skip(p as int)[1] == w[p as int + 1]);
                    assert(w.skip(p as int).skip(1) =~= w.skip(p as int + 1));
                } else {
                    assert(w.skip(p as int).len() == 1);
                    assert(w.skip(p as int + 1).len() == 0);
                    assert(seq![w[p as int]] + merge_line(w.skip(p as int + 1)) =~= w.skip(
                        p as int,
                    ));
                }
                lemma_suffix_facts(w, p as int + 1);
                assert(merge_line(w.skip(p as int)) == seq![w[p as int]] + merge_line(
                    w.skip(p as int + 1),
                ));
                assert(line_gain(w.skip(p as int)) == line_gain(w.skip(p as int + 1)));
            }
            let v = vals[p];
            out[oi] = v;
            proof {
                assert(int_seq(out@).take(oi0 + 1) =~= int_seq(out_before).take(oi0) + seq![
                    v as int,
                ]);
                assert((int_seq(out_before).take(oi0) + seq![v as int]) + merge_line(
                    w.skip(p as int + 1),
                ) =~= int_seq(out_before).take(oi0) + (seq![v as int] + merge_line(
                    w.skip(p as int + 1),
                )));
                assert forall|i: int| oi0 + 1 <= i < 4 implies int_seq(out@)[i] == 0 by {
                    assert(out@[i] == out_before[i]);
                    assert(int_seq(out_before)[i] == 0);
                }
            }
            p = p + 1;
            oi = oi + 1;
        }
    }
    proof {
        assert(w.skip(p as int).len() == 0);
        assert(merge_line(w.skip(p as int)).len() == 0);
        assert(int_seq(out@).take(oi as int) + merge_line(w.skip(p as int)) =~= int_seq(
            out@,
        ).take(oi as int));
        assert(merge_line(w) == int_seq(out@).take(oi as int));
        assert(oi as int == merge_line(w).len());
        assert(int_seq(out@) =~= compact_line(s));
    }
    let changed = !(out[0] == cells[0] && out[1] == cells[1] && out[2] == cells[2] && out[3]
        == cells[3]);
    proof {
        if !changed {
            assert(out@ =~= cells@);
        } else {
            assert(out@ != cells@) by {
                if out@ == cells@ {
                    assert(out@[0] == cells@[0] && out@[1] == cells@[1] && out@[2] == cells@[2]
                        && out@[3] == cells@[3]);
                }
            }
        }
    }
    (out, gain, changed)
}

/// Facts about a suffix of a nonnegative, gap-free line that the merging
/// loop leans on at every step.
proof fn lemma_suffix_facts(w: Seq<int>, k: int)
    requires
        nonneg(w),
        0 <= k <= w.len(),
    ensures
        nonneg(w.skip(k)),
        0 <= line_gain(w.skip(k)) <= seq_sum(w.skip(k)),
        seq_sum(w.skip(k)) <= seq_sum(w),
{
    assert forall|i: int| 0 <= i < w.skip(k).len() implies w.skip(k)[i] >= 0 by {
        assert(w.skip(k)[i] == w[k + i]);
    }
    lemma_merge_line(w.skip(k));
    lemma_seq_sum_skip_le(w, k);
}

/// Dropping a nonnegative prefix cannot increase the sum.
proof fn lemma_seq_sum_skip_le(w: Seq<int>, k: int)
    requires
        nonneg(w),
        0 <= k <= w.len(),
    ensures
        seq_sum(w.skip(k)) <= seq_sum(w),
    decreases k,
{
    if k > 0 {
        lemma_seq_sum_skip_le(w.skip(1), k - 1);
        assert(w.skip(1).skip(k - 1) =~= w.skip(k));
        assert(nonneg(w.skip(1))) by {
            assert(forall|i: int| 0 <= i < w.skip(1).len() ==> w.skip(1)[i] == w[i + 1]);
        }
        assert(seq_sum(w) == w[0] + seq_sum(w.skip(1)));
    } else {
        assert(w.skip(0) =~= w);
    }
}

/// A line whose nonzero elements are as many as its cells is gap-free, and
/// is its own sequence of nonzero elements.
proof fn lemma_nonzeros_full(s: Seq<int>)
    requires
        nonzeros(s).len() == s.len(),
    ensures
        nonzeros(s) == s,
    decreases s.len(),
{
    if s.len() > 0 {
        lemma_nonzeros(s.skip(1));
        if s[0] == 0 {
            assert(nonzeros(s).len() <= s.len() - 1);
            assert(false);
        } else {
            lemma_nonzeros_full(s.skip(1));
            assert(seq![s[0]] + s.skip(1) =~= s);
        }
    }
}

/// Every element of the nonzero subsequence occurs somewhere in the line.
pub proof fn lemma_nonzeros_member(s: Seq<int>, i: int)
    requires
        0 <= i < nonzeros(s).len(),
    ensures
        exists|q: int| 0 <= q < s.len() && s[q] == nonzeros(s)[i],
    decreases s.len(),
{
    if s.len() == 0 {
    } else if s[0] == 0 {
        lemma_nonzeros_member(s.skip(1), i);
        let q = choose|q: int| 0 <= q < s.skip(1).len() && s.skip(1)[q] == nonzeros(s.skip(1))[i];
        assert(s[q + 1] == nonzeros(s)[i]);
    } else if i == 0 {
        assert(s[0] == nonzeros(s)[0]);
    } else {
        lemma_nonzeros_member(s.skip(1), i - 1);
        let q = choose|q: int|
            0 <= q < s.skip(1).len() && s.skip(1)[q] == nonzeros(s.skip(1))[i - 1];
        assert(nonzeros(s)[i] == nonzeros(s.skip(1))[i - 1]);
        assert(s[q + 1] == nonzeros(s)[i]);
    }
}

/// Two adjacent elements of the nonzero subsequence come from two distinct
/// positions of the line, in order.
pub proof fn lemma_nonzeros_adjacent(s: Seq<int>, p: int)
    requires
        0 <= p,
        p + 1 < nonzeros(s).len(),
    ensures
        exists|q1: int, q2: int|
            0 <= q1 < q2 < s.len() && s[q1] == nonzeros(s)[p] && s[q2] == nonzeros(s)[p + 1],
    decreases s.len(),
{
    if s.len() == 0 {
    } else if s[0] == 0 {
        lemma_nonzeros_adjacent(s.skip(1), p);
        let (q1, q2) = choose|q1: int, q2: int|
            0 <= q1 < q2 < s.skip(1).len() && s.skip(1)[q1] == nonzeros(s.skip(1))[p] && s.skip(
                1,
            )[q2] == nonzeros(s.skip(1))[p + 1];
        assert(s[q1 + 1] == nonzeros(s)[p] && s[q2 + 1] == nonzeros(s)[p + 1]);
    } else if p == 0 {
        lemma_nonzeros_member(s.skip(1), 0);
        let q = choose|q: int| 0 <= q < s.skip(1).len() && s.skip(1)[q] == nonzeros(s.skip(1))[0];
        assert(nonzeros(s)[0] == s[0]);
        assert(nonzeros(s)[1] == nonzeros(s.skip(1))[0]);
        assert(s[0] == nonzeros(s)[0] && s[q + 1] == nonzeros(s)[1]);
    } else {
        lemma_nonzeros_adjacent(s.skip(1), p - 1);
        let (q1, q2) = choose|q1: int, q2: int|
            0 <= q1 < q2 < s.skip(1).len() && s.skip(1)[q1] == nonzeros(s.skip(1))[p - 1]
                && s.skip(1)[q2] == nonzeros(s.skip(1))[p];
        assert(nonzeros(s)[p] == nonzeros(s.skip(1))[p - 1]);
        assert(nonzeros(s)[p + 1] == nonzeros(s.skip(1))[p]);
        assert(s[q1 + 1] == nonzeros(s)[p] && s[q2 + 1] == nonzeros(s)[p + 1]);
    }
}

/// Every element of a merged line is an element of the unmerged line, or the
/// sum of two equal adjacent elements of it.
pub proof fn lemma_merge_provenance(w: Seq<int>, i: int)
    requires
        0 <= i < merge_line(w).len(),
    ensures
        (exists|p: int| 0 <= p < w.len() && (#[trigger] w[p]) == merge_line(w)[i]) || (exists|
            p: int,
        |
            0 <= p && p + 1 < w.len() && (#[trigger] w[p]) == w[p + 1] && w[p] + w[p + 1]
                == merge_line(w)[i]),
    decreases w.len(),
{
    if w.len() < 2 {
        assert(w[i] == merge_line(w)[i]);
    } else if w[0] == w[1] {
        if i == 0 {
            assert(merge_line(w)[0] == w[0] * 2);
            assert(w[0] + w[1] == merge_line(w)[0]);
        } else {
            lemma_merge_provenance(w.skip(2), i - 1);
            assert(merge_line(w)[i] == merge_line(w.skip(2))[i - 1]);
            if exists|p: int|
                0 <= p < w.skip(2).len() && (#[trigger] w.skip(2)[p]) == merge_line(w.skip(2))[i
                    - 1] {
                let p = choose|p: int|
                    0 <= p < w.skip(2).len() && (#[trigger] w.skip(2)[p]) == merge_line(
                        w.skip(2),
                    )[i - 1];
                assert(w[p + 2] == merge_line(w)[i]);
            } else {
                let p = choose|p: int|
                    0 <= p && p + 1 < w.skip(2).len() && (#[trigger] w.skip(2)[p]) == w.skip(2)[p
                        + 1] && w.skip(2)[p] + w.skip(2)[p + 1] == merge_line(w.skip(2))[i - 1];
                assert(w[p + 2] == w[p + 3] && w[p + 2] + w[p + 3] == merge_line(w)[i]);
            }
        }
    } else {
        if i == 0 {
            assert(merge_line(w)[0] == w[0]);
        } else {
            lemma_merge_provenance(w.skip(1), i - 1);
            assert(merge_line(w)[i] == merge_line(w.skip(1))[i - 1]);
            if exists|p: int|
                0 <= p < w.skip(1).len() && (#[trigger] w.skip(1)[p]) == merge_line(w.skip(1))[i
                    - 1] {
                let p = choose|p: int|
                    0 <= p < w.skip(1).len() && (#[trigger] w.skip(1)[p]) == merge_line(
                        w.skip(1),
                    )[i - 1];
                assert(w[p + 1] == merge_line(w)[i]);
            } else {
                let p = choose|p: int|
                    0 <= p && p + 1 < w.skip(1).len() && (#[trigger] w.skip(1)[p]) == w.skip(1)[p
                        + 1] && w.skip(1)[p] + w.skip(1)[p + 1] == merge_line(w.skip(1))[i - 1];
                assert(w[p + 1] == w[p + 2] && w[p + 1] + w[p + 2] == merge_line(w)[i]);
            }
        }
    }
}

} // verus!
