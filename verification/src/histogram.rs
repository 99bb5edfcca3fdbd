//! Intensity histograms and their prefix statistics, the raw material of the
//! two global threshold strategies.

use crate::grid::IntensityGrid;
use vstd::prelude::*;

verus! {

/// How many samples of `s` equal `v`.
pub open spec fn count_val(s: Seq<u16>, v: int) -> nat
    decreases s.len(),
{
    if s.len() == 0 {
        0
    } else {
        count_val(s.drop_last(), v) + (if s.last() == v {
            1nat
        } else {
            0nat
        })
    }
}

/// A histogram of `s` with `levels` bins: bin `v` holds the number of
/// samples equal to `v`.
pub open spec fn hist_of(h: Seq<u64>, s: Seq<u16>, levels: int) -> bool {
    &&& h.len() == levels
    &&& forall|v: int| 0 <= v < levels ==> (#[trigger] h[v]) == count_val(s, v)
}

/// The number of samples in bins `0 ..= t`.
pub open spec fn hist_count(h: Seq<u64>, t: int) -> int
    decreases t + 1,
{
    if t < 0 {
        0
    } else if t >= h.len() {
        hist_count(h, h.len() - 1)
    } else {
        hist_count(h, t - 1) + h[t]
    }
}

/// The sum of `value * count` over bins `0 ..= t`.
pub open spec fn hist_wsum(h: Seq<u64>, t: int) -> int
    decreases t + 1,
{
    if t < 0 {
        0
    } else if t >= h.len() {
        hist_wsum(h, h.len() - 1)
    } else {
        hist_wsum(h, t - 1) + t * h[t]
    }
}

/// No sample value occurs more often than there are samples.
pub proof fn lemma_count_val_le_len(s: Seq<u16>, v: int)
    ensures
        count_val(s, v) <= s.len(),
    decreases s.len(),
{
    if s.len() > 0 {
        lemma_count_val_le_len(s.drop_last(), v);
    }
}

/// Prefix counts grow with the prefix.
pub proof fn lemma_hist_count_mono(h: Seq<u64>, t1: int, t2: int)
    requires
        t1 <= t2,
    ensures
        hist_count(h, t1) <= hist_count(h, t2),
    decreases t2 - t1,
{
    if t1 < t2 {
        lemma_hist_count_mono(h, t1, t2 - 1);
        if 0 <= t2 < h.len() {
        }
    }
}

/// The number of samples that are at most `t`.
pub open spec fn count_le(s: Seq<u16>, t: int) -> nat
    decreases s.len(),
{
    if s.len() == 0 {
        0
    } else {
        count_le(s.drop_last(), t) + (if s.last() <= t {
            1nat
        } else {
            0nat
        })
    }
}

/// A count of samples below a cutoff never exceeds the sample count, and is
/// zero for negative cutoffs.
pub proof fn lemma_count_le_len(s: Seq<u16>, t: int)
    ensures
        count_le(s, t) <= s.len(),
        t < 0 ==> count_le(s, t) == 0,
    decreases s.len(),
{
    if s.len() > 0 {
        lemma_count_le_len(s.drop_last(), t);
    }
}

/// Raising the cutoff by one adds exactly the samples equal to the new
/// cutoff.
pub proof fn lemma_count_le_split(s: Seq<u16>, t: int)
    requires
        t >= 0,
    ensures
        count_le(s, t) == count_le(s, t - 1) + count_val(s, t),
    decreases s.len(),
{
    if s.len() > 0 {
        lemma_count_le_split(s.drop_last(), t);
    }
}

/// A histogram's prefix count is the number of samples at or below the
/// cutoff.
pub proof fn lemma_hist_count_is_count_le(h: Seq<u64>, s: Seq<u16>, levels: int, t: int)
    requires
        hist_of(h, s, levels),
        t < levels,
    ensures
        hist_count(h, t) == count_le(s, t),
        0 <= hist_count(h, t) <= s.len(),
    decreases t + 1,
{
    lemma_count_le_len(s, t);
    if t >= 0 {
        lemma_hist_count_is_count_le(h, s, levels, t - 1);
        lemma_count_le_split(s, t);
    }
}

/// Weighted prefix sums grow with the prefix.
pub proof fn lemma_hist_wsum_mono(h: Seq<u64>, t1: int, t2: int)
    requires
        t1 <= t2,
    ensures
        hist_wsum(h, t1) <= hist_wsum(h, t2),
    decreases t2 - t1,
{
    if t1 < t2 {
        lemma_hist_wsum_mono(h, t1, t2 - 1);
        if 0 <= t2 < h.len() {
            assert(0 <= t2 * h[t2]) by (nonlinear_arith)
                requires
                    t2 >= 0,
                    h[t2] >= 0,
            ;
        }
    }
}

/// Builds the histogram of a grid: one bin per intensity level.
pub fn build_histogram(grid: &IntensityGrid) -> (h: Vec<u64>)
    requires
        grid.wf(),
    ensures
        hist_of(h@, grid.spec_data(), grid.spec_levels() as int),
        forall|v: int| 0 <= v < h@.len() ==> (#[trigger] h@[v]) <= grid.spec_data().len(),
{
    let levels = grid.levels() as usize;
    let mut h: Vec<u64> = Vec::new();
    while h.len() < levels
        invariant
            h@.len() <= levels,
            forall|v: int| 0 <= v < h@.len() ==> (#[trigger] h@[v]) == 0,
        decreases levels - h@.len(),
    {
        h.push(0);
    }
    proof {
        assert(forall|v: int| 0 <= v < levels ==> (#[trigger] h@[v]) == count_val(
            grid.spec_data().take(0),
            v,
        )) by {
            assert(grid.spec_data().take(0) =~= Seq::<u16>::empty());
        }
    }
    let ghost data = grid.spec_data();
    let n = grid.data.len();
    let mut i: usize = 0;
    while i < n
        invariant
            grid.wf(),
            data == grid.spec_data(),
            n == data.len(),
            0 <= i <= n,
            h@.len() == levels,
            levels == grid.spec_levels(),
            forall|v: int|
                0 <= v < levels ==> (#[trigger] h@[v]) == count_val(data.take(i as int), v),
            forall|v: int| 0 <= v < levels ==> (#[trigger] h@[v]) <= i,
        decreases n - i,
    {
        let s = grid.data[i];
        proof {
            assert(data.take(i + 1).drop_last() =~= data.take(i as int));
            assert(data.take(i + 1).last() == data[i as int]);
            assert(data[i as int] < levels);
        }
        let c = h[s as usize];
        h.set(s as usize, c + 1);
        i += 1;
    }
    proof {
        assert(data.take(n as int) =~= data);
    }
    h
}

/// The weighted prefix sum is at most the largest bin index times the prefix
/// count.
pub proof fn lemma_hist_wsum_bound(h: Seq<u64>, hi: int, t: int)
    requires
        h.len() <= hi + 1,
        0 <= hi,
    ensures
        0 <= hist_wsum(h, t),
        hist_wsum(h, t) <= hi * hist_count(h, t),
    decreases t + 1,
{
    if t < 0 {
        assert(hi * hist_count(h, t) == 0) by (nonlinear_arith)
            requires
                hist_count(h, t) == 0,
        ;
    } else if t >= h.len() {
        lemma_hist_wsum_bound(h, hi, h.len() - 1);
    } else {
        lemma_hist_wsum_bound(h, hi, t - 1);
        assert(t * h[t] <= hi * h[t] && 0 <= t * h[t]) by (nonlinear_arith)
            requires
                0 <= t <= hi,
                h[t] >= 0,
        ;
        assert(hi * hist_count(h, t) == hi * hist_count(h, t - 1) + hi * h[t]) by (nonlinear_arith)
            requires
                hist_count(h, t) == hist_count(h, t - 1) + h[t],
        ;
    }
}

/// The weighted sum over a span of bins is at most the largest bin index
/// times the number of samples in the span.
pub proof fn lemma_hist_wsum_span_bound(h: Seq<u64>, hi: int, t1: int, t2: int)
    requires
        h.len() <= hi + 1,
        0 <= hi,
        t1 <= t2,
    ensures
        hist_wsum(h, t2) - hist_wsum(h, t1) <= hi * (hist_count(h, t2) - hist_count(h, t1)),
    decreases t2 - t1,
{
    if t1 < t2 {
        lemma_hist_wsum_span_bound(h, hi, t1, t2 - 1);
        if 0 <= t2 < h.len() {
            assert(t2 * h[t2] <= hi * h[t2]) by (nonlinear_arith)
                requires
                    0 <= t2 <= hi,
                    h[t2] >= 0,
            ;
            assert(hi * (hist_count(h, t2) - hist_count(h, t1)) == hi * (hist_count(h, t2 - 1)
                - hist_count(h, t1)) + hi * h[t2]) by (nonlinear_arith)
                requires
                    hist_count(h, t2) == hist_count(h, t2 - 1) + h[t2],
            ;
        }
    }
}

} // verus!
