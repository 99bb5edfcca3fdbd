//! The thresholding component: five interchangeable strategies that turn an
//! intensity grid into one scalar cutoff, and the binarisation pass that
//! applies the cutoff.
//!
//! All arithmetic is exact integer arithmetic. Class means carry eight
//! fixed-point fraction bits, and entropies are measured in bits through the
//! fixed-point logarithm, so every strategy is a pure function of the grid.

use crate::fixlog::{log2_fixed, log2_fp};
use crate::choices::ImageProcessingMethod;
use crate::grid::{BinaryMask, IntensityGrid};
use crate::sorting::{sort_spec, sort_u16, u16_lt};
use crate::windows::{
    box_min, box_max, box_minmax, box_stats, box_sum, box_sum_sq, isqrt, isqrt_spec,
    lemma_box_minmax_bounds, lemma_box_sum_bounds, window_radius, window_radius_spec,
};
use crate::histogram::{
    build_histogram, count_val, hist_count, hist_of, hist_wsum, lemma_hist_count_is_count_le,
    lemma_hist_count_mono, lemma_hist_wsum_bound, lemma_hist_wsum_mono,
    lemma_hist_wsum_span_bound,
};
use vstd::arithmetic::div_mod::lemma_multiply_divide_le;
use vstd::prelude::*;

verus! {

/// Processor for image binarisation: turns grids into masks through one of
/// five threshold strategies.
pub struct ImageProcessor;

/// The histogram of a grid as a mathematical value: bin `v` holds the number
/// of samples equal to `v`.
pub open spec fn grid_hist(g: IntensityGrid) -> Seq<u64> {
    Seq::new(g.spec_levels() as nat, |v: int| count_val(g.spec_data(), v) as u64)
}

/// The histogram of a well-formed grid satisfies `hist_of`.
pub proof fn lemma_grid_hist_ok(g: IntensityGrid)
    requires
        g.wf(),
    ensures
        hist_of(grid_hist(g), g.spec_data(), g.spec_levels() as int),
{
    assert forall|v: int| 0 <= v < g.spec_levels() implies (#[trigger] grid_hist(g)[v])
        == count_val(g.spec_data(), v) by {
        crate::histogram::lemma_count_val_le_len(g.spec_data(), v);
    }
}

/// A class mean with eight fixed-point fraction bits: `256 * sum / count`.
pub open spec fn mean_fp(wsum: int, count: int) -> int {
    256 * wsum / count
}

/// Otsu's between-class measure at cutoff `t`, over a histogram: the product
/// of the class sizes and the squared difference of the fixed-point class
/// means. A cutoff with an empty class scores `-1` and is never chosen.
pub open spec fn otsu_score(h: Seq<u64>, t: int) -> int {
    let total = hist_count(h, h.len() - 1);
    let wtotal = hist_wsum(h, h.len() - 1);
    let c0 = hist_count(h, t);
    let c1 = total - c0;
    let s0 = hist_wsum(h, t);
    let s1 = wtotal - s0;
    if c0 <= 0 || c1 <= 0 {
        -1
    } else {
        let d = mean_fp(s0, c0) - mean_fp(s1, c1);
        c0 * c1 * (d * d)
    }
}

/// What Otsu's method returns: the cutoff with the largest between-class
/// measure, the largest such cutoff on ties; or zero, the smallest
/// representable value, when no cutoff splits the samples in two non-empty
/// classes.
pub open spec fn otsu_post(g: IntensityGrid, t: u16) -> bool {
    let h = grid_hist(g);
    let l = g.spec_levels() as int;
    if exists|q: int| 0 <= q < l && otsu_score(h, q) >= 0 {
        &&& t < l
        &&& otsu_score(h, t as int) >= 0
        &&& forall|q: int| 0 <= q < l ==> otsu_score(h, q) <= otsu_score(h, t as int)
        &&& forall|q: int| t < q < l ==> otsu_score(h, q) < otsu_score(h, t as int)
    } else {
        t == 0
    }
}


/// One entropy contribution, in fixed-point bits: the bin count times the
/// difference between the logarithm of the running class weight and the
/// logarithm of the bin count.
pub open spec fn kap_term(cnt: int, c: int) -> int {
    cnt * (log2_fp(c as nat) - log2_fp(cnt as nat))
}

/// The background entropy sum at cutoff `t`: each non-empty bin at or below
/// `t` contributes against the prefix count up to that bin.
pub open spec fn kap_sum0(h: Seq<u64>, t: int) -> int
    decreases t + 1,
{
    if t < 0 {
        0
    } else if t >= h.len() {
        kap_sum0(h, h.len() - 1)
    } else {
        kap_sum0(h, t - 1) + if h[t] > 0 {
            kap_term(h[t] as int, hist_count(h, t))
        } else {
            0
        }
    }
}

/// The foreground entropy sum at cutoff `t`, over bins `t + 1 ..= j`: each
/// non-empty bin contributes against the class count accumulated since the
/// cutoff.
pub open spec fn kap_sum1(h: Seq<u64>, t: int, j: int) -> int
    decreases j - t,
{
    if j <= t {
        0
    } else {
        kap_sum1(h, t, j - 1) + if 0 <= j < h.len() && h[j] > 0 {
            kap_term(h[j] as int, hist_count(h, j) - hist_count(h, t))
        } else {
            0
        }
    }
}

/// Kapur's objective at cutoff `t`: the total entropy of the two classes, up
/// to the positive factor that turns bits into nats and divides by the
/// sample count, which leaves the maximiser unchanged.
pub open spec fn kap_score(h: Seq<u64>, t: int) -> int {
    kap_sum0(h, t) + kap_sum1(h, t, h.len() - 1)
}

/// What Kapur's method returns: the smallest cutoff with the largest total
/// entropy.
pub open spec fn kapur_post(g: IntensityGrid, t: u16) -> bool {
    let h = grid_hist(g);
    let l = g.spec_levels() as int;
    &&& t < l
    &&& forall|q: int| 0 <= q < l ==> kap_score(h, q) <= kap_score(h, t as int)
    &&& forall|q: int| 0 <= q < t ==> kap_score(h, q) < kap_score(h, t as int)
}


/// The number of interior columns left by a window radius; interior pixels
/// have a full window on every side.
pub open spec fn interior_w(g: IntensityGrid, ws: int) -> int {
    g.spec_width() - 2 * ws
}

/// The number of interior rows left by a window radius.
pub open spec fn interior_h(g: IntensityGrid, ws: int) -> int {
    g.spec_height() - 2 * ws
}

/// The median of a non-empty sequence of samples: the middle element of the
/// sorted sequence.
pub open spec fn median_of(vals: Seq<u16>) -> u16 {
    sort_spec(u16_lt(), vals)[vals.len() as int / 2]
}

/// The Sauvola threshold of one interior pixel, in exact integer arithmetic:
/// `mean * (1 + k * (stddev / r - 1))` with `k = 1/2` and `r = 128`, over a
/// square window of twice the radius a side, clamped to the sample range.
pub open spec fn sauvola_pixel(g: IntensityGrid, x: int, y: int, ws: int) -> u16 {
    let a = (2 * ws) * (2 * ws);
    let s = box_sum(g, x - ws + 1, x + ws + 1, y - ws + 1, y + ws + 1);
    let q = box_sum_sq(g, x - ws + 1, x + ws + 1, y - ws + 1, y + ws + 1);
    let d = if q * a >= s * s {
        q * a - s * s
    } else {
        0
    };
    let r = isqrt_spec(d as nat);
    let thr = (s * a * 128 + s * r) / (256 * (a * a));
    if thr > 65535 {
        65535u16
    } else {
        thr as u16
    }
}

/// How many interior pixels a window radius leaves.
pub open spec fn interior_count(g: IntensityGrid, ws: int) -> nat {
    if interior_w(g, ws) > 0 && interior_h(g, ws) > 0 {
        (interior_w(g, ws) * interior_h(g, ws)) as nat
    } else {
        0
    }
}

/// The Sauvola thresholds of all interior pixels, in row-major order.
pub open spec fn sauvola_values(g: IntensityGrid, ws: int) -> Seq<u16> {
    Seq::new(
        interior_count(g, ws),
        |i: int|
            sauvola_pixel(
                g,
                ws + (i % interior_w(g, ws)),
                ws + (i / interior_w(g, ws)),
                ws,
            ),
    )
}

/// What Sauvola's method returns: the median of the per-pixel thresholds,
/// or the mid-range value when no pixel has a full window.
pub open spec fn sauvola_post(g: IntensityGrid, t: u16) -> bool {
    let ws = window_radius_spec(g.spec_width() as int, g.spec_height() as int);
    let vals = sauvola_values(g, ws);
    if vals.len() > 0 {
        t == median_of(vals)
    } else {
        t == g.spec_levels() / 2
    }
}


/// The middle element of the sorted copy of `vals`.
fn median_u16(vals: &Vec<u16>) -> (r: u16)
    requires
        vals@.len() >= 1,
    ensures
        r == median_of(vals@),
{
    let sorted = sort_u16(vals);
    proof {
        crate::sorting::lemma_sort_spec_len(u16_lt(), vals@);
    }
    sorted[vals.len() / 2]
}


/// The Bernsen threshold of one interior pixel: the mid-range of the fixed
/// thirty-one by thirty-one window.
pub open spec fn bernsen_pixel(g: IntensityGrid, x: int, y: int) -> u16 {
    (((box_min(g, x - 15, x + 16, y - 15, y + 16) + box_max(g, x - 15, x + 16, y - 15, y + 16))
        / 2) as u16)
}

/// The Bernsen thresholds of all interior pixels, in row-major order.
pub open spec fn bernsen_values(g: IntensityGrid) -> Seq<u16> {
    Seq::new(
        interior_count(g, 15),
        |i: int| bernsen_pixel(g, 15 + (i % interior_w(g, 15)), 15 + (i / interior_w(g, 15))),
    )
}

/// What Bernsen's method returns: the median of the per-pixel mid-range
/// thresholds, or the mid-range of the sample range when no pixel has a
/// full window.
pub open spec fn bernsen_post(g: IntensityGrid, t: u16) -> bool {
    let vals = bernsen_values(g);
    if vals.len() > 0 {
        t == median_of(vals)
    } else {
        t == g.spec_levels() / 2
    }
}

/// The local contrast at a pixel: the spread of the samples in the window,
/// clipped to the grid.
pub open spec fn wolf_contrast(g: IntensityGrid, ws: int, x: int, y: int) -> int {
    let x0 = if x - ws > 0 {
        x - ws
    } else {
        0
    };
    let x1 = if x + ws + 1 < g.spec_width() {
        x + ws + 1
    } else {
        g.spec_width() as int
    };
    let y0 = if y - ws > 0 {
        y - ws
    } else {
        0
    };
    let y1 = if y + ws + 1 < g.spec_height() {
        y + ws + 1
    } else {
        g.spec_height() as int
    };
    box_max(g, x0, x1, y0, y1) - box_min(g, x0, x1, y0, y1)
}

/// Contrast-weighted intensity sum of row `y` up to column `x1`.
pub open spec fn wolf_row_cs(g: IntensityGrid, ws: int, y: int, x1: int) -> int
    decreases x1,
{
    if x1 <= 0 {
        0
    } else {
        wolf_row_cs(g, ws, y, x1 - 1) + wolf_contrast(g, ws, x1 - 1, y) * g.sample(x1 - 1, y)
    }
}

/// Contrast sum of row `y` up to column `x1`.
pub open spec fn wolf_row_w(g: IntensityGrid, ws: int, y: int, x1: int) -> int
    decreases x1,
{
    if x1 <= 0 {
        0
    } else {
        wolf_row_w(g, ws, y, x1 - 1) + wolf_contrast(g, ws, x1 - 1, y)
    }
}

/// Contrast-weighted intensity sum of the first `y1` rows.
pub open spec fn wolf_cs(g: IntensityGrid, ws: int, y1: int) -> int
    decreases y1,
{
    if y1 <= 0 {
        0
    } else {
        wolf_cs(g, ws, y1 - 1) + wolf_row_cs(g, ws, y1 - 1, g.spec_width() as int)
    }
}

/// Contrast sum of the first `y1` rows.
pub open spec fn wolf_w(g: IntensityGrid, ws: int, y1: int) -> int
    decreases y1,
{
    if y1 <= 0 {
        0
    } else {
        wolf_w(g, ws, y1 - 1) + wolf_row_w(g, ws, y1 - 1, g.spec_width() as int)
    }
}

/// On a grid with no columns both contrast sums vanish.
pub proof fn lemma_wolf_empty(g: IntensityGrid, ws: int, y1: int)
    requires
        g.spec_width() == 0,
    ensures
        wolf_cs(g, ws, y1) == 0,
        wolf_w(g, ws, y1) == 0,
    decreases y1,
{
    if y1 > 0 {
        lemma_wolf_empty(g, ws, y1 - 1);
    }
}

/// What Wolf's method returns: half the contrast-weighted mean intensity,
/// or the mid-range value on a flat grid with no contrast at all.
pub open spec fn wolf_post(g: IntensityGrid, t: u16) -> bool {
    let ws = window_radius_spec(g.spec_width() as int, g.spec_height() as int);
    let cs = wolf_cs(g, ws, g.spec_height() as int);
    let cw = wolf_w(g, ws, g.spec_height() as int);
    if cw > 0 {
        t == cs / (2 * cw)
    } else {
        t == g.spec_levels() / 2
    }
}


/// Whether a strategy yields one global cutoff; the two histogram methods
/// do, the three windowed methods are local by design.
pub open spec fn is_global_strategy(m: ImageProcessingMethod) -> bool {
    match m {
        ImageProcessingMethod::Otsu => true,
        ImageProcessingMethod::Kapur => true,
        ImageProcessingMethod::Wolfs => false,
        ImageProcessingMethod::Bernsens => false,
        ImageProcessingMethod::Sauvola => false,
    }
}

/// The scalar cutoff a strategy assigns to a grid.
pub open spec fn threshold_post(g: IntensityGrid, m: ImageProcessingMethod, t: u16) -> bool {
    match m {
        ImageProcessingMethod::Otsu => otsu_post(g, t),
        ImageProcessingMethod::Kapur => kapur_post(g, t),
        ImageProcessingMethod::Wolfs => wolf_post(g, t),
        ImageProcessingMethod::Bernsens => bernsen_post(g, t),
        ImageProcessingMethod::Sauvola => sauvola_post(g, t),
    }
}

/// Whether a sample is foreground under a strategy's cutoff: above the
/// cutoff for the global strategies, at or below it for the local ones.
pub open spec fn pixel_decision(m: ImageProcessingMethod, v: u16, t: u16) -> bool {
    if is_global_strategy(m) {
        v > t
    } else {
        v <= t
    }
}

/// The mask has the grid's shape and classifies every pixel by the cutoff.
pub open spec fn mask_matches(
    g: IntensityGrid,
    m: ImageProcessingMethod,
    t: u16,
    r: BinaryMask,
) -> bool {
    &&& r.wf()
    &&& r.spec_width() == g.spec_width()
    &&& r.spec_height() == g.spec_height()
    &&& forall|x: int, y: int|
        0 <= x < g.spec_width() && 0 <= y < g.spec_height() ==> r.fg(x, y) == pixel_decision(
            m,
            g.sample(x, y),
            t,
        )
}

/// What binarisation returns: a mask of the grid's shape, classified by the
/// cutoff that the chosen strategy assigns to the grid.
pub open spec fn process_image_post(
    g: IntensityGrid,
    m: ImageProcessingMethod,
    r: BinaryMask,
) -> bool {
    exists|t: u16| #[trigger] threshold_post(g, m, t) && mask_matches(g, m, t, r)
}

/// Each strategy assigns one cutoff only.
pub proof fn lemma_threshold_post_unique(
    g: IntensityGrid,
    m: ImageProcessingMethod,
    t1: u16,
    t2: u16,
)
    requires
        threshold_post(g, m, t1),
        threshold_post(g, m, t2),
    ensures
        t1 == t2,
{
    match m {
        ImageProcessingMethod::Otsu => {
            let h = grid_hist(g);
            let l = g.spec_levels() as int;
            if exists|q: int| 0 <= q < l && otsu_score(h, q) >= 0 {
                if t1 < t2 {
                    assert(otsu_score(h, t2 as int) < otsu_score(h, t1 as int));
                } else if t2 < t1 {
                    assert(otsu_score(h, t1 as int) < otsu_score(h, t2 as int));
                }
            }
        },
        ImageProcessingMethod::Kapur => {
            let h = grid_hist(g);
            if t1 < t2 {
                assert(kap_score(h, t1 as int) < kap_score(h, t2 as int));
                assert(kap_score(h, t2 as int) <= kap_score(h, t1 as int));
            } else if t2 < t1 {
                assert(kap_score(h, t2 as int) < kap_score(h, t1 as int));
                assert(kap_score(h, t1 as int) <= kap_score(h, t2 as int));
            }
        },
        _ => {},
    }
}

impl ImageProcessor {
    /// Class statistics of a histogram at a cutoff: the sample count and the
    /// weighted sum of the background class (bins at or below the cutoff)
    /// and of the foreground class (bins above it).
    pub fn calculate_class_statistics(h: &Vec<u64>, threshold: usize) -> (r: (u64, u64, u64, u64))
        requires
            1 <= h@.len() <= 65536,
            hist_count(h@, h@.len() - 1) < 0x1_0000_0000,
        ensures
            r.0 == hist_count(h@, threshold as int),
            r.1 == hist_count(h@, h@.len() - 1) - hist_count(h@, threshold as int),
            r.2 == hist_wsum(h@, threshold as int),
            r.3 == hist_wsum(h@, h@.len() - 1) - hist_wsum(h@, threshold as int),
    {
        let mut c0: u64 = 0;
        let mut c1: u64 = 0;
        let mut s0: u64 = 0;
        let mut s1: u64 = 0;
        let mut v: usize = 0;
        let ghost cut = threshold as int;
        while v < h.len()
            invariant
                0 <= v <= h@.len(),
                1 <= h@.len() <= 65536,
                cut == threshold as int,
                hist_count(h@, h@.len() - 1) < 0x1_0000_0000,
                c0 == hist_count(h@, if (v as int) - 1 <= cut {
                    (v as int) - 1
                } else {
                    cut
                }),
                s0 == hist_wsum(h@, if (v as int) - 1 <= cut {
                    (v as int) - 1
                } else {
                    cut
                }),
                c0 + c1 == hist_count(h@, (v as int) - 1),
                s0 + s1 == hist_wsum(h@, (v as int) - 1),
            decreases h@.len() - v,
        {
            proof {
                lemma_hist_count_mono(h@, v as int, h@.len() - 1);
                lemma_hist_wsum_bound(h@, 65535, v as int);
                lemma_hist_wsum_mono(h@, (v as int) - 1, v as int);
                assert((v as int) * (h@[v as int]) <= 65535 * (h@[v as int]) && 0 <= (v as int) * (
                h@[v as int])) by (nonlinear_arith)
                    requires
                        0 <= v as int <= 65535,
                        h@[v as int] >= 0,
                ;
            }
            if v <= threshold {
                c0 = c0 + h[v];
                s0 = s0 + (v as u64) * h[v];
            } else {
                c1 = c1 + h[v];
                s1 = s1 + (v as u64) * h[v];
            }
            v += 1;
        }
        proof {
            if cut >= h@.len() {
                assert(hist_count(h@, cut) == hist_count(h@, h@.len() - 1));
                assert(hist_wsum(h@, cut) == hist_wsum(h@, h@.len() - 1));
            }
        }
        (c0, c1, s0, s1)
    }



    /// Calculates the Sauvola threshold of a grid: the median of the
    /// per-window thresholds, or the mid-range value when the grid has no
    /// pixel with a full window.
    pub fn calculate_sauvola_threshold(grid: &IntensityGrid) -> (t: u16)
        requires
            grid.wf(),
        ensures
            sauvola_post(*grid, t),
    {
        let w = grid.width();
        let h = grid.height();
        let levels = grid.levels();
        let ghost g = *grid;
        if w == 0 || h == 0 {
            return (levels / 2) as u16;
        }
        proof {
            assert(w <= w * h && h <= w * h) by (nonlinear_arith)
                requires
                    w >= 1,
                    h >= 1,
            ;
        }
        let ws = window_radius(w, h);
        if w <= 2 * ws || h <= 2 * ws {
            return (levels / 2) as u16;
        }
        let iw = w - 2 * ws;
        let ih = h - 2 * ws;
        let ghost vals_spec = sauvola_values(g, ws as int);
        proof {
            assert(vals_spec.len() == (iw as int) * (ih as int));
        }
        let mut vals: Vec<u16> = Vec::new();
        let mut y: usize = ws;
        while y < h - ws
            invariant
                grid.wf(),
                g == *grid,
                w == grid.spec_width(),
                h == grid.spec_height(),
                w < 0x1_0000_0000,
                h < 0x1_0000_0000,
                5 <= ws <= 50,
                w > 2 * ws,
                h > 2 * ws,
                iw == w - 2 * ws,
                ih == h - 2 * ws,
                vals_spec == sauvola_values(g, ws as int),
                vals_spec.len() == (iw as int) * (ih as int),
                ws <= y <= h - ws,
                vals@.len() == ((y - ws) as int) * (iw as int),
                forall|i: int| 0 <= i < vals@.len() ==> (#[trigger] vals@[i]) == vals_spec[i],
            decreases h - ws - y,
        {
            let mut x: usize = ws;
            proof {
                assert(((y - ws) as int) * (iw as int) <= ((ih - 1) as int) * (iw as int)) by (
                nonlinear_arith)
                    requires
                        0 <= (y - ws) as int <= (ih - 1) as int,
                        iw >= 1,
                ;
            }
            while x < w - ws
                invariant
                    grid.wf(),
                    g == *grid,
                    w == grid.spec_width(),
                    h == grid.spec_height(),
                    w < 0x1_0000_0000,
                    h < 0x1_0000_0000,
                    5 <= ws <= 50,
                    w > 2 * ws,
                    h > 2 * ws,
                    iw == w - 2 * ws,
                    ih == h - 2 * ws,
                    vals_spec == sauvola_values(g, ws as int),
                    vals_spec.len() == (iw as int) * (ih as int),
                    ws <= y < h - ws,
                    ws <= x <= w - ws,
                    vals@.len() == ((y - ws) as int) * (iw as int) + ((x - ws) as int),
                    ((y - ws) as int) * (iw as int) <= ((ih - 1) as int) * (iw as int),
                    forall|i: int| 0 <= i < vals@.len() ==> (#[trigger] vals@[i]) == vals_spec[i],
                decreases w - ws - x,
            {
                let stats = box_stats(grid, x - ws + 1, x + ws + 1, y - ws + 1, y + ws + 1);
                let s = stats.0;
                let q = stats.1;
                let side: u64 = 2 * (ws as u64);
                proof {
                    assert(100 <= side * side <= 10000) by (nonlinear_arith)
                        requires
                            10 <= side <= 100,
                    ;
                }
                let a: u64 = side * side;
                let ghost x0 = (x - ws + 1) as int;
                let ghost x1 = (x + ws + 1) as int;
                let ghost y0 = (y - ws + 1) as int;
                let ghost y1 = (y + ws + 1) as int;
                proof {
                    lemma_box_sum_bounds(g, x0, x1, y0, y1);
                    assert((x1 - x0) * (y1 - y0) == a && 65535 * ((x1 - x0) * (y1 - y0)) == 65535
                        * (a as int) && 65535 * 65535 * ((x1 - x0) * (y1 - y0)) == 65535 * 65535 * (
                    a as int)) by (nonlinear_arith)
                        requires
                            x1 - x0 == side,
                            y1 - y0 == side,
                            a == side * side,
                    ;
                    assert((q as int) * (a as int) <= (65535 * 65535 * (a as int)) * (a as int)
                        && (65535 * 65535 * (a as int)) * (a as int) <= 0x1000_0000_0000_0000int
                        && (s as int) * (s as int) <= (65535 * (a as int)) * (65535 * (a as int))
                        && (65535 * (a as int)) * (65535 * (a as int)) <= 0x1000_0000_0000_0000int
                        && (65535 * 65535 * (a as int)) * (a as int) == (65535 * (a as int)) * (
                    65535 * (a as int))) by (nonlinear_arith)
                        requires
                            0 <= q <= 65535 * 65535 * (a as int),
                            0 <= s <= 65535 * (a as int),
                            0 <= a <= 10000,
                    ;
                }
                let qa = q * a;
                let ss = s * s;
                let d = if qa >= ss {
                    qa - ss
                } else {
                    0
                };
                let r = isqrt(d);
                proof {
                    assert((r as int) <= 65535 * (a as int)) by (nonlinear_arith)
                        requires
                            (r as int) * (r as int) <= d,
                            d <= (65535 * (a as int)) * (65535 * (a as int)),
                            r >= 0,
                            a >= 0,
                    ;
                    assert((s as int) * (a as int) * 128 <= 65535 * 10000 * 10000 * 128 && (
                    s as int) * (r as int) <= (65535 * (a as int)) * (65535 * (a as int)) && 0 <= (
                    s as int) * (a as int) * 128 && 0 <= (s as int) * (r as int)) by (
                    nonlinear_arith)
                        requires
                            0 <= s <= 65535 * (a as int),
                            0 <= r as int <= 65535 * (a as int),
                            0 <= a <= 10000,
                    ;
                    assert(256 * ((a as int) * (a as int)) <= 256 * (10000 * 10000) && (a as int)
                        * (a as int) >= 1) by (nonlinear_arith)
                        requires
                            1 <= a <= 10000,
                    ;
                }
                let num = s * a * 128 + s * r;
                let den = 256 * (a * a);
                let thr64 = num / den;
                let thr = if thr64 > 65535 {
                    65535u16
                } else {
                    thr64 as u16
                };
                proof {
                    vstd::arithmetic::div_mod::lemma_div_pos_is_pos(num as int, den as int);
                    assert(thr == sauvola_pixel(g, x as int, y as int, ws as int));
                    let i = vals@.len() as int;
                    crate::grid::lemma_row_major_index(
                        iw as int,
                        ih as int,
                        (x - ws) as int,
                        (y - ws) as int,
                    );
                    vstd::arithmetic::div_mod::lemma_fundamental_div_mod_converse(
                        i,
                        iw as int,
                        (y - ws) as int,
                        (x - ws) as int,
                    );
                    assert(vals_spec[i] == sauvola_pixel(g, x as int, y as int, ws as int));
                }
                vals.push(thr);
                x += 1;
            }
            proof {
                assert((((y + 1) - ws) as int) * (iw as int) == ((y - ws) as int) * (iw as int) + (
                iw as int)) by (nonlinear_arith);
            }
            y += 1;
        }
        proof {
            assert(vals@.len() == (ih as int) * (iw as int));
            assert((ih as int) * (iw as int) == (iw as int) * (ih as int) && (iw as int) * (
            ih as int) >= 1) by (nonlinear_arith)
                requires
                    iw >= 1,
                    ih >= 1,
            ;
            assert(vals@ =~= vals_spec);
        }
        median_u16(&vals)
    }



    /// Binarises a grid: computes the chosen strategy's cutoff, then marks
    /// each pixel foreground exactly when the cutoff says so.
    pub fn process_image(grid: &IntensityGrid, processing_method: ImageProcessingMethod) -> (r:
        BinaryMask)
        requires
            grid.wf(),
        ensures
            process_image_post(*grid, processing_method, r),
            r.wf(),
            r.spec_width() == grid.spec_width(),
            r.spec_height() == grid.spec_height(),
    {
        let ghost g = *grid;
        let thr = match processing_method {
            ImageProcessingMethod::Otsu => Self::calculate_otsu_threshold(grid),
            ImageProcessingMethod::Kapur => Self::calculate_kapur_threshold(grid),
            ImageProcessingMethod::Wolfs => Self::calculate_wolf_threshold(grid),
            ImageProcessingMethod::Bernsens => Self::calculate_bernsen_threshold(grid),
            ImageProcessingMethod::Sauvola => Self::calculate_sauvola_threshold(grid),
        };
        let is_global = match processing_method {
            ImageProcessingMethod::Otsu => true,
            ImageProcessingMethod::Kapur => true,
            ImageProcessingMethod::Wolfs => false,
            ImageProcessingMethod::Bernsens => false,
            ImageProcessingMethod::Sauvola => false,
        };
        let w = grid.width();
        let h = grid.height();
        let n = grid.data.len();
        let mut data: Vec<bool> = Vec::new();
        let mut i: usize = 0;
        while i < n
            invariant
                grid.wf(),
                g == *grid,
                w == grid.spec_width(),
                h == grid.spec_height(),
                n == grid.spec_data().len(),
                is_global == is_global_strategy(processing_method),
                0 <= i <= n,
                data@.len() == i,
                forall|j: int|
                    0 <= j < i ==> (#[trigger] data@[j]) == pixel_decision(
                        processing_method,
                        g.spec_data()[j],
                        thr,
                    ),
            decreases n - i,
        {
            let v = grid.data[i];
            let fg = if is_global {
                v > thr
            } else {
                v <= thr
            };
            data.push(fg);
            i += 1;
        }
        let r = BinaryMask { width: w, height: h, data };
        proof {
            assert(r.wf());
            assert(mask_matches(g, processing_method, thr, r)) by {
                assert forall|x: int, y: int|
                    0 <= x < g.spec_width() && 0 <= y < g.spec_height() implies r.fg(x, y)
                    == pixel_decision(processing_method, g.sample(x, y), thr) by {
                    crate::grid::lemma_row_major_index(w as int, h as int, x, y);
                }
            }
            assert(threshold_post(g, processing_method, thr) && mask_matches(
                g,
                processing_method,
                thr,
                r,
            ));
        }
        r
    }

    /// Calculates the Bernsen threshold of a grid: the median of the local
    /// mid-range values, or the mid-range of the sample range when the grid
    /// has no pixel with a full window.
    pub fn calculate_bernsen_threshold(grid: &IntensityGrid) -> (t: u16)
        requires
            grid.wf(),
        ensures
            bernsen_post(*grid, t),
    {
        let w = grid.width();
        let h = grid.height();
        let levels = grid.levels();
        let ghost g = *grid;
        if w <= 30 || h <= 30 {
            return (levels / 2) as u16;
        }
        let iw = w - 30;
        let ih = h - 30;
        let ghost vals_spec = bernsen_values(g);
        proof {
            assert(vals_spec.len() == (iw as int) * (ih as int));
        }
        let mut vals: Vec<u16> = Vec::new();
        let mut y: usize = 15;
        while y < h - 15
            invariant
                grid.wf(),
                g == *grid,
                w == grid.spec_width(),
                h == grid.spec_height(),
                w > 30,
                h > 30,
                iw == w - 30,
                ih == h - 30,
                vals_spec == bernsen_values(g),
                vals_spec.len() == (iw as int) * (ih as int),
                15 <= y <= h - 15,
                vals@.len() == ((y - 15) as int) * (iw as int),
                forall|i: int| 0 <= i < vals@.len() ==> (#[trigger] vals@[i]) == vals_spec[i],
            decreases h - 15 - y,
        {
            let mut x: usize = 15;
            while x < w - 15
                invariant
                    grid.wf(),
                    g == *grid,
                    w == grid.spec_width(),
                    h == grid.spec_height(),
                    w > 30,
                    h > 30,
                    iw == w - 30,
                    ih == h - 30,
                    vals_spec == bernsen_values(g),
                    vals_spec.len() == (iw as int) * (ih as int),
                    15 <= y < h - 15,
                    15 <= x <= w - 15,
                    vals@.len() == ((y - 15) as int) * (iw as int) + ((x - 15) as int),
                    forall|i: int| 0 <= i < vals@.len() ==> (#[trigger] vals@[i]) == vals_spec[i],
                decreases w - 15 - x,
            {
                let mm = box_minmax(grid, x - 15, x + 16, y - 15, y + 16);
                let thr: u16 = ((mm.0 as u32 + mm.1 as u32) / 2) as u16;
                proof {
                    assert(thr == bernsen_pixel(g, x as int, y as int));
                    let i = vals@.len() as int;
                    crate::grid::lemma_row_major_index(
                        iw as int,
                        ih as int,
                        (x - 15) as int,
                        (y - 15) as int,
                    );
                    vstd::arithmetic::div_mod::lemma_fundamental_div_mod_converse(
                        i,
                        iw as int,
                        (y - 15) as int,
                        (x - 15) as int,
                    );
                    assert(vals_spec[i] == bernsen_pixel(g, x as int, y as int));
                }
                vals.push(thr);
                x += 1;
            }
            proof {
                assert((((y + 1) - 15) as int) * (iw as int) == ((y - 15) as int) * (iw as int) + (
                iw as int)) by (nonlinear_arith);
            }
            y += 1;
        }
        proof {
            assert(vals@.len() == (ih as int) * (iw as int));
            assert((ih as int) * (iw as int) == (iw as int) * (ih as int) && (iw as int) * (
            ih as int) >= 1) by (nonlinear_arith)
                requires
                    iw >= 1,
                    ih >= 1,
            ;
            assert(vals@ =~= vals_spec);
        }
        median_u16(&vals)
    }

    /// Calculates the Wolf threshold of a grid: half the contrast-weighted
    /// mean intensity over all pixels, with the mid-range value as the
    /// fallback on a grid without contrast.
    pub fn calculate_wolf_threshold(grid: &IntensityGrid) -> (t: u16)
        requires
            grid.wf(),
        ensures
            wolf_post(*grid, t),
    {
        let w = grid.width();
        let h = grid.height();
        let levels = grid.levels();
        let ghost g = *grid;
        if w == 0 || h == 0 {
            proof {
                let ws = window_radius_spec(w as int, h as int);
                if w == 0 {
                    lemma_wolf_empty(g, ws, h as int);
                }
            }
            return (levels / 2) as u16;
        }
        proof {
            assert(w <= w * h && h <= w * h) by (nonlinear_arith)
                requires
                    w >= 1,
                    h >= 1,
            ;
        }
        let ws = window_radius(w, h);
        let ghost wsi = ws as int;
        let mut cs: u128 = 0;
        let mut cw: u64 = 0;
        let mut cnt: u64 = 0;
        let mut y: usize = 0;
        while y < h
            invariant
                grid.wf(),
                g == *grid,
                w == grid.spec_width(),
                h == grid.spec_height(),
                1 <= w < 0x1_0000_0000,
                1 <= h < 0x1_0000_0000,
                w * h < 0x1_0000_0000,
                5 <= ws <= 50,
                wsi == ws as int,
                0 <= y <= h,
                cnt == (y as int) * (w as int),
                cnt <= w * h,
                cs == wolf_cs(g, wsi, y as int),
                cw == wolf_w(g, wsi, y as int),
                cw <= 65535 * cnt,
                cs <= 65535 * (cw as int),
            decreases h - y,
        {
            let mut x: usize = 0;
            while x < w
                invariant
                    grid.wf(),
                    g == *grid,
                    w == grid.spec_width(),
                    h == grid.spec_height(),
                    1 <= w < 0x1_0000_0000,
                    1 <= h < 0x1_0000_0000,
                    w * h < 0x1_0000_0000,
                    5 <= ws <= 50,
                    wsi == ws as int,
                    0 <= y < h,
                    0 <= x <= w,
                    cnt == (y as int) * (w as int) + (x as int),
                    cnt <= w * h,
                    cs == wolf_cs(g, wsi, y as int) + wolf_row_cs(g, wsi, y as int, x as int),
                    cw == wolf_w(g, wsi, y as int) + wolf_row_w(g, wsi, y as int, x as int),
                    cw <= 65535 * cnt,
                    cs <= 65535 * (cw as int),
                decreases w - x,
            {
                proof {
                    crate::grid::lemma_row_major_index(w as int, h as int, x as int, y as int);
                }
                let x0e: usize = if x > ws {
                    x - ws
                } else {
                    0
                };
                let xhi: u64 = x as u64 + ws as u64 + 1;
                let x1e: usize = if xhi < w as u64 {
                    x + ws + 1
                } else {
                    w
                };
                let y0e: usize = if y > ws {
                    y - ws
                } else {
                    0
                };
                let yhi: u64 = y as u64 + ws as u64 + 1;
                let y1e: usize = if yhi < h as u64 {
                    y + ws + 1
                } else {
                    h
                };
                let mm = box_minmax(grid, x0e, x1e, y0e, y1e);
                let contrast: u64 = (mm.1 - mm.0) as u64;
                let v = grid.get(x, y);
                proof {
                    assert(contrast == wolf_contrast(g, wsi, x as int, y as int));
                    assert((contrast as int) * (v as int) <= 65535 * (contrast as int) && 0 <= (
                    contrast as int) * (v as int)) by (nonlinear_arith)
                        requires
                            0 <= v <= 65535,
                            0 <= contrast,
                    ;
                }
                cs = cs + (contrast as u128) * (v as u128);
                cw = cw + contrast;
                cnt = cnt + 1;
                x += 1;
            }
            proof {
                assert(((y + 1) as int) * (w as int) == (y as int) * (w as int) + (w as int)) by (
                nonlinear_arith);
                if (y + 1) as int <= h as int {
                    assert(((y + 1) as int) * (w as int) <= (h as int) * (w as int)) by (
                    nonlinear_arith)
                        requires
                            (y + 1) as int <= h as int,
                            w >= 0,
                    ;
                    assert((h as int) * (w as int) == (w as int) * (h as int)) by (nonlinear_arith);
                }
            }
            y += 1;
        }
        if cw > 0 {
            proof {
                assert(cs < (2 * (cw as int)) * 32768) by (nonlinear_arith)
                    requires
                        cs <= 65535 * (cw as int),
                        cw >= 1,
                ;
                vstd::arithmetic::div_mod::lemma_multiply_divide_lt(
                    cs as int,
                    2 * (cw as int),
                    32768,
                );
                vstd::arithmetic::div_mod::lemma_div_pos_is_pos(cs as int, 2 * (cw as int));
            }
            (cs / (2 * (cw as u128))) as u16
        } else {
            (levels / 2) as u16
        }
    }

    /// Calculates the Kapur threshold of a grid: the smallest cutoff that
    /// maximises the summed class entropies.
    pub fn calculate_kapur_threshold(grid: &IntensityGrid) -> (t: u16)
        requires
            grid.wf(),
        ensures
            kapur_post(*grid, t),
    {
        let h = build_histogram(grid);
        proof {
            lemma_grid_hist_ok(*grid);
            assert(h@ =~= grid_hist(*grid));
        }
        let ghost hh = h@;
        let ghost data = grid.spec_data();
        let levels: usize = grid.levels() as usize;
        let ghost l = levels as int;
        let mut t: usize = 0;
        let mut c0: u64 = 0;
        let mut sum0: i64 = 0;
        let mut best_t: usize = 0;
        let mut best_score: i64 = 0;
        while t < levels
            invariant
                hist_of(hh, data, l),
                hh == h@,
                data.len() < 0x1_0000_0000,
                2 <= levels <= 65536,
                l == levels,
                0 <= t <= levels,
                c0 == hist_count(hh, (t as int) - 1),
                sum0 == kap_sum0(hh, (t as int) - 1),
                c0 <= data.len(),
                -0x400000 * (c0 as int) <= sum0 <= 0x400000 * (c0 as int),
                t > 0 ==> {
                    &&& best_t < t
                    &&& best_score == kap_score(hh, best_t as int)
                    &&& forall|q: int| 0 <= q < t ==> kap_score(hh, q) <= best_score
                    &&& forall|q: int| 0 <= q < best_t ==> kap_score(hh, q) < best_score
                },
                t == 0 ==> best_t == 0,
            decreases levels - t,
        {
            proof {
                lemma_hist_count_is_count_le(hh, data, l, t as int);
            }
            let cnt = h[t];
            c0 = c0 + cnt;
            if cnt > 0 {
                let la = log2_fixed(c0);
                let lb = log2_fixed(cnt);
                let diff: i64 = la as i64 - lb as i64;
                proof {
                    assert(-0x400000 <= diff <= 0x400000);
                    assert(-0x400000 * (cnt as int) <= (cnt as int) * (diff as int)
                        && (cnt as int) * (diff as int) <= 0x400000 * (cnt as int)) by (
                    nonlinear_arith)
                        requires
                            -0x400000 <= diff <= 0x400000,
                            cnt >= 0,
                    ;
                    assert(kap_term(cnt as int, hist_count(hh, t as int)) == (cnt as int) * (
                    diff as int));
                }
                sum0 = sum0 + (cnt as i64) * diff;
            }
            proof {
                assert(sum0 == kap_sum0(hh, t as int));
            }
            let mut j: usize = t + 1;
            let mut c: u64 = 0;
            let mut sum1: i64 = 0;
            while j < levels
                invariant
                    hist_of(hh, data, l),
                    hh == h@,
                    data.len() < 0x1_0000_0000,
                    2 <= levels <= 65536,
                    l == levels,
                    0 <= t < levels,
                    t + 1 <= j <= levels,
                    c0 == hist_count(hh, t as int),
                    c == hist_count(hh, (j as int) - 1) - hist_count(hh, t as int),
                    c <= data.len(),
                    sum1 == kap_sum1(hh, t as int, (j as int) - 1),
                    -0x400000 * (c as int) <= sum1 <= 0x400000 * (c as int),
                decreases levels - j,
            {
                proof {
                    lemma_hist_count_is_count_le(hh, data, l, j as int);
                    lemma_hist_count_mono(hh, t as int, j as int);
                }
                let cnt = h[j];
                c = c + cnt;
                if cnt > 0 {
                    let la = log2_fixed(c);
                    let lb = log2_fixed(cnt);
                    let diff: i64 = la as i64 - lb as i64;
                    proof {
                        assert(-0x400000 <= diff <= 0x400000);
                        assert(-0x400000 * (cnt as int) <= (cnt as int) * (diff as int)
                            && (cnt as int) * (diff as int) <= 0x400000 * (cnt as int)) by (
                        nonlinear_arith)
                            requires
                                -0x400000 <= diff <= 0x400000,
                                cnt >= 0,
                        ;
                        assert(kap_term(cnt as int, hist_count(hh, j as int) - hist_count(
                            hh,
                            t as int,
                        )) == (cnt as int) * (diff as int));
                    }
                    sum1 = sum1 + (cnt as i64) * diff;
                }
                proof {
                    assert(sum1 == kap_sum1(hh, t as int, j as int));
                }
                j += 1;
            }
            let score = sum0 + sum1;
            proof {
                assert(score == kap_score(hh, t as int));
            }
            if t == 0 || score > best_score {
                best_t = t;
                best_score = score;
            }
            t += 1;
        }
        best_t as u16
    }

    /// Calculates the Otsu threshold of a grid: the cutoff that maximises
    /// the between-class measure, preferring the largest tied cutoff, with
    /// zero as the fallback when every cutoff leaves a class empty.
    pub fn calculate_otsu_threshold(grid: &IntensityGrid) -> (t: u16)
        requires
            grid.wf(),
        ensures
            otsu_post(*grid, t),
    {
        let h = build_histogram(grid);
        proof {
            lemma_grid_hist_ok(*grid);
            assert(h@ =~= grid_hist(*grid));
        }
        let ghost hh = h@;
        let ghost data = grid.spec_data();
        let levels: usize = grid.levels() as usize;
        let ghost l = levels as int;

        // Totals over the whole histogram.
        let mut v: usize = 0;
        let mut total: u64 = 0;
        let mut wtotal: u64 = 0;
        while v < levels
            invariant
                hist_of(hh, data, l),
                hh == h@,
                data.len() < 0x1_0000_0000,
                2 <= levels <= 65536,
                l == levels,
                0 <= v <= levels,
                total == hist_count(hh, (v as int) - 1),
                wtotal == hist_wsum(hh, (v as int) - 1),
                total <= data.len(),
                wtotal <= 65535 * total,
            decreases levels - v,
        {
            proof {
                lemma_hist_count_is_count_le(hh, data, l, v as int);
                lemma_hist_wsum_bound(hh, 65535, v as int);
                assert((v as int) * (hh[v as int]) <= 65535 * (hh[v as int])) by (nonlinear_arith)
                    requires
                        0 <= v as int <= 65535,
                        hh[v as int] >= 0,
                ;
            }
            total = total + h[v];
            wtotal = wtotal + (v as u64) * h[v];
            v += 1;
        }
        proof {
            assert(total == hist_count(hh, l - 1));
            assert(wtotal == hist_wsum(hh, l - 1));
        }

        // Scan every cutoff, keeping running class statistics.
        let mut t: usize = 0;
        let mut c0: u64 = 0;
        let mut s0: u64 = 0;
        let mut best_t: usize = 0;
        let mut best_score: u128 = 0;
        let mut any: bool = false;
        while t < levels
            invariant
                hist_of(hh, data, l),
                hh == h@,
                data.len() < 0x1_0000_0000,
                2 <= levels <= 65536,
                l == levels,
                total == hist_count(hh, l - 1),
                wtotal == hist_wsum(hh, l - 1),
                total <= data.len(),
                wtotal <= 65535 * total,
                0 <= t <= levels,
                c0 == hist_count(hh, (t as int) - 1),
                s0 == hist_wsum(hh, (t as int) - 1),
                any ==> {
                    &&& best_t < t
                    &&& otsu_score(hh, best_t as int) >= 0
                    &&& best_score == otsu_score(hh, best_t as int)
                    &&& forall|q: int|
                        0 <= q < t ==> otsu_score(hh, q) <= otsu_score(hh, best_t as int)
                    &&& forall|q: int|
                        best_t < q < t ==> otsu_score(hh, q) < otsu_score(hh, best_t as int)
                },
                !any ==> best_t == 0 && forall|q: int| 0 <= q < t ==> otsu_score(hh, q) < 0,
            decreases levels - t,
        {
            proof {
                lemma_hist_count_is_count_le(hh, data, l, t as int);
                lemma_hist_wsum_bound(hh, 65535, t as int);
                lemma_hist_count_mono(hh, t as int, l - 1);
                lemma_hist_wsum_mono(hh, t as int, l - 1);
                assert((t as int) * (hh[t as int]) <= 65535 * (hh[t as int])) by (nonlinear_arith)
                    requires
                        0 <= t as int <= 65535,
                        hh[t as int] >= 0,
                ;
            }
            c0 = c0 + h[t];
            s0 = s0 + (t as u64) * h[t];
            let c1 = total - c0;
            let s1 = wtotal - s0;
            if c0 > 0 && c1 > 0 {
                proof {
                    lemma_hist_wsum_span_bound(hh, 65535, t as int, l - 1);
                    assert(256 * (s0 as int) <= (c0 as int) * (256 * 65535)) by (nonlinear_arith)
                        requires
                            s0 as int <= 65535 * (c0 as int),
                    ;
                    assert(256 * (s1 as int) <= (c1 as int) * (256 * 65535)) by (nonlinear_arith)
                        requires
                            s1 as int <= 65535 * (c1 as int),
                    ;
                    lemma_multiply_divide_le(256 * (s0 as int), c0 as int, 256int * 65535);
                    lemma_multiply_divide_le(256 * (s1 as int), c1 as int, 256int * 65535);
                    vstd::arithmetic::div_mod::lemma_div_pos_is_pos(256 * (s0 as int), c0 as int);
                    vstd::arithmetic::div_mod::lemma_div_pos_is_pos(256 * (s1 as int), c1 as int);
                }
                let mu0 = s0 * 256 / c0;
                let mu1 = s1 * 256 / c1;
                let d = if mu0 >= mu1 {
                    mu0 - mu1
                } else {
                    mu1 - mu0
                };
                proof {
                    assert(d * d <= 0x1000000 * 0x1000000) by (nonlinear_arith)
                        requires
                            0 <= d <= 0x1000000,
                    ;
                }
                let dd = d * d;
                proof {
                    assert((c0 as int) * (c1 as int) < 0x1_0000_0000_0000_0000) by (
                    nonlinear_arith)
                        requires
                            0 <= c0 < 0x1_0000_0000,
                            0 <= c1 < 0x1_0000_0000,
                    ;
                    assert(((c0 as int) * (c1 as int)) * (dd as int)
                        < 0x1_0000_0000_0000_0000 * 0x1000000000001) by (nonlinear_arith)
                        requires
                            0 <= (c0 as int) * (c1 as int) < 0x1_0000_0000_0000_0000,
                            0 <= dd <= 0x1000000000000,
                    ;
                }
                let score = (c0 as u128) * (c1 as u128) * (dd as u128);
                proof {
                    let di = mean_fp(s0 as int, c0 as int) - mean_fp(s1 as int, c1 as int);
                    assert(mu0 == mean_fp(s0 as int, c0 as int));
                    assert(mu1 == mean_fp(s1 as int, c1 as int));
                    assert((d as int) * (d as int) == di * di) by (nonlinear_arith)
                        requires
                            d == if di >= 0 {
                                di
                            } else {
                                -di
                            },
                    ;
                    assert(score == otsu_score(hh, t as int));
                }
                if !any || score >= best_score {
                    best_t = t;
                    best_score = score;
                    any = true;
                }
            } else {
                proof {
                    assert(otsu_score(hh, t as int) < 0);
                }
            }
            t += 1;
        }
        proof {
            if any {
                assert(0 <= best_t < l && otsu_score(hh, best_t as int) >= 0);
            }
        }
        best_t as u16
    }
}

} // verus!
