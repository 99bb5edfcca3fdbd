//! Windowed statistics over an intensity grid: rectangle sums, sums of
//! squares, minima and maxima, and an exact integer square root. The three
//! local threshold strategies are built from these.

use crate::grid::IntensityGrid;
use vstd::prelude::*;

verus! {

/// Sum of the samples of row `y` with `x0 <= x < x1`.
pub open spec fn row_sum(g: IntensityGrid, y: int, x0: int, x1: int) -> int
    decreases x1 - x0,
{
    if x1 <= x0 {
        0
    } else {
        row_sum(g, y, x0, x1 - 1) + g.sample(x1 - 1, y)
    }
}

/// Sum of the squared samples of row `y` with `x0 <= x < x1`.
pub open spec fn row_sum_sq(g: IntensityGrid, y: int, x0: int, x1: int) -> int
    decreases x1 - x0,
{
    if x1 <= x0 {
        0
    } else {
        row_sum_sq(g, y, x0, x1 - 1) + g.sample(x1 - 1, y) * g.sample(x1 - 1, y)
    }
}

/// Sum of the samples in the rectangle `[x0, x1) x [y0, y1)`.
pub open spec fn box_sum(g: IntensityGrid, x0: int, x1: int, y0: int, y1: int) -> int
    decreases y1 - y0,
{
    if y1 <= y0 {
        0
    } else {
        box_sum(g, x0, x1, y0, y1 - 1) + row_sum(g, y1 - 1, x0, x1)
    }
}

/// Sum of the squared samples in the rectangle `[x0, x1) x [y0, y1)`.
pub open spec fn box_sum_sq(g: IntensityGrid, x0: int, x1: int, y0: int, y1: int) -> int
    decreases y1 - y0,
{
    if y1 <= y0 {
        0
    } else {
        box_sum_sq(g, x0, x1, y0, y1 - 1) + row_sum_sq(g, y1 - 1, x0, x1)
    }
}

/// Smallest sample of row `y` with `x0 <= x < x1`; the largest sample value
/// when the span is empty.
pub open spec fn row_min(g: IntensityGrid, y: int, x0: int, x1: int) -> int
    decreases x1 - x0,
{
    if x1 <= x0 {
        65535
    } else {
        let rest = row_min(g, y, x0, x1 - 1);
        if g.sample(x1 - 1, y) < rest {
            g.sample(x1 - 1, y) as int
        } else {
            rest
        }
    }
}

/// Largest sample of row `y` with `x0 <= x < x1`; zero when the span is
/// empty.
pub open spec fn row_max(g: IntensityGrid, y: int, x0: int, x1: int) -> int
    decreases x1 - x0,
{
    if x1 <= x0 {
        0
    } else {
        let rest = row_max(g, y, x0, x1 - 1);
        if g.sample(x1 - 1, y) > rest {
            g.sample(x1 - 1, y) as int
        } else {
            rest
        }
    }
}

/// Smallest sample in the rectangle `[x0, x1) x [y0, y1)`.
pub open spec fn box_min(g: IntensityGrid, x0: int, x1: int, y0: int, y1: int) -> int
    decreases y1 - y0,
{
    if y1 <= y0 {
        65535
    } else {
        let rest = box_min(g, x0, x1, y0, y1 - 1);
        let row = row_min(g, y1 - 1, x0, x1);
        if row < rest {
            row
        } else {
            rest
        }
    }
}

/// Largest sample in the rectangle `[x0, x1) x [y0, y1)`.
pub open spec fn box_max(g: IntensityGrid, x0: int, x1: int, y0: int, y1: int) -> int
    decreases y1 - y0,
{
    if y1 <= y0 {
        0
    } else {
        let rest = box_max(g, x0, x1, y0, y1 - 1);
        let row = row_max(g, y1 - 1, x0, x1);
        if row > rest {
            row
        } else {
            rest
        }
    }
}

/// Row sums are bounded by the largest sample times the span width, and are
/// never negative.
pub proof fn lemma_row_sum_bounds(g: IntensityGrid, y: int, x0: int, x1: int)
    ensures
        0 <= row_sum(g, y, x0, x1),
        row_sum(g, y, x0, x1) <= 65535 * (if x1 >= x0 {
            x1 - x0
        } else {
            0
        }),
        0 <= row_sum_sq(g, y, x0, x1),
        row_sum_sq(g, y, x0, x1) <= 65535 * 65535 * (if x1 >= x0 {
            x1 - x0
        } else {
            0
        }),
    decreases x1 - x0,
{
    if x1 > x0 {
        lemma_row_sum_bounds(g, y, x0, x1 - 1);
        let v = g.sample(x1 - 1, y) as int;
        assert(v * v <= 65535 * 65535) by (nonlinear_arith)
            requires
                0 <= v <= 65535,
        ;
    }
}

/// Box sums are bounded by the largest sample times the area, and are never
/// negative.
pub proof fn lemma_box_sum_bounds(g: IntensityGrid, x0: int, x1: int, y0: int, y1: int)
    requires
        x0 <= x1,
    ensures
        0 <= box_sum(g, x0, x1, y0, y1),
        box_sum(g, x0, x1, y0, y1) <= 65535 * ((x1 - x0) * (if y1 >= y0 {
            y1 - y0
        } else {
            0
        })),
        0 <= box_sum_sq(g, x0, x1, y0, y1),
        box_sum_sq(g, x0, x1, y0, y1) <= 65535 * 65535 * ((x1 - x0) * (if y1 >= y0 {
            y1 - y0
        } else {
            0
        })),
    decreases y1 - y0,
{
    if y1 > y0 {
        lemma_box_sum_bounds(g, x0, x1, y0, y1 - 1);
        lemma_row_sum_bounds(g, y1 - 1, x0, x1);
        assert((x1 - x0) * (y1 - y0) == (x1 - x0) * (y1 - 1 - y0) + (x1 - x0)) by (nonlinear_arith);
        assert(65535 * ((x1 - x0) * (y1 - y0)) == 65535 * ((x1 - x0) * (y1 - 1 - y0)) + 65535 * (x1
            - x0)) by (nonlinear_arith)
            requires
                (x1 - x0) * (y1 - y0) == (x1 - x0) * (y1 - 1 - y0) + (x1 - x0),
        ;
        assert(65535 * 65535 * ((x1 - x0) * (y1 - y0)) == 65535 * 65535 * ((x1 - x0) * (y1 - 1
            - y0)) + 65535 * 65535 * (x1 - x0)) by (nonlinear_arith)
            requires
                (x1 - x0) * (y1 - y0) == (x1 - x0) * (y1 - 1 - y0) + (x1 - x0),
        ;
    } else {
        assert((x1 - x0) * 0 == 0) by (nonlinear_arith);
    }
}

/// Box minima and maxima lie between zero and the largest sample value, and
/// the minimum never exceeds the maximum on a non-empty box.
pub proof fn lemma_box_minmax_bounds(g: IntensityGrid, x0: int, x1: int, y0: int, y1: int)
    ensures
        0 <= box_min(g, x0, x1, y0, y1) <= 65535,
        0 <= box_max(g, x0, x1, y0, y1) <= 65535,
        x0 < x1 && y0 < y1 ==> box_min(g, x0, x1, y0, y1) <= box_max(g, x0, x1, y0, y1),
    decreases y1 - y0,
{
    if y1 > y0 {
        lemma_box_minmax_bounds(g, x0, x1, y0, y1 - 1);
        lemma_row_minmax_bounds(g, y1 - 1, x0, x1);
    }
}

/// Row minima and maxima lie between zero and the largest sample value, and
/// the minimum never exceeds the maximum on a non-empty span.
pub proof fn lemma_row_minmax_bounds(g: IntensityGrid, y: int, x0: int, x1: int)
    ensures
        0 <= row_min(g, y, x0, x1) <= 65535,
        0 <= row_max(g, y, x0, x1) <= 65535,
        x0 < x1 ==> row_min(g, y, x0, x1) <= row_max(g, y, x0, x1),
    decreases x1 - x0,
{
    if x1 > x0 {
        lemma_row_minmax_bounds(g, y, x0, x1 - 1);
    }
}

/// The floor of the square root, as a mathematical value.
pub open spec fn isqrt_spec(n: nat) -> nat
    decreases n,
{
    if n == 0 {
        0
    } else {
        let r = isqrt_spec((n - 1) as nat);
        if (r + 1) * (r + 1) <= n {
            r + 1
        } else {
            r
        }
    }
}

/// `isqrt_spec` really is the floor of the square root.
pub proof fn lemma_isqrt_spec(n: nat)
    ensures
        isqrt_spec(n) * isqrt_spec(n) <= n,
        n < (isqrt_spec(n) + 1) * (isqrt_spec(n) + 1),
    decreases n,
{
    if n == 0 {
        assert(isqrt_spec(n) == 0);
        assert(isqrt_spec(n) * isqrt_spec(n) <= n) by (nonlinear_arith)
            requires
                isqrt_spec(n) == 0,
                n == 0,
        ;
        assert(n < (isqrt_spec(n) + 1) * (isqrt_spec(n) + 1)) by (nonlinear_arith)
            requires
                isqrt_spec(n) == 0,
                n == 0,
        ;
    } else {
        lemma_isqrt_spec((n - 1) as nat);
        let r = isqrt_spec((n - 1) as nat);
        if (r + 1) * (r + 1) <= n {
            assert(isqrt_spec(n) == r + 1);
            assert(n < ((r + 1) + 1) * ((r + 1) + 1)) by (nonlinear_arith)
                requires
                    0 <= r,
                    n - 1 < (r + 1) * (r + 1),
            ;
            assert(isqrt_spec(n) * isqrt_spec(n) <= n) by (nonlinear_arith)
                requires
                    isqrt_spec(n) == r + 1,
                    (r + 1) * (r + 1) <= n,
            ;
            assert(n < (isqrt_spec(n) + 1) * (isqrt_spec(n) + 1)) by (nonlinear_arith)
                requires
                    isqrt_spec(n) == r + 1,
                    n < ((r + 1) + 1) * ((r + 1) + 1),
            ;
        } else {
            assert(isqrt_spec(n) == r);
            assert(isqrt_spec(n) * isqrt_spec(n) <= n) by (nonlinear_arith)
                requires
                    isqrt_spec(n) == r,
                    r * r <= n - 1,
                    n >= 1,
            ;
            assert(n < (isqrt_spec(n) + 1) * (isqrt_spec(n) + 1)) by (nonlinear_arith)
                requires
                    isqrt_spec(n) == r,
                    !((r + 1) * (r + 1) <= n),
            ;
        }
    }
}

/// Any value whose square is at most `n` and whose successor's square
/// exceeds `n` is the floor of the square root.
pub proof fn lemma_isqrt_unique(n: nat, r: nat)
    requires
        r * r <= n,
        n < (r + 1) * (r + 1),
    ensures
        r == isqrt_spec(n),
{
    lemma_isqrt_spec(n);
    let s = isqrt_spec(n);
    if r < s {
        assert((r + 1) * (r + 1) <= s * s) by (nonlinear_arith)
            requires
                r + 1 <= s,
                0 <= r,
        ;
    } else if s < r {
        assert((s + 1) * (s + 1) <= r * r) by (nonlinear_arith)
            requires
                s + 1 <= r,
                0 <= s,
        ;
    }
}

/// Computes the floor of the square root exactly.
pub fn isqrt(n: u64) -> (r: u64)
    ensures
        r == isqrt_spec(n as nat),
        r * r <= n,
{
    let mut lo: u64 = 0;
    let mut hi: u64 = 0x1_0000_0000;
    while lo + 1 < hi
        invariant
            lo < hi <= 0x1_0000_0000,
            (lo as int) * (lo as int) <= n,
            (n as int) < (hi as int) * (hi as int),
        decreases hi - lo,
    {
        let mid = lo + (hi - lo) / 2;
        proof {
            assert((mid as int) * (mid as int) < 0x1_0000_0000_0000_0000int) by (nonlinear_arith)
                requires
                    0 <= mid < 0x1_0000_0000,
            ;
        }
        if mid * mid <= n {
            lo = mid;
        } else {
            hi = mid;
        }
    }
    proof {
        assert(hi == lo + 1);
        lemma_isqrt_unique(n as nat, lo as nat);
    }
    lo
}

/// The adaptive window radius: five percent of the smaller grid dimension,
/// rounded, clamped between five and fifty.
pub open spec fn window_radius_spec(w: int, h: int) -> int {
    let m = if w <= h {
        w
    } else {
        h
    };
    let r = (m + 10) / 20;
    if r < 5 {
        5
    } else if r > 50 {
        50
    } else {
        r
    }
}

/// Computes the adaptive window radius.
pub fn window_radius(w: usize, h: usize) -> (r: usize)
    requires
        w < 0x1_0000_0000,
        h < 0x1_0000_0000,
    ensures
        r == window_radius_spec(w as int, h as int),
        5 <= r <= 50,
{
    let m: u64 = if w <= h {
        w as u64
    } else {
        h as u64
    };
    let r: u64 = (m + 10) / 20;
    if r < 5 {
        5
    } else if r > 50 {
        50
    } else {
        r as usize
    }
}

/// Sum and sum of squares over a rectangle of the grid.
pub fn box_stats(grid: &IntensityGrid, x0: usize, x1: usize, y0: usize, y1: usize) -> (r: (
    u64,
    u64,
))
    requires
        grid.wf(),
        x0 <= x1 <= grid.spec_width(),
        y0 <= y1 <= grid.spec_height(),
        x1 - x0 <= 128,
        y1 - y0 <= 128,
    ensures
        r.0 == box_sum(*grid, x0 as int, x1 as int, y0 as int, y1 as int),
        r.1 == box_sum_sq(*grid, x0 as int, x1 as int, y0 as int, y1 as int),
{
    let mut s: u64 = 0;
    let mut q: u64 = 0;
    let mut y: usize = y0;
    while y < y1
        invariant
            grid.wf(),
            x0 <= x1 <= grid.spec_width(),
            y0 <= y <= y1 <= grid.spec_height(),
            x1 - x0 <= 128,
            y1 - y0 <= 128,
            s == box_sum(*grid, x0 as int, x1 as int, y0 as int, y as int),
            q == box_sum_sq(*grid, x0 as int, x1 as int, y0 as int, y as int),
        decreases y1 - y,
    {
        let mut x: usize = x0;
        let mut rs: u64 = 0;
        let mut rq: u64 = 0;
        while x < x1
            invariant
                grid.wf(),
                x0 <= x <= x1 <= grid.spec_width(),
                y0 <= y < y1 <= grid.spec_height(),
                x1 - x0 <= 128,
                rs == row_sum(*grid, y as int, x0 as int, x as int),
                rq == row_sum_sq(*grid, y as int, x0 as int, x as int),
            decreases x1 - x,
        {
            proof {
                lemma_row_sum_bounds(*grid, y as int, x0 as int, x as int);
                assert(row_sum(*grid, y as int, x0 as int, x as int) <= 65535 * 128
                    && row_sum_sq(*grid, y as int, x0 as int, x as int) <= 65535 * 65535 * 128) by (
                nonlinear_arith)
                    requires
                        0 <= (x as int) - x0 <= 128,
                        0 <= row_sum(*grid, y as int, x0 as int, x as int) <= 65535 * ((
                        x as int) - x0),
                        0 <= row_sum_sq(*grid, y as int, x0 as int, x as int) <= 65535 * 65535 * ((
                        x as int) - x0),
                ;
            }
            let v = grid.get(x, y);
            proof {
                assert((v as int) * (v as int) <= 65535 * 65535) by (nonlinear_arith)
                    requires
                        0 <= v <= 65535,
                ;
            }
            rs = rs + v as u64;
            rq = rq + (v as u64) * (v as u64);
            x += 1;
        }
        proof {
            lemma_box_sum_bounds(*grid, x0 as int, x1 as int, y0 as int, y as int);
            lemma_row_sum_bounds(*grid, y as int, x0 as int, x1 as int);
            assert(box_sum(*grid, x0 as int, x1 as int, y0 as int, y as int) <= 65535 * (128 * 128)
                && box_sum_sq(*grid, x0 as int, x1 as int, y0 as int, y as int) <= 65535 * 65535 * (
            128 * 128) && row_sum(*grid, y as int, x0 as int, x1 as int) <= 65535 * 128
                && row_sum_sq(*grid, y as int, x0 as int, x1 as int) <= 65535 * 65535 * 128) by (
            nonlinear_arith)
                requires
                    0 <= (x1 as int) - x0 <= 128,
                    0 <= (y as int) - y0 <= 128,
                    0 <= box_sum(*grid, x0 as int, x1 as int, y0 as int, y as int) <= 65535 * (((
                    x1 as int) - x0) * ((y as int) - y0)),
                    0 <= box_sum_sq(*grid, x0 as int, x1 as int, y0 as int, y as int) <= 65535
                        * 65535 * (((x1 as int) - x0) * ((y as int) - y0)),
                    0 <= row_sum(*grid, y as int, x0 as int, x1 as int) <= 65535 * ((x1 as int)
                        - x0),
                    0 <= row_sum_sq(*grid, y as int, x0 as int, x1 as int) <= 65535 * 65535 * ((
                    x1 as int) - x0),
            ;
        }
        s = s + rs;
        q = q + rq;
        y += 1;
    }
    (s, q)
}

/// Smallest and largest sample over a non-empty rectangle of the grid.
pub fn box_minmax(grid: &IntensityGrid, x0: usize, x1: usize, y0: usize, y1: usize) -> (r: (
    u16,
    u16,
))
    requires
        grid.wf(),
        x0 < x1 <= grid.spec_width(),
        y0 < y1 <= grid.spec_height(),
    ensures
        r.0 == box_min(*grid, x0 as int, x1 as int, y0 as int, y1 as int),
        r.1 == box_max(*grid, x0 as int, x1 as int, y0 as int, y1 as int),
        r.0 <= r.1,
{
    let mut mn: u16 = 65535;
    let mut mx: u16 = 0;
    let mut y: usize = y0;
    while y < y1
        invariant
            grid.wf(),
            x0 < x1 <= grid.spec_width(),
            y0 <= y <= y1 <= grid.spec_height(),
            mn == box_min(*grid, x0 as int, x1 as int, y0 as int, y as int),
            mx == box_max(*grid, x0 as int, x1 as int, y0 as int, y as int),
        decreases y1 - y,
    {
        let mut x: usize = x0;
        let mut rmn: u16 = 65535;
        let mut rmx: u16 = 0;
        while x < x1
            invariant
                grid.wf(),
                x0 <= x <= x1 <= grid.spec_width(),
                y0 <= y < y1 <= grid.spec_height(),
                rmn == row_min(*grid, y as int, x0 as int, x as int),
                rmx == row_max(*grid, y as int, x0 as int, x as int),
            decreases x1 - x,
        {
            let v = grid.get(x, y);
            if v < rmn {
                rmn = v;
            }
            if v > rmx {
                rmx = v;
            }
            x += 1;
        }
        if rmn < mn {
            mn = rmn;
        }
        if rmx > mx {
            mx = rmx;
        }
        y += 1;
    }
    proof {
        lemma_box_minmax_bounds(*grid, x0 as int, x1 as int, y0 as int, y1 as int);
    }
    (mn, mx)
}

} // verus!
