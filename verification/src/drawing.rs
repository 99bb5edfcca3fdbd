//! The drawing plan: sampling foreground points out of a scaled mask, the
//! full image-to-paths pipeline, and the small per-segment computations that
//! the replay loop needs.

use crate::choices::{ImageProcessingMethod, ScalingMode};
use crate::geometry::Point;
use crate::grid::{BinaryMask, IntensityGrid};
use crate::scale::{scale_post, ImageScaler};
use crate::threshold::{process_image_post, ImageProcessor};
use crate::trace::{find_connected_components, trace_spec, views};
use crate::windows::{isqrt, isqrt_spec};
use vstd::prelude::*;

verus! {

/// Two distinct multiples of a stride are at least a stride apart.
proof fn lemma_multiples_gap(a: int, b: int, st: int)
    requires
        st >= 1,
        a % st == 0,
        b % st == 0,
        a < b,
    ensures
        b >= a + st,
{
    vstd::arithmetic::div_mod::lemma_fundamental_div_mod(a, st);
    vstd::arithmetic::div_mod::lemma_fundamental_div_mod(b, st);
    let qa = a / st;
    let qb = b / st;
    assert(qa < qb) by (nonlinear_arith)
        requires
            st >= 1,
            st * qa < st * qb,
    ;
    assert(st * qb >= st * qa + st) by (nonlinear_arith)
        requires
            qb >= qa + 1,
            st >= 1,
    ;
}

/// A multiple of the stride stays a multiple after one more stride.
proof fn lemma_step_stays_multiple(y: int, st: int)
    requires
        st >= 1,
        y % st == 0,
    ensures
        (y + st) % st == 0,
{
    vstd::arithmetic::div_mod::lemma_add_mod_noop(y, st, st);
    vstd::arithmetic::div_mod::lemma_mod_self_0(st);
    assert(0int % st == 0) by {
        vstd::arithmetic::div_mod::lemma_small_mod(0nat, st as nat);
    }
}

/// Whether a point is a sampled foreground point of a mask at a stride:
/// on the stride grid, inside the mask, and classified as foreground.
pub open spec fn is_sample(m: BinaryMask, step: int, p: Point) -> bool {
    &&& 0 <= p.x < m.spec_width()
    &&& 0 <= p.y < m.spec_height()
    &&& p.x as int % step == 0
    &&& p.y as int % step == 0
    &&& m.fg(p.x as int, p.y as int)
}

/// Collects the foreground pixels of a mask whose coordinates are multiples
/// of the stride, in scan order.
pub fn get_black_pixels_adaptive(img: &BinaryMask, step: i32) -> (r: Vec<Point>)
    requires
        img.wf(),
        step >= 1,
        img.spec_width() <= 0x8000_0000,
        img.spec_height() <= 0x8000_0000,
    ensures
        r@.no_duplicates(),
        forall|p: Point| #[trigger] r@.contains(p) <==> is_sample(*img, step as int, p),
{
    let w = img.width();
    let h = img.height();
    let st = step as usize;
    let mut r: Vec<Point> = Vec::new();
    let mut y: usize = 0;
    while y < h
        invariant
            img.wf(),
            w == img.spec_width(),
            h == img.spec_height(),
            w <= 0x8000_0000,
            h <= 0x8000_0000,
            st == step as int,
            1 <= st,
            0 <= y <= h + st,
            y % st == 0,
            forall|j1: int, j2: int| 0 <= j1 < j2 < r@.len() ==> (#[trigger] r@[j1]).yx_lt(
                #[trigger] r@[j2],
            ),
            forall|p: Point| #[trigger] r@.contains(p) ==> is_sample(*img, step as int, p)
                && p.y < y,
            forall|p: Point|
                is_sample(*img, step as int, p) && p.y < y ==> #[trigger] r@.contains(p),
        decreases h + st - y,
    {
        let mut x: usize = 0;
        while x < w
            invariant
                img.wf(),
                w == img.spec_width(),
                h == img.spec_height(),
                w <= 0x8000_0000,
                h <= 0x8000_0000,
                st == step as int,
                1 <= st,
                0 <= y < h,
                y % st == 0,
                0 <= x <= w + st,
                x % st == 0,
                forall|j1: int, j2: int| 0 <= j1 < j2 < r@.len() ==> (#[trigger] r@[j1]).yx_lt(
                    #[trigger] r@[j2],
                ),
                forall|p: Point| #[trigger] r@.contains(p) ==> is_sample(*img, step as int, p) && (
                p.y < y || (p.y == y && p.x < x)),
                forall|p: Point|
                    is_sample(*img, step as int, p) && (p.y < y || (p.y == y && p.x < x))
                        ==> #[trigger] r@.contains(p),
            decreases w + st - x,
        {
            let ghost old_r = r@;
            if img.get(x, y) {
                let p = Point { x: x as i32, y: y as i32 };
                proof {
                    assert forall|j: int| 0 <= j < old_r.len() implies (#[trigger] old_r[j]).yx_lt(
                        p,
                    ) by {
                        assert(old_r.contains(old_r[j]));
                    }
                    crate::trace::lemma_push_contains(old_r, p);
                }
                r.push(p);
            }
            proof {
                let pnew = Point { x: x as i32, y: y as i32 };
                assert forall|p: Point|
                    is_sample(*img, step as int, p) && (p.y < y || (p.y == y && p.x < x
                        + st)) implies #[trigger] r@.contains(p) by {
                    if p.y == y && x <= p.x < x + st {
                        assert(p.x as int % st as int == 0 && x as int % st as int == 0);
                        assert(p.x == x) by {
                            if p.x > x {
                                lemma_multiples_gap(x as int, p.x as int, st as int);
                            }
                        }
                        assert(p == pnew);
                        assert(r@.contains(pnew)) by {
                            assert(r@[r@.len() - 1] == pnew);
                        }
                    } else {
                        assert(old_r.contains(p));
                        if img.fg(x as int, y as int) {
                            crate::trace::lemma_push_contains(old_r, pnew);
                        }
                    }
                }
            }
            proof {
                lemma_step_stays_multiple(x as int, st as int);
            }
            x += st;
        }
        proof {
            assert forall|p: Point|
                is_sample(*img, step as int, p) && p.y < y + st implies #[trigger] r@.contains(
                p,
            ) by {
                if p.y >= y {
                    if p.y > y {
                        lemma_multiples_gap(y as int, p.y as int, st as int);
                        assert(false);
                    }
                    assert(p.y == y && p.x < w);
                }
            }
            lemma_step_stays_multiple(y as int, st as int);
        }
        y += st;
    }
    proof {
        assert forall|p: Point| is_sample(*img, step as int, p) implies #[trigger] r@.contains(
            p,
        ) by {
            assert(p.y < h);
        }
        assert(r@.no_duplicates()) by {
            assert forall|j1: int, j2: int|
                0 <= j1 < r@.len() && 0 <= j2 < r@.len() && j1 != j2 implies r@[j1] != r@[j2] by {
                if j1 < j2 {
                    assert(r@[j1].yx_lt(r@[j2]));
                } else {
                    assert(r@[j2].yx_lt(r@[j1]));
                }
            }
        }
    }
    r
}

/// The adjustment of the drawing opacity for a brightness value.
pub fn calc_opac_adj(brightness: u16) -> (adj: i32)
    ensures
        adj == if brightness <= 4096 {
            0int
        } else if brightness <= 8192 {
            -1int
        } else {
            1int
        },
{
    if brightness <= 4096 {
        0
    } else if brightness <= 8192 {
        -1
    } else {
        1
    }
}

/// Division truncated toward zero, as the replay interpolation rounds.
pub open spec fn trunc_div(a: int, b: int) -> int {
    if a >= 0 {
        a / b
    } else {
        -((-a) / b)
    }
}

/// The interpolated pointer position at one interpolation step between two
/// path points.
pub open spec fn interp_at(cur: Point, next: Point, k: int, steps: int) -> Point {
    Point {
        x: (cur.x + trunc_div(k * (next.x - cur.x), steps)) as i32,
        y: (cur.y + trunc_div(k * (next.y - cur.y), steps)) as i32,
    }
}

/// The pointer positions replayed between two consecutive path points:
/// nothing extra for adjacent pixels, else one position per whole unit of
/// distance, ending exactly on the second point.
pub fn interpolate_segment(current: Point, next: Point) -> (r: Vec<Point>)
    requires
        0 <= current.x,
        0 <= current.y,
        0 <= next.x,
        0 <= next.y,
    ensures
        current.dist_sq_spec(next) <= 1 ==> r@ =~= seq![next],
        current.dist_sq_spec(next) > 1 ==> {
            let steps = isqrt_spec(current.dist_sq_spec(next) as nat) as int;
            &&& r@.len() == steps
            &&& forall|k: int| 0 <= k < steps ==> r@[k] == interp_at(current, next, k + 1, steps)
        },
{
    proof {
        assert((current.x - next.x) * (current.x - next.x) + (current.y - next.y) * (current.y
            - next.y) <= 0x4000_0000_0000_0000int + 0x4000_0000_0000_0000) by (nonlinear_arith)
            requires
                0 <= current.x <= 0x8000_0000,
                0 <= next.x <= 0x8000_0000,
                0 <= current.y <= 0x8000_0000,
                0 <= next.y <= 0x8000_0000,
        ;
    }
    let d = current.distance_squared(&next);
    if d <= 1 {
        let mut r: Vec<Point> = Vec::new();
        r.push(next);
        return r;
    }
    proof {
        assert(d <= 0x8000_0000_0000_0000u128);
    }
    let steps64 = isqrt(d as u64);
    proof {
        assert((d as u64) as nat == d as nat);
        assert(steps64 == isqrt_spec(d as nat));
        assert(steps64 >= 1) by {
            crate::windows::lemma_isqrt_spec(d as nat);
            if isqrt_spec(d as nat) == 0 {
                assert((isqrt_spec(d as nat) + 1) * (isqrt_spec(d as nat) + 1) == 1) by (
                nonlinear_arith)
                    requires
                        isqrt_spec(d as nat) == 0,
                ;
                assert((d as nat) < 1);
            }
        }
        assert((steps64 as int) * (steps64 as int) <= d);
        assert(steps64 <= 0x2_0000_0000) by {
            if steps64 > 0x2_0000_0000 {
                assert((steps64 as int) * (steps64 as int) > 0x2_0000_0000int * 0x2_0000_0000) by (
                nonlinear_arith)
                    requires
                        steps64 > 0x2_0000_0000,
                ;
            }
        }
    }
    let steps = steps64 as i64;
    let dx: i64 = next.x as i64 - current.x as i64;
    let dy: i64 = next.y as i64 - current.y as i64;
    let mut r: Vec<Point> = Vec::new();
    let mut k: i64 = 1;
    while k <= steps
        invariant
            1 <= k <= steps + 1,
            1 <= steps <= 0x2_0000_0000,
            dx == next.x - current.x,
            dy == next.y - current.y,
            -0x1_0000_0000 <= dx <= 0x1_0000_0000,
            -0x1_0000_0000 <= dy <= 0x1_0000_0000,
            r@.len() == k - 1,
            forall|kk: int|
                0 <= kk < k - 1 ==> (#[trigger] r@[kk]) == interp_at(
                    current,
                    next,
                    kk + 1,
                    steps as int,
                ),
        decreases steps + 1 - k,
    {
        let ox = scaled_offset(k, dx, steps);
        let oy = scaled_offset(k, dy, steps);
        proof {
            assert(current.x + ox <= if current.x <= next.x {
                next.x as int
            } else {
                current.x as int
            } && current.x + ox >= if current.x <= next.x {
                current.x as int
            } else {
                next.x as int
            });
            assert(current.y + oy <= if current.y <= next.y {
                next.y as int
            } else {
                current.y as int
            } && current.y + oy >= if current.y <= next.y {
                current.y as int
            } else {
                next.y as int
            });
        }
        let p = Point { x: (current.x as i64 + ox) as i32, y: (current.y as i64 + oy) as i32 };
        r.push(p);
        k += 1;
    }
    r
}

/// One interpolation offset: `k * d / steps`, truncated toward zero; the
/// result lies between zero and `d`.
fn scaled_offset(k: i64, d: i64, steps: i64) -> (o: i64)
    requires
        1 <= k <= steps,
        1 <= steps <= 0x2_0000_0000,
        -0x1_0000_0000 <= d <= 0x1_0000_0000,
    ensures
        o == trunc_div(k * d, steps as int),
        d >= 0 ==> 0 <= o <= d,
        d < 0 ==> d <= o <= 0,
{
    proof {
        assert((k as int) * (d as int) <= 0x2_0000_0000int * 0x1_0000_0000 && (k as int) * (
        d as int) >= -(0x2_0000_0000int * 0x1_0000_0000)) by (nonlinear_arith)
            requires
                1 <= k <= 0x2_0000_0000,
                -0x1_0000_0000 <= d <= 0x1_0000_0000,
        ;
    }
    if d >= 0 {
        let num: u128 = (k as u128) * (d as u128);
        let q: u128 = num / (steps as u128);
        proof {
            assert((k as int) * (d as int) <= (steps as int) * (d as int)) by (nonlinear_arith)
                requires
                    1 <= k <= steps,
                    d >= 0,
            ;
            vstd::arithmetic::div_mod::lemma_multiply_divide_le(
                (k as int) * (d as int),
                steps as int,
                d as int,
            );
            vstd::arithmetic::div_mod::lemma_div_pos_is_pos((k as int) * (d as int), steps as int);
        }
        q as i64
    } else {
        proof {
            assert((k as int) * (-(d as int)) <= 0x2_0000_0000int * 0x1_0000_0000 && 0 <= (
            k as int) * (-(d as int))) by (nonlinear_arith)
                requires
                    1 <= k <= 0x2_0000_0000,
                    -0x1_0000_0000 <= d < 0,
            ;
        }
        let num: u128 = (k as u128) * ((-d) as u128);
        let q: u128 = num / (steps as u128);
        proof {
            assert((k as int) * (-(d as int)) <= (steps as int) * (-(d as int))) by (
            nonlinear_arith)
                requires
                    1 <= k <= steps,
                    d < 0,
            ;
            vstd::arithmetic::div_mod::lemma_multiply_divide_le(
                (k as int) * (-(d as int)),
                steps as int,
                -(d as int),
            );
            vstd::arithmetic::div_mod::lemma_div_pos_is_pos(
                (k as int) * (-(d as int)),
                steps as int,
            );
            assert((k as int) * (-(d as int)) == -((k as int) * (d as int))) by (nonlinear_arith);
        }
        -(q as i64)
    }
}

/// What the whole pipeline returns: a mask binarised from the grid, scaled
/// into the region, sampled at the stride, and traced into paths.
pub open spec fn draw_plan_post(
    grid: IntensityGrid,
    method: ImageProcessingMethod,
    start_pos: (i32, i32),
    end_pos: (i32, i32),
    mode: ScalingMode,
    step: i32,
    max_distance: i32,
    r: Seq<Seq<Point>>,
) -> bool {
    exists|mask: BinaryMask, scaled: BinaryMask, pts: Seq<Point>|
        #![trigger process_image_post(grid, method, mask), scale_post(
            mask,
            start_pos,
            end_pos,
            mode,
            scaled,
        ), trace_spec(pts, max_distance as int)]
        {
            &&& process_image_post(grid, method, mask)
            &&& scale_post(mask, start_pos, end_pos, mode, scaled)
            &&& pts.no_duplicates()
            &&& (forall|p: Point| #[trigger] pts.contains(p) <==> is_sample(
                scaled,
                step as int,
                p,
            ))
            &&& r == trace_spec(pts, max_distance as int)
        }
}

/// Runs the whole compiler: binarise the grid, scale the mask into the
/// region, sample the foreground at the stride, and trace the points into
/// replay-ordered paths.
pub fn draw_plan(
    grid: &IntensityGrid,
    method: ImageProcessingMethod,
    start_pos: (i32, i32),
    end_pos: (i32, i32),
    mode: ScalingMode,
    step: i32,
    max_distance: i32,
) -> (r: Vec<Vec<Point>>)
    requires
        grid.wf(),
        grid.spec_width() < 0x1_0000_0000,
        grid.spec_height() < 0x1_0000_0000,
        crate::scale::region_dim(end_pos.0 as int, start_pos.0 as int) <= 0x8000_0000,
        crate::scale::region_dim(end_pos.1 as int, start_pos.1 as int) <= 0x8000_0000,
        step >= 1,
    ensures
        draw_plan_post(*grid, method, start_pos, end_pos, mode, step, max_distance, views(r@)),
{
    let mask = ImageProcessor::process_image(grid, method);
    let scaled = ImageScaler::scale_image_to_region(&mask, start_pos, end_pos, mode);
    proof {
        assert(scaled.spec_width() < 0x1_0000_0000 && scaled.spec_height() < 0x1_0000_0000);
    }
    let pts = get_black_pixels_adaptive(&scaled, step);
    let lines = find_connected_components(pts, max_distance);
    lines
}

} // verus!
