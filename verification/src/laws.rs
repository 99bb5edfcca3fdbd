//! The stated laws of the library: facts that relate several functions, each
//! proved from the contracts in the other modules.

use crate::choices::{ImageProcessingMethod, ScalingMode};
use crate::geometry::Point;
use crate::grid::{BinaryMask, IntensityGrid};
use crate::scale::{region_dim, scale_post};
use crate::sorting::{lemma_sort_spec_multiset, sort_spec};
use crate::threshold::{
    lemma_threshold_post_unique, mask_matches, process_image_post, threshold_post,
};
use crate::trace::{
    better, cand, cell_size, has_next, is_best_next, is_kept, kept_pred, lemma_best_unique,
    lemma_sort_points_set, line_order, next_point, trace_lines, trace_rest, trace_spec, yx_order,
};
use vstd::prelude::*;
use vstd::seq_lib::{lemma_no_dup_in_concat, seq_to_set_is_finite};
use vstd::set_lib::lemma_len_subset;

verus! {

/// Masks of the same shape that agree on every pixel hold the same data.
pub proof fn lemma_mask_pointwise_eq(m1: BinaryMask, m2: BinaryMask)
    requires
        m1.wf(),
        m2.wf(),
        m1.spec_width() == m2.spec_width(),
        m1.spec_height() == m2.spec_height(),
        forall|x: int, y: int|
            0 <= x < m1.spec_width() && 0 <= y < m1.spec_height() ==> m1.fg(x, y) == m2.fg(x, y),
    ensures
        m1.spec_data() =~= m2.spec_data(),
{
    let w = m1.spec_width() as int;
    let h = m1.spec_height() as int;
    assert forall|i: int| 0 <= i < m1.spec_data().len() implies m1.spec_data()[i]
        == m2.spec_data()[i] by {
        if w > 0 {
            let x = i % w;
            let y = i / w;
            vstd::arithmetic::div_mod::lemma_fundamental_div_mod(i, w);
            vstd::arithmetic::div_mod::lemma_mod_bound(i, w);
            vstd::arithmetic::div_mod::lemma_div_pos_is_pos(i, w);
            assert(w * y + x < w * h);
            assert(y < h) by (nonlinear_arith)
                requires
                    w * y + x < w * h,
                    0 <= x < w,
                    y >= 0,
            ;
            assert(y * w == w * y) by (nonlinear_arith);
            assert(m1.fg(x, y) == m2.fg(x, y));
        } else {
            assert(m1.spec_data().len() == 0) by {
                assert(0 * h == 0) by (nonlinear_arith);
            }
        }
    }
}

/// Binarisation is deterministic: the same grid and strategy always give
/// bit-identical masks.
pub proof fn lemma_threshold_idempotent(
    g: IntensityGrid,
    m: ImageProcessingMethod,
    r1: BinaryMask,
    r2: BinaryMask,
)
    requires
        process_image_post(g, m, r1),
        process_image_post(g, m, r2),
    ensures
        r1.spec_width() == r2.spec_width(),
        r1.spec_height() == r2.spec_height(),
        r1.spec_data() =~= r2.spec_data(),
{
    let t1 = choose|t: u16| #[trigger] threshold_post(g, m, t) && mask_matches(g, m, t, r1);
    let t2 = choose|t: u16| #[trigger] threshold_post(g, m, t) && mask_matches(g, m, t, r2);
    lemma_threshold_post_unique(g, m, t1, t2);
    lemma_mask_pointwise_eq(r1, r2);
}

/// Scaling does not depend on the order of the two region corners: swapped
/// corners give bit-identical results.
pub proof fn lemma_scale_corner_swap(
    src: BinaryMask,
    c1: (i32, i32),
    c2: (i32, i32),
    mode: ScalingMode,
    o1: BinaryMask,
    o2: BinaryMask,
)
    requires
        scale_post(src, c1, c2, mode, o1),
        scale_post(src, c2, c1, mode, o2),
    ensures
        o1.spec_width() == o2.spec_width(),
        o1.spec_height() == o2.spec_height(),
        o1.spec_data() =~= o2.spec_data(),
{
    assert(region_dim(c2.0 as int, c1.0 as int) == region_dim(c1.0 as int, c2.0 as int));
    assert(region_dim(c2.1 as int, c1.1 as int) == region_dim(c1.1 as int, c2.1 as int));
    if src.spec_width() == 0 || src.spec_height() == 0 {
        lemma_mask_pointwise_eq(o1, o2);
    } else {
        match mode {
            ScalingMode::Stretch => {
                assert(o1.spec_data() == o2.spec_data());
                assert(o1.spec_data() =~= o2.spec_data());
            },
            _ => {
                lemma_mask_pointwise_eq(o1, o2);
            },
        }
    }
}

/// Tiling a mask into a region of exactly its own size reproduces the mask
/// pixel for pixel.
pub proof fn lemma_tile_roundtrip(src: BinaryMask, c1: (i32, i32), c2: (i32, i32), out: BinaryMask)
    requires
        src.wf(),
        1 <= src.spec_width(),
        1 <= src.spec_height(),
        scale_post(src, c1, c2, ScalingMode::Tile, out),
        region_dim(c2.0 as int, c1.0 as int) == src.spec_width(),
        region_dim(c2.1 as int, c1.1 as int) == src.spec_height(),
    ensures
        out.same_image(src),
{
    let sw = src.spec_width() as int;
    let sh = src.spec_height() as int;
    assert forall|x: int, y: int| 0 <= x < sw && 0 <= y < sh implies out.fg(x, y) == src.fg(
        x,
        y,
    ) by {
        vstd::arithmetic::div_mod::lemma_small_mod(x as nat, sw as nat);
        vstd::arithmetic::div_mod::lemma_small_mod(y as nat, sh as nat);
    }
    lemma_mask_pointwise_eq(out, src);
}

/// Tracing an empty point set yields an empty path list.
pub proof fn lemma_trace_empty(maxd: int)
    ensures
        trace_spec(Seq::empty(), maxd) == Seq::<Seq<Point>>::empty(),
{
    let e = Seq::<Point>::empty();
    assert(sort_spec(yx_order(), e) == Seq::<Point>::empty());
    assert(trace_lines(Seq::<Point>::empty(), e.to_set(), cell_size(maxd), maxd) == Seq::<
        Seq<Point>,
    >::empty());
    assert(Seq::<Seq<Point>>::empty().filter(kept_pred()) =~= Seq::<Seq<Point>>::empty());
    assert(sort_spec(line_order(), Seq::<Seq<Point>>::empty()) == Seq::<Seq<Point>>::empty());
}

/// One traced path visits points of the remaining set only, and visits no
/// point twice.
pub proof fn lemma_trace_rest_props(last: Point, g: int, maxd: int, r: Set<Point>)
    requires
        r.finite(),
    ensures
        trace_rest(last, g, maxd, r).no_duplicates(),
        forall|p: Point| #[trigger] trace_rest(last, g, maxd, r).contains(p) ==> r.contains(p),
    decreases r.len(),
{
    if has_next(last, g, maxd, r) {
        let p = next_point(last, g, maxd, r);
        assert(is_best_next(last, g, maxd, r, p));
        assert(r.contains(p));
        let rest = trace_rest(p, g, maxd, r.remove(p));
        lemma_trace_rest_props(p, g, maxd, r.remove(p));
        crate::trace::lemma_concat_contains(seq![p], rest);
        assert forall|i: int, j: int|
            0 <= i < seq![p].len() && 0 <= j < rest.len() implies seq![p][i] != rest[j] by {
            assert(rest.contains(rest[j]));
            assert(r.remove(p).contains(rest[j]));
        }
        lemma_no_dup_in_concat(seq![p], rest);
        assert(trace_rest(last, g, maxd, r) == seq![p] + rest);
        assert forall|q: Point| #[trigger] (seq![p] + rest).contains(q) implies r.contains(q) by {
            if rest.contains(q) {
                assert(r.remove(p).contains(q));
            } else {
                assert(q == p);
            }
        }
    }
}

/// The traced paths of a remaining set partition it exactly: every path
/// point comes from the set, every set point lands on a path, no point lands
/// twice, and every path is non-empty.
pub proof fn lemma_trace_lines_partition(sorted: Seq<Point>, r: Set<Point>, g: int, maxd: int)
    requires
        r.finite(),
        sorted.no_duplicates(),
        forall|p: Point| r.contains(p) ==> #[trigger] sorted.contains(p),
    ensures
        trace_lines(sorted, r, g, maxd).flatten().no_duplicates(),
        forall|p: Point| #[trigger]
            trace_lines(sorted, r, g, maxd).flatten().contains(p) <==> r.contains(p),
        forall|l: Seq<Point>| #[trigger]
            trace_lines(sorted, r, g, maxd).contains(l) ==> l.len() >= 1,
    decreases sorted.len(),
{
    let lines = trace_lines(sorted, r, g, maxd);
    if sorted.len() == 0 {
        assert(lines == Seq::<Seq<Point>>::empty());
        assert(lines.flatten() =~= Seq::<Point>::empty());
        assert forall|p: Point| r.contains(p) implies false by {
            assert(sorted.contains(p));
        }
    } else {
        let p0 = sorted[0];
        let tail = sorted.drop_first();
        assert(tail.no_duplicates()) by {
            assert(forall|i: int| 0 <= i < tail.len() ==> tail[i] == sorted[i + 1]);
        }
        if r.contains(p0) {
            let rest = trace_rest(p0, g, maxd, r.remove(p0));
            let line = seq![p0] + rest;
            let rnext = r.remove(p0).difference(rest.to_set());
            lemma_trace_rest_props(p0, g, maxd, r.remove(p0));
            crate::trace::lemma_concat_contains(seq![p0], rest);
            assert(line.no_duplicates()) by {
                assert forall|i: int, j: int|
                    0 <= i < seq![p0].len() && 0 <= j < rest.len() implies seq![p0][i]
                    != rest[j] by {
                    assert(rest.contains(rest[j]));
                    assert(r.remove(p0).contains(rest[j]));
                }
                lemma_no_dup_in_concat(seq![p0], rest);
            }
            assert(rnext.finite()) by {
                lemma_len_subset(rnext, r);
            }
            assert forall|p: Point| rnext.contains(p) implies #[trigger] tail.contains(p) by {
                assert(r.contains(p) && p != p0);
                assert(sorted.contains(p));
                let i = choose|i: int| 0 <= i < sorted.len() && sorted[i] == p;
                assert(i != 0);
                assert(tail[i - 1] == p);
            }
            lemma_trace_lines_partition(tail, rnext, g, maxd);
            let rlines = trace_lines(tail, rnext, g, maxd);
            assert(lines == seq![line] + rlines);
            assert(lines.first() == line);
            assert(lines.drop_first() =~= rlines);
            assert(lines.flatten() == line + rlines.flatten());
            assert(lines.flatten().no_duplicates()) by {
                assert forall|i: int, j: int|
                    0 <= i < line.len() && 0 <= j < rlines.flatten().len() implies line[i]
                    != rlines.flatten()[j] by {
                    assert(line.contains(line[i]));
                    assert(rlines.flatten().contains(rlines.flatten()[j]));
                    assert(rnext.contains(rlines.flatten()[j]));
                    if line[i] == rlines.flatten()[j] {
                        if line[i] == p0 {
                            assert(!rnext.contains(p0));
                        } else {
                            assert(rest.contains(line[i]));
                            assert(rest.to_set().contains(line[i]));
                            assert(!rnext.contains(line[i]));
                        }
                    }
                }
                lemma_no_dup_in_concat(line, rlines.flatten());
            }
            crate::trace::lemma_concat_contains(line, rlines.flatten());
            assert forall|p: Point| #[trigger] lines.flatten().contains(p) implies r.contains(
                p,
            ) by {
                if line.contains(p) {
                    if p == p0 {
                    } else {
                        assert(rest.contains(p));
                        assert(r.remove(p0).contains(p));
                    }
                } else {
                    assert(rlines.flatten().contains(p));
                    assert(rnext.contains(p));
                }
            }
            assert forall|p: Point| r.contains(p) implies #[trigger] lines.flatten().contains(
                p,
            ) by {
                if p == p0 {
                    assert(line[0] == p0);
                    assert(line.contains(p));
                } else if rest.contains(p) {
                    assert(line.contains(p));
                } else {
                    assert(rnext.contains(p));
                    assert(rlines.flatten().contains(p));
                }
            }
            assert forall|l: Seq<Point>| #[trigger] lines.contains(l) implies l.len() >= 1 by {
                let i = choose|i: int| 0 <= i < lines.len() && lines[i] == l;
                if i == 0 {
                    assert(l == line);
                } else {
                    assert(rlines[i - 1] == l);
                    assert(rlines.contains(l));
                }
            }
        } else {
            assert forall|p: Point| r.contains(p) implies #[trigger] tail.contains(p) by {
                assert(sorted.contains(p));
                let i = choose|i: int| 0 <= i < sorted.len() && sorted[i] == p;
                assert(i != 0) by {
                    if i == 0 {
                        assert(r.contains(p0));
                    }
                }
                assert(tail[i - 1] == p);
            }
            lemma_trace_lines_partition(tail, r, g, maxd);
            assert(lines == trace_lines(tail, r, g, maxd));
        }
    }
}

/// The complement of a predicate.
pub open spec fn not_pred<A>(pred: spec_fn(A) -> bool) -> spec_fn(A) -> bool {
    |a: A| !pred(a)
}

/// Splitting a sequence by a predicate keeps every element exactly once.
pub proof fn lemma_filter_split<A>(s: Seq<A>, pred: spec_fn(A) -> bool)
    ensures
        s.filter(pred).to_multiset().add(s.filter(not_pred(pred)).to_multiset())
            =~= s.to_multiset(),
    decreases s.len(),
{
    broadcast use vstd::seq_lib::group_to_multiset_ensures;
    broadcast use vstd::multiset::group_multiset_axioms;

    let npred = not_pred(pred);
    if s.len() == 0 {
        assert(s.filter(pred) =~= s);
        assert(s.filter(npred) =~= s);
    } else {
        lemma_filter_split(s.drop_last(), pred);
        reveal_with_fuel(Seq::filter, 2);
        let dl = s.drop_last();
        let l = s.last();
        assert(dl.push(l) =~= s);
        assert(dl.push(l).to_multiset() =~= dl.to_multiset().insert(l));
        if pred(l) {
            assert(s.filter(pred) == dl.filter(pred).push(l));
            assert(s.filter(npred) == dl.filter(npred));
            assert(dl.filter(pred).push(l).to_multiset() =~= dl.filter(
                pred,
            ).to_multiset().insert(l));
            assert(dl.filter(pred).to_multiset().insert(l).add(dl.filter(npred).to_multiset())
                =~= dl.filter(pred).to_multiset().add(dl.filter(npred).to_multiset()).insert(l));
        } else {
            assert(s.filter(pred) == dl.filter(pred));
            assert(s.filter(npred) == dl.filter(npred).push(l));
            assert(dl.filter(npred).push(l).to_multiset() =~= dl.filter(
                npred,
            ).to_multiset().insert(l));
            assert(dl.filter(pred).to_multiset().add(dl.filter(npred).to_multiset().insert(l))
                =~= dl.filter(pred).to_multiset().add(dl.filter(npred).to_multiset()).insert(l));
        }
    }
}

/// The tracer partitions its input point set exactly: over the paths it
/// discovers, every input point appears exactly once; the returned list
/// holds, as a bag, exactly the discovered paths of more than two points;
/// and every discarded path has at least one and at most two points.
pub proof fn lemma_trace_partitions(pts: Seq<Point>, maxd: int)
    requires
        pts.no_duplicates(),
    ensures
        ({
            let sorted = sort_spec(yx_order(), pts);
            let all = trace_lines(sorted, pts.to_set(), cell_size(maxd), maxd);
            &&& all.flatten().no_duplicates()
            &&& forall|p: Point| #[trigger] all.flatten().contains(p) <==> pts.contains(p)
            &&& trace_spec(pts, maxd).to_multiset() =~= all.filter(kept_pred()).to_multiset()
            &&& all.filter(kept_pred()).to_multiset().add(
                all.filter(not_pred(kept_pred())).to_multiset(),
            ) =~= all.to_multiset()
            &&& forall|l: Seq<Point>| #[trigger] all.contains(l) ==> 1 <= l.len()
            &&& forall|l: Seq<Point>|
                #[trigger] all.contains(l) && !is_kept(l) ==> 1 <= l.len() <= 2
        }),
{
    broadcast use seq_to_set_is_finite;

    let sorted = sort_spec(yx_order(), pts);
    let r0 = pts.to_set();
    let g = cell_size(maxd);
    lemma_sort_points_set(pts);
    assert forall|p: Point| r0.contains(p) implies #[trigger] sorted.contains(p) by {
        assert(sorted.to_set().contains(p));
    }
    lemma_trace_lines_partition(sorted, r0, g, maxd);
    let all = trace_lines(sorted, r0, g, maxd);
    assert forall|p: Point| #[trigger] all.flatten().contains(p) implies pts.contains(p) by {
        assert(r0.contains(p));
    }
    assert forall|p: Point| pts.contains(p) implies #[trigger] all.flatten().contains(p) by {
        assert(r0.contains(p));
    }
    lemma_sort_spec_multiset(line_order(), all.filter(kept_pred()));
    lemma_filter_split(all, kept_pred());
}


/// The scan order of points is kept by insertion: inserting into a sequence
/// ordered by row and column keeps it ordered.
pub proof fn lemma_insert_yx_ordered(x: Point, s: Seq<Point>)
    requires
        forall|i: int, j: int| 0 <= i < j < s.len() ==> !(#[trigger] s[j]).yx_lt(#[trigger] s[i]),
    ensures
        ({
            let r = crate::sorting::insert_sorted(yx_order(), x, s);
            forall|i: int, j: int| 0 <= i < j < r.len() ==> !(#[trigger] r[j]).yx_lt(#[trigger] r[i])
        }),
    decreases s.len(),
{
    broadcast use vstd::seq_lib::group_to_multiset_ensures;

    let lt = yx_order();
    let r = crate::sorting::insert_sorted(lt, x, s);
    if s.len() == 0 {
        assert(r =~= seq![x]);
    } else if lt(x, s[0]) {
        assert(r =~= seq![x] + s);
        assert forall|i: int, j: int| 0 <= i < j < r.len() implies !(#[trigger] r[j]).yx_lt(
            #[trigger] r[i],
        ) by {
            if i == 0 {
                assert(r[0] == x);
                assert(r[j] == s[j - 1]);
                if j >= 2 {
                    assert(!s[j - 1].yx_lt(s[0]));
                }
            } else {
                assert(r[i] == s[i - 1] && r[j] == s[j - 1]);
            }
        }
    } else {
        let rest = s.drop_first();
        assert(forall|i: int, j: int|
            0 <= i < j < rest.len() ==> !(#[trigger] rest[j]).yx_lt(#[trigger] rest[i])) by {
            assert(forall|i: int| 0 <= i < rest.len() ==> rest[i] == s[i + 1]);
        }
        lemma_insert_yx_ordered(x, rest);
        let ri = crate::sorting::insert_sorted(lt, x, rest);
        crate::sorting::lemma_insert_sorted_multiset(lt, x, rest);
        assert(r =~= seq![s[0]] + ri);
        assert forall|i: int, j: int| 0 <= i < j < r.len() implies !(#[trigger] r[j]).yx_lt(
            #[trigger] r[i],
        ) by {
            if i == 0 {
                assert(r[0] == s[0]);
                assert(r[j] == ri[j - 1]);
                assert(ri.contains(ri[j - 1]));
                assert(ri.to_multiset().contains(ri[j - 1]));
                if ri[j - 1] == x {
                } else {
                    assert(rest.to_multiset().contains(ri[j - 1]));
                    assert(rest.contains(ri[j - 1]));
                    let k = choose|k: int| 0 <= k < rest.len() && rest[k] == ri[j - 1];
                    assert(rest[k] == s[k + 1]);
                    assert(!s[k + 1].yx_lt(s[0]));
                }
            } else {
                assert(r[i] == ri[i - 1] && r[j] == ri[j - 1]);
            }
        }
    }
}

/// The sorted scan order really is ordered: no later point comes before an
/// earlier one.
pub proof fn lemma_sort_points_ordered(pts: Seq<Point>)
    ensures
        ({
            let s = sort_spec(yx_order(), pts);
            forall|i: int, j: int| 0 <= i < j < s.len() ==> !(#[trigger] s[j]).yx_lt(#[trigger] s[i])
        }),
    decreases pts.len(),
{
    if pts.len() > 0 {
        lemma_sort_points_ordered(pts.drop_last());
        lemma_insert_yx_ordered(pts.last(), sort_spec(yx_order(), pts.drop_last()));
    }
}

/// Coordinates within one radius land in the same or an adjacent cell.
proof fn lemma_cells_adjacent(va: int, vb: int, g: int)
    requires
        g >= 1,
        va - g < vb < va + g,
    ensures
        crate::index::cell_coord(va, g) - 1 <= crate::index::cell_coord(vb, g)
            <= crate::index::cell_coord(va, g) + 1,
{
    vstd::arithmetic::div_mod::lemma_div_is_ordered(vb, va + g, g);
    vstd::arithmetic::div_mod::lemma_div_is_ordered(va - g, vb, g);
    vstd::arithmetic::div_mod::lemma_div_plus_one(va, g);
    vstd::arithmetic::div_mod::lemma_div_minus_one(va, g);
    assert(va + g == g + va);
    assert(va - g == -g + va);
}

/// Points strictly within the search radius are candidates of one another.
proof fn lemma_close_is_cand(a: Point, b: Point, maxd: int)
    requires
        maxd >= 1,
        a.dist_sq_spec(b) < maxd * maxd,
    ensures
        cand(a, cell_size(maxd), maxd, b),
{
    let g = cell_size(maxd);
    let dx = a.x - b.x;
    let dy = a.y - b.y;
    assert(-maxd < dx < maxd && -maxd < dy < maxd) by (nonlinear_arith)
        requires
            maxd >= 1,
            dx * dx + dy * dy < maxd * maxd,
    ;
    lemma_cells_adjacent(a.x as int, b.x as int, g);
    lemma_cells_adjacent(a.y as int, b.y as int, g);
}

/// Three mutually close points always trace into one path that starts at
/// the earliest point in scan order and visits all three.
pub proof fn lemma_trace_triangle(pts: Seq<Point>, maxd: int)
    requires
        pts.no_duplicates(),
        pts.len() == 3,
        maxd >= 1,
        forall|i: int, j: int|
            0 <= i < 3 && 0 <= j < 3 ==> (#[trigger] pts[i]).dist_sq_spec(#[trigger] pts[j]) < maxd
                * maxd,
    ensures
        trace_spec(pts, maxd).len() == 1,
        trace_spec(pts, maxd)[0].len() == 3,
        trace_spec(pts, maxd)[0].to_set() =~= pts.to_set(),
        forall|q: Point|
            pts.contains(q) && q != trace_spec(pts, maxd)[0][0] ==> (#[trigger] trace_spec(
                pts,
                maxd,
            )[0][0]).yx_lt(q),
{
    broadcast use vstd::seq_lib::group_to_multiset_ensures;

    let g = cell_size(maxd);
    let sorted = sort_spec(yx_order(), pts);
    crate::sorting::lemma_sort_spec_len(yx_order(), pts);
    crate::sorting::lemma_sort_spec_multiset(yx_order(), pts);
    lemma_sort_points_set(pts);
    lemma_sort_points_ordered(pts);
    let s0 = sorted[0];
    let s1 = sorted[1];
    let s2 = sorted[2];
    assert(sorted.contains(s0) && sorted.contains(s1) && sorted.contains(s2));
    assert(pts.contains(s0) && pts.contains(s1) && pts.contains(s2)) by {
        assert(pts.to_set().contains(s0) && pts.to_set().contains(s1) && pts.to_set().contains(
            s2,
        ));
    }
    assert forall|a: Point, b: Point| pts.contains(a) && pts.contains(b) implies (
    #[trigger] a.dist_sq_spec(b)) < maxd * maxd by {
        let i = choose|i: int| 0 <= i < pts.len() && pts[i] == a;
        let j = choose|j: int| 0 <= j < pts.len() && pts[j] == b;
        assert(pts[i].dist_sq_spec(pts[j]) < maxd * maxd);
    }
    assert(s0 != s1 && s0 != s2 && s1 != s2);
    // The remaining sets at each step.
    let r0 = pts.to_set();
    assert forall|p: Point| r0.contains(p) implies p == s0 || p == s1 || p == s2 by {
        assert(sorted.to_set().contains(p));
        let i = choose|i: int| 0 <= i < sorted.len() && sorted[i] == p;
    }
    assert(r0.contains(s0) && r0.contains(s1) && r0.contains(s2));
    let r1 = r0.remove(s0);
    assert(r1.finite()) by {
        broadcast use vstd::seq_lib::seq_to_set_is_finite;

    }
    // One step of the greedy walk: the better of the two remaining points.
    let w = if better(s0, s1, s2) {
        s1
    } else {
        s2
    };
    let o = if better(s0, s1, s2) {
        s2
    } else {
        s1
    };
    assert(better(s0, w, s1) && better(s0, w, s2));
    lemma_close_is_cand(s0, s1, maxd);
    lemma_close_is_cand(s0, s2, maxd);
    assert(is_best_next(s0, g, maxd, r1, w)) by {
        assert forall|q: Point| r1.contains(q) && #[trigger] cand(s0, g, maxd, q) implies better(
            s0,
            w,
            q,
        ) by {
            assert(q == s1 || q == s2);
        }
    }
    assert(has_next(s0, g, maxd, r1));
    lemma_best_unique(s0, g, maxd, r1, next_point(s0, g, maxd, r1), w);
    let r2 = r1.remove(w);
    assert(r2.finite());
    assert(trace_rest(s0, g, maxd, r1) == seq![w] + trace_rest(w, g, maxd, r2));
    // Second step: only the other point is left.
    assert(r2.contains(o) && !r2.contains(s0) && !r2.contains(w));
    assert forall|p: Point| r2.contains(p) implies p == o by {}
    lemma_close_is_cand(w, o, maxd);
    assert(is_best_next(w, g, maxd, r2, o)) by {
        assert forall|q: Point| r2.contains(q) && #[trigger] cand(w, g, maxd, q) implies better(
            w,
            o,
            q,
        ) by {
            assert(q == o);
        }
    }
    assert(has_next(w, g, maxd, r2));
    lemma_best_unique(w, g, maxd, r2, next_point(w, g, maxd, r2), o);
    let r3 = r2.remove(o);
    assert(r3.finite());
    assert(trace_rest(w, g, maxd, r2) == seq![o] + trace_rest(o, g, maxd, r3));
    // Third step: nothing is left.
    assert(r3 =~= Set::<Point>::empty());
    assert(!has_next(o, g, maxd, r3)) by {
        if has_next(o, g, maxd, r3) {
            let p = choose|p: Point| is_best_next(o, g, maxd, r3, p);
            assert(r3.contains(p));
        }
    }
    assert(trace_rest(o, g, maxd, r3) == Seq::<Point>::empty());
    let rest = trace_rest(s0, g, maxd, r1);
    assert(rest =~= seq![w, o]) by {
        assert(seq![w] + (seq![o] + Seq::<Point>::empty()) =~= seq![w, o]);
    }
    let line = seq![s0] + rest;
    assert(line =~= seq![s0, w, o]);
    // The outer walk: one line, then nothing.
    let tail = sorted.drop_first();
    assert(tail.len() == 2 && tail[0] == s1 && tail[1] == s2);
    let rnext = r1.difference(rest.to_set());
    assert(rnext =~= Set::<Point>::empty()) by {
        assert(rest.contains(w) && rest.contains(o)) by {
            assert(rest[0] == w && rest[1] == o);
        }
        assert forall|p: Point| r1.contains(p) implies rest.to_set().contains(p) by {
            assert(p == s1 || p == s2);
            assert(p == w || p == o);
        }
    }
    let all = trace_lines(sorted, r0, g, maxd);
    assert(tail.drop_first() =~= seq![s2]);
    assert(seq![s2].drop_first() =~= Seq::<Point>::empty());
    assert(trace_lines(Seq::<Point>::empty(), rnext, g, maxd) == Seq::<Seq<Point>>::empty());
    assert(!rnext.contains(s1) && !rnext.contains(s2));
    assert(trace_lines(seq![s2], rnext, g, maxd) == Seq::<Seq<Point>>::empty());
    assert(trace_lines(tail, rnext, g, maxd) == Seq::<Seq<Point>>::empty());
    assert(all == seq![line] + Seq::<Seq<Point>>::empty());
    assert(all =~= seq![line]);
    // Filter and final order.
    assert(line.len() == 3 && kept_pred()(line));
    assert(all.filter(kept_pred()) =~= seq![line]) by {
        reveal_with_fuel(Seq::filter, 3);
        assert(seq![line].drop_last() =~= Seq::<Seq<Point>>::empty());
        assert(seq![line].last() == line);
    }
    assert(trace_spec(pts, maxd) == sort_spec(line_order(), seq![line]));
    assert(sort_spec(line_order(), seq![line]) =~= seq![line]) by {
        assert(seq![line].drop_last() =~= Seq::<Seq<Point>>::empty());
        assert(sort_spec(line_order(), Seq::<Seq<Point>>::empty()) == Seq::<Seq<Point>>::empty());
        assert(crate::sorting::insert_sorted(line_order(), line, Seq::<Seq<Point>>::empty())
            =~= seq![line]);
    }
    assert(trace_spec(pts, maxd) =~= seq![line]);
    // The ensured shape.
    assert(trace_spec(pts, maxd)[0] == line);
    assert(line.to_set() =~= pts.to_set()) by {
        assert forall|p: Point| line.to_set().contains(p) implies pts.to_set().contains(p) by {
            let i = choose|i: int| 0 <= i < line.len() && line[i] == p;
            assert(p == s0 || p == w || p == o);
        }
        assert forall|p: Point| pts.to_set().contains(p) implies line.to_set().contains(p) by {
            assert(p == s0 || p == s1 || p == s2);
            assert(line[0] == s0 && line[1] == w && line[2] == o);
            assert(line.contains(p));
        }
    }
    assert forall|q: Point| pts.contains(q) && q != line[0] implies (#[trigger] line[0]).yx_lt(
        q,
    ) by {
        assert(pts.to_set().contains(q));
        assert(q == s1 || q == s2);
        assert(!s1.yx_lt(s0) && !s2.yx_lt(s0));
    }
}

} // verus!
