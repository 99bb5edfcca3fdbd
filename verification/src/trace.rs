//! The path tracer: consumes a set of foreground points and a spatial index
//! and emits an ordered list of polylines. Each path starts at the earliest
//! unvisited point in scan order and repeatedly appends the nearest unvisited
//! point within the search radius, ties resolved toward the earliest point in
//! scan order; paths of two points or fewer are dropped as noise, and the
//! survivors are ordered by falling length.

use crate::geometry::Point;
use crate::index::{build_spatial_index, cell_coord, floor_div, SpatialIndex};
use crate::sorting::{lemma_insert_sorted_at, sort_spec};
use vstd::prelude::*;
use vstd::set_lib::lemma_len_subset;

verus! {

/// The scan order of the tracer: by row, then by column.
pub open spec fn yx_order() -> spec_fn(Point, Point) -> bool {
    |a: Point, b: Point| a.yx_lt(b)
}

/// The cell size used for a search radius.
pub open spec fn cell_size(maxd: int) -> int {
    if maxd >= 1 {
        maxd
    } else {
        1
    }
}

/// A candidate next point: within the search radius, and within the block of
/// three by three cells around the current point.
pub open spec fn cand(last: Point, g: int, maxd: int, p: Point) -> bool {
    &&& last.dist_sq_spec(p) <= maxd * maxd
    &&& cell_coord(last.x as int, g) - 1 <= cell_coord(p.x as int, g) <= cell_coord(
        last.x as int,
        g,
    ) + 1
    &&& cell_coord(last.y as int, g) - 1 <= cell_coord(p.y as int, g) <= cell_coord(
        last.y as int,
        g,
    ) + 1
}

/// Preference between candidates: strictly nearer, or as near and no later
/// in scan order.
pub open spec fn better(last: Point, p: Point, q: Point) -> bool {
    let dp = last.dist_sq_spec(p);
    let dq = last.dist_sq_spec(q);
    dp < dq || (dp == dq && (p.yx_lt(q) || p == q))
}

/// Whether `p` is the best candidate of the remaining set `r`.
pub open spec fn is_best_next(last: Point, g: int, maxd: int, r: Set<Point>, p: Point) -> bool {
    &&& r.contains(p)
    &&& cand(last, g, maxd, p)
    &&& forall|q: Point| r.contains(q) && #[trigger] cand(last, g, maxd, q) ==> better(last, p, q)
}

/// Whether the remaining set offers any candidate.
pub open spec fn has_next(last: Point, g: int, maxd: int, r: Set<Point>) -> bool {
    exists|p: Point| #[trigger] is_best_next(last, g, maxd, r, p)
}

/// The best candidate, when one exists.
pub open spec fn next_point(last: Point, g: int, maxd: int, r: Set<Point>) -> Point {
    choose|p: Point| is_best_next(last, g, maxd, r, p)
}

/// The best candidate is unique.
pub proof fn lemma_best_unique(last: Point, g: int, maxd: int, r: Set<Point>, p1: Point, p2: Point)
    requires
        is_best_next(last, g, maxd, r, p1),
        is_best_next(last, g, maxd, r, p2),
    ensures
        p1 == p2,
{
    assert(better(last, p1, p2));
    assert(better(last, p2, p1));
}

/// The rest of one path after its current point: the best remaining
/// candidate, then the rest from there, until no candidate is left.
pub open spec fn trace_rest(last: Point, g: int, maxd: int, r: Set<Point>) -> Seq<Point>
    decreases r.len(),
    when r.finite()
{
    if r.finite() && has_next(last, g, maxd, r) {
        let p = next_point(last, g, maxd, r);
        seq![p] + trace_rest(p, g, maxd, r.remove(p))
    } else {
        Seq::empty()
    }
}

/// All traced paths in discovery order, the short ones included: each point
/// of the scan order that is still unvisited starts one path.
pub open spec fn trace_lines(sorted: Seq<Point>, r: Set<Point>, g: int, maxd: int) -> Seq<
    Seq<Point>,
>
    decreases sorted.len(),
{
    if sorted.len() == 0 {
        Seq::empty()
    } else {
        let p0 = sorted[0];
        if r.contains(p0) {
            let rest = trace_rest(p0, g, maxd, r.remove(p0));
            let line = seq![p0] + rest;
            seq![line] + trace_lines(
                sorted.drop_first(),
                r.remove(p0).difference(rest.to_set()),
                g,
                maxd,
            )
        } else {
            trace_lines(sorted.drop_first(), r, g, maxd)
        }
    }
}

/// A path that survives the noise filter: more than two points.
pub open spec fn is_kept(l: Seq<Point>) -> bool {
    l.len() > 2
}

/// The noise filter as a function value.
pub open spec fn kept_pred() -> spec_fn(Seq<Point>) -> bool {
    |l: Seq<Point>| is_kept(l)
}

/// The replay order of finished paths: more points first; among paths of
/// equal length, the one with the earlier starting point first.
pub open spec fn line_order() -> spec_fn(Seq<Point>, Seq<Point>) -> bool {
    |a: Seq<Point>, b: Seq<Point>|
        a.len() > b.len() || (a.len() == b.len() && a.len() > 0 && b.len() > 0 && a[0].yx_lt(b[0]))
}

/// The whole tracer, as a mathematical value: sort the points in scan order,
/// trace greedily, drop paths of at most two points, and order the rest by
/// falling length.
pub open spec fn trace_spec(pts: Seq<Point>, maxd: int) -> Seq<Seq<Point>> {
    let g = cell_size(maxd);
    let sorted = sort_spec(yx_order(), pts);
    let all = trace_lines(sorted, pts.to_set(), g, maxd);
    sort_spec(line_order(), all.filter(kept_pred()))
}

/// The mathematical value of a list of paths.
pub open spec fn views(s: Seq<Vec<Point>>) -> Seq<Seq<Point>> {
    s.map_values(|v: Vec<Point>| v@)
}

/// The points of an indexed list that are not yet visited.
pub open spec fn unvisited_set(points: Seq<Point>, visited: Seq<bool>) -> Set<Point> {
    Set::new(
        |p: Point|
            exists|id: int| 0 <= id < points.len() && (#[trigger] points[id]) == p && !visited[id],
    )
}

/// The unvisited set is a finite part of the indexed points.
pub proof fn lemma_unvisited_finite(points: Seq<Point>, visited: Seq<bool>)
    ensures
        unvisited_set(points, visited).finite(),
        forall|p: Point| unvisited_set(points, visited).contains(p) ==> #[trigger] points.contains(
            p,
        ),
{
    let u = unvisited_set(points, visited);
    assert forall|p: Point| u.contains(p) implies #[trigger] points.to_set().contains(p) by {
        let id = choose|id: int|
            0 <= id < points.len() && (#[trigger] points[id]) == p && !visited[id];
        assert(points[id] == p);
    }
    broadcast use vstd::seq_lib::seq_to_set_is_finite;

    assert(points.to_set().finite());
    lemma_len_subset(u, points.to_set());
    assert forall|p: Point| u.contains(p) implies #[trigger] points.contains(p) by {
        assert(points.to_set().contains(p));
    }
}

/// Marking the only index of a point removes exactly that point from the
/// unvisited set.
pub proof fn lemma_unvisited_mark(points: Seq<Point>, visited: Seq<bool>, id: int)
    requires
        points.no_duplicates(),
        visited.len() == points.len(),
        0 <= id < points.len(),
        !visited[id],
    ensures
        unvisited_set(points, visited.update(id, true)) =~= unvisited_set(points, visited).remove(
            points[id],
        ),
        unvisited_set(points, visited).contains(points[id]),
{
    let u0 = unvisited_set(points, visited);
    let u1 = unvisited_set(points, visited.update(id, true));
    assert(points[id] == points[id] && !visited[id]);
    assert(u0.contains(points[id]));
    assert forall|p: Point| u1.contains(p) implies u0.remove(points[id]).contains(p) by {
        let j = choose|j: int|
            0 <= j < points.len() && (#[trigger] points[j]) == p && !visited.update(id, true)[j];
        assert(j != id);
        assert(points[j] == p && !visited[j]);
        assert(p != points[id]);
    }
    assert forall|p: Point| u0.remove(points[id]).contains(p) implies u1.contains(p) by {
        let j = choose|j: int|
            0 <= j < points.len() && (#[trigger] points[j]) == p && !visited[j];
        assert(j != id);
        assert(points[j] == p && !visited.update(id, true)[j]);
    }
}

/// Finds the nearest unvisited point within the search radius around
/// `current`, ties resolved toward the earliest point in scan order.
pub fn find_next_point(
    current: Point,
    spatial_index: &SpatialIndex,
    visited: &Vec<bool>,
    max_distance: i32,
) -> (r: Option<usize>)
    requires
        spatial_index.wf(),
        visited@.len() == spatial_index.points@.len(),
        spatial_index.grid_size == cell_size(max_distance as int),
    ensures
        match r {
            Some(id) => {
                &&& id < spatial_index.points@.len()
                &&& !visited@[id as int]
                &&& is_best_next(
                    current,
                    spatial_index.grid_size as int,
                    max_distance as int,
                    unvisited_set(spatial_index.points@, visited@),
                    spatial_index.points@[id as int],
                )
            },
            None => !has_next(
                current,
                spatial_index.grid_size as int,
                max_distance as int,
                unvisited_set(spatial_index.points@, visited@),
            ),
        },
{
    let ghost g = spatial_index.grid_size as int;
    let ghost maxd = max_distance as int;
    let ghost pts = spatial_index.points@;
    let ghost rset = unvisited_set(pts, visited@);
    let gcx = floor_div(current.x as i64, spatial_index.grid_size);
    let gcy = floor_div(current.y as i64, spatial_index.grid_size);
    proof {
        assert((max_distance as int) * (max_distance as int) <= 0x8000_0000int * 0x8000_0000) by (
        nonlinear_arith)
            requires
                -0x8000_0000 <= max_distance as int <= 0x8000_0000,
        ;
        assert(0 <= (max_distance as int) * (max_distance as int)) by (nonlinear_arith);
    }
    let md2: i128 = (max_distance as i128) * (max_distance as i128);
    let mut best: Option<usize> = None;
    let mut best_d: u128 = 0;
    let nc = spatial_index.cells.len();
    let mut c: usize = 0;
    while c < nc
        invariant
            spatial_index.wf(),
            visited@.len() == spatial_index.points@.len(),
            g == spatial_index.grid_size as int,
            maxd == max_distance as int,
            pts == spatial_index.points@,
            rset == unvisited_set(pts, visited@),
            gcx == cell_coord(current.x as int, g),
            gcy == cell_coord(current.y as int, g),
            -0x3_0000_0000 <= gcx <= 0x1_0000_0000,
            -0x3_0000_0000 <= gcy <= 0x1_0000_0000,
            md2 == maxd * maxd,
            nc == spatial_index.cells@.len(),
            0 <= c <= nc,
            match best {
                Some(id) => {
                    &&& id < pts.len()
                    &&& !visited@[id as int]
                    &&& cand(current, g, maxd, pts[id as int])
                    &&& best_d == current.dist_sq_spec(pts[id as int])
                    &&& forall|cc: int, j: int|
                        0 <= cc < c && 0 <= j < (#[trigger] spatial_index.cells@[cc]).2@.len()
                            ==> {
                            let other = #[trigger] spatial_index.cells@[cc].2@[j];
                            !visited@[other as int] && cand(current, g, maxd, pts[other as int])
                                ==> better(current, pts[id as int], pts[other as int])
                        }
                },
                None => forall|cc: int, j: int|
                    0 <= cc < c && 0 <= j < (#[trigger] spatial_index.cells@[cc]).2@.len() ==> {
                        let other = #[trigger] spatial_index.cells@[cc].2@[j];
                        !(!visited@[other as int] && cand(current, g, maxd, pts[other as int]))
                    },
            },
        decreases nc - c,
    {
        let key = (spatial_index.cells[c].0, spatial_index.cells[c].1);
        let in_block = gcx - 1 <= key.0 && key.0 <= gcx + 1 && gcy - 1 <= key.1 && key.1 <= gcy
            + 1;
        let nj = spatial_index.cells[c].2.len();
        let mut j: usize = 0;
        while j < nj
            invariant
                spatial_index.wf(),
                visited@.len() == spatial_index.points@.len(),
                g == spatial_index.grid_size as int,
                maxd == max_distance as int,
                pts == spatial_index.points@,
                rset == unvisited_set(pts, visited@),
                gcx == cell_coord(current.x as int, g),
                gcy == cell_coord(current.y as int, g),
                -0x3_0000_0000 <= gcx <= 0x1_0000_0000,
                -0x3_0000_0000 <= gcy <= 0x1_0000_0000,
                md2 == maxd * maxd,
                nc == spatial_index.cells@.len(),
                0 <= c < nc,
                0 <= j <= nj,
                nj == spatial_index.cells@[c as int].2@.len(),
                key.0 == spatial_index.cells@[c as int].0,
                key.1 == spatial_index.cells@[c as int].1,
                in_block == (gcx - 1 <= key.0 <= gcx + 1 && gcy - 1 <= key.1 <= gcy + 1),
                match best {
                    Some(id) => {
                        &&& id < pts.len()
                        &&& !visited@[id as int]
                        &&& cand(current, g, maxd, pts[id as int])
                        &&& best_d == current.dist_sq_spec(pts[id as int])
                        &&& forall|cc: int, jj: int|
                            0 <= cc < c && 0 <= jj < (
                            #[trigger] spatial_index.cells@[cc]).2@.len() ==> {
                                let other = #[trigger] spatial_index.cells@[cc].2@[jj];
                                !visited@[other as int] && cand(current, g, maxd, pts[other as int])
                                    ==> better(current, pts[id as int], pts[other as int])
                            }
                        &&& forall|jj: int|
                            0 <= jj < j ==> {
                                let other =
                                    #[trigger] spatial_index.cells@[c as int].2@[jj];
                                !visited@[other as int] && cand(current, g, maxd, pts[other as int])
                                    ==> better(current, pts[id as int], pts[other as int])
                            }
                    },
                    None => {
                        &&& forall|cc: int, jj: int|
                            0 <= cc < c && 0 <= jj < (
                            #[trigger] spatial_index.cells@[cc]).2@.len() ==> {
                                let other = #[trigger] spatial_index.cells@[cc].2@[jj];
                                !(!visited@[other as int] && cand(
                                    current,
                                    g,
                                    maxd,
                                    pts[other as int],
                                ))
                            }
                        &&& forall|jj: int|
                            0 <= jj < j ==> {
                                let other =
                                    #[trigger] spatial_index.cells@[c as int].2@[jj];
                                !(!visited@[other as int] && cand(
                                    current,
                                    g,
                                    maxd,
                                    pts[other as int],
                                ))
                            }
                    },
                },
            decreases nj - j,
        {
            let id = spatial_index.cells[c].2[j];
            let p = spatial_index.points[id];
            if !visited[id] {
                let d = current.distance_squared(&p);
                let within = md2 >= 0 && d <= (md2 as u128);
                proof {
                    assert(current.dist_sq_spec(p) >= 0) by (nonlinear_arith);
                    if md2 < 0 {
                        assert(!(current.dist_sq_spec(p) <= maxd * maxd));
                    }
                }
                if in_block && within {
                    proof {
                        assert(cand(current, g, maxd, p));
                    }
                    let take = match best {
                        Some(b) => {
                            let bp = spatial_index.points[b];
                            d < best_d || (d == best_d && (p.y < bp.y || (p.y == bp.y && p.x
                                < bp.x)))
                        },
                        None => true,
                    };
                    if take {
                        best = Some(id);
                        best_d = d;
                    }
                } else {
                    proof {
                        if in_block {
                            assert(!cand(current, g, maxd, p));
                        } else {
                            assert(!(gcx - 1 <= cell_coord(p.x as int, g) <= gcx + 1 && gcy - 1
                                <= cell_coord(p.y as int, g) <= gcy + 1) ==> !cand(
                                current,
                                g,
                                maxd,
                                p,
                            ));
                            assert(cell_coord(p.x as int, g) == key.0 && cell_coord(p.y as int, g)
                                == key.1);
                            assert(!cand(current, g, maxd, p));
                        }
                    }
                }
            }
            j += 1;
        }
        c += 1;
    }
    proof {
        match best {
            Some(id) => {
                assert(rset.contains(pts[id as int])) by {
                    assert(pts[id as int] == pts[id as int] && !visited@[id as int]);
                }
                assert forall|q: Point| rset.contains(q) && #[trigger] cand(
                    current,
                    g,
                    maxd,
                    q,
                ) implies better(current, pts[id as int], q) by {
                    let qid = choose|qid: int|
                        0 <= qid < pts.len() && (#[trigger] pts[qid]) == q && !visited@[qid];
                    assert(spatial_index.covered(qid));
                    let (cc, jj): (int, int) = choose|cc: int, jj: int|
                        0 <= cc < spatial_index.cells@.len() && 0 <= jj
                            < spatial_index.cells@[cc].2@.len() && (
                        #[trigger] spatial_index.cells@[cc].2@[jj]) == qid;
                    assert(better(current, pts[id as int], pts[qid]));
                }
                assert(is_best_next(current, g, maxd, rset, pts[id as int]));
            },
            None => {
                if has_next(current, g, maxd, rset) {
                    let p = choose|p: Point| is_best_next(current, g, maxd, rset, p);
                    let qid = choose|qid: int|
                        0 <= qid < pts.len() && (#[trigger] pts[qid]) == p && !visited@[qid];
                    assert(spatial_index.covered(qid));
                    let (cc, jj): (int, int) = choose|cc: int, jj: int|
                        0 <= cc < spatial_index.cells@.len() && 0 <= jj
                            < spatial_index.cells@[cc].2@.len() && (
                        #[trigger] spatial_index.cells@[cc].2@[jj]) == qid;
                    assert(!(!visited@[qid] && cand(current, g, maxd, pts[qid])));
                    assert(false);
                }
            },
        }
    }
    best
}

/// Appending a point to a sequence adds exactly that point.
pub proof fn lemma_push_contains(s: Seq<Point>, x: Point)
    ensures
        forall|q: Point| #[trigger] s.push(x).contains(q) <==> s.contains(q) || q == x,
{
    assert forall|q: Point| #[trigger] s.push(x).contains(q) implies s.contains(q) || q == x by {
        let i = choose|i: int| 0 <= i < s.push(x).len() && s.push(x)[i] == q;
        if i < s.len() {
            assert(s[i] == q);
        }
    }
    assert forall|q: Point| s.contains(q) || q == x implies #[trigger] s.push(x).contains(q) by {
        if q == x {
            assert(s.push(x)[s.len() as int] == q);
        } else {
            let i = choose|i: int| 0 <= i < s.len() && s[i] == q;
            assert(s.push(x)[i] == q);
        }
    }
}

/// Traces one path: starts at the given unvisited point, marks it, and
/// repeatedly appends the nearest unvisited point within the radius until
/// none is left.
pub fn trace_line(
    start: usize,
    spatial_index: &SpatialIndex,
    visited: &mut Vec<bool>,
    max_distance: i32,
) -> (line: Vec<Point>)
    requires
        spatial_index.wf(),
        spatial_index.points@.no_duplicates(),
        old(visited)@.len() == spatial_index.points@.len(),
        spatial_index.grid_size == cell_size(max_distance as int),
        start < spatial_index.points@.len(),
        !old(visited)@[start as int],
    ensures
        final(visited)@.len() == old(visited)@.len(),
        line@ == seq![spatial_index.points@[start as int]] + trace_rest(
            spatial_index.points@[start as int],
            spatial_index.grid_size as int,
            max_distance as int,
            unvisited_set(spatial_index.points@, old(visited)@.update(start as int, true)),
        ),
        forall|id: int|
            0 <= id < final(visited)@.len() ==> (#[trigger] final(visited)@[id]) == (old(
            visited,
        )@[id] || line@.contains(spatial_index.points@[id])),
{
    let ghost pts = spatial_index.points@;
    let ghost g = spatial_index.grid_size as int;
    let ghost maxd = max_distance as int;
    let mut line: Vec<Point> = Vec::new();
    let p0 = spatial_index.points[start];
    line.push(p0);
    visited.set(start, true);
    proof {
        lemma_unvisited_mark(pts, old(visited)@, start as int);
        assert(line@ =~= seq![p0]);
    }
    let ghost r0 = unvisited_set(pts, visited@);
    let mut last: Point = p0;
    let mut done: bool = false;
    while !done
        invariant
            spatial_index.wf(),
            pts.no_duplicates(),
            pts == spatial_index.points@,
            g == spatial_index.grid_size as int,
            maxd == max_distance as int,
            spatial_index.grid_size == cell_size(maxd),
            start < pts.len(),
            p0 == pts[start as int],
            visited@.len() == pts.len(),
            line@.len() >= 1,
            last == line@.last(),
            r0 == unvisited_set(pts, old(visited)@.update(start as int, true)),
            line@ + trace_rest(last, g, maxd, unvisited_set(pts, visited@)) == seq![p0]
                + trace_rest(p0, g, maxd, r0),
            done ==> !has_next(last, g, maxd, unvisited_set(pts, visited@)),
            forall|id: int|
                0 <= id < pts.len() ==> (#[trigger] visited@[id]) == (old(visited)@[id]
                    || line@.contains(pts[id])),
        decreases unvisited_set(pts, visited@).len(), (if done {
            0int
        } else {
            1int
        }),
    {
        proof {
            lemma_unvisited_finite(pts, visited@);
        }
        let r = find_next_point(last, spatial_index, visited, max_distance);
        match r {
            Some(id) => {
                let p = spatial_index.points[id];
                let ghost rc = unvisited_set(pts, visited@);
                let ghost old_line = line@;
                proof {
                    assert(has_next(last, g, maxd, rc)) by {
                        assert(is_best_next(last, g, maxd, rc, pts[id as int]));
                    }
                    lemma_best_unique(
                        last,
                        g,
                        maxd,
                        rc,
                        next_point(last, g, maxd, rc),
                        pts[id as int],
                    );
                    assert(trace_rest(last, g, maxd, rc) == seq![p] + trace_rest(
                        p,
                        g,
                        maxd,
                        rc.remove(p),
                    ));
                    lemma_unvisited_mark(pts, visited@, id as int);
                }
                line.push(p);
                visited.set(id, true);
                last = p;
                proof {
                    assert(line@ == old_line.push(p));
                    assert(old_line + (seq![p] + trace_rest(
                        p,
                        g,
                        maxd,
                        rc.remove(p),
                    )) =~= old_line.push(p) + trace_rest(p, g, maxd, rc.remove(p)));
                    assert(unvisited_set(pts, visited@) =~= rc.remove(p));
                    lemma_push_contains(old_line, p);
                    assert forall|id2: int|
                        0 <= id2 < pts.len() implies (#[trigger] visited@[id2]) == (old(
                        visited,
                    )@[id2] || line@.contains(pts[id2])) by {
                        if id2 == id {
                            assert(line@.contains(pts[id2]));
                        } else {
                            if pts[id2] == p {
                                assert(pts[id2] == pts[id as int]);
                                assert(id2 == id);
                            }
                        }
                    }
                }
            },
            None => {
                done = true;
            },
        }
    }
    proof {
        lemma_unvisited_finite(pts, visited@);
        assert(trace_rest(last, g, maxd, unvisited_set(pts, visited@)) =~= Seq::<Point>::empty());
        assert(line@ + Seq::<Point>::empty() =~= line@);
        assert(seq![p0] + trace_rest(p0, g, maxd, r0) =~= line@);
    }
    line
}


/// The points of two concatenated sequences.
pub proof fn lemma_concat_contains(a: Seq<Point>, b: Seq<Point>)
    ensures
        forall|q: Point| #[trigger] (a + b).contains(q) <==> a.contains(q) || b.contains(q),
{
    assert forall|q: Point| #[trigger] (a + b).contains(q) implies a.contains(q) || b.contains(
        q,
    ) by {
        let i = choose|i: int| 0 <= i < (a + b).len() && (a + b)[i] == q;
        if i < a.len() {
            assert(a[i] == q);
        } else {
            assert(b[i - a.len()] == q);
        }
    }
    assert forall|q: Point| a.contains(q) || b.contains(q) implies #[trigger] (a + b).contains(
        q,
    ) by {
        if a.contains(q) {
            let i = choose|i: int| 0 <= i < a.len() && a[i] == q;
            assert((a + b)[i] == q);
        } else {
            let i = choose|i: int| 0 <= i < b.len() && b[i] == q;
            assert((a + b)[a.len() + i] == q);
        }
    }
}

/// Sorting points keeps their set and their distinctness.
pub proof fn lemma_sort_points_set(pts: Seq<Point>)
    ensures
        sort_spec(yx_order(), pts).to_set() =~= pts.to_set(),
        pts.no_duplicates() ==> sort_spec(yx_order(), pts).no_duplicates(),
{
    broadcast use vstd::seq_lib::group_to_multiset_ensures;

    let sorted = sort_spec(yx_order(), pts);
    crate::sorting::lemma_sort_spec_multiset(yx_order(), pts);
    assert forall|p: Point| sorted.to_set().contains(p) implies pts.to_set().contains(p) by {
        assert(sorted.to_multiset().contains(p));
        assert(pts.to_multiset().contains(p));
    }
    assert forall|p: Point| pts.to_set().contains(p) implies sorted.to_set().contains(p) by {
        assert(pts.to_multiset().contains(p));
        assert(sorted.to_multiset().contains(p));
    }
    if pts.no_duplicates() {
        pts.lemma_multiset_has_no_duplicates();
        sorted.lemma_multiset_has_no_duplicates_conv();
    }
}

/// Sorts points in scan order: by row, then by column.
pub fn sort_points(v: &Vec<Point>) -> (r: Vec<Point>)
    ensures
        r@ == sort_spec(yx_order(), v@),
{
    let mut out: Vec<Point> = Vec::new();
    let ghost lt = yx_order();
    let mut i: usize = 0;
    while i < v.len()
        invariant
            0 <= i <= v@.len(),
            out@ == sort_spec(lt, v@.take(i as int)),
            lt == yx_order(),
        decreases v@.len() - i,
    {
        let x = v[i];
        let mut k: usize = 0;
        while k < out.len() && !(x.y < out[k].y || (x.y == out[k].y && x.x < out[k].x))
            invariant
                0 <= k <= out@.len(),
                forall|j: int| 0 <= j < k ==> !lt(x, #[trigger] out@[j]),
                lt == yx_order(),
            decreases out@.len() - k,
        {
            k += 1;
        }
        proof {
            lemma_insert_sorted_at(lt, x, out@, k as int);
            assert(v@.take(i + 1).drop_last() =~= v@.take(i as int));
            assert(v@.take(i + 1).last() == v@[i as int]);
            assert(out@.take(k as int) + seq![x] + out@.skip(k as int) =~= out@.insert(
                k as int,
                x,
            ));
        }
        out.insert(k, x);
        i += 1;
    }
    proof {
        assert(v@.take(v@.len() as int) =~= v@);
    }
    out
}

/// Whether the first path comes before the second in replay order.
fn line_before(a: &Vec<Point>, b: &Vec<Point>) -> (r: bool)
    ensures
        r == line_order()(a@, b@),
{
    if a.len() > b.len() {
        true
    } else if a.len() == b.len() && a.len() > 0 {
        let pa = a[0];
        let pb = b[0];
        pa.y < pb.y || (pa.y == pb.y && pa.x < pb.x)
    } else {
        false
    }
}

/// Sorts paths into replay order: by falling length, then by starting point.
fn sort_lines(v: Vec<Vec<Point>>) -> (r: Vec<Vec<Point>>)
    ensures
        views(r@) == sort_spec(line_order(), views(v@)),
{
    let mut v = v;
    let n0 = v.len();
    let ghost orig = v@;
    let ghost lt = line_order();
    let mut out: Vec<Vec<Point>> = Vec::new();
    let mut i: usize = 0;
    proof {
        assert(views(orig.take(0)) =~= Seq::<Seq<Point>>::empty());
        assert(orig.skip(0) =~= orig);
    }
    while v.len() > 0
        invariant
            orig.len() == n0,
            0 <= i <= orig.len(),
            v@ == orig.skip(i as int),
            views(out@) == sort_spec(lt, views(orig.take(i as int))),
            lt == line_order(),
        decreases v@.len(),
    {
        proof {
            assert(v@.len() == orig.len() - i);
            assert(i < orig.len());
        }
        let x = v.remove(0);
        let mut k: usize = 0;
        while k < out.len() && !line_before(&x, &out[k])
            invariant
                0 <= k <= out@.len(),
                forall|j: int| 0 <= j < k ==> !lt(x@, #[trigger] views(out@)[j]),
                lt == line_order(),
            decreases out@.len() - k,
        {
            k += 1;
        }
        proof {
            assert(x@ == views(orig)[i as int]);
            lemma_insert_sorted_at(lt, x@, views(out@), k as int);
            assert(views(orig.take(i + 1)).drop_last() =~= views(orig.take(i as int)));
            assert(views(orig.take(i + 1)).last() == orig[i as int]@);
            assert(views(out@.insert(k as int, x)) =~= views(out@).take(k as int) + seq![x@]
                + views(out@).skip(k as int));
            assert(orig.skip(i as int).drop_first() =~= orig.skip(i + 1));
        }
        out.insert(k, x);
        i += 1;
    }
    proof {
        assert(orig.take(orig.len() as int) =~= orig);
        assert(views(orig.take(orig.len() as int)) =~= views(orig));
    }
    out
}

/// Traces all paths of a point set: sorts the points in scan order, traces
/// greedily through a spatial index, drops paths of at most two points, and
/// returns the rest ordered by falling length.
pub fn find_connected_components(points: Vec<Point>, max_distance: i32) -> (lines: Vec<Vec<Point>>)
    requires
        points@.no_duplicates(),
    ensures
        views(lines@) == trace_spec(points@, max_distance as int),
{
    let ghost maxd = max_distance as int;
    let g: i32 = if max_distance >= 1 {
        max_distance
    } else {
        1
    };
    let sorted = sort_points(&points);
    let ghost sp = sorted@;
    proof {
        lemma_sort_points_set(points@);
    }
    let spatial_index = build_spatial_index(&sorted, g);
    let n = sorted.len();
    let mut visited: Vec<bool> = Vec::new();
    while visited.len() < n
        invariant
            visited@.len() <= n,
            forall|id: int| 0 <= id < visited@.len() ==> !(#[trigger] visited@[id]),
        decreases n - visited@.len(),
    {
        visited.push(false);
    }
    let ghost r0 = points@.to_set();
    proof {
        assert(unvisited_set(sp, visited@) =~= r0) by {
            assert forall|p: Point| unvisited_set(sp, visited@).contains(p) implies r0.contains(
                p,
            ) by {
                let id = choose|id: int|
                    0 <= id < sp.len() && (#[trigger] sp[id]) == p && !visited@[id];
                assert(sp.to_set().contains(p));
            }
            assert forall|p: Point| r0.contains(p) implies unvisited_set(sp, visited@).contains(
                p,
            ) by {
                assert(sp.to_set().contains(p));
                let id = choose|id: int| 0 <= id < sp.len() && sp[id] == p;
                assert(sp[id] == p && !visited@[id]);
            }
        }
    }
    let mut lines: Vec<Vec<Point>> = Vec::new();
    let mut all_g: Ghost<Seq<Seq<Point>>> = Ghost(Seq::empty());
    let mut i: usize = 0;
    proof {
        assert(sp.skip(0) =~= sp);
        assert(Seq::<Seq<Point>>::empty() + trace_lines(sp, unvisited_set(sp, visited@), g as int, maxd)
            =~= trace_lines(sp, unvisited_set(sp, visited@), g as int, maxd));
        assert(views(lines@) =~= Seq::<Seq<Point>>::empty());
        assert(Seq::<Seq<Point>>::empty().filter(kept_pred()) =~= Seq::<Seq<Point>>::empty());
        assert(trace_lines(sp, r0, g as int, maxd) == trace_lines(
            sp,
            unvisited_set(sp, visited@),
            g as int,
            maxd,
        ));
    }
    while i < n
        invariant
            spatial_index.wf(),
            sp.no_duplicates(),
            sp == spatial_index.points@,
            spatial_index.grid_size == cell_size(maxd),
            g as int == cell_size(maxd),
            n == sp.len(),
            visited@.len() == n,
            maxd == max_distance as int,
            0 <= i <= n,
            trace_lines(sp, r0, g as int, maxd) == all_g@ + trace_lines(
                sp.skip(i as int),
                unvisited_set(sp, visited@),
                g as int,
                maxd,
            ),
            views(lines@) == all_g@.filter(kept_pred()),
        decreases n - i,
    {
        let ghost rcur = unvisited_set(sp, visited@);
        let ghost p0 = sp[i as int];
        proof {
            assert(sp.skip(i as int).len() == n - i);
            assert(sp.skip(i as int)[0] == sp[i as int]);
            assert(sp.skip(i as int).drop_first() =~= sp.skip(i + 1));
        }
        if !visited[i] {
            proof {
                assert(rcur.contains(p0)) by {
                    assert(sp[i as int] == p0 && !visited@[i as int]);
                }
                lemma_unvisited_mark(sp, visited@, i as int);
                lemma_unvisited_finite(sp, visited@);
            }
            let ghost vis_before = visited@;
            let line = trace_line(i, &spatial_index, &mut visited, max_distance);
            let ghost rest = trace_rest(p0, g as int, maxd, rcur.remove(p0));
            let ghost lview = line@;
            proof {
                assert(unvisited_set(sp, vis_before.update(i as int, true)) =~= rcur.remove(p0));
                assert(lview == seq![p0] + rest);
                assert(lview[0] == p0);
                lemma_concat_contains(seq![p0], rest);
                let rnext = rcur.remove(p0).difference(rest.to_set());
                assert(trace_lines(sp.skip(i as int), rcur, g as int, maxd) == seq![lview]
                    + trace_lines(sp.skip(i + 1), rnext, g as int, maxd)) by {
                    assert(sp.skip(i as int).drop_first() == sp.skip(i + 1));
                }
                assert(unvisited_set(sp, visited@) =~= rnext) by {
                    assert forall|p: Point| unvisited_set(sp, visited@).contains(p) implies
                        rnext.contains(p) by {
                        let id = choose|id: int|
                            0 <= id < sp.len() && (#[trigger] sp[id]) == p && !visited@[id];
                        assert(!vis_before[id] && !lview.contains(sp[id]));
                        assert(rcur.contains(p)) by {
                            assert(sp[id] == p && !vis_before[id]);
                        }
                        assert(p != p0);
                        assert(!rest.contains(p));
                    }
                    assert forall|p: Point| rnext.contains(p) implies unvisited_set(
                        sp,
                        visited@,
                    ).contains(p) by {
                        assert(rcur.contains(p) && p != p0 && !rest.to_set().contains(p));
                        let id = choose|id: int|
                            0 <= id < sp.len() && (#[trigger] sp[id]) == p && !vis_before[id];
                        assert(!lview.contains(p));
                        assert(!visited@[id]);
                        assert(sp[id] == p && !visited@[id]);
                    }
                }
                assert(all_g@ + (seq![lview] + trace_lines(sp.skip(i + 1), rnext, g as int, maxd))
                    =~= all_g@.push(lview) + trace_lines(sp.skip(i + 1), rnext, g as int, maxd));
                Seq::filter_distributes_over_add(all_g@, seq![lview], kept_pred());
                assert(all_g@.push(lview) =~= all_g@ + seq![lview]);
                assert(Seq::<Seq<Point>>::empty().filter(kept_pred())
                    =~= Seq::<Seq<Point>>::empty());
                assert(seq![lview].drop_last() =~= Seq::<Seq<Point>>::empty());
                assert(seq![lview].filter(kept_pred()) == (if kept_pred()(lview) {
                    Seq::<Seq<Point>>::empty().push(lview)
                } else {
                    Seq::<Seq<Point>>::empty()
                })) by {
                    reveal_with_fuel(Seq::filter, 3);
                    assert(seq![lview].len() == 1);
                    assert(seq![lview].last() == lview);
                    assert(seq![lview].drop_last() =~= Seq::<Seq<Point>>::empty());
                }
                assert(all_g@.push(lview).filter(kept_pred()) == (if kept_pred()(lview) {
                    all_g@.filter(kept_pred()).push(lview)
                } else {
                    all_g@.filter(kept_pred())
                })) by {
                    if kept_pred()(lview) {
                        assert(all_g@.filter(kept_pred()) + Seq::<Seq<Point>>::empty().push(lview)
                            =~= all_g@.filter(kept_pred()).push(lview));
                    } else {
                        assert(all_g@.filter(kept_pred()) + Seq::<Seq<Point>>::empty()
                            =~= all_g@.filter(kept_pred()));
                    }
                }
            }
            let ghost old_lines = lines@;
            if line.len() > 2 {
                lines.push(line);
                proof {
                    assert(is_kept(lview) && kept_pred()(lview));
                    assert(views(lines@) =~= views(old_lines).push(lview));
                }
            } else {
                proof {
                    assert(!is_kept(lview) && !kept_pred()(lview));
                }
            }
            proof {
                all_g@ = all_g@.push(lview);
            }
        } else {
            proof {
                assert(!rcur.contains(p0)) by {
                    if rcur.contains(p0) {
                        let id = choose|id: int|
                            0 <= id < sp.len() && (#[trigger] sp[id]) == p0 && !visited@[id];
                        assert(sp[id] == sp[i as int]);
                        assert(id == i);
                    }
                }
                assert(trace_lines(sp.skip(i as int), rcur, g as int, maxd) == trace_lines(
                    sp.skip(i + 1),
                    rcur,
                    g as int,
                    maxd,
                )) by {
                    assert(sp.skip(i as int).drop_first() == sp.skip(i + 1));
                }
            }
        }
        i += 1;
    }
    proof {
        assert(sp.skip(n as int) =~= Seq::<Point>::empty());
        assert(trace_lines(Seq::<Point>::empty(), unvisited_set(sp, visited@), g as int, maxd)
            =~= Seq::<Seq<Point>>::empty());
        assert(all_g@ + Seq::<Seq<Point>>::empty() =~= all_g@);
        assert(all_g@ == trace_lines(sp, r0, g as int, maxd));
    }
    let out = sort_lines(lines);
    proof {
        assert(sp == sort_spec(yx_order(), points@));
        assert(views(out@) == trace_spec(points@, maxd));
    }
    out
}

} // verus!


