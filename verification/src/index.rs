//! The spatial index: buckets points into fixed-size grid cells so that the
//! tracer can look up neighbours within a bounded radius.

use crate::geometry::Point;
use vstd::arithmetic::div_mod::{lemma_fundamental_div_mod, lemma_fundamental_div_mod_converse};
use vstd::prelude::*;

verus! {

/// The cell column of a coordinate: the floored quotient by the cell size.
pub open spec fn cell_coord(v: int, g: int) -> int {
    v / g
}

/// Floored division of a coordinate by a positive cell size.
pub fn floor_div(a: i64, b: i64) -> (q: i64)
    requires
        b >= 1,
        -0x1_0000_0000 <= a <= 0x1_0000_0000,
        b <= 0x1_0000_0000,
    ensures
        q == cell_coord(a as int, b as int),
        -0x3_0000_0000 <= q <= 0x1_0000_0000,
{
    if a >= 0 {
        let q = (a as u64) / (b as u64);
        proof {
            assert((a as int) / (b as int) == (a as u64) as int / (b as u64) as int);
            vstd::arithmetic::div_mod::lemma_div_nonincreasing(a as int, b as int);
            vstd::arithmetic::div_mod::lemma_div_pos_is_pos(a as int, b as int);
        }
        q as i64
    } else {
        let m = (-a) as u64;
        let bu = b as u64;
        let q = (m + (bu - 1)) / bu;
        proof {
            vstd::arithmetic::div_mod::lemma_div_nonincreasing((m + (bu - 1)) as int, bu as int);
            vstd::arithmetic::div_mod::lemma_div_pos_is_pos((m + (bu - 1)) as int, bu as int);
            let mi = m as int;
            let bi = b as int;
            let qi = q as int;
            lemma_fundamental_div_mod(mi + bi - 1, bi);
            let r = (mi + bi - 1) % bi;
            assert(0 <= r < bi);
            assert(mi + bi - 1 == bi * qi + r);
            assert(bi * qi == qi * bi) by (nonlinear_arith);
            assert(0 <= qi * bi - mi < bi);
            assert((-qi) * bi == -(qi * bi)) by (nonlinear_arith);
            lemma_fundamental_div_mod_converse(-mi, bi, -qi, qi * bi - mi);
        }
        -(q as i64)
    }
}

/// A spatial index: the indexed points, and for each occupied cell its key
/// and the indices of the points inside it.
pub struct SpatialIndex {
    /// The cell size; neighbour lookups cover three cells a side.
    pub grid_size: i64,
    /// All indexed points, in the order they were given.
    pub points: Vec<Point>,
    /// The occupied cells: key column, key row, point indices.
    pub cells: Vec<(i64, i64, Vec<usize>)>,
}

impl SpatialIndex {
    /// The cell key of a point under this index's cell size.
    pub open spec fn key_of(self, p: Point) -> (int, int) {
        (cell_coord(p.x as int, self.grid_size as int), cell_coord(p.y as int, self.grid_size as int))
    }

    /// Whether some cell stores the point index `id`.
    pub open spec fn covered(self, id: int) -> bool {
        exists|c: int, j: int|
            0 <= c < self.cells@.len() && 0 <= j < self.cells@[c].2@.len() && (
            #[trigger] self.cells@[c].2@[j]) == id
    }

    /// Well-formedness: a positive cell size, distinct cell keys, every
    /// stored index a real point lying in its cell, and every point stored
    /// in the cell of its key.
    pub open spec fn wf(self) -> bool {
        &&& 1 <= self.grid_size <= 0x1_0000_0000
        &&& forall|c1: int, c2: int|
            0 <= c1 < c2 < self.cells@.len() ==> !((#[trigger] self.cells@[c1]).0
                == (#[trigger] self.cells@[c2]).0 && self.cells@[c1].1 == self.cells@[c2].1)
        &&& forall|c: int, j: int|
            0 <= c < self.cells@.len() && 0 <= j < (#[trigger] self.cells@[c]).2@.len() ==> {
                let id = #[trigger] self.cells@[c].2@[j];
                &&& id < self.points@.len()
                &&& (self.cells@[c].0 as int, self.cells@[c].1 as int) == self.key_of(
                    self.points@[id as int],
                )
            }
        &&& forall|id: int| 0 <= id < self.points@.len() ==> #[trigger] self.covered(id)
    }
}

/// Builds a spatial index over the given points with the given cell size:
/// one entry per occupied cell, holding every point of that cell.
pub fn build_spatial_index(points: &Vec<Point>, grid_size: i32) -> (r: SpatialIndex)
    requires
        grid_size >= 1,
    ensures
        r.wf(),
        r.grid_size == grid_size as int,
        r.points@ == points@,
{
    let gs: i64 = grid_size as i64;
    let pts = clone_points(points);
    let n = pts.len();
    let mut cells: Vec<(i64, i64, Vec<usize>)> = Vec::new();
    let mut i: usize = 0;
    while i < n
        invariant
            1 <= gs <= 0x1_0000_0000,
            pts@ == points@,
            n == pts@.len(),
            0 <= i <= n,
            forall|c1: int, c2: int|
                0 <= c1 < c2 < cells@.len() ==> !((#[trigger] cells@[c1]).0 == (
                #[trigger] cells@[c2]).0 && cells@[c1].1 == cells@[c2].1),
            forall|c: int, j: int|
                0 <= c < cells@.len() && 0 <= j < (#[trigger] cells@[c]).2@.len() ==> {
                    let id = #[trigger] cells@[c].2@[j];
                    &&& id < n
                    &&& cells@[c].0 as int == cell_coord(pts@[id as int].x as int, gs as int)
                    &&& cells@[c].1 as int == cell_coord(pts@[id as int].y as int, gs as int)
                },
            forall|id: int|
                #![trigger pts@[id]]
                0 <= id < i ==> exists|c: int|
                    0 <= c < cells@.len() && (#[trigger] cells@[c]).0 as int == cell_coord(
                        pts@[id].x as int,
                        gs as int,
                    ) && cells@[c].1 as int == cell_coord(pts@[id].y as int, gs as int),
            forall|c: int, id: int|
                #![trigger cells@[c], pts@[id]]
                0 <= c < cells@.len() && 0 <= id < n && cells@[c].0 as int == cell_coord(
                    pts@[id].x as int,
                    gs as int,
                ) && cells@[c].1 as int == cell_coord(pts@[id].y as int, gs as int) ==> exists|
                    j: int,
                |
                    0 <= j < cells@[c].2@.len() && (#[trigger] cells@[c].2@[j]) == id,
        decreases n - i,
    {
        let p = pts[i];
        let kx = floor_div(p.x as i64, gs);
        let ky = floor_div(p.y as i64, gs);
        let mut c: usize = 0;
        let mut found: bool = false;
        let nc = cells.len();
        while c < nc && !found
            invariant
                nc == cells@.len(),
                0 <= c <= nc,
                found ==> c < nc && cells@[c as int].0 == kx && cells@[c as int].1 == ky,
                !found ==> forall|cc: int|
                    0 <= cc < c ==> !((#[trigger] cells@[cc]).0 == kx && cells@[cc].1 == ky),
            decreases nc - c + (if found {
                0int
            } else {
                1int
            }),
        {
            if cells[c].0 == kx && cells[c].1 == ky {
                found = true;
            } else {
                c += 1;
            }
        }
        if !found {
            // A new cell: collect every point that falls into it.
            let mut ids: Vec<usize> = Vec::new();
            let mut j: usize = 0;
            while j < n
                invariant
                    1 <= gs <= 0x1_0000_0000,
                    pts@ == points@,
                    n == pts@.len(),
                    0 <= j <= n,
                    forall|jj: int|
                        0 <= jj < ids@.len() ==> {
                            let id = #[trigger] ids@[jj];
                            &&& id < n
                            &&& kx as int == cell_coord(pts@[id as int].x as int, gs as int)
                            &&& ky as int == cell_coord(pts@[id as int].y as int, gs as int)
                        },
                    forall|id: int|
                        #![trigger pts@[id]]
                        0 <= id < j && kx as int == cell_coord(pts@[id].x as int, gs as int)
                            && ky as int == cell_coord(pts@[id].y as int, gs as int) ==> exists|
                            jj: int,
                        |
                            0 <= jj < ids@.len() && (#[trigger] ids@[jj]) == id,
                decreases n - j,
            {
                let q = pts[j];
                let qx = floor_div(q.x as i64, gs);
                let qy = floor_div(q.y as i64, gs);
                let ghost old_ids = ids@;
                if qx == kx && qy == ky {
                    ids.push(j);
                }
                proof {
                    assert forall|id: int|
                        #![trigger pts@[id]]
                        0 <= id < j + 1 && kx as int == cell_coord(pts@[id].x as int, gs as int)
                            && ky as int == cell_coord(pts@[id].y as int, gs as int) implies exists|
                        jj: int,
                    |
                        0 <= jj < ids@.len() && (#[trigger] ids@[jj]) == id by {
                        if id == j {
                            assert(ids@[ids@.len() - 1] == id);
                        } else {
                            let jj = choose|jj: int|
                                0 <= jj < old_ids.len() && (#[trigger] old_ids[jj]) == id;
                            assert(ids@[jj] == id);
                        }
                    }
                }
                j += 1;
            }
            let ghost old_cells = cells@;
            let ghost final_ids = ids@;
            cells.push((kx, ky, ids));
            proof {
                let nc2 = cells@.len() as int;
                assert(cells@[nc2 - 1].0 == kx && cells@[nc2 - 1].1 == ky);
                assert(cells@[nc2 - 1].2@ == final_ids);
                assert forall|id: int|
                    #![trigger pts@[id]]
                    0 <= id < i + 1 implies exists|cc: int|
                    0 <= cc < cells@.len() && (#[trigger] cells@[cc]).0 as int == cell_coord(
                        pts@[id].x as int,
                        gs as int,
                    ) && cells@[cc].1 as int == cell_coord(pts@[id].y as int, gs as int) by {
                    if id == i {
                        assert(cells@[nc2 - 1].0 as int == cell_coord(pts@[id].x as int, gs as int)
                            && cells@[nc2 - 1].1 as int == cell_coord(pts@[id].y as int, gs as int));
                    } else {
                        let cc = choose|cc: int|
                            0 <= cc < old_cells.len() && (#[trigger] old_cells[cc]).0 as int
                                == cell_coord(pts@[id].x as int, gs as int) && old_cells[cc].1 as int
                                == cell_coord(pts@[id].y as int, gs as int);
                        assert(cells@[cc] == old_cells[cc]);
                    }
                }
                assert forall|c: int, id: int|
                    #![trigger cells@[c], pts@[id]]
                    0 <= c < cells@.len() && 0 <= id < n && cells@[c].0 as int == cell_coord(
                        pts@[id].x as int,
                        gs as int,
                    ) && cells@[c].1 as int == cell_coord(pts@[id].y as int, gs as int) implies
                    exists|jjj: int|
                    0 <= jjj < cells@[c].2@.len() && (#[trigger] cells@[c].2@[jjj]) == id by {
                    if c == nc2 - 1 {
                        assert(pts@[id] == pts@[id]);
                        let jj = choose|jj: int|
                            0 <= jj < final_ids.len() && (#[trigger] final_ids[jj]) == id;
                        assert(cells@[c].2@[jj] == id);
                    } else {
                        assert(cells@[c] == old_cells[c]);
                        let jj = choose|jj: int|
                            0 <= jj < old_cells[c].2@.len() && (#[trigger] old_cells[c].2@[jj])
                                == id;
                        assert(cells@[c].2@[jj] == id);
                    }
                }
            }
        } else {
            proof {
                assert forall|id: int|
                    #![trigger pts@[id]]
                    0 <= id < i + 1 implies exists|cc: int|
                    0 <= cc < cells@.len() && (#[trigger] cells@[cc]).0 as int == cell_coord(
                        pts@[id].x as int,
                        gs as int,
                    ) && cells@[cc].1 as int == cell_coord(pts@[id].y as int, gs as int) by {
                    if id == i {
                        assert(cells@[c as int].0 as int == cell_coord(pts@[id].x as int, gs as int)
                            && cells@[c as int].1 as int == cell_coord(
                            pts@[id].y as int,
                            gs as int,
                        ));
                    }
                }
            }
        }
        i += 1;
    }
    let ghost cs = cells@;
    let ghost ps = pts@;
    let idx = SpatialIndex { grid_size: gs, points: pts, cells };
    proof {
        assert(idx.cells@ == cs && idx.points@ == ps);
        assert forall|id: int|
            #![trigger ps[id]]
            0 <= id < ps.len() implies exists|c: int, j: int|
            0 <= c < cs.len() && 0 <= j < cs[c].2@.len() && (#[trigger] cs[c].2@[j]) == id by {
            let cx = cell_coord(ps[id].x as int, gs as int);
            let cy = cell_coord(ps[id].y as int, gs as int);
            let c = choose|c: int|
                0 <= c < cs.len() && (#[trigger] cs[c]).0 as int == cx && cs[c].1 as int == cy;
            assert(cs[c].0 as int == cell_coord(ps[id].x as int, gs as int) && cs[c].1 as int
                == cell_coord(ps[id].y as int, gs as int));
            let j = choose|j: int|
                0 <= j < cs[c].2@.len() && (#[trigger] cs[c].2@[j]) == id;
            assert(cs[c].2@[j] == id);
        }
        assert forall|id: int| 0 <= id < idx.points@.len() implies #[trigger] idx.covered(
            id,
        ) by {
            assert(0 <= id < ps.len());
            let pterm = ps[id];
            assert(exists|c: int, j: int|
                0 <= c < cs.len() && 0 <= j < cs[c].2@.len() && (#[trigger] cs[c].2@[j]) == id);
            let (c, j): (int, int) = choose|c: int, j: int|
                0 <= c < cs.len() && 0 <= j < cs[c].2@.len() && (#[trigger] cs[c].2@[j]) == id;
            assert(idx.cells@[c].2@[j] == id);
        }
    }
    idx
}

/// A plain copy of a point vector.
fn clone_points(points: &Vec<Point>) -> (r: Vec<Point>)
    ensures
        r@ == points@,
{
    let mut out: Vec<Point> = Vec::new();
    let mut i: usize = 0;
    while i < points.len()
        invariant
            0 <= i <= points@.len(),
            out@ == points@.take(i as int),
        decreases points@.len() - i,
    {
        let p = points[i];
        out.push(p);
        proof {
            assert(points@.take(i + 1) =~= points@.take(i as int).push(points@[i as int]));
        }
        i += 1;
    }
    proof {
        assert(points@.take(points@.len() as int) =~= points@);
    }
    out
}

} // verus!
