//! Navigation mesh vocabulary and the triangulation of flat grids.

use vstd::prelude::*;

verus! {

/// A navigation triangle: three vertex indices, the triangle across each
/// edge (if any), its area type and flag bits.
#[derive(Debug, Clone, Copy)]
pub struct NavTriangle {
    pub vertices: [usize; 3],
    pub neighbors: [Option<usize>; 3],
    pub area_type: u8,
    pub flags: u32,
}

/// Outcome of a path query.
#[derive(Debug, Clone, Copy, PartialEq, Eq, Structural)]
pub enum PathStatus {
    Complete,
    Partial,
    Invalid,
}

/// Quality of an agent's obstacle avoidance; `Disabled` avoids nothing.
#[derive(Debug, Clone, Copy, PartialEq, Eq, Structural)]
pub enum ObstacleAvoidanceQuality {
    Disabled,
    LowQuality,
    MedQuality,
    GoodQuality,
    HighQuality,
}

/// How an agent traverses an off-mesh link.
#[derive(Debug, Clone, Copy, PartialEq, Eq, Structural)]
pub enum OffMeshConnectionType {
    Jump,
    Drop,
    Ladder,
    Teleport,
    Custom,
}

/// Tabs of the navigation mesh editor.
#[derive(Debug, Clone, Copy, PartialEq, Eq, Structural)]
pub enum NavMeshEditorTab {
    Build,
    Areas,
    Agents,
    OffMeshLinks,
    Visualization,
    Debug,
}

/// What the navigation mesh overlay draws; `Hidden` draws nothing.
#[derive(Debug, Clone, Copy, PartialEq, Eq, Structural)]
pub enum NavMeshVisualizationMode {
    Hidden,
    Triangles,
    Walkable,
    Areas,
    Regions,
    Portals,
}

/// Whether `t` is a walkable triangle on corners `a`, `b`, `c` with no
/// neighbours recorded.
pub open spec fn is_plain_triangle(t: NavTriangle, a: int, b: int, c: int) -> bool {
    &&& t.vertices[0] == a
    &&& t.vertices[1] == b
    &&& t.vertices[2] == c
    &&& t.neighbors[0] is None
    &&& t.neighbors[1] is None
    &&& t.neighbors[2] is None
    &&& t.area_type == 0
    &&& t.flags == 0
}

/// The two triangles of grid cell `(iz, ix)` of a grid of `r` x `r` cells,
/// whose `(r + 1)^2` vertices are numbered row by row.
pub open spec fn grid_cell_triangles(tris: Seq<NavTriangle>, r: int, iz: int, ix: int) -> bool {
    let n = r + 1;
    let base = iz * n + ix;
    let k = 2 * (iz * r + ix);
    &&& is_plain_triangle(tris[k], base, base + 1, base + n)
    &&& is_plain_triangle(tris[k + 1], base + 1, base + n + 1, base + n)
}

proof fn lemma_cell_slots(r: int, iz: int, ix: int)
    requires
        0 <= iz < r,
        0 <= ix < r,
    ensures
        2 * (iz * r + ix) + 1 < 2 * (r * r),
        (iz * (r + 1) + ix) + (r + 1) + 1 < (r + 1) * (r + 1),
{
    assert(iz * r + ix < r * r) by (nonlinear_arith)
        requires
            0 <= iz < r,
            0 <= ix < r,
    ;
    assert((iz * (r + 1) + ix) + (r + 1) + 1 < (r + 1) * (r + 1)) by (nonlinear_arith)
        requires
            0 <= iz < r,
            0 <= ix < r,
    ;
}

/// The triangles of a flat `resolution` x `resolution` grid: cell by cell,
/// row by row, two triangles per cell. Vertex `iz * (resolution + 1) + ix`
/// is the grid point in row `iz` and column `ix`.
pub fn flat_grid_triangles(resolution: u32) -> (r: Vec<NavTriangle>)
    requires
        (resolution + 1) * (resolution + 1) <= usize::MAX,
    ensures
        r@.len() == 2 * (resolution * resolution),
        forall|iz: int, ix: int|
            0 <= iz < resolution && 0 <= ix < resolution ==> #[trigger] grid_cell_triangles(
                r@,
                resolution as int,
                iz,
                ix,
            ),
{
    let res = resolution as usize;
    assert(resolution + 1 <= (resolution + 1) * (resolution + 1)) by (nonlinear_arith);
    let n = res + 1;
    let ghost rr = res as int;
    let mut tris: Vec<NavTriangle> = Vec::new();
    let mut iz: usize = 0;
    assert(rr * rr <= (rr + 1) * (rr + 1)) by (nonlinear_arith)
        requires
            rr >= 0,
    ;
    while iz < res
        invariant
            iz <= res,
            res == resolution,
            n == res + 1,
            rr == res,
            n * n <= usize::MAX,
            tris@.len() == 2 * (iz * rr),
            forall|jz: int, jx: int|
                0 <= jz < iz && 0 <= jx < rr ==> #[trigger] grid_cell_triangles(tris@, rr, jz, jx),
        decreases res - iz,
    {
        let mut ix: usize = 0;
        while ix < res
            invariant
                iz < res,
                ix <= res,
                res == resolution,
                n == res + 1,
                rr == res,
                n * n <= usize::MAX,
                tris@.len() == 2 * (iz * rr + ix),
                forall|jz: int, jx: int|
                    (0 <= jz < iz && 0 <= jx < rr) || (jz == iz && 0 <= jx < ix)
                        ==> #[trigger] grid_cell_triangles(tris@, rr, jz, jx),
            decreases res - ix,
        {
            proof {
                lemma_cell_slots(rr, iz as int, ix as int);
            }
            let base = iz * n + ix;
            let ghost before = tris@;
            tris.push(
                NavTriangle {
                    vertices: [base, base + 1, base + n],
                    neighbors: [None, None, None],
                    area_type: 0,
                    flags: 0,
                },
            );
            tris.push(
                NavTriangle {
                    vertices: [base + 1, base + n + 1, base + n],
                    neighbors: [None, None, None],
                    area_type: 0,
                    flags: 0,
                },
            );
            proof {
                assert forall|jz: int, jx: int|
                    (0 <= jz < iz && 0 <= jx < rr) || (jz == iz && 0 <= jx < ix + 1) implies #[trigger] grid_cell_triangles(
                    tris@,
                    rr,
                    jz,
                    jx,
                ) by {
                    if jz == iz && jx == ix {
                        assert(2 * (jz * rr + jx) == before.len());
                    } else {
                        assert(grid_cell_triangles(before, rr, jz, jx));
                        assert(2 * (jz * rr + jx) + 1 < before.len()) by (nonlinear_arith)
                            requires
                                (0 <= jz < iz && 0 <= jx < rr) || (jz == iz && 0 <= jx < ix),
                                before.len() == 2 * (iz * rr + ix),
                        ;
                    }
                }
            }
            ix += 1;
        }
        assert(2 * (iz * rr + rr) == 2 * ((iz + 1) * rr)) by (nonlinear_arith);
        iz += 1;
    }
    tris
}

} // verus!
