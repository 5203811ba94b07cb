//! A uniform grid over particle indices (particles grouped by the cell they
//! fall in, and the particles of the cells around a centre cell), and the
//! thinning of a particle cloud by proximity.

use crate::mesh::is_near;
use std::collections::BTreeMap;
use vstd::prelude::*;

verus! {

broadcast use vstd::laws_cmp::group_laws_cmp;

/// Helpers for inspecting and querying particle clouds.
pub struct VisualizationHelper;

/// A grid cell, by its integer coordinates.
pub type Cell = (i32, i32, i32);

/// The indices, ascending, of the particles that fall in cell `c`.
pub open spec fn indices_in_cell(cells: Seq<Cell>, c: Cell) -> Seq<usize>
    decreases cells.len(),
{
    if cells.len() == 0 {
        Seq::empty()
    } else {
        let prev = indices_in_cell(cells.drop_last(), c);
        if cells.last() == c {
            prev.push((cells.len() - 1) as usize)
        } else {
            prev
        }
    }
}

/// The particles the grid lists for cell `c` (none where it has no entry).
pub open spec fn cell_contents(grid: Map<Cell, Vec<usize>>, c: Cell) -> Seq<usize> {
    if grid.contains_key(c) {
        grid[c]@
    } else {
        Seq::empty()
    }
}

/// The contents of cells `(x, y, z)` for `z` in `z_lo..z_hi`, in order.
pub open spec fn gather_z(grid: Map<Cell, Vec<usize>>, x: i32, y: i32, z_lo: int, z_hi: int) -> Seq<usize>
    decreases z_hi - z_lo,
{
    if z_hi <= z_lo {
        Seq::empty()
    } else {
        gather_z(grid, x, y, z_lo, z_hi - 1) + cell_contents(grid, (x, y, (z_hi - 1) as i32))
    }
}

/// The contents of the cells of rows `y` in `y_lo..y_hi` of column `x`.
pub open spec fn gather_y(grid: Map<Cell, Vec<usize>>, x: i32, y_lo: int, y_hi: int, z_lo: int, z_hi: int) -> Seq<
    usize,
>
    decreases y_hi - y_lo,
{
    if y_hi <= y_lo {
        Seq::empty()
    } else {
        gather_y(grid, x, y_lo, y_hi - 1, z_lo, z_hi) + gather_z(grid, x, (y_hi - 1) as i32, z_lo, z_hi)
    }
}

/// The contents of the cells of the box `x_lo..x_hi` × `y_lo..y_hi` ×
/// `z_lo..z_hi`, by `x`, then `y`, then `z`.
pub open spec fn gather_x(
    grid: Map<Cell, Vec<usize>>,
    x_lo: int,
    x_hi: int,
    y_lo: int,
    y_hi: int,
    z_lo: int,
    z_hi: int,
) -> Seq<usize>
    decreases x_hi - x_lo,
{
    if x_hi <= x_lo {
        Seq::empty()
    } else {
        gather_x(grid, x_lo, x_hi - 1, y_lo, y_hi, z_lo, z_hi) + gather_y(grid, (x_hi - 1) as i32, y_lo, y_hi, z_lo, z_hi)
    }
}

impl VisualizationHelper {
    /// Groups particle indices by the cell each particle falls in
    /// (`cells[i]` is the cell of particle `i`); each cell lists its
    /// particles in increasing order.
    pub fn build_spatial_hash(cells: &[Cell]) -> (r: BTreeMap<Cell, Vec<usize>>)
        ensures
            forall|c: Cell| #[trigger] r@.contains_key(c) <==> cells@.contains(c),
            forall|c: Cell| #[trigger] r@.contains_key(c) ==> r@[c]@ == indices_in_cell(cells@, c),
    {
        let mut grid: BTreeMap<Cell, Vec<usize>> = BTreeMap::new();
        for i in 0..cells.len()
            invariant
                forall|c: Cell| #[trigger] grid@.contains_key(c) <==> cells@.take(i as int).contains(c),
                forall|c: Cell| #[trigger] grid@.contains_key(c) ==> grid@[c]@ == indices_in_cell(cells@.take(i as int), c),
        {
            let key = cells[i];
            let ghost before = grid@;
            let ghost t0 = cells@.take(i as int);
            let ghost t1 = cells@.take(i + 1);
            proof {
                assert(t1.drop_last() =~= t0);
                assert(t1.last() == key);
            }
            let list = match grid.remove(&key) {
                Some(v) => {
                    let mut v = v;
                    v.push(i);
                    v
                },
                None => {
                    let mut v: Vec<usize> = Vec::new();
                    v.push(i);
                    v
                },
            };
            grid.insert(key, list);
            proof {
                assert forall|c: Cell| #[trigger] grid@.contains_key(c) <==> t1.contains(c) by {
                    if c == key {
                        assert(t1[i as int] == key);
                    } else {
                        if t1.contains(c) {
                            let q = choose|q: int| 0 <= q < t1.len() && #[trigger] t1[q] == c;
                            assert(t0[q] == c);
                        }
                        if t0.contains(c) {
                            let q = choose|q: int| 0 <= q < t0.len() && #[trigger] t0[q] == c;
                            assert(t1[q] == c);
                        }
                    }
                }
                assert forall|c: Cell| #[trigger] grid@.contains_key(c) implies grid@[c]@ == indices_in_cell(t1, c) by {
                    if c == key {
                        if before.contains_key(key) {
                            assert(grid@[c]@ =~= before[key]@.push(i));
                        } else {
                            assert(!t0.contains(key));
                            assert(indices_in_cell(t0, key) =~= Seq::<usize>::empty()) by {
                                lemma_absent_cell_empty(t0, key);
                            }
                            assert(grid@[c]@ =~= seq![i]);
                        }
                    }
                }
            }
        }
        proof {
            assert(cells@.take(cells@.len() as int) =~= cells@);
        }
        grid
    }

    /// The particles listed for the cells within `reach` cells of `center`
    /// along every axis, cell by cell in increasing `x`, then `y`, then
    /// `z` (nothing when `reach` is negative). The caller filters them by
    /// actual distance.
    pub fn query_spatial_hash(grid: &BTreeMap<Cell, Vec<usize>>, center: Cell, reach: i32) -> (r: Vec<usize>)
        requires
            reach > i32::MIN,
            reach >= 0 ==> {
                &&& i32::MIN <= center.0 - reach && center.0 + reach <= i32::MAX
                &&& i32::MIN <= center.1 - reach && center.1 + reach <= i32::MAX
                &&& i32::MIN <= center.2 - reach && center.2 + reach <= i32::MAX
            },
        ensures
            r@ == gather_x(
                grid@,
                center.0 - reach,
                center.0 + reach + 1,
                center.1 - reach,
                center.1 + reach + 1,
                center.2 - reach,
                center.2 + reach + 1,
            ),
    {
        let mut r: Vec<usize> = Vec::new();
        if reach < 0 {
            return r;
        }
        let x_lo: i32 = center.0 - reach;
        let x_hi: i32 = center.0 + reach;
        let y_lo: i32 = center.1 - reach;
        let y_hi: i32 = center.1 + reach;
        let z_lo: i32 = center.2 - reach;
        let z_hi: i32 = center.2 + reach;
        let mut x: i64 = x_lo as i64;
        while x <= x_hi as i64
            invariant
                x_lo <= x <= x_hi + 1,
                r@ == gather_x(grid@, x_lo as int, x as int, y_lo as int, y_hi + 1, z_lo as int, z_hi + 1),
                y_lo <= y_hi,
                z_lo <= z_hi,
            decreases x_hi + 1 - x,
        {
            let xi: i32 = x as i32;
            let mut y: i64 = y_lo as i64;
            while y <= y_hi as i64
                invariant
                    x_lo <= x <= x_hi,
                    xi == x,
                    y_lo <= y <= y_hi + 1,
                    r@ == gather_x(grid@, x_lo as int, x as int, y_lo as int, y_hi + 1, z_lo as int, z_hi + 1)
                        + gather_y(grid@, xi, y_lo as int, y as int, z_lo as int, z_hi + 1),
                    z_lo <= z_hi,
                decreases y_hi + 1 - y,
            {
                let yi: i32 = y as i32;
                let mut z: i64 = z_lo as i64;
                while z <= z_hi as i64
                    invariant
                        x_lo <= x <= x_hi,
                        xi == x,
                        y_lo <= y <= y_hi,
                        yi == y,
                        z_lo <= z <= z_hi + 1,
                        r@ == gather_x(grid@, x_lo as int, x as int, y_lo as int, y_hi + 1, z_lo as int, z_hi + 1)
                            + gather_y(grid@, xi, y_lo as int, y as int, z_lo as int, z_hi + 1) + gather_z(
                            grid@,
                            xi,
                            yi,
                            z_lo as int,
                            z as int,
                        ),
                    decreases z_hi + 1 - z,
                {
                    let zi: i32 = z as i32;
                    let key: Cell = (xi, yi, zi);
                    let ghost before = r@;
                    match grid.get(&key) {
                        Some(list) => {
                            for k in 0..list.len()
                                invariant
                                    r@ == before + list@.take(k as int),
                            {
                                r.push(list[k]);
                                proof {
                                    assert(list@.take(k + 1) =~= list@.take(k as int).push(list@[k as int]));
                                }
                            }
                            proof {
                                assert(list@.take(list@.len() as int) =~= list@);
                            }
                        },
                        None => {},
                    }
                    proof {
                        assert(cell_contents(grid@, key) == r@.skip(before.len() as int)) by {
                            if grid@.contains_key(key) {
                                assert(r@ =~= before + grid@[key]@);
                            }
                            assert(r@.skip(before.len() as int) =~= cell_contents(grid@, key));
                        }
                        assert(r@ =~= before + cell_contents(grid@, key));
                        assert(gather_z(grid@, xi, yi, z_lo as int, z + 1) == gather_z(grid@, xi, yi, z_lo as int, z as int)
                            + cell_contents(grid@, (xi, yi, zi)));
                    }
                    z = z + 1;
                }
                proof {
                    assert(gather_y(grid@, xi, y_lo as int, y + 1, z_lo as int, z_hi + 1) == gather_y(
                        grid@,
                        xi,
                        y_lo as int,
                        y as int,
                        z_lo as int,
                        z_hi + 1,
                    ) + gather_z(grid@, xi, yi, z_lo as int, z_hi + 1));
                }
                y = y + 1;
            }
            proof {
                assert(gather_x(grid@, x_lo as int, x + 1, y_lo as int, y_hi + 1, z_lo as int, z_hi + 1) == gather_x(
                    grid@,
                    x_lo as int,
                    x as int,
                    y_lo as int,
                    y_hi + 1,
                    z_lo as int,
                    z_hi + 1,
                ) + gather_y(grid@, xi, y_lo as int, y_hi + 1, z_lo as int, z_hi + 1));
            }
            x = x + 1;
        }
        r
    }
}

proof fn lemma_absent_cell_empty(cells: Seq<Cell>, c: Cell)
    requires
        !cells.contains(c),
    ensures
        indices_in_cell(cells, c) == Seq::<usize>::empty(),
    decreases cells.len(),
{
    if cells.len() > 0 {
        assert(!cells.drop_last().contains(c)) by {
            if cells.drop_last().contains(c) {
                let q = choose|q: int| 0 <= q < cells.drop_last().len() && cells.drop_last()[q] == c;
                assert(cells[q] == c);
            }
        }
        assert(cells.last() != c) by {
            assert(cells[cells.len() - 1] == cells.last());
        }
        lemma_absent_cell_empty(cells.drop_last(), c);
    }
}

/// Operations that rebuild the particles of a model.
pub struct Remesher;

/// `keep` thins particles `0..n` greedily: taking the particles in order,
/// one is kept exactly when no kept particle before it is too close to it
/// (`too_close[i * n + j]` for `i < j`).
pub open spec fn greedy_thinning(too_close: Seq<bool>, n: int, keep: Seq<bool>) -> bool {
    &&& keep.len() == n
    &&& forall|j: int|
        0 <= j < n ==> (#[trigger] keep[j] <==> forall|i: int| 0 <= i < j && keep[i] ==> !is_near(too_close, n, i, j))
}

impl Remesher {
    /// Which particles a decimation keeps (see `greedy_thinning`).
    pub fn decimate(n: usize, too_close: &[bool]) -> (keep: Vec<bool>)
        requires
            too_close@.len() == n * n,
        ensures
            greedy_thinning(too_close@, n as int, keep@),
    {
        let total = too_close.len();
        let mut keep: Vec<bool> = Vec::new();
        for k in 0..n
            invariant
                keep@.len() == k,
                forall|m: int| 0 <= m < k ==> keep@[m],
        {
            keep.push(true);
        }
        for i in 0..n
            invariant
                too_close@.len() == n * n,
                total == n * n,
                keep@.len() == n,
                forall|j: int|
                    0 <= j < i ==> (#[trigger] keep@[j] <==> forall|k: int|
                        0 <= k < j && keep@[k] ==> !is_near(too_close@, n as int, k, j)),
                forall|j: int|
                    i <= j < n ==> (#[trigger] keep@[j] <==> forall|k: int|
                        0 <= k < i && keep@[k] ==> !is_near(too_close@, n as int, k, j)),
        {
            if keep[i] {
                let ghost before = keep@;
                for j in i + 1..n
                    invariant
                        too_close@.len() == n * n,
                        total == n * n,
                        i < n,
                        before[i as int],
                        keep@.len() == n,
                        forall|m: int| 0 <= m < j && #[trigger] keep@[m] != before[m] ==> i < m,
                        forall|m: int|
                            i < m < j ==> (#[trigger] keep@[m] == (before[m] && !is_near(too_close@, n as int, i as int, m))),
                        forall|m: int| j <= m < n ==> #[trigger] keep@[m] == before[m],
                {
                    assert(i * n + j < n * n) by (nonlinear_arith)
                        requires
                            i < n,
                            j < n,
                    ;
                    if keep[j] && too_close[i * n + j] {
                        keep.set(j, false);
                    }
                }
                proof {
                    assert forall|m: int| 0 <= m <= i implies #[trigger] keep@[m] == before[m] by {}
                    assert forall|j: int|
                        0 <= j < i + 1 implies (#[trigger] keep@[j] <==> forall|k: int|
                            0 <= k < j && keep@[k] ==> !is_near(too_close@, n as int, k, j)) by {
                        assert forall|k: int| 0 <= k < j implies keep@[k] == before[k] by {}
                    }
                    assert forall|j: int|
                        i + 1 <= j < n implies (#[trigger] keep@[j] <==> forall|k: int|
                            0 <= k < i + 1 && keep@[k] ==> !is_near(too_close@, n as int, k, j)) by {
                        assert forall|k: int| 0 <= k < i + 1 implies keep@[k] == before[k] by {}
                        assert(before[j] <==> forall|k: int|
                            0 <= k < i && before[k] ==> !is_near(too_close@, n as int, k, j));
                    }
                }
            } else {
                proof {
                    assert forall|j: int|
                        i + 1 <= j < n implies (#[trigger] keep@[j] <==> forall|k: int|
                            0 <= k < i + 1 && keep@[k] ==> !is_near(too_close@, n as int, k, j)) by {
                        assert(keep@[j] <==> forall|k: int|
                            0 <= k < i && keep@[k] ==> !is_near(too_close@, n as int, k, j));
                    }
                }
            }
        }
        keep
    }
}

/// After a decimation no two kept particles are too close, and every
/// dropped particle is too close to a kept particle before it.
pub proof fn lemma_thinning_spaced_and_maximal(too_close: Seq<bool>, n: int, keep: Seq<bool>)
    requires
        greedy_thinning(too_close, n, keep),
    ensures
        forall|i: int, j: int| 0 <= i < j < n && keep[i] && keep[j] ==> !is_near(too_close, n, i, j),
        forall|j: int| 0 <= j < n && !keep[j] ==> exists|i: int| 0 <= i < j && keep[i] && is_near(too_close, n, i, j),
{
    assert forall|i: int, j: int| 0 <= i < j < n && keep[i] && keep[j] implies !is_near(too_close, n, i, j) by {
        assert(keep[j]);
    }
    assert forall|j: int| 0 <= j < n && !keep[j] implies exists|i: int|
        0 <= i < j && keep[i] && is_near(too_close, n, i, j) by {
        assert(!keep[j]);
    }
}

proof fn lemma_thinning_agrees(too_close: Seq<bool>, n: int, k1: Seq<bool>, k2: Seq<bool>, j: int)
    requires
        greedy_thinning(too_close, n, k1),
        greedy_thinning(too_close, n, k2),
        0 <= j < n,
    ensures
        forall|i: int| 0 <= i <= j ==> k1[i] == k2[i],
    decreases j,
{
    if j > 0 {
        lemma_thinning_agrees(too_close, n, k1, k2, j - 1);
    }
    assert(k1[j] == k2[j]) by {
        assert(k1[j] <==> forall|i: int| 0 <= i < j && k1[i] ==> !is_near(too_close, n, i, j));
        assert(k2[j] <==> forall|i: int| 0 <= i < j && k2[i] ==> !is_near(too_close, n, i, j));
    }
}

/// A cloud has one greedy thinning: which particles a decimation keeps
/// depends on the proximity relation alone.
pub proof fn lemma_thinning_unique(too_close: Seq<bool>, n: int, k1: Seq<bool>, k2: Seq<bool>)
    requires
        greedy_thinning(too_close, n, k1),
        greedy_thinning(too_close, n, k2),
    ensures
        k1 == k2,
{
    if n > 0 {
        lemma_thinning_agrees(too_close, n, k1, k2, n - 1);
    }
    assert(k1 =~= k2);
}

} // verus!
