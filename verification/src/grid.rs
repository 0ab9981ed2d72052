//! Indexing of the 3D atmospheric grid and tracking of the cells that are
//! active around burning fuel.
//!
//! Cells are stored in row-major order: the cell `(x, y, z)` lives at
//! `z * (ny * nx) + y * nx + x`.
use crate::fxmap::{count_map_get, count_map_insert, count_map_keys, fx_map_with_capacity};
use rustc_hash::FxHashMap;
use vstd::arithmetic::div_mod::{
    lemma_div_pos_is_pos, lemma_fundamental_div_mod, lemma_fundamental_div_mod_converse,
    lemma_mod_pos_bound,
};
use vstd::prelude::*;

verus! {

/// Resolution of a 3D grid, in cells along each axis.
#[derive(Debug, Clone, Copy, PartialEq, Eq, Structural)]
pub struct GridDims {
    /// Cells along x.
    pub nx: usize,
    /// Cells along y.
    pub ny: usize,
    /// Cells along z.
    pub nz: usize,
}

/// Offset of the `k`-th face neighbour of a cell: `x - 1`, `x + 1`,
/// `y - 1`, `y + 1`, `z - 1`, `z + 1`.
pub open spec fn face_offset(k: int) -> (int, int, int) {
    if k == 0 {
        (-1, 0, 0)
    } else if k == 1 {
        (1, 0, 0)
    } else if k == 2 {
        (0, -1, 0)
    } else if k == 3 {
        (0, 1, 0)
    } else if k == 4 {
        (0, 0, -1)
    } else {
        (0, 0, 1)
    }
}

/// Position of the cell at offset `o` from the cell `c`, when that cell is
/// part of the grid.
pub open spec fn neighbour_at(d: GridDims, c: (int, int, int), o: (int, int, int)) -> Option<usize> {
    if d.in_bounds(c.0 + o.0, c.1 + o.1, c.2 + o.2) {
        Some(d.index_of(c.0 + o.0, c.1 + o.1, c.2 + o.2) as usize)
    } else {
        None
    }
}

impl GridDims {
    /// Number of cells.
    pub open spec fn total(&self) -> int {
        self.nx * self.ny * self.nz
    }

    /// The number of cells fits in `usize`.
    pub open spec fn fits(&self) -> bool {
        self.nx * self.ny * self.nz <= usize::MAX
    }

    /// Row-major position of the cell `(x, y, z)`.
    pub open spec fn index_of(&self, x: int, y: int, z: int) -> int {
        z * (self.ny * self.nx) + y * self.nx + x
    }

    /// Whether `(x, y, z)` is a cell of the grid.
    pub open spec fn in_bounds(&self, x: int, y: int, z: int) -> bool {
        &&& 0 <= x < self.nx
        &&& 0 <= y < self.ny
        &&& 0 <= z < self.nz
    }

    /// Coordinates of the cell at a row-major position.
    pub open spec fn coords_of(&self, i: int) -> (int, int, int) {
        (i % (self.nx as int), (i % (self.ny * self.nx)) / (self.nx as int), i / (self.ny * self.nx))
    }

    /// Grid with the given resolution.
    pub fn new(nx: usize, ny: usize, nz: usize) -> (d: Self)
        ensures
            d.nx == nx && d.ny == ny && d.nz == nz,
    {
        GridDims { nx, ny, nz }
    }

    /// Get cell index from (x, y, z) indices.
    pub fn cell_index(&self, ix: usize, iy: usize, iz: usize) -> (i: usize)
        requires
            self.index_of(ix as int, iy as int, iz as int) <= usize::MAX,
            self.ny * self.nx <= usize::MAX,
        ensures
            i == self.index_of(ix as int, iy as int, iz as int),
    {
        let plane = self.ny * self.nx;
        assert(0 <= iz * plane <= iz * plane + iy * self.nx + ix) by (nonlinear_arith)
            requires
                iz >= 0,
                plane >= 0,
                iy * self.nx >= 0,
                ix >= 0,
        ;
        assert(iy * self.nx >= 0) by (nonlinear_arith)
            requires
                iy >= 0,
                self.nx >= 0,
        ;
        iz * plane + iy * self.nx + ix
    }

    /// Index of the cell at grid indices, if the cell is inside the grid.
    pub fn cell_at(&self, ix: usize, iy: usize, iz: usize) -> (r: Option<usize>)
        requires
            self.fits(),
        ensures
            match r {
                Some(i) => self.in_bounds(ix as int, iy as int, iz as int) && i == self.index_of(
                    ix as int,
                    iy as int,
                    iz as int,
                ),
                None => !self.in_bounds(ix as int, iy as int, iz as int),
            },
    {
        if ix < self.nx && iy < self.ny && iz < self.nz {
            proof {
                lemma_index_in_range(*self, ix as int, iy as int, iz as int);
                lemma_plane_fits(*self);
            }
            Some(self.cell_index(ix, iy, iz))
        } else {
            None
        }
    }

    /// Positions of the six face neighbours of the cell at `idx`, in the
    /// order `x - 1`, `x + 1`, `y - 1`, `y + 1`, `z - 1`, `z + 1`; `None`
    /// where the neighbour lies outside the grid.
    pub fn face_neighbors(&self, idx: usize) -> (r: [Option<usize>; 6])
        requires
            self.fits(),
            idx < self.total(),
        ensures
            forall|k: int| 0 <= k < 6 ==> #[trigger] r@[k] == neighbour_at(*self, self.coords_of(idx as int), face_offset(k)),
    {
        let (ix, iy, iz) = self.cell_coords(idx);
        proof {
            lemma_plane_fits(*self);
        }
        let plane = self.ny * self.nx;
        let ghost x = ix as int;
        let ghost y = iy as int;
        let ghost z = iz as int;
        let ghost nx = self.nx as int;
        let ghost pl = plane as int;
        proof {
            assert(idx == z * pl + y * nx + x);
            assert((y - 1) * nx == y * nx - nx && (y + 1) * nx == y * nx + nx) by (nonlinear_arith);
            assert((z - 1) * pl == z * pl - pl && (z + 1) * pl == z * pl + pl) by (nonlinear_arith);
            if ix + 1 < self.nx {
                lemma_index_in_range(*self, x + 1, y, z);
            }
            if iy + 1 < self.ny {
                lemma_index_in_range(*self, x, y + 1, z);
            }
            if iz + 1 < self.nz {
                lemma_index_in_range(*self, x, y, z + 1);
            }
        }
        let x_minus = if ix > 0 { Some(idx - 1) } else { None };
        let x_plus = if ix + 1 < self.nx { Some(idx + 1) } else { None };
        let y_minus = if iy > 0 { Some(idx - self.nx) } else { None };
        let y_plus = if iy + 1 < self.ny { Some(idx + self.nx) } else { None };
        let z_minus = if iz > 0 { Some(idx - plane) } else { None };
        let z_plus = if iz + 1 < self.nz { Some(idx + plane) } else { None };
        let r = [x_minus, x_plus, y_minus, y_plus, z_minus, z_plus];
        proof {
            assert forall|k: int| 0 <= k < 6 implies #[trigger] r@[k] == neighbour_at(
                *self,
                self.coords_of(idx as int),
                face_offset(k),
            ) by {
                assert(self.coords_of(idx as int) == (x, y, z));
            }
        }
        r
    }

    /// Grid coordinates of the cell at a row-major position.
    pub fn cell_coords(&self, idx: usize) -> (c: (usize, usize, usize))
        requires
            self.fits(),
            idx < self.total(),
        ensures
            self.in_bounds(c.0 as int, c.1 as int, c.2 as int),
            (c.0 as int, c.1 as int, c.2 as int) == self.coords_of(idx as int),
            self.index_of(c.0 as int, c.1 as int, c.2 as int) == idx,
    {
        proof {
            lemma_coords_in_bounds(*self, idx as int);
            lemma_plane_fits(*self);
        }
        let plane = self.ny * self.nx;
        let iz = idx / plane;
        let iy = (idx % plane) / self.nx;
        let ix = idx % self.nx;
        (ix, iy, iz)
    }
}

/// One plane of cells fits in `usize` whenever the whole grid does and is
/// not empty.
pub proof fn lemma_plane_fits(d: GridDims)
    requires
        d.fits(),
        d.total() > 0,
    ensures
        d.ny * d.nx <= d.total(),
        d.ny * d.nx <= usize::MAX,
        d.ny * d.nx > 0,
        d.nx > 0,
        d.ny > 0,
        d.nz > 0,
{
    assert(d.nx > 0 && d.ny > 0 && d.nz > 0) by (nonlinear_arith)
        requires
            d.nx * d.ny * d.nz > 0,
            d.nx >= 0,
            d.ny >= 0,
            d.nz >= 0,
    ;
    assert(d.ny * d.nx <= d.nx * d.ny * d.nz && d.ny * d.nx > 0) by (nonlinear_arith)
        requires
            d.nx > 0,
            d.ny > 0,
            d.nz > 0,
    ;
}

/// A cell of the grid has a position in `[0, total)`.
pub proof fn lemma_index_in_range(d: GridDims, x: int, y: int, z: int)
    requires
        d.in_bounds(x, y, z),
    ensures
        0 <= y * d.nx + x < d.ny * d.nx,
        0 <= d.index_of(x, y, z) < d.total(),
        d.index_of(x, y, z) == (z * d.ny + y) * d.nx + x,
{
    let nx = d.nx as int;
    let ny = d.ny as int;
    let nz = d.nz as int;
    assert(0 <= y * nx + x < ny * nx) by (nonlinear_arith)
        requires
            0 <= x < nx,
            0 <= y < ny,
    ;
    assert(0 <= z * (ny * nx) + y * nx + x < nx * ny * nz) by (nonlinear_arith)
        requires
            0 <= y * nx + x < ny * nx,
            0 <= z < nz,
    ;
    assert(z * (ny * nx) + y * nx + x == (z * ny + y) * nx + x) by (nonlinear_arith);
}

/// Decomposing the position of a cell gives back its coordinates.
pub proof fn lemma_coords_of_index(d: GridDims, x: int, y: int, z: int)
    requires
        d.in_bounds(x, y, z),
    ensures
        d.coords_of(d.index_of(x, y, z)) == (x, y, z),
{
    let nx = d.nx as int;
    let ny = d.ny as int;
    let i = d.index_of(x, y, z);
    lemma_index_in_range(d, x, y, z);
    lemma_fundamental_div_mod_converse(i, ny * nx, z, y * nx + x);
    lemma_fundamental_div_mod_converse(y * nx + x, nx, y, x);
    lemma_fundamental_div_mod_converse(i, nx, z * ny + y, x);
}

/// Every position below `total` is the position of a cell of the grid.
pub proof fn lemma_coords_in_bounds(d: GridDims, i: int)
    requires
        0 <= i < d.total(),
    ensures
        d.in_bounds(d.coords_of(i).0, d.coords_of(i).1, d.coords_of(i).2),
        d.index_of(d.coords_of(i).0, d.coords_of(i).1, d.coords_of(i).2) == i,
{
    let nx = d.nx as int;
    let ny = d.ny as int;
    let nz = d.nz as int;
    assert(nx > 0 && ny > 0 && nz > 0) by (nonlinear_arith)
        requires
            nx * ny * nz > i >= 0,
            nx >= 0,
            ny >= 0,
            nz >= 0,
    ;
    let p = ny * nx;
    assert(p > 0) by (nonlinear_arith)
        requires
            p == ny * nx,
            nx > 0,
            ny > 0,
    ;
    lemma_fundamental_div_mod(i, p);
    lemma_mod_pos_bound(i, p);
    let z = i / p;
    let rem = i % p;
    lemma_div_pos_is_pos(i, p);
    assert(z < nz) by (nonlinear_arith)
        requires
            i == p * z + rem,
            0 <= rem,
            i < nx * ny * nz,
            p == ny * nx,
            p > 0,
    ;
    lemma_fundamental_div_mod(rem, nx);
    lemma_mod_pos_bound(rem, nx);
    lemma_div_pos_is_pos(rem, nx);
    let y = rem / nx;
    let x = rem % nx;
    assert(y < ny) by (nonlinear_arith)
        requires
            rem == nx * y + x,
            0 <= x,
            rem < ny * nx,
            nx > 0,
    ;
    assert(i == z * p + y * nx + x) by (nonlinear_arith)
        requires
            i == p * z + rem,
            rem == nx * y + x,
    ;
    lemma_coords_of_index(d, x, y, z);
}

/// Two cells of the grid with the same position are the same cell.
pub proof fn lemma_index_injective(d: GridDims, x1: int, y1: int, z1: int, x2: int, y2: int, z2: int)
    requires
        d.in_bounds(x1, y1, z1),
        d.in_bounds(x2, y2, z2),
        d.index_of(x1, y1, z1) == d.index_of(x2, y2, z2),
    ensures
        x1 == x2 && y1 == y2 && z1 == z2,
{
    lemma_coords_of_index(d, x1, y1, z1);
    lemma_coords_of_index(d, x2, y2, z2);
}

/// `(x, y, z)` is a cell of the grid within Chebyshev distance `r` of `c`.
pub open spec fn in_clipped_cube(d: GridDims, c: (int, int, int), r: int, x: int, y: int, z: int) -> bool {
    &&& d.in_bounds(x, y, z)
    &&& c.0 - r <= x <= c.0 + r
    &&& c.1 - r <= y <= c.1 + r
    &&& c.2 - r <= z <= c.2 + r
}

/// Position `j` belongs to a cell of the grid within distance `r` of `c`.
pub open spec fn cube_covers(d: GridDims, c: (int, int, int), r: int, j: int) -> bool {
    exists|x: int, y: int, z: int|
        #![trigger d.index_of(x, y, z)]
        in_clipped_cube(d, c, r, x, y, z) && j == d.index_of(x, y, z)
}

/// Position `j` is covered by the cube around one of the first `n` centers.
pub open spec fn covered_by_prefix(
    d: GridDims,
    centers: Seq<(i32, i32, i32)>,
    n: int,
    r: int,
    j: int,
) -> bool {
    exists|k: int|
        0 <= k < n && #[trigger] cube_covers(
            d,
            (centers[k].0 as int, centers[k].1 as int, centers[k].2 as int),
            r,
            j,
        )
}

/// The cell `(x, y, z)` lies within distance `r` of one of the centers.
pub open spec fn near_some_center(centers: Seq<(i32, i32, i32)>, r: int, x: int, y: int, z: int) -> bool {
    exists|k: int|
        0 <= k < centers.len() && {
            let c = #[trigger] centers[k];
            &&& c.0 - r <= x <= c.0 + r
            &&& c.1 - r <= y <= c.1 + r
            &&& c.2 - r <= z <= c.2 + r
        }
}

/// The positions set in `marked` are exactly those listed in `list`, the
/// list has no repeats, and the positions are below `total`.
pub open spec fn list_matches_flags(flags: Seq<bool>, list: Seq<usize>) -> bool {
    &&& list.no_duplicates()
    &&& forall|k: int| 0 <= k < list.len() ==> #[trigger] list[k] < flags.len()
    &&& forall|j: int| 0 <= j < flags.len() ==> (#[trigger] flags[j] <==> list.contains(j as usize))
}

/// `l` is `l0` followed by positions in increasing order, all below `bound`.
spec fn extends_in_order(l0: Seq<usize>, l: Seq<usize>, bound: int) -> bool {
    &&& l0.len() <= l.len()
    &&& l.subrange(0, l0.len() as int) == l0
    &&& forall|a: int, b: int| l0.len() <= a < b < l.len() ==> #[trigger] l[a] < #[trigger] l[b]
    &&& forall|a: int| l0.len() <= a < l.len() ==> #[trigger] l[a] < bound
}

/// Mark every cell of the grid within distance `r` of `c` that is not
/// marked yet, appending its position to `newly`. Cells are visited with z
/// slowest and x fastest.
fn mark_cube(
    dims: &GridDims,
    marked: &mut Vec<bool>,
    newly: &mut Vec<usize>,
    c: (i128, i128, i128),
    r: i128,
)
    requires
        dims.fits(),
        old(marked)@.len() == dims.total(),
        list_matches_flags(old(marked)@, old(newly)@),
        -0x1_0000_0000_0000_0000 <= c.0 <= 0x1_0000_0000_0000_0000,
        -0x1_0000_0000_0000_0000 <= c.1 <= 0x1_0000_0000_0000_0000,
        -0x1_0000_0000_0000_0000 <= c.2 <= 0x1_0000_0000_0000_0000,
        -0x1_0000_0000_0000_0000 <= r <= 0x1_0000_0000_0000_0000,
    ensures
        final(marked)@.len() == dims.total(),
        list_matches_flags(final(marked)@, final(newly)@),
        extends_in_order(old(newly)@, final(newly)@, dims.total()),
        forall|j: int|
            0 <= j < dims.total() ==> #[trigger] final(marked)@[j] == (old(marked)@[j]
                || cube_covers(*dims, (c.0 as int, c.1 as int, c.2 as int), r as int, j)),
{
    let ghost ci = (c.0 as int, c.1 as int, c.2 as int);
    let ghost m0 = marked@;
    let ghost l0 = newly@;
    proof {
        assert(newly@.subrange(0, l0.len() as int) =~= l0);
    }
    if dims.nx == 0 || dims.ny == 0 || dims.nz == 0 {
        proof {
            assert forall|j: int| 0 <= j < dims.total() implies #[trigger] marked@[j] == (m0[j]
                || cube_covers(*dims, ci, r as int, j)) by {
                assert(dims.total() == 0) by (nonlinear_arith)
                    requires
                        dims.nx == 0 || dims.ny == 0 || dims.nz == 0,
                        dims.total() == dims.nx * dims.ny * dims.nz,
                ;
            }
        }
        return;
    }
    proof {
        assert(dims.total() > 0) by (nonlinear_arith)
            requires
                dims.nx > 0,
                dims.ny > 0,
                dims.nz > 0,
                dims.total() == dims.nx * dims.ny * dims.nz,
        ;
        lemma_plane_fits(*dims);
    }
    let nx = dims.nx as i128;
    let ny = dims.ny as i128;
    let nz = dims.nz as i128;
    let cx = c.0;
    let cy = c.1;
    let cz = c.2;
    let rr = r;
    let x_lo = if cx - rr > 0 { cx - rr } else { 0 };
    let x_hi = if cx + rr < nx - 1 { cx + rr } else { nx - 1 };
    let y_lo = if cy - rr > 0 { cy - rr } else { 0 };
    let y_hi = if cy + rr < ny - 1 { cy + rr } else { ny - 1 };
    let z_lo = if cz - rr > 0 { cz - rr } else { 0 };
    let z_hi = if cz + rr < nz - 1 { cz + rr } else { nz - 1 };
    if x_lo > x_hi || y_lo > y_hi || z_lo > z_hi {
        proof {
            assert forall|j: int| 0 <= j < dims.total() implies #[trigger] marked@[j] == (m0[j]
                || cube_covers(*dims, ci, r as int, j)) by {
                if cube_covers(*dims, ci, r as int, j) {
                    let (x, y, z) = choose|x: int, y: int, z: int|
                        #![trigger dims.index_of(x, y, z)]
                        in_clipped_cube(*dims, ci, r as int, x, y, z) && j == dims.index_of(x, y, z);
                    assert(false);
                }
            }
        }
        return;
    }
    let plane = dims.ny * dims.nx;
    let ghost zl = z_lo as int;
    let ghost yl = y_lo as int;
    let ghost xl = x_lo as int;
    let ghost xh = x_hi as int;
    let ghost yh = y_hi as int;
    let mut z = z_lo as usize;
    while z as i128 <= z_hi
        invariant
            dims.fits(),
            dims.nx > 0 && dims.ny > 0 && dims.nz > 0,
            plane == dims.ny * dims.nx,
            plane <= dims.total(),
            marked@.len() == dims.total(),
            list_matches_flags(marked@, newly@),
            extends_in_order(l0, newly@, z * plane + yl * dims.nx + xl),
            0 <= xl <= xh < dims.nx,
            0 <= yl <= yh < dims.ny,
            0 <= zl <= z_hi + 1,
            z_hi < dims.nz,
            zl <= z <= z_hi + 1,
            xl == x_lo && xh == x_hi && yl == y_lo && yh == y_hi && zl == z_lo,
            xl == if ci.0 - r > 0 { ci.0 - r } else { 0 },
            xh == if ci.0 + r < dims.nx - 1 { ci.0 + r } else { dims.nx - 1 },
            yl == if ci.1 - r > 0 { ci.1 - r } else { 0 },
            yh == if ci.1 + r < dims.ny - 1 { ci.1 + r } else { dims.ny - 1 },
            zl == if ci.2 - r > 0 { ci.2 - r } else { 0 },
            z_hi == if ci.2 + r < dims.nz - 1 { ci.2 + r } else { dims.nz - 1 },
            forall|j: int|
                0 <= j < dims.total() ==> #[trigger] marked@[j] == (m0[j] || exists|
                    xx: int,
                    yy: int,
                    zz: int,
                |
                    #![trigger dims.index_of(xx, yy, zz)]
                    zl <= zz < z && yl <= yy <= yh && xl <= xx <= xh && j == dims.index_of(
                        xx,
                        yy,
                        zz,
                    )),
        decreases z_hi + 1 - z,
    {
        let ghost mz = marked@;
        let mut y = y_lo as usize;
        while y as i128 <= y_hi
            invariant
                dims.fits(),
                dims.nx > 0 && dims.ny > 0 && dims.nz > 0,
                plane == dims.ny * dims.nx,
                plane <= dims.total(),
                marked@.len() == dims.total(),
                list_matches_flags(marked@, newly@),
                extends_in_order(l0, newly@, z * plane + y * dims.nx + xl),
                0 <= xl <= xh < dims.nx,
                0 <= yl <= yh < dims.ny,
                zl <= z <= z_hi,
                z_hi < dims.nz,
                yl <= y <= yh + 1,
                xl == x_lo && xh == x_hi && yl == y_lo && yh == y_hi,
                forall|j: int|
                    0 <= j < dims.total() ==> #[trigger] marked@[j] == (mz[j] || exists|
                        xx: int,
                        yy: int,
                    |
                        #![trigger dims.index_of(xx, yy, z as int)]
                        yl <= yy < y && xl <= xx <= xh && j == dims.index_of(xx, yy, z as int)),
            decreases yh + 1 - y,
        {
            let ghost my = marked@;
            let mut x = x_lo as usize;
            while x as i128 <= x_hi
                invariant
                    dims.fits(),
                    dims.nx > 0 && dims.ny > 0 && dims.nz > 0,
                    plane == dims.ny * dims.nx,
                    plane <= dims.total(),
                    marked@.len() == dims.total(),
                    list_matches_flags(marked@, newly@),
                    extends_in_order(l0, newly@, z * plane + y * dims.nx + x),
                    0 <= xl <= xh < dims.nx,
                    yl <= y <= yh,
                    yh < dims.ny,
                    zl <= z <= z_hi,
                    z_hi < dims.nz,
                    xl <= x <= xh + 1,
                    xl == x_lo && xh == x_hi,
                    forall|j: int|
                        0 <= j < dims.total() ==> #[trigger] marked@[j] == (my[j] || exists|xx: int|
                            #![trigger dims.index_of(xx, y as int, z as int)]
                            xl <= xx < x && j == dims.index_of(xx, y as int, z as int)),
                decreases xh + 1 - x,
            {
                proof {
                    lemma_index_in_range(*dims, x as int, y as int, z as int);
                    assert(z * plane <= z * plane + y * dims.nx) by (nonlinear_arith)
                        requires
                            y * dims.nx >= 0,
                    ;
                    assert(y * dims.nx >= 0 && z * plane >= 0) by (nonlinear_arith)
                        requires
                            y >= 0,
                            z >= 0,
                            plane >= 0,
                            dims.nx >= 0,
                    ;
                }
                let idx = z * plane + y * dims.nx + x;
                let ghost before = marked@;
                let ghost before_list = newly@;
                if !marked[idx] {
                    marked.set(idx, true);
                    newly.push(idx);
                    proof {
                        assert forall|j: int| 0 <= j < marked@.len() implies (#[trigger] marked@[j]
                            <==> newly@.contains(j as usize)) by {
                            if j == idx as int {
                                assert(newly@[newly@.len() - 1] == idx);
                            } else {
                                if newly@.contains(j as usize) {
                                    let w = choose|w: int|
                                        0 <= w < newly@.len() && newly@[w] == j as usize;
                                    if w < before_list.len() {
                                        assert(before_list[w] == j as usize);
                                    }
                                }
                                if before_list.contains(j as usize) {
                                    let w = choose|w: int|
                                        0 <= w < before_list.len() && before_list[w] == j as usize;
                                    assert(newly@[w] == j as usize);
                                }
                            }
                        }
                        assert forall|k: int| 0 <= k < newly@.len() implies #[trigger] newly@[k]
                            < marked@.len() by {
                            if k < before_list.len() {
                                assert(newly@[k] == before_list[k]);
                            }
                        }
                        assert(!before_list.contains(idx));
                        assert(newly@.subrange(0, l0.len() as int) =~= before_list.subrange(
                            0,
                            l0.len() as int,
                        ));
                        assert forall|a: int, b: int|
                            l0.len() <= a < b < newly@.len() implies #[trigger] newly@[a]
                            < #[trigger] newly@[b] by {
                            assert(newly@[a] == before_list[a]);
                            if b < before_list.len() {
                                assert(newly@[b] == before_list[b]);
                            }
                        }
                        assert forall|a: int| l0.len() <= a < newly@.len() implies #[trigger] newly@[a]
                            < z * plane + y * dims.nx + x + 1 by {
                            if a < before_list.len() {
                                assert(newly@[a] == before_list[a]);
                            }
                        }
                        assert(newly@.no_duplicates()) by {
                            assert forall|a: int, b: int|
                                0 <= a < newly@.len() && 0 <= b < newly@.len() && a != b implies newly@[a]
                                != newly@[b] by {
                                if a < before_list.len() && b < before_list.len() {
                                    assert(newly@[a] == before_list[a]);
                                    assert(newly@[b] == before_list[b]);
                                } else if a < before_list.len() {
                                    assert(newly@[a] == before_list[a]);
                                } else if b < before_list.len() {
                                    assert(newly@[b] == before_list[b]);
                                }
                            }
                        }
                    }
                }
                proof {
                    assert forall|j: int| 0 <= j < dims.total() implies #[trigger] marked@[j] == (
                    my[j] || exists|xx: int|
                        #![trigger dims.index_of(xx, y as int, z as int)]
                        xl <= xx < x + 1 && j == dims.index_of(xx, y as int, z as int)) by {
                        if j == idx as int {
                            assert(dims.index_of(x as int, y as int, z as int) == j);
                        } else {
                            assert(marked@[j] == before[j]);
                            if exists|xx: int|
                                #![trigger dims.index_of(xx, y as int, z as int)]
                                xl <= xx < x + 1 && j == dims.index_of(xx, y as int, z as int) {
                                let xx = choose|xx: int|
                                    #![trigger dims.index_of(xx, y as int, z as int)]
                                    xl <= xx < x + 1 && j == dims.index_of(xx, y as int, z as int);
                                assert(xx != x);
                                assert(xl <= xx < x && j == dims.index_of(xx, y as int, z as int));
                            }
                        }
                    }
                }
                x = x + 1;
            }
            proof {
                assert forall|j: int| 0 <= j < dims.total() implies #[trigger] marked@[j] == (mz[j]
                    || exists|xx: int, yy: int|
                    #![trigger dims.index_of(xx, yy, z as int)]
                    yl <= yy < y + 1 && xl <= xx <= xh && j == dims.index_of(xx, yy, z as int)) by {
                    if exists|xx: int, yy: int|
                        #![trigger dims.index_of(xx, yy, z as int)]
                        yl <= yy < y + 1 && xl <= xx <= xh && j == dims.index_of(xx, yy, z as int) {
                        let (xx, yy) = choose|xx: int, yy: int|
                            #![trigger dims.index_of(xx, yy, z as int)]
                            yl <= yy < y + 1 && xl <= xx <= xh && j == dims.index_of(xx, yy, z as int);
                        if yy == y {
                            assert(xl <= xx < x && j == dims.index_of(xx, y as int, z as int));
                        } else {
                            assert(yl <= yy < y && xl <= xx <= xh && j == dims.index_of(
                                xx,
                                yy,
                                z as int,
                            ));
                        }
                    }
                    if marked@[j] && !mz[j] {
                        if my[j] {
                            let (xx, yy) = choose|xx: int, yy: int|
                                #![trigger dims.index_of(xx, yy, z as int)]
                                yl <= yy < y && xl <= xx <= xh && j == dims.index_of(xx, yy, z as int);
                            assert(yl <= yy < y + 1 && xl <= xx <= xh && j == dims.index_of(
                                xx,
                                yy,
                                z as int,
                            ));
                        } else {
                            let xx = choose|xx: int|
                                #![trigger dims.index_of(xx, y as int, z as int)]
                                xl <= xx < x && j == dims.index_of(xx, y as int, z as int);
                            assert(yl <= y < y + 1 && xl <= xx <= xh && j == dims.index_of(
                                xx,
                                y as int,
                                z as int,
                            ));
                        }
                    }
                }
            }
            proof {
                assert((y + 1) * dims.nx == y * dims.nx + dims.nx) by (nonlinear_arith);
                assert(z * plane + y * dims.nx + x <= z * plane + (y + 1) * dims.nx + xl);
            }
            y = y + 1;
        }
        proof {
            assert forall|j: int| 0 <= j < dims.total() implies #[trigger] marked@[j] == (m0[j]
                || exists|xx: int, yy: int, zz: int|
                #![trigger dims.index_of(xx, yy, zz)]
                zl <= zz < z + 1 && yl <= yy <= yh && xl <= xx <= xh && j == dims.index_of(
                    xx,
                    yy,
                    zz,
                )) by {
                if exists|xx: int, yy: int, zz: int|
                    #![trigger dims.index_of(xx, yy, zz)]
                    zl <= zz < z + 1 && yl <= yy <= yh && xl <= xx <= xh && j == dims.index_of(
                        xx,
                        yy,
                        zz,
                    ) {
                    let (xx, yy, zz) = choose|xx: int, yy: int, zz: int|
                        #![trigger dims.index_of(xx, yy, zz)]
                        zl <= zz < z + 1 && yl <= yy <= yh && xl <= xx <= xh && j == dims.index_of(
                            xx,
                            yy,
                            zz,
                        );
                    if zz == z {
                        assert(yl <= yy < y && xl <= xx <= xh && j == dims.index_of(xx, yy, z as int));
                    } else {
                        assert(zl <= zz < z && yl <= yy <= yh && xl <= xx <= xh && j
                            == dims.index_of(xx, yy, zz));
                    }
                }
                if marked@[j] && !m0[j] {
                    if mz[j] {
                        let (xx, yy, zz) = choose|xx: int, yy: int, zz: int|
                            #![trigger dims.index_of(xx, yy, zz)]
                            zl <= zz < z && yl <= yy <= yh && xl <= xx <= xh && j == dims.index_of(
                                xx,
                                yy,
                                zz,
                            );
                        assert(zl <= zz < z + 1 && yl <= yy <= yh && xl <= xx <= xh && j
                            == dims.index_of(xx, yy, zz));
                    } else {
                        let (xx, yy) = choose|xx: int, yy: int|
                            #![trigger dims.index_of(xx, yy, z as int)]
                            yl <= yy < y && xl <= xx <= xh && j == dims.index_of(xx, yy, z as int);
                        assert(zl <= z < z + 1 && yl <= yy <= yh && xl <= xx <= xh && j
                            == dims.index_of(xx, yy, z as int));
                    }
                }
            }
        }
        proof {
            assert((z + 1) * plane == z * plane + plane) by (nonlinear_arith);
            assert(y * dims.nx <= plane) by (nonlinear_arith)
                requires
                    y <= dims.ny,
                    plane == dims.ny * dims.nx,
                    dims.nx >= 0,
            ;
            assert(z * plane + y * dims.nx + xl <= (z + 1) * plane + yl * dims.nx + xl) by (nonlinear_arith)
                requires
                    y * dims.nx <= plane,
                    (z + 1) * plane == z * plane + plane,
                    yl >= 0,
                    dims.nx >= 0,
            ;
        }
        z = z + 1;
    }
    proof {
        assert forall|j: int| 0 <= j < dims.total() implies #[trigger] marked@[j] == (m0[j]
            || cube_covers(*dims, ci, r as int, j)) by {
            if cube_covers(*dims, ci, r as int, j) {
                let (xx, yy, zz) = choose|xx: int, yy: int, zz: int|
                    #![trigger dims.index_of(xx, yy, zz)]
                    in_clipped_cube(*dims, ci, r as int, xx, yy, zz) && j == dims.index_of(
                        xx,
                        yy,
                        zz,
                    );
                assert(zl <= zz < z && yl <= yy <= yh && xl <= xx <= xh && j == dims.index_of(
                    xx,
                    yy,
                    zz,
                ));
            }
            if marked@[j] && !m0[j] {
                let (xx, yy, zz) = choose|xx: int, yy: int, zz: int|
                    #![trigger dims.index_of(xx, yy, zz)]
                    zl <= zz < z && yl <= yy <= yh && xl <= xx <= xh && j == dims.index_of(
                        xx,
                        yy,
                        zz,
                    );
                assert(in_clipped_cube(*dims, ci, r as int, xx, yy, zz));
            }
        }
    }
}

/// Number of `true` entries.
pub open spec fn count_true(s: Seq<bool>) -> nat
    decreases s.len(),
{
    if s.len() == 0 {
        0
    } else {
        count_true(s.drop_last()) + if s.last() {
            1nat
        } else {
            0nat
        }
    }
}

/// The cell `(x, y, z)` is within one cell (in every axis) of the cell at
/// one of the positions of `list`.
pub open spec fn next_to_listed(d: GridDims, list: Seq<usize>, x: int, y: int, z: int) -> bool {
    exists|k: int|
        0 <= k < list.len() && {
            let c = d.coords_of(#[trigger] list[k] as int);
            &&& c.0 - 1 <= x <= c.0 + 1
            &&& c.1 - 1 <= y <= c.1 + 1
            &&& c.2 - 1 <= z <= c.2 + 1
        }
}

/// Active cell number `w` of `list` is the first whose surrounding cube
/// (radius one) covers position `j`.
pub open spec fn first_cover(d: GridDims, list: Seq<usize>, w: int, j: int) -> bool {
    &&& 0 <= w < list.len()
    &&& cube_covers(d, d.coords_of(list[w] as int), 1, j)
    &&& forall|v: int| 0 <= v < w ==> !cube_covers(d, d.coords_of(#[trigger] list[v] as int), 1, j)
}

/// A position has at most one first covering cell.
proof fn lemma_first_cover_unique(d: GridDims, list: Seq<usize>, w1: int, w2: int, j: int)
    requires
        first_cover(d, list, w1, j),
        first_cover(d, list, w2, j),
    ensures
        w1 == w2,
{
    if w1 < w2 {
        assert(!cube_covers(d, d.coords_of(list[w1] as int), 1, j));
    } else if w2 < w1 {
        assert(!cube_covers(d, d.coords_of(list[w2] as int), 1, j));
    }
}

/// Active-cell tracker of a 3D grid: a flag per cell, the list of active
/// positions, and a scratch buffer of marks that is clear between calls.
pub struct ActiveCells {
    dims: GridDims,
    is_active: Vec<bool>,
    active_indices: Vec<usize>,
    marked: Vec<bool>,
}

impl ActiveCells {
    /// Resolution of the tracked grid.
    pub closed spec fn dims(&self) -> GridDims {
        self.dims
    }

    /// Active flag of every cell, by position.
    pub closed spec fn flags(&self) -> Seq<bool> {
        self.is_active@
    }

    /// Positions of the active cells, in the order they were activated.
    pub closed spec fn active_list(&self) -> Seq<usize> {
        self.active_indices@
    }

    /// The flags cover the grid, the list names exactly the active cells,
    /// each once, and no scratch mark is left set.
    pub closed spec fn wf(&self) -> bool {
        &&& self.dims.fits()
        &&& self.is_active@.len() == self.dims.total()
        &&& self.marked@.len() == self.dims.total()
        &&& forall|j: int| 0 <= j < self.dims.total() ==> !#[trigger] self.marked@[j]
        &&& list_matches_flags(self.is_active@, self.active_indices@)
    }

    /// Every cell of the grid is active exactly when it lies within
    /// Chebyshev distance `r` of one of the centers.
    pub open spec fn activated_by(&self, centers: Seq<(i32, i32, i32)>, r: int) -> bool {
        forall|x: int, y: int, z: int|
            #![trigger self.dims().index_of(x, y, z)]
            self.dims().in_bounds(x, y, z) ==> self.flags()[self.dims().index_of(x, y, z)]
                == near_some_center(centers, r, x, y, z)
    }

    /// A well-formed tracker has one flag per cell, and its list names
    /// exactly the active cells, each once.
    pub proof fn lemma_wf_list(&self)
        requires
            self.wf(),
        ensures
            self.flags().len() == self.dims().total(),
            self.dims().fits(),
            list_matches_flags(self.flags(), self.active_list()),
    {
    }

    /// Tracker for a grid with no active cell.
    pub fn new(dims: GridDims) -> (a: Self)
        requires
            dims.fits(),
        ensures
            a.wf(),
            a.dims() == dims,
            a.active_list().len() == 0,
            forall|j: int| 0 <= j < dims.total() ==> !#[trigger] a.flags()[j],
    {
        let total: usize = if dims.nx == 0 || dims.ny == 0 || dims.nz == 0 {
            proof {
                assert(dims.total() == 0) by (nonlinear_arith)
                    requires
                        dims.nx == 0 || dims.ny == 0 || dims.nz == 0,
                        dims.total() == dims.nx * dims.ny * dims.nz,
                ;
            }
            0
        } else {
            proof {
                assert(dims.nx * dims.ny <= dims.nx * dims.ny * dims.nz) by (nonlinear_arith)
                    requires
                        dims.nz >= 1,
                        dims.nx * dims.ny >= 0,
                ;
            }
            dims.nx * dims.ny * dims.nz
        };
        let mut is_active: Vec<bool> = Vec::new();
        let mut marked: Vec<bool> = Vec::new();
        let mut i: usize = 0;
        while i < total
            invariant
                i <= total,
                is_active@.len() == i,
                marked@.len() == i,
                forall|j: int| 0 <= j < i ==> !#[trigger] is_active@[j],
                forall|j: int| 0 <= j < i ==> !#[trigger] marked@[j],
            decreases total - i,
        {
            is_active.push(false);
            marked.push(false);
            i = i + 1;
        }
        ActiveCells { dims, is_active, active_indices: Vec::new(), marked }
    }

    /// Whether the cell at position `idx` is active.
    pub fn is_active(&self, idx: usize) -> (r: bool)
        requires
            self.wf(),
            idx < self.dims().total(),
        ensures
            r == self.flags()[idx as int],
    {
        self.is_active[idx]
    }

    /// Positions of the active cells.
    pub fn active_indices(&self) -> (r: &Vec<usize>)
        ensures
            r@ == self.active_list(),
    {
        &self.active_indices
    }

    /// Get number of active cells.
    pub fn active_cell_count(&self) -> (n: usize)
        requires
            self.wf(),
        ensures
            n == count_true(self.flags()),
    {
        let mut n: usize = 0;
        let mut i: usize = 0;
        while i < self.is_active.len()
            invariant
                i <= self.is_active@.len(),
                n == count_true(self.is_active@.subrange(0, i as int)),
                n <= i,
            decreases self.is_active.len() - i,
        {
            assert(self.is_active@.subrange(0, i + 1).drop_last() =~= self.is_active@.subrange(
                0,
                i as int,
            ));
            if self.is_active[i] {
                n = n + 1;
            }
            i = i + 1;
        }
        assert(self.is_active@.subrange(0, i as int) =~= self.is_active@);
        n
    }

    /// Activate exactly the cells of the grid within Chebyshev distance
    /// `cells_radius` of one of the `centers` (the grid cells that hold
    /// burning elements), deactivating every other cell. With no center, all
    /// cells end up inactive.
    pub fn mark_active_cells(&mut self, centers: &Vec<(i32, i32, i32)>, cells_radius: i32)
        requires
            old(self).wf(),
            centers@.len() <= u32::MAX,
        ensures
            final(self).wf(),
            final(self).dims() == old(self).dims(),
            final(self).activated_by(centers@, cells_radius as int),
    {
        let ghost d = self.dims;
        let ghost old_flags = self.is_active@;
        let ghost old_list = self.active_indices@;
        if centers.len() == 0 {
            let mut k: usize = 0;
            while k < self.active_indices.len()
                invariant
                    self.dims == d,
                    d.fits(),
                    self.is_active@.len() == d.total(),
                    self.active_indices@ == old_list,
                    self.marked@ == old(self).marked@,
                    old(self).wf(),
                    old(self).dims == d,
                    old(self).is_active@ == old_flags,
                    old(self).active_indices@ == old_list,
                    list_matches_flags(old_flags, old_list),
                    old_flags.len() == d.total(),
                    k <= old_list.len(),
                    forall|j: int|
                        0 <= j < d.total() ==> #[trigger] self.is_active@[j] == (old_flags[j]
                            && !old_list.subrange(0, k as int).contains(j as usize)),
                decreases self.active_indices.len() - k,
            {
                let idx = self.active_indices[k];
                self.is_active.set(idx, false);
                proof {
                    assert forall|j: int| 0 <= j < d.total() implies #[trigger] self.is_active@[j]
                        == (old_flags[j] && !old_list.subrange(0, k + 1).contains(j as usize)) by {
                        if old_list.subrange(0, k as int).contains(j as usize) {
                            let w = choose|w: int|
                                0 <= w < k && old_list.subrange(0, k as int)[w] == j as usize;
                            assert(old_list.subrange(0, k + 1)[w] == j as usize);
                        }
                        if old_list.subrange(0, k + 1).contains(j as usize) && j != idx {
                            let next_s = old_list.subrange(0, k + 1);
                            let w = choose|w: int|
                                0 <= w < k + 1 && next_s[w] == j as usize;
                            assert(old_list.subrange(0, k as int)[w] == j as usize);
                        }
                        if j == idx {
                            assert(old_list.subrange(0, k + 1)[k as int] == idx);
                        }
                    }
                }
                k = k + 1;
            }
            self.active_indices.clear();
            proof {
                assert(old_list.subrange(0, old_list.len() as int) =~= old_list);
                assert forall|x: int, y: int, z: int|
                    #![trigger self.dims.index_of(x, y, z)]
                    self.dims.in_bounds(x, y, z) implies self.is_active@[self.dims.index_of(
                        x,
                        y,
                        z,
                    )] == near_some_center(centers@, cells_radius as int, x, y, z) by {
                    lemma_index_in_range(d, x, y, z);
                    let j = d.index_of(x, y, z);
                    assert(old_list.subrange(0, old_list.len() as int).contains(j as usize)
                        == old_list.contains(j as usize));
                }
                assert forall|j: int| 0 <= j < self.is_active@.len() implies (
                #[trigger] self.is_active@[j] <==> self.active_indices@.contains(j as usize)) by {
                    assert(old_list.subrange(0, old_list.len() as int).contains(j as usize)
                        == old_list.contains(j as usize));
                }
            }
            return;
        }
        // Group the centers: each distinct center cell is processed once.
        let cap = if centers.len() / 4 > 0x10_0000 {
            0x10_0000
        } else {
            centers.len() / 4
        };
        let mut buckets: FxHashMap<(i32, i32, i32), u32> = fx_map_with_capacity(cap);
        let mut i: usize = 0;
        while i < centers.len()
            invariant
                i <= centers@.len(),
                centers@.len() <= u32::MAX,
                forall|key: (i32, i32, i32)|
                    buckets@.contains_key(key) <==> exists|k: int|
                        0 <= k < i && #[trigger] centers@[k] == key,
                forall|key: (i32, i32, i32)| buckets@.contains_key(key) ==> buckets@[key] <= i,
            decreases centers.len() - i,
        {
            let c = centers[i];
            let count = match count_map_get(&buckets, c) {
                Some(n) => n + 1,
                None => 1,
            };
            count_map_insert(&mut buckets, c, count);
            proof {
                assert forall|key: (i32, i32, i32)|
                    buckets@.contains_key(key) <==> exists|k: int|
                        0 <= k < i + 1 && #[trigger] centers@[k] == key by {
                    if key == c {
                        assert(centers@[i as int] == key);
                    } else if buckets@.contains_key(key) {
                        let k = choose|k: int| 0 <= k < i && #[trigger] centers@[k] == key;
                        assert(0 <= k < i + 1 && centers@[k] == key);
                    } else if exists|k: int| 0 <= k < i + 1 && #[trigger] centers@[k] == key {
                        let k = choose|k: int| 0 <= k < i + 1 && #[trigger] centers@[k] == key;
                        assert(k != i);
                    }
                }
            }
            i = i + 1;
        }
        let keys = count_map_keys(&buckets);
        let mut newly: Vec<usize> = Vec::new();
        let mut k: usize = 0;
        while k < keys.len()
            invariant
                self.dims == d,
                d.fits(),
                self.is_active@ == old_flags,
                self.active_indices@ == old_list,
                self.marked@.len() == d.total(),
                list_matches_flags(self.marked@, newly@),
                k <= keys@.len(),
                forall|j: int|
                    0 <= j < d.total() ==> #[trigger] self.marked@[j] == covered_by_prefix(
                        d,
                        keys@,
                        k as int,
                        cells_radius as int,
                        j,
                    ),
            decreases keys.len() - k,
        {
            let key = keys[k];
            mark_cube(
                &self.dims,
                &mut self.marked,
                &mut newly,
                (key.0 as i128, key.1 as i128, key.2 as i128),
                cells_radius as i128,
            );
            proof {
                assert forall|j: int| 0 <= j < d.total() implies #[trigger] self.marked@[j]
                    == covered_by_prefix(d, keys@, k + 1, cells_radius as int, j) by {
                    if covered_by_prefix(d, keys@, k + 1, cells_radius as int, j) {
                        let w = choose|w: int|
                            0 <= w < k + 1 && #[trigger] cube_covers(
                                d,
                                (keys@[w].0 as int, keys@[w].1 as int, keys@[w].2 as int),
                                cells_radius as int,
                                j,
                            );
                        if w < k {
                            assert(covered_by_prefix(d, keys@, k as int, cells_radius as int, j));
                        }
                    }
                    if covered_by_prefix(d, keys@, k as int, cells_radius as int, j) {
                        let w = choose|w: int|
                            0 <= w < k && #[trigger] cube_covers(
                                d,
                                (keys@[w].0 as int, keys@[w].1 as int, keys@[w].2 as int),
                                cells_radius as int,
                                j,
                            );
                        assert(0 <= w < k + 1);
                    }
                }
            }
            k = k + 1;
        }
        let ghost m_final = self.marked@;
        let ghost final_list = newly@;
        // Deactivate the cells that are no longer marked.
        let mut k: usize = 0;
        while k < self.active_indices.len()
            invariant
                self.dims == d,
                d.fits(),
                self.is_active@.len() == d.total(),
                self.marked@ == m_final,
                m_final.len() == d.total(),
                self.active_indices@ == old_list,
                list_matches_flags(old_flags, old_list),
                old_flags.len() == d.total(),
                k <= old_list.len(),
                forall|j: int|
                    0 <= j < d.total() ==> #[trigger] self.is_active@[j] == (old_flags[j] && (
                    m_final[j] || !old_list.subrange(0, k as int).contains(j as usize))),
            decreases self.active_indices.len() - k,
        {
            let idx = self.active_indices[k];
            if !self.marked[idx] {
                self.is_active.set(idx, false);
            }
            proof {
                assert forall|j: int| 0 <= j < d.total() implies #[trigger] self.is_active@[j] == (
                old_flags[j] && (m_final[j] || !old_list.subrange(0, k + 1).contains(
                    j as usize,
                ))) by {
                    if old_list.subrange(0, k as int).contains(j as usize) {
                        let w = choose|w: int|
                            0 <= w < k && old_list.subrange(0, k as int)[w] == j as usize;
                        assert(old_list.subrange(0, k + 1)[w] == j as usize);
                    }
                    if old_list.subrange(0, k + 1).contains(j as usize) && j != idx {
                        let next_s = old_list.subrange(0, k + 1);
                        let w = choose|w: int|
                            0 <= w < k + 1 && next_s[w] == j as usize;
                        assert(old_list.subrange(0, k as int)[w] == j as usize);
                    }
                    if j == idx {
                        assert(old_list.subrange(0, k + 1)[k as int] == idx);
                        assert(old_list.contains(idx));
                    }
                }
            }
            k = k + 1;
        }
        proof {
            assert(old_list.subrange(0, old_list.len() as int) =~= old_list);
        }
        // Activate the marked cells and clear the marks.
        let mut k: usize = 0;
        while k < newly.len()
            invariant
                self.dims == d,
                d.fits(),
                self.is_active@.len() == d.total(),
                self.marked@.len() == d.total(),
                newly@ == final_list,
                list_matches_flags(m_final, final_list),
                list_matches_flags(old_flags, old_list),
                m_final.len() == d.total(),
                old_flags.len() == d.total(),
                k <= final_list.len(),
                forall|j: int|
                    0 <= j < d.total() ==> #[trigger] self.is_active@[j] == ((old_flags[j]
                        && m_final[j]) || final_list.subrange(0, k as int).contains(j as usize)),
                forall|j: int|
                    0 <= j < d.total() ==> #[trigger] self.marked@[j] == (m_final[j]
                        && !final_list.subrange(0, k as int).contains(j as usize)),
            decreases newly.len() - k,
        {
            let idx = newly[k];
            self.is_active.set(idx, true);
            self.marked.set(idx, false);
            proof {
                assert forall|j: int| 0 <= j < d.total() implies #[trigger] self.is_active@[j] == (
                (old_flags[j] && m_final[j]) || final_list.subrange(0, k + 1).contains(j as usize))
                    by {
                    if final_list.subrange(0, k as int).contains(j as usize) {
                        let w = choose|w: int|
                            0 <= w < k && final_list.subrange(0, k as int)[w] == j as usize;
                        assert(final_list.subrange(0, k + 1)[w] == j as usize);
                    }
                    if final_list.subrange(0, k + 1).contains(j as usize) && j != idx {
                        let next_s = final_list.subrange(0, k + 1);
                        let w = choose|w: int|
                            0 <= w < k + 1 && next_s[w] == j as usize;
                        assert(final_list.subrange(0, k as int)[w] == j as usize);
                    }
                    if j == idx {
                        assert(final_list.subrange(0, k + 1)[k as int] == idx);
                    }
                }
                assert forall|j: int| 0 <= j < d.total() implies #[trigger] self.marked@[j] == (
                m_final[j] && !final_list.subrange(0, k + 1).contains(j as usize)) by {
                    if final_list.subrange(0, k as int).contains(j as usize) {
                        let w = choose|w: int|
                            0 <= w < k && final_list.subrange(0, k as int)[w] == j as usize;
                        assert(final_list.subrange(0, k + 1)[w] == j as usize);
                    }
                    if final_list.subrange(0, k + 1).contains(j as usize) && j != idx {
                        let next_s = final_list.subrange(0, k + 1);
                        let w = choose|w: int|
                            0 <= w < k + 1 && next_s[w] == j as usize;
                        assert(final_list.subrange(0, k as int)[w] == j as usize);
                    }
                    if j == idx {
                        assert(final_list.subrange(0, k + 1)[k as int] == idx);
                    }
                }
            }
            k = k + 1;
        }
        self.active_indices = newly;
        proof {
            assert(final_list.subrange(0, final_list.len() as int) =~= final_list);
            assert forall|j: int| 0 <= j < d.total() implies #[trigger] self.is_active@[j]
                == m_final[j] by {
                assert(final_list.subrange(0, final_list.len() as int).contains(j as usize)
                    == final_list.contains(j as usize));
            }
            assert forall|j: int| 0 <= j < d.total() implies !#[trigger] self.marked@[j] by {
                assert(final_list.subrange(0, final_list.len() as int).contains(j as usize)
                    == final_list.contains(j as usize));
            }
            assert forall|x: int, y: int, z: int|
                #![trigger self.dims.index_of(x, y, z)]
                self.dims.in_bounds(x, y, z) implies self.is_active@[self.dims.index_of(x, y, z)]
                == near_some_center(centers@, cells_radius as int, x, y, z) by {
                lemma_index_in_range(d, x, y, z);
                let j = d.index_of(x, y, z);
                let r = cells_radius as int;
                if near_some_center(centers@, r, x, y, z) {
                    let i = choose|i: int|
                        0 <= i < centers@.len() && {
                            let c = #[trigger] centers@[i];
                            &&& c.0 - r <= x <= c.0 + r
                            &&& c.1 - r <= y <= c.1 + r
                            &&& c.2 - r <= z <= c.2 + r
                        };
                    let c = centers@[i];
                    assert(buckets@.contains_key(c));
                    assert(keys@.contains(c));
                    let w = choose|w: int| 0 <= w < keys@.len() && keys@[w] == c;
                    assert(in_clipped_cube(d, (c.0 as int, c.1 as int, c.2 as int), r, x, y, z));
                    assert(cube_covers(d, (keys@[w].0 as int, keys@[w].1 as int, keys@[w].2 as int), r, j));
                    assert(covered_by_prefix(d, keys@, keys@.len() as int, r, j));
                }
                if m_final[j] {
                    let w = choose|w: int|
                        0 <= w < keys@.len() && #[trigger] cube_covers(
                            d,
                            (keys@[w].0 as int, keys@[w].1 as int, keys@[w].2 as int),
                            r,
                            j,
                        );
                    let c = keys@[w];
                    let (xx, yy, zz) = choose|xx: int, yy: int, zz: int|
                        #![trigger d.index_of(xx, yy, zz)]
                        in_clipped_cube(d, (c.0 as int, c.1 as int, c.2 as int), r, xx, yy, zz) && j
                            == d.index_of(xx, yy, zz);
                    lemma_index_injective(d, x, y, z, xx, yy, zz);
                    assert(keys@.contains(c));
                    assert(buckets@.contains_key(c));
                    let i = choose|i: int| 0 <= i < centers@.len() && #[trigger] centers@[i] == c;
                    assert(near_some_center(centers@, r, x, y, z));
                }
            }
        }
    }

    /// Positions of every cell within one cell (in each axis) of an active
    /// cell, each listed once: active cells are taken in list order, and the
    /// cells around each are visited with z slowest and x fastest, skipping
    /// those already listed.
    pub fn diffusion_cells(&mut self) -> (cells: Vec<usize>)
        requires
            old(self).wf(),
        ensures
            final(self).wf(),
            final(self).dims() == old(self).dims(),
            final(self).flags() == old(self).flags(),
            final(self).active_list() == old(self).active_list(),
            cells@.no_duplicates(),
            forall|k: int| 0 <= k < cells@.len() ==> #[trigger] cells@[k] < old(self).dims().total(),
            forall|x: int, y: int, z: int|
                #![trigger old(self).dims().index_of(x, y, z)]
                old(self).dims().in_bounds(x, y, z) ==> (cells@.contains(
                    old(self).dims().index_of(x, y, z) as usize,
                ) <==> next_to_listed(old(self).dims(), old(self).active_list(), x, y, z)),
            forall|a: int, b: int, wa: int, wb: int|
                0 <= a < b < cells@.len() && #[trigger] first_cover(
                    old(self).dims(),
                    old(self).active_list(),
                    wa,
                    cells@[a] as int,
                ) && #[trigger] first_cover(
                    old(self).dims(),
                    old(self).active_list(),
                    wb,
                    cells@[b] as int,
                ) ==> wa < wb || (wa == wb && cells@[a] < cells@[b]),
    {
        let ghost d = self.dims;
        let ghost list = self.active_indices@;
        let mut cells: Vec<usize> = Vec::new();
        let ghost mut owners: Seq<int> = Seq::empty();
        let mut k: usize = 0;
        while k < self.active_indices.len()
            invariant
                self.dims == d,
                d.fits(),
                self.active_indices@ == list,
                self.is_active@ == old(self).is_active@,
                list_matches_flags(old(self).is_active@, list),
                old(self).is_active@.len() == d.total(),
                self.marked@.len() == d.total(),
                list_matches_flags(self.marked@, cells@),
                k <= list.len(),
                forall|j: int|
                    0 <= j < d.total() ==> #[trigger] self.marked@[j] == exists|w: int|
                        0 <= w < k && cube_covers(d, d.coords_of(#[trigger] list[w] as int), 1, j),
                owners.len() == cells@.len(),
                forall|i: int|
                    0 <= i < cells@.len() ==> #[trigger] owners[i] < k && first_cover(
                        d,
                        list,
                        owners[i],
                        cells@[i] as int,
                    ),
                forall|i1: int, i2: int|
                    0 <= i1 < i2 < cells@.len() ==> #[trigger] owners[i1] < #[trigger] owners[i2]
                        || (owners[i1] == owners[i2] && cells@[i1] < cells@[i2]),
            decreases self.active_indices.len() - k,
        {
            let idx = self.active_indices[k];
            let (ix, iy, iz) = self.dims.cell_coords(idx);
            let ghost m_before = self.marked@;
            let ghost c_before = cells@;
            mark_cube(&self.dims, &mut self.marked, &mut cells, (ix as i128, iy as i128, iz as i128), 1);
            proof {
                let n0 = c_before.len();
                assert(cells@.subrange(0, n0 as int) == c_before);
                let new_owners = owners + Seq::new((cells@.len() - n0) as nat, |i: int| k as int);
                assert forall|i: int| n0 <= i < cells@.len() implies first_cover(
                    d,
                    list,
                    k as int,
                    cells@[i] as int,
                ) by {
                    let j = cells@[i] as int;
                    assert(cells@.contains(cells@[i]));
                    assert(0 <= j < d.total());
                    if m_before[j] {
                        let w = choose|w: int| 0 <= w < c_before.len() && c_before[w] == j as usize;
                        assert(cells@[w] == c_before[w]);
                        assert(cells@.no_duplicates());
                        assert(false);
                    }
                    assert(self.marked@[j]);
                    assert(d.coords_of(list[k as int] as int) == (ix as int, iy as int, iz as int));
                    assert forall|v: int| 0 <= v < k implies !cube_covers(
                        d,
                        d.coords_of(list[v] as int),
                        1,
                        j,
                    ) by {
                        if cube_covers(d, d.coords_of(list[v] as int), 1, j) {
                            assert(0 <= v < k && cube_covers(d, d.coords_of(list[v] as int), 1, j));
                        }
                    }
                }
                assert forall|i: int|
                    0 <= i < cells@.len() implies #[trigger] new_owners[i] < k + 1 && first_cover(
                    d,
                    list,
                    new_owners[i],
                    cells@[i] as int,
                ) by {
                    if i < n0 {
                        assert(cells@[i] == c_before[i]);
                    }
                }
                assert forall|i1: int, i2: int|
                    0 <= i1 < i2 < cells@.len() implies #[trigger] new_owners[i1]
                    < #[trigger] new_owners[i2] || (new_owners[i1] == new_owners[i2] && cells@[i1]
                    < cells@[i2]) by {
                    if i2 < n0 {
                        assert(cells@[i1] == c_before[i1] && cells@[i2] == c_before[i2]);
                        assert(owners[i1] < owners[i2] || (owners[i1] == owners[i2] && c_before[i1]
                            < c_before[i2]));
                    } else if i1 < n0 {
                        assert(new_owners[i1] == owners[i1]);
                    }
                }
                owners = new_owners;
                assert forall|j: int| 0 <= j < d.total() implies #[trigger] self.marked@[j] == exists|
                    w: int,
                |
                    0 <= w < k + 1 && cube_covers(d, d.coords_of(#[trigger] list[w] as int), 1, j) by {
                    if exists|w: int|
                        0 <= w < k + 1 && cube_covers(d, d.coords_of(#[trigger] list[w] as int), 1, j) {
                        let w = choose|w: int|
                            0 <= w < k + 1 && cube_covers(
                                d,
                                d.coords_of(#[trigger] list[w] as int),
                                1,
                                j,
                            );
                        if w < k {
                            assert(0 <= w < k && cube_covers(d, d.coords_of(list[w] as int), 1, j));
                        }
                    }
                }
            }
            k = k + 1;
        }
        let ghost m_final = self.marked@;
        let mut k: usize = 0;
        while k < cells.len()
            invariant
                self.dims == d,
                d.fits(),
                self.active_indices@ == list,
                self.is_active@ == old(self).is_active@,
                self.marked@.len() == d.total(),
                list_matches_flags(m_final, cells@),
                m_final.len() == d.total(),
                k <= cells@.len(),
                forall|j: int|
                    0 <= j < d.total() ==> #[trigger] self.marked@[j] == (m_final[j]
                        && !cells@.subrange(0, k as int).contains(j as usize)),
            decreases cells.len() - k,
        {
            let idx = cells[k];
            self.marked.set(idx, false);
            proof {
                assert forall|j: int| 0 <= j < d.total() implies #[trigger] self.marked@[j] == (
                m_final[j] && !cells@.subrange(0, k + 1).contains(j as usize)) by {
                    if cells@.subrange(0, k as int).contains(j as usize) {
                        let w = choose|w: int|
                            0 <= w < k && cells@.subrange(0, k as int)[w] == j as usize;
                        assert(cells@.subrange(0, k + 1)[w] == j as usize);
                    }
                    if cells@.subrange(0, k + 1).contains(j as usize) && j != idx {
                        let next_s = cells@.subrange(0, k + 1);
                        let w = choose|w: int|
                            0 <= w < k + 1 && next_s[w] == j as usize;
                        assert(cells@.subrange(0, k as int)[w] == j as usize);
                    }
                    if j == idx {
                        assert(cells@.subrange(0, k + 1)[k as int] == idx);
                    }
                }
            }
            k = k + 1;
        }
        proof {
            assert forall|a: int, b: int, wa: int, wb: int|
                0 <= a < b < cells@.len() && #[trigger] first_cover(d, list, wa, cells@[a] as int)
                    && #[trigger] first_cover(d, list, wb, cells@[b] as int) implies wa < wb || (wa
                == wb && cells@[a] < cells@[b]) by {
                lemma_first_cover_unique(d, list, wa, owners[a], cells@[a] as int);
                lemma_first_cover_unique(d, list, wb, owners[b], cells@[b] as int);
            }
            assert(cells@.subrange(0, cells@.len() as int) =~= cells@);
            assert forall|j: int| 0 <= j < d.total() implies !#[trigger] self.marked@[j] by {
                assert(cells@.subrange(0, cells@.len() as int).contains(j as usize)
                    == cells@.contains(j as usize));
            }
            assert forall|x: int, y: int, z: int|
                #![trigger d.index_of(x, y, z)]
                d.in_bounds(x, y, z) implies (cells@.contains(d.index_of(x, y, z) as usize)
                <==> next_to_listed(d, list, x, y, z)) by {
                lemma_index_in_range(d, x, y, z);
                let j = d.index_of(x, y, z);
                if next_to_listed(d, list, x, y, z) {
                    let w = choose|w: int|
                        0 <= w < list.len() && {
                            let c = d.coords_of(#[trigger] list[w] as int);
                            &&& c.0 - 1 <= x <= c.0 + 1
                            &&& c.1 - 1 <= y <= c.1 + 1
                            &&& c.2 - 1 <= z <= c.2 + 1
                        };
                    assert(in_clipped_cube(d, d.coords_of(list[w] as int), 1, x, y, z));
                    assert(cube_covers(d, d.coords_of(list[w] as int), 1, j));
                }
                if m_final[j] {
                    let w = choose|w: int|
                        0 <= w < list.len() && cube_covers(d, d.coords_of(#[trigger] list[w] as int), 1, j);
                    let c = d.coords_of(list[w] as int);
                    let (xx, yy, zz) = choose|xx: int, yy: int, zz: int|
                        #![trigger d.index_of(xx, yy, zz)]
                        in_clipped_cube(d, c, 1, xx, yy, zz) && j == d.index_of(xx, yy, zz);
                    lemma_index_injective(d, x, y, z, xx, yy, zz);
                }
            }
        }
        cells
    }
}

/// Number of cell layers a plume climbs: the rise in cells (as `i32`),
/// capped at 5.
pub open spec fn plume_levels(cells_to_rise: usize) -> int {
    let l = cells_to_rise as i32;
    if l < 5 {
        l as int
    } else {
        5
    }
}

/// A plume climbs `min(cells_to_rise, 5)` layers, and never more layers
/// than the rise in cells.
pub proof fn lemma_plume_levels(cells_to_rise: usize)
    ensures
        plume_levels(cells_to_rise) <= 5,
        plume_levels(cells_to_rise) <= cells_to_rise,
        5 <= cells_to_rise <= i32::MAX ==> plume_levels(cells_to_rise) == 5,
        cells_to_rise < 5 ==> plume_levels(cells_to_rise) == cells_to_rise,
{
    let l = cells_to_rise as i32;
    assert(cells_to_rise <= 0x7fff_ffff ==> l == cells_to_rise) by (bit_vector)
        requires
            l == cells_to_rise as i32,
    ;
    assert(l <= cells_to_rise) by (bit_vector)
        requires
            l == cells_to_rise as i32,
    ;
}

/// `(x, y, z)` receives heat and smoke from a plume over `source` that
/// climbs `levels` layers: it is a grid cell `dz` layers above the source,
/// `1 <= dz <= levels`, within `dz / 2` cells horizontally.
pub open spec fn in_plume(
    d: GridDims,
    source: (int, int, int),
    levels: int,
    dz: int,
    x: int,
    y: int,
    z: int,
) -> bool {
    &&& d.in_bounds(x, y, z)
    &&& 1 <= dz <= levels
    &&& z == source.2 + dz
    &&& source.0 - dz / 2 <= x <= source.0 + dz / 2
    &&& source.1 - dz / 2 <= y <= source.1 + dz / 2
}

/// Cell `(x1, y1, z1)` comes before `(x2, y2, z2)` in row-major order.
pub open spec fn lex_before(x1: int, y1: int, z1: int, x2: int, y2: int, z2: int) -> bool {
    ||| z1 < z2
    ||| z1 == z2 && y1 < y2
    ||| z1 == z2 && y1 == y2 && x1 < x2
}

/// Row-major order of cells is the order of their positions.
pub proof fn lemma_index_order(d: GridDims, x1: int, y1: int, z1: int, x2: int, y2: int, z2: int)
    requires
        d.in_bounds(x1, y1, z1),
        d.in_bounds(x2, y2, z2),
        lex_before(x1, y1, z1, x2, y2, z2),
    ensures
        d.index_of(x1, y1, z1) < d.index_of(x2, y2, z2),
{
    let nx = d.nx as int;
    let ny = d.ny as int;
    lemma_index_in_range(d, x1, y1, z1);
    lemma_index_in_range(d, x2, y2, z2);
    if z1 < z2 {
        assert(z1 * (ny * nx) + (ny * nx) <= z2 * (ny * nx)) by (nonlinear_arith)
            requires
                z1 < z2,
                ny * nx >= 0,
        ;
    } else if y1 < y2 {
        assert(y1 * nx + nx <= y2 * nx) by (nonlinear_arith)
            requires
                y1 < y2,
                nx >= 0,
        ;
    }
}

/// Cells that a rising plume reaches, as (position, layers above the
/// source), in row-major order. The plume over the source cell climbs
/// `min(cells_to_rise, 5)` layers and spreads `dz / 2` cells sideways at
/// `dz` layers up; cells outside the grid are skipped.
pub fn plume_targets(dims: &GridDims, source: (i32, i32, i32), cells_to_rise: usize) -> (targets:
    Vec<(usize, i32)>)
    requires
        dims.fits(),
        source.2 + 5 <= i32::MAX,
        i32::MIN + 2 <= source.0 <= i32::MAX - 2,
        i32::MIN + 2 <= source.1 <= i32::MAX - 2,
    ensures
        forall|a: int, b: int|
            0 <= a < b < targets@.len() ==> #[trigger] targets@[a].0 < #[trigger] targets@[b].0,
        forall|k: int|
            0 <= k < targets@.len() ==> {
                let t = #[trigger] targets@[k];
                let c = dims.coords_of(t.0 as int);
                &&& t.0 < dims.total()
                &&& in_plume(
                    *dims,
                    (source.0 as int, source.1 as int, source.2 as int),
                    plume_levels(cells_to_rise),
                    t.1 as int,
                    c.0,
                    c.1,
                    c.2,
                )
            },
        forall|dz: int, x: int, y: int|
            #![trigger dims.index_of(x, y, source.2 + dz)]
            in_plume(
                *dims,
                (source.0 as int, source.1 as int, source.2 as int),
                plume_levels(cells_to_rise),
                dz,
                x,
                y,
                source.2 + dz,
            ) ==> targets@.contains((dims.index_of(x, y, source.2 + dz) as usize, dz as i32)),
        forall|k: int|
            0 <= k < targets@.len() ==> 1 <= (#[trigger] targets@[k]).1 <= 5 && targets@[k].1
                <= cells_to_rise,
        forall|dz: int|
            #![trigger dims.index_of(source.0 as int, source.1 as int, source.2 + dz)]
            1 <= dz <= 5 && dz <= cells_to_rise <= i32::MAX && dims.in_bounds(
                source.0 as int,
                source.1 as int,
                source.2 + dz,
            ) ==> targets@.contains(
                (dims.index_of(source.0 as int, source.1 as int, source.2 + dz) as usize, dz as i32),
            ),
{
    proof {
        lemma_plume_levels(cells_to_rise);
    }
    let ghost src = (source.0 as int, source.1 as int, source.2 as int);
    let ghost levels = plume_levels(cells_to_rise);
    let mut targets: Vec<(usize, i32)> = Vec::new();
    let rise = cells_to_rise as i32;
    let max_dz = if rise < 5 {
        rise
    } else {
        5
    };
    if dims.nx == 0 || dims.ny == 0 || dims.nz == 0 {
        proof {
            assert forall|dz: int, x: int, y: int|
                #![trigger dims.index_of(x, y, source.2 + dz)]
                in_plume(*dims, src, levels, dz, x, y, source.2 + dz) implies targets@.contains(
                (dims.index_of(x, y, source.2 + dz) as usize, dz as i32)) by {}
        }
        return targets;
    }
    proof {
        assert(dims.total() > 0) by (nonlinear_arith)
            requires
                dims.nx > 0,
                dims.ny > 0,
                dims.nz > 0,
                dims.total() == dims.nx * dims.ny * dims.nz,
        ;
        lemma_plane_fits(*dims);
    }
    let plane = dims.ny * dims.nx;
    let nx = dims.nx as i128;
    let ny = dims.ny as i128;
    let nz = dims.nz as i128;
    let mut dz: i32 = 1;
    while dz <= max_dz
        invariant
            dims.fits(),
            dims.nx > 0 && dims.ny > 0 && dims.nz > 0,
            plane == dims.ny * dims.nx,
            plane <= dims.total(),
            nx == dims.nx && ny == dims.ny && nz == dims.nz,
            source.2 + 5 <= i32::MAX,
            i32::MIN + 2 <= source.0 <= i32::MAX - 2,
            i32::MIN + 2 <= source.1 <= i32::MAX - 2,
            src == (source.0 as int, source.1 as int, source.2 as int),
            max_dz == levels,
            levels <= 5,
            1 <= dz,
            dz <= max_dz + 1 || max_dz < 1,
            forall|a: int, b: int|
                0 <= a < b < targets@.len() ==> #[trigger] targets@[a].0 < #[trigger] targets@[b].0,
            forall|k: int|
                0 <= k < targets@.len() ==> {
                    let t = #[trigger] targets@[k];
                    let c = dims.coords_of(t.0 as int);
                    &&& t.0 < dims.total()
                    &&& in_plume(*dims, src, levels, t.1 as int, c.0, c.1, c.2)
                    &&& c.2 < source.2 + dz
                },
            forall|ddz: int, x: int, y: int|
                #![trigger dims.index_of(x, y, source.2 + ddz)]
                ddz < dz && in_plume(*dims, src, levels, ddz, x, y, source.2 + ddz)
                    ==> targets@.contains((dims.index_of(x, y, source.2 + ddz) as usize, ddz as i32)),
        decreases max_dz + 1 - dz,
    {
        let target_z = source.2 + dz;
        let spread = dz / 2;
        if target_z >= 0 && (target_z as i128) < nz {
            let cx = source.0 as i128;
            let cy = source.1 as i128;
            let sp = spread as i128;
            let x_lo = if cx - sp > 0 {
                cx - sp
            } else {
                0
            };
            let x_hi = if cx + sp < nx - 1 {
                cx + sp
            } else {
                nx - 1
            };
            let y_lo = if cy - sp > 0 {
                cy - sp
            } else {
                0
            };
            let y_hi = if cy + sp < ny - 1 {
                cy + sp
            } else {
                ny - 1
            };
            if x_lo <= x_hi && y_lo <= y_hi {
                let z = target_z as usize;
                let ghost before_level = targets@;
                let mut y = y_lo as usize;
                while y as i128 <= y_hi
                    invariant
                        dims.fits(),
                        dims.nx > 0 && dims.ny > 0 && dims.nz > 0,
                        plane == dims.ny * dims.nx,
                        plane <= dims.total(),
                        0 <= x_lo <= x_hi < dims.nx,
                        0 <= y_lo <= y_hi < dims.ny,
                        y_lo <= y <= y_hi + 1,
                        z < dims.nz,
                        z == source.2 + dz,
                        1 <= dz <= levels,
                        spread == dz / 2,
                        x_lo == if src.0 - spread > 0 { src.0 - spread } else { 0 },
                        x_hi == if src.0 + spread < dims.nx - 1 { src.0 + spread } else { dims.nx - 1 },
                        y_lo == if src.1 - spread > 0 { src.1 - spread } else { 0 },
                        y_hi == if src.1 + spread < dims.ny - 1 { src.1 + spread } else { dims.ny - 1 },
                        src == (source.0 as int, source.1 as int, source.2 as int),
                        targets@.len() >= before_level.len(),
                        targets@.subrange(0, before_level.len() as int) == before_level,
                        forall|a: int, b: int|
                            0 <= a < b < targets@.len() ==> #[trigger] targets@[a].0
                                < #[trigger] targets@[b].0,
                        forall|k: int|
                            0 <= k < targets@.len() ==> {
                                let t = #[trigger] targets@[k];
                                let c = dims.coords_of(t.0 as int);
                                &&& t.0 < dims.total()
                                &&& in_plume(*dims, src, levels, t.1 as int, c.0, c.1, c.2)
                                &&& lex_before(c.0, c.1, c.2, x_lo as int, y as int, z as int)
                            },
                        forall|k: int|
                            before_level.len() <= k < targets@.len() ==> (#[trigger] targets@[k]).1
                                == dz,
                        forall|xx: int, yy: int|
                            #![trigger dims.index_of(xx, yy, z as int)]
                            y_lo <= yy < y && x_lo <= xx <= x_hi ==> targets@.contains(
                                (dims.index_of(xx, yy, z as int) as usize, dz),
                            ),
                    decreases y_hi + 1 - y,
                {
                    let mut x = x_lo as usize;
                    while x as i128 <= x_hi
                        invariant
                            dims.fits(),
                            dims.nx > 0 && dims.ny > 0 && dims.nz > 0,
                            plane == dims.ny * dims.nx,
                            plane <= dims.total(),
                            0 <= x_lo <= x_hi < dims.nx,
                            y_lo <= y <= y_hi,
                            y_hi < dims.ny,
                            x_lo <= x <= x_hi + 1,
                            z < dims.nz,
                            z == source.2 + dz,
                            1 <= dz <= levels,
                            spread == dz / 2,
                            x_lo == if src.0 - spread > 0 { src.0 - spread } else { 0 },
                            x_hi == if src.0 + spread < dims.nx - 1 { src.0 + spread } else { dims.nx - 1 },
                            y_lo == if src.1 - spread > 0 { src.1 - spread } else { 0 },
                            y_hi == if src.1 + spread < dims.ny - 1 { src.1 + spread } else { dims.ny - 1 },
                            src == (source.0 as int, source.1 as int, source.2 as int),
                            targets@.len() >= before_level.len(),
                            targets@.subrange(0, before_level.len() as int) == before_level,
                            forall|a: int, b: int|
                                0 <= a < b < targets@.len() ==> #[trigger] targets@[a].0
                                    < #[trigger] targets@[b].0,
                            forall|k: int|
                                0 <= k < targets@.len() ==> {
                                    let t = #[trigger] targets@[k];
                                    let c = dims.coords_of(t.0 as int);
                                    &&& t.0 < dims.total()
                                    &&& in_plume(*dims, src, levels, t.1 as int, c.0, c.1, c.2)
                                    &&& lex_before(c.0, c.1, c.2, x as int, y as int, z as int)
                                },
                            forall|k: int|
                                before_level.len() <= k < targets@.len() ==> (
                                #[trigger] targets@[k]).1 == dz,
                            forall|xx: int, yy: int|
                                #![trigger dims.index_of(xx, yy, z as int)]
                                ((y_lo <= yy < y && x_lo <= xx <= x_hi) || (yy == y && x_lo <= xx
                                    < x)) ==> targets@.contains(
                                    (dims.index_of(xx, yy, z as int) as usize, dz),
                                ),
                        decreases x_hi + 1 - x,
                    {
                        proof {
                            lemma_index_in_range(*dims, x as int, y as int, z as int);
                            lemma_coords_of_index(*dims, x as int, y as int, z as int);
                            assert(y * dims.nx >= 0 && z * plane >= 0) by (nonlinear_arith)
                                requires
                                    y >= 0,
                                    z >= 0,
                                    plane >= 0,
                                    dims.nx >= 0,
                            ;
                        }
                        let idx = z * plane + y * dims.nx + x;
                        let ghost before = targets@;
                        targets.push((idx, dz));
                        proof {
                            assert forall|a: int, b: int|
                                0 <= a < b < targets@.len() implies #[trigger] targets@[a].0
                                < #[trigger] targets@[b].0 by {
                                if b == before.len() {
                                    let c = dims.coords_of(before[a].0 as int);
                                    lemma_coords_in_bounds(*dims, before[a].0 as int);
                                    lemma_index_order(
                                        *dims,
                                        c.0,
                                        c.1,
                                        c.2,
                                        x as int,
                                        y as int,
                                        z as int,
                                    );
                                } else {
                                    assert(targets@[a] == before[a]);
                                    assert(targets@[b] == before[b]);
                                }
                            }
                            assert forall|k: int| 0 <= k < targets@.len() implies {
                                let t = #[trigger] targets@[k];
                                let c = dims.coords_of(t.0 as int);
                                &&& t.0 < dims.total()
                                &&& in_plume(*dims, src, levels, t.1 as int, c.0, c.1, c.2)
                                &&& lex_before(c.0, c.1, c.2, x + 1, y as int, z as int)
                            } by {
                                if k < before.len() {
                                    assert(targets@[k] == before[k]);
                                }
                            }
                            assert forall|xx: int, yy: int|
                                #![trigger dims.index_of(xx, yy, z as int)]
                                ((y_lo <= yy < y && x_lo <= xx <= x_hi) || (yy == y && x_lo <= xx
                                    < x + 1)) implies targets@.contains(
                                (dims.index_of(xx, yy, z as int) as usize, dz)) by {
                                if yy == y && xx == x {
                                    assert(targets@[before.len() as int] == (idx, dz));
                                } else {
                                    let w = choose|w: int|
                                        0 <= w < before.len() && before[w] == (
                                            dims.index_of(xx, yy, z as int) as usize,
                                            dz,
                                        );
                                    assert(targets@[w] == before[w]);
                                }
                            }
                            assert(targets@.subrange(0, before_level.len() as int) =~= before_level) by {
                                assert(before.subrange(0, before_level.len() as int) == before_level);
                            }
                        }
                        x = x + 1;
                    }
                    proof {
                        assert forall|k: int| 0 <= k < targets@.len() implies {
                            let t = #[trigger] targets@[k];
                            let c = dims.coords_of(t.0 as int);
                            lex_before(c.0, c.1, c.2, x_lo as int, y + 1, z as int)
                        } by {}
                    }
                    y = y + 1;
                }
                proof {
                    assert forall|ddz: int, xx: int, yy: int|
                        #![trigger dims.index_of(xx, yy, source.2 + ddz)]
                        ddz < dz + 1 && in_plume(*dims, src, levels, ddz, xx, yy, source.2 + ddz)
                            implies targets@.contains(
                        (dims.index_of(xx, yy, source.2 + ddz) as usize, ddz as i32)) by {
                        if ddz < dz {
                            let w = choose|w: int|
                                0 <= w < before_level.len() && before_level[w] == (
                                    dims.index_of(xx, yy, source.2 + ddz) as usize,
                                    ddz as i32,
                                );
                            assert(targets@.subrange(0, before_level.len() as int)[w] == targets@[w]);
                        } else {
                            assert(dims.index_of(xx, yy, source.2 + ddz) == dims.index_of(
                                xx,
                                yy,
                                z as int,
                            ));
                        }
                    }
                }
            } else {
                proof {
                    assert forall|ddz: int, xx: int, yy: int|
                        #![trigger dims.index_of(xx, yy, source.2 + ddz)]
                        ddz < dz + 1 && in_plume(*dims, src, levels, ddz, xx, yy, source.2 + ddz)
                            implies targets@.contains(
                        (dims.index_of(xx, yy, source.2 + ddz) as usize, ddz as i32)) by {
                        if ddz == dz {
                            assert(false);
                        }
                    }
                }
            }
        } else {
            proof {
                assert forall|ddz: int, xx: int, yy: int|
                    #![trigger dims.index_of(xx, yy, source.2 + ddz)]
                    ddz < dz + 1 && in_plume(*dims, src, levels, ddz, xx, yy, source.2 + ddz)
                        implies targets@.contains(
                    (dims.index_of(xx, yy, source.2 + ddz) as usize, ddz as i32)) by {
                    if ddz == dz {
                        assert(false);
                    }
                }
            }
        }
        dz = dz + 1;
    }
    targets
}

/// `(x, y, z)` is a grid cell within Chebyshev distance `r` of `c`, other
/// than `c` itself: a cell that a fuel element at `c` heats by radiation.
pub open spec fn in_radiation_cube(d: GridDims, c: (int, int, int), r: int, x: int, y: int, z: int) -> bool {
    &&& in_clipped_cube(d, c, r, x, y, z)
    &&& !(x == c.0 && y == c.1 && z == c.2)
}

/// Cells around a fuel element's cell that receive its radiated heat: every
/// grid cell within `cells_radius` cells of `center` along each axis,
/// except `center` itself, as row-major positions in increasing order.
pub fn radiation_cells(dims: &GridDims, center: (i32, i32, i32), cells_radius: i32) -> (cells: Vec<
    usize,
>)
    requires
        dims.fits(),
    ensures
        forall|a: int, b: int|
            0 <= a < b < cells@.len() ==> #[trigger] cells@[a] < #[trigger] cells@[b],
        forall|k: int|
            0 <= k < cells@.len() ==> {
                let c = dims.coords_of((#[trigger] cells@[k]) as int);
                &&& cells@[k] < dims.total()
                &&& in_radiation_cube(
                    *dims,
                    (center.0 as int, center.1 as int, center.2 as int),
                    cells_radius as int,
                    c.0,
                    c.1,
                    c.2,
                )
            },
        forall|x: int, y: int, z: int|
            #![trigger dims.index_of(x, y, z)]
            in_radiation_cube(
                *dims,
                (center.0 as int, center.1 as int, center.2 as int),
                cells_radius as int,
                x,
                y,
                z,
            ) ==> cells@.contains(dims.index_of(x, y, z) as usize),
{
    let ghost ci = (center.0 as int, center.1 as int, center.2 as int);
    let ghost r = cells_radius as int;
    let mut cells: Vec<usize> = Vec::new();
    if dims.nx == 0 || dims.ny == 0 || dims.nz == 0 {
        return cells;
    }
    proof {
        assert(dims.total() > 0) by (nonlinear_arith)
            requires
                dims.nx > 0,
                dims.ny > 0,
                dims.nz > 0,
                dims.total() == dims.nx * dims.ny * dims.nz,
        ;
        lemma_plane_fits(*dims);
    }
    let plane = dims.ny * dims.nx;
    let nx = dims.nx as i128;
    let ny = dims.ny as i128;
    let nz = dims.nz as i128;
    let cx = center.0 as i128;
    let cy = center.1 as i128;
    let cz = center.2 as i128;
    let rr = cells_radius as i128;
    let x_lo = if cx - rr > 0 { cx - rr } else { 0 };
    let x_hi = if cx + rr < nx - 1 { cx + rr } else { nx - 1 };
    let y_lo = if cy - rr > 0 { cy - rr } else { 0 };
    let y_hi = if cy + rr < ny - 1 { cy + rr } else { ny - 1 };
    let z_lo = if cz - rr > 0 { cz - rr } else { 0 };
    let z_hi = if cz + rr < nz - 1 { cz + rr } else { nz - 1 };
    if x_lo > x_hi || y_lo > y_hi || z_lo > z_hi {
        return cells;
    }
    let mut z = z_lo as usize;
    while z as i128 <= z_hi
        invariant
            dims.fits(),
            dims.nx > 0 && dims.ny > 0 && dims.nz > 0,
            plane == dims.ny * dims.nx,
            plane <= dims.total(),
            0 <= x_lo <= x_hi < dims.nx,
            0 <= y_lo <= y_hi < dims.ny,
            0 <= z_lo <= z_hi < dims.nz,
            z_lo <= z <= z_hi + 1,
            ci == (cx as int, cy as int, cz as int),
            r == rr,
            x_lo == if ci.0 - r > 0 { ci.0 - r } else { 0 },
            x_hi == if ci.0 + r < dims.nx - 1 { ci.0 + r } else { dims.nx - 1 },
            y_lo == if ci.1 - r > 0 { ci.1 - r } else { 0 },
            y_hi == if ci.1 + r < dims.ny - 1 { ci.1 + r } else { dims.ny - 1 },
            z_lo == if ci.2 - r > 0 { ci.2 - r } else { 0 },
            z_hi == if ci.2 + r < dims.nz - 1 { ci.2 + r } else { dims.nz - 1 },
            forall|a: int, b: int|
                0 <= a < b < cells@.len() ==> #[trigger] cells@[a] < #[trigger] cells@[b],
            forall|k: int|
                0 <= k < cells@.len() ==> {
                    let c = dims.coords_of((#[trigger] cells@[k]) as int);
                    &&& cells@[k] < dims.total()
                    &&& in_radiation_cube(*dims, ci, r, c.0, c.1, c.2)
                    &&& c.2 < z
                },
            forall|xx: int, yy: int, zz: int|
                #![trigger dims.index_of(xx, yy, zz)]
                zz < z && in_radiation_cube(*dims, ci, r, xx, yy, zz) ==> cells@.contains(
                    dims.index_of(xx, yy, zz) as usize,
                ),
        decreases z_hi + 1 - z,
    {
        let mut y = y_lo as usize;
        while y as i128 <= y_hi
            invariant
                dims.fits(),
                dims.nx > 0 && dims.ny > 0 && dims.nz > 0,
                plane == dims.ny * dims.nx,
                plane <= dims.total(),
                0 <= x_lo <= x_hi < dims.nx,
                0 <= y_lo <= y_hi < dims.ny,
                z_lo <= z <= z_hi,
                z_hi < dims.nz,
                y_lo <= y <= y_hi + 1,
                ci == (cx as int, cy as int, cz as int),
                r == rr,
                x_lo == if ci.0 - r > 0 { ci.0 - r } else { 0 },
                x_hi == if ci.0 + r < dims.nx - 1 { ci.0 + r } else { dims.nx - 1 },
                y_lo == if ci.1 - r > 0 { ci.1 - r } else { 0 },
                y_hi == if ci.1 + r < dims.ny - 1 { ci.1 + r } else { dims.ny - 1 },
                z_lo == if ci.2 - r > 0 { ci.2 - r } else { 0 },
                z_hi == if ci.2 + r < dims.nz - 1 { ci.2 + r } else { dims.nz - 1 },
                forall|a: int, b: int|
                    0 <= a < b < cells@.len() ==> #[trigger] cells@[a] < #[trigger] cells@[b],
                forall|k: int|
                    0 <= k < cells@.len() ==> {
                        let c = dims.coords_of((#[trigger] cells@[k]) as int);
                        &&& cells@[k] < dims.total()
                        &&& in_radiation_cube(*dims, ci, r, c.0, c.1, c.2)
                        &&& lex_before(c.0, c.1, c.2, x_lo as int, y as int, z as int)
                    },
                forall|xx: int, yy: int, zz: int|
                    #![trigger dims.index_of(xx, yy, zz)]
                    (zz < z || (zz == z && yy < y)) && in_radiation_cube(*dims, ci, r, xx, yy, zz)
                        ==> cells@.contains(dims.index_of(xx, yy, zz) as usize),
            decreases y_hi + 1 - y,
        {
            let mut x = x_lo as usize;
            while x as i128 <= x_hi
                invariant
                    dims.fits(),
                    dims.nx > 0 && dims.ny > 0 && dims.nz > 0,
                    plane == dims.ny * dims.nx,
                    plane <= dims.total(),
                    0 <= x_lo <= x_hi < dims.nx,
                    z_lo <= z <= z_hi,
                    z_hi < dims.nz,
                    y_lo <= y <= y_hi,
                    y_hi < dims.ny,
                    x_lo <= x <= x_hi + 1,
                    ci == (cx as int, cy as int, cz as int),
                    r == rr,
                    x_lo == if ci.0 - r > 0 { ci.0 - r } else { 0 },
                    x_hi == if ci.0 + r < dims.nx - 1 { ci.0 + r } else { dims.nx - 1 },
                    y_lo == if ci.1 - r > 0 { ci.1 - r } else { 0 },
                    y_hi == if ci.1 + r < dims.ny - 1 { ci.1 + r } else { dims.ny - 1 },
                    z_lo == if ci.2 - r > 0 { ci.2 - r } else { 0 },
                    z_hi == if ci.2 + r < dims.nz - 1 { ci.2 + r } else { dims.nz - 1 },
                    forall|a: int, b: int|
                        0 <= a < b < cells@.len() ==> #[trigger] cells@[a] < #[trigger] cells@[b],
                    forall|k: int|
                        0 <= k < cells@.len() ==> {
                            let c = dims.coords_of((#[trigger] cells@[k]) as int);
                            &&& cells@[k] < dims.total()
                            &&& in_radiation_cube(*dims, ci, r, c.0, c.1, c.2)
                            &&& lex_before(c.0, c.1, c.2, x as int, y as int, z as int)
                        },
                    forall|xx: int, yy: int, zz: int|
                        #![trigger dims.index_of(xx, yy, zz)]
                        (zz < z || (zz == z && yy < y) || (zz == z && yy == y && xx < x))
                            && in_radiation_cube(*dims, ci, r, xx, yy, zz) ==> cells@.contains(
                            dims.index_of(xx, yy, zz) as usize,
                        ),
                decreases x_hi + 1 - x,
            {
                let is_center = x as i128 == cx && y as i128 == cy && z as i128 == cz;
                if !is_center {
                    proof {
                        lemma_index_in_range(*dims, x as int, y as int, z as int);
                        lemma_coords_of_index(*dims, x as int, y as int, z as int);
                        assert(y * dims.nx >= 0 && z * plane >= 0) by (nonlinear_arith)
                            requires
                                y >= 0,
                                z >= 0,
                                plane >= 0,
                                dims.nx >= 0,
                        ;
                    }
                    let idx = z * plane + y * dims.nx + x;
                    let ghost before = cells@;
                    cells.push(idx);
                    proof {
                        assert forall|a: int, b: int|
                            0 <= a < b < cells@.len() implies #[trigger] cells@[a]
                            < #[trigger] cells@[b] by {
                            if b == before.len() {
                                let c = dims.coords_of(before[a] as int);
                                lemma_coords_in_bounds(*dims, before[a] as int);
                                lemma_index_order(*dims, c.0, c.1, c.2, x as int, y as int, z as int);
                            } else {
                                assert(cells@[a] == before[a]);
                                assert(cells@[b] == before[b]);
                            }
                        }
                        assert forall|k: int| 0 <= k < cells@.len() implies {
                            let c = dims.coords_of((#[trigger] cells@[k]) as int);
                            &&& cells@[k] < dims.total()
                            &&& in_radiation_cube(*dims, ci, r, c.0, c.1, c.2)
                            &&& lex_before(c.0, c.1, c.2, x + 1, y as int, z as int)
                        } by {
                            if k < before.len() {
                                assert(cells@[k] == before[k]);
                            }
                        }
                        assert forall|xx: int, yy: int, zz: int|
                            #![trigger dims.index_of(xx, yy, zz)]
                            (zz < z || (zz == z && yy < y) || (zz == z && yy == y && xx < x + 1))
                                && in_radiation_cube(*dims, ci, r, xx, yy, zz) implies cells@.contains(
                            dims.index_of(xx, yy, zz) as usize) by {
                            if zz == z && yy == y && xx == x {
                                assert(cells@[before.len() as int] == idx);
                            } else {
                                let w = choose|w: int|
                                    0 <= w < before.len() && before[w] == dims.index_of(xx, yy, zz) as usize;
                                assert(cells@[w] == before[w]);
                            }
                        }
                    }
                }
                x = x + 1;
            }
            y = y + 1;
        }
        z = z + 1;
    }
    cells
}

/// The cells that marking activates depend only on the centers and the
/// radius: two trackers of the same grid activated by the same centers have
/// the same flags, whatever they held before.
pub proof fn lemma_activation_determined(
    a: &ActiveCells,
    b: &ActiveCells,
    centers: Seq<(i32, i32, i32)>,
    r: int,
)
    requires
        a.wf(),
        b.wf(),
        a.dims() == b.dims(),
        a.activated_by(centers, r),
        b.activated_by(centers, r),
    ensures
        a.flags() == b.flags(),
{
    let d = a.dims();
    assert forall|j: int| 0 <= j < a.flags().len() implies a.flags()[j] == b.flags()[j] by {
        lemma_coords_in_bounds(d, j);
        let c = d.coords_of(j);
        assert(a.flags()[d.index_of(c.0, c.1, c.2)] == near_some_center(centers, r, c.0, c.1, c.2));
        assert(b.flags()[d.index_of(c.0, c.1, c.2)] == near_some_center(centers, r, c.0, c.1, c.2));
    }
    assert(a.flags() =~= b.flags());
}

/// With no center, marking leaves no cell active.
pub proof fn lemma_no_center_no_activity(a: &ActiveCells, r: int)
    requires
        a.wf(),
        a.activated_by(Seq::empty(), r),
    ensures
        forall|j: int| 0 <= j < a.flags().len() ==> !#[trigger] a.flags()[j],
{
    let d = a.dims();
    assert forall|j: int| 0 <= j < a.flags().len() implies !#[trigger] a.flags()[j] by {
        lemma_coords_in_bounds(d, j);
        let c = d.coords_of(j);
        assert(a.flags()[d.index_of(c.0, c.1, c.2)] == near_some_center(
            Seq::<(i32, i32, i32)>::empty(),
            r,
            c.0,
            c.1,
            c.2,
        ));
    }
}

} // verus!
