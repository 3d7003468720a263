use vstd::prelude::*;

use crate::cell::{Cell, VoxelSet};
use crate::geometry::{
    cell_ok, max3, min3, point_ok, triangle_aabb_intersect, triangle_hits_cell, GridPoint,
    COORD_LIMIT, CELL_LIMIT, SUBDIV,
};

verus! {

/// A named triangle mesh: every three consecutive indices into `positions`
/// form one triangle.
pub struct GridMesh {
    pub name: String,
    pub positions: Vec<GridPoint>,
    pub indices: Vec<u32>,
}

/// Why a mesh cannot be voxelized.
#[derive(Clone, Copy, Debug, PartialEq, Eq, Structural)]
pub enum MeshError {
    /// The index count is not a multiple of three, or an index names no vertex.
    BadIndex,
    /// A vertex coordinate lies beyond `COORD_LIMIT`.
    OutOfRange,
}

/// The indices form whole triangles of existing vertices.
pub open spec fn indices_ok(m: &GridMesh) -> bool {
    &&& m.indices@.len() % 3 == 0
    &&& forall|i: int| 0 <= i < m.indices@.len() ==> (#[trigger] m.indices@[i]) < m.positions@.len()
}

/// Every vertex lies within `COORD_LIMIT`.
pub open spec fn positions_ok(m: &GridMesh) -> bool {
    forall|i: int| 0 <= i < m.positions@.len() ==> point_ok(#[trigger] m.positions@[i])
}

/// Number of triangles.
pub open spec fn triangle_count(m: &GridMesh) -> int {
    m.indices@.len() as int / 3
}

/// Corner `k` of triangle `t`.
pub open spec fn corner(m: &GridMesh, t: int, k: int) -> GridPoint {
    m.positions@[m.indices@[3 * t + k] as int]
}

/// First cell of the span of three coordinates: the floor of the least.
pub open spec fn span_lo(p: int, q: int, r: int) -> int {
    min3(p, q, r) / (SUBDIV as int)
}

/// Last cell of the span of three coordinates: the ceiling of the greatest.
pub open spec fn span_hi(p: int, q: int, r: int) -> int {
    (max3(p, q, r) + SUBDIV - 1) / (SUBDIV as int)
}

/// The cell lies in the triangle's bounding box, widened to whole cells.
pub open spec fn in_span(v0: GridPoint, v1: GridPoint, v2: GridPoint, c: Cell) -> bool {
    &&& span_lo(v0.x as int, v1.x as int, v2.x as int) <= c.x <= span_hi(v0.x as int, v1.x as int, v2.x as int)
    &&& span_lo(v0.y as int, v1.y as int, v2.y as int) <= c.y <= span_hi(v0.y as int, v1.y as int, v2.y as int)
    &&& span_lo(v0.z as int, v1.z as int, v2.z as int) <= c.z <= span_hi(v0.z as int, v1.z as int, v2.z as int)
}

/// The rasterizer takes the cell for the triangle: the cell is in its span and
/// meets it.
pub open spec fn triangle_marks(v0: GridPoint, v1: GridPoint, v2: GridPoint, c: Cell) -> bool {
    in_span(v0, v1, v2, c) && triangle_hits_cell(v0, v1, v2, c)
}

/// Triangle `t` of the mesh takes the voxel `c`.
pub open spec fn triangle_hits(m: &GridMesh, t: int, c: Cell) -> bool {
    triangle_marks(corner(m, t, 0), corner(m, t, 1), corner(m, t, 2), c)
}

/// Some triangle before `n` meets the voxel `c`.
pub open spec fn hit_before(m: &GridMesh, n: int, c: Cell) -> bool {
    exists|t: int| 0 <= t < n && #[trigger] triangle_hits(m, t, c)
}

/// The voxels of the mesh: the cells that some triangle takes.
pub open spec fn mesh_voxels(m: &GridMesh) -> Set<Cell> {
    Set::new(|c: Cell| hit_before(m, triangle_count(m), c))
}

/// The box of cells from the low corner to the high corner, scanned
/// x-major, then y, then z, up to the cell `(a, b, t)`.
pub open spec fn scanned(lo: (int, int, int), hi: (int, int, int), a: int, b: int, t: int, d: Cell) -> bool {
    &&& lo.0 <= d.x <= hi.0 && lo.1 <= d.y <= hi.1 && lo.2 <= d.z <= hi.2
    &&& (d.x < a || (d.x == a && (d.y < b || (d.y == b && d.z < t))))
}

proof fn lemma_push_contains(s: Seq<Cell>, c: Cell)
    ensures
        forall|d: Cell| #[trigger] s.push(c).contains(d) == (s.contains(d) || d == c),
{
    assert forall|d: Cell| #[trigger] s.push(c).contains(d) == (s.contains(d) || d == c) by {
        if s.contains(d) {
            let i = choose|i: int| 0 <= i < s.len() && s[i] == d;
            assert(s.push(c)[i] == d);
        }
        if d == c {
            assert(s.push(c)[s.len() as int] == d);
        }
        if s.push(c).contains(d) {
            let i = choose|i: int| 0 <= i < s.len() + 1 && s.push(c)[i] == d;
            if i < s.len() {
                assert(s[i] == d);
            }
        }
    }
}

/// The span of three coordinates: `span_lo` to `span_hi`.
fn cell_span(p: i64, q: i64, r: i64) -> (res: (i64, i64))
    requires
        -COORD_LIMIT <= p <= COORD_LIMIT,
        -COORD_LIMIT <= q <= COORD_LIMIT,
        -COORD_LIMIT <= r <= COORD_LIMIT,
    ensures
        res.0 == span_lo(p as int, q as int, r as int),
        res.1 == span_hi(p as int, q as int, r as int),
        -CELL_LIMIT <= res.0 <= res.1 <= CELL_LIMIT,
{
    assert(SUBDIV == 1024 && COORD_LIMIT == 0x20_0000_0000 && CELL_LIMIT == 0x1000_0000);
    let mn = if p <= q && p <= r { p } else if q <= r { q } else { r };
    let mx = if p >= q && p >= r { p } else if q >= r { q } else { r };
    let a = (mn + 0x20_0000_0000) / 1024;
    let b = (mx + 0x20_0000_0000 + 1023) / 1024;
    let lo = a - 0x800_0000;
    let hi = b - 0x800_0000;
    proof {
        let sa = mn + 0x20_0000_0000;
        let sb = mx + 0x20_0000_0000 + 1023;
        assert(a * 1024 <= sa < a * 1024 + 1024) by {
            vstd::arithmetic::div_mod::lemma_fundamental_div_mod(sa as int, 1024);
            vstd::arithmetic::div_mod::lemma_mod_bound(sa as int, 1024);
        }
        assert(b * 1024 <= sb < b * 1024 + 1024) by {
            vstd::arithmetic::div_mod::lemma_fundamental_div_mod(sb as int, 1024);
            vstd::arithmetic::div_mod::lemma_mod_bound(sb as int, 1024);
        }
        let fl = (mn as int) / 1024;
        let ce = (mx as int + 1023) / 1024;
        assert(fl * 1024 <= mn < fl * 1024 + 1024) by {
            vstd::arithmetic::div_mod::lemma_fundamental_div_mod(mn as int, 1024);
            vstd::arithmetic::div_mod::lemma_mod_bound(mn as int, 1024);
        }
        assert(ce * 1024 <= mx + 1023 < ce * 1024 + 1024) by {
            vstd::arithmetic::div_mod::lemma_fundamental_div_mod(mx as int + 1023, 1024);
            vstd::arithmetic::div_mod::lemma_mod_bound(mx as int + 1023, 1024);
        }
    }
    (lo, hi)
}

/// Adds to `found` every cell that the triangle meets.
fn rasterize_triangle(v0: GridPoint, v1: GridPoint, v2: GridPoint, found: &mut Vec<Cell>)
    requires
        point_ok(v0),
        point_ok(v1),
        point_ok(v2),
    ensures
        forall|d: Cell| #[trigger] final(found)@.contains(d) == (old(found)@.contains(d) || triangle_marks(v0, v1, v2, d)),
{
    let (xlo, xhi) = cell_span(v0.x, v1.x, v2.x);
    let (ylo, yhi) = cell_span(v0.y, v1.y, v2.y);
    let (zlo, zhi) = cell_span(v0.z, v1.z, v2.z);
    let ghost lo = (xlo as int, ylo as int, zlo as int);
    let ghost hi = (xhi as int, yhi as int, zhi as int);
    let ghost pre = found@;
    proof {
    }
    let mut a: i64 = xlo;
    while a <= xhi
        invariant
            xlo <= a <= xhi + 1,
            -CELL_LIMIT <= xlo <= xhi <= CELL_LIMIT,
            -CELL_LIMIT <= ylo <= yhi <= CELL_LIMIT,
            -CELL_LIMIT <= zlo <= zhi <= CELL_LIMIT,
            lo == (xlo as int, ylo as int, zlo as int),
            hi == (xhi as int, yhi as int, zhi as int),
            point_ok(v0), point_ok(v1), point_ok(v2),
            xlo == span_lo(v0.x as int, v1.x as int, v2.x as int),
            xhi == span_hi(v0.x as int, v1.x as int, v2.x as int),
            ylo == span_lo(v0.y as int, v1.y as int, v2.y as int),
            yhi == span_hi(v0.y as int, v1.y as int, v2.y as int),
            zlo == span_lo(v0.z as int, v1.z as int, v2.z as int),
            zhi == span_hi(v0.z as int, v1.z as int, v2.z as int),
            forall|d: Cell| #[trigger] found@.contains(d) == (pre.contains(d) || (triangle_hits_cell(v0, v1, v2, d) && scanned(lo, hi, a as int, ylo as int, zlo as int, d))),
        decreases xhi + 1 - a,
    {
        let mut b: i64 = ylo;
        while b <= yhi
            invariant
                xlo <= a <= xhi,
                ylo <= b <= yhi + 1,
                -CELL_LIMIT <= xlo <= xhi <= CELL_LIMIT,
                -CELL_LIMIT <= ylo <= yhi <= CELL_LIMIT,
                -CELL_LIMIT <= zlo <= zhi <= CELL_LIMIT,
                lo == (xlo as int, ylo as int, zlo as int),
                hi == (xhi as int, yhi as int, zhi as int),
                point_ok(v0), point_ok(v1), point_ok(v2),
                forall|d: Cell| #[trigger] found@.contains(d) == (pre.contains(d) || (triangle_hits_cell(v0, v1, v2, d) && scanned(lo, hi, a as int, b as int, zlo as int, d))),
            decreases yhi + 1 - b,
        {
            let mut t: i64 = zlo;
            while t <= zhi
                invariant
                    xlo <= a <= xhi,
                    ylo <= b <= yhi,
                    zlo <= t <= zhi + 1,
                    -CELL_LIMIT <= xlo <= xhi <= CELL_LIMIT,
                    -CELL_LIMIT <= ylo <= yhi <= CELL_LIMIT,
                    -CELL_LIMIT <= zlo <= zhi <= CELL_LIMIT,
                    lo == (xlo as int, ylo as int, zlo as int),
                    hi == (xhi as int, yhi as int, zhi as int),
                    point_ok(v0), point_ok(v1), point_ok(v2),
                    forall|d: Cell| #[trigger] found@.contains(d) == (pre.contains(d) || (triangle_hits_cell(v0, v1, v2, d) && scanned(lo, hi, a as int, b as int, t as int, d))),
                decreases zhi + 1 - t,
            {
                let c = Cell { x: a as i32, y: b as i32, z: t as i32 };
                assert(cell_ok(c));
                if triangle_aabb_intersect(v0, v1, v2, c) {
                    proof {
                        lemma_push_contains(found@, c);
                    }
                    found.push(c);
                }
                t = t + 1;
            }
            proof {
                assert forall|d: Cell| #[trigger] found@.contains(d) == (pre.contains(d) || (triangle_hits_cell(v0, v1, v2, d) && scanned(lo, hi, a as int, b + 1, zlo as int, d))) by {
                    assert(scanned(lo, hi, a as int, b as int, zhi + 1, d) == scanned(lo, hi, a as int, b + 1, zlo as int, d));
                }
            }
            b = b + 1;
        }
        proof {
            assert forall|d: Cell| #[trigger] found@.contains(d) == (pre.contains(d) || (triangle_hits_cell(v0, v1, v2, d) && scanned(lo, hi, a + 1, ylo as int, zlo as int, d))) by {
                assert(scanned(lo, hi, a as int, yhi + 1, zlo as int, d) == scanned(lo, hi, a + 1, ylo as int, zlo as int, d));
            }
        }
        a = a + 1;
    }
    proof {
        assert forall|d: Cell| #[trigger] found@.contains(d) == (pre.contains(d) || triangle_marks(v0, v1, v2, d)) by {
            assert(scanned(lo, hi, xhi + 1, ylo as int, zlo as int, d) == in_span(v0, v1, v2, d));
        }
    }
}

/// The voxels of the mesh: every cell that one of its triangles meets, each
/// once. Fails with `BadIndex` when the indices do not form whole triangles
/// of existing vertices, else with `OutOfRange` when a vertex lies beyond
/// `COORD_LIMIT`.
pub fn voxelize(mesh: &GridMesh) -> (r: Result<VoxelSet, MeshError>)
    ensures
        match r {
            Ok(v) => indices_ok(mesh) && positions_ok(mesh) && v.wf() && v@ == mesh_voxels(mesh),
            Err(MeshError::BadIndex) => !indices_ok(mesh),
            Err(MeshError::OutOfRange) => indices_ok(mesh) && !positions_ok(mesh),
        },
{
    let n_idx = mesh.indices.len();
    let n_pos = mesh.positions.len();
    if n_idx % 3 != 0 {
        return Err(MeshError::BadIndex);
    }
    let mut i: usize = 0;
    while i < n_idx
        invariant
            i <= n_idx,
            n_idx == mesh.indices@.len(),
            n_pos == mesh.positions@.len(),
            forall|j: int| 0 <= j < i ==> (#[trigger] mesh.indices@[j]) < n_pos,
        decreases n_idx - i,
    {
        if mesh.indices[i] as usize >= n_pos {
            return Err(MeshError::BadIndex);
        }
        i = i + 1;
    }
    let mut k: usize = 0;
    while k < n_pos
        invariant
            k <= n_pos,
            n_pos == mesh.positions@.len(),
            indices_ok(mesh),
            forall|j: int| 0 <= j < k ==> point_ok(#[trigger] mesh.positions@[j]),
        decreases n_pos - k,
    {
        let p = mesh.positions[k];
        if !(-COORD_LIMIT <= p.x && p.x <= COORD_LIMIT && -COORD_LIMIT <= p.y && p.y <= COORD_LIMIT
            && -COORD_LIMIT <= p.z && p.z <= COORD_LIMIT) {
            return Err(MeshError::OutOfRange);
        }
        k = k + 1;
    }
    let n_tri = n_idx / 3;
    let mut found: Vec<Cell> = Vec::new();
    let mut t: usize = 0;
    while t < n_tri
        invariant
            t <= n_tri,
            n_tri == triangle_count(mesh),
            n_idx == mesh.indices@.len(),
            indices_ok(mesh),
            positions_ok(mesh),
            forall|d: Cell| #[trigger] found@.contains(d) == hit_before(mesh, t as int, d),
        decreases n_tri - t,
    {
        let v0 = mesh.positions[mesh.indices[3 * t] as usize];
        let v1 = mesh.positions[mesh.indices[3 * t + 1] as usize];
        let v2 = mesh.positions[mesh.indices[3 * t + 2] as usize];
        assert(v0 == corner(mesh, t as int, 0) && v1 == corner(mesh, t as int, 1) && v2 == corner(mesh, t as int, 2));
        rasterize_triangle(v0, v1, v2, &mut found);
        proof {
            assert forall|d: Cell| #[trigger] found@.contains(d) == hit_before(mesh, t + 1, d) by {
                if hit_before(mesh, t as int, d) {
                    let w = choose|w: int| 0 <= w < t && #[trigger] triangle_hits(mesh, w, d);
                    assert(0 <= w < t + 1);
                }
                if triangle_hits(mesh, t as int, d) {
                    assert(hit_before(mesh, t + 1, d));
                }
                if hit_before(mesh, t + 1, d) {
                    let w = choose|w: int| 0 <= w < t + 1 && #[trigger] triangle_hits(mesh, w, d);
                    if w < t {
                        assert(hit_before(mesh, t as int, d));
                    }
                }
            }
        }
        t = t + 1;
    }
    let v = VoxelSet::from_cells(&found);
    proof {
        assert(v@ =~= mesh_voxels(mesh)) by {
            assert forall|d: Cell| v@.contains(d) == mesh_voxels(mesh).contains(d) by {
                assert(found@.contains(d) == hit_before(mesh, n_tri as int, d));
            }
        }
    }
    Ok(v)
}

/// A mesh without triangles has no voxels.
pub proof fn lemma_no_triangles_no_voxels(m: &GridMesh)
    requires
        m.indices@.len() == 0,
    ensures
        mesh_voxels(m) == Set::<Cell>::empty(),
{
    assert(mesh_voxels(m) =~= Set::<Cell>::empty());
}

proof fn lemma_axis_one_cell(v: int, k1: int, k2: int)
    requires
        v / 1024 <= k1 <= (v + 1023) / 1024,
        v / 1024 <= k2 <= (v + 1023) / 1024,
        k1 * 1024 <= v <= k1 * 1024 + 1024,
        k2 * 1024 <= v <= k2 * 1024 + 1024,
    ensures
        k1 == k2,
{
    vstd::arithmetic::div_mod::lemma_fundamental_div_mod(v, 1024);
    vstd::arithmetic::div_mod::lemma_mod_bound(v, 1024);
    vstd::arithmetic::div_mod::lemma_fundamental_div_mod(v + 1023, 1024);
    vstd::arithmetic::div_mod::lemma_mod_bound(v + 1023, 1024);
}

/// A triangle shrunk to one point takes at most one voxel.
pub proof fn lemma_point_triangle_one_cell(p: GridPoint, c1: Cell, c2: Cell)
    requires
        triangle_marks(p, p, p, c1),
        triangle_marks(p, p, p, c2),
    ensures
        c1 == c2,
{
    assert(SUBDIV == 1024 && crate::geometry::HALF == 512);
    lemma_axis_one_cell(p.x as int, c1.x as int, c2.x as int);
    lemma_axis_one_cell(p.y as int, c1.y as int, c2.y as int);
    lemma_axis_one_cell(p.z as int, c1.z as int, c2.z as int);
}

} // verus!
