use vstd::prelude::*;

use crate::cell::Cell;

verus! {

/// Sub-steps of one voxel side: a coordinate of `SUBDIV` is one voxel.
pub const SUBDIV: i64 = 1024;

/// Half of a voxel side, in sub-steps.
pub const HALF: i64 = 512;

/// Largest magnitude of a vertex coordinate, in sub-steps (2^37).
pub const COORD_LIMIT: i64 = 137438953472;

/// Largest magnitude of a cell coordinate that is tested (2^28).
pub const CELL_LIMIT: i32 = 268435456;

/// A point of the grid, in sub-steps: voxel `c` spans `[c * SUBDIV, (c + 1) * SUBDIV]`
/// along each axis.
#[derive(Clone, Copy, Debug, PartialEq, Eq, Structural)]
pub struct GridPoint {
    pub x: i64,
    pub y: i64,
    pub z: i64,
}

/// Each coordinate lies within `COORD_LIMIT`.
pub open spec fn point_ok(p: GridPoint) -> bool {
    &&& -COORD_LIMIT <= p.x <= COORD_LIMIT
    &&& -COORD_LIMIT <= p.y <= COORD_LIMIT
    &&& -COORD_LIMIT <= p.z <= COORD_LIMIT
}

/// Each coordinate lies within `CELL_LIMIT`.
pub open spec fn cell_ok(c: Cell) -> bool {
    &&& -CELL_LIMIT <= c.x <= CELL_LIMIT
    &&& -CELL_LIMIT <= c.y <= CELL_LIMIT
    &&& -CELL_LIMIT <= c.z <= CELL_LIMIT
}

/// Absolute value.
pub open spec fn abs(a: int) -> int {
    if a < 0 { -a } else { a }
}

/// Least of three.
pub open spec fn min3(a: int, b: int, c: int) -> int {
    if a <= b && a <= c { a } else if b <= c { b } else { c }
}

/// Greatest of three.
pub open spec fn max3(a: int, b: int, c: int) -> int {
    if a >= b && a >= c { a } else if b >= c { b } else { c }
}

/// Vector difference.
pub open spec fn vsub(a: (int, int, int), b: (int, int, int)) -> (int, int, int) {
    (a.0 - b.0, a.1 - b.1, a.2 - b.2)
}

/// Cross product.
pub open spec fn cross(a: (int, int, int), b: (int, int, int)) -> (int, int, int) {
    (a.1 * b.2 - a.2 * b.1, a.2 * b.0 - a.0 * b.2, a.0 * b.1 - a.1 * b.0)
}

/// Dot product.
pub open spec fn dot(a: (int, int, int), b: (int, int, int)) -> int {
    a.0 * b.0 + a.1 * b.1 + a.2 * b.2
}

/// Projection radius of the box of half side `HALF` on the axis `u`.
pub open spec fn radius(u: (int, int, int)) -> int {
    HALF * (abs(u.0) + abs(u.1) + abs(u.2))
}

/// The point as a vector.
pub open spec fn point_of(p: GridPoint) -> (int, int, int) {
    (p.x as int, p.y as int, p.z as int)
}

/// Center of the voxel `c`, in sub-steps.
pub open spec fn center_of(c: Cell) -> (int, int, int) {
    (c.x * SUBDIV + HALF, c.y * SUBDIV + HALF, c.z * SUBDIV + HALF)
}

/// Along one box axis, with the triangle's coordinates taken from the box
/// center: the closed box spans `[-HALF, HALF]`.
pub open spec fn face_separates(p0: int, p1: int, p2: int) -> bool {
    min3(p0, p1, p2) > HALF || max3(p0, p1, p2) < -HALF
}

/// The closed projections of box and triangle on `u` do not meet.
pub open spec fn axis_separates(a: (int, int, int), b: (int, int, int), e: (int, int, int), u: (int, int, int)) -> bool {
    let p0 = dot(a, u);
    let p1 = dot(b, u);
    let p2 = dot(e, u);
    min3(p0, p1, p2) > radius(u) || max3(p0, p1, p2) < -radius(u)
}

/// The plane of the triangle misses the closed box.
pub open spec fn plane_separates(a: (int, int, int), b: (int, int, int), e: (int, int, int)) -> bool {
    let n = cross(vsub(b, a), vsub(e, b));
    abs(dot(n, a)) > radius(n)
}

/// The three cross axes of edge `f` with the box axes x, y and z.
pub open spec fn edge_separates(a: (int, int, int), b: (int, int, int), e: (int, int, int), f: (int, int, int)) -> bool {
    ||| axis_separates(a, b, e, (0, -f.2, f.1))
    ||| axis_separates(a, b, e, (f.2, 0, -f.0))
    ||| axis_separates(a, b, e, (-f.1, f.0, 0))
}

/// Separating-axis test of the triangle against the voxel `c`: no box face
/// normal, nor the triangle's normal, nor any of the nine edge cross axes
/// separates them. The box is closed: a triangle that touches it meets it.
pub open spec fn triangle_hits_cell(v0: GridPoint, v1: GridPoint, v2: GridPoint, c: Cell) -> bool {
    let m = center_of(c);
    let a = vsub(point_of(v0), m);
    let b = vsub(point_of(v1), m);
    let e = vsub(point_of(v2), m);
    &&& !face_separates(a.0, b.0, e.0)
    &&& !face_separates(a.1, b.1, e.1)
    &&& !face_separates(a.2, b.2, e.2)
    &&& !plane_separates(a, b, e)
    &&& !edge_separates(a, b, e, vsub(b, a))
    &&& !edge_separates(a, b, e, vsub(e, b))
    &&& !edge_separates(a, b, e, vsub(a, e))
}

/// A vector of wide integers.
#[derive(Clone, Copy)]
struct Wide {
    x: i128,
    y: i128,
    z: i128,
}

spec fn wv(v: Wide) -> (int, int, int) {
    (v.x as int, v.y as int, v.z as int)
}

spec fn small(v: (int, int, int), m: int) -> bool {
    abs(v.0) <= m && abs(v.1) <= m && abs(v.2) <= m
}

proof fn lemma_mul_abs(a: int, b: int, ma: int, mb: int)
    requires
        abs(a) <= ma,
        abs(b) <= mb,
    ensures
        abs(a * b) <= ma * mb,
{
    assert(abs(a * b) == abs(a) * abs(b)) by (nonlinear_arith);
    assert(abs(a) * abs(b) <= ma * mb) by (nonlinear_arith)
        requires abs(a) <= ma, abs(b) <= mb, 0 <= abs(a), 0 <= abs(b);
}

fn min_of(a: i128, b: i128, c: i128) -> (r: i128)
    ensures
        r == min3(a as int, b as int, c as int),
{
    if a <= b && a <= c { a } else if b <= c { b } else { c }
}

fn max_of(a: i128, b: i128, c: i128) -> (r: i128)
    ensures
        r == max3(a as int, b as int, c as int),
{
    if a >= b && a >= c { a } else if b >= c { b } else { c }
}

fn abs_of(a: i128) -> (r: i128)
    requires
        a > i128::MIN,
    ensures
        r == abs(a as int),
{
    if a < 0 { -a } else { a }
}

fn wsub(a: Wide, b: Wide) -> (r: Wide)
    requires
        small(wv(a), 0x100_0000_0000),
        small(wv(b), 0x100_0000_0000),
    ensures
        wv(r) == vsub(wv(a), wv(b)),
        small(wv(r), 0x200_0000_0000),
{
    Wide { x: a.x - b.x, y: a.y - b.y, z: a.z - b.z }
}

/// Products of factors below 2^41 each.
fn wcross(a: Wide, b: Wide) -> (r: Wide)
    requires
        small(wv(a), 0x200_0000_0000),
        small(wv(b), 0x200_0000_0000),
    ensures
        wv(r) == cross(wv(a), wv(b)),
        small(wv(r), 0x8_0000_0000_0000_0000_0000),
{
    let ghost m: int = 0x200_0000_0000;
    proof {
        lemma_mul_abs(a.y as int, b.z as int, m, m);
        lemma_mul_abs(a.z as int, b.y as int, m, m);
        lemma_mul_abs(a.z as int, b.x as int, m, m);
        lemma_mul_abs(a.x as int, b.z as int, m, m);
        lemma_mul_abs(a.x as int, b.y as int, m, m);
        lemma_mul_abs(a.y as int, b.x as int, m, m);
    }
    Wide { x: a.y * b.z - a.z * b.y, y: a.z * b.x - a.x * b.z, z: a.x * b.y - a.y * b.x }
}

/// `a` below 2^83, `b` below 2^41.
fn wdot(a: Wide, b: Wide) -> (r: i128)
    requires
        small(wv(a), 0x8_0000_0000_0000_0000_0000),
        small(wv(b), 0x200_0000_0000),
    ensures
        r == dot(wv(a), wv(b)),
        abs(r as int) <= 3 * 0x8_0000_0000_0000_0000_0000 * 0x200_0000_0000,
{
    let ghost ma: int = 0x8_0000_0000_0000_0000_0000;
    let ghost mb: int = 0x200_0000_0000;
    proof {
        lemma_mul_abs(a.x as int, b.x as int, ma, mb);
        lemma_mul_abs(a.y as int, b.y as int, ma, mb);
        lemma_mul_abs(a.z as int, b.z as int, ma, mb);
    }
    a.x * b.x + a.y * b.y + a.z * b.z
}

fn wradius(u: Wide) -> (r: i128)
    requires
        small(wv(u), 0x8_0000_0000_0000_0000_0000),
    ensures
        r == radius(wv(u)),
{
    let s = abs_of(u.x) + abs_of(u.y) + abs_of(u.z);
    assert(HALF == 512);
    512 * s
}

fn face_apart(p0: i128, p1: i128, p2: i128) -> (r: bool)
    ensures
        r == face_separates(p0 as int, p1 as int, p2 as int),
{
    min_of(p0, p1, p2) > HALF as i128 || max_of(p0, p1, p2) < -(HALF as i128)
}

fn axis_apart(a: Wide, b: Wide, e: Wide, u: Wide) -> (r: bool)
    requires
        small(wv(a), 0x100_0000_0000),
        small(wv(b), 0x100_0000_0000),
        small(wv(e), 0x100_0000_0000),
        small(wv(u), 0x200_0000_0000),
    ensures
        r == axis_separates(wv(a), wv(b), wv(e), wv(u)),
{
    let p0 = wdot(u, a);
    let p1 = wdot(u, b);
    let p2 = wdot(u, e);
    proof {
        assert(dot(wv(u), wv(a)) == dot(wv(a), wv(u)));
        assert(dot(wv(u), wv(b)) == dot(wv(b), wv(u)));
        assert(dot(wv(u), wv(e)) == dot(wv(e), wv(u)));
    }
    let r = wradius(u);
    min_of(p0, p1, p2) > r || max_of(p0, p1, p2) < -r
}

fn edge_apart(a: Wide, b: Wide, e: Wide, f: Wide) -> (r: bool)
    requires
        small(wv(a), 0x100_0000_0000),
        small(wv(b), 0x100_0000_0000),
        small(wv(e), 0x100_0000_0000),
        small(wv(f), 0x200_0000_0000),
    ensures
        r == edge_separates(wv(a), wv(b), wv(e), wv(f)),
{
    axis_apart(a, b, e, Wide { x: 0, y: -f.z, z: f.y })
        || axis_apart(a, b, e, Wide { x: f.z, y: 0, z: -f.x })
        || axis_apart(a, b, e, Wide { x: -f.y, y: f.x, z: 0 })
}

/// Whether the triangle `v0 v1 v2` meets the voxel `c`, by the separating-axis
/// test, computed exactly.
pub fn triangle_aabb_intersect(v0: GridPoint, v1: GridPoint, v2: GridPoint, c: Cell) -> (r: bool)
    requires
        point_ok(v0),
        point_ok(v1),
        point_ok(v2),
        cell_ok(c),
    ensures
        r == triangle_hits_cell(v0, v1, v2, c),
{
    assert(SUBDIV == 1024 && HALF == 512 && COORD_LIMIT == 0x20_0000_0000 && CELL_LIMIT == 0x1000_0000);
    let m = Wide {
        x: c.x as i128 * 1024 + 512,
        y: c.y as i128 * 1024 + 512,
        z: c.z as i128 * 1024 + 512,
    };
    let a = Wide { x: v0.x as i128 - m.x, y: v0.y as i128 - m.y, z: v0.z as i128 - m.z };
    let b = Wide { x: v1.x as i128 - m.x, y: v1.y as i128 - m.y, z: v1.z as i128 - m.z };
    let e = Wide { x: v2.x as i128 - m.x, y: v2.y as i128 - m.y, z: v2.z as i128 - m.z };
    assert(wv(m) == center_of(c));
    if face_apart(a.x, b.x, e.x) || face_apart(a.y, b.y, e.y) || face_apart(a.z, b.z, e.z) {
        return false;
    }
    let f0 = wsub(b, a);
    let f1 = wsub(e, b);
    let f2 = wsub(a, e);
    let n = wcross(f0, f1);
    let dd = wdot(n, a);
    let rr = wradius(n);
    if abs_of(dd) > rr {
        return false;
    }
    !(edge_apart(a, b, e, f0) || edge_apart(a, b, e, f1) || edge_apart(a, b, e, f2))
}

} // verus!
