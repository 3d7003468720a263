use vstd::prelude::*;

use crate::cell::{lemma_distinct_len, scan_lt, strictly_scanned, Cell, VoxelSet};

verus! {

/// An axis-aligned box of whole cells: `width` along x, `height` along y,
/// `depth` along z, from the lowest corner `origin`. `uv_u` and `uv_v` place
/// the texture, left at `(0, 0)`.
#[derive(Clone, Copy, Debug, PartialEq, Eq, Structural)]
pub struct Cuboid {
    pub origin: Cell,
    pub width: i32,
    pub height: i32,
    pub depth: i32,
    pub uv_u: i32,
    pub uv_v: i32,
}

/// The cuboid holds the cell.
pub open spec fn covers(b: Cuboid, c: Cell) -> bool {
    &&& b.origin.x <= c.x < b.origin.x + b.width
    &&& b.origin.y <= c.y < b.origin.y + b.height
    &&& b.origin.z <= c.z < b.origin.z + b.depth
}

/// Some cuboid of the list holds the cell.
pub open spec fn covered_by(s: Seq<Cuboid>, c: Cell) -> bool {
    exists|k: int| 0 <= k < s.len() && covers(#[trigger] s[k], c)
}

/// Number of cells of the cuboid.
pub open spec fn volume(b: Cuboid) -> int {
    b.width * b.height * b.depth
}

/// Sum of the volumes of the cuboids.
pub open spec fn total_volume(s: Seq<Cuboid>) -> int
    decreases s.len(),
{
    if s.len() == 0 {
        0
    } else {
        total_volume(s.drop_last()) + volume(s.last())
    }
}

/// The cuboids are non-empty, lie inside `voxels`, cover every voxel, and no
/// two of them share a cell.
pub open spec fn is_partition(s: Seq<Cuboid>, voxels: Set<Cell>) -> bool {
    &&& forall|k: int| 0 <= k < s.len() ==> (#[trigger] s[k]).width >= 1 && s[k].height >= 1 && s[k].depth >= 1
    &&& forall|c: Cell| voxels.contains(c) <==> covered_by(s, c)
    &&& forall|k1: int, k2: int, c: Cell|
        #![trigger covers(s[k1], c), covers(s[k2], c)]
        0 <= k1 < k2 < s.len() ==> !(covers(s[k1], c) && covers(s[k2], c))
}

/// Number of `true` entries.
pub open spec fn count_true(s: Seq<bool>) -> nat
    decreases s.len(),
{
    if s.len() == 0 {
        0
    } else {
        count_true(s.drop_last()) + if s.last() { 1nat } else { 0nat }
    }
}

/// Some cell of the list equals `c` and is not yet claimed.
pub open spec fn is_free(cells: Seq<Cell>, claimed: Seq<bool>, c: Cell) -> bool {
    exists|j: int| 0 <= j < cells.len() && #[trigger] cells[j] == c && !claimed[j]
}

/// The cell is a voxel that none of the earlier cuboids holds.
pub open spec fn avail(voxels: Set<Cell>, prior: Seq<Cuboid>, c: Cell) -> bool {
    voxels.contains(c) && !covered_by(prior, c)
}

/// The cell at integer coordinates that fit `i32`.
pub open spec fn at(x: int, y: int, z: int) -> Cell {
    Cell { x: x as i32, y: y as i32, z: z as i32 }
}

/// The cuboid `b` is the one the greedy scan makes after the cuboids
/// `prior`: it starts at the first available voxel in scan order, and each of
/// its width, depth and height stops growing only where the next row or layer
/// holds a cell that is not available, or at the edge of `i32`.
pub open spec fn greedy_step(voxels: Set<Cell>, prior: Seq<Cuboid>, b: Cuboid) -> bool {
    let x = b.origin.x as int;
    let y = b.origin.y as int;
    let z = b.origin.z as int;
    let w = b.width as int;
    let h = b.height as int;
    let d = b.depth as int;
    &&& x + w - 1 <= i32::MAX && y + h - 1 <= i32::MAX && z + d - 1 <= i32::MAX
    &&& forall|c: Cell| #[trigger] avail(voxels, prior, c) ==> !scan_lt(c, b.origin)
    &&& (x + w > i32::MAX || w == i32::MAX || !avail(voxels, prior, at(x + w, y, z)))
    &&& (z + d > i32::MAX || d == i32::MAX || exists|a: int|
        0 <= a < w && !#[trigger] avail(voxels, prior, at(x + a, y, z + d)))
    &&& (y + h > i32::MAX || h == i32::MAX || exists|a: int, e: int|
        0 <= a < w && 0 <= e < d && !#[trigger] avail(voxels, prior, at(x + a, y + h, z + e)))
}

/// Every cuboid of the list is the one the greedy scan makes after those
/// before it.
pub open spec fn greedy_steps(voxels: Set<Cell>, s: Seq<Cuboid>) -> bool {
    forall|k: int| 0 <= k < s.len() ==> greedy_step(voxels, s.take(k), #[trigger] s[k])
}

/// The cell lies in the box at `(x, y, z)` sized `w` along x, `h` along y
/// and `d` along z.
pub open spec fn slab(x: int, y: int, z: int, w: int, h: int, d: int, c: Cell) -> bool {
    x <= c.x < x + w && y <= c.y < y + h && z <= c.z < z + d
}

proof fn lemma_count_set(s: Seq<bool>, j: int)
    requires
        0 <= j < s.len(),
        !s[j],
    ensures
        count_true(s.update(j, true)) == count_true(s) + 1,
    decreases s.len(),
{
    if j == s.len() - 1 {
        assert(s.update(j, true).drop_last() =~= s.drop_last());
    } else {
        lemma_count_set(s.drop_last(), j);
        assert(s.update(j, true).drop_last() =~= s.drop_last().update(j, true));
    }
}

proof fn lemma_count_uniform(s: Seq<bool>, v: bool)
    requires
        forall|j: int| 0 <= j < s.len() ==> s[j] == v,
    ensures
        count_true(s) == if v { s.len() } else { 0 },
    decreases s.len(),
{
    if s.len() > 0 {
        lemma_count_uniform(s.drop_last(), v);
    }
}

proof fn lemma_volume_bounds_len(s: Seq<Cuboid>)
    requires
        forall|k: int| 0 <= k < s.len() ==> (#[trigger] s[k]).width >= 1 && s[k].height >= 1 && s[k].depth >= 1,
    ensures
        total_volume(s) >= s.len(),
    decreases s.len(),
{
    if s.len() > 0 {
        let b = s.last();
        assert(s[s.len() - 1] == b);
        assert(b.width * b.height >= 1) by (nonlinear_arith)
            requires b.width >= 1, b.height >= 1;
        assert(b.width * b.height * b.depth >= 1) by (nonlinear_arith)
            requires b.width * b.height >= 1, b.depth >= 1;
        lemma_volume_bounds_len(s.drop_last());
    }
}

proof fn lemma_free_iff_avail(cells: Seq<Cell>, claimed: Seq<bool>, cubes: Seq<Cuboid>)
    requires
        strictly_scanned(cells),
        claimed.len() == cells.len(),
        forall|j: int| 0 <= j < cells.len() ==> #[trigger] claimed[j] == covered_by(cubes, cells[j]),
    ensures
        forall|c: Cell| #[trigger] is_free(cells, claimed, c) == avail(cells.to_set(), cubes, c),
{
    assert forall|c: Cell| #[trigger] is_free(cells, claimed, c) == avail(cells.to_set(), cubes, c) by {
        if is_free(cells, claimed, c) {
            let j = choose|j: int| 0 <= j < cells.len() && #[trigger] cells[j] == c && !claimed[j];
            assert(cells.contains(c));
        }
        if avail(cells.to_set(), cubes, c) {
            let j = choose|j: int| 0 <= j < cells.len() && cells[j] == c;
            assert(claimed[j] == covered_by(cubes, cells[j]));
        }
    }
}

/// `a` comes before `b` in scan order.
fn scan_less(a: Cell, b: Cell) -> (r: bool)
    ensures
        r == scan_lt(a, b),
{
    a.y < b.y || (a.y == b.y && (a.z < b.z || (a.z == b.z && a.x < b.x)))
}

/// Position of `c` in cells held in scan order.
pub fn find_cell(cells: &Vec<Cell>, c: Cell) -> (r: Option<usize>)
    requires
        strictly_scanned(cells@),
    ensures
        match r {
            Some(i) => i < cells@.len() && cells@[i as int] == c,
            None => !cells@.contains(c),
        },
{
    let mut lo: usize = 0;
    let mut hi: usize = cells.len();
    while lo < hi
        invariant
            lo <= hi <= cells@.len(),
            strictly_scanned(cells@),
            forall|t: int| 0 <= t < lo ==> scan_lt(#[trigger] cells@[t], c),
            forall|t: int| hi <= t < cells@.len() ==> scan_lt(c, #[trigger] cells@[t]),
        decreases hi - lo,
    {
        let mid = lo + (hi - lo) / 2;
        let m = cells[mid];
        if m == c {
            return Some(mid);
        }
        if scan_less(m, c) {
            lo = mid + 1;
        } else {
            hi = mid;
        }
    }
    None
}

fn free_cell(cells: &Vec<Cell>, claimed: &Vec<bool>, c: Cell) -> (r: bool)
    requires
        strictly_scanned(cells@),
        claimed@.len() == cells@.len(),
    ensures
        r == is_free(cells@, claimed@, c),
{
    match find_cell(cells, c) {
        Some(i) => {
            proof {
                if is_free(cells@, claimed@, c) {
                    let j = choose|j: int| 0 <= j < cells@.len() && #[trigger] cells@[j] == c && !claimed@[j];
                    if j < i {
                        assert(scan_lt(cells@[j], cells@[i as int]));
                    } else if i < j {
                        assert(scan_lt(cells@[i as int], cells@[j]));
                    }
                }
            }
            !claimed[i]
        },
        None => false,
    }
}

/// Whether every cell of the one-cell-high slab at `(x, y, z)`, `w` along x
/// and `d` along z, is present and unclaimed.
fn slab_free(cells: &Vec<Cell>, claimed: &Vec<bool>, x: i32, y: i32, z: i32, w: i64, d: i64) -> (r: bool)
    requires
        strictly_scanned(cells@),
        claimed@.len() == cells@.len(),
        w >= 1,
        d >= 1,
        x + w - 1 <= i32::MAX,
        z + d - 1 <= i32::MAX,
    ensures
        r ==> forall|c: Cell| slab(x as int, y as int, z as int, w as int, 1, d as int, c) ==> is_free(cells@, claimed@, c),
        !r ==> exists|c: Cell| slab(x as int, y as int, z as int, w as int, 1, d as int, c) && !is_free(cells@, claimed@, c),
{
    let mut b: i64 = 0;
    while b < d
        invariant
            0 <= b <= d,
            w >= 1,
            strictly_scanned(cells@),
            claimed@.len() == cells@.len(),
            x + w - 1 <= i32::MAX,
            z + d - 1 <= i32::MAX,
            forall|c: Cell| slab(x as int, y as int, z as int, w as int, 1, b as int, c) ==> is_free(cells@, claimed@, c),
        decreases d - b,
    {
        let mut a: i64 = 0;
        while a < w
            invariant
                0 <= a <= w,
                0 <= b < d,
                w >= 1,
                strictly_scanned(cells@),
                claimed@.len() == cells@.len(),
                x + w - 1 <= i32::MAX,
                z + d - 1 <= i32::MAX,
                forall|c: Cell| slab(x as int, y as int, z as int, w as int, 1, b as int, c) ==> is_free(cells@, claimed@, c),
                forall|c: Cell| slab(x as int, y as int, (z + b) as int, a as int, 1, 1, c) ==> is_free(cells@, claimed@, c),
            decreases w - a,
        {
            let c = Cell { x: (x as i64 + a) as i32, y: y, z: (z as i64 + b) as i32 };
            if !free_cell(cells, claimed, c) {
                assert(slab(x as int, y as int, z as int, w as int, 1, d as int, c));
                return false;
            }
            proof {
                assert forall|e: Cell| slab(x as int, y as int, (z + b) as int, a + 1, 1, 1, e) implies is_free(cells@, claimed@, e) by {
                    if e.x == x + a {
                        assert(e == c);
                    }
                }
            }
            a = a + 1;
        }
        b = b + 1;
    }
    true
}

/// The cells of the box at `(x, y, z)` sized `w` by `h` by `d` that the
/// marking pass has reached: whole x-columns before `a`, then in column `a`
/// whole z-rows before `b`, then in row `b` the cells below `y + t`.
pub open spec fn marked_upto(
    x: int,
    y: int,
    z: int,
    w: int,
    h: int,
    d: int,
    a: int,
    b: int,
    t: int,
    c: Cell,
) -> bool {
    &&& slab(x, y, z, w, h, d, c)
    &&& (c.x < x + a || (c.x == x + a && (c.z < z + b || (c.z == z + b && c.y < y + t))))
}

/// Marks every cell of the box as claimed; each of them must be free.
fn claim_box(cells: &Vec<Cell>, claimed: &mut Vec<bool>, x: i32, y: i32, z: i32, w: i64, h: i64, d: i64)
    requires
        strictly_scanned(cells@),
        old(claimed)@.len() == cells@.len(),
        w >= 1,
        h >= 1,
        d >= 1,
        x + w - 1 <= i32::MAX,
        y + h - 1 <= i32::MAX,
        z + d - 1 <= i32::MAX,
        forall|c: Cell| slab(x as int, y as int, z as int, w as int, h as int, d as int, c) ==> is_free(cells@, old(claimed)@, c),
    ensures
        final(claimed)@.len() == cells@.len(),
        forall|j: int| 0 <= j < cells@.len() ==> #[trigger] final(claimed)@[j] == (old(claimed)@[j] || slab(x as int, y as int, z as int, w as int, h as int, d as int, cells@[j])),
        count_true(final(claimed)@) == count_true(old(claimed)@) + w * h * d,
{
    let ghost pre = claimed@;
    let mut a: i64 = 0;
    assert(0 * d * h == 0) by (nonlinear_arith);
    while a < w
        invariant
            0 <= a <= w,
            w >= 1, h >= 1, d >= 1,
            x + w - 1 <= i32::MAX,
            y + h - 1 <= i32::MAX,
            z + d - 1 <= i32::MAX,
            strictly_scanned(cells@),
            claimed@.len() == cells@.len(),
            pre.len() == cells@.len(),
            forall|c: Cell| slab(x as int, y as int, z as int, w as int, h as int, d as int, c) ==> is_free(cells@, pre, c),
            forall|j: int| 0 <= j < cells@.len() ==> #[trigger] claimed@[j] == (pre[j] || marked_upto(x as int, y as int, z as int, w as int, h as int, d as int, a as int, 0, 0, cells@[j])),
            count_true(claimed@) == count_true(pre) + a * d * h,
        decreases w - a,
    {
        let mut b: i64 = 0;
        while b < d
            invariant
                0 <= a < w,
                0 <= b <= d,
                w >= 1, h >= 1, d >= 1,
                x + w - 1 <= i32::MAX,
                y + h - 1 <= i32::MAX,
                z + d - 1 <= i32::MAX,
                strictly_scanned(cells@),
                claimed@.len() == cells@.len(),
                pre.len() == cells@.len(),
                forall|c: Cell| slab(x as int, y as int, z as int, w as int, h as int, d as int, c) ==> is_free(cells@, pre, c),
                forall|j: int| 0 <= j < cells@.len() ==> #[trigger] claimed@[j] == (pre[j] || marked_upto(x as int, y as int, z as int, w as int, h as int, d as int, a as int, b as int, 0, cells@[j])),
                count_true(claimed@) == count_true(pre) + a * d * h + b * h,
            decreases d - b,
        {
            let mut t: i64 = 0;
            while t < h
                invariant
                    0 <= a < w,
                    0 <= b < d,
                    0 <= t <= h,
                    w >= 1, h >= 1, d >= 1,
                    x + w - 1 <= i32::MAX,
                    y + h - 1 <= i32::MAX,
                    z + d - 1 <= i32::MAX,
                    strictly_scanned(cells@),
                    claimed@.len() == cells@.len(),
                    pre.len() == cells@.len(),
                    forall|c: Cell| slab(x as int, y as int, z as int, w as int, h as int, d as int, c) ==> is_free(cells@, pre, c),
                    forall|j: int| 0 <= j < cells@.len() ==> #[trigger] claimed@[j] == (pre[j] || marked_upto(x as int, y as int, z as int, w as int, h as int, d as int, a as int, b as int, t as int, cells@[j])),
                    count_true(claimed@) == count_true(pre) + a * d * h + b * h + t,
                decreases h - t,
            {
                let c = Cell { x: (x as i64 + a) as i32, y: (y as i64 + t) as i32, z: (z as i64 + b) as i32 };
                assert(slab(x as int, y as int, z as int, w as int, h as int, d as int, c));
                assert(is_free(cells@, pre, c));
                let found = find_cell(cells, c);
                proof {
                    let j = choose|j: int| 0 <= j < cells@.len() && #[trigger] cells@[j] == c && !pre[j];
                    assert(cells@.contains(c)) by {
                        assert(cells@[j] == c);
                    }
                }
                match found {
                    Some(i) => {
                        proof {
                            let j = choose|j: int| 0 <= j < cells@.len() && #[trigger] cells@[j] == c && !pre[j];
                            if j < i {
                                assert(scan_lt(cells@[j], cells@[i as int]));
                            } else if i < j {
                                assert(scan_lt(cells@[i as int], cells@[j]));
                            }
                            assert(!claimed@[i as int]);
                            lemma_count_set(claimed@, i as int);
                        }
                        let ghost before = claimed@;
                        claimed.set(i, true);
                        proof {
                            assert forall|j: int| 0 <= j < cells@.len() implies #[trigger] claimed@[j] == (pre[j] || marked_upto(x as int, y as int, z as int, w as int, h as int, d as int, a as int, b as int, t + 1, cells@[j])) by {
                                if j != i {
                                    assert(claimed@[j] == before[j]);
                                    if j < i {
                                        assert(scan_lt(cells@[j], cells@[i as int]));
                                    } else {
                                        assert(scan_lt(cells@[i as int], cells@[j]));
                                    }
                                }
                            }
                        }
                    },
                    None => {},
                }
                t = t + 1;
            }
            proof {
                assert(a * d * h + b * h + h == a * d * h + (b + 1) * h) by (nonlinear_arith);
                assert forall|j: int| 0 <= j < cells@.len() implies #[trigger] claimed@[j] == (pre[j] || marked_upto(x as int, y as int, z as int, w as int, h as int, d as int, a as int, b + 1, 0, cells@[j])) by {
                    assert(marked_upto(x as int, y as int, z as int, w as int, h as int, d as int, a as int, b as int, h as int, cells@[j])
                        == marked_upto(x as int, y as int, z as int, w as int, h as int, d as int, a as int, b + 1, 0, cells@[j]));
                }
            }
            b = b + 1;
        }
        proof {
            assert(a * d * h + d * h == (a + 1) * d * h) by (nonlinear_arith);
            assert forall|j: int| 0 <= j < cells@.len() implies #[trigger] claimed@[j] == (pre[j] || marked_upto(x as int, y as int, z as int, w as int, h as int, d as int, a + 1, 0, 0, cells@[j])) by {
                assert(marked_upto(x as int, y as int, z as int, w as int, h as int, d as int, a as int, d as int, 0, cells@[j])
                    == marked_upto(x as int, y as int, z as int, w as int, h as int, d as int, a + 1, 0, 0, cells@[j]));
            }
        }
        a = a + 1;
    }
    proof {
        assert(w * d * h == w * h * d) by (nonlinear_arith);
        assert forall|j: int| 0 <= j < cells@.len() implies #[trigger] claimed@[j] == (pre[j] || slab(x as int, y as int, z as int, w as int, h as int, d as int, cells@[j])) by {
            assert(marked_upto(x as int, y as int, z as int, w as int, h as int, d as int, w as int, 0, 0, cells@[j])
                == slab(x as int, y as int, z as int, w as int, h as int, d as int, cells@[j]));
        }
    }
}

/// Splits a voxel set into cuboids. Cells are visited in scan order; each
/// one not yet claimed starts a cuboid that grows first along +x, then along
/// +z by whole rows, then along +y by whole layers, while every cell it would
/// take is a voxel not yet claimed. The cuboids partition the voxels exactly.
pub fn run_greedy_meshing(voxels: &VoxelSet) -> (r: Vec<Cuboid>)
    requires
        voxels.wf(),
    ensures
        is_partition(r@, voxels@),
        total_volume(r@) == voxels@.len(),
        r@.len() <= voxels@.len(),
        forall|k: int| 0 <= k < r@.len() ==> (#[trigger] r@[k]).uv_u == 0 && r@[k].uv_v == 0,
        greedy_steps(voxels@, r@),
        greedy_partition(voxels@, r@),
{
    let cells = &voxels.cells;
    let n = cells.len();
    let mut claimed: Vec<bool> = vec![false; n];
    let mut cubes: Vec<Cuboid> = Vec::new();
    proof {
        lemma_count_uniform(claimed@, false);
    }
    let mut i: usize = 0;
    while i < n
        invariant
            i <= n,
            n == cells@.len(),
            strictly_scanned(cells@),
            claimed@.len() == n,
            forall|j: int| 0 <= j < i ==> #[trigger] claimed@[j],
            forall|j: int| 0 <= j < n ==> #[trigger] claimed@[j] == covered_by(cubes@, cells@[j]),
            forall|k: int, c: Cell| 0 <= k < cubes@.len() && #[trigger] covers(cubes@[k], c) ==> cells@.contains(c),
            forall|k: int| 0 <= k < cubes@.len() ==> (#[trigger] cubes@[k]).width >= 1 && cubes@[k].height >= 1
                && cubes@[k].depth >= 1 && cubes@[k].uv_u == 0 && cubes@[k].uv_v == 0,
            forall|k1: int, k2: int, c: Cell|
                #![trigger covers(cubes@[k1], c), covers(cubes@[k2], c)]
                0 <= k1 < k2 < cubes@.len() ==> !(covers(cubes@[k1], c) && covers(cubes@[k2], c)),
            total_volume(cubes@) == count_true(claimed@),
            greedy_steps(cells@.to_set(), cubes@),
        decreases n - i,
    {
        if !claimed[i] {
            let p = cells[i];
            let x = p.x;
            let y = p.y;
            let z = p.z;
            assert(is_free(cells@, claimed@, p)) by {
                assert(cells@[i as int] == p);
            }
            let mut w: i64 = 1;
            loop
                invariant
                    1 <= w <= i32::MAX,
                    x + w - 1 <= i32::MAX,
                    strictly_scanned(cells@),
                    claimed@.len() == cells@.len(),
                    forall|c: Cell| slab(x as int, y as int, z as int, w as int, 1, 1, c) ==> is_free(cells@, claimed@, c),
                ensures
                    x + w > i32::MAX || w == i32::MAX || !is_free(cells@, claimed@, at(x + w, y as int, z as int)),
                decreases i32::MAX - w,
            {
                if w >= i32::MAX as i64 || x as i64 + w > i32::MAX as i64 {
                    break;
                }
                let next = Cell { x: (x as i64 + w) as i32, y: y, z: z };
                assert(next == at(x + w, y as int, z as int));
                if !free_cell(cells, &claimed, next) {
                    break;
                }
                proof {
                    assert forall|c: Cell| slab(x as int, y as int, z as int, w + 1, 1, 1, c) implies is_free(cells@, claimed@, c) by {
                        if c.x == x + w {
                            assert(c == next);
                        }
                    }
                }
                w = w + 1;
            }
            let mut d: i64 = 1;
            loop
                invariant
                    1 <= d <= i32::MAX,
                    1 <= w,
                    x + w - 1 <= i32::MAX,
                    z + d - 1 <= i32::MAX,
                    strictly_scanned(cells@),
                    claimed@.len() == cells@.len(),
                    forall|c: Cell| slab(x as int, y as int, z as int, w as int, 1, d as int, c) ==> is_free(cells@, claimed@, c),
                ensures
                    z + d > i32::MAX || d == i32::MAX || exists|a: int|
                        0 <= a < w && !#[trigger] is_free(cells@, claimed@, at(x + a, y as int, z + d)),
                decreases i32::MAX - d,
            {
                if d >= i32::MAX as i64 || z as i64 + d > i32::MAX as i64 {
                    break;
                }
                if !slab_free(cells, &claimed, x, y, (z as i64 + d) as i32, w, 1) {
                    proof {
                        let c = choose|c: Cell| slab(x as int, y as int, z + d, w as int, 1, 1, c) && !is_free(cells@, claimed@, c);
                        assert(c == at(x + (c.x - x), y as int, z + d));
                        assert(!is_free(cells@, claimed@, at(x + (c.x - x), y as int, z + d)));
                    }
                    break;
                }
                proof {
                    assert forall|c: Cell| slab(x as int, y as int, z as int, w as int, 1, d + 1, c) implies is_free(cells@, claimed@, c) by {
                        if c.z == z + d {
                            assert(slab(x as int, y as int, z + d, w as int, 1, 1, c));
                        }
                    }
                }
                d = d + 1;
            }
            let mut h: i64 = 1;
            loop
                invariant
                    1 <= h <= i32::MAX,
                    1 <= w,
                    1 <= d,
                    x + w - 1 <= i32::MAX,
                    y + h - 1 <= i32::MAX,
                    z + d - 1 <= i32::MAX,
                    strictly_scanned(cells@),
                    claimed@.len() == cells@.len(),
                    forall|c: Cell| slab(x as int, y as int, z as int, w as int, h as int, d as int, c) ==> is_free(cells@, claimed@, c),
                ensures
                    y + h > i32::MAX || h == i32::MAX || exists|a: int, e: int|
                        0 <= a < w && 0 <= e < d && !#[trigger] is_free(cells@, claimed@, at(x + a, y + h, z + e)),
                decreases i32::MAX - h,
            {
                if h >= i32::MAX as i64 || y as i64 + h > i32::MAX as i64 {
                    break;
                }
                if !slab_free(cells, &claimed, x, (y as i64 + h) as i32, z, w, d) {
                    proof {
                        let c = choose|c: Cell| slab(x as int, y + h, z as int, w as int, 1, d as int, c) && !is_free(cells@, claimed@, c);
                        assert(c == at(x + (c.x - x), y + h, z + (c.z - z)));
                        assert(!is_free(cells@, claimed@, at(x + (c.x - x), y + h, z + (c.z - z))));
                    }
                    break;
                }
                proof {
                    assert forall|c: Cell| slab(x as int, y as int, z as int, w as int, h + 1, d as int, c) implies is_free(cells@, claimed@, c) by {
                        if c.y == y + h {
                            assert(slab(x as int, y + h, z as int, w as int, 1, d as int, c));
                        }
                    }
                }
                h = h + 1;
            }
            let ghost old_claimed = claimed@;
            let ghost old_cubes = cubes@;
            proof {
                lemma_free_iff_avail(cells@, old_claimed, old_cubes);
            }
            claim_box(cells, &mut claimed, x, y, z, w, h, d);
            let cube = Cuboid { origin: p, width: w as i32, height: h as i32, depth: d as i32, uv_u: 0, uv_v: 0 };
            cubes.push(cube);
            proof {
                assert(cubes@.drop_last() =~= old_cubes);
                assert(cubes@[cubes@.len() - 1] == cube);
                assert forall|c: Cell| covers(cube, c) == slab(x as int, y as int, z as int, w as int, h as int, d as int, c) by {}
                assert forall|c: Cell| #[trigger] covered_by(cubes@, c) == (covered_by(old_cubes, c) || covers(cube, c)) by {
                    if covered_by(old_cubes, c) {
                        let k = choose|k: int| 0 <= k < old_cubes.len() && covers(#[trigger] old_cubes[k], c);
                        assert(cubes@[k] == old_cubes[k]);
                    }
                    if covers(cube, c) {
                        assert(covers(cubes@[old_cubes.len() as int], c));
                    }
                    if covered_by(cubes@, c) {
                        let k = choose|k: int| 0 <= k < cubes@.len() && covers(#[trigger] cubes@[k], c);
                        if k < old_cubes.len() {
                            assert(old_cubes[k] == cubes@[k]);
                        }
                    }
                }
                assert forall|j: int| 0 <= j < n implies #[trigger] claimed@[j] == covered_by(cubes@, cells@[j]) by {
                    assert(covered_by(cubes@, cells@[j]) == (covered_by(old_cubes, cells@[j]) || covers(cube, cells@[j])));
                }
                assert forall|k: int, c: Cell| 0 <= k < cubes@.len() && #[trigger] covers(cubes@[k], c) implies cells@.contains(c) by {
                    if k == old_cubes.len() {
                        assert(is_free(cells@, old_claimed, c));
                        let j = choose|j: int| 0 <= j < cells@.len() && #[trigger] cells@[j] == c && !old_claimed[j];
                        assert(cells@[j] == c);
                    } else {
                        assert(cubes@[k] == old_cubes[k]);
                    }
                }
                assert forall|k1: int, k2: int, c: Cell|
                    #![trigger covers(cubes@[k1], c), covers(cubes@[k2], c)]
                    0 <= k1 < k2 < cubes@.len() implies !(covers(cubes@[k1], c) && covers(cubes@[k2], c)) by {
                    assert(cubes@[k1] == old_cubes[k1]);
                    if k2 < old_cubes.len() {
                        assert(cubes@[k2] == old_cubes[k2]);
                    } else if covers(cubes@[k1], c) && covers(cubes@[k2], c) {
                        assert(is_free(cells@, old_claimed, c));
                        let j = choose|j: int| 0 <= j < cells@.len() && #[trigger] cells@[j] == c && !old_claimed[j];
                        assert(covered_by(old_cubes, c));
                        assert(!old_claimed[j]);
                        assert(old_claimed[j] == covered_by(old_cubes, cells@[j]));
                    }
                }
                assert(slab(x as int, y as int, z as int, w as int, h as int, d as int, cells@[i as int]));
                assert(claimed@[i as int]);
                assert(total_volume(cubes@) == total_volume(old_cubes) + volume(cube));
                assert forall|c: Cell| #[trigger] avail(cells@.to_set(), old_cubes, c) implies !scan_lt(c, cube.origin) by {
                    assert(is_free(cells@, old_claimed, c));
                    let j = choose|j: int| 0 <= j < cells@.len() && #[trigger] cells@[j] == c && !old_claimed[j];
                    if j > i {
                        assert(scan_lt(cells@[i as int], cells@[j]));
                    }
                }
                assert(greedy_step(cells@.to_set(), old_cubes, cube));
                assert forall|k: int| 0 <= k < cubes@.len() implies greedy_step(cells@.to_set(), cubes@.take(k), #[trigger] cubes@[k]) by {
                    if k < old_cubes.len() {
                        assert(cubes@.take(k) =~= old_cubes.take(k));
                        assert(cubes@[k] == old_cubes[k]);
                    } else {
                        assert(cubes@.take(k) =~= old_cubes);
                    }
                }
            }
        }
        i = i + 1;
    }
    proof {
        lemma_count_uniform(claimed@, true);
        lemma_distinct_len(cells@);
        lemma_volume_bounds_len(cubes@);
        assert forall|c: Cell| voxels@.contains(c) <==> covered_by(cubes@, c) by {
            if voxels@.contains(c) {
                let j = choose|j: int| 0 <= j < cells@.len() && cells@[j] == c;
                assert(claimed@[j]);
            }
            if covered_by(cubes@, c) {
                let k = choose|k: int| 0 <= k < cubes@.len() && covers(#[trigger] cubes@[k], c);
                assert(cells@.contains(c));
            }
        }
    }
    cubes
}

proof fn lemma_cube_cells_avail(v: Set<Cell>, r: Seq<Cuboid>, k: int)
    requires
        is_partition(r, v),
        0 <= k < r.len(),
    ensures
        forall|c: Cell| covers(r[k], c) ==> #[trigger] avail(v, r.take(k), c),
{
    assert forall|c: Cell| covers(r[k], c) implies #[trigger] avail(v, r.take(k), c) by {
        assert(covered_by(r, c));
        if covered_by(r.take(k), c) {
            let k2 = choose|k2: int| 0 <= k2 < r.take(k).len() && covers(#[trigger] r.take(k)[k2], c);
            assert(r.take(k)[k2] == r[k2]);
            assert(covers(r[k2], c) && covers(r[k], c));
        }
    }
}

proof fn lemma_step_unique(v: Set<Cell>, prior: Seq<Cuboid>, b1: Cuboid, b2: Cuboid)
    requires
        greedy_step(v, prior, b1),
        greedy_step(v, prior, b2),
        b1.width >= 1 && b1.height >= 1 && b1.depth >= 1,
        b2.width >= 1 && b2.height >= 1 && b2.depth >= 1,
        b1.uv_u == 0 && b1.uv_v == 0 && b2.uv_u == 0 && b2.uv_v == 0,
        forall|c: Cell| covers(b1, c) ==> #[trigger] avail(v, prior, c),
        forall|c: Cell| covers(b2, c) ==> #[trigger] avail(v, prior, c),
    ensures
        b1 == b2,
{
    assert(covers(b1, b1.origin) && covers(b2, b2.origin));
    assert(avail(v, prior, b1.origin) && avail(v, prior, b2.origin));
    assert(b1.origin == b2.origin);
    let x = b1.origin.x as int;
    let y = b1.origin.y as int;
    let z = b1.origin.z as int;
    if b1.width < b2.width {
        assert(covers(b2, at(x + b1.width, y, z)));
    } else if b2.width < b1.width {
        assert(covers(b1, at(x + b2.width, y, z)));
    }
    let w = b1.width as int;
    if b1.depth < b2.depth {
        let a = choose|a: int| 0 <= a < w && !#[trigger] avail(v, prior, at(x + a, y, z + b1.depth));
        assert(covers(b2, at(x + a, y, z + b1.depth)));
    } else if b2.depth < b1.depth {
        let a = choose|a: int| 0 <= a < w && !#[trigger] avail(v, prior, at(x + a, y, z + b2.depth));
        assert(covers(b1, at(x + a, y, z + b2.depth)));
    }
    let d = b1.depth as int;
    if b1.height < b2.height {
        let (a, e) = choose|a: int, e: int| 0 <= a < w && 0 <= e < d && !#[trigger] avail(v, prior, at(x + a, y + b1.height, z + e));
        assert(covers(b2, at(x + a, y + b1.height, z + e)));
    } else if b2.height < b1.height {
        let (a, e) = choose|a: int, e: int| 0 <= a < w && 0 <= e < d && !#[trigger] avail(v, prior, at(x + a, y + b2.height, z + e));
        assert(covers(b1, at(x + a, y + b2.height, z + e)));
    }
}

/// A greedy partition of a voxel set is one list of cuboids.
pub open spec fn greedy_partition(v: Set<Cell>, r: Seq<Cuboid>) -> bool {
    &&& is_partition(r, v)
    &&& greedy_steps(v, r)
    &&& forall|k: int| 0 <= k < r.len() ==> (#[trigger] r[k]).uv_u == 0 && r[k].uv_v == 0
}

proof fn lemma_prefix_unique(v: Set<Cell>, r1: Seq<Cuboid>, r2: Seq<Cuboid>, k: int)
    requires
        greedy_partition(v, r1),
        greedy_partition(v, r2),
        0 <= k <= r1.len(),
        k <= r2.len(),
    ensures
        r1.take(k) == r2.take(k),
    decreases k,
{
    if k > 0 {
        lemma_prefix_unique(v, r1, r2, k - 1);
        lemma_cube_cells_avail(v, r1, k - 1);
        lemma_cube_cells_avail(v, r2, k - 1);
        assert(greedy_step(v, r1.take(k - 1), r1[k - 1]));
        assert(greedy_step(v, r2.take(k - 1), r2[k - 1]));
        lemma_step_unique(v, r1.take(k - 1), r1[k - 1], r2[k - 1]);
        assert(r1.take(k) =~= r1.take(k - 1).push(r1[k - 1]));
        assert(r2.take(k) =~= r2.take(k - 1).push(r2[k - 1]));
    } else {
        assert(r1.take(0) =~= r2.take(0));
    }
}

proof fn lemma_no_more_cubes(v: Set<Cell>, r1: Seq<Cuboid>, r2: Seq<Cuboid>)
    requires
        greedy_partition(v, r1),
        greedy_partition(v, r2),
        r1.len() <= r2.len(),
        r1 == r2.take(r1.len() as int),
    ensures
        r1.len() == r2.len(),
{
    let k = r1.len() as int;
    if k < r2.len() {
        lemma_cube_cells_avail(v, r2, k);
        let o = r2[k].origin;
        assert(covers(r2[k], o));
        assert(avail(v, r2.take(k), o));
        assert(v.contains(o));
        assert(covered_by(r1, o));
    }
}

/// Greedy meshing is deterministic: a voxel set has one greedy partition,
/// so equal voxel sets give equal cuboid lists.
pub proof fn lemma_greedy_unique(v: Set<Cell>, r1: Seq<Cuboid>, r2: Seq<Cuboid>)
    requires
        greedy_partition(v, r1),
        greedy_partition(v, r2),
    ensures
        r1 == r2,
{
    if r1.len() < r2.len() {
        lemma_prefix_unique(v, r1, r2, r1.len() as int);
        assert(r1.take(r1.len() as int) =~= r1);
        lemma_no_more_cubes(v, r1, r2);
    } else if r2.len() < r1.len() {
        lemma_prefix_unique(v, r1, r2, r2.len() as int);
        assert(r2.take(r2.len() as int) =~= r2);
        lemma_no_more_cubes(v, r2, r1);
    } else {
        lemma_prefix_unique(v, r1, r2, r1.len() as int);
        assert(r1.take(r1.len() as int) =~= r1);
        assert(r2.take(r2.len() as int) =~= r2);
    }
}

} // verus!
