use vstd::prelude::*;

verus! {

/// A cell of the integer voxel grid.
#[derive(Clone, Copy, Debug, PartialEq, Eq, Hash, Structural)]
pub struct Cell {
    pub x: i32,
    pub y: i32,
    pub z: i32,
}

/// The scan order of the mesher: by `y`, then `z`, then `x`.
pub open spec fn scan_lt(a: Cell, b: Cell) -> bool {
    a.y < b.y || (a.y == b.y && (a.z < b.z || (a.z == b.z && a.x < b.x)))
}

/// Sort key of a cell: the tuple `(y, z, x)`.
pub open spec fn key_of(c: Cell) -> (i32, i32, i32) {
    (c.y, c.z, c.x)
}

/// The cell of a sort key.
pub open spec fn cell_of(k: (i32, i32, i32)) -> Cell {
    Cell { x: k.2, y: k.0, z: k.1 }
}

/// Lexicographic `<=` on tuples, the order std gives them.
pub open spec fn key_le(a: (i32, i32, i32), b: (i32, i32, i32)) -> bool {
    a.0 < b.0 || (a.0 == b.0 && (a.1 < b.1 || (a.1 == b.1 && a.2 <= b.2)))
}

/// The keys ascend.
pub open spec fn keys_sorted(s: Seq<(i32, i32, i32)>) -> bool {
    forall|i: int, j: int| 0 <= i < j < s.len() ==> key_le(#[trigger] s[i], #[trigger] s[j])
}

/// Every earlier cell comes strictly before every later one in scan order.
pub open spec fn strictly_scanned(s: Seq<Cell>) -> bool {
    forall|i: int, j: int| 0 <= i < j < s.len() ==> scan_lt(#[trigger] s[i], #[trigger] s[j])
}

/// The voxels of one mesh: distinct cells, held in scan order.
pub struct VoxelSet {
    pub cells: Vec<Cell>,
}

impl View for VoxelSet {
    type V = Set<Cell>;

    open spec fn view(&self) -> Set<Cell> {
        self.cells@.to_set()
    }
}

impl VoxelSet {
    /// The cells are distinct and in scan order.
    pub open spec fn wf(&self) -> bool {
        strictly_scanned(self.cells@)
    }

    /// The set of the given cells; duplicates collapse.
    pub fn from_cells(cells: &Vec<Cell>) -> (r: VoxelSet)
        ensures
            r.wf(),
            r@ == cells@.to_set(),
    {
        let mut keys: Vec<(i32, i32, i32)> = Vec::new();
        let mut i: usize = 0;
        while i < cells.len()
            invariant
                i <= cells.len(),
                keys@.len() == i,
                forall|t: int| 0 <= t < i ==> #[trigger] keys@[t] == key_of(cells@[t]),
            decreases cells.len() - i,
        {
            let c = cells[i];
            keys.push((c.y, c.z, c.x));
            i = i + 1;
        }
        let ghost unsorted = keys@;
        sort_keys(&mut keys);
        proof {
            broadcast use vstd::seq_lib::group_to_multiset_ensures;

            assert forall|k: (i32, i32, i32)| keys@.contains(k) <==> unsorted.contains(k) by {
                assert(keys@.to_multiset().count(k) == unsorted.to_multiset().count(k));
            }
        }
        let mut out: Vec<Cell> = Vec::new();
        let mut j: usize = 0;
        while j < keys.len()
            invariant
                j <= keys.len(),
                keys_sorted(keys@),
                forall|k: (i32, i32, i32)| keys@.contains(k) <==> unsorted.contains(k),
                unsorted.len() == cells@.len(),
                forall|t: int| 0 <= t < unsorted.len() ==> #[trigger] unsorted[t] == key_of(cells@[t]),
                strictly_scanned(out@),
                j == 0 <==> out@.len() == 0,
                j > 0 ==> out@.last() == cell_of(keys@[j - 1]),
                forall|t: int| 0 <= t < j ==> out@.contains(#[trigger] cell_of(keys@[t])),
                forall|c: Cell|
                    out@.contains(c) ==> exists|t: int| 0 <= t < j && c == #[trigger] cell_of(keys@[t]),
            decreases keys.len() - j,
        {
            let k = keys[j];
            let c = Cell { x: k.2, y: k.0, z: k.1 };
            let fresh = if j == 0 {
                true
            } else {
                let p = keys[j - 1];
                !(p.0 == k.0 && p.1 == k.1 && p.2 == k.2)
            };
            if fresh {
                let ghost before = out@;
                out.push(c);
                proof {
                    assert(out@[out@.len() - 1] == c);
                    assert forall|t: int| 0 <= t <= j implies out@.contains(#[trigger] cell_of(keys@[t])) by {
                        if t < j {
                            let w = choose|w: int| 0 <= w < before.len() && before[w] == cell_of(keys@[t]);
                            assert(out@[w] == cell_of(keys@[t]));
                        } else {
                            assert(out@[out@.len() - 1] == c);
                        }
                    }
                    assert forall|d: Cell| out@.contains(d) implies exists|t: int|
                        0 <= t < j + 1 && d == #[trigger] cell_of(keys@[t]) by {
                        let w = choose|w: int| 0 <= w < out@.len() && out@[w] == d;
                        if w < before.len() {
                            assert(before.contains(d));
                        } else {
                            assert(d == cell_of(keys@[j as int]));
                        }
                    }
                    if j > 0 {
                        assert(key_le(keys@[j - 1], keys@[j as int]));
                    }
                }
            } else {
                proof {
                    assert(keys@[j as int] == keys@[j - 1]);
                    assert forall|d: Cell| out@.contains(d) implies exists|t: int|
                        0 <= t < j + 1 && d == #[trigger] cell_of(keys@[t]) by {
                        let t = choose|t: int| 0 <= t < j && d == #[trigger] cell_of(keys@[t]);
                        assert(0 <= t < j + 1);
                    }
                }
            }
            j = j + 1;
        }
        let r = VoxelSet { cells: out };
        proof {
            assert forall|c: Cell| r.cells@.contains(c) <==> cells@.contains(c) by {
                if r.cells@.contains(c) {
                    let t = choose|t: int| 0 <= t < keys@.len() && c == #[trigger] cell_of(keys@[t]);
                    assert(keys@.contains(keys@[t]));
                    assert(unsorted.contains(keys@[t]));
                    let u = choose|u: int| 0 <= u < unsorted.len() && unsorted[u] == keys@[t];
                    assert(cells@[u] == c);
                }
                if cells@.contains(c) {
                    let u = choose|u: int| 0 <= u < cells@.len() && cells@[u] == c;
                    assert(unsorted[u] == key_of(c));
                    assert(unsorted.contains(key_of(c)));
                    let t = choose|t: int| 0 <= t < keys@.len() && keys@[t] == key_of(c);
                    assert(cell_of(keys@[t]) == c);
                }
            }
            assert(r@ =~= cells@.to_set());
        }
        r
    }

    /// Number of voxels.
    pub fn len(&self) -> (r: usize)
        requires
            self.wf(),
        ensures
            r == self@.len(),
    {
        proof {
            lemma_distinct_len(self.cells@);
        }
        self.cells.len()
    }
}

/// Cells in strict scan order are distinct, so their set has as many members.
pub proof fn lemma_distinct_len(s: Seq<Cell>)
    requires
        strictly_scanned(s),
    ensures
        s.to_set().len() == s.len(),
{
    assert(s.no_duplicates()) by {
        assert forall|i: int, j: int| 0 <= i < s.len() && 0 <= j < s.len() && i != j implies s[i]
            != s[j] by {
            if i < j {
                assert(scan_lt(s[i], s[j]));
            } else {
                assert(scan_lt(s[j], s[i]));
            }
        }
    }
    s.unique_seq_to_set();
}

proof fn lemma_rest_set(s: Seq<Cell>)
    requires
        strictly_scanned(s),
        s.len() > 0,
    ensures
        strictly_scanned(s.drop_first()),
        s.drop_first().to_set() == s.to_set().remove(s[0]),
{
    let r = s.drop_first();
    assert forall|i: int, j: int| 0 <= i < j < r.len() implies scan_lt(#[trigger] r[i], #[trigger] r[j]) by {
        assert(r[i] == s[i + 1] && r[j] == s[j + 1]);
        assert(scan_lt(s[i + 1], s[j + 1]));
    }
    assert forall|c: Cell| r.to_set().contains(c) == s.to_set().remove(s[0]).contains(c) by {
        if r.contains(c) {
            let i = choose|i: int| 0 <= i < r.len() && r[i] == c;
            assert(s[i + 1] == c);
            assert(scan_lt(s[0], s[i + 1]));
        }
        if s.contains(c) && c != s[0] {
            let i = choose|i: int| 0 <= i < s.len() && s[i] == c;
            assert(r[i - 1] == c);
        }
    }
    assert(r.to_set() =~= s.to_set().remove(s[0]));
}

/// Cells held in scan order are fixed by their set: two voxel sets with the
/// same cells hold them in the same sequence, so the scan that meshes them
/// visits the same cells in the same order.
pub proof fn lemma_scan_order_unique(s1: Seq<Cell>, s2: Seq<Cell>)
    requires
        strictly_scanned(s1),
        strictly_scanned(s2),
        s1.to_set() == s2.to_set(),
    ensures
        s1 == s2,
    decreases s1.len(),
{
    lemma_distinct_len(s1);
    lemma_distinct_len(s2);
    if s1.len() > 0 {
        let a = s1[0];
        let b = s2[0];
        assert(s1.to_set().contains(a));
        assert(s2.to_set().contains(b));
        let j = choose|j: int| 0 <= j < s2.len() && s2[j] == a;
        let k = choose|k: int| 0 <= k < s1.len() && s1[k] == b;
        if j > 0 && k > 0 {
            assert(scan_lt(s2[0], s2[j]));
            assert(scan_lt(s1[0], s1[k]));
        }
        assert(a == b);
        lemma_rest_set(s1);
        lemma_rest_set(s2);
        lemma_scan_order_unique(s1.drop_first(), s2.drop_first());
        assert(s1 =~= s2) by {
            assert forall|i: int| 0 <= i < s1.len() implies s1[i] == s2[i] by {
                if i > 0 {
                    assert(s1.drop_first()[i - 1] == s2.drop_first()[i - 1]);
                }
            }
        }
    } else {
        assert(s1 =~= s2);
    }
}

/// Relies on slice::sort_unstable: the same elements, ascending in the
/// lexicographic order std gives tuples.
#[verifier::external_body]
fn sort_keys(v: &mut Vec<(i32, i32, i32)>)
    ensures
        final(v)@.to_multiset() == old(v)@.to_multiset(),
        keys_sorted(final(v)@),
{
    v.sort_unstable();
}

} // verus!
