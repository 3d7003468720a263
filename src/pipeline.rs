use vstd::prelude::*;

use crate::cell::Cell;
use crate::mesher::{run_greedy_meshing, is_partition, total_volume, Cuboid};
use crate::voxelizer::{
    indices_ok, lemma_no_triangles_no_voxels, mesh_voxels, positions_ok, voxelize, GridMesh, MeshError,
};

verus! {

/// The cuboids of one mesh, under the mesh's name, pivoting on the origin.
pub struct Bone {
    pub name: String,
    pub mesh_index: usize,
    pub pivot: Cell,
    pub cubes: Vec<Cuboid>,
}

/// What a set of meshes turns into: one bone per mesh with voxels, in the
/// order of the meshes, and the counts of voxels and cuboids over all of them.
pub struct Conversion {
    pub bones: Vec<Bone>,
    pub voxel_count: u128,
    pub cube_count: u128,
}

/// The error that `voxelize` gives the mesh, if any.
pub open spec fn mesh_error(m: &GridMesh) -> Option<MeshError> {
    if !indices_ok(m) {
        Some(MeshError::BadIndex)
    } else if !positions_ok(m) {
        Some(MeshError::OutOfRange)
    } else {
        None
    }
}

/// Sum of the voxel counts of the meshes.
pub open spec fn voxel_total(ms: Seq<GridMesh>) -> int
    decreases ms.len(),
{
    if ms.len() == 0 {
        0
    } else {
        voxel_total(ms.drop_last()) + mesh_voxels(&ms.last()).len()
    }
}

/// Sum of the cuboid counts of the bones.
pub open spec fn cube_total(bs: Seq<Bone>) -> int
    decreases bs.len(),
{
    if bs.len() == 0 {
        0
    } else {
        cube_total(bs.drop_last()) + bs.last().cubes@.len()
    }
}

/// Bone `b` holds the cuboids of mesh `mesh_index`, which has voxels.
pub open spec fn bone_ok(ms: Seq<GridMesh>, b: Bone) -> bool {
    &&& b.mesh_index < ms.len()
    &&& b.name@ == ms[b.mesh_index as int].name@
    &&& b.pivot == Cell { x: 0, y: 0, z: 0 }
    &&& mesh_voxels(&ms[b.mesh_index as int]).len() > 0
    &&& is_partition(b.cubes@, mesh_voxels(&ms[b.mesh_index as int]))
    &&& total_volume(b.cubes@) == mesh_voxels(&ms[b.mesh_index as int]).len()
    &&& forall|k: int| 0 <= k < b.cubes@.len() ==> (#[trigger] b.cubes@[k]).uv_u == 0 && b.cubes@[k].uv_v == 0
}

/// The bones of the first `n` meshes: one for each mesh with voxels, in mesh order.
pub open spec fn bones_ok(ms: Seq<GridMesh>, bs: Seq<Bone>, n: int) -> bool {
    &&& forall|b: int| 0 <= b < bs.len() ==> bone_ok(ms, #[trigger] bs[b]) && bs[b].mesh_index < n
    &&& forall|b1: int, b2: int| 0 <= b1 < b2 < bs.len() ==> (#[trigger] bs[b1]).mesh_index < (#[trigger] bs[b2]).mesh_index
    &&& forall|i: int|
        0 <= i < n ==> (mesh_voxels(&#[trigger] ms[i]).len() > 0 <==> exists|b: int| 0 <= b < bs.len() && bs[b].mesh_index == i)
}

proof fn lemma_voxel_total_step(ms: Seq<GridMesh>, i: int)
    requires
        0 <= i < ms.len(),
    ensures
        voxel_total(ms.take(i + 1)) == voxel_total(ms.take(i)) + mesh_voxels(&ms[i]).len(),
{
    assert(ms.take(i + 1).drop_last() =~= ms.take(i));
}

/// Voxelizes and meshes every mesh in order. A mesh without voxels gives no
/// bone. Fails with the error of the first mesh that `voxelize` rejects.
pub fn voxelize_model(meshes: &Vec<GridMesh>) -> (r: Result<Conversion, MeshError>)
    ensures
        match r {
            Ok(out) => {
                &&& forall|i: int| 0 <= i < meshes@.len() ==> mesh_error(&#[trigger] meshes@[i]).is_none()
                &&& bones_ok(meshes@, out.bones@, meshes@.len() as int)
                &&& out.voxel_count == voxel_total(meshes@)
                &&& out.cube_count == cube_total(out.bones@)
            },
            Err(e) => exists|i: int|
                0 <= i < meshes@.len() && mesh_error(&#[trigger] meshes@[i]) == Some(e)
                    && forall|j: int| 0 <= j < i ==> mesh_error(&#[trigger] meshes@[j]).is_none(),
        },
{
    let mut bones: Vec<Bone> = Vec::new();
    let mut voxel_count: u128 = 0;
    let mut cube_count: u128 = 0;
    let mut i: usize = 0;
    while i < meshes.len()
        invariant
            i <= meshes@.len(),
            forall|j: int| 0 <= j < i ==> mesh_error(&#[trigger] meshes@[j]).is_none(),
            bones_ok(meshes@, bones@, i as int),
            voxel_count == voxel_total(meshes@.take(i as int)),
            cube_count == cube_total(bones@),
            voxel_count <= i * 0x1_0000_0000_0000_0000,
            cube_count <= voxel_count,
        decreases meshes@.len() - i,
    {
        let mesh = &meshes[i];
        let voxels = match voxelize(mesh) {
            Ok(v) => v,
            Err(e) => {
                return Err(e);
            },
        };
        proof {
            lemma_voxel_total_step(meshes@, i as int);
        }
        let n = voxels.len();
        if n > 0 {
            let cubes = run_greedy_meshing(&voxels);
            let ghost before = bones@;
            let bone = Bone { name: mesh.name.clone(), mesh_index: i, pivot: Cell { x: 0, y: 0, z: 0 }, cubes };
            let ncubes = bone.cubes.len();
            assert(bone.name@ == mesh.name@);
            bones.push(bone);
            voxel_count = voxel_count + n as u128;
            cube_count = cube_count + ncubes as u128;
            proof {
                assert(bones@.drop_last() =~= before);
                assert(bones@[bones@.len() - 1] == bone);
                assert forall|j: int| 0 <= j < i + 1 implies (mesh_voxels(&#[trigger] meshes@[j]).len() > 0 <==> exists|b: int| 0 <= b < bones@.len() && bones@[b].mesh_index == j) by {
                    if j < i {
                        if mesh_voxels(&meshes@[j]).len() > 0 {
                            let b = choose|b: int| 0 <= b < before.len() && before[b].mesh_index == j;
                            assert(bones@[b] == before[b]);
                        }
                        if exists|b: int| 0 <= b < bones@.len() && bones@[b].mesh_index == j {
                            let b = choose|b: int| 0 <= b < bones@.len() && bones@[b].mesh_index == j;
                            assert(b < before.len());
                            assert(bones@[b] == before[b]);
                        }
                    } else {
                        assert(bones@[before.len() as int].mesh_index == j);
                    }
                }
                assert forall|b1: int, b2: int| 0 <= b1 < b2 < bones@.len() implies (#[trigger] bones@[b1]).mesh_index < (#[trigger] bones@[b2]).mesh_index by {
                    assert(bones@[b1] == before[b1]);
                    if b2 < before.len() {
                        assert(bones@[b2] == before[b2]);
                    }
                }
            }
        } else {
            proof {
                assert forall|j: int| 0 <= j < i + 1 implies (mesh_voxels(&#[trigger] meshes@[j]).len() > 0 <==> exists|b: int| 0 <= b < bones@.len() && bones@[b].mesh_index == j) by {
                    if j == i {
                        if exists|b: int| 0 <= b < bones@.len() && bones@[b].mesh_index == j {
                            let b = choose|b: int| 0 <= b < bones@.len() && bones@[b].mesh_index == j;
                            assert(bones@[b].mesh_index < i);
                        }
                    }
                }
            }
        }
        i = i + 1;
    }
    assert(meshes@.take(meshes@.len() as int) =~= meshes@);
    Ok(Conversion { bones, voxel_count, cube_count })
}

/// Sum of the vertex counts of the meshes.
pub open spec fn vertex_total(ms: Seq<GridMesh>) -> int
    decreases ms.len(),
{
    if ms.len() == 0 {
        0
    } else {
        vertex_total(ms.drop_last()) + ms.last().positions@.len()
    }
}

/// Sum of the whole-triangle counts of the meshes.
pub open spec fn face_total(ms: Seq<GridMesh>) -> int
    decreases ms.len(),
{
    if ms.len() == 0 {
        0
    } else {
        face_total(ms.drop_last()) + ms.last().indices@.len() / 3
    }
}

/// Counts the vertices and the whole triangles over all meshes.
pub fn mesh_totals(meshes: &Vec<GridMesh>) -> (r: (u128, u128))
    ensures
        r.0 == vertex_total(meshes@),
        r.1 == face_total(meshes@),
{
    let mut vertices: u128 = 0;
    let mut faces: u128 = 0;
    let mut i: usize = 0;
    while i < meshes.len()
        invariant
            i <= meshes@.len(),
            vertices == vertex_total(meshes@.take(i as int)),
            faces == face_total(meshes@.take(i as int)),
            vertices <= i * 0x1_0000_0000_0000_0000,
            faces <= vertices + i * 0x1_0000_0000_0000_0000,
            faces <= i * 0x1_0000_0000_0000_0000,
        decreases meshes@.len() - i,
    {
        proof {
            assert(meshes@.take(i + 1).drop_last() =~= meshes@.take(i as int));
        }
        vertices = vertices + meshes[i].positions.len() as u128;
        faces = faces + (meshes[i].indices.len() / 3) as u128;
        i = i + 1;
    }
    assert(meshes@.take(meshes@.len() as int) =~= meshes@);
    (vertices, faces)
}

/// A mesh without triangles gets no bone.
pub proof fn lemma_empty_mesh_no_bone(ms: Seq<GridMesh>, bs: Seq<Bone>, i: int)
    requires
        bones_ok(ms, bs, ms.len() as int),
        0 <= i < ms.len(),
        ms[i].indices@.len() == 0,
    ensures
        forall|b: int| 0 <= b < bs.len() ==> (#[trigger] bs[b]).mesh_index != i,
{
    lemma_no_triangles_no_voxels(&ms[i]);
    assert forall|b: int| 0 <= b < bs.len() implies (#[trigger] bs[b]).mesh_index != i by {
        assert(bone_ok(ms, bs[b]));
    }
}

} // verus!
