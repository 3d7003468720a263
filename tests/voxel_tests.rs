use voxel_cuboids::cell::{Cell, VoxelSet};
use voxel_cuboids::geometry::{triangle_aabb_intersect, GridPoint, COORD_LIMIT, SUBDIV};
use voxel_cuboids::mesher::{find_cell, run_greedy_meshing, Cuboid};
use voxel_cuboids::pipeline::{mesh_totals, voxelize_model};
use voxel_cuboids::report::ConvertResult;
use voxel_cuboids::voxelizer::{voxelize, GridMesh, MeshError};

fn pt(x: i64, y: i64, z: i64) -> GridPoint {
    GridPoint { x, y, z }
}

fn cell(x: i32, y: i32, z: i32) -> Cell {
    Cell { x, y, z }
}

/// A closed axis-aligned box from the origin, `sx` by `sy` by `sz` voxels,
/// as twelve triangles.
fn box_mesh(name: &str, sx: i64, sy: i64, sz: i64) -> GridMesh {
    let (a, b, c) = (sx * SUBDIV, sy * SUBDIV, sz * SUBDIV);
    let positions = vec![
        pt(0, 0, 0),
        pt(a, 0, 0),
        pt(a, b, 0),
        pt(0, b, 0),
        pt(0, 0, c),
        pt(a, 0, c),
        pt(a, b, c),
        pt(0, b, c),
    ];
    let indices = vec![
        0, 1, 2, 0, 2, 3, // z = 0
        4, 6, 5, 4, 7, 6, // z = c
        0, 5, 1, 0, 4, 5, // y = 0
        3, 2, 6, 3, 6, 7, // y = b
        0, 3, 7, 0, 7, 4, // x = 0
        1, 5, 6, 1, 6, 2, // x = a
    ];
    GridMesh { name: name.to_string(), positions, indices }
}

fn covered(cubes: &[Cuboid], c: Cell) -> usize {
    cubes
        .iter()
        .filter(|b| {
            b.origin.x <= c.x
                && c.x < b.origin.x + b.width
                && b.origin.y <= c.y
                && c.y < b.origin.y + b.height
                && b.origin.z <= c.z
                && c.z < b.origin.z + b.depth
        })
        .count()
}

fn assert_partition(voxels: &VoxelSet, cubes: &[Cuboid]) {
    let volume: i64 = cubes.iter().map(|b| (b.width * b.height * b.depth) as i64).sum();
    assert_eq!(volume as usize, voxels.cells.len());
    for &c in &voxels.cells {
        assert_eq!(covered(cubes, c), 1);
    }
}

/// A closed axis-aligned box between two corners, in sub-steps, as twelve
/// triangles.
fn inset_box(name: &str, lo: (i64, i64, i64), hi: (i64, i64, i64)) -> GridMesh {
    let mut m = box_mesh(name, 1, 1, 1);
    for p in m.positions.iter_mut() {
        p.x = if p.x == 0 { lo.0 } else { hi.0 };
        p.y = if p.y == 0 { lo.1 } else { hi.1 };
        p.z = if p.z == 0 { lo.2 } else { hi.2 };
    }
    m
}

#[test]
fn unit_cube_is_one_voxel_and_one_cuboid() {
    let q = SUBDIV / 4;
    let v = voxelize(&inset_box("cube", (q, q, q), (3 * q, 3 * q, 3 * q))).unwrap();
    assert_eq!(v.cells, vec![cell(0, 0, 0)]);
    let cubes = run_greedy_meshing(&v);
    assert_eq!(
        cubes,
        vec![Cuboid { origin: cell(0, 0, 0), width: 1, height: 1, depth: 1, uv_u: 0, uv_v: 0 }]
    );
}

#[test]
fn elongated_box_merges_along_x() {
    let q = SUBDIV / 4;
    let v = voxelize(&inset_box("bar", (q, q, q), (7 * q, 3 * q, 3 * q))).unwrap();
    assert_eq!(v.cells, vec![cell(0, 0, 0), cell(1, 0, 0)]);
    let cubes = run_greedy_meshing(&v);
    assert_eq!(
        cubes,
        vec![Cuboid { origin: cell(0, 0, 0), width: 2, height: 1, depth: 1, uv_u: 0, uv_v: 0 }]
    );
}

#[test]
fn cube_on_grid_lines_takes_every_touching_cell() {
    let v = voxelize(&box_mesh("cube", 1, 1, 1)).unwrap();
    assert_eq!(v.len(), 8);
    assert_eq!(
        run_greedy_meshing(&v),
        vec![Cuboid { origin: cell(0, 0, 0), width: 2, height: 2, depth: 2, uv_u: 0, uv_v: 0 }]
    );
    let v = voxelize(&box_mesh("bar", 2, 1, 1)).unwrap();
    assert_eq!(v.len(), 12);
    assert_eq!(
        run_greedy_meshing(&v),
        vec![Cuboid { origin: cell(0, 0, 0), width: 3, height: 2, depth: 2, uv_u: 0, uv_v: 0 }]
    );
}

#[test]
fn hollow_shell_is_partitioned() {
    let v = voxelize(&box_mesh("shell", 4, 4, 4)).unwrap();
    // Every cell of the 5x5x5 span but the 3x3x3 inside.
    assert_eq!(v.len(), 125 - 27);
    assert!(!v.cells.contains(&cell(1, 1, 1)));
    assert!(!v.cells.contains(&cell(3, 3, 3)));
    assert!(v.cells.contains(&cell(4, 4, 4)));
    assert!(v.cells.contains(&cell(0, 2, 2)));
    let cubes = run_greedy_meshing(&v);
    assert_partition(&v, &cubes);
    assert!(cubes.len() < v.len());
}

#[test]
fn empty_mesh_gives_no_voxels_and_no_bone() {
    let m = GridMesh { name: "empty".to_string(), positions: vec![pt(0, 0, 0)], indices: vec![] };
    let v = voxelize(&m).unwrap();
    assert_eq!(v.len(), 0);
    let out = voxelize_model(&vec![m, box_mesh("cube", 1, 1, 1)]).unwrap();
    assert_eq!(out.bones.len(), 1);
    assert_eq!(out.bones[0].name, "cube");
    assert_eq!(out.bones[0].mesh_index, 1);
    assert_eq!(out.voxel_count, 8);
    assert_eq!(out.cube_count, 1);
}

#[test]
fn point_triangle_takes_at_most_its_cell() {
    let p = pt(SUBDIV / 2, SUBDIV / 2, SUBDIV / 2);
    let m = GridMesh { name: "dot".to_string(), positions: vec![p], indices: vec![0, 0, 0] };
    let v = voxelize(&m).unwrap();
    assert_eq!(v.cells, vec![cell(0, 0, 0)]);
    let corner = pt(SUBDIV, SUBDIV, SUBDIV);
    let m = GridMesh { name: "corner".to_string(), positions: vec![corner], indices: vec![0, 0, 0] };
    let v = voxelize(&m).unwrap();
    assert_eq!(v.cells, vec![cell(1, 1, 1)]);
}

#[test]
fn segment_triangle_stays_in_its_cell_range() {
    let m = GridMesh {
        name: "seg".to_string(),
        positions: vec![pt(100, 100, 100), pt(3 * SUBDIV - 100, 100, 100)],
        indices: vec![0, 1, 1],
    };
    let v = voxelize(&m).unwrap();
    assert_eq!(v.cells, vec![cell(0, 0, 0), cell(1, 0, 0), cell(2, 0, 0)]);
}

#[test]
fn greedy_mesh_is_deterministic_and_a_partition() {
    let cells = vec![
        cell(0, 0, 0),
        cell(1, 0, 0),
        cell(2, 0, 0),
        cell(0, 0, 1),
        cell(1, 0, 1),
        cell(0, 1, 0),
        cell(5, 5, 5),
        cell(1, 0, 0),
    ];
    let mut reversed = cells.clone();
    reversed.reverse();
    let a = VoxelSet::from_cells(&cells);
    let b = VoxelSet::from_cells(&reversed);
    assert_eq!(a.cells, b.cells);
    let ca = run_greedy_meshing(&a);
    let cb = run_greedy_meshing(&b);
    assert_eq!(ca, cb);
    assert_partition(&a, &ca);
    assert_eq!(
        ca,
        vec![
            Cuboid { origin: cell(0, 0, 0), width: 3, height: 1, depth: 1, uv_u: 0, uv_v: 0 },
            Cuboid { origin: cell(0, 0, 1), width: 2, height: 1, depth: 1, uv_u: 0, uv_v: 0 },
            Cuboid { origin: cell(0, 1, 0), width: 1, height: 1, depth: 1, uv_u: 0, uv_v: 0 },
            Cuboid { origin: cell(5, 5, 5), width: 1, height: 1, depth: 1, uv_u: 0, uv_v: 0 },
        ]
    );
}

#[test]
fn greedy_mesh_grows_depth_then_height() {
    let mut cells = Vec::new();
    for x in 0..2 {
        for y in 0..3 {
            for z in 0..2 {
                cells.push(cell(x, y, z));
            }
        }
    }
    cells.push(cell(0, 3, 0));
    let v = VoxelSet::from_cells(&cells);
    let cubes = run_greedy_meshing(&v);
    assert_partition(&v, &cubes);
    assert_eq!(
        cubes,
        vec![
            Cuboid { origin: cell(0, 0, 0), width: 2, height: 3, depth: 2, uv_u: 0, uv_v: 0 },
            Cuboid { origin: cell(0, 3, 0), width: 1, height: 1, depth: 1, uv_u: 0, uv_v: 0 },
        ]
    );
}

#[test]
fn empty_voxel_set_gives_no_cuboids() {
    let v = VoxelSet::from_cells(&vec![]);
    assert!(run_greedy_meshing(&v).is_empty());
}

#[test]
fn voxel_set_sorts_and_collapses_duplicates() {
    let v = VoxelSet::from_cells(&vec![cell(1, 0, 0), cell(0, 1, 0), cell(0, 0, 1), cell(1, 0, 0), cell(0, 0, 0)]);
    assert_eq!(v.cells, vec![cell(0, 0, 0), cell(1, 0, 0), cell(0, 0, 1), cell(0, 1, 0)]);
    assert_eq!(v.len(), 4);
    assert_eq!(find_cell(&v.cells, cell(0, 0, 1)), Some(2));
    assert_eq!(find_cell(&v.cells, cell(2, 0, 0)), None);
}

#[test]
fn intersector_on_a_slanted_triangle() {
    let d = SUBDIV;
    // The plane x + y + z = 1.5 voxels, cut to a triangle.
    let v0 = pt(3 * d / 2, 0, 0);
    let v1 = pt(0, 3 * d / 2, 0);
    let v2 = pt(0, 0, 3 * d / 2);
    assert!(triangle_aabb_intersect(v0, v1, v2, cell(0, 0, 0)));
    assert!(triangle_aabb_intersect(v0, v1, v2, cell(1, 0, 0)));
    assert!(!triangle_aabb_intersect(v0, v1, v2, cell(1, 1, 0)));
    assert!(!triangle_aabb_intersect(v0, v1, v2, cell(1, 1, 1)));
    assert!(triangle_aabb_intersect(v0, v1, v2, cell(-1, 0, 0)));
    assert!(!triangle_aabb_intersect(v0, v1, v2, cell(-2, 0, 0)));
    assert!(!triangle_aabb_intersect(v0, v1, v2, cell(0, 0, 5)));
}

#[test]
fn intersector_counts_a_touched_face() {
    let d = SUBDIV;
    // A triangle in the plane x = 1 voxel.
    let v0 = pt(d, 0, 0);
    let v1 = pt(d, d, 0);
    let v2 = pt(d, d, d);
    assert!(triangle_aabb_intersect(v0, v1, v2, cell(0, 0, 0)));
    assert!(triangle_aabb_intersect(v0, v1, v2, cell(1, 0, 0)));
    assert!(!triangle_aabb_intersect(v0, v1, v2, cell(2, 0, 0)));
    assert!(triangle_aabb_intersect(v0, v1, v2, cell(0, 1, 0)));
    assert!(!triangle_aabb_intersect(v0, v1, v2, cell(0, 2, 0)));
}

#[test]
fn bad_indices_are_rejected() {
    let ragged = GridMesh { name: "r".to_string(), positions: vec![pt(0, 0, 0)], indices: vec![0, 0] };
    assert!(matches!(voxelize(&ragged), Err(MeshError::BadIndex)));
    let dangling = GridMesh { name: "d".to_string(), positions: vec![pt(0, 0, 0)], indices: vec![0, 0, 1] };
    assert!(matches!(voxelize(&dangling), Err(MeshError::BadIndex)));
    let out = voxelize_model(&vec![box_mesh("ok", 1, 1, 1), dangling]);
    assert!(matches!(out, Err(MeshError::BadIndex)));
}

#[test]
fn far_vertices_are_rejected() {
    let far = GridMesh {
        name: "far".to_string(),
        positions: vec![pt(COORD_LIMIT + 1, 0, 0)],
        indices: vec![0, 0, 0],
    };
    assert!(matches!(voxelize(&far), Err(MeshError::OutOfRange)));
    let edge = GridMesh {
        name: "edge".to_string(),
        positions: vec![pt(COORD_LIMIT, -COORD_LIMIT, 0)],
        indices: vec![0, 0, 0],
    };
    let v = voxelize(&edge).unwrap();
    assert_eq!(v.len(), 1);
}

#[test]
fn pipeline_counts_over_meshes() {
    let out = voxelize_model(&vec![box_mesh("a", 2, 1, 1), box_mesh("b", 2, 2, 2)]).unwrap();
    assert_eq!(out.bones.len(), 2);
    assert_eq!(out.bones[0].name, "a");
    assert_eq!(out.bones[1].name, "b");
    assert_eq!(out.bones[1].pivot, cell(0, 0, 0));
    assert_eq!(out.voxel_count, 12 + 26);
    assert_eq!(out.bones[0].cubes.len(), 1);
    assert_eq!(out.cube_count, (out.bones[0].cubes.len() + out.bones[1].cubes.len()) as u128);
    assert!(out.cube_count > 2);
}

#[test]
fn totals_count_vertices_and_whole_triangles() {
    let meshes = vec![box_mesh("a", 1, 1, 1), box_mesh("b", 2, 1, 1)];
    assert_eq!(mesh_totals(&meshes), (16, 24));
    assert_eq!(mesh_totals(&vec![]), (0, 0));
}

#[test]
fn convert_results_carry_their_fields() {
    let f = ConvertResult::failed("No geometry generated".to_string());
    assert!(!f.success);
    assert_eq!(f.message, "No geometry generated");
    assert_eq!(f.output_path, None);
    assert_eq!((f.voxel_count, f.cube_count), (0, 0));
    let s = ConvertResult::succeeded("8 voxels".to_string(), "out/a.geo.json".to_string(), 8, 1);
    assert!(s.success);
    assert_eq!(s.output_path.as_deref(), Some("out/a.geo.json"));
    assert_eq!((s.voxel_count, s.cube_count), (8, 1));
}
