use vstd::prelude::*;

verus! {

/// What analysing a model file found: its vertex and face counts, and the
/// voxels and cuboids it turns into.
pub struct FileInfo {
    pub path: String,
    pub name: String,
    pub vertices: usize,
    pub faces: usize,
    pub voxel_count: usize,
    pub cube_count: usize,
}

/// The outcome of converting a model file.
pub struct ConvertResult {
    pub success: bool,
    pub message: String,
    pub output_path: Option<String>,
    pub voxel_count: usize,
    pub cube_count: usize,
}

impl ConvertResult {
    /// A failed conversion: no output and no counts.
    pub fn failed(message: String) -> (r: ConvertResult)
        ensures
            !r.success,
            r.message@ == message@,
            r.output_path.is_none(),
            r.voxel_count == 0,
            r.cube_count == 0,
    {
        ConvertResult { success: false, message, output_path: None, voxel_count: 0, cube_count: 0 }
    }

    /// A conversion that wrote `output_path`.
    pub fn succeeded(message: String, output_path: String, voxel_count: usize, cube_count: usize) -> (r: ConvertResult)
        ensures
            r.success,
            r.message@ == message@,
            r.output_path == Some(output_path),
            r.voxel_count == voxel_count,
            r.cube_count == cube_count,
    {
        ConvertResult { success: true, message, output_path: Some(output_path), voxel_count, cube_count }
    }
}

} // verus!
