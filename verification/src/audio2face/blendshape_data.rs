//! Blendshape parameters and vertex data of one identity.

use vstd::prelude::*;

verus! {

/// Which poses the solver weighs, and how the weights become ARKit values.
/// Numbers are binary32 bit patterns.
#[derive(Debug)]
pub struct BlendshapeConfig {
    /// For each solver weight the ARKit blendshape that it belongs to.
    pub active_indices: Vec<usize>,
    /// Factor on each ARKit blendshape.
    pub multipliers: Vec<u32>,
    /// Offset of each ARKit blendshape.
    pub offsets: Vec<u32>,
    /// Bounding-box diagonal of the template face.
    pub template_bb_size: u32,
    /// Strength of the quadratic regularisation.
    pub strength_l2: u32,
    /// Strength of the linear regularisation.
    pub strength_l1: u32,
    /// Strength of the pull towards the frame before.
    pub strength_temporal: u32,
}

/// Vertex data, with three components to a vertex, as binary32 bit patterns.
#[derive(Debug)]
pub struct BlendshapeData {
    /// For each masked vertex its index in the full mesh.
    pub frontal_mask: Vec<i32>,
    /// Neutral pose of the masked vertices.
    pub neutral_flat: Vec<u32>,
    /// Neutral pose of the full mesh.
    pub neutral_skin_flat: Vec<u32>,
    /// Displacement of the full mesh when the eyes close.
    pub eye_close_pose_delta_flat: Vec<u32>,
    /// Displacement of the full mesh when the lips open.
    pub lip_open_pose_delta_flat: Vec<u32>,
    /// Number of components of the masked vertices.
    pub masked_position_count: usize,
    /// Number of solver weights.
    pub active_count: usize,
    /// Displacement of the masked vertices by each pose, row by row.
    pub delta_matrix: Vec<u32>,
}

} // verus!
