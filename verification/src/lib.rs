//! Verified CPU-side building blocks of a voxel renderer: section run-length
//! encoding, residency tables, voxel DAGs, ID packing and friends.

pub mod section_rle;
pub mod section_compress;
pub mod subgroup;
pub mod tbdr_hints;
pub mod vrs;
pub mod static_be;
pub mod visibility_buffer;
pub mod simd_kernels;
pub mod simd_kernels_avx2;
pub mod soa_layout;
pub mod software_tiling;
pub mod root_signature_optimized;
pub mod string_intern;
pub mod sparse_texture;
pub mod temporal_mesh_diff;
pub mod vertex_pool;
pub mod vertex_cache_opt;
pub mod texture_atlas;
pub mod texture_budget;
pub mod texture_atlas_virtual;
pub mod stutter_guard;
pub mod region_zstd;
pub mod render_pipeline;
pub mod svdag;
pub mod text;
pub mod svo;
pub mod transform_svdag;
pub mod triple_buffer;
pub mod visibility_graph;
pub mod spatial_hash;
pub mod tiled_deferred;
