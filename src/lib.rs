//! Chunked signed-distance voxel terrain: chunk geometry, quantized signed
//! distances, sparse chunk storage with neighbourhood stitching, and the
//! decisions of the generate-then-mesh pipeline.

pub mod geometry;
pub mod chunk;
pub mod key_map;
pub mod chunk_map;
pub mod commands;
pub mod liveness;
pub mod meshing;
pub mod generation;
pub mod chunk_world;
