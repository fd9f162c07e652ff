//! Core of a voxel terrain engine: a signed-distance field is sampled chunk by
//! chunk into sparse octrees, surface points are extracted and stitched across
//! chunk borders into indexed meshes, and the meshes are placed into a bounded
//! family of buffer slots.
pub mod direction;
pub mod generator;
pub mod hasher;
pub mod math;
pub mod octree;
pub mod render;
pub mod seqs;
pub mod world;
