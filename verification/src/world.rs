//! The streamed world: chunks, their samples, surfaces and meshes.
pub mod chunk;
pub mod level;
pub mod manager;
pub mod meshing;
pub mod morton;
pub mod nearby;
pub mod update;
