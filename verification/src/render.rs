//! What is handed to the renderer: indexed meshes, and the pool of buffer
//! slots that they are placed in.
pub mod buffers;
pub mod mesh;
pub mod pool;
