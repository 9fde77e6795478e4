//! Chunk storage, meshing and the chunk pipeline of a voxel world.
//!
//! A chunk is a 32x32x32 block of cells stored with a per-chunk palette ([`chunk`]).
//! The mesher ([`mesher`]) turns a chunk and its six neighbours into the faces to draw,
//! hiding faces against full neighbouring sides. The world ([`world`]) holds the loaded
//! chunks and the queues of the generation and meshing pipeline, whose stages decide what
//! to spawn, install, mesh and upload; running the tasks is left to the caller.

pub mod block_state;
pub mod chunk;
pub mod errors;
pub mod generation;
pub mod mesher;
pub mod packed;
pub mod player;
pub mod pos;
pub mod registry;
pub mod world;
