use vstd::prelude::*;
use crate::pos::IVec3;

verus! {

/// Errors of a single chunk, or of the chunk map's structure.
#[derive(Debug, Clone, Copy, PartialEq, Eq, Structural)]
pub enum ChunkError {
    /// The chunk's data has not been installed yet.
    Uninitialized(IVec3),
    /// A local coordinate is outside `[0, 32)`.
    OutOfBounds(IVec3),
    /// The chunk's data was installed twice.
    AlreadyInitialized(IVec3),
    /// A chunk is already present at that position.
    DuplicateChunk(IVec3),
    /// No chunk is present at that position.
    NotFound(IVec3),
}

/// Errors of reads and writes through the world.
#[derive(Debug, Clone, Copy, PartialEq, Eq, Structural)]
pub enum WorldError {
    Chunk(ChunkError),
    /// The chunk that would hold the position is not in the map.
    UnloadedChunk(IVec3),
}

/// Errors of block state construction.
#[derive(Debug, Clone, PartialEq, Eq)]
pub enum BlockStateError {
    /// The block id is not in the registry.
    InvalidId(String),
}

/// Errors of a block's state properties against the block's definitions.
#[derive(Debug, Clone, PartialEq, Eq)]
pub enum StateError {
    /// The block (first) defines no property named like the key (second).
    UnknownProperty(String, String),
    /// The block (first) does not allow the value (third) for the property (second).
    UnknownValue(String, String, String),
}

/// Errors of registration.
#[derive(Debug, Clone, PartialEq, Eq)]
pub enum RegistryError {
    /// The id (first) is already registered in the registry (second).
    Duplicate(String, String),
    /// The registry no longer accepts entries.
    Frozen(String),
}

/// Errors of block model construction.
#[derive(Debug, Clone, PartialEq, Eq)]
pub enum BlockModelError {
    InvalidFace(String),
    KeyNotFound(String),
    TextureNotFound(String),
    CircularDependency(String),
}

impl From<ChunkError> for WorldError {
    fn from(e: ChunkError) -> (r: WorldError) {
        WorldError::Chunk(e)
    }
}

impl vstd::std_specs::convert::FromSpecImpl<ChunkError> for WorldError {
    open spec fn obeys_from_spec() -> bool {
        true
    }

    open spec fn from_spec(e: ChunkError) -> WorldError {
        WorldError::Chunk(e)
    }
}

} // verus!
