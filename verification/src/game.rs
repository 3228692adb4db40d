//! World data as plain values: blocks and the chunks that hold them.

use vstd::prelude::*;

verus! {

/// A block of the world, identified by a static name.
pub struct Block {
    pub id: &'static str,
    pub data: Option<BlockData>,
}

/// Per-block payload; empty for the plain block kinds.
pub struct BlockData {}

impl Block {
    pub fn new(id: &'static str) -> (r: Block)
        ensures
            r.id == id,
            r.data is None,
    {
        Block { id, data: None }
    }
}

/// A 16 by 16 by 16 grid of blocks at a chunk position.
pub struct Chunk {
    pub pos: ChunkPos,
    pub blocks: [[[Block; 16]; 16]; 16],
}

/// A chunk's coordinates in chunk space.
#[derive(Clone, Copy, Debug, PartialEq, Eq, Structural)]
pub struct ChunkPos {
    pub x: i32,
    pub y: i32,
    pub z: i32,
}

} // verus!
