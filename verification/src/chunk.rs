//! A cubic chunk of block ids and the flat terrain it starts with.
use vstd::prelude::*;
use crate::coords::{Coord3, CHUNK_SIZE};

verus! {

/// The id every chunk is filled with and that counts as empty space.
pub const AIR: u16 = 0;

/// A cube of `CHUNK_SIZE`³ block ids, indexed `[x][y][z]`.
#[derive(Debug)]
pub struct Chunk {
    pub blocks: [[[u16; 16]; 16]; 16],
}

/// Whether a local position lies inside a chunk.
pub open spec fn in_chunk(x: int, y: int, z: int) -> bool {
    0 <= x < CHUNK_SIZE && 0 <= y < CHUNK_SIZE && 0 <= z < CHUNK_SIZE
}

/// The block a freshly generated ground chunk holds at height `y`:
/// dirt at the bottom layer, grass on top of it, air above.
pub open spec fn ground_block(y: int, dirt: u16, grass: u16) -> u16 {
    if y == 0 {
        dirt
    } else if y == 1 {
        grass
    } else {
        AIR
    }
}

impl Chunk {
    /// The id stored at a local position.
    pub open spec fn block(&self, x: int, y: int, z: int) -> u16 {
        self.blocks[x][y][z]
    }

    /// Whether two chunks hold the same ids everywhere.
    pub open spec fn same_blocks(&self, other: &Chunk) -> bool {
        forall|x: int, y: int, z: int| in_chunk(x, y, z) ==> #[trigger] self.block(x, y, z) == other.block(x, y, z)
    }

    /// A chunk of air.
    pub fn empty() -> (c: Self)
        ensures
            forall|x: int, y: int, z: int| in_chunk(x, y, z) ==> #[trigger] c.block(x, y, z) == AIR,
    {
        Chunk { blocks: [[[0u16; 16]; 16]; 16] }
    }

    /// The id stored at a local position.
    pub fn get_block(&self, x: usize, y: usize, z: usize) -> (b: u16)
        requires
            in_chunk(x as int, y as int, z as int),
        ensures
            b == self.block(x as int, y as int, z as int),
    {
        self.blocks[x][y][z]
    }

    /// Stores an id at a local position and leaves every other position as it was.
    pub fn set_block(&mut self, x: usize, y: usize, z: usize, id: u16)
        requires
            in_chunk(x as int, y as int, z as int),
        ensures
            final(self).block(x as int, y as int, z as int) == id,
            forall|a: int, b: int, c: int|
                in_chunk(a, b, c) && !(a == x && b == y && c == z) ==> #[trigger] final(self).block(a, b, c)
                    == old(self).block(a, b, c),
    {
        self.blocks[x][y][z] = id;
    }

    /// Turns a non-air block into air; reports whether there was one.
    pub fn break_block(&mut self, x: usize, y: usize, z: usize) -> (hit: bool)
        requires
            in_chunk(x as int, y as int, z as int),
        ensures
            hit == (old(self).block(x as int, y as int, z as int) != AIR),
            final(self).block(x as int, y as int, z as int) == AIR,
            forall|a: int, b: int, c: int|
                in_chunk(a, b, c) && !(a == x && b == y && c == z) ==> #[trigger] final(self).block(a, b, c)
                    == old(self).block(a, b, c),
    {
        if self.blocks[x][y][z] != AIR {
            self.set_block(x, y, z, AIR);
            true
        } else {
            false
        }
    }

    /// Lays the ground: dirt over the whole bottom layer and grass over
    /// the whole layer above it; the other layers stay as they were.
    pub fn fill_ground(&mut self, dirt: u16, grass: u16)
        ensures
            forall|x: int, y: int, z: int|
                in_chunk(x, y, z) ==> #[trigger] final(self).block(x, y, z) == if y < 2 {
                    ground_block(y, dirt, grass)
                } else {
                    old(self).block(x, y, z)
                },
    {
        let mut x: usize = 0;
        while x < CHUNK_SIZE
            invariant
                x <= CHUNK_SIZE,
                forall|a: int, b: int, c: int|
                    in_chunk(a, b, c) ==> #[trigger] self.block(a, b, c) == if b < 2 && a < x {
                        ground_block(b, dirt, grass)
                    } else {
                        old(self).block(a, b, c)
                    },
            decreases CHUNK_SIZE - x,
        {
            let mut z: usize = 0;
            while z < CHUNK_SIZE
                invariant
                    x < CHUNK_SIZE,
                    z <= CHUNK_SIZE,
                    forall|a: int, b: int, c: int|
                        in_chunk(a, b, c) ==> #[trigger] self.block(a, b, c) == if b < 2 && (a < x || (
                        a == x && c < z)) {
                            ground_block(b, dirt, grass)
                        } else {
                            old(self).block(a, b, c)
                        },
                decreases CHUNK_SIZE - z,
            {
                self.set_block(x, 0, z, dirt);
                self.set_block(x, 1, z, grass);
                z = z + 1;
            }
            x = x + 1;
        }
    }
}

/// The terrain of a chunk that was never saved: the chunks at height zero
/// get the ground layers, every other chunk is air.
pub fn generate_chunk(coord: Coord3, dirt: u16, grass: u16) -> (c: Chunk)
    ensures
        forall|x: int, y: int, z: int|
            in_chunk(x, y, z) ==> #[trigger] c.block(x, y, z) == if coord.y == 0 {
                ground_block(y, dirt, grass)
            } else {
                AIR
            },
{
    let mut c = Chunk::empty();
    if coord.y == 0 {
        c.fill_ground(dirt, grass);
    }
    c
}

} // verus!
