//! Integer grid coordinates and the Euclidean splitting of world
//! positions into chunk and region coordinates.
use vstd::prelude::*;

verus! {

/// Edge length of a cubic chunk, in blocks.
pub const CHUNK_SIZE: usize = 16;

/// Edge length of a square region, in chunks.
pub const REGION_SIZE: i32 = 32;

/// A point of the integer grid: a block position in the world, or the
/// position of a chunk in chunk units.
#[derive(Clone, Copy, Debug, PartialEq, Eq, Structural)]
pub struct Coord3 {
    pub x: i32,
    pub y: i32,
    pub z: i32,
}

/// A point of the horizontal integer plane (a region coordinate).
#[derive(Clone, Copy, Debug, PartialEq, Eq, Structural)]
pub struct Coord2 {
    pub x: i32,
    pub y: i32,
}

impl Coord3 {
    pub fn new(x: i32, y: i32, z: i32) -> (c: Coord3)
        ensures
            c.x == x,
            c.y == y,
            c.z == z,
    {
        Coord3 { x, y, z }
    }
}

impl Coord2 {
    pub fn new(x: i32, y: i32) -> (c: Coord2)
        ensures
            c.x == x,
            c.y == y,
    {
        Coord2 { x, y }
    }
}

/// Floor division by a positive divisor (Euclidean division).
pub fn div_euclid(a: i32, d: i32) -> (q: i32)
    requires
        d > 0,
    ensures
        q == a as int / d as int,
{
    match a.checked_div_euclid(d) {
        Some(q) => q,
        None => {
            proof {
                assert(i32::MIN <= a as int / d as int <= i32::MAX) by (nonlinear_arith)
                    requires
                        d > 0,
                        i32::MIN <= a <= i32::MAX,
                ;
            }
            0
        },
    }
}

/// Non-negative remainder of division by a positive divisor.
pub fn rem_euclid(a: i32, d: i32) -> (r: i32)
    requires
        d > 0,
    ensures
        r == a as int % d as int,
        0 <= r < d,
{
    match a.checked_rem_euclid(d) {
        Some(r) => r,
        None => 0,
    }
}

/// Chunk coordinate of the chunk that holds a world block position.
pub open spec fn chunk_of_spec(p: Coord3) -> Coord3 {
    Coord3 {
        x: (p.x as int / CHUNK_SIZE as int) as i32,
        y: (p.y as int / CHUNK_SIZE as int) as i32,
        z: (p.z as int / CHUNK_SIZE as int) as i32,
    }
}

/// Position of a world block inside its chunk, each axis in `0..CHUNK_SIZE`.
pub open spec fn local_of_spec(p: Coord3) -> (usize, usize, usize) {
    (
        (p.x as int % CHUNK_SIZE as int) as usize,
        (p.y as int % CHUNK_SIZE as int) as usize,
        (p.z as int % CHUNK_SIZE as int) as usize,
    )
}

/// Region that holds a chunk: its x and z chunk coordinates floor-divided
/// by the region size.
pub open spec fn region_of_spec(c: Coord3) -> Coord2 {
    Coord2 {
        x: (c.x as int / REGION_SIZE as int) as i32,
        y: (c.z as int / REGION_SIZE as int) as i32,
    }
}

/// Chunk coordinate of the chunk that holds a world block position.
pub fn chunk_of(p: Coord3) -> (c: Coord3)
    ensures
        c == chunk_of_spec(p),
{
    let s = CHUNK_SIZE as i32;
    Coord3 { x: div_euclid(p.x, s), y: div_euclid(p.y, s), z: div_euclid(p.z, s) }
}

/// Position of a world block inside its chunk.
pub fn local_of(p: Coord3) -> (l: (usize, usize, usize))
    ensures
        l == local_of_spec(p),
        l.0 < CHUNK_SIZE,
        l.1 < CHUNK_SIZE,
        l.2 < CHUNK_SIZE,
{
    let s = CHUNK_SIZE as i32;
    let x = rem_euclid(p.x, s);
    let y = rem_euclid(p.y, s);
    let z = rem_euclid(p.z, s);
    (x as usize, y as usize, z as usize)
}

/// Region that holds a chunk.
pub fn region_of(c: Coord3) -> (r: Coord2)
    ensures
        r == region_of_spec(c),
{
    Coord2 { x: div_euclid(c.x, REGION_SIZE), y: div_euclid(c.z, REGION_SIZE) }
}

/// Splitting a world position into chunk and local parts loses nothing:
/// the position is the chunk's origin plus the local offset, and the
/// local offset lies inside the chunk.
pub proof fn lemma_chunk_local_split(p: Coord3)
    ensures
        p.x == chunk_of_spec(p).x * CHUNK_SIZE + local_of_spec(p).0,
        p.y == chunk_of_spec(p).y * CHUNK_SIZE + local_of_spec(p).1,
        p.z == chunk_of_spec(p).z * CHUNK_SIZE + local_of_spec(p).2,
        local_of_spec(p).0 < CHUNK_SIZE,
        local_of_spec(p).1 < CHUNK_SIZE,
        local_of_spec(p).2 < CHUNK_SIZE,
{
    lemma_floor_split(p.x as int);
    lemma_floor_split(p.y as int);
    lemma_floor_split(p.z as int);
}

proof fn lemma_floor_split(a: int)
    requires
        i32::MIN <= a <= i32::MAX,
    ensures
        a == (a / 16) * 16 + a % 16,
        0 <= a % 16 < 16,
        i32::MIN <= a / 16 <= i32::MAX,
{
    assert(a == (a / 16) * 16 + a % 16 && 0 <= a % 16 < 16) by (nonlinear_arith);
}

/// A world position belongs to the chunk `c` exactly when it lies in the
/// cube of side `CHUNK_SIZE` whose lowest corner is `c * CHUNK_SIZE`.
pub proof fn lemma_chunk_of_characterization(p: Coord3, c: Coord3)
    ensures
        chunk_of_spec(p) == c <==> (
            c.x * CHUNK_SIZE <= p.x < c.x * CHUNK_SIZE + CHUNK_SIZE
            && c.y * CHUNK_SIZE <= p.y < c.y * CHUNK_SIZE + CHUNK_SIZE
            && c.z * CHUNK_SIZE <= p.z < c.z * CHUNK_SIZE + CHUNK_SIZE),
{
    lemma_floor_unique(p.x as int, c.x as int);
    lemma_floor_unique(p.y as int, c.y as int);
    lemma_floor_unique(p.z as int, c.z as int);
    lemma_floor_split(p.x as int);
    lemma_floor_split(p.y as int);
    lemma_floor_split(p.z as int);
}

proof fn lemma_floor_unique(a: int, q: int)
    ensures
        a / 16 == q <==> (q * 16 <= a < q * 16 + 16),
{
    assert(a / 16 == q <==> (q * 16 <= a < q * 16 + 16)) by (nonlinear_arith);
}

} // verus!

verus! {

/// Joining a chunk coordinate and an offset inside the chunk gives a
/// world position that splits back into the same two parts.
pub proof fn lemma_chunk_local_join(c: Coord3, lx: int, ly: int, lz: int)
    requires
        0 <= lx < CHUNK_SIZE,
        0 <= ly < CHUNK_SIZE,
        0 <= lz < CHUNK_SIZE,
        i32::MIN <= c.x * CHUNK_SIZE + lx <= i32::MAX,
        i32::MIN <= c.y * CHUNK_SIZE + ly <= i32::MAX,
        i32::MIN <= c.z * CHUNK_SIZE + lz <= i32::MAX,
    ensures
        ({
            let p = Coord3 {
                x: (c.x * CHUNK_SIZE + lx) as i32,
                y: (c.y * CHUNK_SIZE + ly) as i32,
                z: (c.z * CHUNK_SIZE + lz) as i32,
            };
            chunk_of_spec(p) == c && local_of_spec(p) == (lx as usize, ly as usize, lz as usize)
        }),
{
    lemma_join_axis(c.x as int, lx);
    lemma_join_axis(c.y as int, ly);
    lemma_join_axis(c.z as int, lz);
}

proof fn lemma_join_axis(q: int, l: int)
    requires
        0 <= l < 16,
    ensures
        (q * 16 + l) / 16 == q,
        (q * 16 + l) % 16 == l,
{
    assert((q * 16 + l) / 16 == q && (q * 16 + l) % 16 == l) by (nonlinear_arith)
        requires
            0 <= l < 16,
    ;
}

/// Two world positions with the same chunk and the same offset inside it
/// are the same position.
pub proof fn lemma_split_injective(p: Coord3, q: Coord3)
    requires
        chunk_of_spec(p) == chunk_of_spec(q),
        local_of_spec(p) == local_of_spec(q),
    ensures
        p == q,
{
    lemma_chunk_local_split(p);
    lemma_chunk_local_split(q);
}

} // verus!

verus! {

/// A chunk belongs to the region `r` exactly when its x and z chunk
/// coordinates lie in the square of side `REGION_SIZE` whose lowest
/// corner is `r * REGION_SIZE`; its height does not matter.
pub proof fn lemma_region_of_characterization(c: Coord3, r: Coord2)
    ensures
        region_of_spec(c) == r <==> (r.x * REGION_SIZE <= c.x < r.x * REGION_SIZE + REGION_SIZE
            && r.y * REGION_SIZE <= c.z < r.y * REGION_SIZE + REGION_SIZE),
{
    lemma_region_axis(c.x as int, r.x as int);
    lemma_region_axis(c.z as int, r.y as int);
    assert(i32::MIN <= c.x as int / 32 <= i32::MAX) by (nonlinear_arith)
        requires
            i32::MIN <= c.x <= i32::MAX,
    ;
    assert(i32::MIN <= c.z as int / 32 <= i32::MAX) by (nonlinear_arith)
        requires
            i32::MIN <= c.z <= i32::MAX,
    ;
}

proof fn lemma_region_axis(a: int, q: int)
    ensures
        a / 32 == q <==> (q * 32 <= a < q * 32 + 32),
{
    assert(a / 32 == q <==> (q * 32 <= a < q * 32 + 32)) by (nonlinear_arith);
}

} // verus!
