//! What the player touches: the block a look ray breaks, whether the
//! player's bounding box overlaps solid blocks, and mouse capture.
use vstd::prelude::*;
use crate::chunk::{in_chunk, Chunk, AIR};
use crate::coords::{chunk_of, chunk_of_spec, local_of, local_of_spec, Coord3};

verus! {

/// A loaded chunk together with its chunk coordinate.
pub type PlacedChunk<'a> = (Coord3, &'a Chunk);

/// Index of the first loaded chunk at chunk coordinate `c`, if any.
pub open spec fn first_chunk_at(chunks: Seq<PlacedChunk>, c: Coord3) -> Option<int> {
    if exists|i: int| 0 <= i < chunks.len() && (#[trigger] chunks[i]).0 == c {
        Some(
            choose|i: int|
                0 <= i < chunks.len() && (#[trigger] chunks[i]).0 == c && forall|j: int|
                    0 <= j < i ==> (#[trigger] chunks[j]).0 != c,
        )
    } else {
        None
    }
}

/// Whether the world block at `p` is solid: the first loaded chunk that
/// covers `p` holds a non-air block there. Unloaded space is not solid.
pub open spec fn solid_at(chunks: Seq<PlacedChunk>, p: Coord3) -> bool {
    match first_chunk_at(chunks, chunk_of_spec(p)) {
        Some(i) => {
            let l = local_of_spec(p);
            chunks[i].1.block(l.0 as int, l.1 as int, l.2 as int) != AIR
        },
        None => false,
    }
}

proof fn lemma_first_chunk_at_is(chunks: Seq<PlacedChunk>, c: Coord3, i: int)
    requires
        0 <= i < chunks.len(),
        chunks[i].0 == c,
        forall|j: int| 0 <= j < i ==> (#[trigger] chunks[j]).0 != c,
    ensures
        first_chunk_at(chunks, c) == Some(i),
{
    let k = choose|k: int|
        0 <= k < chunks.len() && (#[trigger] chunks[k]).0 == c && forall|j: int|
            0 <= j < k ==> (#[trigger] chunks[j]).0 != c;
    assert(0 <= k < chunks.len() && chunks[k].0 == c && forall|j: int|
        0 <= j < k ==> (#[trigger] chunks[j]).0 != c);
    if k < i {
        assert(chunks[k].0 != c);
    } else if k > i {
        assert(chunks[i].0 != c);
    }
}

/// Index of the first loaded chunk at chunk coordinate `c`.
pub fn find_chunk(chunks: &Vec<PlacedChunk>, c: Coord3) -> (r: Option<usize>)
    ensures
        match r {
            Some(i) => i < chunks@.len() && first_chunk_at(chunks@, c) == Some(i as int),
            None => first_chunk_at(chunks@, c) is None,
        },
{
    let mut i: usize = 0;
    while i < chunks.len()
        invariant
            i <= chunks@.len(),
            forall|j: int| 0 <= j < i ==> (#[trigger] chunks@[j]).0 != c,
        decreases chunks@.len() - i,
    {
        if chunks[i].0 == c {
            proof {
                lemma_first_chunk_at_is(chunks@, c, i as int);
            }
            return Some(i);
        }
        i = i + 1;
    }
    None
}

/// Whether the world block at `p` is solid.
pub fn is_solid_at(chunks: &Vec<PlacedChunk>, p: Coord3) -> (b: bool)
    ensures
        b == solid_at(chunks@, p),
{
    match find_chunk(chunks, chunk_of(p)) {
        Some(i) => {
            let (x, y, z) = local_of(p);
            chunks[i].1.get_block(x, y, z) != AIR
        },
        None => false,
    }
}

/// The block a look ray breaks: the ray sample it lies on, the loaded
/// chunk that holds it, and its position inside that chunk.
#[derive(Clone, Copy, Debug)]
pub struct BreakTarget {
    pub point: usize,
    pub chunk: usize,
    pub local: (usize, usize, usize),
}

/// Finds the first solid block along a ray, given as the world blocks
/// that its samples fall in, nearest first.
pub fn find_break_target(chunks: &Vec<PlacedChunk>, points: &Vec<Coord3>) -> (r: Option<
    BreakTarget,
>)
    ensures
        match r {
            None => forall|k: int| 0 <= k < points@.len() ==> !solid_at(chunks@, #[trigger] points@[k]),
            Some(t) => {
                &&& t.point < points@.len()
                &&& solid_at(chunks@, points@[t.point as int])
                &&& forall|k: int| 0 <= k < t.point ==> !solid_at(chunks@, #[trigger] points@[k])
                &&& first_chunk_at(chunks@, chunk_of_spec(points@[t.point as int])) == Some(
                    t.chunk as int,
                )
                &&& t.local == local_of_spec(points@[t.point as int])
            },
        },
{
    let mut k: usize = 0;
    while k < points.len()
        invariant
            k <= points@.len(),
            forall|j: int| 0 <= j < k ==> !solid_at(chunks@, #[trigger] points@[j]),
        decreases points@.len() - k,
    {
        let p = points[k];
        if let Some(i) = find_chunk(chunks, chunk_of(p)) {
            let (x, y, z) = local_of(p);
            if chunks[i].1.get_block(x, y, z) != AIR {
                return Some(BreakTarget { point: k, chunk: i, local: (x, y, z) });
            }
        }
        k = k + 1;
    }
    None
}

/// Whether `p` lies in the box spanned by the corners `lo` and `hi`
/// (both included).
pub open spec fn in_box(lo: Coord3, hi: Coord3, p: Coord3) -> bool {
    &&& lo.x <= p.x <= hi.x
    &&& lo.y <= p.y <= hi.y
    &&& lo.z <= p.z <= hi.z
}

/// Whether any block in the box spanned by `lo` and `hi` (both
/// included) is solid.
pub fn box_has_solid(chunks: &Vec<PlacedChunk>, lo: Coord3, hi: Coord3) -> (b: bool)
    ensures
        b == exists|p: Coord3| in_box(lo, hi, p) && #[trigger] solid_at(chunks@, p),
{
    let mut x: i64 = lo.x as i64;
    while x <= hi.x as i64
        invariant
            lo.x <= x <= hi.x + 1 || (x == lo.x && lo.x > hi.x),
            forall|p: Coord3| in_box(lo, hi, p) && p.x < x ==> !#[trigger] solid_at(chunks@, p),
        decreases hi.x + 1 - x,
    {
        let mut y: i64 = lo.y as i64;
        while y <= hi.y as i64
            invariant
                lo.x <= x <= hi.x,
                lo.y <= y <= hi.y + 1 || (y == lo.y && lo.y > hi.y),
                forall|p: Coord3| in_box(lo, hi, p) && p.x < x ==> !#[trigger] solid_at(chunks@, p),
                forall|p: Coord3|
                    in_box(lo, hi, p) && p.x == x && p.y < y ==> !#[trigger] solid_at(chunks@, p),
            decreases hi.y + 1 - y,
        {
            let mut z: i64 = lo.z as i64;
            while z <= hi.z as i64
                invariant
                    lo.x <= x <= hi.x,
                    lo.y <= y <= hi.y,
                    lo.z <= z <= hi.z + 1 || (z == lo.z && lo.z > hi.z),
                    forall|p: Coord3| in_box(lo, hi, p) && p.x < x ==> !#[trigger] solid_at(chunks@, p),
                    forall|p: Coord3|
                        in_box(lo, hi, p) && p.x == x && p.y < y ==> !#[trigger] solid_at(chunks@, p),
                    forall|p: Coord3|
                        in_box(lo, hi, p) && p.x == x && p.y == y && p.z < z ==> !#[trigger] solid_at(
                            chunks@,
                            p,
                        ),
                decreases hi.z + 1 - z,
            {
                let p = Coord3 { x: x as i32, y: y as i32, z: z as i32 };
                if is_solid_at(chunks, p) {
                    assert(in_box(lo, hi, p));
                    return true;
                }
                z = z + 1;
            }
            y = y + 1;
        }
        x = x + 1;
    }
    false
}

/// How the window holds the mouse cursor.
#[derive(Clone, Copy, Debug, PartialEq, Eq, Structural)]
pub enum CursorGrab {
    /// The cursor moves freely.
    Free,
    /// The cursor is kept inside the window.
    Confined,
    /// The cursor is locked in place.
    Locked,
}

/// The grab mode and cursor visibility after the player toggles mouse
/// capture: a free cursor gets locked and hidden, any other is freed and
/// shown.
pub fn toggle_cursor_grab(mode: CursorGrab) -> (r: (CursorGrab, bool))
    ensures
        r == (if mode == CursorGrab::Free {
            (CursorGrab::Locked, false)
        } else {
            (CursorGrab::Free, true)
        }),
{
    match mode {
        CursorGrab::Free => (CursorGrab::Locked, false),
        _ => (CursorGrab::Free, true),
    }
}

/// Toggling capture twice from a free or locked cursor gives the same
/// mode back, visible exactly when free.
pub proof fn lemma_toggle_twice(mode: CursorGrab)
    requires
        mode != CursorGrab::Confined,
    ensures
        ({
            let once = if mode == CursorGrab::Free {
                (CursorGrab::Locked, false)
            } else {
                (CursorGrab::Free, true)
            };
            let twice = if once.0 == CursorGrab::Free {
                (CursorGrab::Locked, false)
            } else {
                (CursorGrab::Free, true)
            };
            twice.0 == mode && twice.1 == (mode == CursorGrab::Free)
        }),
{
}

} // verus!

verus! {

proof fn lemma_first_chunk_at_props(chunks: Seq<PlacedChunk>, c: Coord3)
    ensures
        match first_chunk_at(chunks, c) {
            Some(i) => 0 <= i < chunks.len() && chunks[i].0 == c && forall|j: int|
                0 <= j < i ==> (#[trigger] chunks[j]).0 != c,
            None => forall|i: int| 0 <= i < chunks.len() ==> (#[trigger] chunks[i]).0 != c,
        },
{
    if exists|i: int| 0 <= i < chunks.len() && (#[trigger] chunks[i]).0 == c {
        let i = choose|i: int| 0 <= i < chunks.len() && (#[trigger] chunks[i]).0 == c;
        lemma_least_match(chunks, c, i);
    }
}

proof fn lemma_least_match(chunks: Seq<PlacedChunk>, c: Coord3, i: int)
    requires
        0 <= i < chunks.len(),
        chunks[i].0 == c,
    ensures
        exists|k: int|
            0 <= k < chunks.len() && (#[trigger] chunks[k]).0 == c && forall|j: int|
                0 <= j < k ==> (#[trigger] chunks[j]).0 != c,
    decreases i,
{
    if exists|j: int| 0 <= j < i && (#[trigger] chunks[j]).0 == c {
        let j = choose|j: int| 0 <= j < i && (#[trigger] chunks[j]).0 == c;
        lemma_least_match(chunks, c, j);
    } else {
        assert(forall|j: int| 0 <= j < i ==> (#[trigger] chunks[j]).0 != c);
    }
}

proof fn lemma_same_coords_same_lookup(a: Seq<PlacedChunk>, b: Seq<PlacedChunk>, c: Coord3)
    requires
        a.len() == b.len(),
        forall|i: int| 0 <= i < a.len() ==> (#[trigger] a[i]).0 == b[i].0,
    ensures
        first_chunk_at(a, c) == first_chunk_at(b, c),
{
    lemma_first_chunk_at_props(a, c);
    lemma_first_chunk_at_props(b, c);
    match first_chunk_at(a, c) {
        Some(i) => {
            assert forall|j: int| 0 <= j < i implies (#[trigger] b[j]).0 != c by {
                assert(a[j].0 == b[j].0);
            }
            assert(a[i].0 == b[i].0);
            lemma_first_chunk_at_is(b, c, i);
        },
        None => {
            if first_chunk_at(b, c) is Some {
                let i = first_chunk_at(b, c).unwrap();
                assert(a[i].0 == b[i].0);
            }
        },
    }
}

/// Breaking a block changes that world block and no other: replace the
/// chunk that holds it (the first loaded chunk at its coordinate) with a
/// copy in which only that block became air, and the block is no longer
/// solid while every other world block is as solid as before.
pub proof fn lemma_break_changes_one_block(
    chunks: Seq<PlacedChunk>,
    target: int,
    lx: int,
    ly: int,
    lz: int,
    broken: &Chunk,
    p: Coord3,
)
    requires
        0 <= target < chunks.len(),
        first_chunk_at(chunks, chunks[target].0) == Some(target),
        in_chunk(lx, ly, lz),
        broken.block(lx, ly, lz) == AIR,
        forall|a: int, b: int, c: int|
            in_chunk(a, b, c) && !(a == lx && b == ly && c == lz) ==> #[trigger] broken.block(a, b, c)
                == chunks[target].1.block(a, b, c),
    ensures
        ({
            let after = chunks.update(target, (chunks[target].0, broken));
            let hit = chunk_of_spec(p) == chunks[target].0 && local_of_spec(p) == (
                lx as usize,
                ly as usize,
                lz as usize,
            );
            &&& hit ==> !solid_at(after, p)
            &&& !hit ==> solid_at(after, p) == solid_at(chunks, p)
        }),
{
    let after = chunks.update(target, (chunks[target].0, broken));
    lemma_same_coords_same_lookup(chunks, after, chunk_of_spec(p));
    crate::coords::lemma_chunk_local_split(p);
    lemma_first_chunk_at_props(chunks, chunk_of_spec(p));
}

} // verus!
