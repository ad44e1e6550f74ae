//! Face culling and mesh layout for a chunk: which block faces are seen,
//! where their corners lie, and how they are cut into triangles.
use vstd::prelude::*;
use crate::blocks::FaceSlot;
use crate::chunk::{in_chunk, Chunk, AIR};
use crate::coords::CHUNK_SIZE;

verus! {

/// The six directions a block face can look in, in the order in which
/// a block's faces are emitted.
#[derive(Clone, Copy, Debug, PartialEq, Eq, Structural)]
pub enum FaceDir {
    /// Up (+y).
    PosY,
    /// Down (-y).
    NegY,
    /// +x.
    PosX,
    /// -x.
    NegX,
    /// +z.
    PosZ,
    /// -z.
    NegZ,
}

/// One visible face of one block.
#[derive(Clone, Copy, Debug, PartialEq, Eq, Structural)]
pub struct MeshFace {
    pub x: usize,
    pub y: usize,
    pub z: usize,
    pub dir: FaceDir,
    pub block: u16,
}

/// A face is open when nothing covers it: it lies on the chunk's
/// boundary, or the neighbouring block in its direction is air.
pub open spec fn face_open(c: &Chunk, x: int, y: int, z: int, d: FaceDir) -> bool {
    match d {
        FaceDir::PosY => y == CHUNK_SIZE - 1 || c.block(x, y + 1, z) == AIR,
        FaceDir::NegY => y == 0 || c.block(x, y - 1, z) == AIR,
        FaceDir::PosX => x == CHUNK_SIZE - 1 || c.block(x + 1, y, z) == AIR,
        FaceDir::NegX => x == 0 || c.block(x - 1, y, z) == AIR,
        FaceDir::PosZ => z == CHUNK_SIZE - 1 || c.block(x, y, z + 1) == AIR,
        FaceDir::NegZ => z == 0 || c.block(x, y, z - 1) == AIR,
    }
}

/// A face is drawn when its block is not air and the face is open.
pub open spec fn face_visible(c: &Chunk, x: int, y: int, z: int, d: FaceDir) -> bool {
    c.block(x, y, z) != AIR && face_open(c, x, y, z, d)
}

pub open spec fn face_if_open(c: &Chunk, x: int, y: int, z: int, d: FaceDir) -> Seq<MeshFace> {
    if face_open(c, x, y, z, d) {
        seq![MeshFace { x: x as usize, y: y as usize, z: z as usize, dir: d, block: c.block(x, y, z) }]
    } else {
        Seq::empty()
    }
}

/// The faces one block contributes, in emission order.
pub open spec fn cell_faces(c: &Chunk, x: int, y: int, z: int) -> Seq<MeshFace> {
    if c.block(x, y, z) == AIR {
        Seq::empty()
    } else {
        face_if_open(c, x, y, z, FaceDir::PosY) + face_if_open(c, x, y, z, FaceDir::NegY)
            + face_if_open(c, x, y, z, FaceDir::PosX) + face_if_open(c, x, y, z, FaceDir::NegX)
            + face_if_open(c, x, y, z, FaceDir::PosZ) + face_if_open(c, x, y, z, FaceDir::NegZ)
    }
}

/// Position of the `i`-th block in visiting order: x slowest, z fastest.
pub open spec fn cell_x(i: int) -> int {
    i / 256
}

pub open spec fn cell_y(i: int) -> int {
    (i / 16) % 16
}

pub open spec fn cell_z(i: int) -> int {
    i % 16
}

/// Number of blocks in a chunk.
pub open spec fn cell_count() -> int {
    4096
}

/// The faces of the first `n` blocks in visiting order.
pub open spec fn faces_upto(c: &Chunk, n: int) -> Seq<MeshFace>
    decreases n,
{
    if n <= 0 {
        Seq::empty()
    } else {
        faces_upto(c, n - 1) + cell_faces(c, cell_x(n - 1), cell_y(n - 1), cell_z(n - 1))
    }
}

/// Every visible face of a chunk, block after block with x varying
/// slowest and z fastest, each block's faces in `FaceDir` order.
pub open spec fn visible_faces_spec(c: &Chunk) -> Seq<MeshFace> {
    faces_upto(c, cell_count())
}

proof fn lemma_faces_upto_len(c: &Chunk, n: int)
    requires
        0 <= n,
    ensures
        faces_upto(c, n).len() <= 6 * n,
    decreases n,
{
    if n > 0 {
        lemma_faces_upto_len(c, n - 1);
    }
}

fn face_open_exec(c: &Chunk, x: usize, y: usize, z: usize, d: FaceDir) -> (b: bool)
    requires
        in_chunk(x as int, y as int, z as int),
    ensures
        b == face_open(c, x as int, y as int, z as int, d),
{
    match d {
        FaceDir::PosY => y == CHUNK_SIZE - 1 || c.get_block(x, y + 1, z) == AIR,
        FaceDir::NegY => y == 0 || c.get_block(x, y - 1, z) == AIR,
        FaceDir::PosX => x == CHUNK_SIZE - 1 || c.get_block(x + 1, y, z) == AIR,
        FaceDir::NegX => x == 0 || c.get_block(x - 1, y, z) == AIR,
        FaceDir::PosZ => z == CHUNK_SIZE - 1 || c.get_block(x, y, z + 1) == AIR,
        FaceDir::NegZ => z == 0 || c.get_block(x, y, z - 1) == AIR,
    }
}

fn push_if_open(c: &Chunk, x: usize, y: usize, z: usize, d: FaceDir, out: &mut Vec<MeshFace>)
    requires
        in_chunk(x as int, y as int, z as int),
    ensures
        final(out)@ == old(out)@ + face_if_open(c, x as int, y as int, z as int, d),
{
    if face_open_exec(c, x, y, z, d) {
        out.push(MeshFace { x, y, z, dir: d, block: c.get_block(x, y, z) });
    }
    proof {
        assert(final(out)@ =~= old(out)@ + face_if_open(c, x as int, y as int, z as int, d));
    }
}

/// Every visible face of a chunk, in emission order.
pub fn visible_faces(c: &Chunk) -> (faces: Vec<MeshFace>)
    ensures
        faces@ == visible_faces_spec(c),
{
    let mut faces: Vec<MeshFace> = Vec::new();
    let mut i: usize = 0;
    while i < 4096
        invariant
            i <= 4096,
            faces@ == faces_upto(c, i as int),
        decreases 4096 - i,
    {
        let x = i / 256;
        let y = (i / 16) % 16;
        let z = i % 16;
        if c.get_block(x, y, z) != AIR {
            let ghost f0 = faces@;
            push_if_open(c, x, y, z, FaceDir::PosY, &mut faces);
            push_if_open(c, x, y, z, FaceDir::NegY, &mut faces);
            push_if_open(c, x, y, z, FaceDir::PosX, &mut faces);
            push_if_open(c, x, y, z, FaceDir::NegX, &mut faces);
            push_if_open(c, x, y, z, FaceDir::PosZ, &mut faces);
            push_if_open(c, x, y, z, FaceDir::NegZ, &mut faces);
            proof {
                let (xi, yi, zi) = (x as int, y as int, z as int);
                assert(faces@ =~= f0 + cell_faces(c, xi, yi, zi));
            }
        }
        i = i + 1;
    }
    faces
}

} // verus!

verus! {

/// A mesh vertex position, in block units relative to the chunk's origin.
pub type Vertex = (u32, u32, u32);

/// A face normal.
pub type Normal = (i32, i32, i32);

impl FaceDir {
    /// Which of a block's textures a face in this direction shows.
    pub open spec fn slot_spec(self) -> FaceSlot {
        match self {
            FaceDir::PosY => FaceSlot::Top,
            FaceDir::NegY => FaceSlot::Bottom,
            _ => FaceSlot::Side,
        }
    }

    /// The outward unit normal.
    pub open spec fn normal_spec(self) -> Normal {
        match self {
            FaceDir::PosY => (0, 1, 0),
            FaceDir::NegY => (0, -1i32, 0),
            FaceDir::PosX => (1, 0, 0),
            FaceDir::NegX => (-1i32, 0, 0),
            FaceDir::PosZ => (0, 0, 1),
            FaceDir::NegZ => (0, 0, -1i32),
        }
    }

    pub fn slot(self) -> (s: FaceSlot)
        ensures
            s == self.slot_spec(),
    {
        match self {
            FaceDir::PosY => FaceSlot::Top,
            FaceDir::NegY => FaceSlot::Bottom,
            _ => FaceSlot::Side,
        }
    }

    pub fn normal(self) -> (n: Normal)
        ensures
            n == self.normal_spec(),
    {
        match self {
            FaceDir::PosY => (0, 1, 0),
            FaceDir::NegY => (0, -1, 0),
            FaceDir::PosX => (1, 0, 0),
            FaceDir::NegX => (-1, 0, 0),
            FaceDir::PosZ => (0, 0, 1),
            FaceDir::NegZ => (0, 0, -1),
        }
    }
}

/// The four corners of a face of the unit cube whose lowest corner is
/// `(x, y, z)`, in the order that gives the face's triangles their
/// winding.
pub open spec fn corners_spec(x: int, y: int, z: int, d: FaceDir) -> Seq<Vertex> {
    let (x0, y0, z0) = (x as u32, y as u32, z as u32);
    let (x1, y1, z1) = ((x + 1) as u32, (y + 1) as u32, (z + 1) as u32);
    match d {
        FaceDir::PosY => seq![(x0, y1, z1), (x1, y1, z1), (x1, y1, z0), (x0, y1, z0)],
        FaceDir::NegY => seq![(x0, y0, z0), (x1, y0, z0), (x1, y0, z1), (x0, y0, z1)],
        FaceDir::PosX => seq![(x1, y0, z1), (x1, y0, z0), (x1, y1, z0), (x1, y1, z1)],
        FaceDir::NegX => seq![(x0, y0, z0), (x0, y0, z1), (x0, y1, z1), (x0, y1, z0)],
        FaceDir::PosZ => seq![(x0, y0, z1), (x1, y0, z1), (x1, y1, z1), (x0, y1, z1)],
        FaceDir::NegZ => seq![(x1, y0, z0), (x0, y0, z0), (x0, y1, z0), (x1, y1, z0)],
    }
}

/// The corners of a face, in winding order.
pub fn face_corners(f: MeshFace) -> (v: [Vertex; 4])
    requires
        in_chunk(f.x as int, f.y as int, f.z as int),
    ensures
        v@ == corners_spec(f.x as int, f.y as int, f.z as int, f.dir),
{
    let (x0, y0, z0) = (f.x as u32, f.y as u32, f.z as u32);
    let (x1, y1, z1) = (x0 + 1, y0 + 1, z0 + 1);
    let v = match f.dir {
        FaceDir::PosY => [(x0, y1, z1), (x1, y1, z1), (x1, y1, z0), (x0, y1, z0)],
        FaceDir::NegY => [(x0, y0, z0), (x1, y0, z0), (x1, y0, z1), (x0, y0, z1)],
        FaceDir::PosX => [(x1, y0, z1), (x1, y0, z0), (x1, y1, z0), (x1, y1, z1)],
        FaceDir::NegX => [(x0, y0, z0), (x0, y0, z1), (x0, y1, z1), (x0, y1, z0)],
        FaceDir::PosZ => [(x0, y0, z1), (x1, y0, z1), (x1, y1, z1), (x0, y1, z1)],
        FaceDir::NegZ => [(x1, y0, z0), (x0, y0, z0), (x0, y1, z0), (x1, y1, z0)],
    };
    proof {
        assert(v@ =~= corners_spec(f.x as int, f.y as int, f.z as int, f.dir));
    }
    v
}

/// Vertex positions of a sequence of faces, four per face.
pub open spec fn positions_of(faces: Seq<MeshFace>) -> Seq<Vertex>
    decreases faces.len(),
{
    if faces.len() == 0 {
        Seq::empty()
    } else {
        let f = faces.last();
        positions_of(faces.drop_last()) + corners_spec(f.x as int, f.y as int, f.z as int, f.dir)
    }
}

/// Vertex normals of a sequence of faces, the face's normal four times.
pub open spec fn normals_of(faces: Seq<MeshFace>) -> Seq<Normal>
    decreases faces.len(),
{
    if faces.len() == 0 {
        Seq::empty()
    } else {
        let n = faces.last().dir.normal_spec();
        normals_of(faces.drop_last()) + seq![n, n, n, n]
    }
}

/// Triangle indices for `n` quads whose vertices come four by four:
/// quad `k` is cut into the triangles `(4k, 4k+1, 4k+2)` and
/// `(4k, 4k+2, 4k+3)`.
pub open spec fn quad_indices(n: nat) -> Seq<u32>
    decreases n,
{
    if n == 0 {
        Seq::empty()
    } else {
        let b = 4 * (n - 1);
        quad_indices((n - 1) as nat) + seq![
            b as u32,
            (b + 1) as u32,
            (b + 2) as u32,
            b as u32,
            (b + 2) as u32,
            (b + 3) as u32,
        ]
    }
}

/// The mesh data of a chunk, before texture coordinates are attached:
/// the visible faces and, per face, four vertices, four normals and six
/// triangle indices.
#[derive(Debug)]
pub struct ChunkMesh {
    pub faces: Vec<MeshFace>,
    pub positions: Vec<Vertex>,
    pub normals: Vec<Normal>,
    pub indices: Vec<u32>,
}

/// Builds the mesh of a chunk's visible faces.
pub fn build_mesh(c: &Chunk) -> (m: ChunkMesh)
    ensures
        m.faces@ == visible_faces_spec(c),
        m.positions@ == positions_of(m.faces@),
        m.normals@ == normals_of(m.faces@),
        m.indices@ == quad_indices(m.faces@.len()),
{
    let faces = visible_faces(c);
    proof {
        lemma_faces_upto_len(c, cell_count());
        lemma_faces_in_chunk(c, cell_count());
    }
    let mut positions: Vec<Vertex> = Vec::new();
    let mut normals: Vec<Normal> = Vec::new();
    let mut indices: Vec<u32> = Vec::new();
    let n = faces.len();
    let mut k: usize = 0;
    while k < n
        invariant
            n == faces@.len(),
            n <= 6 * 4096,
            k <= n,
            forall|j: int| 0 <= j < n ==> #[trigger] in_chunk(faces@[j].x as int, faces@[j].y as int, faces@[j].z as int),
            positions@ == positions_of(faces@.take(k as int)),
            normals@ == normals_of(faces@.take(k as int)),
            indices@ == quad_indices(k as nat),
        decreases n - k,
    {
        let f = faces[k];
        let corners = face_corners(f);
        positions.push(corners[0]);
        positions.push(corners[1]);
        positions.push(corners[2]);
        positions.push(corners[3]);
        let nrm = f.dir.normal();
        normals.push(nrm);
        normals.push(nrm);
        normals.push(nrm);
        normals.push(nrm);
        let b = (4 * k) as u32;
        indices.push(b);
        indices.push(b + 1);
        indices.push(b + 2);
        indices.push(b);
        indices.push(b + 2);
        indices.push(b + 3);
        proof {
            let t = faces@.take(k + 1);
            assert(t.drop_last() =~= faces@.take(k as int));
            assert(t.last() == f);
            assert(positions@ =~= positions_of(t));
            assert(normals@ =~= normals_of(t));
            assert(indices@ =~= quad_indices((k + 1) as nat));
        }
        k = k + 1;
    }
    proof {
        assert(faces@.take(n as int) =~= faces@);
    }
    ChunkMesh { faces, positions, normals, indices }
}

proof fn lemma_faces_in_chunk(c: &Chunk, n: int)
    requires
        0 <= n <= cell_count(),
    ensures
        forall|j: int|
            0 <= j < faces_upto(c, n).len() ==> #[trigger] in_chunk(
                faces_upto(c, n)[j].x as int,
                faces_upto(c, n)[j].y as int,
                faces_upto(c, n)[j].z as int,
            ),
{
    assert forall|j: int| 0 <= j < faces_upto(c, n).len() implies #[trigger] in_chunk(
        faces_upto(c, n)[j].x as int,
        faces_upto(c, n)[j].y as int,
        faces_upto(c, n)[j].z as int,
    ) by {
        let f = faces_upto(c, n)[j];
        assert(faces_upto(c, n).contains(f));
        lemma_faces_upto_contains(c, n, f);
    }
}

} // verus!

verus! {

proof fn lemma_add_contains<A>(a: Seq<A>, b: Seq<A>, x: A)
    ensures
        (a + b).contains(x) <==> (a.contains(x) || b.contains(x)),
{
    if (a + b).contains(x) {
        let i = choose|i: int| 0 <= i < (a + b).len() && (a + b)[i] == x;
        if i < a.len() {
            assert(a[i] == x);
        } else {
            assert(b[i - a.len()] == x);
        }
    }
    if a.contains(x) {
        let i = choose|i: int| 0 <= i < a.len() && a[i] == x;
        assert((a + b)[i] == x);
    }
    if b.contains(x) {
        let i = choose|i: int| 0 <= i < b.len() && b[i] == x;
        assert((a + b)[a.len() + i] == x);
    }
}

/// `f` is a face that the block at `(x, y, z)` shows.
pub open spec fn shown_face_of(c: &Chunk, x: int, y: int, z: int, f: MeshFace) -> bool {
    &&& f.x == x && f.y == y && f.z == z
    &&& face_visible(c, x, y, z, f.dir)
    &&& f.block == c.block(x, y, z)
}

proof fn lemma_face_if_open_contains(c: &Chunk, x: int, y: int, z: int, d: FaceDir, f: MeshFace)
    requires
        in_chunk(x, y, z),
        c.block(x, y, z) != AIR,
    ensures
        face_if_open(c, x, y, z, d).contains(f) <==> (shown_face_of(c, x, y, z, f) && f.dir == d),
{
    if face_open(c, x, y, z, d) {
        assert(face_if_open(c, x, y, z, d)[0] == MeshFace {
            x: x as usize,
            y: y as usize,
            z: z as usize,
            dir: d,
            block: c.block(x, y, z),
        });
    }
}

proof fn lemma_cell_faces_contains(c: &Chunk, x: int, y: int, z: int, f: MeshFace)
    requires
        in_chunk(x, y, z),
    ensures
        cell_faces(c, x, y, z).contains(f) <==> shown_face_of(c, x, y, z, f),
{
    if c.block(x, y, z) != AIR {
        let s1 = face_if_open(c, x, y, z, FaceDir::PosY);
        let s2 = face_if_open(c, x, y, z, FaceDir::NegY);
        let s3 = face_if_open(c, x, y, z, FaceDir::PosX);
        let s4 = face_if_open(c, x, y, z, FaceDir::NegX);
        let s5 = face_if_open(c, x, y, z, FaceDir::PosZ);
        let s6 = face_if_open(c, x, y, z, FaceDir::NegZ);
        lemma_face_if_open_contains(c, x, y, z, FaceDir::PosY, f);
        lemma_face_if_open_contains(c, x, y, z, FaceDir::NegY, f);
        lemma_face_if_open_contains(c, x, y, z, FaceDir::PosX, f);
        lemma_face_if_open_contains(c, x, y, z, FaceDir::NegX, f);
        lemma_face_if_open_contains(c, x, y, z, FaceDir::PosZ, f);
        lemma_face_if_open_contains(c, x, y, z, FaceDir::NegZ, f);
        lemma_add_contains(s1, s2, f);
        lemma_add_contains(s1 + s2, s3, f);
        lemma_add_contains(s1 + s2 + s3, s4, f);
        lemma_add_contains(s1 + s2 + s3 + s4, s5, f);
        lemma_add_contains(s1 + s2 + s3 + s4 + s5, s6, f);
    }
}

proof fn lemma_cell_index(i: int)
    requires
        0 <= i < 4096,
    ensures
        0 <= cell_x(i) < 16,
        0 <= cell_y(i) < 16,
        0 <= cell_z(i) < 16,
        i == cell_x(i) * 256 + cell_y(i) * 16 + cell_z(i),
{
    assert(0 <= cell_x(i) < 16 && 0 <= cell_y(i) < 16 && 0 <= cell_z(i) < 16 && i == cell_x(i)
        * 256 + cell_y(i) * 16 + cell_z(i)) by (nonlinear_arith)
        requires
            0 <= i < 4096,
    ;
}

proof fn lemma_faces_upto_contains(c: &Chunk, n: int, f: MeshFace)
    requires
        0 <= n <= cell_count(),
    ensures
        faces_upto(c, n).contains(f) <==> (f.x * 256 + f.y * 16 + f.z < n && in_chunk(
            f.x as int,
            f.y as int,
            f.z as int,
        ) && shown_face_of(c, f.x as int, f.y as int, f.z as int, f)),
    decreases n,
{
    if n > 0 {
        let i = n - 1;
        lemma_cell_index(i);
        lemma_faces_upto_contains(c, n - 1, f);
        lemma_cell_faces_contains(c, cell_x(i), cell_y(i), cell_z(i), f);
        lemma_add_contains(faces_upto(c, n - 1), cell_faces(c, cell_x(i), cell_y(i), cell_z(i)), f);
        if in_chunk(f.x as int, f.y as int, f.z as int) && f.x * 256 + f.y * 16 + f.z == i {
            assert(f.x == cell_x(i) && f.y == cell_y(i) && f.z == cell_z(i)) by (nonlinear_arith)
                requires
                    0 <= f.x < 16,
                    0 <= f.y < 16,
                    0 <= f.z < 16,
                    f.x * 256 + f.y * 16 + f.z == i,
                    i == cell_x(i) * 256 + cell_y(i) * 16 + cell_z(i),
                    0 <= cell_x(i) < 16,
                    0 <= cell_y(i) < 16,
                    0 <= cell_z(i) < 16,
            ;
        }
    }
}

/// The mesh holds exactly the visible faces: a face of a block inside the
/// chunk is emitted, carrying the block's id, if and only if the block is
/// not air and the face is on the chunk's boundary or borders air.
pub proof fn lemma_emitted_iff_visible(c: &Chunk, f: MeshFace)
    ensures
        visible_faces_spec(c).contains(f) <==> (in_chunk(f.x as int, f.y as int, f.z as int)
            && face_visible(c, f.x as int, f.y as int, f.z as int, f.dir) && f.block == c.block(
            f.x as int,
            f.y as int,
            f.z as int,
        )),
{
    lemma_faces_upto_contains(c, cell_count(), f);
    if in_chunk(f.x as int, f.y as int, f.z as int) {
        assert(f.x * 256 + f.y * 16 + f.z < 4096) by (nonlinear_arith)
            requires
                0 <= f.x < 16,
                0 <= f.y < 16,
                0 <= f.z < 16,
        ;
    }
}

/// A chunk of air has no faces.
pub proof fn lemma_air_chunk_has_no_faces(c: &Chunk)
    requires
        forall|x: int, y: int, z: int| in_chunk(x, y, z) ==> #[trigger] c.block(x, y, z) == AIR,
    ensures
        visible_faces_spec(c).len() == 0,
{
    if visible_faces_spec(c).len() > 0 {
        let f = visible_faces_spec(c)[0];
        assert(visible_faces_spec(c).contains(f));
        lemma_emitted_iff_visible(c, f);
        assert(c.block(f.x as int, f.y as int, f.z as int) == AIR);
    }
}

/// Four vertices and four normals per face, six indices per face, and
/// every index names one of the mesh's vertices.
pub proof fn lemma_mesh_sizes(faces: Seq<MeshFace>)
    ensures
        positions_of(faces).len() == 4 * faces.len(),
        normals_of(faces).len() == 4 * faces.len(),
        quad_indices(faces.len()).len() == 6 * faces.len(),
        forall|k: int|
            0 <= k < quad_indices(faces.len()).len() ==> #[trigger] quad_indices(faces.len())[k] < 4
                * faces.len(),
    decreases faces.len(),
{
    if faces.len() > 0 {
        lemma_mesh_sizes(faces.drop_last());
    }
}

} // verus!

verus! {

/// Position of a direction in emission order.
pub open spec fn dir_index(d: FaceDir) -> int {
    match d {
        FaceDir::PosY => 0,
        FaceDir::NegY => 1,
        FaceDir::PosX => 2,
        FaceDir::NegX => 3,
        FaceDir::PosZ => 4,
        FaceDir::NegZ => 5,
    }
}

/// How many of a block's six sides are exposed: the block is not air and
/// the side lies on the chunk's boundary or borders air.
pub open spec fn exposed_sides_of(c: &Chunk, x: int, y: int, z: int) -> int {
    (if face_visible(c, x, y, z, FaceDir::PosY) { 1int } else { 0int }) + (if face_visible(
        c,
        x,
        y,
        z,
        FaceDir::NegY,
    ) { 1int } else { 0int }) + (if face_visible(c, x, y, z, FaceDir::PosX) { 1int } else { 0int })
        + (if face_visible(c, x, y, z, FaceDir::NegX) { 1int } else { 0int }) + (if face_visible(
        c,
        x,
        y,
        z,
        FaceDir::PosZ,
    ) { 1int } else { 0int }) + (if face_visible(c, x, y, z, FaceDir::NegZ) { 1int } else { 0int })
}

/// Exposed sides of the first `n` blocks in visiting order.
pub open spec fn exposed_sides_upto(c: &Chunk, n: int) -> int
    decreases n,
{
    if n <= 0 {
        0
    } else {
        exposed_sides_upto(c, n - 1) + exposed_sides_of(c, cell_x(n - 1), cell_y(n - 1), cell_z(n - 1))
    }
}

/// The number of (block, direction) pairs whose block is not air and
/// whose side is on the chunk's boundary or borders air.
pub open spec fn exposed_sides(c: &Chunk) -> int {
    exposed_sides_upto(c, cell_count())
}

/// A face's rank in emission order: its block's visiting index, then its
/// direction.
pub open spec fn face_key(f: MeshFace) -> int {
    (f.x * 256 + f.y * 16 + f.z) * 6 + dir_index(f.dir)
}

pub open spec fn keys_increasing(s: Seq<MeshFace>) -> bool {
    forall|i: int, j: int| 0 <= i < j < s.len() ==> face_key(#[trigger] s[i]) < face_key(#[trigger] s[j])
}

pub open spec fn keys_within(s: Seq<MeshFace>, lo: int, hi: int) -> bool {
    forall|i: int| 0 <= i < s.len() ==> lo <= #[trigger] face_key(s[i]) < hi
}

proof fn lemma_concat_keys(a: Seq<MeshFace>, b: Seq<MeshFace>, lo: int, mid: int, hi: int)
    requires
        keys_increasing(a),
        keys_increasing(b),
        keys_within(a, lo, mid),
        keys_within(b, mid, hi),
        lo <= mid <= hi,
    ensures
        keys_increasing(a + b),
        keys_within(a + b, lo, hi),
{
    let s = a + b;
    assert forall|i: int, j: int| 0 <= i < j < s.len() implies face_key(#[trigger] s[i]) < face_key(
        #[trigger] s[j],
    ) by {
        if j < a.len() {
            assert(s[i] == a[i] && s[j] == a[j]);
        } else if i >= a.len() {
            assert(s[i] == b[i - a.len()] && s[j] == b[j - a.len()]);
        } else {
            assert(s[i] == a[i] && s[j] == b[j - a.len()]);
            assert(face_key(a[i]) < mid);
            assert(mid <= face_key(b[j - a.len()]));
        }
    }
    assert forall|i: int| 0 <= i < s.len() implies lo <= #[trigger] face_key(s[i]) < hi by {
        if i < a.len() {
            assert(s[i] == a[i]);
        } else {
            assert(s[i] == b[i - a.len()]);
        }
    }
}

proof fn lemma_face_if_open_keys(c: &Chunk, i: int, d: FaceDir)
    requires
        0 <= i < 4096,
    ensures
        ({
            let s = face_if_open(c, cell_x(i), cell_y(i), cell_z(i), d);
            &&& keys_increasing(s)
            &&& keys_within(s, 6 * i + dir_index(d), 6 * i + dir_index(d) + 1)
            &&& s.len() == (if face_open(c, cell_x(i), cell_y(i), cell_z(i), d) { 1int } else { 0int })
        }),
{
    lemma_cell_index(i);
    let s = face_if_open(c, cell_x(i), cell_y(i), cell_z(i), d);
    if s.len() > 0 {
        assert(face_key(s[0]) == 6 * i + dir_index(d));
    }
}

proof fn lemma_cell_faces_keys(c: &Chunk, i: int)
    requires
        0 <= i < 4096,
    ensures
        ({
            let s = cell_faces(c, cell_x(i), cell_y(i), cell_z(i));
            &&& keys_increasing(s)
            &&& keys_within(s, 6 * i, 6 * i + 6)
            &&& s.len() == exposed_sides_of(c, cell_x(i), cell_y(i), cell_z(i))
        }),
{
    let (x, y, z) = (cell_x(i), cell_y(i), cell_z(i));
    if c.block(x, y, z) != AIR {
        let s1 = face_if_open(c, x, y, z, FaceDir::PosY);
        let s2 = face_if_open(c, x, y, z, FaceDir::NegY);
        let s3 = face_if_open(c, x, y, z, FaceDir::PosX);
        let s4 = face_if_open(c, x, y, z, FaceDir::NegX);
        let s5 = face_if_open(c, x, y, z, FaceDir::PosZ);
        let s6 = face_if_open(c, x, y, z, FaceDir::NegZ);
        lemma_face_if_open_keys(c, i, FaceDir::PosY);
        lemma_face_if_open_keys(c, i, FaceDir::NegY);
        lemma_face_if_open_keys(c, i, FaceDir::PosX);
        lemma_face_if_open_keys(c, i, FaceDir::NegX);
        lemma_face_if_open_keys(c, i, FaceDir::PosZ);
        lemma_face_if_open_keys(c, i, FaceDir::NegZ);
        let b = 6 * i;
        lemma_concat_keys(s1, s2, b, b + 1, b + 2);
        lemma_concat_keys(s1 + s2, s3, b, b + 2, b + 3);
        lemma_concat_keys(s1 + s2 + s3, s4, b, b + 3, b + 4);
        lemma_concat_keys(s1 + s2 + s3 + s4, s5, b, b + 4, b + 5);
        lemma_concat_keys(s1 + s2 + s3 + s4 + s5, s6, b, b + 5, b + 6);
    }
}

proof fn lemma_faces_upto_keys(c: &Chunk, n: int)
    requires
        0 <= n <= cell_count(),
    ensures
        keys_increasing(faces_upto(c, n)),
        keys_within(faces_upto(c, n), 0, 6 * n),
        faces_upto(c, n).len() == exposed_sides_upto(c, n),
    decreases n,
{
    if n > 0 {
        lemma_faces_upto_keys(c, n - 1);
        lemma_cell_faces_keys(c, n - 1);
        lemma_concat_keys(
            faces_upto(c, n - 1),
            cell_faces(c, cell_x(n - 1), cell_y(n - 1), cell_z(n - 1)),
            0,
            6 * (n - 1),
            6 * n,
        );
    }
}

/// The mesh lists each visible face once, and as many faces as there are
/// exposed block sides: (block, direction) pairs whose block is not air
/// and whose side lies on the chunk's boundary or borders air. Faces come
/// in strictly increasing (block, direction) order.
pub proof fn lemma_face_count(c: &Chunk)
    ensures
        visible_faces_spec(c).no_duplicates(),
        keys_increasing(visible_faces_spec(c)),
        visible_faces_spec(c).len() == exposed_sides(c),
{
    lemma_faces_upto_keys(c, cell_count());
    let s = visible_faces_spec(c);
    assert forall|i: int, j: int| 0 <= i < s.len() && 0 <= j < s.len() && i != j implies s[i] != s[j] by {
        if i < j {
            assert(face_key(s[i]) < face_key(s[j]));
        } else {
            assert(face_key(s[j]) < face_key(s[i]));
        }
    }
}

} // verus!

verus! {

/// An integer vector.
pub type IVec = (int, int, int);

/// `p - q`.
pub open spec fn vsub(p: Vertex, q: Vertex) -> IVec {
    (p.0 as int - q.0 as int, p.1 as int - q.1 as int, p.2 as int - q.2 as int)
}

/// The cross product `a × b`.
pub open spec fn cross(a: IVec, b: IVec) -> IVec {
    (a.1 * b.2 - a.2 * b.1, a.2 * b.0 - a.0 * b.2, a.0 * b.1 - a.1 * b.0)
}

/// A direction's outward unit normal as an integer vector.
pub open spec fn normal_vec(d: FaceDir) -> IVec {
    let n = d.normal_spec();
    (n.0 as int, n.1 as int, n.2 as int)
}

/// Whether `p` is a corner of the side, facing `d`, of the unit cube
/// whose lowest corner is `(x, y, z)`.
pub open spec fn corner_of_side(x: int, y: int, z: int, d: FaceDir, p: Vertex) -> bool {
    let (px, py, pz) = (p.0 as int, p.1 as int, p.2 as int);
    let inx = px == x || px == x + 1;
    let iny = py == y || py == y + 1;
    let inz = pz == z || pz == z + 1;
    match d {
        FaceDir::PosY => py == y + 1 && inx && inz,
        FaceDir::NegY => py == y && inx && inz,
        FaceDir::PosX => px == x + 1 && iny && inz,
        FaceDir::NegX => px == x && iny && inz,
        FaceDir::PosZ => pz == z + 1 && inx && iny,
        FaceDir::NegZ => pz == z && inx && iny,
    }
}

/// A face's corners are the four corners of its side of the block, and
/// both triangles cut from them, `(p0, p1, p2)` and `(p0, p2, p3)`, wind
/// counter-clockwise seen from outside: each cross product is the outward
/// unit normal (the two triangles each cover half the unit square).
pub proof fn lemma_face_winding(x: int, y: int, z: int, d: FaceDir)
    requires
        in_chunk(x, y, z),
    ensures
        ({
            let p = corners_spec(x, y, z, d);
            &&& p.len() == 4
            &&& p.no_duplicates()
            &&& forall|i: int| 0 <= i < 4 ==> corner_of_side(x, y, z, d, #[trigger] p[i])
            &&& cross(vsub(p[1], p[0]), vsub(p[2], p[0])) == normal_vec(d)
            &&& cross(vsub(p[2], p[0]), vsub(p[3], p[0])) == normal_vec(d)
        }),
{
    let p = corners_spec(x, y, z, d);
    match d {
        FaceDir::PosY => {
            let (v1, v2, v3) = (vsub(p[1], p[0]), vsub(p[2], p[0]), vsub(p[3], p[0]));
            assert(v1 == (1int, 0int, 0int));
            assert(v2 == (1int, 0int, -1int));
            assert(v3 == (0int, 0int, -1int));
            assert(normal_vec(d) == (0int, 1int, 0int));
            assert(cross(v1, v2) == (0int, 1int, 0int)) by (nonlinear_arith)
                requires
                    v1 == (1int, 0int, 0int),
                    v2 == (1int, 0int, -1int),
            ;
            assert(cross(v2, v3) == (0int, 1int, 0int)) by (nonlinear_arith)
                requires
                    v2 == (1int, 0int, -1int),
                    v3 == (0int, 0int, -1int),
            ;
        },
        FaceDir::NegY => {
            let (v1, v2, v3) = (vsub(p[1], p[0]), vsub(p[2], p[0]), vsub(p[3], p[0]));
            assert(v1 == (1int, 0int, 0int));
            assert(v2 == (1int, 0int, 1int));
            assert(v3 == (0int, 0int, 1int));
            assert(normal_vec(d) == (0int, -1int, 0int));
            assert(cross(v1, v2) == (0int, -1int, 0int)) by (nonlinear_arith)
                requires
                    v1 == (1int, 0int, 0int),
                    v2 == (1int, 0int, 1int),
            ;
            assert(cross(v2, v3) == (0int, -1int, 0int)) by (nonlinear_arith)
                requires
                    v2 == (1int, 0int, 1int),
                    v3 == (0int, 0int, 1int),
            ;
        },
        FaceDir::PosX => {
            let (v1, v2, v3) = (vsub(p[1], p[0]), vsub(p[2], p[0]), vsub(p[3], p[0]));
            assert(v1 == (0int, 0int, -1int));
            assert(v2 == (0int, 1int, -1int));
            assert(v3 == (0int, 1int, 0int));
            assert(normal_vec(d) == (1int, 0int, 0int));
            assert(cross(v1, v2) == (1int, 0int, 0int)) by (nonlinear_arith)
                requires
                    v1 == (0int, 0int, -1int),
                    v2 == (0int, 1int, -1int),
            ;
            assert(cross(v2, v3) == (1int, 0int, 0int)) by (nonlinear_arith)
                requires
                    v2 == (0int, 1int, -1int),
                    v3 == (0int, 1int, 0int),
            ;
        },
        FaceDir::NegX => {
            let (v1, v2, v3) = (vsub(p[1], p[0]), vsub(p[2], p[0]), vsub(p[3], p[0]));
            assert(v1 == (0int, 0int, 1int));
            assert(v2 == (0int, 1int, 1int));
            assert(v3 == (0int, 1int, 0int));
            assert(normal_vec(d) == (-1int, 0int, 0int));
            assert(cross(v1, v2) == (-1int, 0int, 0int)) by (nonlinear_arith)
                requires
                    v1 == (0int, 0int, 1int),
                    v2 == (0int, 1int, 1int),
            ;
            assert(cross(v2, v3) == (-1int, 0int, 0int)) by (nonlinear_arith)
                requires
                    v2 == (0int, 1int, 1int),
                    v3 == (0int, 1int, 0int),
            ;
        },
        FaceDir::PosZ => {
            let (v1, v2, v3) = (vsub(p[1], p[0]), vsub(p[2], p[0]), vsub(p[3], p[0]));
            assert(v1 == (1int, 0int, 0int));
            assert(v2 == (1int, 1int, 0int));
            assert(v3 == (0int, 1int, 0int));
            assert(normal_vec(d) == (0int, 0int, 1int));
            assert(cross(v1, v2) == (0int, 0int, 1int)) by (nonlinear_arith)
                requires
                    v1 == (1int, 0int, 0int),
                    v2 == (1int, 1int, 0int),
            ;
            assert(cross(v2, v3) == (0int, 0int, 1int)) by (nonlinear_arith)
                requires
                    v2 == (1int, 1int, 0int),
                    v3 == (0int, 1int, 0int),
            ;
        },
        FaceDir::NegZ => {
            let (v1, v2, v3) = (vsub(p[1], p[0]), vsub(p[2], p[0]), vsub(p[3], p[0]));
            assert(v1 == (-1int, 0int, 0int));
            assert(v2 == (-1int, 1int, 0int));
            assert(v3 == (0int, 1int, 0int));
            assert(normal_vec(d) == (0int, 0int, -1int));
            assert(cross(v1, v2) == (0int, 0int, -1int)) by (nonlinear_arith)
                requires
                    v1 == (-1int, 0int, 0int),
                    v2 == (-1int, 1int, 0int),
            ;
            assert(cross(v2, v3) == (0int, 0int, -1int)) by (nonlinear_arith)
                requires
                    v2 == (-1int, 1int, 0int),
                    v3 == (0int, 1int, 0int),
            ;
        },
    }
    assert(p.len() == 4);
    assert(p[0] != p[1] && p[0] != p[2] && p[0] != p[3] && p[1] != p[2] && p[1] != p[3] && p[2]
        != p[3]);
    assert forall|i: int, j: int| 0 <= i < p.len() && 0 <= j < p.len() && i != j implies p[i] != p[j] by {
    }
    assert(cross(vsub(p[1], p[0]), vsub(p[2], p[0])) == normal_vec(d));
    assert(cross(vsub(p[2], p[0]), vsub(p[3], p[0])) == normal_vec(d));
    assert(corner_of_side(x, y, z, d, p[0]));
    assert(corner_of_side(x, y, z, d, p[3]));
}

proof fn lemma_positions_at(faces: Seq<MeshFace>, k: int)
    requires
        0 <= k < faces.len(),
    ensures
        positions_of(faces).len() == 4 * faces.len(),
        forall|j: int|
            0 <= j < 4 ==> #[trigger] positions_of(faces)[4 * k + j] == corners_spec(
                faces[k].x as int,
                faces[k].y as int,
                faces[k].z as int,
                faces[k].dir,
            )[j],
    decreases faces.len(),
{
    lemma_mesh_sizes(faces);
    let t = faces.drop_last();
    lemma_mesh_sizes(t);
    if k < faces.len() - 1 {
        lemma_positions_at(t, k);
        assert forall|j: int| 0 <= j < 4 implies #[trigger] positions_of(faces)[4 * k + j] == corners_spec(
            faces[k].x as int,
            faces[k].y as int,
            faces[k].z as int,
            faces[k].dir,
        )[j] by {
            assert(positions_of(faces)[4 * k + j] == positions_of(t)[4 * k + j]);
            assert(t[k] == faces[k]);
        }
    }
}

proof fn lemma_normals_at(faces: Seq<MeshFace>, k: int)
    requires
        0 <= k < faces.len(),
    ensures
        normals_of(faces).len() == 4 * faces.len(),
        forall|j: int| 0 <= j < 4 ==> #[trigger] normals_of(faces)[4 * k + j] == faces[k].dir.normal_spec(),
    decreases faces.len(),
{
    lemma_mesh_sizes(faces);
    let t = faces.drop_last();
    lemma_mesh_sizes(t);
    if k < faces.len() - 1 {
        lemma_normals_at(t, k);
        assert forall|j: int| 0 <= j < 4 implies #[trigger] normals_of(faces)[4 * k + j]
            == faces[k].dir.normal_spec() by {
            assert(normals_of(faces)[4 * k + j] == normals_of(t)[4 * k + j]);
            assert(t[k] == faces[k]);
        }
    }
}

proof fn lemma_quad_indices_at(n: nat, k: int)
    requires
        0 <= k < n,
        4 * n <= u32::MAX,
    ensures
        quad_indices(n).len() == 6 * n,
        quad_indices(n)[6 * k] == 4 * k,
        quad_indices(n)[6 * k + 1] == 4 * k + 1,
        quad_indices(n)[6 * k + 2] == 4 * k + 2,
        quad_indices(n)[6 * k + 3] == 4 * k,
        quad_indices(n)[6 * k + 4] == 4 * k + 2,
        quad_indices(n)[6 * k + 5] == 4 * k + 3,
    decreases n,
{
    let m = (n - 1) as nat;
    if m > 0 {
        lemma_quad_indices_at_len(m);
    }
    if k < n - 1 {
        lemma_quad_indices_at(m, k);
    }
    lemma_quad_indices_at_len(n);
}

proof fn lemma_quad_indices_at_len(n: nat)
    ensures
        quad_indices(n).len() == 6 * n,
    decreases n,
{
    if n > 0 {
        lemma_quad_indices_at_len((n - 1) as nat);
    }
}

} // verus!

verus! {

/// Every quad of a chunk's mesh sits on its block's side and faces out:
/// the `k`-th face's four positions are the corners of that side, its
/// four normals are the side's outward normal, and both of its triangles
/// (indices `6k..6k+3` and `6k+3..6k+6`) wind counter-clockwise seen from
/// outside, their cross products being the outward unit normal.
pub proof fn lemma_mesh_winding(c: &Chunk, k: int)
    requires
        0 <= k < visible_faces_spec(c).len(),
    ensures
        ({
            let faces = visible_faces_spec(c);
            let pos = positions_of(faces);
            let nor = normals_of(faces);
            let idx = quad_indices(faces.len());
            let f = faces[k];
            &&& forall|j: int|
                0 <= j < 4 ==> #[trigger] nor[4 * k + j] == f.dir.normal_spec() && corner_of_side(
                    f.x as int,
                    f.y as int,
                    f.z as int,
                    f.dir,
                    pos[4 * k + j],
                )
            &&& cross(
                vsub(pos[idx[6 * k + 1] as int], pos[idx[6 * k] as int]),
                vsub(pos[idx[6 * k + 2] as int], pos[idx[6 * k] as int]),
            ) == normal_vec(f.dir)
            &&& cross(
                vsub(pos[idx[6 * k + 4] as int], pos[idx[6 * k + 3] as int]),
                vsub(pos[idx[6 * k + 5] as int], pos[idx[6 * k + 3] as int]),
            ) == normal_vec(f.dir)
        }),
{
    let faces = visible_faces_spec(c);
    let f = faces[k];
    lemma_faces_upto_len(c, cell_count());
    lemma_faces_in_chunk(c, cell_count());
    assert(in_chunk(faces[k].x as int, faces[k].y as int, faces[k].z as int));
    lemma_positions_at(faces, k);
    lemma_normals_at(faces, k);
    lemma_quad_indices_at(faces.len(), k);
    lemma_face_winding(f.x as int, f.y as int, f.z as int, f.dir);
    let p = corners_spec(f.x as int, f.y as int, f.z as int, f.dir);
    let pos = positions_of(faces);
    assert(pos[4 * k + 0] == p[0]);
    assert(pos[4 * k + 1] == p[1]);
    assert(pos[4 * k + 2] == p[2]);
    assert(pos[4 * k + 3] == p[3]);
    assert forall|j: int| 0 <= j < 4 implies corner_of_side(
        f.x as int,
        f.y as int,
        f.z as int,
        f.dir,
        #[trigger] pos[4 * k + j],
    ) by {
        assert(pos[4 * k + j] == p[j]);
    }
}

} // verus!

verus! {

/// The axis a direction runs along (0 for x, 1 for y, 2 for z) and its
/// sign along that axis.
pub open spec fn axis_and_sign(d: FaceDir) -> (int, int) {
    match d {
        FaceDir::PosX => (0, 1),
        FaceDir::NegX => (0, -1),
        FaceDir::PosY => (1, 1),
        FaceDir::NegY => (1, -1),
        FaceDir::PosZ => (2, 1),
        FaceDir::NegZ => (2, -1),
    }
}

/// Component `i` of an integer vector.
pub open spec fn comp(v: IVec, i: int) -> int {
    if i == 0 {
        v.0
    } else if i == 1 {
        v.1
    } else {
        v.2
    }
}

/// Only the up face shows the top texture and only the down face the
/// bottom texture; the four horizontal faces show the side texture.
pub proof fn lemma_slot_by_direction(d: FaceDir)
    ensures
        (d.slot_spec() == FaceSlot::Top) <==> (d == FaceDir::PosY),
        (d.slot_spec() == FaceSlot::Bottom) <==> (d == FaceDir::NegY),
        (d.slot_spec() == FaceSlot::Side) <==> (axis_and_sign(d).0 != 1),
{
}

/// Every face points out of its block along its own direction: the
/// normal is the unit vector of the direction's axis with the
/// direction's sign, and every corner of the face lies half a block
/// from the block's centre in the normal's direction
/// (`n · (2p - (2x+1, 2y+1, 2z+1)) = 1`).
pub proof fn lemma_faces_point_outward(x: int, y: int, z: int, d: FaceDir, j: int)
    requires
        in_chunk(x, y, z),
        0 <= j < 4,
    ensures
        ({
            let (axis, sign) = axis_and_sign(d);
            let n = normal_vec(d);
            let p = corners_spec(x, y, z, d)[j];
            let q = (2 * (p.0 as int) - (2 * x + 1), 2 * (p.1 as int) - (2 * y + 1), 2 * (p.2 as int)
                - (2 * z + 1));
            &&& comp(n, axis) == sign
            &&& forall|i: int| 0 <= i < 3 && i != axis ==> comp(n, i) == 0
            &&& n.0 * q.0 + n.1 * q.1 + n.2 * q.2 == 1
            &&& comp(q, axis) == sign
        }),
{
    lemma_face_winding(x, y, z, d);
    let p = corners_spec(x, y, z, d)[j];
    assert(corner_of_side(x, y, z, d, p));
}

} // verus!
