use superdupervoxels::chunk::Chunk;
use superdupervoxels::mesh::{build_mesh, face_corners, visible_faces, FaceDir, MeshFace};
use superdupervoxels::blocks::FaceSlot;

#[test]
fn lone_block_shows_six_faces() {
    let mut c = Chunk::empty();
    c.set_block(5, 6, 7, 3);
    let m = build_mesh(&c);
    let dirs: Vec<FaceDir> = m.faces.iter().map(|f| f.dir).collect();
    assert_eq!(
        dirs,
        vec![FaceDir::PosY, FaceDir::NegY, FaceDir::PosX, FaceDir::NegX, FaceDir::PosZ, FaceDir::NegZ]
    );
    assert!(m.faces.iter().all(|f| f.x == 5 && f.y == 6 && f.z == 7 && f.block == 3));
    assert_eq!(m.positions.len(), 24);
    assert_eq!(m.normals.len(), 24);
    assert_eq!(&m.positions[0..4], &[(5, 7, 8), (6, 7, 8), (6, 7, 7), (5, 7, 7)]);
    assert_eq!(&m.normals[4..8], &[(0, -1, 0); 4]);
    assert_eq!(&m.indices[0..12], &[0, 1, 2, 0, 2, 3, 4, 5, 6, 4, 6, 7]);
    assert_eq!(m.indices.len(), 36);
}

#[test]
fn air_chunk_has_empty_mesh() {
    let m = build_mesh(&Chunk::empty());
    assert!(m.faces.is_empty() && m.positions.is_empty() && m.indices.is_empty());
}

#[test]
fn touching_blocks_hide_the_shared_faces() {
    let mut c = Chunk::empty();
    c.set_block(1, 1, 1, 1);
    c.set_block(2, 1, 1, 1);
    let faces = visible_faces(&c);
    assert_eq!(faces.len(), 10);
    assert!(!faces.iter().any(|f| f.x == 1 && f.dir == FaceDir::PosX));
    assert!(!faces.iter().any(|f| f.x == 2 && f.dir == FaceDir::NegX));
}

#[test]
fn boundary_faces_are_always_drawn() {
    let mut c = Chunk::empty();
    c.fill_ground(1, 2);
    let faces = visible_faces(&c);
    // 256 grass tops, 256 dirt bottoms on the chunk floor, 4 sides of 2 x 16.
    assert_eq!(faces.len(), 256 + 256 + 4 * 32);
    assert_eq!(faces[0], MeshFace { x: 0, y: 0, z: 0, dir: FaceDir::NegY, block: 1 });
}

#[test]
fn corners_normals_and_slots() {
    let f = MeshFace { x: 0, y: 0, z: 0, dir: FaceDir::NegZ, block: 1 };
    assert_eq!(face_corners(f), [(1, 0, 0), (0, 0, 0), (0, 1, 0), (1, 1, 0)]);
    assert_eq!(FaceDir::PosX.normal(), (1, 0, 0));
    assert_eq!(FaceDir::PosY.slot(), FaceSlot::Top);
    assert_eq!(FaceDir::NegY.slot(), FaceSlot::Bottom);
    assert_eq!(FaceDir::PosZ.slot(), FaceSlot::Side);
    let g = MeshFace { x: 15, y: 15, z: 15, dir: FaceDir::PosX, block: 1 };
    assert_eq!(face_corners(g), [(16, 15, 16), (16, 15, 15), (16, 16, 15), (16, 16, 16)]);
}

fn exposed_sides(c: &Chunk) -> usize {
    let solid = |x: i32, y: i32, z: i32| {
        (0..16).contains(&x) && (0..16).contains(&y) && (0..16).contains(&z)
            && c.get_block(x as usize, y as usize, z as usize) != 0
    };
    let mut n = 0;
    for x in 0..16 {
        for y in 0..16 {
            for z in 0..16 {
                if solid(x, y, z) {
                    for (dx, dy, dz) in [(0, 1, 0), (0, -1, 0), (1, 0, 0), (-1, 0, 0), (0, 0, 1), (0, 0, -1)] {
                        if !solid(x + dx, y + dy, z + dz) {
                            n += 1;
                        }
                    }
                }
            }
        }
    }
    n
}

#[test]
fn face_count_is_exposed_side_count() {
    let mut c = Chunk::empty();
    c.fill_ground(1, 2);
    c.set_block(4, 2, 4, 3);
    c.set_block(4, 3, 4, 3);
    c.set_block(15, 15, 15, 5);
    c.break_block(7, 1, 7);
    let faces = visible_faces(&c);
    assert_eq!(faces.len(), exposed_sides(&c));
    for i in 0..faces.len() {
        for j in 0..i {
            assert_ne!(faces[i], faces[j]);
        }
    }
}

#[test]
fn triangles_wind_outwards() {
    let mut c = Chunk::empty();
    c.set_block(3, 9, 12, 1);
    let m = build_mesh(&c);
    for t in m.indices.chunks(3) {
        let p: Vec<(i64, i64, i64)> = t
            .iter()
            .map(|&i| {
                let (x, y, z) = m.positions[i as usize];
                (x as i64, y as i64, z as i64)
            })
            .collect();
        let a = (p[1].0 - p[0].0, p[1].1 - p[0].1, p[1].2 - p[0].2);
        let b = (p[2].0 - p[0].0, p[2].1 - p[0].1, p[2].2 - p[0].2);
        let cr = (a.1 * b.2 - a.2 * b.1, a.2 * b.0 - a.0 * b.2, a.0 * b.1 - a.1 * b.0);
        let (nx, ny, nz) = m.normals[t[0] as usize];
        assert_eq!(cr, (nx as i64, ny as i64, nz as i64));
    }
}
