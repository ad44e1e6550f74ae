use superdupervoxels::chunk::{generate_chunk, Chunk, AIR};
use superdupervoxels::coords::Coord3;

#[test]
fn empty_chunk_is_air() {
    let c = Chunk::empty();
    for x in 0..16 {
        for y in 0..16 {
            for z in 0..16 {
                assert_eq!(c.get_block(x, y, z), AIR);
            }
        }
    }
}

#[test]
fn set_and_break_touch_one_block() {
    let mut c = Chunk::empty();
    c.set_block(3, 4, 5, 7);
    assert_eq!(c.get_block(3, 4, 5), 7);
    assert_eq!(c.get_block(3, 4, 6), 0);
    assert!(c.break_block(3, 4, 5));
    assert_eq!(c.get_block(3, 4, 5), 0);
    assert!(!c.break_block(3, 4, 5));
}

#[test]
fn ground_chunks_have_dirt_under_grass() {
    let c = generate_chunk(Coord3::new(5, 0, -3), 1, 2);
    for x in 0..16 {
        for z in 0..16 {
            assert_eq!(c.get_block(x, 0, z), 1);
            assert_eq!(c.get_block(x, 1, z), 2);
            assert_eq!(c.get_block(x, 2, z), 0);
            assert_eq!(c.get_block(x, 15, z), 0);
        }
    }
    let sky = generate_chunk(Coord3::new(0, 1, 0), 1, 2);
    assert_eq!(sky.get_block(0, 0, 0), 0);
    let below = generate_chunk(Coord3::new(0, -1, 0), 1, 2);
    assert_eq!(below.get_block(7, 1, 7), 0);
}

#[test]
fn fill_ground_keeps_upper_layers() {
    let mut c = Chunk::empty();
    c.set_block(0, 5, 0, 9);
    c.set_block(0, 0, 0, 9);
    c.fill_ground(1, 2);
    assert_eq!(c.get_block(0, 5, 0), 9);
    assert_eq!(c.get_block(0, 0, 0), 1);
}
