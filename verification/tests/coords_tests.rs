use superdupervoxels::coords::{chunk_of, local_of, region_of, Coord2, Coord3};

#[test]
fn negative_positions_split_downwards() {
    let p = Coord3::new(-1, 17, -16);
    assert_eq!(chunk_of(p), Coord3::new(-1, 1, -1));
    assert_eq!(local_of(p), (15, 1, 0));
}

#[test]
fn region_groups_thirty_two_chunks() {
    assert_eq!(region_of(Coord3::new(31, 5, -1)), Coord2::new(0, -1));
    assert_eq!(region_of(Coord3::new(32, 0, -33)), Coord2::new(1, -2));
}
