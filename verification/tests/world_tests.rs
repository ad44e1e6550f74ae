use std::collections::HashSet;
use superdupervoxels::coords::{Coord2, Coord3};
use superdupervoxels::world::{
    chunk_file_name, difference, expected_chunks, group_by_region, plan_chunk_update, region_file_name,
    view_in_range,
};

#[test]
fn view_box_around_player() {
    let c = Coord3::new(10, 0, -3);
    let v = expected_chunks(c, 4);
    assert_eq!(v.len(), 9 * 9 * 5);
    assert_eq!(v[0], Coord3::new(6, -2, -7));
    assert_eq!(v[1], Coord3::new(6, -2, -6));
    assert_eq!(v[9], Coord3::new(6, -1, -7));
    assert_eq!(v[45], Coord3::new(7, -2, -7));
    assert_eq!(*v.last().unwrap(), Coord3::new(14, 2, 1));
    let set: HashSet<(i32, i32, i32)> = v.iter().map(|p| (p.x, p.y, p.z)).collect();
    assert_eq!(set.len(), v.len());
}

#[test]
fn view_box_edge_distances() {
    let c = Coord3::new(0, 0, 0);
    assert_eq!(expected_chunks(c, 0), vec![
        Coord3::new(0, -2, 0),
        Coord3::new(0, -1, 0),
        Coord3::new(0, 0, 0),
        Coord3::new(0, 1, 0),
        Coord3::new(0, 2, 0),
    ]);
    assert!(expected_chunks(c, -1).is_empty());
}

#[test]
fn grouping_keeps_first_appearance_order() {
    let coords = vec![
        Coord3::new(0, 0, 0),
        Coord3::new(-1, 0, 0),
        Coord3::new(31, 3, 31),
        Coord3::new(-32, 0, 5),
        Coord3::new(0, 0, 32),
    ];
    let b = group_by_region(&coords);
    assert_eq!(b.len(), 3);
    assert_eq!(b[0].region, Coord2::new(0, 0));
    assert_eq!(b[0].chunks, vec![Coord3::new(0, 0, 0), Coord3::new(31, 3, 31)]);
    assert_eq!(b[1].region, Coord2::new(-1, 0));
    assert_eq!(b[1].chunks, vec![Coord3::new(-1, 0, 0), Coord3::new(-32, 0, 5)]);
    assert_eq!(b[2].region, Coord2::new(0, 1));
    assert!(group_by_region(&vec![]).is_empty());
}

#[test]
fn plan_moves_loaded_set_to_view() {
    let loaded = expected_chunks(Coord3::new(0, 0, 0), 1);
    let plan = plan_chunk_update(&loaded, Coord3::new(1, 0, 0), 1);
    let unload: Vec<Coord3> = plan.unload.iter().flat_map(|b| b.chunks.clone()).collect();
    let load: Vec<Coord3> = plan.load.iter().flat_map(|b| b.chunks.clone()).collect();
    assert_eq!(unload.len(), 15);
    assert!(unload.iter().all(|c| c.x == -1));
    assert_eq!(load.len(), 15);
    assert!(load.iter().all(|c| c.x == 2));
    let mut after: HashSet<(i32, i32, i32)> = loaded.iter().map(|p| (p.x, p.y, p.z)).collect();
    for c in &unload {
        after.remove(&(c.x, c.y, c.z));
    }
    for c in &load {
        after.insert((c.x, c.y, c.z));
    }
    let want: HashSet<(i32, i32, i32)> =
        expected_chunks(Coord3::new(1, 0, 0), 1).iter().map(|p| (p.x, p.y, p.z)).collect();
    assert_eq!(after, want);
}

#[test]
fn first_plan_loads_everything() {
    let plan = plan_chunk_update(&vec![], Coord3::new(0, 0, 0), 4);
    assert!(plan.unload.is_empty());
    let n: usize = plan.load.iter().map(|b| b.chunks.len()).sum();
    assert_eq!(n, 405);
    assert_eq!(plan.load.len(), 4);
}

#[test]
fn difference_keeps_order() {
    let a = vec![Coord3::new(1, 0, 0), Coord3::new(2, 0, 0), Coord3::new(3, 0, 0)];
    let b = vec![Coord3::new(2, 0, 0)];
    assert_eq!(difference(&a, &b), vec![Coord3::new(1, 0, 0), Coord3::new(3, 0, 0)]);
}

#[test]
fn region_files_are_named_by_region() {
    assert_eq!(region_file_name(Coord2::new(0, -1)), "regions/r.0.-1.redb");
    assert_eq!(region_file_name(Coord2::new(i32::MIN, i32::MAX)), "regions/r.-2147483648.2147483647.redb");
    assert_eq!(chunk_file_name(Coord3::new(-1, 7, 64)), "regions/r.-1.2.redb");
}

#[test]
fn neighbouring_regions_use_different_files() {
    let names: HashSet<String> = [
        Coord2::new(1, 11),
        Coord2::new(11, 1),
        Coord2::new(-1, 1),
        Coord2::new(1, -1),
        Coord2::new(-11, 1),
    ]
    .iter()
    .map(|r| region_file_name(*r))
    .collect();
    assert_eq!(names.len(), 5);
}

#[test]
fn plan_is_empty_once_settled() {
    let c = Coord3::new(-40, 3, 70);
    let loaded = expected_chunks(c, 2);
    let plan = plan_chunk_update(&loaded, c, 2);
    assert!(plan.unload.is_empty());
    assert!(plan.load.is_empty());
}

#[test]
fn view_range_guard() {
    assert!(view_in_range(Coord3::new(0, 0, 0), 4));
    assert!(view_in_range(Coord3::new(0, 0, 0), -3));
    assert!(!view_in_range(Coord3::new(0, 0, 0), i32::MIN));
    assert!(!view_in_range(Coord3::new(i32::MAX - 3, 0, 0), 4));
    assert!(view_in_range(Coord3::new(i32::MAX - 4, 0, 0), 4));
    assert!(!view_in_range(Coord3::new(0, i32::MIN + 1, 0), 0));
}
