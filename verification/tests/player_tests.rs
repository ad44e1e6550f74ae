use superdupervoxels::chunk::Chunk;
use superdupervoxels::coords::Coord3;
use superdupervoxels::player::{
    box_has_solid, find_break_target, find_chunk, is_solid_at, toggle_cursor_grab, CursorGrab,
};

fn ground() -> Chunk {
    let mut c = Chunk::empty();
    c.fill_ground(1, 2);
    c
}

#[test]
fn solidity_follows_the_chunk_that_covers_a_block() {
    let g = ground();
    let chunks = vec![(Coord3::new(0, 0, 0), &g), (Coord3::new(-1, 0, 0), &g)];
    assert!(is_solid_at(&chunks, Coord3::new(3, 1, 3)));
    assert!(!is_solid_at(&chunks, Coord3::new(3, 2, 3)));
    assert!(is_solid_at(&chunks, Coord3::new(-1, 0, 15)));
    assert!(!is_solid_at(&chunks, Coord3::new(16, 0, 0)));
    assert_eq!(find_chunk(&chunks, Coord3::new(-1, 0, 0)), Some(1));
    assert_eq!(find_chunk(&chunks, Coord3::new(0, 1, 0)), None);
}

#[test]
fn ray_breaks_the_nearest_solid_block() {
    let g = ground();
    let e = Chunk::empty();
    let chunks = vec![(Coord3::new(0, 1, 0), &e), (Coord3::new(0, 0, 0), &g)];
    let ray = vec![Coord3::new(4, 4, 4), Coord3::new(4, 2, 4), Coord3::new(4, 1, 4), Coord3::new(4, 0, 4)];
    let t = find_break_target(&chunks, &ray).unwrap();
    assert_eq!(t.point, 2);
    assert_eq!(t.chunk, 1);
    assert_eq!(t.local, (4, 1, 4));
    let miss = vec![Coord3::new(4, 20, 4), Coord3::new(100, 0, 0)];
    assert!(find_break_target(&chunks, &miss).is_none());
}

#[test]
fn box_overlap_with_ground() {
    let g = ground();
    let chunks = vec![(Coord3::new(0, 0, 0), &g)];
    assert!(box_has_solid(&chunks, Coord3::new(2, 1, 2), Coord3::new(3, 3, 3)));
    assert!(!box_has_solid(&chunks, Coord3::new(2, 2, 2), Coord3::new(3, 3, 3)));
    assert!(!box_has_solid(&chunks, Coord3::new(3, 0, 3), Coord3::new(2, 1, 2)));
}

#[test]
fn escape_toggles_mouse_capture() {
    assert_eq!(toggle_cursor_grab(CursorGrab::Free), (CursorGrab::Locked, false));
    assert_eq!(toggle_cursor_grab(CursorGrab::Locked), (CursorGrab::Free, true));
    assert_eq!(toggle_cursor_grab(CursorGrab::Confined), (CursorGrab::Free, true));
}

#[test]
fn breaking_clears_exactly_the_target() {
    let g = ground();
    let chunks = vec![(Coord3::new(0, 0, 0), &g)];
    let ray = vec![Coord3::new(2, 3, 2), Coord3::new(2, 1, 2), Coord3::new(2, 0, 2)];
    let t = find_break_target(&chunks, &ray).unwrap();
    let mut broken = Chunk::empty();
    broken.fill_ground(1, 2);
    assert!(broken.break_block(t.local.0, t.local.1, t.local.2));
    let after = vec![(Coord3::new(0, 0, 0), &broken)];
    assert!(!is_solid_at(&after, Coord3::new(2, 1, 2)));
    assert!(is_solid_at(&after, Coord3::new(2, 0, 2)));
    assert!(is_solid_at(&after, Coord3::new(3, 1, 2)));
    let next = find_break_target(&after, &ray).unwrap();
    assert_eq!(next.local, (2, 0, 2));
    assert_eq!(next.point, 2);
}

#[test]
fn toggling_twice_restores_capture() {
    let (once, _) = toggle_cursor_grab(CursorGrab::Free);
    assert_eq!(toggle_cursor_grab(once), (CursorGrab::Free, true));
}
