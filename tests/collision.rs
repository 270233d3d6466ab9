use collide_terrain::collision::{
    get_point_from_id, get_point_grid_id, CollisionSystem, PartLayout, PartSync,
};
use std::collections::BTreeSet;

fn ids(parts: &[PartSync]) -> Vec<usize> {
    parts.iter().map(|p| p.id).collect()
}

#[test]
fn grid_ids_round_trip() {
    assert_eq!(get_point_grid_id(10, 5, 3, 2), 23);
    let mut ps = BTreeSet::new();
    ps.insert((3, 2));
    assert_eq!(get_point_from_id(&ps, 10, 5, 23), Some((3, 2)));
    assert_eq!(get_point_from_id(&ps, 10, 5, 24), None);
    assert_eq!(get_point_from_id(&ps, 10, 5, 50), None);
    assert_eq!(get_point_from_id(&ps, 0, 5, 0), None);
}

#[test]
fn layout_parts_and_positions() {
    let simple = PartLayout::Simple;
    assert_eq!(simple.parts(), 1);
    assert_eq!(simple.get_position_for_part(0), Some((0, 0)));
    assert_eq!(simple.get_position_for_part(1), None);
    let grid = PartLayout::Grid { cells: vec![(4, 1), (5, 1), (5, 2)] };
    assert_eq!(grid.parts(), 3);
    assert_eq!(grid.get_position_for_part(2), Some((5, 2)));
    assert_eq!(grid.get_position_for_part(3), None);
}

#[test]
fn only_simple_bounds_report_changes() {
    assert_eq!(PartLayout::Simple.parts_changed(false), vec![0]);
    assert_eq!(PartLayout::Simple.parts_changed(true), Vec::<usize>::new());
    let grid = PartLayout::Grid { cells: vec![(0, 0)] };
    assert_eq!(grid.parts_changed(false), Vec::<usize>::new());
}

#[test]
fn sync_adds_then_moves() {
    let mut sys = CollisionSystem::new();
    let first = sys.sync_parts(7, &PartLayout::Simple);
    assert_eq!(first.len(), 1);
    assert_eq!(first[0].id, 0);
    assert_eq!(first[0].part, 0);
    assert!(!first[0].live);
    sys.added(7, 0);
    let second = sys.sync_parts(7, &PartLayout::Simple);
    assert_eq!(second[0].id, 0);
    assert!(second[0].live);
}

#[test]
fn grid_parts_get_one_id_each() {
    let mut sys = CollisionSystem::new();
    let grid = PartLayout::Grid { cells: vec![(0, 0), (1, 0), (2, 0)] };
    let parts = sys.sync_parts(3, &grid);
    assert_eq!(ids(&parts), vec![0, 1, 2]);
    assert_eq!(parts[1].offset, (1, 0));
    assert!(parts.iter().all(|p| !p.live));
}

#[test]
fn bounds_change_rebuilds_with_unshared_id() {
    let mut sys = CollisionSystem::new();
    let a = sys.sync_parts(1, &PartLayout::Simple);
    sys.added(1, 0);
    let b = sys.sync_parts(2, &PartLayout::Simple);
    sys.added(2, 0);
    assert_eq!((a[0].id, b[0].id), (0, 1));
    let changed = PartLayout::Simple.parts_changed(false);
    let removed = sys.remove_changed(1, &changed);
    assert_eq!(removed, vec![0]);
    let rebuilt = sys.sync_parts(1, &PartLayout::Simple);
    assert!(!rebuilt[0].live);
    assert_ne!(rebuilt[0].id, b[0].id);
    let other = sys.sync_parts(2, &PartLayout::Simple);
    assert_eq!(other[0].id, 1);
    assert!(other[0].live);
}

#[test]
fn remove_changed_skips_objects_never_added() {
    let mut sys = CollisionSystem::new();
    sys.sync_parts(5, &PartLayout::Simple);
    assert_eq!(sys.remove_changed(5, &vec![0]), Vec::<usize>::new());
    assert_eq!(sys.remove_changed(6, &vec![0, 0]), Vec::<usize>::new());
}
