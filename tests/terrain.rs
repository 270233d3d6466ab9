use collide_terrain::contour::new_bounds;
use collide_terrain::terrain::{Cell, Terrain, TerrainSystem};
use std::collections::BTreeSet;

fn rect(x: i64, y: i64, w: i64, h: i64) -> BTreeSet<Cell> {
    let mut s = BTreeSet::new();
    for i in x..x + w {
        for j in y..y + h {
            s.insert((i, j));
        }
    }
    s
}

#[test]
fn terrain_new_fills_rectangle() {
    let t = Terrain::new(2, 3, 4, 2);
    assert!(t.dirty);
    assert_eq!(t.points, rect(2, 3, 4, 2));
    assert_eq!(t.points.len(), 8);
}

#[test]
fn terrain_new_empty() {
    let t = Terrain::new(5, 5, 0, 3);
    assert!(t.points.is_empty());
    assert!(t.dirty);
}

#[test]
fn erosion_removes_ten_by_ten_square() {
    let mut t = Terrain::new(0, 0, 30, 30);
    t.dirty = false;
    t.handle_collision(&vec![(15, 15)]);
    assert!(t.dirty);
    assert_eq!(t.points.len(), 900 - 100);
    assert!(!t.points.contains(&(10, 10)));
    assert!(!t.points.contains(&(19, 19)));
    assert!(t.points.contains(&(20, 20)));
    assert!(t.points.contains(&(9, 15)));
    assert!(t.points.contains(&(15, 20)));
}

#[test]
fn erosion_only_shrinks_and_repeats_as_no_op() {
    let mut t = Terrain::new(0, 0, 20, 20);
    let before = t.points.clone();
    t.handle_collision(&vec![(0, 0), (19, 3)]);
    assert!(t.points.is_subset(&before));
    let once = t.points.clone();
    t.handle_collision(&vec![(0, 0), (19, 3)]);
    assert_eq!(t.points, once);
    t.handle_collision(&vec![(-100, -100)]);
    assert_eq!(t.points, once);
}

#[test]
fn no_contacts_leave_clean_terrain_alone() {
    let mut t = Terrain::new(0, 0, 4, 4);
    t.dirty = false;
    t.handle_collision(&vec![]);
    assert!(!t.dirty);
    assert_eq!(t.points.len(), 16);
}

#[test]
fn outline_of_rectangle_is_its_corners() {
    assert_eq!(new_bounds(&rect(2, 3, 5, 4)), vec![(2, 3), (2, 6), (6, 6), (6, 3)]);
    assert_eq!(new_bounds(&rect(0, 0, 2, 2)), vec![(0, 0), (0, 1), (1, 1), (1, 0)]);
}

#[test]
fn outline_of_game_terrain() {
    let t = Terrain::new(200, 400, 500, 100);
    assert_eq!(new_bounds(&t.points), vec![(200, 400), (200, 499), (699, 499), (699, 400)]);
}

#[test]
fn outline_of_degenerate_sets() {
    assert_eq!(new_bounds(&BTreeSet::new()), Vec::<Cell>::new());
    assert_eq!(new_bounds(&rect(7, -3, 1, 1)), Vec::<Cell>::new());
    assert_eq!(new_bounds(&rect(0, 0, 1, 3)), vec![(0, 0), (0, 2)]);
}

#[test]
fn outline_with_notches() {
    let mut corner = rect(0, 0, 6, 5);
    corner.remove(&(5, 4));
    assert_eq!(new_bounds(&corner), vec![(0, 0), (0, 4), (4, 4), (5, 3), (5, 0)]);
    let mut middle = rect(0, 0, 6, 5);
    middle.remove(&(2, 4));
    assert_eq!(
        new_bounds(&middle),
        vec![(0, 0), (0, 4), (1, 4), (2, 3), (3, 3), (4, 4), (5, 4), (5, 0)]
    );
}

#[test]
fn outline_ignores_holes() {
    let mut ring = rect(0, 0, 3, 3);
    ring.remove(&(1, 1));
    assert_eq!(new_bounds(&ring), vec![(0, 0), (0, 2), (2, 2), (2, 0)]);
}

#[test]
fn terrain_system_retraces_when_dirty() {
    let sys = TerrainSystem;
    let mut t = Terrain::new(0, 0, 40, 10);
    let first = sys.run(&mut t, &vec![]);
    assert_eq!(first, Some(vec![(0, 0), (0, 9), (39, 9), (39, 0)]));
    assert!(!t.dirty);
    assert_eq!(sys.run(&mut t, &vec![]), None);
    let eroded = sys.run(&mut t, &vec![(39, 9)]).unwrap();
    assert!(!t.dirty);
    assert_eq!(t.points.len(), 400 - 36);
    assert_eq!(eroded, vec![(0, 0), (0, 9), (33, 9), (33, 4), (34, 3), (39, 3), (39, 0)]);
}

#[test]
fn outline_is_empty_when_walk_never_closes() {
    let mut spur = rect(0, 0, 8, 7);
    spur.remove(&(1, 0));
    assert_eq!(new_bounds(&spur), Vec::<Cell>::new());
}
