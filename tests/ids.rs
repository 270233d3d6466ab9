use collide_terrain::id_store::{IdMap, IdStore};

#[test]
fn allocator_reuses_released_id() {
    let mut s = IdStore::new();
    assert_eq!(s.get(), 0);
    assert_eq!(s.get(), 1);
    assert_eq!(s.get(), 2);
    s.release(1);
    assert_eq!(s.get(), 1);
    assert_eq!(s.get(), 3);
}

#[test]
fn allocator_prefers_smallest_free() {
    let mut s = IdStore::new();
    for _ in 0..5 {
        s.get();
    }
    s.release(3);
    s.release(1);
    assert_eq!(s.get(), 1);
    assert_eq!(s.get(), 3);
    assert_eq!(s.get(), 5);
}

#[test]
fn allocator_release_of_free_id_changes_nothing() {
    let mut s = IdStore::new();
    s.release(7);
    assert_eq!(s.get(), 0);
    s.release(4);
    assert_eq!(s.get(), 1);
}

#[test]
fn id_map_get_is_idempotent() {
    let mut m: IdMap<(usize, usize)> = IdMap::new();
    let a = m.get((4, 0));
    assert_eq!(m.get((4, 0)), a);
    assert_eq!(a, 0);
    let b = m.get((5, 0));
    assert_eq!(b, 1);
    assert_eq!(m.get((4, 0)), 0);
}

#[test]
fn id_map_release_returns_id_to_pool() {
    let mut m: IdMap<(usize, usize)> = IdMap::new();
    assert_eq!(m.get((1, 0)), 0);
    assert_eq!(m.get((2, 0)), 1);
    assert_eq!(m.get((3, 0)), 2);
    m.release((2, 0));
    assert_eq!(m.get((9, 1)), 1);
    assert_eq!(m.get((2, 0)), 3);
    m.release((42, 0));
    assert_eq!(m.get((1, 0)), 0);
}
