use collide_terrain::resolution::{record_contacts, Contact, Push, Resolution};
use std::collections::BTreeSet;

fn contact(a: usize, b: usize, penetrating: bool) -> Contact<(i32, i32)> {
    Contact { pair: a * 100 + b, a, b, penetrating, on_a: (a as i32, 0), on_b: (b as i32, 1) }
}

#[test]
fn immovable_entity_is_not_pushed() {
    let mut movable = BTreeSet::new();
    movable.insert(1);
    let mut r = Resolution::new();
    assert!(r.running());
    let pushes = r.pass(&vec![contact(1, 2, true)], &movable);
    assert_eq!(pushes, vec![Push { a: true, b: false }]);
    assert!(r.running());
}

#[test]
fn both_movable_entities_are_pushed() {
    let movable: BTreeSet<usize> = [1, 2].into_iter().collect();
    let mut r = Resolution::new();
    let pushes = r.pass(&vec![contact(1, 2, true), contact(2, 1, false)], &movable);
    assert_eq!(pushes, vec![Push { a: true, b: true }, Push { a: false, b: false }]);
}

#[test]
fn pass_without_push_ends_loop() {
    let movable: BTreeSet<usize> = BTreeSet::new();
    let mut r = Resolution::new();
    assert!(r.records_contacts());
    r.pass(&vec![contact(1, 2, true)], &movable);
    assert!(!r.records_contacts());
    assert!(!r.running());
}

#[test]
fn loop_stops_after_ten_passes() {
    let movable: BTreeSet<usize> = [1, 2].into_iter().collect();
    let mut r = Resolution::new();
    let mut passes = 0;
    while r.running() {
        r.pass(&vec![contact(1, 2, true)], &movable);
        passes += 1;
    }
    assert_eq!(passes, 10);
}

#[test]
fn records_only_penetrating_contacts() {
    let recs = record_contacts(&vec![contact(1, 2, true), contact(3, 4, false)]);
    assert_eq!(recs.len(), 2);
    assert_eq!((recs[0].owner, recs[0].other, recs[0].point), (1, 2, (1, 0)));
    assert_eq!((recs[1].owner, recs[1].other, recs[1].point), (2, 1, (2, 1)));
}

#[test]
fn no_overlaps_record_nothing() {
    assert!(record_contacts::<(i32, i32)>(&vec![]).is_empty());
    assert!(record_contacts(&vec![contact(1, 2, false)]).is_empty());
}

#[test]
fn records_every_point_of_a_penetrating_pair() {
    let deep = Contact { pair: 7, a: 1, b: 2, penetrating: true, on_a: (10, 0), on_b: (10, 1) };
    let touching = Contact { pair: 7, a: 1, b: 2, penetrating: false, on_a: (11, 0), on_b: (11, 1) };
    let elsewhere = Contact { pair: 8, a: 3, b: 4, penetrating: false, on_a: (12, 0), on_b: (12, 1) };
    let recs = record_contacts(&vec![deep, touching, elsewhere]);
    let got: Vec<(usize, usize, (i32, i32))> = recs.iter().map(|r| (r.owner, r.other, r.point)).collect();
    assert_eq!(got, vec![(1, 2, (10, 0)), (2, 1, (10, 1)), (1, 2, (11, 0)), (2, 1, (11, 1))]);
}

#[test]
fn touching_point_of_a_pair_does_not_push() {
    let movable: BTreeSet<usize> = [1, 2].into_iter().collect();
    let mut r = Resolution::new();
    let deep = Contact { pair: 7, a: 1, b: 2, penetrating: true, on_a: (10, 0), on_b: (10, 1) };
    let touching = Contact { pair: 7, a: 1, b: 2, penetrating: false, on_a: (11, 0), on_b: (11, 1) };
    let pushes = r.pass(&vec![deep, touching], &movable);
    assert_eq!(pushes, vec![Push { a: true, b: true }, Push { a: false, b: false }]);
}
