//! The bookkeeping of the collision system: which part of which entity is
//! which object of the collision world, and which objects the world holds.
//!
//! The world itself and the shapes in it are driven by the caller, which
//! performs the operations this bookkeeping decides: it removes the objects
//! of changed bounds, moves the objects that are live and adds the others.
use crate::id_store::{
    is_smallest_free, lemma_smallest_free_exists, lemma_smallest_free_unique, map_get,
    smallest_free, IdMap,
};
use std::collections::BTreeSet;
use vstd::prelude::*;

verus! {

broadcast use {vstd::std_specs::btree::group_btree_axioms, vstd::laws_cmp::group_laws_cmp};

/// One part of one entity's shape, as `(entity, part index)`.
pub type PartKey = (usize, usize);

/// The largest number of resolution passes in one tick.
pub const MAX_ITERATIONS: usize = 10;

/// The identifier of a grid cell, counting row by row.
pub fn get_point_grid_id(w: usize, h: usize, x: usize, y: usize) -> (r: usize)
    requires
        y * w + x <= usize::MAX,
    ensures
        r == y * w + x,
{
    y * w + x
}

/// The cell with grid identifier `id`, if it lies in the `w` by `h` grid and
/// is one of `ps`.
pub fn get_point_from_id(ps: &BTreeSet<(usize, usize)>, w: usize, h: usize, id: usize) -> (r: Option<
    (usize, usize),
>)
    ensures
        r == (if (w as int) * (h as int) > id && ps@.contains(((id % w) as usize, (id / w) as usize)) {
            Some(((id % w) as usize, (id / w) as usize))
        } else {
            None::<(usize, usize)>
        }),
{
    proof {
        assert((w as int) * (h as int) <= (usize::MAX as int) * (usize::MAX as int)) by (nonlinear_arith)
            requires
                0 <= w <= usize::MAX,
                0 <= h <= usize::MAX,
        ;
        assert((usize::MAX as int) * (usize::MAX as int) <= u128::MAX) by (nonlinear_arith)
            requires
                usize::MAX <= u64::MAX,
        ;
    }
    if (w as u128) * (h as u128) > id as u128 {
        let p = (id % w, id / w);
        if ps.contains(&p) {
            Some(p)
        } else {
            None
        }
    } else {
        None
    }
}

/// How an entity's bounds divide into parts: one part for a rectangle, a
/// circle or a polygon; one part per stored cell for a grid, in the order the
/// cells are stored.
pub enum PartLayout {
    Simple,
    Grid { cells: Vec<(usize, usize)> },
}

impl PartLayout {
    /// The number of parts.
    pub open spec fn part_count(&self) -> nat {
        match self {
            PartLayout::Simple => 1,
            PartLayout::Grid { cells } => cells@.len(),
        }
    }

    /// The offset of part `part` from the entity's position, if there is
    /// such a part.
    pub open spec fn position_of(&self, part: int) -> Option<(usize, usize)> {
        match self {
            PartLayout::Simple => if part == 0 {
                Some((0usize, 0usize))
            } else {
                None
            },
            PartLayout::Grid { cells } => if 0 <= part < cells@.len() {
                Some(cells@[part])
            } else {
                None
            },
        }
    }

    /// The parts of these bounds whose objects a change of bounds makes
    /// stale, given whether the new bounds equal these. A grid's parts are
    /// never stale as a whole: its cells change by erosion.
    pub open spec fn changed_parts(&self, same: bool) -> Seq<usize> {
        if self is Simple && !same {
            seq![0usize]
        } else {
            Seq::empty()
        }
    }

    /// The number of parts.
    pub fn parts(&self) -> (r: usize)
        ensures
            r == self.part_count(),
    {
        match self {
            PartLayout::Simple => 1,
            PartLayout::Grid { cells } => cells.len(),
        }
    }

    /// The offset of part `part` from the entity's position.
    pub fn get_position_for_part(&self, part: usize) -> (r: Option<(usize, usize)>)
        ensures
            r == self.position_of(part as int),
    {
        match self {
            PartLayout::Simple => if part == 0 {
                Some((0, 0))
            } else {
                None
            },
            PartLayout::Grid { cells } => if part < cells.len() {
                Some(cells[part])
            } else {
                None
            },
        }
    }

    /// The parts whose objects are stale, where `self` describes the bounds
    /// the live objects were built from and `same` says whether the entity's
    /// present bounds equal those.
    pub fn parts_changed(&self, same: bool) -> (r: Vec<usize>)
        ensures
            r@ == self.changed_parts(same),
    {
        let mut r: Vec<usize> = Vec::new();
        if let PartLayout::Simple = self {
            if !same {
                r.push(0);
            }
        }
        r
    }
}

/// What the caller does with one part of an entity in a resolution pass.
pub struct PartSync {
    /// The part's object identifier.
    pub id: usize,
    /// The part's index.
    pub part: usize,
    /// The part's offset from the entity's position.
    pub offset: (usize, usize),
    /// Whether the object is already in the world, to be moved; otherwise it
    /// is to be added.
    pub live: bool,
}

/// The keys of the given parts of `entity`.
pub open spec fn keys_of(entity: usize, parts: Seq<usize>) -> Set<PartKey> {
    Set::new(|k: PartKey| k.0 == entity && parts.contains(k.1))
}

/// The identifiers that the keys `ks` hold in `m`.
pub open spec fn held_by(m: Map<PartKey, usize>, ks: Set<PartKey>) -> Set<usize> {
    Set::new(|id: usize| exists|k: PartKey| ks.contains(k) && m.contains_key(k) && m[k] == id)
}

/// The map after asking for the identifiers of the first `n` parts of
/// `entity`, in order.
pub open spec fn get_parts(m: Map<PartKey, usize>, entity: usize, n: nat) -> Map<PartKey, usize>
    decreases n,
{
    if n == 0 {
        m
    } else {
        map_get(get_parts(m, entity, (n - 1) as nat), (entity, (n - 1) as usize)).0
    }
}

/// Releasing part 0 of `entity` and asking for it again gives it an
/// identifier that no other key holds.
proof fn lemma_map_rebuilt_id_unshared(m: Map<PartKey, usize>, entity: usize)
    requires
        m.dom().finite(),
        m.len() <= usize::MAX,
        m.is_injective(),
        m.contains_key((entity, 0usize)),
    ensures
        ({
            let released = m.remove_keys(keys_of(entity, PartLayout::Simple.changed_parts(false)));
            let rebuilt = get_parts(released, entity, PartLayout::Simple.part_count());
            &&& !released.contains_key((entity, 0usize))
            &&& held_by(m, keys_of(entity, PartLayout::Simple.changed_parts(false))) == set![
                m[(entity, 0usize)]]
            &&& rebuilt.contains_key((entity, 0usize))
            &&& forall|k: PartKey|
                k != (entity, 0usize) && #[trigger] rebuilt.contains_key(k) ==> rebuilt[k] != rebuilt[(
                    entity,
                    0usize,
                )]
            &&& rebuilt.is_injective()
        }),
{
    let key = (entity, 0usize);
    let ks = keys_of(entity, PartLayout::Simple.changed_parts(false));
    assert(PartLayout::Simple.changed_parts(false) == seq![0usize]);
    assert(ks =~= set![key]) by {
        assert(seq![0usize].contains(0usize)) by {
            assert(seq![0usize][0] == 0usize);
        }
    }
    let m1 = m.remove_keys(ks);
    assert(m1 =~= m.remove(key));
    assert(held_by(m, ks) =~= set![m[key]]);
    assert(m1.len() == m.len() - 1);
    m1.lemma_values_len();
    lemma_smallest_free_exists(m1.values());
    let id = smallest_free(m1.values());
    let m2 = m1.insert(key, id);
    assert(get_parts(m1, entity, 1) == map_get(get_parts(m1, entity, 0), key).0);
    assert(get_parts(m1, entity, 1) == m2);
    assert forall|k: PartKey| k != key && #[trigger] m2.contains_key(k) implies m2[k] != id by {
        assert(m1.contains_key(k) && m1.values().contains(m1[k]));
    }
}

/// The object identifiers of the entities' parts, and which of them are live
/// in the collision world.
pub struct CollisionSystem {
    ids: IdMap<PartKey>,
    live: BTreeSet<usize>,
}

impl CollisionSystem {
    /// The identifier that each part holds.
    pub closed spec fn ids(&self) -> Map<PartKey, usize> {
        self.ids@
    }

    /// The identifiers of the objects in the collision world.
    pub closed spec fn live(&self) -> Set<usize> {
        self.live@
    }

    /// Every live object belongs to a part, and distinct parts hold distinct
    /// identifiers.
    pub closed spec fn wf(&self) -> bool {
        &&& self.ids.wf()
        &&& self.live@.subset_of(self.ids@.values())
    }

    /// Distinct parts hold distinct identifiers, and every live object belongs
    /// to a part: an identifier released by `remove_changed` is held by no
    /// part and is not live.
    pub proof fn lemma_ids_injective(&self)
        requires
            self.wf(),
        ensures
            self.ids().is_injective(),
            self.ids().dom().finite(),
            self.live().subset_of(self.ids().values()),
    {
        self.ids.lemma_wf();
    }

    /// When the simple bounds of `entity` change: removing its stale part
    /// releases the part's identifier and forgets its live object, and
    /// syncing the entity again gives the part an identifier that no other
    /// part holds and that is not live.
    pub proof fn lemma_rebuilt_id_unshared(&self, entity: usize)
        requires
            self.wf(),
            self.ids().contains_key((entity, 0usize)),
        ensures
            ({
                let stale = keys_of(entity, PartLayout::Simple.changed_parts(false));
                let released = self.ids().remove_keys(stale);
                let live = self.live().difference(held_by(self.ids(), stale));
                let rebuilt = get_parts(released, entity, PartLayout::Simple.part_count());
                let id = rebuilt[(entity, 0usize)];
                &&& held_by(self.ids(), stale) == set![self.ids()[(entity, 0usize)]]
                &&& !released.contains_key((entity, 0usize))
                &&& rebuilt.contains_key((entity, 0usize))
                &&& forall|k: PartKey|
                    k != (entity, 0usize) && #[trigger] rebuilt.contains_key(k) ==> rebuilt[k] != id
                &&& rebuilt.is_injective()
                &&& !live.contains(id)
            }),
    {
        self.ids.lemma_wf();
        lemma_map_rebuilt_id_unshared(self.ids(), entity);
        let stale = keys_of(entity, PartLayout::Simple.changed_parts(false));
        let released = self.ids().remove_keys(stale);
        let live = self.live().difference(held_by(self.ids(), stale));
        let rebuilt = get_parts(released, entity, PartLayout::Simple.part_count());
        let id = rebuilt[(entity, 0usize)];
        assert(get_parts(released, entity, 0) == released);
        assert(rebuilt == map_get(released, (entity, 0usize)).0);
        if live.contains(id) {
            let k = choose|k: PartKey| self.ids().contains_key(k) && self.ids()[k] == id;
            if k == (entity, 0usize) {
                assert(held_by(self.ids(), stale).contains(id));
            } else {
                assert(released.contains_key(k));
                assert(rebuilt.contains_key(k) && rebuilt[k] == id);
            }
        }
    }

    /// No parts and no live objects.
    pub fn new() -> (r: CollisionSystem)
        ensures
            r.wf(),
            r.ids() == Map::<PartKey, usize>::empty(),
            r.live() == Set::<usize>::empty(),
    {
        let r = CollisionSystem { ids: IdMap::new(), live: BTreeSet::new() };
        assert(r.live@.subset_of(r.ids@.values()));
        r
    }

    /// Releases the identifiers of the given parts of `entity` and forgets
    /// their objects; returns the identifiers of those objects that were
    /// live, which the caller removes from the world.
    pub fn remove_changed(&mut self, entity: usize, parts: &Vec<usize>) -> (r: Vec<usize>)
        requires
            old(self).wf(),
        ensures
            final(self).wf(),
            final(self).ids() == old(self).ids().remove_keys(keys_of(entity, parts@)),
            final(self).live() == old(self).live().difference(
                held_by(old(self).ids(), keys_of(entity, parts@)),
            ),
            forall|id: usize|
                #[trigger] held_by(old(self).ids(), keys_of(entity, parts@)).contains(id)
                    ==> !final(self).ids().values().contains(id) && !final(self).live().contains(id),
            r@.no_duplicates(),
            r@.to_set() == old(self).live().intersect(
                held_by(old(self).ids(), keys_of(entity, parts@)),
            ),
    {
        let ghost m0 = self.ids@;
        let ghost l0 = self.live@;
        proof {
            self.ids.lemma_wf();
        }
        let mut removed: Vec<usize> = Vec::new();
        let mut i: usize = 0;
        while i < parts.len()
            invariant
                i <= parts@.len(),
                self.wf(),
                m0.is_injective(),
                self.ids@ == m0.remove_keys(keys_of(entity, parts@.subrange(0, i as int))),
                self.live@ == l0.difference(held_by(m0, keys_of(entity, parts@.subrange(0, i as int)))),
                removed@.no_duplicates(),
                removed@.to_set() == l0.intersect(held_by(m0, keys_of(entity, parts@.subrange(0, i as int)))),
            decreases parts@.len() - i,
        {
            let ghost before = parts@.subrange(0, i as int);
            let ghost after = parts@.subrange(0, i + 1);
            let key = (entity, parts[i]);
            let ghost present = self.ids@.contains_key(key);
            let ghost old_removed = removed@;
            let ghost old_live = self.live@;
            let id = self.ids.get(key);
            self.ids.release(key);
            let was_live = self.live.contains(&id);
            if was_live {
                self.live.remove(&id);
                removed.push(id);
            }
            proof {
                assert(keys_of(entity, after) =~= keys_of(entity, before).insert(key)) by {
                    assert(after[i as int] == parts@[i as int]);
                    assert(after.contains(parts@[i as int]));
                    assert forall|k: PartKey| #[trigger] keys_of(entity, after).contains(k) implies keys_of(entity, before).insert(key).contains(k) by {
                        let j = choose|j: int| 0 <= j < after.len() && after[j] == k.1;
                        if j < i {
                            assert(before[j] == k.1);
                        }
                    }
                    assert forall|k: PartKey| #[trigger] keys_of(entity, before).contains(k) implies keys_of(entity, after).contains(k) by {
                        let j = choose|j: int| 0 <= j < before.len() && before[j] == k.1;
                        assert(after[j] == k.1);
                    }
                }
                assert(self.ids@ =~= m0.remove_keys(keys_of(entity, after)));
                self.ids.lemma_wf();
                if present {
                    assert(m0.contains_key(key) && m0[key] == id);
                    assert(held_by(m0, keys_of(entity, after)) =~= held_by(m0, keys_of(entity, before)).insert(id));
                    assert(!held_by(m0, keys_of(entity, before)).contains(id)) by {
                        if held_by(m0, keys_of(entity, before)).contains(id) {
                            let k = choose|k: PartKey| keys_of(entity, before).contains(k) && m0.contains_key(k) && m0[k] == id;
                            assert(k == key);
                        }
                    }
                } else {
                    assert(!m0.contains_key(key) || keys_of(entity, before).contains(key));
                    assert(held_by(m0, keys_of(entity, after)) =~= held_by(m0, keys_of(entity, before)));
                    assert(!was_live);
                }
                assert(self.live@ =~= l0.difference(held_by(m0, keys_of(entity, after))));
                if was_live {
                    assert(removed@ == old_removed.push(id));
                    assert(!old_removed.contains(id)) by {
                        if old_removed.contains(id) {
                            assert(old_removed.to_set().contains(id));
                        }
                    }
                    assert forall|x: usize| #[trigger] removed@.contains(x) <==> old_removed.contains(x) || x == id by {
                        if old_removed.contains(x) {
                            let j = choose|j: int| 0 <= j < old_removed.len() && old_removed[j] == x;
                            assert(removed@[j] == x);
                        }
                        if x == id {
                            assert(removed@[removed@.len() - 1] == x);
                        }
                    }
                    assert(old_live.contains(id));
                } else {
                    assert(removed@ == old_removed);
                    if present {
                        assert(!l0.contains(id));
                    }
                }
                assert forall|x: usize| #[trigger] removed@.to_set().contains(x) <==> l0.intersect(held_by(m0, keys_of(entity, after))).contains(x) by {
                    assert(removed@.to_set().contains(x) == removed@.contains(x));
                    assert(old_removed.to_set().contains(x) == old_removed.contains(x));
                }
                assert(removed@.to_set() =~= l0.intersect(held_by(m0, keys_of(entity, after))));
                assert(self.live@.subset_of(self.ids@.values())) by {
                    assert forall|v: usize| #[trigger] self.live@.contains(v) implies self.ids@.values().contains(v) by {
                        let k = choose|k: PartKey| m0.contains_key(k) && m0[k] == v;
                        assert(!keys_of(entity, after).contains(k));
                        assert(self.ids@.contains_key(k) && self.ids@[k] == v);
                    }
                }
            }
            i = i + 1;
        }
        assert(parts@.subrange(0, parts@.len() as int) =~= parts@);
        proof {
            let ks = keys_of(entity, parts@);
            assert forall|id: usize| #[trigger] held_by(m0, ks).contains(id)
                implies !self.ids@.values().contains(id) by {
                let k = choose|k: PartKey| ks.contains(k) && m0.contains_key(k) && m0[k] == id;
                if self.ids@.values().contains(id) {
                    let k2 = choose|k2: PartKey| self.ids@.contains_key(k2) && self.ids@[k2] == id;
                    assert(m0.contains_key(k2) && m0[k2] == id && !ks.contains(k2));
                }
            }
        }
        removed
    }

    /// Resolves the object identifier of each part of `entity` in turn,
    /// giving a part without one the smallest free identifier, and says for
    /// each part whether its object is live, to be moved, or not, to be
    /// added.
    pub fn sync_parts(&mut self, entity: usize, layout: &PartLayout) -> (r: Vec<PartSync>)
        requires
            old(self).wf(),
        ensures
            final(self).wf(),
            final(self).live() == old(self).live(),
            final(self).ids() == get_parts(old(self).ids(), entity, layout.part_count()),
            r@.len() == layout.part_count(),
            forall|i: int|
                0 <= i < r@.len() ==> {
                    &&& (#[trigger] r@[i]).part == i
                    &&& final(self).ids().contains_key((entity, i as usize))
                    &&& r@[i].id == final(self).ids()[(entity, i as usize)]
                    &&& layout.position_of(i) == Some(r@[i].offset)
                    &&& r@[i].live == old(self).live().contains(r@[i].id)
                },
    {
        let ghost m0 = self.ids@;
        let n = layout.parts();
        let mut out: Vec<PartSync> = Vec::new();
        let mut i: usize = 0;
        while i < n
            invariant
                n == layout.part_count(),
                i <= n,
                self.wf(),
                self.live@ == old(self).live@,
                self.ids@ == get_parts(m0, entity, i as nat),
                out@.len() == i,
                forall|j: int|
                    0 <= j < i ==> {
                        &&& (#[trigger] out@[j]).part == j
                        &&& self.ids@.contains_key((entity, j as usize))
                        &&& out@[j].id == self.ids@[(entity, j as usize)]
                        &&& layout.position_of(j) == Some(out@[j].offset)
                        &&& out@[j].live == old(self).live@.contains(out@[j].id)
                    },
            decreases n - i,
        {
            let ghost before = self.ids@;
            let ghost out0 = out@;
            let id = self.ids.get((entity, i));
            let offset = match layout.get_position_for_part(i) {
                Some(p) => p,
                None => (0, 0),
            };
            let live = self.live.contains(&id);
            out.push(PartSync { id, part: i, offset, live });
            proof {
                assert forall|j: int| 0 <= j < i implies #[trigger] before.contains_key((entity, j as usize))
                    && self.ids@.contains_key((entity, j as usize))
                    && self.ids@[(entity, j as usize)] == before[(entity, j as usize)] by {
                    assert(out0[j].part == j);
                }
                assert forall|j: int| 0 <= j < i + 1 implies #[trigger] out@[j] == (if j < i {
                    out0[j]
                } else {
                    PartSync { id, part: i, offset, live }
                }) by {}
                assert(self.live@.subset_of(self.ids@.values())) by {
                    assert forall|v: usize| #[trigger] self.live@.contains(v) implies self.ids@.values().contains(v) by {
                        let k = choose|k: PartKey| before.contains_key(k) && before[k] == v;
                        assert(self.ids@.contains_key(k) && self.ids@[k] == v);
                    }
                }
            }
            i = i + 1;
        }
        out
    }

    /// Records that the object of part `part` of `entity` is now in the
    /// world.
    pub fn added(&mut self, entity: usize, part: usize)
        requires
            old(self).wf(),
        ensures
            final(self).wf(),
            final(self).ids() == map_get(old(self).ids(), (entity, part)).0,
            final(self).live() == old(self).live().insert(map_get(old(self).ids(), (entity, part)).1),
    {
        let ghost before = self.ids@;
        let id = self.ids.get((entity, part));
        self.live.insert(id);
        proof {
            assert(self.ids@.contains_key((entity, part)) && self.ids@[(entity, part)] == id);
            assert(self.live@.subset_of(self.ids@.values())) by {
                assert forall|v: usize| #[trigger] self.live@.contains(v) implies self.ids@.values().contains(v) by {
                    if v != id {
                        let k = choose|k: PartKey| before.contains_key(k) && before[k] == v;
                        assert(self.ids@.contains_key(k) && self.ids@[k] == v);
                    }
                }
            }
        }
    }
}

} // verus!
