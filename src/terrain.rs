//! Destructible terrain: a set of occupied cells that contacts wear away.
use crate::contour::{new_bounds, outline_of};
use std::collections::BTreeSet;
use vstd::prelude::*;

verus! {

broadcast use {vstd::std_specs::btree::group_btree_axioms, vstd::laws_cmp::group_laws_cmp};

/// An integer grid cell, as `(x, y)`.
pub type Cell = (i64, i64);

/// Half the side of the square of cells that one contact removes.
pub const EROSION_REACH: i64 = 5;

/// The cells of the rectangle with corner `(x, y)` and the given size.
pub open spec fn rect_cells(x: int, y: int, width: int, height: int) -> Set<Cell> {
    Set::new(|c: Cell| x <= c.0 < x + width && y <= c.1 < y + height)
}

/// `p` lies in the 10 by 10 square of cells that a contact at `c` removes.
pub open spec fn in_square(c: Cell, p: Cell) -> bool {
    &&& c.0 - EROSION_REACH <= p.0 < c.0 + EROSION_REACH
    &&& c.1 - EROSION_REACH <= p.1 < c.1 + EROSION_REACH
}

/// The square of cells that a contact at `c` removes.
pub open spec fn square(c: Cell) -> Set<Cell> {
    Set::new(|p: Cell| in_square(c, p))
}

/// What remains of `points` after erosion at each of `contacts` in turn.
pub open spec fn eroded(points: Set<Cell>, contacts: Seq<Cell>) -> Set<Cell>
    decreases contacts.len(),
{
    if contacts.len() == 0 {
        points
    } else {
        eroded(points, contacts.drop_last()).difference(square(contacts.last()))
    }
}

/// Erosion only removes cells: what remains is part of what was there.
pub proof fn lemma_erosion_shrinks(points: Set<Cell>, contacts: Seq<Cell>)
    ensures
        eroded(points, contacts).subset_of(points),
    decreases contacts.len(),
{
    if contacts.len() > 0 {
        lemma_erosion_shrinks(points, contacts.drop_last());
    }
}

/// Erosion where no cell is left changes nothing.
pub proof fn lemma_erosion_of_empty_region(points: Set<Cell>, contacts: Seq<Cell>)
    requires
        forall|i: int, p: Cell|
            0 <= i < contacts.len() && in_square(contacts[i], p) ==> !points.contains(p),
    ensures
        eroded(points, contacts) == points,
    decreases contacts.len(),
{
    if contacts.len() > 0 {
        let rest = contacts.drop_last();
        assert forall|i: int, p: Cell| 0 <= i < rest.len() && in_square(rest[i], p) implies !points.contains(p) by {
            assert(rest[i] == contacts[i]);
        }
        lemma_erosion_of_empty_region(points, rest);
        assert(points.difference(square(contacts.last())) =~= points) by {
            assert forall|p: Cell| #[trigger] points.contains(p) implies !square(contacts.last()).contains(p) by {
                assert(contacts.last() == contacts[contacts.len() - 1]);
            }
        }
    }
}

/// Eroding twice at the same contacts leaves what eroding once left.
pub proof fn lemma_erosion_repeat(points: Set<Cell>, contacts: Seq<Cell>)
    ensures
        eroded(eroded(points, contacts), contacts) == eroded(points, contacts),
{
    let once = eroded(points, contacts);
    assert forall|i: int, p: Cell| 0 <= i < contacts.len() && in_square(contacts[i], p) implies !once.contains(p) by {
        lemma_eroded_misses(points, contacts, i, p);
    }
    lemma_erosion_of_empty_region(once, contacts);
}

/// No cell of a contact's square survives erosion at that contact.
proof fn lemma_eroded_misses(points: Set<Cell>, contacts: Seq<Cell>, i: int, p: Cell)
    requires
        0 <= i < contacts.len(),
        in_square(contacts[i], p),
    ensures
        !eroded(points, contacts).contains(p),
    decreases contacts.len(),
{
    if i < contacts.len() - 1 {
        lemma_eroded_misses(points, contacts.drop_last(), i, p);
    }
}

/// The terrain's occupied cells, and whether its outline is out of date.
pub struct Terrain {
    pub dirty: bool,
    pub points: BTreeSet<Cell>,
}

impl Terrain {
    /// A filled rectangle of cells with corner `(x, y)`, whose outline is yet
    /// to be traced.
    pub fn new(x: usize, y: usize, width: usize, height: usize) -> (r: Terrain)
        requires
            x + width <= i64::MAX,
            y + height <= i64::MAX,
        ensures
            r.dirty,
            r.points@ == rect_cells(x as int, y as int, width as int, height as int),
    {
        let mut ps: BTreeSet<Cell> = BTreeSet::new();
        let x0 = x as i64;
        let y0 = y as i64;
        let x1 = x0 + width as i64;
        let y1 = y0 + height as i64;
        let mut i: i64 = x0;
        while i < x1
            invariant
                x0 == x,
                y0 == y,
                x1 == x + width,
                y1 == y + height,
                x0 <= i <= x1 || x1 < x0 == i,
                ps@ == rect_cells(x0 as int, y0 as int, i - x0, y1 - y0),
            decreases x1 - i,
        {
            let mut j: i64 = y0;
            while j < y1
                invariant
                    x0 <= i < x1,
                    y0 <= j <= y1,
                    ps@ == rect_cells(x0 as int, y0 as int, i - x0, y1 - y0).union(
                        rect_cells(i as int, y0 as int, 1, j - y0),
                    ),
                decreases y1 - j,
            {
                ps.insert((i, j));
                j = j + 1;
                assert(ps@ =~= rect_cells(x0 as int, y0 as int, i - x0, y1 - y0).union(
                    rect_cells(i as int, y0 as int, 1, j - y0),
                ));
            }
            i = i + 1;
            assert(ps@ =~= rect_cells(x0 as int, y0 as int, i - x0, y1 - y0));
        }
        assert(ps@ =~= rect_cells(x as int, y as int, width as int, height as int));
        Terrain { dirty: true, points: ps }
    }

    /// Removes every cell within the square around each contact, in turn,
    /// and marks the terrain dirty when there was at least one contact.
    pub fn handle_collision(&mut self, contacts: &Vec<Cell>)
        ensures
            final(self).points@ == eroded(old(self).points@, contacts@),
            final(self).dirty == (old(self).dirty || contacts@.len() > 0),
    {
        let mut k: usize = 0;
        while k < contacts.len()
            invariant
                k <= contacts@.len(),
                self.points@ == eroded(old(self).points@, contacts@.subrange(0, k as int)),
                self.dirty == (old(self).dirty || k > 0),
            decreases contacts@.len() - k,
        {
            let c = contacts[k];
            erode_square(&mut self.points, c);
            self.dirty = true;
            k = k + 1;
            assert(contacts@.subrange(0, k as int).drop_last() =~= contacts@.subrange(0, k - 1));
        }
        assert(contacts@.subrange(0, k as int) =~= contacts@);
    }
}

/// Removes from `points` the square of cells around `c`.
fn erode_square(points: &mut BTreeSet<Cell>, c: Cell)
    ensures
        final(points)@ == old(points)@.difference(square(c)),
{
    let mut dx: i64 = -EROSION_REACH;
    while dx < EROSION_REACH
        invariant
            -EROSION_REACH <= dx <= EROSION_REACH,
            points@ == old(points)@.difference(
                Set::new(|p: Cell| in_square(c, p) && p.0 < c.0 + dx),
            ),
        decreases EROSION_REACH - dx,
    {
        let mut dy: i64 = -EROSION_REACH;
        while dy < EROSION_REACH
            invariant
                -EROSION_REACH <= dx < EROSION_REACH,
                -EROSION_REACH <= dy <= EROSION_REACH,
                points@ == old(points)@.difference(
                    Set::new(|p: Cell| in_square(c, p) && (p.0 < c.0 + dx || (p.0 == c.0 + dx && p.1 < c.1 + dy))),
                ),
            decreases EROSION_REACH - dy,
        {
            let px = c.0 as i128 + dx as i128;
            let py = c.1 as i128 + dy as i128;
            if i64::MIN as i128 <= px && px <= i64::MAX as i128 && i64::MIN as i128 <= py && py <= i64::MAX as i128 {
                points.remove(&(px as i64, py as i64));
            }
            dy = dy + 1;
            assert(points@ =~= old(points)@.difference(
                Set::new(|p: Cell| in_square(c, p) && (p.0 < c.0 + dx || (p.0 == c.0 + dx && p.1 < c.1 + dy))),
            ));
        }
        dx = dx + 1;
        assert(points@ =~= old(points)@.difference(
            Set::new(|p: Cell| in_square(c, p) && p.0 < c.0 + dx),
        ));
    }
    assert(points@ =~= old(points)@.difference(square(c)));
}

/// Wears the terrain away where it was touched and retraces its outline.
pub struct TerrainSystem;

impl TerrainSystem {
    /// Erodes `terrain` at each of this tick's `contacts`; if the terrain is
    /// then dirty, returns its new outline and marks it clean.
    pub fn run(&self, terrain: &mut Terrain, contacts: &Vec<Cell>) -> (r: Option<Vec<Cell>>)
        ensures
            final(terrain).points@ == eroded(old(terrain).points@, contacts@),
            !final(terrain).dirty,
            r is Some <==> (old(terrain).dirty || contacts@.len() > 0),
            r is Some ==> r->0@ == outline_of(final(terrain).points@),
    {
        terrain.handle_collision(contacts);
        if terrain.dirty {
            let outline = new_bounds(&terrain.points);
            terrain.dirty = false;
            Some(outline)
        } else {
            None
        }
    }
}

} // verus!
