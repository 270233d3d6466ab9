//! The decisions of the penetration-resolution loop.
//!
//! Each tick the collision system runs up to `MAX_ITERATIONS` passes. A pass
//! looks at the contacts the collision world reports; for every contact that
//! penetrates, each of its two entities that can move is pushed half the
//! depth apart, and the pass counts as dirty. Passes go on while the last
//! one was dirty. The contacts of the first pass are recorded for each
//! entity, keyed by the other entity: every point of each contact pair that
//! has a penetrating point. The pushes themselves, on the
//! entities' positions, are the caller's to apply.
use crate::collision::MAX_ITERATIONS;
use std::collections::BTreeSet;
use vstd::prelude::*;

verus! {

broadcast use {vstd::std_specs::btree::group_btree_axioms, vstd::laws_cmp::group_laws_cmp};

/// A contact point between a part of entity `a` and a part of entity `b`,
/// with the point on each shape; `pair` names the contact pair (the two
/// collision objects) the point belongs to, and `penetrating` says whether
/// the point's depth is positive.
pub struct Contact<P> {
    pub pair: usize,
    pub a: usize,
    pub b: usize,
    pub penetrating: bool,
    pub on_a: P,
    pub on_b: P,
}

/// Which entities of a contact a pass pushes: `a` along the contact's
/// correction, `b` against it.
#[derive(PartialEq, Eq, Structural, Clone, Copy, Debug)]
pub struct Push {
    pub a: bool,
    pub b: bool,
}

/// One recorded contact point: on `owner`'s shape, touching `other`.
pub struct ContactRecord<P> {
    pub owner: usize,
    pub other: usize,
    pub point: P,
}

/// The pushes of a contact: only a penetrating contact pushes, and only the
/// entities that can move.
pub open spec fn push_of<P>(c: Contact<P>, movable: Set<usize>) -> Push {
    Push { a: c.penetrating && movable.contains(c.a), b: c.penetrating && movable.contains(c.b) }
}

/// Some contact pushes an entity.
pub open spec fn any_push<P>(contacts: Seq<Contact<P>>, movable: Set<usize>) -> bool {
    exists|i: int|
        0 <= i < contacts.len() && (push_of(#[trigger] contacts[i], movable).a || push_of(
            contacts[i],
            movable,
        ).b)
}

/// `r` records one side of the contact `c`.
pub open spec fn side_of<P>(c: Contact<P>, r: ContactRecord<P>) -> bool {
    ||| (r.owner == c.a && r.other == c.b && r.point == c.on_a)
    ||| (r.owner == c.b && r.other == c.a && r.point == c.on_b)
}

/// Some point of the contact pair `pair` penetrates.
pub open spec fn pair_penetrates<P>(contacts: Seq<Contact<P>>, pair: usize) -> bool {
    exists|i: int| 0 <= i < contacts.len() && (#[trigger] contacts[i]).pair == pair && contacts[i].penetrating
}

/// `r` records one side of a contact of `contacts` whose pair penetrates.
pub open spec fn from_penetrating_pair<P>(contacts: Seq<Contact<P>>, r: ContactRecord<P>) -> bool {
    exists|i: int|
        0 <= i < contacts.len() && pair_penetrates(contacts, (#[trigger] contacts[i]).pair) && side_of(
            contacts[i],
            r,
        )
}

/// The records of the first `n` contacts: for each contact whose pair has a
/// penetrating point, its point on `a` kept for `a` against `b`, then its
/// point on `b` kept for `b` against `a`.
pub open spec fn records_upto<P>(contacts: Seq<Contact<P>>, n: int) -> Seq<ContactRecord<P>>
    decreases n,
{
    if n <= 0 {
        Seq::empty()
    } else {
        let rest = records_upto(contacts, n - 1);
        let c = contacts[n - 1];
        if pair_penetrates(contacts, c.pair) {
            rest.push(ContactRecord { owner: c.a, other: c.b, point: c.on_a }).push(
                ContactRecord { owner: c.b, other: c.a, point: c.on_b },
            )
        } else {
            rest
        }
    }
}

/// The records of a sequence of contacts, in order.
pub open spec fn records_of<P>(contacts: Seq<Contact<P>>) -> Seq<ContactRecord<P>> {
    records_upto(contacts, contacts.len() as int)
}

/// Each record of the first `n` contacts comes from a contact whose pair
/// penetrates.
proof fn lemma_records_sound<P>(contacts: Seq<Contact<P>>, n: int)
    requires
        0 <= n <= contacts.len(),
    ensures
        forall|j: int|
            0 <= j < records_upto(contacts, n).len() ==> from_penetrating_pair(
                contacts,
                #[trigger] records_upto(contacts, n)[j],
            ),
    decreases n,
{
    if n > 0 {
        lemma_records_sound(contacts, n - 1);
        let rr = records_upto(contacts, n - 1);
        let all = records_upto(contacts, n);
        assert forall|j: int| 0 <= j < all.len() implies from_penetrating_pair(contacts, #[trigger] all[j]) by {
            if j < rr.len() {
                assert(all[j] == rr[j]);
            } else {
                let c = contacts[n - 1];
                assert(pair_penetrates(contacts, c.pair) && side_of(c, all[j]));
            }
        }
    }
}

/// Each of the first `n` contacts whose pair penetrates leaves a record for
/// both of its entities.
proof fn lemma_records_complete<P>(contacts: Seq<Contact<P>>, n: int)
    requires
        0 <= n <= contacts.len(),
    ensures
        forall|i: int|
            0 <= i < n && pair_penetrates(contacts, (#[trigger] contacts[i]).pair) ==> records_upto(
                contacts,
                n,
            ).contains(
                ContactRecord { owner: contacts[i].a, other: contacts[i].b, point: contacts[i].on_a },
            ) && records_upto(contacts, n).contains(
                ContactRecord { owner: contacts[i].b, other: contacts[i].a, point: contacts[i].on_b },
            ),
    decreases n,
{
    if n > 0 {
        lemma_records_complete(contacts, n - 1);
        let rr = records_upto(contacts, n - 1);
        let all = records_upto(contacts, n);
        let c = contacts[n - 1];
        assert forall|i: int| 0 <= i < n && pair_penetrates(contacts, (#[trigger] contacts[i]).pair) implies all.contains(
            ContactRecord { owner: contacts[i].a, other: contacts[i].b, point: contacts[i].on_a },
        ) && all.contains(
            ContactRecord { owner: contacts[i].b, other: contacts[i].a, point: contacts[i].on_b },
        ) by {
            if i < n - 1 {
                let r1 = ContactRecord { owner: contacts[i].a, other: contacts[i].b, point: contacts[i].on_a };
                let r2 = ContactRecord { owner: contacts[i].b, other: contacts[i].a, point: contacts[i].on_b };
                let j1 = choose|j: int| 0 <= j < rr.len() && rr[j] == r1;
                let j2 = choose|j: int| 0 <= j < rr.len() && rr[j] == r2;
                if pair_penetrates(contacts, c.pair) {
                    assert(all[j1] == r1);
                    assert(all[j2] == r2);
                }
            } else {
                assert(all[all.len() - 2] == ContactRecord { owner: c.a, other: c.b, point: c.on_a });
                assert(all[all.len() - 1] == ContactRecord { owner: c.b, other: c.a, point: c.on_b });
            }
        }
    }
}

/// Contacts none of which penetrates leave no records.
proof fn lemma_records_none<P>(contacts: Seq<Contact<P>>, n: int)
    requires
        0 <= n <= contacts.len(),
        forall|i: int| 0 <= i < contacts.len() ==> !(#[trigger] contacts[i]).penetrating,
    ensures
        records_upto(contacts, n).len() == 0,
    decreases n,
{
    if n > 0 {
        lemma_records_none(contacts, n - 1);
        assert(!pair_penetrates(contacts, contacts[n - 1].pair));
    }
}

/// The records are exactly both sides of every point of the contact pairs
/// that have a penetrating point: each record comes from a point of such a
/// pair, each point of such a pair leaves a record for both of its
/// entities, and contacts none of which penetrates (no contacts at all, in
/// particular) leave no records.
#[verifier::spinoff_prover]
pub proof fn lemma_records_match_contacts<P>(contacts: Seq<Contact<P>>)
    ensures
        forall|j: int|
            0 <= j < records_of(contacts).len() ==> from_penetrating_pair(
                contacts,
                #[trigger] records_of(contacts)[j],
            ),
        forall|i: int|
            0 <= i < contacts.len() && pair_penetrates(contacts, (#[trigger] contacts[i]).pair)
                ==> records_of(contacts).contains(
                ContactRecord { owner: contacts[i].a, other: contacts[i].b, point: contacts[i].on_a },
            ) && records_of(contacts).contains(
                ContactRecord { owner: contacts[i].b, other: contacts[i].a, point: contacts[i].on_b },
            ),
        (forall|i: int| 0 <= i < contacts.len() ==> !(#[trigger] contacts[i]).penetrating)
            ==> records_of(contacts).len() == 0,
{
    let n = contacts.len() as int;
    let all = records_of(contacts);
    assert(all == records_upto(contacts, n));
    lemma_records_sound(contacts, n);
    lemma_records_complete(contacts, n);
    assert forall|j: int| 0 <= j < all.len() implies from_penetrating_pair(contacts, #[trigger] all[j]) by {
        assert(from_penetrating_pair(contacts, records_upto(contacts, n)[j]));
    }
    if forall|i: int| 0 <= i < contacts.len() ==> !(#[trigger] contacts[i]).penetrating {
        lemma_records_none(contacts, n);
    }
}

/// The state of the resolution loop within one tick.
pub struct Resolution {
    iteration: usize,
    dirty: bool,
}

impl Resolution {
    /// The number of passes run so far.
    pub closed spec fn passes(&self) -> nat {
        self.iteration as nat
    }

    /// Whether the last pass pushed anything.
    pub closed spec fn is_dirty(&self) -> bool {
        self.dirty
    }

    /// The loop goes on: fewer than `MAX_ITERATIONS` passes, and the last
    /// one, if any, pushed something.
    pub open spec fn goes_on(&self) -> bool {
        self.passes() < MAX_ITERATIONS && self.is_dirty()
    }

    /// A tick's loop before its first pass.
    pub fn new() -> (r: Resolution)
        ensures
            r.passes() == 0,
            r.is_dirty(),
    {
        Resolution { iteration: 0, dirty: true }
    }

    /// Whether another pass runs.
    pub fn running(&self) -> (r: bool)
        ensures
            r == self.goes_on(),
    {
        self.iteration < MAX_ITERATIONS && self.dirty
    }

    /// Whether this pass records its contacts: only the first one does.
    pub fn records_contacts(&self) -> (r: bool)
        ensures
            r == (self.passes() == 0),
    {
        self.iteration == 0
    }

    /// Runs the decisions of one pass over its contacts: which entities each
    /// contact pushes, given the entities that can move; the pass is dirty
    /// when it pushes anything.
    pub fn pass<P>(&mut self, contacts: &Vec<Contact<P>>, movable: &BTreeSet<usize>) -> (r: Vec<
        Push,
    >)
        requires
            old(self).goes_on(),
        ensures
            final(self).passes() == old(self).passes() + 1,
            final(self).is_dirty() == any_push(contacts@, movable@),
            r@.len() == contacts@.len(),
            forall|i: int| 0 <= i < r@.len() ==> r@[i] == push_of(#[trigger] contacts@[i], movable@),
    {
        let mut pushes: Vec<Push> = Vec::new();
        let mut dirty = false;
        let mut i: usize = 0;
        while i < contacts.len()
            invariant
                i <= contacts@.len(),
                pushes@.len() == i,
                forall|j: int| 0 <= j < i ==> pushes@[j] == push_of(#[trigger] contacts@[j], movable@),
                dirty == exists|j: int|
                    0 <= j < i && (push_of(#[trigger] contacts@[j], movable@).a || push_of(
                        contacts@[j],
                        movable@,
                    ).b),
            decreases contacts@.len() - i,
        {
            let c = &contacts[i];
            let push_a = c.penetrating && movable.contains(&c.a);
            let push_b = c.penetrating && movable.contains(&c.b);
            pushes.push(Push { a: push_a, b: push_b });
            if push_a || push_b {
                dirty = true;
            }
            i = i + 1;
        }
        self.iteration = self.iteration + 1;
        self.dirty = dirty;
        pushes
    }
}

/// The contacts of a pass as records for each entity, in order: every point
/// of each contact pair that has a penetrating point.
pub fn record_contacts<P: Copy>(contacts: &Vec<Contact<P>>) -> (r: Vec<ContactRecord<P>>)
    ensures
        r@ == records_of(contacts@),
{
    let mut pens: BTreeSet<usize> = BTreeSet::new();
    let mut k: usize = 0;
    while k < contacts.len()
        invariant
            k <= contacts@.len(),
            forall|p: usize|
                #[trigger] pens@.contains(p) <==> exists|i: int|
                    0 <= i < k && (#[trigger] contacts@[i]).pair == p && contacts@[i].penetrating,
        decreases contacts@.len() - k,
    {
        let c = &contacts[k];
        if c.penetrating {
            pens.insert(c.pair);
        }
        proof {
            assert forall|p: usize|
                #[trigger] pens@.contains(p) <==> exists|i: int|
                    0 <= i < k + 1 && (#[trigger] contacts@[i]).pair == p && contacts@[i].penetrating by {
                if pens@.contains(p) && !(exists|i: int|
                    0 <= i < k && (#[trigger] contacts@[i]).pair == p && contacts@[i].penetrating) {
                    assert(contacts@[k as int].pair == p && contacts@[k as int].penetrating);
                }
            }
        }
        k = k + 1;
    }
    let mut out: Vec<ContactRecord<P>> = Vec::new();
    let mut i: usize = 0;
    while i < contacts.len()
        invariant
            i <= contacts@.len(),
            forall|p: usize| #[trigger] pens@.contains(p) <==> pair_penetrates(contacts@, p),
            out@ == records_upto(contacts@, i as int),
        decreases contacts@.len() - i,
    {
        let c = &contacts[i];
        if pens.contains(&c.pair) {
            out.push(ContactRecord { owner: c.a, other: c.b, point: c.on_a });
            out.push(ContactRecord { owner: c.b, other: c.a, point: c.on_b });
        }
        i = i + 1;
    }
    out
}

/// An entity that cannot move is never pushed by any pass.
pub proof fn lemma_immovable_never_pushed<P>(contacts: Seq<Contact<P>>, movable: Set<usize>, e: usize)
    requires
        !movable.contains(e),
    ensures
        forall|i: int|
            0 <= i < contacts.len() ==> !(contacts[i].a == e && push_of(#[trigger] contacts[i], movable).a)
                && !(contacts[i].b == e && push_of(contacts[i], movable).b),
{
}

} // verus!
