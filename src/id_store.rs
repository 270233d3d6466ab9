//! Pools of small integer identifiers.
use std::collections::BTreeMap;
use std::collections::HashSet;
use vstd::prelude::*;

verus! {

broadcast use vstd::std_specs::btree::group_btree_axioms;

/// `id` is the smallest identifier outside `used`.
pub open spec fn is_smallest_free(used: Set<usize>, id: usize) -> bool {
    &&& !used.contains(id)
    &&& forall|i: usize| i < id ==> #[trigger] used.contains(i)
}

/// The smallest identifier outside `used`.
pub open spec fn smallest_free(used: Set<usize>) -> usize {
    choose|id: usize| is_smallest_free(used, id)
}

/// There is only one smallest free identifier.
pub proof fn lemma_smallest_free_unique(used: Set<usize>, id: usize)
    requires
        is_smallest_free(used, id),
    ensures
        smallest_free(used) == id,
{
    let c = smallest_free(used);
    assert(is_smallest_free(used, c));
    if c < id {
        assert(used.contains(c));
    } else if id < c {
        assert(used.contains(id));
    }
}

/// The identifiers below `n`.
pub open spec fn ids_below(n: usize) -> Set<usize> {
    Set::new(|i: usize| i < n)
}

/// The identifiers below `n` are a finite set of `n` elements.
pub proof fn lemma_ids_below_len(n: usize)
    ensures
        ids_below(n).finite(),
        ids_below(n).len() == n,
    decreases n,
{
    if n == 0 {
        assert(ids_below(0) =~= Set::<usize>::empty());
    } else {
        let m = (n - 1) as usize;
        lemma_ids_below_len(m);
        assert(ids_below(n) =~= ids_below(m).insert(m));
    }
}

/// A pool that holds every identifier up to `n` holds more than `n` of them.
pub proof fn lemma_holds_prefix(used: Set<usize>, n: usize, len: usize)
    requires
        used.finite(),
        used.len() == len,
        forall|i: usize| i <= n ==> #[trigger] used.contains(i),
    ensures
        n < len,
{
    lemma_ids_below_len(n);
    assert(ids_below(n).insert(n).subset_of(used));
    vstd::set_lib::lemma_len_subset(ids_below(n).insert(n), used);
}

/// Some identifier is free when fewer than `usize::MAX` are in use, and then
/// there is a smallest free one.
pub proof fn lemma_smallest_free_exists(used: Set<usize>)
    requires
        used.finite(),
        used.len() < usize::MAX,
    ensures
        is_smallest_free(used, smallest_free(used)),
{
    if forall|i: usize| i <= (usize::MAX - 1) as usize ==> #[trigger] used.contains(i) {
        lemma_holds_prefix(used, (usize::MAX - 1) as usize, used.len() as usize);
    }
    let f = choose|f: usize| f <= usize::MAX - 1 && !used.contains(f);
    lemma_smallest_below(used, f);
}

proof fn lemma_smallest_below(used: Set<usize>, f: usize)
    requires
        !used.contains(f),
    ensures
        is_smallest_free(used, smallest_free(used)),
    decreases f,
{
    if forall|i: usize| i < f ==> #[trigger] used.contains(i) {
        assert(is_smallest_free(used, f));
    } else {
        let g = choose|g: usize| g < f && !used.contains(g);
        lemma_smallest_below(used, g);
    }
}

/// A pool of identifiers that always hands out the smallest free one.
pub struct IdStore {
    used: HashSet<usize>,
    next: usize,
}

impl View for IdStore {
    type V = Set<usize>;

    /// The identifiers currently handed out.
    closed spec fn view(&self) -> Set<usize> {
        self.used@
    }
}

impl IdStore {
    /// `next` is the smallest identifier not handed out.
    pub closed spec fn wf(&self) -> bool {
        &&& self.used@.finite()
        &&& !self.used@.contains(self.next)
        &&& forall|i: usize| i < self.next ==> #[trigger] self.used@.contains(i)
    }

    /// The number of identifiers handed out.
    pub open spec fn count(&self) -> nat {
        self@.len()
    }

    /// An empty pool.
    pub fn new() -> (r: IdStore)
        ensures
            r.wf(),
            r@ == Set::<usize>::empty(),
    {
        IdStore { used: HashSet::new(), next: 0 }
    }

    /// Hands out the smallest identifier that is not in use.
    pub fn get(&mut self) -> (id: usize)
        requires
            old(self).wf(),
        ensures
            final(self).wf(),
            is_smallest_free(old(self)@, id),
            final(self)@ == old(self)@.insert(id),
    {
        let id = self.next;
        self.used.insert(id);
        self.next = self.next_after_add(id);
        id
    }

    /// Returns `id` to the pool; releasing a free identifier changes nothing.
    pub fn release(&mut self, id: usize)
        requires
            old(self).wf(),
        ensures
            final(self).wf(),
            final(self)@ == old(self)@.remove(id),
    {
        self.used.remove(&id);
        if id < self.next {
            self.next = id;
        }
    }

    /// The smallest identifier above `added` that is not in use.
    fn next_after_add(&self, added: usize) -> (r: usize)
        requires
            self.used@.finite(),
            self.used@.contains(added),
            forall|i: usize| i < added ==> #[trigger] self.used@.contains(i),
        ensures
            r > added,
            !self.used@.contains(r),
            forall|i: usize| i < r ==> #[trigger] self.used@.contains(i),
    {
        proof {
            lemma_holds_prefix(self.used@, added, self.used.len());
        }
        let mut next = added + 1;
        while self.used.contains(&next)
            invariant
                self.used@.finite(),
                next > added,
                forall|i: usize| i < next ==> #[trigger] self.used@.contains(i),
            decreases usize::MAX - next,
        {
            proof {
                lemma_holds_prefix(self.used@, next, self.used.len());
            }
            next = next + 1;
        }
        next
    }
}

/// What `IdMap::get` does to a map from keys to identifiers, and what it returns.
pub open spec fn map_get<T>(m: Map<T, usize>, key: T) -> (Map<T, usize>, usize) {
    if m.contains_key(key) {
        (m, m[key])
    } else {
        let id = smallest_free(m.values());
        (m.insert(key, id), id)
    }
}

/// Asking twice for the same key, with no release in between, gives the
/// same identifier and leaves the map as the first call left it.
pub proof fn lemma_get_twice<T>(m: Map<T, usize>, key: T)
    ensures
        map_get(map_get(m, key).0, key) == map_get(m, key),
{
}

/// Assigns pool identifiers to keys, one identifier per key.
pub struct IdMap<T> {
    store: IdStore,
    ids: BTreeMap<T, usize>,
}

impl<T> View for IdMap<T> {
    type V = Map<T, usize>;

    /// The identifier held by each key.
    closed spec fn view(&self) -> Map<T, usize> {
        self.ids@
    }
}

impl<T: Ord + Copy> IdMap<T> {
    /// Distinct keys hold distinct identifiers, and the pool has handed out
    /// exactly the identifiers the keys hold.
    pub closed spec fn wf(&self) -> bool {
        &&& vstd::laws_cmp::obeys_cmp::<T>()
        &&& self.store.wf()
        &&& self.ids@.dom().finite()
        &&& self.store@ == self.ids@.values()
        &&& self.ids@.is_injective()
    }

    /// Distinct keys hold distinct identifiers.
    pub proof fn lemma_wf(&self)
        requires
            self.wf(),
        ensures
            vstd::laws_cmp::obeys_cmp::<T>(),
            self@.is_injective(),
            self@.dom().finite(),
            self@.len() == self.count(),
            self@.len() <= usize::MAX,
    {
        self.ids@.lemma_injective_values_len();
        assert(self.store.used.len() == self.store.used@.len());
    }

    /// The number of keys that hold an identifier.
    pub closed spec fn count(&self) -> nat {
        self.store.count()
    }

    /// An empty map.
    pub fn new() -> (r: IdMap<T>)
        requires
            vstd::laws_cmp::obeys_cmp::<T>(),
        ensures
            r.wf(),
            r@ == Map::<T, usize>::empty(),
    {
        let r = IdMap { store: IdStore::new(), ids: BTreeMap::new() };
        assert(r.ids@.values() =~= Set::<usize>::empty());
        r
    }

    /// The identifier of `key`; a key without one gets the smallest
    /// identifier that no key holds.
    pub fn get(&mut self, key: T) -> (id: usize)
        requires
            old(self).wf(),
        ensures
            final(self).wf(),
            (final(self)@, id) == map_get(old(self)@, key),
            !old(self)@.contains_key(key) ==> is_smallest_free(old(self)@.values(), id),
    {
        match self.ids.get(&key) {
            Some(i) => *i,
            None => {
                let id = self.store.get();
                self.ids.insert(key, id);
                proof {
                    lemma_smallest_free_unique(old(self)@.values(), id);
                    let m = old(self)@;
                    assert(!m.contains_key(key));
                    assert(self.ids@ == m.insert(key, id));
                    assert(self.ids@.values() =~= m.values().insert(id)) by {
                        assert(self.ids@.contains_key(key) && self.ids@[key] == id);
                        assert(self.ids@.values().contains(id));
                        assert forall|v: usize| #[trigger] m.values().contains(v) implies self.ids@.values().contains(v) by {
                            let k = choose|k: T| m.contains_key(k) && m[k] == v;
                            assert(self.ids@.contains_key(k) && self.ids@[k] == v);
                        }
                        assert forall|v: usize| #[trigger] self.ids@.values().contains(v)
                            implies v == id || m.values().contains(v) by {
                            let k = choose|k: T| self.ids@.contains_key(k) && self.ids@[k] == v;
                            if k != key {
                                assert(m.contains_key(k) && m[k] == v);
                            }
                        }
                    }
                    assert(self.ids@.is_injective()) by {
                        assert forall|a: T, b: T|
                            self.ids@.contains_key(a) && self.ids@.contains_key(b) && a != b
                            implies #[trigger] self.ids@[a] != #[trigger] self.ids@[b] by {
                            if a != key && b != key {
                                assert(m.is_injective());
                            } else if a == key {
                                assert(m.values().contains(m[b]));
                            } else {
                                assert(m.values().contains(m[a]));
                            }
                        }
                    }
                }
                id
            },
        }
    }

    /// Drops the identifier of `key` and returns it to the pool; a key
    /// without one changes nothing.
    pub fn release(&mut self, key: T)
        requires
            old(self).wf(),
        ensures
            final(self).wf(),
            final(self)@ == old(self)@.remove(key),
    {
        if let Some(i) = self.ids.remove(&key) {
            self.store.release(i);
            proof {
                let m = old(self)@;
                assert(self.ids@.values() =~= m.values().remove(i)) by {
                    assert forall|v: usize| #[trigger] m.values().contains(v) && v != i
                        implies self.ids@.values().contains(v) by {
                        let k = choose|k: T| m.contains_key(k) && m[k] == v;
                        assert(k != key);
                        assert(self.ids@.contains_key(k) && self.ids@[k] == v);
                    }
                    assert forall|v: usize| #[trigger] self.ids@.values().contains(v)
                        implies v != i by {
                        let k = choose|k: T| self.ids@.contains_key(k) && self.ids@[k] == v;
                        assert(m.contains_key(k) && k != key);
                    }
                }
            }
        } else {
            assert(old(self)@.remove(key) =~= old(self)@);
        }
    }
}

} // verus!
