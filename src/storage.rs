//! Component storage: a sparse array from entities to values.

use vstd::prelude::*;

use crate::components::Entity;

verus! {

/// The values of one component, indexed by entity.
pub struct Storage<T> {
    slots: Vec<Option<T>>,
}

/// The entries of `slots` from index `from` on, in order of entity.
pub open spec fn entries_from<T>(slots: Seq<Option<T>>, from: int) -> Seq<(Entity, T)>
    decreases slots.len() - from,
{
    if from < 0 || from >= slots.len() {
        Seq::empty()
    } else {
        let rest = entries_from(slots, from + 1);
        match slots[from] {
            Some(v) => seq![(from as Entity, v)] + rest,
            None => rest,
        }
    }
}

impl<T> Storage<T> {
    /// The slots, one per entity up to the highest one ever given a value.
    pub closed spec fn slots(&self) -> Seq<Option<T>> {
        self.slots@
    }

    /// The value of each entity that has one.
    pub open spec fn view(&self) -> Map<Entity, T> {
        Map::new(
            |e: Entity| e < self.slots().len() && self.slots()[e as int] is Some,
            |e: Entity| self.slots()[e as int]->0,
        )
    }

    /// The entries in order of entity.
    pub open spec fn entries(&self) -> Seq<(Entity, T)> {
        entries_from(self.slots(), 0)
    }

    /// An empty storage.
    pub fn new() -> (r: Storage<T>)
        ensures
            r@ == Map::<Entity, T>::empty(),
            r.slots().len() == 0,
    {
        let r = Storage { slots: Vec::new() };
        assert(r@ =~= Map::<Entity, T>::empty());
        r
    }

    /// Whether `e` has a value.
    pub fn contains(&self, e: Entity) -> (r: bool)
        ensures
            r == self@.contains_key(e),
    {
        e < self.slots.len() && self.slots[e].is_some()
    }

    /// The value of `e`, if any.
    pub fn get(&self, e: Entity) -> (r: Option<&T>)
        ensures
            r is Some <==> self@.contains_key(e),
            r is Some ==> *r->0 == self@[e],
    {
        if e < self.slots.len() {
            match &self.slots[e] {
                Some(v) => Some(v),
                None => None,
            }
        } else {
            None
        }
    }

    /// Gives `e` the value `v`, replacing any earlier one.
    pub fn insert(&mut self, e: Entity, v: T)
        requires
            e < usize::MAX,
        ensures
            final(self)@ == old(self)@.insert(e, v),
            final(self).slots().len() == if old(self).slots().len() > e {
                old(self).slots().len() as int
            } else {
                e + 1
            },
    {
        while self.slots.len() <= e
            invariant
                e < usize::MAX,
                self@ == old(self)@,
                self.slots().len() >= old(self).slots().len(),
                self.slots().len() > old(self).slots().len() ==> self.slots().len() <= e + 1,
            decreases e + 1 - self.slots().len(),
        {
            let ghost before = self@;
            self.slots.push(None);
            assert(self@ =~= before);
        }
        self.slots.set(e, Some(v));
        assert(self@ =~= old(self)@.insert(e, v));
    }

    /// Takes the value of `e` away, returning it.
    pub fn remove(&mut self, e: Entity) -> (r: Option<T>)
        ensures
            final(self)@ == old(self)@.remove(e),
            r is Some <==> old(self)@.contains_key(e),
            r is Some ==> r->0 == old(self)@[e],
            final(self).slots().len() == old(self).slots().len(),
    {
        if e < self.slots.len() {
            let mut taken: Option<T> = None;
            self.slots.set_and_swap(e, &mut taken);
            assert(self@ =~= old(self)@.remove(e));
            taken
        } else {
            assert(self@ =~= old(self)@.remove(e));
            None
        }
    }

    /// The entities that have a value, in increasing order.
    pub fn keys(&self) -> (r: Vec<Entity>)
        ensures
            r@.len() == self.entries().len(),
            forall|k: int| 0 <= k < r@.len() ==> r@[k] == #[trigger] self.entries()[k].0,
            self.slots().len() <= usize::MAX,
    {
        let n = self.slots.len();
        let mut out: Vec<Entity> = Vec::new();
        let mut k: usize = 0;
        while k < n
            invariant
                n == self.slots().len(),
                k <= n,
                out@ + entries_from(self.slots(), k as int).map_values(|en: (Entity, T)| en.0)
                    == self.entries().map_values(|en: (Entity, T)| en.0),
            decreases n - k,
        {
            proof {
                lemma_entries_step(self.slots(), k as int);
            }
            if self.slots[k].is_some() {
                out.push(k);
            }
            proof {
                assert(out@ + entries_from(self.slots(), k + 1).map_values(|en: (Entity, T)| en.0)
                    =~= self.entries().map_values(|en: (Entity, T)| en.0));
            }
            k = k + 1;
        }
        proof {
            assert(entries_from(self.slots(), n as int) == Seq::<(Entity, T)>::empty());
            assert(out@ =~= self.entries().map_values(|en: (Entity, T)| en.0));
        }
        out
    }

    /// The keys of the view are exactly the entities of the entries, which are
    /// listed in increasing order.
    pub proof fn lemma_entries(&self)
        requires
            self.slots().len() <= usize::MAX,
        ensures
            forall|k: int| 0 <= k < self.entries().len() ==> self@.contains_key(#[trigger] self.entries()[k].0)
                && self@[self.entries()[k].0] == self.entries()[k].1,
            forall|i: int, j: int| 0 <= i < j < self.entries().len() ==> #[trigger] self.entries()[i].0
                < #[trigger] self.entries()[j].0,
            forall|e: Entity| #[trigger] self@.contains_key(e) ==> exists|k: int|
                0 <= k < self.entries().len() && #[trigger] self.entries()[k].0 == e,
    {
        lemma_entries_from(self.slots(), 0);
        assert forall|e: Entity| #[trigger] self@.contains_key(e) implies exists|k: int|
            0 <= k < self.entries().len() && #[trigger] self.entries()[k].0 == e by {
            let ei = e as int;
            assert(0 <= ei < self.slots().len());
            assert(self.slots()[ei] is Some);
            let k = choose|k: int| 0 <= k < entries_from(self.slots(), 0).len() && #[trigger] entries_from(self.slots(), 0)[k].0 == ei;
            assert(self.entries()[k].0 == e);
        }
    }

    /// Takes every value away, returning the entries in order of entity.
    pub fn drain(&mut self) -> (r: Vec<(Entity, T)>)
        ensures
            final(self)@ == Map::<Entity, T>::empty(),
            r@ == old(self).entries(),
            old(self).slots().len() <= usize::MAX,
    {
        let n = self.slots.len();
        let mut out: Vec<(Entity, T)> = Vec::new();
        let mut k: usize = 0;
        while k < n
            invariant
                n == self.slots().len(),
                n == old(self).slots().len(),
                k <= n,
                forall|j: int| 0 <= j < k ==> self.slots()[j] is None,
                forall|j: int| k <= j < n ==> self.slots()[j] == old(self).slots()[j],
                out@ + entries_from(old(self).slots(), k as int) == old(self).entries(),
            decreases n - k,
        {
            let mut taken: Option<T> = None;
            self.slots.set_and_swap(k, &mut taken);
            proof {
                lemma_entries_step(old(self).slots(), k as int);
            }
            match taken {
                Some(v) => {
                    out.push((k, v));
                },
                None => {},
            }
            proof {
                assert(out@ + entries_from(old(self).slots(), k + 1) =~= old(self).entries());
            }
            k = k + 1;
        }
        assert(self@ =~= Map::<Entity, T>::empty());
        proof {
            assert(entries_from(old(self).slots(), n as int) == Seq::<(Entity, T)>::empty());
            assert(out@ =~= old(self).entries());
        }
        out
    }
}

proof fn lemma_entries_step<T>(slots: Seq<Option<T>>, k: int)
    requires
        0 <= k < slots.len(),
    ensures
        entries_from(slots, k) == (match slots[k] {
            Some(v) => seq![(k as Entity, v)] + entries_from(slots, k + 1),
            None => entries_from(slots, k + 1),
        }),
{
}

/// Every entry of `entries_from(slots, from)` is a slot with a value, at an index
/// from `from` on, and the indices increase.
pub proof fn lemma_entries_from<T>(slots: Seq<Option<T>>, from: int)
    requires
        0 <= from,
        slots.len() <= usize::MAX,
    ensures
        forall|k: int|
            0 <= k < entries_from(slots, from).len() ==> from <= #[trigger] entries_from(slots, from)[k].0
                < slots.len() && slots[entries_from(slots, from)[k].0 as int] == Some(
                entries_from(slots, from)[k].1,
            ),
        forall|i: int, j: int|
            0 <= i < j < entries_from(slots, from).len() ==> #[trigger] entries_from(slots, from)[i].0
                < #[trigger] entries_from(slots, from)[j].0,
        forall|e: int|
            from <= e < slots.len() && #[trigger] slots[e] is Some ==> exists|k: int|
                0 <= k < entries_from(slots, from).len() && #[trigger] entries_from(slots, from)[k].0
                    == e,
    decreases slots.len() - from,
{
    if from < slots.len() {
        lemma_entries_from(slots, from + 1);
        let rest = entries_from(slots, from + 1);
        let all = entries_from(slots, from);
        lemma_entries_step(slots, from);
        match slots[from] {
            Some(v) => {
                assert(all == seq![(from as Entity, v)] + rest);
                assert forall|k: int| 0 <= k < all.len() implies from <= #[trigger] all[k].0 < slots.len()
                    && slots[all[k].0 as int] == Some(all[k].1) by {
                    if k > 0 {
                        assert(all[k] == rest[k - 1]);
                    }
                }
                assert forall|i: int, j: int| 0 <= i < j < all.len() implies #[trigger] all[i].0
                    < #[trigger] all[j].0 by {
                    assert(all[j] == rest[j - 1]);
                    if i > 0 {
                        assert(all[i] == rest[i - 1]);
                    } else {
                        assert(from + 1 <= rest[j - 1].0);
                    }
                }
                assert forall|e: int| from <= e < slots.len() && #[trigger] slots[e] is Some implies exists|k: int|
                    0 <= k < all.len() && #[trigger] all[k].0 == e by {
                    if e == from {
                        assert(all[0].0 == e);
                    } else {
                        let k = choose|k: int| 0 <= k < rest.len() && #[trigger] rest[k].0 == e;
                        assert(all[k + 1] == rest[k]);
                    }
                }
            },
            None => {
                assert(all == rest);
            },
        }
    }
}

} // verus!
