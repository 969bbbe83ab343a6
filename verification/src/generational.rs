use vstd::prelude::*;

verus! {

/// A generation-checked slot index: stable cross-references between entities
/// without shared ownership. An id stays valid until its slot is freed; a
/// reused slot carries a higher generation, so stale ids are rejected.
#[derive(Clone, Copy, PartialEq, Eq, Structural, Debug)]
pub struct Id {
    pub index: usize,
    pub generation: usize,
}

/// One slot of an arena: its current generation, and its value while
/// occupied.
pub struct ArenaSlot<T> {
    pub generation: usize,
    pub value: Option<T>,
}

/// A slot-indexed store keyed by generation-checked ids.
pub struct Arena<T> {
    slots: Vec<ArenaSlot<T>>,
}

/// Hands out fresh ids, one slot index after another. Generations leave room
/// for reusing freed slots while rejecting stale ids; this allocator never
/// reuses a slot, so every id it hands out carries generation zero.
pub struct IdAllocator {
    next_index: usize,
}

impl IdAllocator {
    pub closed spec fn next_index_spec(&self) -> nat {
        self.next_index as nat
    }

    pub fn new() -> (r: IdAllocator)
        ensures
            r.next_index_spec() == 0,
    {
        IdAllocator { next_index: 0 }
    }

    /// A fresh id. Returns `None` exactly when the index space is spent.
    pub fn allocate(&mut self) -> (r: Option<Id>)
        ensures
            r is Some ==> {
                &&& r->Some_0.index as nat == old(self).next_index_spec()
                &&& r->Some_0.index < usize::MAX
                &&& r->Some_0.generation == 0
                &&& final(self).next_index_spec() == old(self).next_index_spec() + 1
            },
            r is None <==> old(self).next_index_spec() == usize::MAX,
            r is None ==> *final(self) == *old(self),
    {
        if self.next_index < usize::MAX {
            let id = Id { index: self.next_index, generation: 0 };
            self.next_index = self.next_index + 1;
            return Some(id);
        }
        None
    }
}

impl<T> Arena<T> {
    pub closed spec fn slots_view(&self) -> Seq<ArenaSlot<T>> {
        self.slots@
    }

    /// Whether `id` names a live entry.
    pub open spec fn valid(&self, id: Id) -> bool {
        &&& id.index < self.slots_view().len()
        &&& self.slots_view()[id.index as int].generation == id.generation
        &&& self.slots_view()[id.index as int].value is Some
    }

    /// The entry `id` names.
    pub open spec fn spec_get(&self, id: Id) -> T
        recommends
            self.valid(id),
    {
        self.slots_view()[id.index as int].value->Some_0
    }

    pub fn new() -> (r: Arena<T>)
        ensures
            r.slots_view() == Seq::<ArenaSlot<T>>::empty(),
    {
        Arena { slots: Vec::new() }
    }

    pub fn contains(&self, id: Id) -> (r: bool)
        ensures
            r == self.valid(id),
    {
        id.index < self.slots.len() && self.slots[id.index].generation == id.generation
            && self.slots[id.index].value.is_some()
    }

    /// Stores `value` under `id`, growing the slot vector as needed.
    pub fn insert(&mut self, id: Id, value: T)
        requires
            id.index < usize::MAX,
        ensures
            final(self).valid(id),
            final(self).spec_get(id) == value,
            final(self).slots_view().len() == if old(self).slots_view().len() >= id.index + 1 {
                old(self).slots_view().len() as int
            } else {
                id.index + 1
            },
            forall|other: Id|
                other.index != id.index ==> (final(self).valid(other) <==> old(self).valid(
                    other,
                )),
            forall|other: Id|
                other.index != id.index && old(self).valid(other) ==> final(self).valid(other)
                    && final(self).spec_get(other) == old(self).spec_get(other),
    {
        while self.slots.len() <= id.index
            invariant
                id.index < usize::MAX,
                forall|other: Id|
                    #[trigger] self.valid(other) <==> old(self).valid(other),
                forall|other: Id|
                    old(self).valid(other) ==> #[trigger] self.valid(other) && self.spec_get(
                        other,
                    ) == old(self).spec_get(other),
                self.slots@.len() >= old(self).slots@.len(),
                forall|j: int|
                    0 <= j < old(self).slots@.len() ==> #[trigger] self.slots@[j] == old(
                        self,
                    ).slots@[j],
                forall|j: int|
                    old(self).slots@.len() <= j < self.slots@.len()
                        ==> (#[trigger] self.slots@[j]).value is None,
                self.slots@.len() <= id.index + 1 || self.slots@.len() == old(self).slots@.len(),
            decreases id.index + 1 - self.slots@.len(),
        {
            self.slots.push(ArenaSlot { generation: 0, value: None });
        }
        let ghost pre = self.slots@;
        self.slots.set(id.index, ArenaSlot { generation: id.generation, value: Some(value) });
        proof {
            assert(forall|j: int|
                0 <= j < pre.len() && j != id.index ==> #[trigger] self.slots@[j] == pre[j]);
        }
    }

    /// A reference to the entry `id` names.
    pub fn borrow(&self, id: Id) -> (r: &T)
        requires
            self.valid(id),
        ensures
            r == self.spec_get(id),
    {
        match &self.slots[id.index].value {
            Some(v) => v,
            None => vstd::pervasive::unreached(),
        }
    }

    /// Takes the entry out, leaving the slot empty under the same
    /// generation.
    pub fn take(&mut self, id: Id) -> (r: T)
        requires
            old(self).valid(id),
        ensures
            r == old(self).spec_get(id),
            !final(self).valid(id),
            final(self).slots_view().len() == old(self).slots_view().len(),
            final(self).slots_view()[id.index as int].generation == id.generation,
            forall|other: Id|
                other.index != id.index ==> (final(self).valid(other) <==> old(self).valid(
                    other,
                )),
            forall|other: Id|
                other.index != id.index && old(self).valid(other) ==> final(self).valid(other)
                    && final(self).spec_get(other) == old(self).spec_get(other),
    {
        let ghost pre = self.slots@;
        let g = self.slots[id.index].generation;
        self.slots.push(ArenaSlot { generation: g, value: None });
        let taken = self.slots.swap_remove(id.index);
        proof {
            assert(self.slots@ =~= pre.update(
                id.index as int,
                ArenaSlot { generation: g, value: None },
            ));
        }
        match taken.value {
            Some(v) => v,
            None => vstd::pervasive::unreached(),
        }
    }

    /// Puts an entry back under `id`.
    pub fn put(&mut self, id: Id, value: T)
        requires
            id.index < old(self).slots_view().len(),
            old(self).slots_view()[id.index as int].generation == id.generation,
        ensures
            final(self).valid(id),
            final(self).spec_get(id) == value,
            final(self).slots_view().len() == old(self).slots_view().len(),
            forall|other: Id|
                other.index != id.index ==> (final(self).valid(other) <==> old(self).valid(
                    other,
                )),
            forall|other: Id|
                other.index != id.index && old(self).valid(other) ==> final(self).valid(other)
                    && final(self).spec_get(other) == old(self).spec_get(other),
    {
        let ghost pre = self.slots@;
        self.slots.set(id.index, ArenaSlot { generation: id.generation, value: Some(value) });
        proof {
            assert(forall|j: int|
                0 <= j < pre.len() && j != id.index ==> #[trigger] self.slots@[j] == pre[j]);
        }
    }
}

} // verus!
