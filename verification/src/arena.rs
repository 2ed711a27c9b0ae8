use vstd::prelude::*;

verus! {

/// One slot of a generational arena: the generation of the value that lives
/// (or last lived) here, and the value while it is live.
pub struct Slot<T> {
    pub generation: u32,
    pub value: Option<T>,
}

/// Generational storage shared by the cloth and attachment registries.
///
/// A value is addressed by the arena identity, its slot index and the slot's
/// generation. Removing a value bumps the slot's generation (saturating), and
/// a slot whose generation reached `u32::MAX` is never filled again, so a
/// handle that stopped resolving can never resolve to a later value.
pub struct SlotArena<T> {
    identity: u64,
    slots: Vec<Slot<T>>,
}

/// Generation after a removal.
pub open spec fn next_generation(g: u32) -> u32 {
    if g < u32::MAX { (g + 1) as u32 } else { g }
}

/// Indices of the live slots of `s`, in slot order.
pub open spec fn live_indices<T>(s: Seq<Slot<T>>) -> Seq<int>
    decreases s.len(),
{
    if s.len() == 0 {
        Seq::empty()
    } else {
        let rest = live_indices(s.drop_last());
        if s.last().value is Some {
            rest.push(s.len() - 1)
        } else {
            rest
        }
    }
}

pub proof fn lemma_live_indices<T>(s: Seq<Slot<T>>)
    ensures
        forall|k: int|
            0 <= k < live_indices(s).len() ==> 0 <= #[trigger] live_indices(s)[k] < s.len()
                && s[live_indices(s)[k]].value is Some,
        forall|a: int, b: int|
            0 <= a < b < live_indices(s).len() ==> #[trigger] live_indices(s)[a]
                < #[trigger] live_indices(s)[b],
        forall|i: int|
            0 <= i < s.len() && s[i].value is Some ==> #[trigger] live_indices(s).contains(i),
    decreases s.len(),
{
    if s.len() > 0 {
        let p = s.drop_last();
        lemma_live_indices(p);
        if s.last().value is Some {
            assert(live_indices(s) == live_indices(p).push(s.len() - 1));
        } else {
            assert(live_indices(s) == live_indices(p));
        }
        assert forall|i: int| 0 <= i < s.len() && s[i].value is Some implies #[trigger] live_indices(
            s,
        ).contains(i) by {
            if i < s.len() - 1 {
                assert(p[i] == s[i]);
                assert(live_indices(p).contains(i));
                let k = choose|k: int| 0 <= k < live_indices(p).len() && live_indices(p)[k] == i;
                assert(live_indices(s)[k] == i);
            } else {
                assert(live_indices(s)[live_indices(s).len() - 1] == i);
            }
        }
    }
}

impl<T> SlotArena<T> {
    #[verifier::type_invariant]
    spec fn bounded(&self) -> bool {
        self.slots@.len() <= u32::MAX
    }

    pub closed spec fn id(&self) -> u64 {
        self.identity
    }

    pub closed spec fn slots(&self) -> Seq<Slot<T>> {
        self.slots@
    }

    pub open spec fn live_at(&self, i: int) -> bool {
        0 <= i < self.slots().len() && self.slots()[i].value is Some
    }

    pub open spec fn value_at(&self, i: int) -> T {
        self.slots()[i].value.unwrap()
    }

    /// The address `(identity, index, generation)` names a live value.
    pub open spec fn resolves(&self, identity: u64, index: u32, generation: u32) -> bool {
        &&& identity == self.id()
        &&& self.live_at(index as int)
        &&& self.slots()[index as int].generation == generation
    }

    /// The address can never resolve again: its slot moved to a later
    /// generation, or it is the last generation and its value is gone.
    pub open spec fn retired(&self, identity: u64, index: u32, generation: u32) -> bool {
        &&& identity == self.id()
        &&& (index as int) < self.slots().len()
        &&& {
            let s = self.slots()[index as int];
            ||| s.generation > generation
            ||| (s.generation == generation && generation == u32::MAX && s.value is None)
        }
    }

    /// An empty slot that can still take a value.
    pub open spec fn reusable(&self, i: int) -> bool {
        &&& 0 <= i < self.slots().len()
        &&& self.slots()[i].value is None
        &&& self.slots()[i].generation < u32::MAX
    }

    /// The slot an insertion fills: the first reusable slot, else a new one.
    pub open spec fn is_insertion_index(&self, i: int) -> bool {
        ||| (self.reusable(i) && forall|k: int| 0 <= k < i ==> !self.reusable(k))
        ||| (i == self.slots().len() && forall|k: int| 0 <= k < i ==> !self.reusable(k))
    }

    pub open spec fn has_room(&self) -> bool {
        ||| exists|i: int| self.reusable(i)
        ||| self.slots().len() < u32::MAX
    }

    pub open spec fn live(&self) -> Seq<int> {
        live_indices(self.slots())
    }

    /// What every operation preserves: identity, and retired addresses.
    pub open spec fn evolves_to(&self, next: &Self) -> bool {
        &&& next.id() == self.id()
        &&& self.slots().len() <= next.slots().len()
        &&& forall|id: u64, i: u32, g: u32| #[trigger]
            self.retired(id, i, g) ==> next.retired(id, i, g)
    }

    pub fn new(identity: u64) -> (r: Self)
        ensures
            r.id() == identity,
            r.slots() == Seq::<Slot<T>>::empty(),
    {
        SlotArena { identity, slots: Vec::new() }
    }

    pub fn identity(&self) -> (r: u64)
        ensures
            r == self.id(),
    {
        self.identity
    }

    pub fn has_room_now(&self) -> (r: bool)
        ensures
            r == self.has_room(),
    {
        if self.slots.len() < u32::MAX as usize {
            return true;
        }
        let mut i: usize = 0;
        while i < self.slots.len()
            invariant
                i <= self.slots@.len(),
                forall|k: int| 0 <= k < i ==> !self.reusable(k),
            decreases self.slots@.len() - i,
        {
            if self.slots[i].value.is_none() && self.slots[i].generation < u32::MAX {
                assert(self.reusable(i as int));
                return true;
            }
            i += 1;
        }
        false
    }

    fn insertion_index(&self) -> (r: usize)
        ensures
            self.is_insertion_index(r as int),
            r <= self.slots().len(),
    {
        let mut i: usize = 0;
        while i < self.slots.len()
            invariant
                i <= self.slots@.len(),
                forall|k: int| 0 <= k < i ==> !self.reusable(k),
            decreases self.slots@.len() - i,
        {
            if self.slots[i].value.is_none() && self.slots[i].generation < u32::MAX {
                return i;
            }
            i += 1;
        }
        i
    }

    /// Stores `value` in the first reusable slot, or a new slot at the end.
    pub fn insert(&mut self, value: T) -> (r: (u32, u32))
        requires
            old(self).has_room(),
        ensures
            old(self).evolves_to(final(self)),
            old(self).is_insertion_index(r.0 as int),
            final(self).slots() == (if (r.0 as int) < old(self).slots().len() {
                old(self).slots().update(
                    r.0 as int,
                    Slot { generation: r.1, value: Some(value) },
                )
            } else {
                old(self).slots().push(Slot { generation: r.1, value: Some(value) })
            }),
            (r.0 as int) < old(self).slots().len() ==> r.1 == old(self).slots()[r.0 as int].generation,
            (r.0 as int) == old(self).slots().len() ==> r.1 == 0,
    {
        proof {
            use_type_invariant(&*self);
        }
        let i = self.insertion_index();
        let mut slots: Vec<Slot<T>> = Vec::new();
        std::mem::swap(&mut slots, &mut self.slots);
        if i == slots.len() {
            proof {
                if exists|k: int| self.reusable(k) {
                    let k = choose|k: int| self.reusable(k);
                    assert(!self.reusable(k));
                }
            }
            slots.push(Slot { generation: 0, value: None });
        }
        let generation = slots[i].generation;
        slots.set(i, Slot { generation, value: Some(value) });
        self.slots = slots;
        (i as u32, generation)
    }

    pub fn get(&self, identity: u64, index: u32, generation: u32) -> (r: Option<&T>)
        ensures
            r is Some <==> self.resolves(identity, index, generation),
            r matches Some(v) ==> *v == self.value_at(index as int),
    {
        if identity != self.identity || index as usize >= self.slots.len() {
            return None;
        }
        let slot = &self.slots[index as usize];
        if slot.generation != generation {
            return None;
        }
        match &slot.value {
            Some(v) => Some(v),
            None => None,
        }
    }

    pub fn get_mut(&mut self, identity: u64, index: u32, generation: u32) -> (r: Option<&mut T>)
        ensures
            r is Some <==> old(self).resolves(identity, index, generation),
            r is None ==> *final(self) == *old(self),
            r matches Some(v) ==> {
                &&& *v == old(self).value_at(index as int)
                &&& final(self).id() == old(self).id()
                &&& final(self).slots() == old(self).slots().update(
                    index as int,
                    Slot { generation, value: Some(*final(v)) },
                )
            },
    {
        proof {
            use_type_invariant(&*self);
        }
        if identity != self.identity || index as usize >= self.slots.len() {
            return None;
        }
        if self.slots[index as usize].generation != generation || self.slots[index
            as usize].value.is_none() {
            return None;
        }
        let slot = &mut self.slots[index as usize];
        slot.value.as_mut()
    }

    /// Takes the value out and moves the slot to the next generation.
    pub fn remove(&mut self, identity: u64, index: u32, generation: u32) -> (r: Option<T>)
        ensures
            r is Some <==> old(self).resolves(identity, index, generation),
            r is None ==> *final(self) == *old(self),
            r matches Some(v) ==> {
                &&& v == old(self).value_at(index as int)
                &&& final(self).slots() == old(self).slots().update(
                    index as int,
                    Slot { generation: next_generation(generation), value: None },
                )
            },
            old(self).evolves_to(final(self)),
    {
        proof {
            use_type_invariant(&*self);
        }
        if identity != self.identity || index as usize >= self.slots.len() {
            return None;
        }
        if self.slots[index as usize].generation != generation || self.slots[index
            as usize].value.is_none() {
            return None;
        }
        let next = generation.saturating_add(1);
        let mut slot = Slot { generation: next, value: None };
        std::mem::swap(&mut slot, &mut self.slots[index as usize]);
        slot.value
    }

    /// Number of live values.
    pub fn len(&self) -> (r: usize)
        ensures
            r == self.live().len(),
            self.slots().len() <= u32::MAX,
    {
        proof {
            use_type_invariant(self);
        }
        let mut n: usize = 0;
        let mut i: usize = 0;
        while i < self.slots.len()
            invariant
                i <= self.slots@.len(),
                n == live_indices(self.slots@.take(i as int)).len(),
                n <= i,
            decreases self.slots@.len() - i,
        {
            assert(self.slots@.take(i + 1).drop_last() =~= self.slots@.take(i as int));
            if self.slots[i].value.is_some() {
                n += 1;
            }
            i += 1;
        }
        assert(self.slots@.take(i as int) =~= self.slots@);
        n
    }

    /// The live values in slot order, with their slot indices and generations.
    pub fn entries(&self) -> (r: Vec<(u32, u32, &T)>)
        ensures
            self.slots().len() <= u32::MAX,
            r@.len() == self.live().len(),
            forall|k: int|
                0 <= k < r@.len() ==> {
                    let i = #[trigger] self.live()[k];
                    &&& r@[k].0 as int == i
                    &&& r@[k].1 == self.slots()[i].generation
                    &&& *r@[k].2 == self.value_at(i)
                },
    {
        proof {
            use_type_invariant(self);
        }
        let mut out: Vec<(u32, u32, &T)> = Vec::new();
        let mut i: usize = 0;
        while i < self.slots.len()
            invariant
                i <= self.slots@.len(),
                self.slots@.len() <= u32::MAX + 1,
                out@.len() == live_indices(self.slots@.take(i as int)).len(),
                forall|k: int|
                    0 <= k < out@.len() ==> {
                        let j = #[trigger] live_indices(self.slots@.take(i as int))[k];
                        &&& out@[k].0 as int == j
                        &&& out@[k].1 == self.slots@[j].generation
                        &&& *out@[k].2 == self.slots@[j].value.unwrap()
                    },
            decreases self.slots@.len() - i,
        {
            let ghost prev = self.slots@.take(i as int);
            assert(self.slots@.take(i + 1).drop_last() =~= prev);
            let slot = &self.slots[i];
            match &slot.value {
                Some(v) => {
                    out.push((i as u32, slot.generation, v));
                },
                None => {},
            }
            i += 1;
        }
        assert(self.slots@.take(i as int) =~= self.slots@);
        out
    }
}

/// Slots with the same generations and the same occupied positions.
pub open spec fn same_layout<T>(a: Seq<Slot<T>>, b: Seq<Slot<T>>) -> bool {
    &&& a.len() == b.len()
    &&& forall|i: int|
        0 <= i < a.len() ==> (#[trigger] a[i]).generation == b[i].generation && (a[i].value is Some
            <==> b[i].value is Some)
}

impl<T: Clone> Clone for SlotArena<T> {
    /// Copies the slot layout and clones every live value.
    fn clone(&self) -> (r: Self)
        ensures
            r.id() == self.id(),
            same_layout(r.slots(), self.slots()),
            forall|i: int|
                0 <= i < self.slots().len() && self.slots()[i].value is Some ==> cloned::<T>(
                    self.slots()[i].value.unwrap(),
                    #[trigger] r.slots()[i].value.unwrap(),
                ),
    {
        proof {
            use_type_invariant(self);
        }
        let mut slots: Vec<Slot<T>> = Vec::new();
        let mut i: usize = 0;
        while i < self.slots.len()
            invariant
                i <= self.slots@.len(),
                self.slots@.len() <= u32::MAX,
                slots@.len() == i,
                forall|k: int|
                    0 <= k < i ==> (#[trigger] slots@[k]).generation == self.slots@[k].generation && (
                    slots@[k].value is Some <==> self.slots@[k].value is Some),
                forall|k: int|
                    0 <= k < i && self.slots@[k].value is Some ==> cloned::<T>(
                        self.slots@[k].value.unwrap(),
                        #[trigger] slots@[k].value.unwrap(),
                    ),
            decreases self.slots@.len() - i,
        {
            let value = match &self.slots[i].value {
                Some(v) => Some(v.clone()),
                None => None,
            };
            slots.push(Slot { generation: self.slots[i].generation, value });
            i += 1;
        }
        SlotArena { identity: self.identity, slots }
    }
}

} // verus!
