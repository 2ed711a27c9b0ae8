use vstd::prelude::*;

use crate::arena::{lemma_live_indices, next_generation, Slot, SlotArena};
use crate::identity::IdentityCounter;

verus! {

/// A generational handle: the identity of the registry that issued it, a
/// slot index, and the slot's generation when the value was stored.
pub trait SlotKey: Sized + Copy {
    /// Identity of the registry that issued the handle.
    spec fn owner(self) -> u64;

    spec fn slot(self) -> u32;

    spec fn generation_of(self) -> u32;

    /// The handle with these parts.
    spec fn from_parts(owner: u64, slot: u32, generation: u32) -> Self;

    /// A handle made of parts has those parts, and a handle is made of its
    /// own parts.
    proof fn lemma_parts(owner: u64, slot: u32, generation: u32, h: Self)
        ensures
            Self::from_parts(owner, slot, generation).owner() == owner,
            Self::from_parts(owner, slot, generation).slot() == slot,
            Self::from_parts(owner, slot, generation).generation_of() == generation,
            h == Self::from_parts(h.owner(), h.slot(), h.generation_of()),
    ;

    fn make(owner: u64, slot: u32, generation: u32) -> (r: Self)
        ensures
            r == Self::from_parts(owner, slot, generation),
    ;

    fn parts(&self) -> (r: (u64, u32, u32))
        ensures
            r == (self.owner(), self.slot(), self.generation_of()),
    ;
}

/// Values addressed by generational handles of type `K`. A handle carries
/// the registry's identity and its slot's generation, so a handle of
/// another registry, or one whose value was removed, never resolves.
pub struct Registry<K, T> {
    arena: SlotArena<T>,
    keys: core::marker::PhantomData<K>,
}

impl<K: SlotKey, T> View for Registry<K, T> {
    type V = Map<K, T>;

    /// The live values, by handle.
    closed spec fn view(&self) -> Map<K, T> {
        handle_map(self.arena)
    }
}

spec fn handle_map<K: SlotKey, T>(a: SlotArena<T>) -> Map<K, T> {
    Map::new(
        |h: K| a.resolves(h.owner(), h.slot(), h.generation_of()),
        |h: K| a.value_at(h.slot() as int),
    )
}

/// Overwriting the value of a live slot in place updates exactly one entry.
proof fn lemma_handle_map_overwrite<K: SlotKey, T>(a: SlotArena<T>, h: K)
    requires
        a.resolves(h.owner(), h.slot(), h.generation_of()),
    ensures
        forall|b: SlotArena<T>, v: T|
            #![trigger handle_map::<K, T>(b), handle_map::<K, T>(a).insert(h, v)]
            b.id() == a.id() && b.slots() == a.slots().update(
                h.slot() as int,
                Slot { generation: h.generation_of(), value: Some(v) },
            ) ==> handle_map::<K, T>(b) == handle_map::<K, T>(a).insert(h, v),
{
    assert forall|b: SlotArena<T>, v: T|
        #![trigger handle_map::<K, T>(b), handle_map::<K, T>(a).insert(h, v)]
        b.id() == a.id() && b.slots() == a.slots().update(
            h.slot() as int,
            Slot { generation: h.generation_of(), value: Some(v) },
        ) implies handle_map::<K, T>(b) == handle_map::<K, T>(a).insert(h, v) by {
        assert forall|g: K| #[trigger] handle_map::<K, T>(b).contains_key(g) implies handle_map::<K, T>(
            a,
        ).insert(h, v).contains_key(g) && handle_map::<K, T>(b)[g] == handle_map::<K, T>(a).insert(h, v)[g] by {
            K::lemma_parts(h.owner(), h.slot(), h.generation_of(), h);
            K::lemma_parts(g.owner(), g.slot(), g.generation_of(), g);
        }
        assert(handle_map::<K, T>(b) =~= handle_map::<K, T>(a).insert(h, v));
    }
}

impl<K: SlotKey, T> Registry<K, T> {
    /// Identity stamped into every handle of this registry.
    pub closed spec fn set_id(&self) -> u64 {
        self.arena.id()
    }

    /// Number of slots ever used; slots are never given back.
    pub closed spec fn slot_count(&self) -> nat {
        self.arena.slots().len()
    }

    /// The handle can never resolve again in this registry or in any state
    /// it evolves into: its slot has moved on to a later generation, or the
    /// slot is exhausted and empty.
    pub closed spec fn retired(&self, h: K) -> bool {
        self.arena.retired(h.owner(), h.slot(), h.generation_of())
    }

    /// An insertion can find a slot: a reusable slot or room for a new one.
    pub open spec fn has_room(&self) -> bool {
        ||| exists|i: int| self.reusable_slot(i)
        ||| self.slot_count() < u32::MAX
    }

    proof fn lemma_has_room(&self)
        ensures
            self.has_room() == self.arena.has_room(),
    {
        if exists|i: int| self.reusable_slot(i) {
            let i = choose|i: int| self.reusable_slot(i);
            assert(self.arena.reusable(i));
        }
        if exists|i: int| self.arena.reusable(i) {
            let i = choose|i: int| self.arena.reusable(i);
            assert(self.reusable_slot(i));
        }
    }

    /// Whether slot `i` holds a value.
    pub closed spec fn slot_live(&self, i: int) -> bool {
        self.arena.live_at(i)
    }

    /// Slot `i` is empty and its generation can still advance.
    pub open spec fn reusable_slot(&self, i: int) -> bool {
        &&& 0 <= i < self.slot_count()
        &&& !self.slot_live(i)
        &&& self.slot_generation(i) < u32::MAX
    }

    /// The slot index that the next insertion uses: the first empty slot
    /// whose generation can still advance, else a new slot at the end.
    pub open spec fn next_slot(&self, i: int) -> bool {
        &&& forall|k: int| 0 <= k < i ==> !#[trigger] self.reusable_slot(k)
        &&& (self.reusable_slot(i) || i == self.slot_count())
    }

    /// Same identity and the same slots: the slot count, which slots are
    /// live, every slot's generation, and which handles are retired.
    pub open spec fn same_slots(&self, other: &Self) -> bool {
        &&& self.set_id() == other.set_id()
        &&& self.slot_count() == other.slot_count()
        &&& forall|k: int| #[trigger] self.slot_live(k) == other.slot_live(k)
        &&& forall|k: int| #[trigger] self.slot_generation(k) == other.slot_generation(k)
        &&& forall|h: K| #[trigger] self.retired(h) == other.retired(h)
    }

    /// `next` is this registry with slot `i` filled (a new slot when `i` is
    /// the slot count); every generation is kept.
    pub open spec fn fills_slot(&self, i: int, next: &Self) -> bool {
        &&& next.slot_count() == (if i < self.slot_count() {
            self.slot_count()
        } else {
            self.slot_count() + 1
        })
        &&& next.slot_live(i)
        &&& forall|k: int| k != i ==> #[trigger] next.slot_live(k) == self.slot_live(k)
        &&& forall|k: int| #[trigger] next.slot_generation(k) == self.slot_generation(k)
    }

    /// `next` is this registry with slot `i` emptied and moved to its next
    /// generation; every other slot is kept.
    pub open spec fn frees_slot(&self, i: int, next: &Self) -> bool {
        &&& next.slot_count() == self.slot_count()
        &&& !next.slot_live(i)
        &&& next.slot_generation(i) == next_generation(self.slot_generation(i))
        &&& forall|k: int| k != i ==> #[trigger] next.slot_live(k) == self.slot_live(k)
        &&& forall|k: int| k != i ==> #[trigger] next.slot_generation(k) == self.slot_generation(k)
    }

    /// Generation stored in slot `i`.
    pub closed spec fn stored_generation(&self, i: int) -> u32 {
        self.arena.slots()[i].generation
    }

    /// Generation of slot `i`, or zero for a slot that does not exist yet.
    pub open spec fn slot_generation(&self, i: int) -> u32 {
        if 0 <= i < self.slot_count() {
            self.stored_generation(i)
        } else {
            0
        }
    }

    /// Live handles in slot order.
    pub closed spec fn live_handles(&self) -> Seq<K> {
        self.arena.live().map_values(
            |i: int| K::from_parts(self.arena.id(), i as u32, self.arena.slots()[i].generation),
        )
    }

    /// What every operation keeps: the identity, and retired handles.
    pub open spec fn evolves_to(&self, next: &Self) -> bool {
        &&& next.set_id() == self.set_id()
        &&& forall|h: K| #[trigger] self.retired(h) ==> next.retired(h)
    }

    /// An empty registry with a fresh identity from `ids`, or `None` when
    /// `ids` is exhausted.
    pub fn new(ids: &mut IdentityCounter) -> (r: Option<Self>)
        ensures
            old(ids)@ < u64::MAX ==> {
                &&& r is Some
                &&& r.unwrap().set_id() == old(ids)@
                &&& r.unwrap()@ == Map::<K, T>::empty()
                &&& r.unwrap().slot_count() == 0
                &&& final(ids)@ == old(ids)@ + 1
            },
            old(ids)@ == u64::MAX ==> r is None && final(ids)@ == old(ids)@,
    {
        match ids.allocate() {
            Some(identity) => {
                let r = Registry { arena: SlotArena::new(identity), keys: core::marker::PhantomData };
                assert(r@ =~= Map::<K, T>::empty());
                Some(r)
            },
            None => None,
        }
    }

    pub fn identity(&self) -> (r: u64)
        ensures
            r == self.set_id(),
    {
        self.arena.identity()
    }

    /// Whether `insert` can find a slot.
    pub fn can_insert(&self) -> (r: bool)
        ensures
            r == self.has_room(),
    {
        proof {
            self.lemma_has_room();
        }
        self.arena.has_room_now()
    }

    pub fn insert(&mut self, value: T) -> (r: K)
        requires
            old(self).has_room(),
        ensures
            old(self).evolves_to(final(self)),
            !old(self)@.contains_key(r),
            final(self)@ == old(self)@.insert(r, value),
            r.owner() == old(self).set_id(),
            old(self).next_slot(r.slot() as int),
            r.generation_of() == old(self).slot_generation(r.slot() as int),
            old(self).fills_slot(r.slot() as int, final(self)),
    {
        let ghost pre = self.arena;
        proof {
            self.lemma_has_room();
        }
        let (index, generation) = self.arena.insert(value);
        let r = K::make(self.arena.identity(), index, generation);
        proof {
            K::lemma_parts(self.arena.id(), index, generation, r);
            assert(!pre.live_at(index as int));
            assert forall|k: int| 0 <= k < index as int implies !#[trigger] old(self).reusable_slot(k) by {
                assert(!pre.reusable(k));
            }
            if (index as int) < pre.slots().len() {
                assert(pre.reusable(index as int));
            }
            assert(self@ =~= old(self)@.insert(r, value)) by {
                assert forall|h: K| #[trigger] self@.contains_key(h) implies old(self)@.insert(
                    r,
                    value,
                ).contains_key(h) && self@[h] == old(self)@.insert(r, value)[h] by {
                    K::lemma_parts(h.owner(), h.slot(), h.generation_of(), h);
                }
                assert forall|h: K| #[trigger] old(self)@.insert(r, value).contains_key(h) implies self@.contains_key(
                    h,
                ) by {
                    K::lemma_parts(h.owner(), h.slot(), h.generation_of(), h);
                }
            }
        }
        r
    }

    /// The value of a live handle.
    pub fn find(&self, h: K) -> (r: Option<&T>)
        ensures
            r is Some <==> self@.contains_key(h),
            r matches Some(v) ==> *v == self@[h],
    {
        let (owner, index, generation) = h.parts();
        self.arena.get(owner, index, generation)
    }

    /// The value of a live handle, for change in place.
    pub fn find_mut(&mut self, h: K) -> (r: Option<&mut T>)
        ensures
            r is Some <==> old(self)@.contains_key(h),
            r is None ==> *final(self) == *old(self),
            r matches Some(v) ==> {
                &&& *v == old(self)@[h]
                &&& final(self)@ == old(self)@.insert(h, *final(v))
                &&& old(self).same_slots(final(self))
            },
            old(self).evolves_to(final(self)),
    {
        proof {
            if self.arena.resolves(h.owner(), h.slot(), h.generation_of()) {
                lemma_handle_map_overwrite(self.arena, h);
            }
        }
        let (owner, index, generation) = h.parts();
        self.arena.get_mut(owner, index, generation)
    }

    /// Takes the value of a live handle out; its slot moves to the next
    /// generation, so the handle never resolves again.
    pub fn take(&mut self, h: K) -> (r: Option<T>)
        ensures
            r is Some <==> old(self)@.contains_key(h),
            r is None ==> *final(self) == *old(self),
            r matches Some(v) ==> {
                &&& v == old(self)@[h]
                &&& final(self)@ == old(self)@.remove(h)
                &&& final(self).retired(h)
                &&& old(self).frees_slot(h.slot() as int, final(self))
            },
            old(self).evolves_to(final(self)),
    {
        let (owner, index, generation) = h.parts();
        match self.arena.remove(owner, index, generation) {
            Some(v) => {
                proof {
                    assert forall|g: K| #[trigger] old(self)@.remove(h).contains_key(g) implies self@.contains_key(g) by {
                        K::lemma_parts(h.owner(), h.slot(), h.generation_of(), h);
                        K::lemma_parts(g.owner(), g.slot(), g.generation_of(), g);
                    }
                    assert(self@ =~= old(self)@.remove(h));
                }
                Some(v)
            },
            None => None,
        }
    }

    /// Live values with their handles, in slot order.
    pub fn iter(&self) -> (r: Vec<(K, &T)>)
        ensures
            r@.len() == self.live_handles().len(),
            forall|k: int|
                0 <= k < r@.len() ==> (#[trigger] r@[k]).0 == self.live_handles()[k] && *r@[k].1 == self@[r@[k].0],
            self.live_handles().to_set() == self@.dom(),
            self.live_handles().no_duplicates(),
    {
        let entries = self.arena.entries();
        proof {
            self.lemma_live_handles();
        }
        let mut out: Vec<(K, &T)> = Vec::new();
        let mut k: usize = 0;
        let identity = self.arena.identity();
        proof {
            lemma_live_indices(self.arena.slots());
        }
        while k < entries.len()
            invariant
                k <= entries@.len(),
                entries@.len() == self.arena.live().len(),
                identity == self.arena.id(),
                forall|j: int|
                    0 <= j < entries@.len() ==> {
                        let i = #[trigger] self.arena.live()[j];
                        &&& entries@[j].0 as int == i
                        &&& entries@[j].1 == self.arena.slots()[i].generation
                        &&& *entries@[j].2 == self.arena.value_at(i)
                    },
                forall|j: int|
                    0 <= j < self.arena.live().len() ==> 0 <= #[trigger] self.arena.live()[j]
                        < self.arena.slots().len() && self.arena.slots()[self.arena.live()[j]].value is Some,
                out@.len() == k,
                forall|j: int|
                    0 <= j < k ==> out@[j].0 == self.live_handles()[j] && *out@[j].1 == self@[out@[j].0],
            decreases entries@.len() - k,
        {
            let (index, generation, v) = entries[k];
            let h = K::make(identity, index, generation);
            proof {
                K::lemma_parts(identity, index, generation, h);
                let i = self.arena.live()[k as int];
                assert(self.live_handles()[k as int] == h);
                assert(self.arena.resolves(h.owner(), h.slot(), h.generation_of()));
                assert(self@.contains_key(h));
            }
            out.push((h, v));
            k += 1;
        }
        out
    }

    /// Number of live values.
    pub fn len(&self) -> (r: usize)
        ensures
            r == self.live_handles().len(),
            r == self@.len(),
    {
        let n = self.arena.len();
        proof {
            self.lemma_live_handles();
        }
        n
    }

    pub fn is_empty(&self) -> (r: bool)
        ensures
            r == (self@.len() == 0),
    {
        self.len() == 0
    }

    /// The live handles are exactly the keys of the view, each once.
    pub proof fn lemma_live_handles(&self)
        requires
            self.slot_count() <= u32::MAX,
        ensures
            self.live_handles().no_duplicates(),
            self.live_handles().to_set() == self@.dom(),
            self@.dom().finite(),
            self@.len() == self.live_handles().len(),
    {
        lemma_live_indices(self.arena.slots());
        let s = self.live_handles();
        let live = self.arena.live();
        let id = self.arena.id();
        assert forall|a: int, b: int| 0 <= a < s.len() && 0 <= b < s.len() && a != b implies s[a]
            != s[b] by {
            K::lemma_parts(id, live[a] as u32, self.arena.slots()[live[a]].generation, s[a]);
            K::lemma_parts(id, live[b] as u32, self.arena.slots()[live[b]].generation, s[b]);
            if a < b {
                assert(live[a] < live[b]);
            } else {
                assert(live[b] < live[a]);
            }
        }
        assert forall|h: K| #[trigger] self@.dom().contains(h) implies s.to_set().contains(h) by {
            K::lemma_parts(h.owner(), h.slot(), h.generation_of(), h);
            let i = h.slot() as int;
            assert(live.contains(i));
            let k = choose|k: int| 0 <= k < live.len() && live[k] == i;
            assert(s[k] == h);
        }
        assert forall|h: K| s.to_set().contains(h) implies #[trigger] self@.dom().contains(h) by {
            let k = choose|k: int| 0 <= k < s.len() && s[k] == h;
            assert(live[k] < self.arena.slots().len());
            K::lemma_parts(id, live[k] as u32, self.arena.slots()[live[k]].generation, h);
        }
        assert(s.to_set() =~= self@.dom());
        s.unique_seq_to_set();
    }

    /// A handle resolves in this registry exactly when it carries the
    /// registry's identity and names a live slot at that slot's current
    /// generation.
    pub proof fn lemma_handle_resolves(&self, h: K)
        ensures
            self@.contains_key(h) <==> {
                &&& h.owner() == self.set_id()
                &&& (h.slot() as int) < self.slot_count()
                &&& self.slot_live(h.slot() as int)
                &&& self.slot_generation(h.slot() as int) == h.generation_of()
            },
    {
    }

    /// Handles issued by another registry never resolve here.
    pub proof fn lemma_foreign_handle(&self, h: K)
        requires
            h.owner() != self.set_id(),
        ensures
            !self@.contains_key(h),
    {
    }

    /// A retired handle never resolves.
    pub proof fn lemma_retired_handle(&self, h: K)
        requires
            self.retired(h),
        ensures
            !self@.contains_key(h),
    {
    }
}

impl<K: SlotKey, T: Clone> Clone for Registry<K, T> {
    /// Same identity and the same slots; every value is cloned.
    fn clone(&self) -> (r: Self)
        ensures
            r.set_id() == self.set_id(),
            r@.dom() == self@.dom(),
            r.slot_count() == self.slot_count(),
            r.same_slots(self),
            forall|h| #[trigger] self@.contains_key(h) ==> cloned::<T>(self@[h], r@[h]),
    {
        let r = Registry { arena: self.arena.clone(), keys: core::marker::PhantomData };
        proof {
            assert(r@.dom() =~= self@.dom());
            assert forall|h| #[trigger] self@.contains_key(h) implies cloned::<T>(self@[h], r@[h]) by {
                assert(self.arena.slots()[h.slot() as int].value is Some);
            }
        }
        r
    }
}

} // verus!
