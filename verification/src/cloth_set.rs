use vstd::prelude::*;

use crate::error::ClothError;
use crate::registry::{Registry, SlotKey};

verus! {

/// Includes arena identity as well as a generation, so handles from another
/// `ClothSet` cannot accidentally resolve even when indices coincide.
#[derive(Debug, Clone, Copy, PartialEq, Eq, Structural, PartialOrd, Ord, Hash)]
pub struct ClothHandle {
    set: u64,
    index: u32,
    generation: u32,
}

impl SlotKey for ClothHandle {
    closed spec fn owner(self) -> u64 {
        self.set
    }

    closed spec fn slot(self) -> u32 {
        self.index
    }

    closed spec fn generation_of(self) -> u32 {
        self.generation
    }

    closed spec fn from_parts(owner: u64, slot: u32, generation: u32) -> Self {
        ClothHandle { set: owner, index: slot, generation }
    }

    proof fn lemma_parts(owner: u64, slot: u32, generation: u32, h: Self) {
    }

    fn make(owner: u64, slot: u32, generation: u32) -> (r: Self) {
        ClothHandle { set: owner, index: slot, generation }
    }

    fn parts(&self) -> (r: (u64, u32, u32)) {
        (self.set, self.index, self.generation)
    }
}

impl ClothHandle {
    pub fn index(self) -> (r: u32)
        ensures
            r == self.slot(),
    {
        self.index
    }

    pub fn generation(self) -> (r: u32)
        ensures
            r == self.generation_of(),
    {
        self.generation
    }
}

/// Registry of cloths addressed by generational handles.
pub type ClothSet<C> = Registry<ClothHandle, C>;

impl<C> Registry<ClothHandle, C> {
    pub fn get(&self, h: ClothHandle) -> (r: Result<&C, ClothError>)
        ensures
            r is Ok <==> self@.contains_key(h),
            r matches Ok(c) ==> *c == self@[h],
            r matches Err(e) ==> e == ClothError::InvalidHandle,
    {
        match self.find(h) {
            Some(c) => Ok(c),
            None => Err(ClothError::InvalidHandle),
        }
    }

    pub fn get_mut(&mut self, h: ClothHandle) -> (r: Result<&mut C, ClothError>)
        ensures
            r is Ok <==> old(self)@.contains_key(h),
            r is Err ==> *final(self) == *old(self),
            r matches Err(e) ==> e == ClothError::InvalidHandle,
            r matches Ok(c) ==> {
                &&& *c == old(self)@[h]
                &&& final(self)@ == old(self)@.insert(h, *final(c))
                &&& old(self).same_slots(final(self))
            },
            old(self).evolves_to(final(self)),
    {
        match self.find_mut(h) {
            Some(c) => Ok(c),
            None => Err(ClothError::InvalidHandle),
        }
    }

    pub fn remove(&mut self, h: ClothHandle) -> (r: Result<C, ClothError>)
        ensures
            r is Ok <==> old(self)@.contains_key(h),
            r is Err ==> *final(self) == *old(self),
            r matches Err(e) ==> e == ClothError::InvalidHandle,
            r matches Ok(c) ==> {
                &&& c == old(self)@[h]
                &&& final(self)@ == old(self)@.remove(h)
                &&& final(self).retired(h)
                &&& old(self).frees_slot(h.slot() as int, final(self))
            },
            old(self).evolves_to(final(self)),
    {
        match self.take(h) {
            Some(c) => Ok(c),
            None => Err(ClothError::InvalidHandle),
        }
    }
}

} // verus!
