use vstd::prelude::*;

use crate::cloth_set::ClothHandle;
use crate::registry::{Registry, SlotKey};
use crate::scene::RawHandle;

verus! {

/// Like cloth handles, attachment handles carry the arena identity and the
/// slot generation, so a stale or foreign handle never reaches a live entry.
#[derive(Debug, Clone, Copy, PartialEq, Eq, Structural, PartialOrd, Ord, Hash)]
pub struct AttachmentHandle {
    arena: u64,
    index: u32,
    generation: u32,
}

impl SlotKey for AttachmentHandle {
    closed spec fn owner(self) -> u64 {
        self.arena
    }

    closed spec fn slot(self) -> u32 {
        self.index
    }

    closed spec fn generation_of(self) -> u32 {
        self.generation
    }

    closed spec fn from_parts(owner: u64, slot: u32, generation: u32) -> Self {
        AttachmentHandle { arena: owner, index: slot, generation }
    }

    proof fn lemma_parts(owner: u64, slot: u32, generation: u32, h: Self) {
    }

    fn make(owner: u64, slot: u32, generation: u32) -> (r: Self) {
        AttachmentHandle { arena: owner, index: slot, generation }
    }

    fn parts(&self) -> (r: (u64, u32, u32)) {
        (self.arena, self.index, self.generation)
    }
}

impl AttachmentHandle {
    pub fn index(self) -> (r: u32)
        ensures
            r == self.slot(),
    {
        self.index
    }

    pub fn generation(self) -> (r: u32)
        ensures
            r == self.generation_of(),
    {
        self.generation
    }
}

/// Registry of attachments addressed by generational handles.
pub type Attachments<D> = Registry<AttachmentHandle, D>;

impl<D> Registry<AttachmentHandle, D> {
    pub fn get(&self, h: AttachmentHandle) -> (r: Option<&D>)
        ensures
            r is Some <==> self@.contains_key(h),
            r matches Some(d) ==> *d == self@[h],
    {
        self.find(h)
    }

    pub fn remove(&mut self, h: AttachmentHandle) -> (r: Option<D>)
        ensures
            r is Some <==> old(self)@.contains_key(h),
            r is None ==> *final(self) == *old(self),
            r matches Some(d) ==> {
                &&& d == old(self)@[h]
                &&& final(self)@ == old(self)@.remove(h)
                &&& final(self).retired(h)
                &&& old(self).frees_slot(h.slot() as int, final(self))
            },
            old(self).evolves_to(final(self)),
    {
        self.take(h)
    }
}

/// One attached particle and its anchor in the body's local frame.
pub struct AttachmentPoint<A> {
    pub particle: u32,
    /// Position in the parent rigid body's coordinate system.
    pub local_anchor: A,
}

impl<A: Clone> Clone for AttachmentPoint<A> {
    fn clone(&self) -> (r: Self)
        ensures
            r.particle == self.particle,
            cloned::<A>(self.local_anchor, r.local_anchor),
    {
        AttachmentPoint { particle: self.particle, local_anchor: self.local_anchor.clone() }
    }
}

/// Particles of a cloth held by a rigid body. `body` and the excluded
/// colliders are handles given by their (index, generation) parts; only
/// the listed collider/attached-particle pairs are excluded from contact.
pub struct AttachmentDesc<A, R> {
    pub cloth: ClothHandle,
    pub body: RawHandle,
    pub points: Vec<AttachmentPoint<A>>,
    pub compliance: R,
    pub excluded_colliders: Vec<RawHandle>,
}

/// Same cloth, body, particles (in order) and excluded colliders.
pub open spec fn same_links<A, R>(a: AttachmentDesc<A, R>, b: AttachmentDesc<A, R>) -> bool {
    &&& a.cloth == b.cloth
    &&& a.body == b.body
    &&& a.excluded_colliders@ == b.excluded_colliders@
    &&& a.points@.len() == b.points@.len()
    &&& forall|i: int| 0 <= i < a.points@.len() ==> (#[trigger] a.points@[i]).particle == b.points@[i].particle
}

impl<A: Clone, R: Clone> Clone for AttachmentDesc<A, R> {
    /// Same links; anchors and compliance are cloned.
    fn clone(&self) -> (r: Self)
        ensures
            same_links(r, *self),
            cloned::<R>(self.compliance, r.compliance),
            forall|i: int|
                0 <= i < self.points@.len() ==> cloned::<A>(
                    self.points@[i].local_anchor,
                    (#[trigger] r.points@[i]).local_anchor,
                ),
    {
        let mut points: Vec<AttachmentPoint<A>> = Vec::new();
        let mut i: usize = 0;
        while i < self.points.len()
            invariant
                i <= self.points@.len(),
                points@.len() == i,
                forall|k: int| 0 <= k < i ==> (#[trigger] points@[k]).particle == self.points@[k].particle,
                forall|k: int|
                    0 <= k < i ==> cloned::<A>(self.points@[k].local_anchor, (#[trigger] points@[k]).local_anchor),
            decreases self.points@.len() - i,
        {
            points.push(self.points[i].clone());
            i += 1;
        }
        let mut excluded: Vec<RawHandle> = Vec::new();
        let mut j: usize = 0;
        while j < self.excluded_colliders.len()
            invariant
                j <= self.excluded_colliders@.len(),
                excluded@ == self.excluded_colliders@.take(j as int),
            decreases self.excluded_colliders@.len() - j,
        {
            excluded.push(self.excluded_colliders[j]);
            j += 1;
            proof {
                assert(excluded@ =~= self.excluded_colliders@.take(j as int));
            }
        }
        proof {
            assert(excluded@ =~= self.excluded_colliders@);
        }
        AttachmentDesc {
            cloth: self.cloth,
            body: self.body,
            points,
            compliance: self.compliance.clone(),
            excluded_colliders: excluded,
        }
    }
}

#[derive(Debug, Clone, Copy, PartialEq, Eq, Structural)]
pub enum AttachmentEventKind {
    Released,
    ClothRemoved,
    BodyRemoved,
    BodyDisabled,
}

#[derive(Debug, Clone, Copy, PartialEq, Eq)]
pub struct AttachmentEvent {
    pub handle: AttachmentHandle,
    pub cloth: ClothHandle,
    pub body: RawHandle,
    pub kind: AttachmentEventKind,
}

} // verus!
