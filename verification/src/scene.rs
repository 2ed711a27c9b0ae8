use vstd::prelude::*;

use crate::identity::WorldId;
use std::collections::BTreeMap;

verus! {

broadcast use {vstd::std_specs::btree::group_btree_axioms, vstd::laws_cmp::group_laws_cmp};

/// Handle of a rigid body or collider, as its (index, generation) parts.
pub type RawHandle = (u32, u32);

/// The map that a list of `(handle, pose)` entries describes; a later entry
/// for the same handle replaces an earlier one.
pub open spec fn pose_map<P>(entries: Seq<(RawHandle, P)>) -> Map<RawHandle, P>
    decreases entries.len(),
{
    if entries.len() == 0 {
        Map::empty()
    } else {
        pose_map(entries.drop_last()).insert(entries.last().0, entries.last().1)
    }
}

/// A map with the poses of `entries`, the last entry of a handle winning.
fn index_poses<P: Copy>(entries: &Vec<(RawHandle, P)>) -> (r: BTreeMap<RawHandle, P>)
    ensures
        r@ == pose_map(entries@),
{
    let mut out: BTreeMap<RawHandle, P> = BTreeMap::new();
    let mut i: usize = 0;
    while i < entries.len()
        invariant
            i <= entries@.len(),
            out@ == pose_map(entries@.take(i as int)),
        decreases entries@.len() - i,
    {
        let (k, v) = entries[i];
        proof {
            assert(entries@.take(i + 1).drop_last() =~= entries@.take(i as int));
        }
        out.insert(k, v);
        i += 1;
    }
    assert(entries@.take(i as int) =~= entries@);
    out
}

/// Rigid-body and collider poses captured before the external physics
/// engine advances one substep. `step` is the external substep number,
/// starting at zero.
#[derive(Debug)]
pub struct SceneSnapshot<P> {
    world: WorldId,
    step: u64,
    bodies: BTreeMap<RawHandle, P>,
    colliders: BTreeMap<RawHandle, P>,
}

impl<P: Copy> SceneSnapshot<P> {
    pub closed spec fn world_spec(&self) -> WorldId {
        self.world
    }

    pub closed spec fn step_spec(&self) -> u64 {
        self.step
    }

    pub closed spec fn body_poses(&self) -> Map<RawHandle, P> {
        self.bodies@
    }

    pub closed spec fn collider_poses(&self) -> Map<RawHandle, P> {
        self.colliders@
    }

    /// Records the poses of every body and collider, keyed by handle parts.
    pub fn capture(
        world: WorldId,
        step: u64,
        bodies: &Vec<(RawHandle, P)>,
        colliders: &Vec<(RawHandle, P)>,
    ) -> (r: Self)
        ensures
            r.world_spec() == world,
            r.step_spec() == step,
            r.body_poses() == pose_map(bodies@),
            r.collider_poses() == pose_map(colliders@),
    {
        SceneSnapshot { world, step, bodies: index_poses(bodies), colliders: index_poses(colliders) }
    }

    pub fn world_id(&self) -> (r: WorldId)
        ensures
            r == self.world_spec(),
    {
        self.world
    }

    pub fn step_index(&self) -> (r: u64)
        ensures
            r == self.step_spec(),
    {
        self.step
    }

    pub fn body_pose(&self, body: RawHandle) -> (r: Option<&P>)
        ensures
            r is Some <==> self.body_poses().contains_key(body),
            r matches Some(p) ==> *p == self.body_poses()[body],
    {
        self.bodies.get(&body)
    }

    pub fn collider_pose(&self, collider: RawHandle) -> (r: Option<&P>)
        ensures
            r is Some <==> self.collider_poses().contains_key(collider),
            r matches Some(p) ==> *p == self.collider_poses()[collider],
    {
        self.colliders.get(&collider)
    }
}

} // verus!
