use vstd::prelude::*;

verus! {

/// Source of arena and world identities. It hands out each value at most
/// once, in increasing order starting at one, and refuses to go on once the
/// `u64` range is used up.
pub struct IdentityCounter {
    next: u64,
}

impl View for IdentityCounter {
    type V = u64;

    /// The identity that the next allocation returns.
    closed spec fn view(&self) -> u64 {
        self.next
    }
}

impl IdentityCounter {
    pub fn new() -> (r: Self)
        ensures
            r@ == 1,
    {
        IdentityCounter { next: 1 }
    }

    /// Returns the next identity and advances, or `None` (leaving the
    /// counter unchanged) when no identity is left.
    pub fn allocate(&mut self) -> (r: Option<u64>)
        ensures
            old(self)@ < u64::MAX ==> r == Some(old(self)@) && final(self)@ == old(self)@ + 1,
            old(self)@ == u64::MAX ==> r is None && final(self)@ == old(self)@,
    {
        match self.next.checked_add(1) {
            Some(n) => {
                let id = self.next;
                self.next = n;
                Some(id)
            },
            None => None,
        }
    }
}

/// Identities handed out by one counter are pairwise distinct: an identity
/// returned before the counter reached `mark` differs from every identity
/// returned from then on.
pub proof fn lemma_identities_distinct(earlier: u64, mark: IdentityCounter, later: u64)
    requires
        earlier < mark@,
        later >= mark@,
    ensures
        earlier != later,
{
}

/// Application world identity. A token detects accidental mismatches; callers
/// remain responsible for associating it with the same live Rapier world.
#[derive(Debug, Clone, Copy, PartialEq, Eq, Structural, PartialOrd, Ord, Hash)]
pub struct WorldId(u64);

impl WorldId {
    pub closed spec fn raw(self) -> u64 {
        self.0
    }

    /// A fresh world identity from `ids`, or `None` when it is exhausted.
    pub fn new(ids: &mut IdentityCounter) -> (r: Option<WorldId>)
        ensures
            old(ids)@ < u64::MAX ==> r is Some && r.unwrap().raw() == old(ids)@ && final(ids)@
                == old(ids)@ + 1,
            old(ids)@ == u64::MAX ==> r is None && final(ids)@ == old(ids)@,
            r matches Some(w) ==> w.raw() < final(ids)@,
    {
        match ids.allocate() {
            Some(id) => Some(WorldId(id)),
            None => None,
        }
    }
}

/// World identities taken one after another from one counter increase
/// strictly, so none is ever issued twice. Call `i` found the counter at
/// `before[i]`, returned `issued[i]` and left the counter at `after[i]`
/// (as `WorldId::new` ensures when it returns an identity); between two
/// calls the counter only grows, as every operation on it ensures.
pub proof fn lemma_world_ids_increase(issued: Seq<WorldId>, before: Seq<u64>, after: Seq<u64>)
    requires
        before.len() == issued.len(),
        after.len() == issued.len(),
        forall|i: int|
            0 <= i < issued.len() ==> (#[trigger] issued[i]).raw() == before[i] && after[i] == before[i] + 1,
        forall|i: int| 0 <= i < issued.len() - 1 ==> #[trigger] after[i] <= before[i + 1],
    ensures
        forall|i: int, j: int|
            0 <= i < j < issued.len() ==> (#[trigger] issued[i]).raw() < (#[trigger] issued[j]).raw() && issued[i]
                != issued[j],
{
    assert forall|i: int, j: int| 0 <= i < j < issued.len() implies (#[trigger] issued[i]).raw() < (
    #[trigger] issued[j]).raw() && issued[i] != issued[j] by {
        lemma_counter_grows(issued, before, after, i, j);
    }
}

proof fn lemma_counter_grows(issued: Seq<WorldId>, before: Seq<u64>, after: Seq<u64>, i: int, j: int)
    requires
        before.len() == issued.len(),
        after.len() == issued.len(),
        forall|k: int|
            0 <= k < issued.len() ==> (#[trigger] issued[k]).raw() == before[k] && after[k] == before[k] + 1,
        forall|k: int| 0 <= k < issued.len() - 1 ==> #[trigger] after[k] <= before[k + 1],
        0 <= i < j < issued.len(),
    ensures
        before[i] < before[j],
    decreases j - i,
{
    assert(issued[j - 1].raw() == before[j - 1]);
    assert(after[j - 1] <= before[j]);
    if i < j - 1 {
        lemma_counter_grows(issued, before, after, i, j - 1);
    }
}

} // verus!
