use vstd::prelude::*;

use crate::error::ClothError;

verus! {

/// Identity of one contact: the particle, the external object (for a Rapier
/// collider, its handle packed by `collider_external_key`) and a feature
/// number within that object. Contacts are ordered by particle, then
/// external object, then feature.
#[derive(Debug, Clone, Copy, PartialEq, Eq, Structural, PartialOrd, Ord, Hash)]
pub struct ContactKey {
    pub particle: u32,
    pub external: u64,
    pub feature: u32,
}

#[derive(Debug, Clone, Copy, PartialEq, Eq, Structural)]
pub enum ContactStage {
    Stabilization,
    Prediction,
    Iteration,
    Final,
}

/// A contact source that never reports a contact.
#[derive(Debug, Clone, Copy, Default)]
pub struct NoContacts;

/// The order of contact keys: by particle, then external object, then feature.
pub open spec fn key_lt(a: ContactKey, b: ContactKey) -> bool {
    ||| a.particle < b.particle
    ||| (a.particle == b.particle && a.external < b.external)
    ||| (a.particle == b.particle && a.external == b.external && a.feature < b.feature)
}

pub open spec fn key_le(a: ContactKey, b: ContactKey) -> bool {
    key_lt(a, b) || a == b
}

pub fn key_less(a: &ContactKey, b: &ContactKey) -> (r: bool)
    ensures
        r == key_lt(*a, *b),
{
    a.particle < b.particle || (a.particle == b.particle && a.external < b.external) || (a.particle
        == b.particle && a.external == b.external && a.feature < b.feature)
}

pub fn key_equal(a: &ContactKey, b: &ContactKey) -> (r: bool)
    ensures
        r == (*a == *b),
{
    a.particle == b.particle && a.external == b.external && a.feature == b.feature
}

/// How a contact query treats a candidate collider.
#[derive(Debug, Clone, Copy, PartialEq, Eq)]
pub enum ColliderUse {
    /// Sensors, disabled and explicitly excluded colliders are skipped.
    Ignored,
    /// The collider takes part in the query.
    Used,
    /// The collider cannot be handled; the query fails with this reason.
    Unsupported(&'static str),
}

/// Classifies a candidate collider from its flags, its parent body
/// (dynamic or kinematic) and its shape (half-space, or one of the supported
/// primitives: sphere, box, capsule, half-space).
pub fn classify_collider(
    sensor: bool,
    enabled: bool,
    excluded: bool,
    body_dynamic: bool,
    body_kinematic: bool,
    halfspace: bool,
    supported_shape: bool,
) -> (r: ColliderUse)
    ensures
        r == (if sensor || !enabled || excluded {
            ColliderUse::Ignored
        } else if body_dynamic {
            ColliderUse::Unsupported("dynamic body: one-way MVP accepts fixed or kinematic bodies")
        } else if halfspace && body_kinematic {
            ColliderUse::Unsupported("kinematic halfspaces are not supported")
        } else if !supported_shape {
            ColliderUse::Unsupported("shape outside sphere/box/capsule/fixed-halfspace support")
        } else {
            ColliderUse::Used
        }),
{
    if sensor || !enabled || excluded {
        ColliderUse::Ignored
    } else if body_dynamic {
        ColliderUse::Unsupported("dynamic body: one-way MVP accepts fixed or kinematic bodies")
    } else if halfspace && body_kinematic {
        ColliderUse::Unsupported("kinematic halfspaces are not supported")
    } else if !supported_shape {
        ColliderUse::Unsupported("shape outside sphere/box/capsule/fixed-halfspace support")
    } else {
        ColliderUse::Used
    }
}

/// Keys in increasing order, each once.
pub open spec fn strictly_sorted(s: Seq<ContactKey>) -> bool {
    forall|a: int, b: int| 0 <= a < b < s.len() ==> key_lt(#[trigger] s[a], #[trigger] s[b])
}

/// Keys in nondecreasing order.
pub open spec fn sorted(s: Seq<ContactKey>) -> bool {
    forall|a: int, b: int| 0 <= a < b < s.len() ==> key_le(#[trigger] s[a], #[trigger] s[b])
}

/// The external-object number of a collider handle: its generation in the
/// high 32 bits and its index in the low 32 bits.
pub fn collider_external_key(index: u32, generation: u32) -> (r: u64)
    ensures
        r == generation as int * 0x1_0000_0000 + index as int,
{
    let g = generation as u64;
    let i = index as u64;
    assert((g << 32u64) | i == g * 0x1_0000_0000 + i) by (bit_vector)
        requires
            g < 0x1_0000_0000,
            i < 0x1_0000_0000,
    ;
    (g << 32u64) | i
}

/// A contact query that returned more contacts than the budget is refused.
pub fn check_contact_budget(count: usize, max_contacts: usize) -> (r: Result<(), ClothError>)
    ensures
        r is Ok <==> count <= max_contacts,
        r matches Err(e) ==> e == (ClothError::ContactBudgetExceeded { limit: max_contacts }),
{
    if count > max_contacts {
        Err(ClothError::ContactBudgetExceeded { limit: max_contacts })
    } else {
        Ok(())
    }
}

/// Why a contact of a sorted query result is refused, if it is.
pub enum ContactFault {
    InvalidGeometry,
    DuplicateKey,
}

/// The fault of contact `j` of a sorted query result: a particle outside the
/// cloth or invalid geometry, else the same key as the contact before it.
pub open spec fn contact_fault(keys: Seq<ContactKey>, geometry_ok: Seq<bool>, n: nat, j: int) -> Option<
    ContactFault,
> {
    if keys[j].particle >= n || !geometry_ok[j] {
        Some(ContactFault::InvalidGeometry)
    } else if j > 0 && keys[j - 1] == keys[j] {
        Some(ContactFault::DuplicateKey)
    } else {
        None
    }
}

/// The fault of the first refused contact among the first `m`.
pub open spec fn first_contact_fault(keys: Seq<ContactKey>, geometry_ok: Seq<bool>, n: nat, m: int) -> Option<
    ContactFault,
>
    decreases m,
{
    if m <= 0 {
        None
    } else {
        match first_contact_fault(keys, geometry_ok, n, m - 1) {
            Some(f) => Some(f),
            None => contact_fault(keys, geometry_ok, n, m - 1),
        }
    }
}

proof fn lemma_first_fault_persists(keys: Seq<ContactKey>, geometry_ok: Seq<bool>, n: nat, a: int, b: int)
    requires
        0 <= a <= b,
    ensures
        first_contact_fault(keys, geometry_ok, n, a) is Some ==> first_contact_fault(keys, geometry_ok, n, b)
            == first_contact_fault(keys, geometry_ok, n, a),
    decreases b - a,
{
    if a < b {
        lemma_first_fault_persists(keys, geometry_ok, n, a, b - 1);
    }
}

/// Every contact names a particle of the cloth and has valid geometry.
pub open spec fn valid_contacts(keys: Seq<ContactKey>, geometry_ok: Seq<bool>, n: nat) -> bool {
    forall|j: int| 0 <= j < keys.len() ==> (#[trigger] keys[j]).particle < n && geometry_ok[j]
}

/// No key occurs twice.
pub open spec fn distinct_keys(keys: Seq<ContactKey>) -> bool {
    forall|a: int, b: int| 0 <= a < keys.len() && 0 <= b < keys.len() && a != b ==> #[trigger] keys[a] != #[trigger] keys[b]
}

/// Checks a query result sorted by key. `geometry_ok[j]` is the verdict on
/// the finite values of contact `j` (point, unit normal, surface velocity,
/// friction). The first refused contact decides the error.
pub fn check_sorted_contacts(
    keys: &Vec<ContactKey>,
    geometry_ok: &Vec<bool>,
    particle_count: usize,
) -> (r: Result<(), ClothError>)
    requires
        geometry_ok@.len() == keys@.len(),
        sorted(keys@),
    ensures
        r is Ok <==> strictly_sorted(keys@) && valid_contacts(keys@, geometry_ok@, particle_count as nat),
        valid_contacts(keys@, geometry_ok@, particle_count as nat) && !strictly_sorted(keys@) ==> (r matches Err(
            ClothError::External(m),
        ) && m@ == "duplicate contact key"@),
        match first_contact_fault(keys@, geometry_ok@, particle_count as nat, keys@.len() as int) {
            None => r is Ok,
            Some(ContactFault::InvalidGeometry) => r matches Err(ClothError::External(m)) && m@
                == "invalid contact geometry"@,
            Some(ContactFault::DuplicateKey) => r matches Err(ClothError::External(m)) && m@
                == "duplicate contact key"@,
        },
{
    let mut j: usize = 0;
    while j < keys.len()
        invariant
            geometry_ok@.len() == keys@.len(),
            sorted(keys@),
            j <= keys@.len(),
            first_contact_fault(keys@, geometry_ok@, particle_count as nat, j as int) is None,
            forall|a: int, b: int| 0 <= a < b < j ==> key_lt(#[trigger] keys@[a], #[trigger] keys@[b]),
            forall|a: int| 0 <= a < j ==> (#[trigger] keys@[a]).particle < particle_count && geometry_ok@[a],
        decreases keys@.len() - j,
    {
        let k = keys[j];
        proof {
            lemma_first_fault_persists(keys@, geometry_ok@, particle_count as nat, j + 1, keys@.len() as int);
        }
        if k.particle as usize >= particle_count || !geometry_ok[j] {
            proof {
                assert(!valid_contacts(keys@, geometry_ok@, particle_count as nat));
            }
            return Err(ClothError::External("invalid contact geometry".to_owned()));
        }
        if j > 0 && key_equal(&keys[j - 1], &k) {
            proof {
                assert(!key_lt(keys@[j - 1], keys@[j as int]));
                assert(!strictly_sorted(keys@));
            }
            return Err(ClothError::External("duplicate contact key".to_owned()));
        }
        proof {
            if j > 0 {
                assert(key_le(keys@[j - 1], keys@[j as int]));
            }
        }
        j += 1;
    }
    Ok(())
}

/// Contact `x` of a query result comes before contact `y` when the result
/// is sorted stably by key.
pub open spec fn contact_before(keys: Seq<ContactKey>, x: int, y: int) -> bool {
    key_lt(keys[x], keys[y]) || (keys[x] == keys[y] && x < y)
}

/// `order` lists every contact index once, sorted stably by key.
pub open spec fn key_order(order: Seq<usize>, keys: Seq<ContactKey>) -> bool {
    &&& order.len() == keys.len()
    &&& forall|a: int| 0 <= a < order.len() ==> #[trigger] order[a] < keys.len()
    &&& forall|a: int, b: int|
        0 <= a < b < order.len() ==> contact_before(keys, #[trigger] order[a] as int, #[trigger] order[b] as int)
    &&& forall|i: int| 0 <= i < keys.len() ==> #[trigger] order.contains(i as usize)
}

/// The values at the positions that `order` lists.
pub open spec fn permuted<T>(order: Seq<usize>, values: Seq<T>) -> Seq<T> {
    order.map_values(|i: usize| values[i as int])
}

proof fn lemma_key_order_prefix(o1: Seq<usize>, o2: Seq<usize>, keys: Seq<ContactKey>, d: int)
    requires
        key_order(o1, keys),
        key_order(o2, keys),
        0 <= d < o1.len(),
    ensures
        o1[d] == o2[d],
    decreases d,
{
    assert forall|c: int| 0 <= c < d implies o1[c] == o2[c] by {
        lemma_key_order_prefix(o1, o2, keys, c);
    }
    let x = o1[d];
    let y = o2[d];
    if x != y {
        if contact_before(keys, x as int, y as int) {
            assert(o2.contains((x as int) as usize));
            let e = choose|e: int| 0 <= e < o2.len() && o2[e] == x;
            if e < d {
                assert(o1[e] == o2[e]);
                assert(contact_before(keys, o1[e] as int, o1[d] as int));
            } else if e > d {
                assert(contact_before(keys, o2[d] as int, o2[e] as int));
            }
        } else {
            assert(o1.contains((y as int) as usize));
            let e = choose|e: int| 0 <= e < o1.len() && o1[e] == y;
            if e < d {
                assert(o1[e] == o2[e]);
                assert(contact_before(keys, o2[e] as int, o2[d] as int));
            } else if e > d {
                assert(contact_before(keys, o1[d] as int, o1[e] as int));
            }
        }
    }
}

/// There is only one stable key order.
pub proof fn lemma_key_order_unique(o1: Seq<usize>, o2: Seq<usize>, keys: Seq<ContactKey>)
    requires
        key_order(o1, keys),
        key_order(o2, keys),
    ensures
        o1 == o2,
{
    assert forall|d: int| 0 <= d < o1.len() implies o1[d] == o2[d] by {
        lemma_key_order_prefix(o1, o2, keys, d);
    }
    assert(o1 =~= o2);
}

/// `s` lists positions of `keys` in strictly increasing stable order.
pub open spec fn in_key_order(keys: Seq<ContactKey>, s: Seq<usize>) -> bool {
    forall|a: int, b: int| 0 <= a < b < s.len() ==> contact_before(keys, #[trigger] s[a] as int, #[trigger] s[b] as int)
}

/// `s` lists exactly the positions `lo..hi`, in stable key order.
spec fn sorted_run(keys: Seq<ContactKey>, s: Seq<usize>, lo: int, hi: int) -> bool {
    &&& s.len() == hi - lo
    &&& in_key_order(keys, s)
    &&& forall|a: int| 0 <= a < s.len() ==> lo <= #[trigger] s[a] < hi
    &&& forall|i: int| lo <= i < hi ==> #[trigger] s.contains(i as usize)
}

/// Stable merge of two runs; every position of `left` is below every
/// position of `right`.
fn merge_runs(keys: &Vec<ContactKey>, left: Vec<usize>, right: Vec<usize>, lo: Ghost<int>, mid: Ghost<int>, hi: Ghost<int>) -> (r: Vec<usize>)
    requires
        sorted_run(keys@, left@, lo@, mid@),
        sorted_run(keys@, right@, mid@, hi@),
        0 <= lo@ <= mid@ <= hi@ <= keys@.len(),
    ensures
        sorted_run(keys@, r@, lo@, hi@),
{
    let mut out: Vec<usize> = Vec::new();
    let mut i: usize = 0;
    let mut j: usize = 0;
    while i < left.len() || j < right.len()
        invariant
            sorted_run(keys@, left@, lo@, mid@),
            sorted_run(keys@, right@, mid@, hi@),
            0 <= lo@ <= mid@ <= hi@ <= keys@.len(),
            i <= left@.len(),
            j <= right@.len(),
            out@.len() == i + j,
            in_key_order(keys@, out@),
            forall|a: int| 0 <= a < out@.len() ==> lo@ <= #[trigger] out@[a] < hi@,
            forall|a: int| 0 <= a < i ==> #[trigger] out@.contains(left@[a]),
            forall|a: int| 0 <= a < j ==> #[trigger] out@.contains(right@[a]),
            forall|a: int|
                0 <= a < out@.len() ==> (i < left@.len() ==> contact_before(
                    keys@,
                    #[trigger] out@[a] as int,
                    left@[i as int] as int,
                )) && (j < right@.len() ==> contact_before(keys@, out@[a] as int, right@[j as int] as int)),
        decreases left@.len() + right@.len() - i - j,
    {
        let take_left = if i < left.len() && j < right.len() {
            !key_less(&keys[right[j]], &keys[left[i]])
        } else {
            i < left.len()
        };
        let ghost before = out@;
        if take_left {
            let x = left[i];
            proof {
                if j < right@.len() {
                    assert(contact_before(keys@, x as int, right@[j as int] as int));
                }
            }
            out.push(x);
            i += 1;
            proof {
                assert forall|a: int| 0 <= a < i implies #[trigger] out@.contains(left@[a]) by {
                    if a < i - 1 {
                        assert(before.contains(left@[a]));
                        let e = choose|e: int| 0 <= e < before.len() && before[e] == left@[a];
                        assert(out@[e] == left@[a]);
                    } else {
                        assert(out@[out@.len() - 1] == left@[a]);
                    }
                }
                assert forall|a: int| 0 <= a < j implies #[trigger] out@.contains(right@[a]) by {
                    assert(before.contains(right@[a]));
                    let e = choose|e: int| 0 <= e < before.len() && before[e] == right@[a];
                    assert(out@[e] == right@[a]);
                }
                assert forall|a: int|
                    0 <= a < out@.len() implies (i < left@.len() ==> contact_before(
                    keys@,
                    #[trigger] out@[a] as int,
                    left@[i as int] as int,
                )) && (j < right@.len() ==> contact_before(keys@, out@[a] as int, right@[j as int] as int)) by {
                    if i < left@.len() {
                        assert(contact_before(keys@, x as int, left@[i as int] as int));
                        if a < out@.len() - 1 {
                            assert(out@[a] == before[a]);
                        }
                    }
                    if a < out@.len() - 1 {
                        assert(out@[a] == before[a]);
                    }
                }
            }
        } else {
            let x = right[j];
            proof {
                if i < left@.len() {
                    assert(key_lt(keys@[x as int], keys@[left@[i as int] as int]));
                    assert(contact_before(keys@, x as int, left@[i as int] as int));
                }
            }
            out.push(x);
            j += 1;
            proof {
                assert forall|a: int| 0 <= a < i implies #[trigger] out@.contains(left@[a]) by {
                    assert(before.contains(left@[a]));
                    let e = choose|e: int| 0 <= e < before.len() && before[e] == left@[a];
                    assert(out@[e] == left@[a]);
                }
                assert forall|a: int| 0 <= a < j implies #[trigger] out@.contains(right@[a]) by {
                    if a < j - 1 {
                        assert(before.contains(right@[a]));
                        let e = choose|e: int| 0 <= e < before.len() && before[e] == right@[a];
                        assert(out@[e] == right@[a]);
                    } else {
                        assert(out@[out@.len() - 1] == right@[a]);
                    }
                }
                assert forall|a: int|
                    0 <= a < out@.len() implies (i < left@.len() ==> contact_before(
                    keys@,
                    #[trigger] out@[a] as int,
                    left@[i as int] as int,
                )) && (j < right@.len() ==> contact_before(keys@, out@[a] as int, right@[j as int] as int)) by {
                    if j < right@.len() {
                        assert(contact_before(keys@, x as int, right@[j as int] as int));
                    }
                    if a < out@.len() - 1 {
                        assert(out@[a] == before[a]);
                    }
                }
            }
        }
    }
    proof {
        assert forall|k: int| lo@ <= k < hi@ implies #[trigger] out@.contains(k as usize) by {
            if k < mid@ {
                assert(left@.contains(k as usize));
                let e = choose|e: int| 0 <= e < left@.len() && left@[e] == k as usize;
                assert(out@.contains(left@[e]));
            } else {
                assert(right@.contains(k as usize));
                let e = choose|e: int| 0 <= e < right@.len() && right@[e] == k as usize;
                assert(out@.contains(right@[e]));
            }
        }
    }
    out
}

/// Stable merge sort of the positions `lo..hi` by key.
fn sort_run(keys: &Vec<ContactKey>, lo: usize, hi: usize) -> (r: Vec<usize>)
    requires
        lo <= hi <= keys@.len(),
    ensures
        sorted_run(keys@, r@, lo as int, hi as int),
    decreases hi - lo,
{
    if hi - lo <= 1 {
        let mut r: Vec<usize> = Vec::new();
        if hi - lo == 1 {
            r.push(lo);
            proof {
                assert(r@[0] == lo);
            }
        }
        r
    } else {
        let mid = lo + (hi - lo) / 2;
        let left = sort_run(keys, lo, mid);
        let right = sort_run(keys, mid, hi);
        merge_runs(keys, left, right, Ghost(lo as int), Ghost(mid as int), Ghost(hi as int))
    }
}

/// The positions of `keys` sorted stably by key (merge sort).
pub fn order_by_key(keys: &Vec<ContactKey>) -> (r: Vec<usize>)
    ensures
        key_order(r@, keys@),
{
    let r = sort_run(keys, 0, keys.len());
    proof {
        assert forall|i: int| 0 <= i < keys@.len() implies #[trigger] r@.contains(i as usize) by {
            assert(r@.contains(i as usize));
        }
    }
    r
}

/// Sorting does not change whether the keys are distinct and the contacts
/// valid: the stable key order of distinct keys is strictly increasing.
pub proof fn lemma_key_order_checks(o: Seq<usize>, keys: Seq<ContactKey>, geometry_ok: Seq<bool>, n: nat)
    requires
        key_order(o, keys),
        geometry_ok.len() == keys.len(),
        keys.len() <= usize::MAX,
    ensures
        strictly_sorted(permuted(o, keys)) <==> distinct_keys(keys),
        valid_contacts(permuted(o, keys), permuted(o, geometry_ok), n) <==> valid_contacts(keys, geometry_ok, n),
{
    let pk = permuted(o, keys);
    let pg = permuted(o, geometry_ok);
    if distinct_keys(keys) {
        assert forall|a: int, b: int| 0 <= a < b < pk.len() implies key_lt(#[trigger] pk[a], #[trigger] pk[b]) by {
            assert(contact_before(keys, o[a] as int, o[b] as int));
            assert(o[a] != o[b]);
        }
    }
    if strictly_sorted(pk) {
        assert forall|a: int, b: int|
            0 <= a < keys.len() && 0 <= b < keys.len() && a != b implies #[trigger] keys[a] != #[trigger] keys[b] by {
            assert(o.contains(a as usize));
            assert(o.contains(b as usize));
            let x = choose|x: int| 0 <= x < o.len() && o[x] == a as usize;
            let y = choose|y: int| 0 <= y < o.len() && o[y] == b as usize;
            assert(pk[x] == keys[a] && pk[y] == keys[b]);
            if x < y {
                assert(key_lt(pk[x], pk[y]));
            } else {
                assert(key_lt(pk[y], pk[x]));
            }
        }
    }
    if valid_contacts(keys, geometry_ok, n) {
        assert forall|j: int| 0 <= j < pk.len() implies (#[trigger] pk[j]).particle < n && pg[j] by {
            assert(o[j] < keys.len());
        }
    }
    if valid_contacts(pk, pg, n) {
        assert forall|i: int| 0 <= i < keys.len() implies (#[trigger] keys[i]).particle < n && geometry_ok[i] by {
            assert(o.contains(i as usize));
            let x = choose|x: int| 0 <= x < o.len() && o[x] == i as usize;
            assert(pk[x] == keys[i] && pg[x] == geometry_ok[i]);
        }
    }
}

/// Checks the result of one contact query: more than `max_contacts`
/// contacts is an error; otherwise the contacts are sorted stably by key and
/// checked in that order (`check_sorted_contacts`). Returns the order.
pub fn check_query(
    keys: &Vec<ContactKey>,
    geometry_ok: &Vec<bool>,
    particle_count: usize,
    max_contacts: usize,
) -> (r: Result<Vec<usize>, ClothError>)
    requires
        geometry_ok@.len() == keys@.len(),
    ensures
        r is Ok <==> keys@.len() <= max_contacts && distinct_keys(keys@) && valid_contacts(
            keys@,
            geometry_ok@,
            particle_count as nat,
        ),
        keys@.len() <= max_contacts && valid_contacts(keys@, geometry_ok@, particle_count as nat) && !distinct_keys(
            keys@,
        ) ==> (r matches Err(ClothError::External(m)) && m@ == "duplicate contact key"@),
        exists|o: Seq<usize>| key_order(o, keys@),
        keys@.len() > max_contacts ==> r == Err::<Vec<usize>, ClothError>(
            ClothError::ContactBudgetExceeded { limit: max_contacts },
        ),
        keys@.len() <= max_contacts ==> forall|o: Seq<usize>|
            #[trigger] key_order(o, keys@) ==> match first_contact_fault(
                permuted(o, keys@),
                permuted(o, geometry_ok@),
                particle_count as nat,
                keys@.len() as int,
            ) {
                None => r is Ok && r->Ok_0@ == o,
                Some(ContactFault::InvalidGeometry) => r matches Err(ClothError::External(m)) && m@
                    == "invalid contact geometry"@,
                Some(ContactFault::DuplicateKey) => r matches Err(ClothError::External(m)) && m@
                    == "duplicate contact key"@,
            },
{
    let order = order_by_key(keys);
    proof {
        assert forall|o: Seq<usize>| #[trigger] key_order(o, keys@) implies o == order@ by {
            lemma_key_order_unique(o, order@, keys@);
        }
    }
    if keys.len() > max_contacts {
        return Err(ClothError::ContactBudgetExceeded { limit: max_contacts });
    }
    let mut sorted_keys: Vec<ContactKey> = Vec::new();
    let mut sorted_ok: Vec<bool> = Vec::new();
    let mut a: usize = 0;
    while a < order.len()
        invariant
            key_order(order@, keys@),
            geometry_ok@.len() == keys@.len(),
            a <= order@.len(),
            sorted_keys@ == permuted(order@, keys@).take(a as int),
            sorted_ok@ == permuted(order@, geometry_ok@).take(a as int),
        decreases order@.len() - a,
    {
        sorted_keys.push(keys[order[a]]);
        sorted_ok.push(geometry_ok[order[a]]);
        a += 1;
        proof {
            assert(sorted_keys@ =~= permuted(order@, keys@).take(a as int));
            assert(sorted_ok@ =~= permuted(order@, geometry_ok@).take(a as int));
        }
    }
    proof {
        assert(sorted_keys@ =~= permuted(order@, keys@));
        assert(sorted_ok@ =~= permuted(order@, geometry_ok@));
        assert forall|x: int, y: int| 0 <= x < y < sorted_keys@.len() implies key_le(
            #[trigger] sorted_keys@[x],
            #[trigger] sorted_keys@[y],
        ) by {
            assert(contact_before(keys@, order@[x] as int, order@[y] as int));
        }
    }
    proof {
        lemma_key_order_checks(order@, keys@, geometry_ok@, particle_count as nat);
    }
    match check_sorted_contacts(&sorted_keys, &sorted_ok, particle_count) {
        Ok(()) => Ok(order),
        Err(e) => Err(e),
    }
}

/// One entry of a merge of two key-sorted lists: an entry of the base list
/// kept as it is, or an entry of the overriding list together with the base
/// entry that had the same key, if any.
#[derive(Debug, Clone, Copy, PartialEq, Eq, Structural)]
pub enum MergeStep {
    Base(usize),
    Over(usize, Option<usize>),
}

pub open spec fn step_key(step: MergeStep, base: Seq<ContactKey>, over: Seq<ContactKey>) -> ContactKey {
    match step {
        MergeStep::Base(i) => base[i as int],
        MergeStep::Over(j, _) => over[j as int],
    }
}

/// Some used entry of the overriding list has key `k`.
pub open spec fn overridden(over: Seq<ContactKey>, used: Seq<bool>, k: ContactKey) -> bool {
    exists|j: int| 0 <= j < over.len() && used[j] && over[j] == k
}

pub open spec fn valid_step(step: MergeStep, base: Seq<ContactKey>, over: Seq<ContactKey>, used: Seq<bool>) -> bool {
    match step {
        MergeStep::Base(i) => i < base.len() && !overridden(over, used, base[i as int]),
        MergeStep::Over(j, prev) => {
            &&& j < over.len()
            &&& used[j as int]
            &&& match prev {
                Some(i) => i < base.len() && base[i as int] == over[j as int],
                None => !base.contains(over[j as int]),
            }
        },
    }
}

/// `steps` is the key-ordered union of `base` and the used entries of
/// `over`, where an entry of `over` takes the place of a base entry with the
/// same key.
pub open spec fn is_merge(steps: Seq<MergeStep>, base: Seq<ContactKey>, over: Seq<ContactKey>, used: Seq<bool>) -> bool {
    &&& forall|a: int, b: int|
        0 <= a < b < steps.len() ==> key_lt(
            step_key(#[trigger] steps[a], base, over),
            step_key(#[trigger] steps[b], base, over),
        )
    &&& forall|a: int| 0 <= a < steps.len() ==> valid_step(#[trigger] steps[a], base, over, used)
    &&& forall|i: int| 0 <= i < base.len() ==> key_in(steps, base, over, #[trigger] base[i])
    &&& forall|j: int| 0 <= j < over.len() && used[j] ==> key_in(steps, base, over, #[trigger] over[j])
}

/// Some step of `steps` has key `k`.
pub open spec fn key_in(steps: Seq<MergeStep>, base: Seq<ContactKey>, over: Seq<ContactKey>, k: ContactKey) -> bool {
    exists|a: int| 0 <= a < steps.len() && step_key(steps[a], base, over) == k
}

proof fn lemma_key_in_push(steps: Seq<MergeStep>, x: MergeStep, base: Seq<ContactKey>, over: Seq<ContactKey>)
    ensures
        forall|k: ContactKey| #[trigger] key_in(steps, base, over, k) ==> key_in(steps.push(x), base, over, k),
        key_in(steps.push(x), base, over, step_key(x, base, over)),
{
    assert forall|k: ContactKey| #[trigger] key_in(steps, base, over, k) implies key_in(steps.push(x), base, over, k) by {
        let a = choose|a: int| 0 <= a < steps.len() && step_key(steps[a], base, over) == k;
        assert(steps.push(x)[a] == steps[a]);
    }
    assert(steps.push(x)[steps.len() as int] == x);
}

/// Linear merge of two strictly sorted key lists; `used[j]` says whether
/// entry `j` of `over` takes part.
pub fn merge_keys(base: &Vec<ContactKey>, over: &Vec<ContactKey>, used: &Vec<bool>) -> (r: Vec<MergeStep>)
    requires
        strictly_sorted(base@),
        strictly_sorted(over@),
        used@.len() == over@.len(),
    ensures
        is_merge(r@, base@, over@, used@),
{
    let ghost b = base@;
    let ghost o = over@;
    let ghost u = used@;
    let mut out: Vec<MergeStep> = Vec::new();
    let mut i: usize = 0;
    let mut j: usize = 0;
    while j < over.len()
        invariant
            b == base@,
            o == over@,
            u == used@,
            strictly_sorted(b),
            strictly_sorted(o),
            u.len() == o.len(),
            i <= b.len(),
            j <= o.len(),
            forall|x: int, y: int|
                0 <= x < y < out@.len() ==> key_lt(
                    step_key(#[trigger] out@[x], b, o),
                    step_key(#[trigger] out@[y], b, o),
                ),
            forall|x: int| 0 <= x < out@.len() ==> valid_step(#[trigger] out@[x], b, o, u),
            forall|x: int, y: int|
                0 <= x < out@.len() && i <= y < b.len() ==> key_lt(
                    step_key(#[trigger] out@[x], b, o),
                    #[trigger] b[y],
                ),
            forall|x: int, y: int|
                0 <= x < out@.len() && j <= y < o.len() ==> key_lt(
                    step_key(#[trigger] out@[x], b, o),
                    #[trigger] o[y],
                ),
            forall|y: int, z: int|
                0 <= y < j && u[y] && i <= z < b.len() ==> key_lt(#[trigger] o[y], #[trigger] b[z]),
            forall|y: int|
                0 <= y < i ==> key_in(out@, b, o, #[trigger] b[y]),
            forall|y: int|
                0 <= y < j && u[y] ==> key_in(out@, b, o, #[trigger] o[y]),
        decreases o.len() - j,
    {
        if !used[j] {
            j += 1;
            continue;
        }
        let key = over[j];
        while i < base.len() && key_less(&base[i], &key)
            invariant
                b == base@,
                o == over@,
                u == used@,
                strictly_sorted(b),
                strictly_sorted(o),
                u.len() == o.len(),
                i <= b.len(),
                j < o.len(),
                u[j as int],
                key == o[j as int],
                forall|x: int, y: int|
                    0 <= x < y < out@.len() ==> key_lt(
                        step_key(#[trigger] out@[x], b, o),
                        step_key(#[trigger] out@[y], b, o),
                    ),
                forall|x: int| 0 <= x < out@.len() ==> valid_step(#[trigger] out@[x], b, o, u),
                forall|x: int, y: int|
                    0 <= x < out@.len() && i <= y < b.len() ==> key_lt(
                        step_key(#[trigger] out@[x], b, o),
                        #[trigger] b[y],
                    ),
                forall|x: int, y: int|
                    0 <= x < out@.len() && j <= y < o.len() ==> key_lt(
                        step_key(#[trigger] out@[x], b, o),
                        #[trigger] o[y],
                    ),
                forall|y: int, z: int|
                    0 <= y < j && u[y] && i <= z < b.len() ==> key_lt(#[trigger] o[y], #[trigger] b[z]),
                forall|y: int|
                    0 <= y < i ==> key_in(out@, b, o, #[trigger] b[y]),
                forall|y: int|
                    0 <= y < j && u[y] ==> key_in(out@, b, o, #[trigger] o[y]),
            decreases b.len() - i,
        {
            proof {
                let k = b[i as int];
                assert(!overridden(o, u, k)) by {
                    if overridden(o, u, k) {
                        let y = choose|y: int| 0 <= y < o.len() && u[y] && o[y] == k;
                        if y < j {
                            assert(key_lt(o[y], b[i as int]));
                        } else if y > j {
                            assert(key_lt(o[j as int], o[y]));
                        }
                    }
                }
                assert forall|y: int| j <= y < o.len() implies key_lt(k, #[trigger] o[y]) by {
                    if y > j {
                        assert(key_lt(o[j as int], o[y]));
                    }
                }
            }
            let ghost before = out@;
            out.push(MergeStep::Base(i));
            proof {
                lemma_key_in_push(before, MergeStep::Base(i), b, o);
                assert(out@[before.len() as int] == MergeStep::Base(i));
                assert forall|x: int, y: int|
                    0 <= x < out@.len() && i + 1 <= y < b.len() implies key_lt(
                    step_key(#[trigger] out@[x], b, o),
                    #[trigger] b[y],
                ) by {
                    if x < before.len() {
                        assert(out@[x] == before[x]);
                    } else {
                        assert(key_lt(b[i as int], b[y]));
                    }
                }
                assert forall|y: int|
                    0 <= y < i + 1 implies key_in(out@, b, o, #[trigger] b[y]) by {
                    if y < i {
                        assert(key_in(before, b, o, b[y]));
                    }
                }
                assert forall|y: int|
                    0 <= y < j && u[y] implies key_in(out@, b, o, #[trigger] o[y]) by {
                    assert(key_in(before, b, o, o[y]));
                }
            }
            i += 1;
        }
        let ghost before = out@;
        let ghost i0 = i;
        if i < base.len() && key_equal(&base[i], &key) {
            out.push(MergeStep::Over(j, Some(i)));
            i += 1;
        } else {
            proof {
                if i < b.len() {
                    assert(key_lt(key, b[i as int]));
                }
            }
            proof {
                assert(!b.contains(key)) by {
                    if b.contains(key) {
                        let z = choose|z: int| 0 <= z < b.len() && b[z] == key;
                        if z < i {
                            assert(key_in(before, b, o, b[z]));
                            let a = choose|a: int| 0 <= a < before.len() && step_key(before[a], b, o) == b[z];
                            assert(key_lt(step_key(before[a], b, o), o[j as int]));
                        } else if z > i {
                            assert(key_lt(b[i as int], b[z]));
                        }
                    }
                }
            }
            out.push(MergeStep::Over(j, None));
        }
        proof {
            let k = o[j as int];
            assert(step_key(out@[before.len() as int], b, o) == k);
            assert(out@ == before.push(out@[before.len() as int]));
            lemma_key_in_push(before, out@[before.len() as int], b, o);
            assert forall|x: int| 0 <= x < out@.len() implies valid_step(#[trigger] out@[x], b, o, u) by {
                if x < before.len() {
                    assert(out@[x] == before[x]);
                }
            }
            assert forall|x: int, y: int|
                0 <= x < y < out@.len() implies key_lt(
                step_key(#[trigger] out@[x], b, o),
                step_key(#[trigger] out@[y], b, o),
            ) by {
                if y < before.len() {
                    assert(out@[x] == before[x] && out@[y] == before[y]);
                } else {
                    assert(out@[x] == before[x]);
                }
            }
            assert forall|x: int, y: int|
                0 <= x < out@.len() && i <= y < b.len() implies key_lt(
                step_key(#[trigger] out@[x], b, o),
                #[trigger] b[y],
            ) by {
                if x < before.len() {
                    assert(out@[x] == before[x]);
                } else if i == i0 + 1 {
                    assert(b[i0 as int] == k);
                    assert(key_lt(b[i0 as int], b[y]));
                } else {
                    assert(key_lt(k, b[i0 as int]));
                    if y > i0 {
                        assert(key_lt(b[i0 as int], b[y]));
                    }
                }
            }
            assert forall|x: int, y: int|
                0 <= x < out@.len() && j + 1 <= y < o.len() implies key_lt(
                step_key(#[trigger] out@[x], b, o),
                #[trigger] o[y],
            ) by {
                if x < before.len() {
                    assert(out@[x] == before[x]);
                } else {
                    assert(key_lt(o[j as int], o[y]));
                }
            }
            assert forall|y: int, z: int|
                0 <= y < j + 1 && u[y] && i <= z < b.len() implies key_lt(#[trigger] o[y], #[trigger] b[z]) by {
                if y == j {
                    assert(key_lt(step_key(out@[before.len() as int], b, o), b[z]));
                }
            }
            assert forall|y: int|
                0 <= y < i implies key_in(out@, b, o, #[trigger] b[y]) by {
                if !key_in(before, b, o, b[y]) {
                    assert(y == i - 1);
                    assert(b[y] == k);
                }
            }
            assert forall|y: int|
                0 <= y < j + 1 && u[y] implies key_in(out@, b, o, #[trigger] o[y]) by {
                if y < j {
                    assert(key_in(before, b, o, o[y]));
                } else {
                    assert(step_key(out@[before.len() as int], b, o) == o[y]);
                }
            }
        }
        j += 1;
    }
    while i < base.len()
        invariant
            b == base@,
            o == over@,
            u == used@,
            strictly_sorted(b),
            strictly_sorted(o),
            u.len() == o.len(),
            i <= b.len(),
            j == o.len(),
            forall|x: int, y: int|
                0 <= x < y < out@.len() ==> key_lt(
                    step_key(#[trigger] out@[x], b, o),
                    step_key(#[trigger] out@[y], b, o),
                ),
            forall|x: int| 0 <= x < out@.len() ==> valid_step(#[trigger] out@[x], b, o, u),
            forall|x: int, y: int|
                0 <= x < out@.len() && i <= y < b.len() ==> key_lt(
                    step_key(#[trigger] out@[x], b, o),
                    #[trigger] b[y],
                ),
            forall|y: int, z: int|
                0 <= y < j && u[y] && i <= z < b.len() ==> key_lt(#[trigger] o[y], #[trigger] b[z]),
            forall|y: int|
                0 <= y < i ==> key_in(out@, b, o, #[trigger] b[y]),
            forall|y: int|
                0 <= y < j && u[y] ==> key_in(out@, b, o, #[trigger] o[y]),
        decreases b.len() - i,
    {
        proof {
            let k = b[i as int];
            assert(!overridden(o, u, k)) by {
                if overridden(o, u, k) {
                    let y = choose|y: int| 0 <= y < o.len() && u[y] && o[y] == k;
                    assert(key_lt(o[y], b[i as int]));
                }
            }
        }
        let ghost before = out@;
        out.push(MergeStep::Base(i));
        proof {
            lemma_key_in_push(before, MergeStep::Base(i), b, o);
            assert(out@[before.len() as int] == MergeStep::Base(i));
            assert forall|x: int| 0 <= x < out@.len() implies valid_step(#[trigger] out@[x], b, o, u) by {
                if x < before.len() {
                    assert(out@[x] == before[x]);
                }
            }
            assert forall|x: int, y: int|
                0 <= x < y < out@.len() implies key_lt(
                step_key(#[trigger] out@[x], b, o),
                step_key(#[trigger] out@[y], b, o),
            ) by {
                if y < before.len() {
                    assert(out@[x] == before[x] && out@[y] == before[y]);
                } else {
                    assert(out@[x] == before[x]);
                }
            }
            assert forall|x: int, y: int|
                0 <= x < out@.len() && i + 1 <= y < b.len() implies key_lt(
                step_key(#[trigger] out@[x], b, o),
                #[trigger] b[y],
            ) by {
                if x < before.len() {
                    assert(out@[x] == before[x]);
                } else {
                    assert(key_lt(b[i as int], b[y]));
                }
            }
            assert forall|y: int|
                0 <= y < i + 1 implies key_in(out@, b, o, #[trigger] b[y]) by {
                if y < i {
                    assert(key_in(before, b, o, b[y]));
                }
            }
            assert forall|y: int|
                0 <= y < j && u[y] implies key_in(out@, b, o, #[trigger] o[y]) by {
                assert(key_in(before, b, o, o[y]));
            }
        }
        i += 1;
    }
    out
}

fn all_used(n: usize) -> (r: Vec<bool>)
    ensures
        r@.len() == n,
        forall|j: int| 0 <= j < n ==> #[trigger] r@[j],
{
    let mut r: Vec<bool> = Vec::new();
    while r.len() < n
        invariant
            r@.len() <= n,
            forall|j: int| 0 <= j < r@.len() ==> #[trigger] r@[j],
        decreases n - r@.len(),
    {
        r.push(true);
    }
    r
}

/// A merge read on the original positions of the base list: `order[i]` is
/// the position of entry `i` of the sorted base list.
pub open spec fn relabel(steps: Seq<MergeStep>, order: Seq<usize>) -> Seq<MergeStep> {
    steps.map_values(
        |s: MergeStep|
            match s {
                MergeStep::Base(i) => MergeStep::Base(order[i as int]),
                MergeStep::Over(j, Some(i)) => MergeStep::Over(j, Some(order[i as int])),
                MergeStep::Over(j, None) => MergeStep::Over(j, None),
            },
    )
}

/// Every entry of a list of `n` takes part.
pub open spec fn every(n: nat) -> Seq<bool> {
    Seq::new(n, |j: int| true)
}

/// Merges the cached sweep contacts of a substep into a query result given
/// in query order: the result is ordered by key (`order_by_key`); a key that
/// occurs twice in it is refused, as the solver refuses it; then a sweep
/// contact replaces the discrete contact with the same key, all others are
/// kept, in key order, and the steps name the discrete contacts by their
/// query positions. More than `limit` contacts is an error.
pub fn merge_sweep_contacts(discrete: &Vec<ContactKey>, sweeps: &Vec<ContactKey>, limit: usize) -> (r: Result<
    Vec<MergeStep>,
    ClothError,
>)
    requires
        strictly_sorted(sweeps@),
    ensures
        exists|o: Seq<usize>| key_order(o, discrete@),
        forall|o: Seq<usize>| #[trigger]
            key_order(o, discrete@) ==> if !strictly_sorted(permuted(o, discrete@)) {
                r matches Err(ClothError::External(m)) && m@ == "duplicate contact key"@
            } else {
                match r {
                    Ok(steps) => exists|f: Seq<MergeStep>|
                        #[trigger] is_merge(f, permuted(o, discrete@), sweeps@, every(sweeps@.len()))
                            && f.len() <= limit && steps@ == relabel(f, o),
                    Err(e) => e == (ClothError::ContactBudgetExceeded { limit }) && forall|f: Seq<MergeStep>|
                        #[trigger] is_merge(f, permuted(o, discrete@), sweeps@, every(sweeps@.len())) ==> f.len()
                            > limit,
                }
            },
{
    let order = order_by_key(discrete);
    proof {
        assert forall|o: Seq<usize>| #[trigger] key_order(o, discrete@) implies o == order@ by {
            lemma_key_order_unique(o, order@, discrete@);
        }
    }
    let mut base: Vec<ContactKey> = Vec::new();
    let mut a: usize = 0;
    while a < order.len()
        invariant
            key_order(order@, discrete@),
            forall|o: Seq<usize>| #[trigger] key_order(o, discrete@) ==> o == order@,
            a <= order@.len(),
            base@ == permuted(order@, discrete@).take(a as int),
            forall|x: int, y: int| 0 <= x < y < a ==> key_lt(#[trigger] base@[x], #[trigger] base@[y]),
        decreases order@.len() - a,
    {
        let k = discrete[order[a]];
        if a > 0 && key_equal(&base[a - 1], &k) {
            proof {
                let p = permuted(order@, discrete@);
                assert(p[a - 1] == base@[a - 1]);
                assert(p[a as int] == k);
                assert(!key_lt(p[a - 1], p[a as int]));
                assert(!strictly_sorted(p));
            }
            return Err(ClothError::External("duplicate contact key".to_owned()));
        }
        proof {
            if a > 0 {
                assert(contact_before(discrete@, order@[a - 1] as int, order@[a as int] as int));
                assert(base@[a - 1] == discrete@[order@[a - 1] as int]);
            }
        }
        base.push(k);
        a += 1;
        proof {
            assert(base@ =~= permuted(order@, discrete@).take(a as int));
        }
    }
    proof {
        assert(base@ =~= permuted(order@, discrete@));
    }
    let used = all_used(sweeps.len());
    let steps = merge_keys(&base, sweeps, &used);
    proof {
        assert(used@ =~= every(sweeps@.len()));
        assert forall|s2: Seq<MergeStep>|
            #[trigger] is_merge(s2, base@, sweeps@, every(sweeps@.len())) implies s2.len() == steps@.len() by {
            lemma_merge_unique(s2, steps@, base@, sweeps@, used@);
        }
    }
    if steps.len() > limit {
        return Err(ClothError::ContactBudgetExceeded { limit });
    }
    let mut out: Vec<MergeStep> = Vec::new();
    let mut c: usize = 0;
    while c < steps.len()
        invariant
            c <= steps@.len(),
            out@ == relabel(steps@.take(c as int), order@),
            is_merge(steps@, base@, sweeps@, used@),
            base@.len() == order@.len(),
        decreases steps@.len() - c,
    {
        let s = match steps[c] {
            MergeStep::Base(i) => MergeStep::Base(order[i]),
            MergeStep::Over(j, Some(i)) => MergeStep::Over(j, Some(order[i])),
            MergeStep::Over(j, None) => MergeStep::Over(j, None),
        };
        out.push(s);
        c += 1;
        proof {
            assert(out@ =~= relabel(steps@.take(c as int), order@));
        }
    }
    proof {
        assert(steps@.take(steps@.len() as int) =~= steps@);
    }
    Ok(out)
}

/// Position of the first overriding step at or after `c`, else the length.
pub open spec fn first_over_from(steps: Seq<MergeStep>, c: int) -> int
    decreases steps.len() - c,
{
    if c >= steps.len() {
        steps.len() as int
    } else if steps[c] is Over {
        c
    } else {
        first_over_from(steps, c + 1)
    }
}

/// Where a projection pass stops for the state budget: at the first
/// contact whose state would be stored at position `limit` or later.
pub open spec fn budget_cut(steps: Seq<MergeStep>, limit: int) -> int {
    first_over_from(steps, if limit < 0 { 0 } else { limit })
}

/// Plans one projection pass over the contacts of a query: the stored
/// states (sorted by key) are merged with the active contacts (sorted by
/// key), a contact taking over the state with its key. The pass stops
/// before the first contact whose state would exceed `limit` retained
/// states; the flag reports that the budget is exceeded, which happens
/// exactly when the merged states are more than `limit`.
pub fn plan_contact_states(
    states: &Vec<ContactKey>,
    contacts: &Vec<ContactKey>,
    active: &Vec<bool>,
    limit: usize,
) -> (r: (Vec<MergeStep>, bool))
    requires
        strictly_sorted(states@),
        strictly_sorted(contacts@),
        active@.len() == contacts@.len(),
    ensures
        exists|f: Seq<MergeStep>| is_merge(f, states@, contacts@, active@),
        forall|f: Seq<MergeStep>|
            #[trigger] is_merge(f, states@, contacts@, active@) ==> r.0@ == f.take(
                budget_cut(f, limit as int),
            ) && r.1 == (f.len() > limit),
        r.1 == (merge_key_set(states@, contacts@, active@).len() > limit),
        !r.1 ==> merged_keys(r.0@, states@, contacts@).to_set() == merge_key_set(
            states@,
            contacts@,
            active@,
        ),
        strictly_sorted(merged_keys(r.0@, states@, contacts@)),
{
    let full = merge_keys(states, contacts, active);
    let mut c: usize = limit;
    if c > full.len() {
        c = full.len();
    }
    proof {
        if limit > full@.len() {
            assert(budget_cut(full@, limit as int) == full@.len());
        }
    }
    while c < full.len()
        invariant
            limit <= c <= full@.len() || (c == full@.len() && limit > full@.len()),
            budget_cut(full@, limit as int) == first_over_from(full@, c as int),
        ensures
            c <= full@.len(),
            budget_cut(full@, limit as int) == c,
        decreases full@.len() - c,
    {
        match full[c] {
            MergeStep::Over(_, _) => {
                break;
            },
            MergeStep::Base(_) => {},
        }
        c += 1;
    }
    let mut out: Vec<MergeStep> = Vec::new();
    let mut k: usize = 0;
    let ghost cut = budget_cut(full@, limit as int);
    proof {
        assert(cut == c);
    }
    while k < c
        invariant
            k <= c <= full@.len(),
            out@ == full@.take(k as int),
        decreases c - k,
    {
        out.push(full[k]);
        k += 1;
        proof {
            assert(out@ =~= full@.take(k as int));
        }
    }
    let over_budget = full.len() > limit;
    proof {
        assert forall|f: Seq<MergeStep>| #[trigger] is_merge(f, states@, contacts@, active@) implies out@
            == f.take(budget_cut(f, limit as int)) && over_budget == (f.len() > limit) by {
            lemma_merge_unique(f, full@, states@, contacts@, active@);
        }
        lemma_merge_counts_distinct_keys(full@, states@, contacts@, active@);
        lemma_kept_states_stay_sorted(full@, states@, contacts@, active@, c as int);
        if !over_budget {
            assert(budget_cut(full@, limit as int) == full@.len());
            assert(out@ =~= full@);
        }
    }
    (out, over_budget)
}

/// Two merges of the same lists are equal.
pub proof fn lemma_merge_unique(
    s1: Seq<MergeStep>,
    s2: Seq<MergeStep>,
    base: Seq<ContactKey>,
    over: Seq<ContactKey>,
    used: Seq<bool>,
)
    requires
        strictly_sorted(base),
        strictly_sorted(over),
        is_merge(s1, base, over, used),
        is_merge(s2, base, over, used),
    ensures
        s1 == s2,
{
    let ks1 = s1.map_values(|st: MergeStep| step_key(st, base, over));
    let ks2 = s2.map_values(|st: MergeStep| step_key(st, base, over));
    assert forall|a: int, b: int| 0 <= a < b < ks1.len() implies key_lt(ks1[a], ks1[b]) by {
        assert(key_lt(step_key(s1[a], base, over), step_key(s1[b], base, over)));
    }
    assert forall|a: int, b: int| 0 <= a < b < ks2.len() implies key_lt(ks2[a], ks2[b]) by {
        assert(key_lt(step_key(s2[a], base, over), step_key(s2[b], base, over)));
    }
    // Every key of one merge is a key of the other.
    assert forall|a: int| 0 <= a < ks1.len() implies ks2.contains(#[trigger] ks1[a]) by {
        let st = s1[a];
        assert(valid_step(st, base, over, used));
        match st {
            MergeStep::Base(i) => {
                assert(key_in(s2, base, over, base[i as int]));
            },
            MergeStep::Over(j, _) => {
                assert(key_in(s2, base, over, over[j as int]));
            },
        }
        let e = choose|e: int| 0 <= e < s2.len() && step_key(s2[e], base, over) == ks1[a];
        assert(ks2[e] == ks1[a]);
    }
    assert forall|a: int| 0 <= a < ks2.len() implies ks1.contains(#[trigger] ks2[a]) by {
        let st = s2[a];
        assert(valid_step(st, base, over, used));
        match st {
            MergeStep::Base(i) => {
                assert(key_in(s1, base, over, base[i as int]));
            },
            MergeStep::Over(j, _) => {
                assert(key_in(s1, base, over, over[j as int]));
            },
        }
        let e = choose|e: int| 0 <= e < s1.len() && step_key(s1[e], base, over) == ks2[a];
        assert(ks1[e] == ks2[a]);
    }
    lemma_sorted_keys_equal(ks1, ks2);
    assert forall|a: int| 0 <= a < s1.len() implies s1[a] == s2[a] by {
        assert(ks1[a] == ks2[a]);
        let k = ks1[a];
        assert(valid_step(s1[a], base, over, used));
        assert(valid_step(s2[a], base, over, used));
        match s1[a] {
            MergeStep::Base(i1) => match s2[a] {
                MergeStep::Base(i2) => {
                    if i1 != i2 {
                        if i1 < i2 {
                            assert(key_lt(base[i1 as int], base[i2 as int]));
                        } else {
                            assert(key_lt(base[i2 as int], base[i1 as int]));
                        }
                    }
                },
                MergeStep::Over(j2, _) => {
                    assert(overridden(over, used, base[i1 as int]));
                },
            },
            MergeStep::Over(j1, p1) => match s2[a] {
                MergeStep::Base(i2) => {
                    assert(overridden(over, used, base[i2 as int]));
                },
                MergeStep::Over(j2, p2) => {
                    if j1 != j2 {
                        if j1 < j2 {
                            assert(key_lt(over[j1 as int], over[j2 as int]));
                        } else {
                            assert(key_lt(over[j2 as int], over[j1 as int]));
                        }
                    }
                    match p1 {
                        Some(i1) => match p2 {
                            Some(i2) => {
                                if i1 != i2 {
                                    if i1 < i2 {
                                        assert(key_lt(base[i1 as int], base[i2 as int]));
                                    } else {
                                        assert(key_lt(base[i2 as int], base[i1 as int]));
                                    }
                                }
                            },
                            None => {
                                assert(base[i1 as int] == k);
                            },
                        },
                        None => match p2 {
                            Some(i2) => {
                                assert(base[i2 as int] == k);
                            },
                            None => {},
                        },
                    }
                },
            },
        }
    }
    assert(s1 =~= s2);
}

/// Two strictly increasing key sequences with the same members are equal.
proof fn lemma_sorted_keys_equal(k1: Seq<ContactKey>, k2: Seq<ContactKey>)
    requires
        forall|a: int, b: int| 0 <= a < b < k1.len() ==> key_lt(k1[a], k1[b]),
        forall|a: int, b: int| 0 <= a < b < k2.len() ==> key_lt(k2[a], k2[b]),
        forall|a: int| 0 <= a < k1.len() ==> k2.contains(#[trigger] k1[a]),
        forall|a: int| 0 <= a < k2.len() ==> k1.contains(#[trigger] k2[a]),
    ensures
        k1 == k2,
{
    let m = if k1.len() < k2.len() {
        k1.len()
    } else {
        k2.len()
    };
    assert forall|d: int| 0 <= d < m implies k1[d] == k2[d] by {
        lemma_sorted_prefix_equal(k1, k2, d);
    }
    if k1.len() < k2.len() {
        let x = k2[m as int];
        assert(k1.contains(x));
        let e = choose|e: int| 0 <= e < k1.len() && k1[e] == x;
        assert(k2[e] == k1[e]);
        assert(key_lt(k2[e], k2[m as int]));
    } else if k2.len() < k1.len() {
        let x = k1[m as int];
        assert(k2.contains(x));
        let e = choose|e: int| 0 <= e < k2.len() && k2[e] == x;
        assert(k1[e] == k2[e]);
        assert(key_lt(k1[e], k1[m as int]));
    }
    assert(k1 =~= k2);
}

proof fn lemma_sorted_prefix_equal(k1: Seq<ContactKey>, k2: Seq<ContactKey>, d: int)
    requires
        forall|a: int, b: int| 0 <= a < b < k1.len() ==> key_lt(k1[a], k1[b]),
        forall|a: int, b: int| 0 <= a < b < k2.len() ==> key_lt(k2[a], k2[b]),
        forall|a: int| 0 <= a < k1.len() ==> k2.contains(#[trigger] k1[a]),
        forall|a: int| 0 <= a < k2.len() ==> k1.contains(#[trigger] k2[a]),
        0 <= d < k1.len(),
        d < k2.len(),
    ensures
        k1[d] == k2[d],
    decreases d,
{
    if d > 0 {
        lemma_sorted_prefix_equal(k1, k2, d - 1);
    }
    assert forall|c: int| 0 <= c < d implies k1[c] == k2[c] by {
        lemma_sorted_prefix_equal(k1, k2, c);
    }
    let x = k1[d];
    let y = k2[d];
    if x != y {
        if key_lt(x, y) {
            assert(k2.contains(x));
            let e = choose|e: int| 0 <= e < k2.len() && k2[e] == x;
            if e < d {
                assert(k1[e] == k2[e]);
                assert(key_lt(k1[e], k1[d]));
            } else if e > d {
                assert(key_lt(k2[d], k2[e]));
            }
        } else {
            assert(key_lt(y, x));
            assert(k1.contains(y));
            let e = choose|e: int| 0 <= e < k1.len() && k1[e] == y;
            if e < d {
                assert(k1[e] == k2[e]);
                assert(key_lt(k2[e], k2[d]));
            } else if e > d {
                assert(key_lt(k1[d], k1[e]));
            }
        }
    }
}

/// The keys of a list of merge steps, in order.
pub open spec fn merged_keys(steps: Seq<MergeStep>, base: Seq<ContactKey>, over: Seq<ContactKey>) -> Seq<
    ContactKey,
> {
    steps.map_values(|st: MergeStep| step_key(st, base, over))
}

/// The states that a projection pass keeps (any prefix of a merge of the
/// stored states with the contacts) are again strictly sorted by key, so
/// they are a valid state list for the next pass.
pub proof fn lemma_kept_states_stay_sorted(
    steps: Seq<MergeStep>,
    base: Seq<ContactKey>,
    over: Seq<ContactKey>,
    used: Seq<bool>,
    c: int,
)
    requires
        is_merge(steps, base, over, used),
        0 <= c <= steps.len(),
    ensures
        strictly_sorted(merged_keys(steps.take(c), base, over)),
{
    let ks = merged_keys(steps.take(c), base, over);
    assert forall|a: int, b: int| 0 <= a < b < ks.len() implies key_lt(#[trigger] ks[a], #[trigger] ks[b]) by {
        assert(steps.take(c)[a] == steps[a] && steps.take(c)[b] == steps[b]);
        assert(key_lt(step_key(steps[a], base, over), step_key(steps[b], base, over)));
    }
}

/// The keys a merge holds: the stored keys, and the keys of the used
/// entries of the overriding list.
pub open spec fn merge_key_set(base: Seq<ContactKey>, over: Seq<ContactKey>, used: Seq<bool>) -> Set<
    ContactKey,
> {
    base.to_set().union(Set::new(|k: ContactKey| overridden(over, used, k)))
}

/// A merge lists each key of the union of the stored keys and the used
/// overriding keys exactly once, so its length is the number of distinct
/// keys: the state budget counts distinct keys, whatever one query holds.
pub proof fn lemma_merge_counts_distinct_keys(
    steps: Seq<MergeStep>,
    base: Seq<ContactKey>,
    over: Seq<ContactKey>,
    used: Seq<bool>,
)
    requires
        is_merge(steps, base, over, used),
    ensures
        merged_keys(steps, base, over).to_set() == merge_key_set(base, over, used),
        merge_key_set(base, over, used).finite(),
        steps.len() == merge_key_set(base, over, used).len(),
{
    let ks = merged_keys(steps, base, over);
    let k_set = merge_key_set(base, over, used);
    assert(ks.no_duplicates()) by {
        assert forall|a: int, b: int| 0 <= a < ks.len() && 0 <= b < ks.len() && a != b implies ks[a]
            != ks[b] by {
            if a < b {
                assert(key_lt(step_key(steps[a], base, over), step_key(steps[b], base, over)));
            } else {
                assert(key_lt(step_key(steps[b], base, over), step_key(steps[a], base, over)));
            }
        }
    }
    assert forall|k: ContactKey| ks.to_set().contains(k) implies k_set.contains(k) by {
        let a = choose|a: int| 0 <= a < ks.len() && ks[a] == k;
        assert(valid_step(steps[a], base, over, used));
        match steps[a] {
            MergeStep::Base(i) => {
                assert(base[i as int] == k);
                assert(base.to_set().contains(k));
            },
            MergeStep::Over(j, _) => {
                assert(over[j as int] == k && used[j as int]);
                assert(overridden(over, used, k));
            },
        }
    }
    assert forall|k: ContactKey| k_set.contains(k) implies ks.to_set().contains(k) by {
        if base.to_set().contains(k) {
            let i = choose|i: int| 0 <= i < base.len() && base[i] == k;
            assert(key_in(steps, base, over, base[i]));
        } else {
            assert(overridden(over, used, k));
            let j = choose|j: int| 0 <= j < over.len() && used[j] && over[j] == k;
            assert(key_in(steps, base, over, over[j]));
        }
        let a = choose|a: int| 0 <= a < steps.len() && step_key(steps[a], base, over) == k;
        assert(ks[a] == k);
    }
    assert(ks.to_set() =~= k_set);
    ks.unique_seq_to_set();
}

} // verus!
