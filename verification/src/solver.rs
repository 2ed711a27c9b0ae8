use vstd::prelude::*;

use crate::contact::{contact_before, key_order, lemma_key_order_unique, order_by_key, ContactKey};
use crate::error::ClothError;

verus! {

/// Settings the solver accepts: 1 to 1024 iterations, a valid substep
/// duration (`substep_ok`: finite, positive, at most the maximum substep,
/// with a finite inverse square) and a nonzero contact budget.
pub open spec fn settings_fault(iterations: usize, substep_ok: bool, max_contacts: usize) -> Option<
    &'static str,
> {
    if iterations == 0 || iterations > 1024 {
        Some("iterations must be in 1..=1024")
    } else if !substep_ok {
        Some("substep duration")
    } else if max_contacts == 0 {
        Some("max_contacts")
    } else {
        None
    }
}

pub fn check_solver_settings(iterations: usize, substep_ok: bool, max_contacts: usize) -> (r: Result<
    (),
    ClothError,
>)
    ensures
        match settings_fault(iterations, substep_ok, max_contacts) {
            None => r is Ok,
            Some(m) => r == Err::<(), ClothError>(ClothError::InvalidParameter(m)),
        },
{
    if iterations == 0 || iterations > 1024 {
        return Err(ClothError::InvalidParameter("iterations must be in 1..=1024"));
    }
    if !substep_ok {
        return Err(ClothError::InvalidParameter("substep duration"));
    }
    if max_contacts == 0 {
        return Err(ClothError::InvalidParameter("max_contacts"));
    }
    Ok(())
}

/// Target `x` comes before target `y` when sorted stably by particle.
pub open spec fn target_before(particles: Seq<u32>, x: int, y: int) -> bool {
    particles[x] < particles[y] || (particles[x] == particles[y] && x < y)
}

/// `order` lists every target index once, sorted stably by particle.
pub open spec fn stable_order(order: Seq<usize>, particles: Seq<u32>) -> bool {
    &&& order.len() == particles.len()
    &&& forall|a: int| 0 <= a < order.len() ==> #[trigger] order[a] < particles.len()
    &&& forall|a: int, b: int|
        0 <= a < b < order.len() ==> target_before(
            particles,
            #[trigger] order[a] as int,
            #[trigger] order[b] as int,
        )
    &&& forall|i: int| 0 <= i < particles.len() ==> #[trigger] order.contains(i as usize)
}

/// The check of the target at position `a` of the stable order: a particle
/// of the cloth, valid values, and no other target on the same particle.
pub open spec fn target_fault(
    order: Seq<usize>,
    particles: Seq<u32>,
    valid: Seq<bool>,
    n: nat,
    a: int,
) -> Option<ClothError> {
    let p = particles[order[a] as int];
    if p >= n {
        Some(ClothError::InvalidParticle(p))
    } else if !valid[order[a] as int] {
        Some(ClothError::InvalidParameter("target"))
    } else if a > 0 && particles[order[a - 1] as int] == p {
        Some(ClothError::ConflictingTarget(p))
    } else {
        None
    }
}

/// The first fault along the first `m` positions of the order.
pub open spec fn first_target_fault(
    order: Seq<usize>,
    particles: Seq<u32>,
    valid: Seq<bool>,
    n: nat,
    m: int,
) -> Option<ClothError>
    decreases m,
{
    if m <= 0 {
        None
    } else {
        match first_target_fault(order, particles, valid, n, m - 1) {
            Some(e) => Some(e),
            None => target_fault(order, particles, valid, n, m - 1),
        }
    }
}

proof fn lemma_first_target_fault_persists(
    order: Seq<usize>,
    particles: Seq<u32>,
    valid: Seq<bool>,
    n: nat,
    a: int,
    b: int,
)
    requires
        0 <= a <= b,
        first_target_fault(order, particles, valid, n, a) is Some,
    ensures
        first_target_fault(order, particles, valid, n, b) == first_target_fault(
            order,
            particles,
            valid,
            n,
            a,
        ),
    decreases b - a,
{
    if a < b {
        lemma_first_target_fault_persists(order, particles, valid, n, a, b - 1);
    }
}

/// Target particles as contact keys: ordering targets stably by particle is
/// ordering these keys stably.
spec fn particle_keys(particles: Seq<u32>) -> Seq<ContactKey> {
    particles.map_values(|p: u32| ContactKey { particle: p, external: 0, feature: 0 })
}

proof fn lemma_stable_is_key_order(o: Seq<usize>, particles: Seq<u32>)
    ensures
        stable_order(o, particles) <==> key_order(o, particle_keys(particles)),
{
    let keys = particle_keys(particles);
    assert forall|x: int, y: int|
        0 <= x < particles.len() && 0 <= y < particles.len() implies target_before(particles, x, y)
        == contact_before(keys, x, y) by {
        assert(keys[x].particle == particles[x] && keys[y].particle == particles[y]);
    }
    if stable_order(o, particles) {
        assert forall|a: int, b: int| 0 <= a < b < o.len() implies contact_before(
            keys,
            #[trigger] o[a] as int,
            #[trigger] o[b] as int,
        ) by {
            assert(target_before(particles, o[a] as int, o[b] as int));
        }
    }
    if key_order(o, keys) {
        assert forall|a: int, b: int| 0 <= a < b < o.len() implies target_before(
            particles,
            #[trigger] o[a] as int,
            #[trigger] o[b] as int,
        ) by {
            assert(contact_before(keys, o[a] as int, o[b] as int));
        }
    }
}

/// There is only one stable order.
pub proof fn lemma_stable_order_unique(o1: Seq<usize>, o2: Seq<usize>, particles: Seq<u32>)
    requires
        stable_order(o1, particles),
        stable_order(o2, particles),
    ensures
        o1 == o2,
{
    lemma_stable_is_key_order(o1, particles);
    lemma_stable_is_key_order(o2, particles);
    lemma_key_order_unique(o1, o2, particle_keys(particles));
}

/// Stable sort of the target indices by particle.
fn stable_sort_by_particle(particles: &Vec<u32>) -> (r: Vec<usize>)
    ensures
        stable_order(r@, particles@),
{
    let mut keys: Vec<ContactKey> = Vec::new();
    let mut i: usize = 0;
    while i < particles.len()
        invariant
            i <= particles@.len(),
            keys@ == particle_keys(particles@).take(i as int),
        decreases particles@.len() - i,
    {
        keys.push(ContactKey { particle: particles[i], external: 0, feature: 0 });
        i += 1;
        proof {
            assert(keys@ =~= particle_keys(particles@).take(i as int));
        }
    }
    proof {
        assert(keys@ =~= particle_keys(particles@));
    }
    let order = order_by_key(&keys);
    proof {
        lemma_stable_is_key_order(order@, particles@);
    }
    order
}

/// Every target names a particle of the cloth and has valid values.
pub open spec fn valid_targets(particles: Seq<u32>, valid: Seq<bool>, n: nat) -> bool {
    forall|i: int| 0 <= i < particles.len() ==> #[trigger] particles[i] < n && valid[i]
}

/// No particle is named twice.
pub open spec fn distinct_particles(particles: Seq<u32>) -> bool {
    forall|i: int, j: int|
        0 <= i < particles.len() && 0 <= j < particles.len() && i != j ==> #[trigger] particles[i]
            != #[trigger] particles[j]
}

/// The particles named along `order` strictly increase.
pub open spec fn increasing_along(order: Seq<usize>, particles: Seq<u32>) -> bool {
    forall|a: int, b: int|
        0 <= a < b < order.len() ==> particles[#[trigger] order[a] as int] < particles[#[trigger] order[b] as int]
}

/// The stable order of distinct particles strictly increases, and it names
/// every target once.
pub proof fn lemma_stable_order_checks(o: Seq<usize>, particles: Seq<u32>, valid: Seq<bool>, n: nat)
    requires
        stable_order(o, particles),
        valid.len() == particles.len(),
        particles.len() <= usize::MAX,
    ensures
        increasing_along(o, particles) <==> distinct_particles(particles),
        (forall|a: int| 0 <= a < o.len() ==> particles[#[trigger] o[a] as int] < n && valid[o[a] as int])
            <==> valid_targets(particles, valid, n),
{
    if distinct_particles(particles) {
        assert forall|a: int, b: int| 0 <= a < b < o.len() implies particles[#[trigger] o[a] as int]
            < particles[#[trigger] o[b] as int] by {
            assert(target_before(particles, o[a] as int, o[b] as int));
        }
    }
    if increasing_along(o, particles) {
        assert forall|i: int, j: int|
            0 <= i < particles.len() && 0 <= j < particles.len() && i != j implies #[trigger] particles[i]
                != #[trigger] particles[j] by {
            assert(o.contains(i as usize));
            assert(o.contains(j as usize));
            let x = choose|x: int| 0 <= x < o.len() && o[x] == i as usize;
            let y = choose|y: int| 0 <= y < o.len() && o[y] == j as usize;
            if x < y {
                assert(particles[o[x] as int] < particles[o[y] as int]);
            } else {
                assert(particles[o[y] as int] < particles[o[x] as int]);
            }
        }
    }
    if valid_targets(particles, valid, n) {
        assert forall|a: int| 0 <= a < o.len() implies particles[#[trigger] o[a] as int] < n && valid[o[a] as int] by {
            assert(o[a] < particles.len());
        }
    }
    if forall|a: int| 0 <= a < o.len() ==> particles[#[trigger] o[a] as int] < n && valid[o[a] as int] {
        assert forall|i: int| 0 <= i < particles.len() implies #[trigger] particles[i] < n && valid[i] by {
            assert(o.contains(i as usize));
            let x = choose|x: int| 0 <= x < o.len() && o[x] == i as usize;
            assert(particles[o[x] as int] < n);
        }
    }
}

/// Orders the targets of a substep: pins first, then external targets, sorted
/// stably by particle. `valid[t]` is the verdict on the values of target `t`
/// (finite position, finite and nonnegative compliance). The first fault in
/// that order is reported; otherwise the order is returned.
pub fn order_targets(particles: &Vec<u32>, valid: &Vec<bool>, particle_count: usize) -> (r: Result<
    Vec<usize>,
    ClothError,
>)
    requires
        valid@.len() == particles@.len(),
    ensures
        exists|o: Seq<usize>| stable_order(o, particles@),
        forall|o: Seq<usize>|
            #[trigger] stable_order(o, particles@) ==> match first_target_fault(
                o,
                particles@,
                valid@,
                particle_count as nat,
                o.len() as int,
            ) {
                None => r == Ok::<Vec<usize>, ClothError>(r->Ok_0) && r->Ok_0@ == o,
                Some(e) => r == Err::<Vec<usize>, ClothError>(e),
            },
        r is Ok <==> distinct_particles(particles@) && valid_targets(particles@, valid@, particle_count as nat),
        r matches Ok(o) ==> increasing_along(o@, particles@),
        valid_targets(particles@, valid@, particle_count as nat) && !distinct_particles(particles@) ==> (
        r matches Err(ClothError::ConflictingTarget(p)) && exists|i: int, j: int|
            0 <= i < j < particles@.len() && #[trigger] particles@[i] == p && #[trigger] particles@[j] == p),
{
    let order = stable_sort_by_particle(particles);
    let ghost o = order@;
    let mut a: usize = 0;
    while a < order.len()
        invariant
            o == order@,
            stable_order(o, particles@),
            valid@.len() == particles@.len(),
            a <= o.len(),
            first_target_fault(o, particles@, valid@, particle_count as nat, a as int) is None,
            forall|x: int, y: int|
                0 <= x < y < a ==> particles@[#[trigger] o[x] as int] < particles@[#[trigger] o[y] as int],
            forall|x: int| 0 <= x < a ==> particles@[#[trigger] o[x] as int] < particle_count && valid@[o[x] as int],
        decreases o.len() - a,
    {
        let p = particles[order[a]];
        proof {
            lemma_first_target_fault_persists_from(o, particles@, valid@, particle_count as nat, a as int);
        }
        if p as usize >= particle_count {
            proof {
                assert forall|o2: Seq<usize>| #[trigger] stable_order(o2, particles@) implies o2 == o by {
                    lemma_stable_order_unique(o2, o, particles@);
                }
                assert(!valid_targets(particles@, valid@, particle_count as nat));
            }
            return Err(ClothError::InvalidParticle(p));
        }
        if !valid[order[a]] {
            proof {
                assert forall|o2: Seq<usize>| #[trigger] stable_order(o2, particles@) implies o2 == o by {
                    lemma_stable_order_unique(o2, o, particles@);
                }
                assert(o[a as int] < particles@.len());
                assert(!valid_targets(particles@, valid@, particle_count as nat));
            }
            return Err(ClothError::InvalidParameter("target"));
        }
        if a > 0 && particles[order[a - 1]] == p {
            proof {
                assert forall|o2: Seq<usize>| #[trigger] stable_order(o2, particles@) implies o2 == o by {
                    lemma_stable_order_unique(o2, o, particles@);
                }
            }
            proof {
                let i = o[a - 1] as int;
                let j = o[a as int] as int;
                assert(target_before(particles@, i, j));
                assert(i < j);
                assert(particles@[i] == p && particles@[j] == p);
                assert(!distinct_particles(particles@));
            }
            return Err(ClothError::ConflictingTarget(p));
        }
        proof {
            if a > 0 {
                assert(target_before(particles@, o[a - 1] as int, o[a as int] as int));
            }
        }
        a += 1;
    }
    proof {
        assert forall|o2: Seq<usize>| #[trigger] stable_order(o2, particles@) implies o2 == o by {
            lemma_stable_order_unique(o2, o, particles@);
        }
        lemma_stable_order_checks(o, particles@, valid@, particle_count as nat);
    }
    Ok(order)
}

/// A fault at position `a`, after none before it, is the first fault overall.
proof fn lemma_first_target_fault_persists_from(
    order: Seq<usize>,
    particles: Seq<u32>,
    valid: Seq<bool>,
    n: nat,
    a: int,
)
    requires
        0 <= a < order.len(),
        first_target_fault(order, particles, valid, n, a) is None,
    ensures
        target_fault(order, particles, valid, n, a) is Some ==> first_target_fault(
            order,
            particles,
            valid,
            n,
            order.len() as int,
        ) == target_fault(order, particles, valid, n, a),
{
    if target_fault(order, particles, valid, n, a) is Some {
        lemma_first_target_fault_persists(order, particles, valid, n, a + 1, order.len() as int);
    }
}

} // verus!
