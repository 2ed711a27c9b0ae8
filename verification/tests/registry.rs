use rapier_cloth::{ClothError, ClothSet, IdentityCounter, WorldId};

fn set(ids: &mut IdentityCounter) -> ClothSet<&'static str> {
    ClothSet::new(ids).unwrap()
}

#[test]
fn handles_are_scoped_and_generational() {
    let mut ids = IdentityCounter::new();
    let mut set_a = set(&mut ids);
    let first = set_a.insert("triangle");
    let mut other = set(&mut ids);
    other.insert("triangle");
    assert!(other.get(first).is_err());
    set_a.remove(first).unwrap();
    let second = set_a.insert("triangle");
    assert_eq!(first.index(), second.index());
    assert_ne!(first.generation(), second.generation());
    assert!(set_a.get(first).is_err());
    assert!(set_a.get(second).is_ok());
}

#[test]
fn insert_fills_first_free_slot_and_get_returns_value() {
    let mut ids = IdentityCounter::new();
    let mut s = set(&mut ids);
    let a = s.insert("a");
    let b = s.insert("b");
    let c = s.insert("c");
    assert_eq!((a.index(), b.index(), c.index()), (0, 1, 2));
    assert_eq!(*s.get(b).unwrap(), "b");
    assert_eq!(s.remove(b), Ok("b"));
    assert_eq!(s.remove(b), Err(ClothError::InvalidHandle));
    assert_eq!(s.len(), 2);
    let d = s.insert("d");
    assert_eq!(d.index(), 1);
    assert_eq!(d.generation(), 1);
    assert_eq!(*s.get(d).unwrap(), "d");
    *s.get_mut(d).unwrap() = "e";
    assert_eq!(*s.get(d).unwrap(), "e");
    let listed: Vec<_> = s.iter().into_iter().map(|(h, v)| (h.index(), *v)).collect();
    assert_eq!(listed, vec![(0, "a"), (1, "e"), (2, "c")]);
    assert!(!s.is_empty());
}

#[test]
fn stale_handles_never_resolve_after_reuse() {
    let mut ids = IdentityCounter::new();
    let mut s = set(&mut ids);
    let mut stale = vec![];
    for _ in 0..5 {
        let h = s.insert("x");
        stale.push(h);
        s.remove(h).unwrap();
    }
    let live = s.insert("y");
    assert_eq!(live.generation(), 5);
    for h in stale {
        assert!(s.get(h).is_err());
        assert!(s.get_mut(h).is_err());
        assert!(s.remove(h).is_err());
    }
    assert_eq!(s.len(), 1);
}

#[test]
fn identities_are_handed_out_once() {
    let mut ids = IdentityCounter::new();
    let a = WorldId::new(&mut ids).unwrap();
    let b = WorldId::new(&mut ids).unwrap();
    assert_ne!(a, b);
    let s1 = set(&mut ids);
    let s2 = set(&mut ids);
    assert_ne!(s1.identity(), s2.identity());
    assert_eq!(s1.identity() + 1, s2.identity());
    // Later identities are larger, whatever else the counter handed out.
    let c = WorldId::new(&mut ids).unwrap();
    assert!(a < b && b < c);
    let mut counter = IdentityCounter::new();
    assert_eq!(counter.allocate(), Some(1));
    assert_eq!(counter.allocate(), Some(2));
}

#[test]
fn check_particle_refuses_out_of_range_indices() {
    assert_eq!(rapier_cloth::error::check_particle(2, 3), Ok(2));
    assert_eq!(
        rapier_cloth::error::check_particle(3, 3),
        Err(ClothError::InvalidParticle(3))
    );
    assert_eq!(
        rapier_cloth::error::check_particle(99, 3),
        Err(ClothError::InvalidParticle(99))
    );
}

#[test]
fn error_messages_name_the_values() {
    assert_eq!(
        ClothError::InvalidParticle(42).message(),
        "invalid particle index 42"
    );
    assert_eq!(
        ClothError::ContactBudgetExceeded { limit: 10 }.message(),
        "contact budget exceeded (10)"
    );
    assert_eq!(
        ClothError::InvalidMesh("duplicate triangle".into()).message(),
        "invalid cloth mesh: duplicate triangle"
    );
    assert_eq!(
        ClothError::InvalidHandle.message(),
        "invalid or expired cloth handle"
    );
    assert_eq!(
        ClothError::ConflictingTarget(0).message(),
        "conflicting targets on particle 0"
    );
}
