use rapier_cloth::contact::{
    check_contact_budget, check_query, check_sorted_contacts, classify_collider,
    collider_external_key, merge_sweep_contacts, order_by_key, plan_contact_states, ColliderUse,
};
use rapier_cloth::{ClothError, ContactKey, MergeStep};
use std::collections::BTreeMap;

fn key(particle: u32, external: u64) -> ContactKey {
    ContactKey {
        particle,
        external,
        feature: 0,
    }
}

#[test]
fn sweep_planes_override_current_geometry_and_survive_missing_candidates() {
    // Source order is collider-first; the solver order is particle-first.
    let discrete = vec![key(1, 0), key(0, 1), key(1, 1)];
    let sweeps = vec![key(0, 0), key(1, 0), key(2, 0)];
    let steps = merge_sweep_contacts(&discrete, &sweeps, 5).unwrap();
    let keys: Vec<_> = steps
        .iter()
        .map(|s| match *s {
            MergeStep::Base(i) => discrete[i],
            MergeStep::Over(j, _) => sweeps[j],
        })
        .collect();
    assert_eq!(
        keys.iter()
            .map(|k| (k.particle, k.external))
            .collect::<Vec<_>>(),
        [(0, 0), (0, 1), (1, 0), (1, 1), (2, 0)]
    );
    // Sweep planes (X normals) replace discrete contacts (Y normals).
    let from_sweep: Vec<bool> = steps
        .iter()
        .map(|s| matches!(s, MergeStep::Over(..)))
        .collect();
    assert_eq!(from_sweep, [true, false, true, false, true]);
    // Later projection removes all discrete candidates. The cached hit
    // planes must still constrain the same particles through this step.
    let steps = merge_sweep_contacts(&vec![], &sweeps, 5).unwrap();
    assert_eq!(
        steps,
        vec![
            MergeStep::Over(0, None),
            MergeStep::Over(1, None),
            MergeStep::Over(2, None)
        ]
    );
    assert!(matches!(
        merge_sweep_contacts(&discrete, &sweeps, 4),
        Err(ClothError::ContactBudgetExceeded { limit: 4 })
    ));
}

#[test]
fn sweep_merge_names_discrete_contacts_by_query_position() {
    let discrete = vec![key(1, 1), key(0, 1), key(1, 0)];
    let sweeps = vec![key(1, 0)];
    let steps = merge_sweep_contacts(&discrete, &sweeps, 8).unwrap();
    assert_eq!(
        steps,
        vec![
            MergeStep::Base(1),
            MergeStep::Over(0, Some(2)),
            MergeStep::Base(0)
        ]
    );
}

#[test]
fn sweep_merge_refuses_a_repeated_discrete_key() {
    let discrete = vec![key(0, 1), key(2, 0), key(0, 1)];
    let sweeps = vec![key(1, 0)];
    match merge_sweep_contacts(&discrete, &sweeps, 8) {
        Err(ClothError::External(m)) => assert_eq!(m, "duplicate contact key"),
        other => panic!("unexpected {:?}", other),
    }
    // The duplicate is reported before the budget is looked at.
    match merge_sweep_contacts(&discrete, &sweeps, 1) {
        Err(ClothError::External(m)) => assert_eq!(m, "duplicate contact key"),
        other => panic!("unexpected {:?}", other),
    }
}

/// Keys of the projected states after one pass of the map-based reference.
fn oracle(
    states: &mut BTreeMap<ContactKey, ()>,
    contacts: &[ContactKey],
    active: &[bool],
) {
    for (c, &a) in contacts.iter().zip(active) {
        if a {
            states.insert(*c, ());
        }
    }
}

#[test]
fn sorted_states_match_tree_oracle_with_changing_contacts() {
    let weights = [1.0f32, 0.0, 2.0];
    let mut states: Vec<ContactKey> = vec![];
    let mut expected = BTreeMap::<ContactKey, ()>::new();
    for iteration in 0..12u64 {
        let mut contacts = vec![];
        // Alternate keys to cover insertions before/between/after old
        // states, disappearances and returns.
        for particle in 0..3u32 {
            for external in 0..5u64 {
                if (iteration + external) % 3 == 0 {
                    continue;
                }
                contacts.push(key(particle, external));
            }
        }
        let active: Vec<bool> = contacts
            .iter()
            .map(|c| weights[c.particle as usize] != 0.0)
            .collect();
        oracle(&mut expected, &contacts, &active);
        let (steps, over) = plan_contact_states(&states, &contacts, &active, 10);
        assert!(!over);
        states = steps
            .iter()
            .map(|s| match *s {
                MergeStep::Base(i) => states[i],
                MergeStep::Over(j, _) => contacts[j],
            })
            .collect();
        assert_eq!(states.len(), expected.len());
        for (actual, (k, _)) in states.iter().zip(&expected) {
            assert_eq!(actual, k);
        }
    }
    // A new key exceeds the cumulative budget even though this individual
    // query only has one contact. Disappeared states still count.
    let (steps, over) = plan_contact_states(&states, &vec![key(0, 99)], &vec![true], 10);
    assert!(over);
    // The new contact lands below the budget, so the pass projects it and
    // only the retained states that follow push the total past the limit.
    assert_eq!(steps.len(), 11);
    assert_eq!(steps[5], MergeStep::Over(0, None));
    assert!(steps
        .iter()
        .enumerate()
        .all(|(i, s)| i == 5 || matches!(s, MergeStep::Base(_))));
}

#[test]
fn state_pass_reuses_matching_states_and_skips_inactive_contacts() {
    let states = vec![key(0, 1), key(2, 0)];
    let contacts = vec![key(0, 0), key(0, 1), key(1, 0), key(2, 0)];
    let active = vec![true, true, false, true];
    let (steps, over) = plan_contact_states(&states, &contacts, &active, 10);
    assert!(!over);
    assert_eq!(
        steps,
        vec![
            MergeStep::Over(0, None),
            MergeStep::Over(1, Some(0)),
            MergeStep::Over(3, Some(1)),
        ]
    );
    let (steps, over) = plan_contact_states(&states, &contacts, &active, 2);
    assert!(over);
    assert_eq!(steps, vec![MergeStep::Over(0, None), MergeStep::Over(1, Some(0))]);
}

#[test]
fn query_results_are_checked_in_key_order() {
    let keys = vec![key(0, 1), key(1, 0), key(1, 0)];
    assert_eq!(
        check_sorted_contacts(&keys, &vec![true, true, true], 3),
        Err(ClothError::External("duplicate contact key".into()))
    );
    assert_eq!(
        check_sorted_contacts(&keys, &vec![true, false, true], 3),
        Err(ClothError::External("invalid contact geometry".into()))
    );
    assert_eq!(
        check_sorted_contacts(&vec![key(0, 1), key(5, 0)], &vec![true, true], 3),
        Err(ClothError::External("invalid contact geometry".into()))
    );
    assert_eq!(
        check_sorted_contacts(&vec![key(0, 1), key(2, 0)], &vec![true, true], 3),
        Ok(())
    );
    assert_eq!(check_contact_budget(3, 3), Ok(()));
    assert_eq!(
        check_contact_budget(4, 3),
        Err(ClothError::ContactBudgetExceeded { limit: 3 })
    );
}

#[test]
fn collider_keys_pack_generation_above_index() {
    assert_eq!(collider_external_key(5, 0), 5);
    assert_eq!(collider_external_key(5, 2), (2u64 << 32) | 5);
    assert_eq!(collider_external_key(u32::MAX, u32::MAX), u64::MAX);
}

#[test]
fn query_results_are_sorted_stably_then_checked() {
    let keys = vec![key(2, 0), key(0, 7), key(1, 3), key(0, 2)];
    let ok = vec![true; 4];
    assert_eq!(check_query(&keys, &ok, 3, 8), Ok(vec![3, 1, 2, 0]));
    assert_eq!(
        check_query(&keys, &ok, 3, 3),
        Err(ClothError::ContactBudgetExceeded { limit: 3 })
    );
    // The first refused contact in key order decides: key (0, 2) has bad
    // geometry and comes before the duplicate pair.
    let keys = vec![key(1, 3), key(1, 3), key(0, 2)];
    assert_eq!(
        check_query(&keys, &vec![true, true, false], 3, 8),
        Err(ClothError::External("invalid contact geometry".into()))
    );
    assert_eq!(
        check_query(&keys, &vec![true, true, true], 3, 8),
        Err(ClothError::External("duplicate contact key".into()))
    );
    assert_eq!(check_query(&vec![], &vec![], 0, 0), Ok(vec![]));
}

#[test]
fn equal_keys_keep_their_input_order() {
    let keys = vec![key(1, 0), key(0, 3), key(1, 0), key(0, 1)];
    assert_eq!(order_by_key(&keys), vec![3, 1, 0, 2]);
    assert_eq!(order_by_key(&vec![]), Vec::<usize>::new());
}

#[test]
fn candidate_colliders_are_classified_in_order() {
    assert_eq!(
        classify_collider(true, true, false, true, false, false, false),
        ColliderUse::Ignored
    );
    assert_eq!(
        classify_collider(false, false, false, false, false, false, true),
        ColliderUse::Ignored
    );
    assert_eq!(
        classify_collider(false, true, true, true, false, false, true),
        ColliderUse::Ignored
    );
    assert_eq!(
        classify_collider(false, true, false, true, false, false, true),
        ColliderUse::Unsupported("dynamic body: one-way MVP accepts fixed or kinematic bodies")
    );
    assert_eq!(
        classify_collider(false, true, false, false, true, true, true),
        ColliderUse::Unsupported("kinematic halfspaces are not supported")
    );
    assert_eq!(
        classify_collider(false, true, false, false, false, false, false),
        ColliderUse::Unsupported("shape outside sphere/box/capsule/fixed-halfspace support")
    );
    assert_eq!(
        classify_collider(false, true, false, false, false, true, true),
        ColliderUse::Used
    );
}
