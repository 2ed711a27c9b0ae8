use rapier_cloth::solver::{check_solver_settings, order_targets};
use rapier_cloth::ClothError;

#[test]
fn targets_sort_stably_by_particle() {
    // Pins come first, then external targets.
    let particles = vec![3, 0, 2, 1];
    let valid = vec![true; 4];
    assert_eq!(order_targets(&particles, &valid, 4), Ok(vec![1, 3, 2, 0]));
}

#[test]
fn first_fault_in_sorted_order_decides() {
    assert_eq!(
        order_targets(&vec![7, 1], &vec![true, true], 4),
        Err(ClothError::InvalidParticle(7))
    );
    assert_eq!(
        order_targets(&vec![2, 1, 2], &vec![true, true, true], 4),
        Err(ClothError::ConflictingTarget(2))
    );
    // A pin and an attachment on the same particle conflict; the invalid
    // value of a lower particle is reported first.
    assert_eq!(
        order_targets(&vec![2, 1, 2], &vec![true, false, true], 4),
        Err(ClothError::InvalidParameter("target"))
    );
    // Among equal particles the earlier target is checked first.
    assert_eq!(
        order_targets(&vec![2, 2], &vec![true, false], 4),
        Err(ClothError::InvalidParameter("target"))
    );
    assert_eq!(
        order_targets(&vec![2, 2], &vec![false, true], 4),
        Err(ClothError::InvalidParameter("target"))
    );
    assert_eq!(order_targets(&vec![], &vec![], 4), Ok(vec![]));
}

#[test]
fn solver_settings_are_checked_in_order() {
    assert_eq!(check_solver_settings(8, true, 65536), Ok(()));
    assert_eq!(
        check_solver_settings(0, false, 0),
        Err(ClothError::InvalidParameter("iterations must be in 1..=1024"))
    );
    assert_eq!(
        check_solver_settings(1025, true, 1),
        Err(ClothError::InvalidParameter("iterations must be in 1..=1024"))
    );
    assert_eq!(
        check_solver_settings(1024, false, 0),
        Err(ClothError::InvalidParameter("substep duration"))
    );
    assert_eq!(
        check_solver_settings(1, true, 0),
        Err(ClothError::InvalidParameter("max_contacts"))
    );
}
