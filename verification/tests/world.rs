use rapier_cloth::{
    AttachChecks, AttachmentDesc, AttachmentEvent, AttachmentEventKind, AttachmentHandle,
    AttachmentPoint, BodyStatus, ClothError, ClothHandle, ClothWorld, IdentityCounter,
    SceneSnapshot, WorldError, WorldId,
};

type World = ClothWorld<Vec<f32>, [f32; 3], f32>;
type Desc = AttachmentDesc<[f32; 3], f32>;

struct Ids {
    worlds: IdentityCounter,
    cloths: IdentityCounter,
    attachments: IdentityCounter,
}

impl Ids {
    fn new() -> Self {
        Ids {
            worlds: IdentityCounter::new(),
            cloths: IdentityCounter::new(),
            attachments: IdentityCounter::new(),
        }
    }
    fn world(&mut self) -> World {
        let id = WorldId::new(&mut self.worlds).unwrap();
        match ClothWorld::new(id, &mut self.cloths, &mut self.attachments) {
            Some(w) => w,
            None => panic!("identity counters exhausted"),
        }
    }
}

const BODY: (u32, u32) = (0, 0);
const OTHER_BODY: (u32, u32) = (1, 0);

fn status(dynamic: bool, enabled: bool) -> Option<BodyStatus> {
    Some(BodyStatus { dynamic, enabled })
}

fn desc(cloth: ClothHandle, body: (u32, u32), particles: &[u32]) -> Desc {
    AttachmentDesc {
        cloth,
        body,
        points: particles
            .iter()
            .map(|&particle| AttachmentPoint {
                particle,
                local_anchor: [0.0, 0.0, 0.0],
            })
            .collect(),
        compliance: 0.0,
        excluded_colliders: vec![],
    }
}

fn checks(d: &Desc, particle_count: usize) -> AttachChecks {
    AttachChecks {
        body: status(false, true),
        compliance_ok: true,
        anchors_finite: vec![true; d.points.len()],
        particle_count,
        pinned: vec![false; d.points.len()],
        excluded_parents: vec![Some(d.body); d.excluded_colliders.len()],
    }
}

fn attach(w: &mut World, cloth: ClothHandle, body: (u32, u32), particles: &[u32]) -> AttachmentHandle {
    let d = desc(cloth, body, particles);
    let c = checks(&d, 9);
    w.attach(d, &c).unwrap()
}

fn scene(world: WorldId, step: u64) -> SceneSnapshot<[f32; 3]> {
    SceneSnapshot::capture(world, step, &vec![(BODY, [0.0, 1.0, 0.0])], &vec![])
}

#[test]
fn token_duration_world_and_duplicate_steps_are_checked() {
    let mut ids = Ids::new();
    let mut w = ids.world();
    w.add_cloth(vec![0.0; 9]);
    let previous = scene(w.world_id(), 0);
    let wrong = scene(WorldId::new(&mut ids.worlds).unwrap(), 0);
    assert_eq!(
        w.begin_step(wrong.world_id(), wrong.step_index(), true, Ok(()), true),
        Err(WorldError::InvalidScene("world identity mismatch"))
    );
    // A substep duration that differs from the scene's.
    assert_eq!(
        w.begin_step(previous.world_id(), previous.step_index(), false, Ok(()), true),
        Err(WorldError::InvalidScene("duration or gravity mismatch"))
    );
    assert_eq!(
        w.begin_step(previous.world_id(), previous.step_index(), true, Ok(()), true),
        Ok(1)
    );
    w.commit_step(vec![], vec![]);
    assert_eq!(w.next_step_index(), 1);
    assert_eq!(
        w.begin_step(previous.world_id(), previous.step_index(), true, Ok(()), true),
        Err(WorldError::InvalidScene(
            "substep must be consumed exactly once, in order"
        ))
    );
}

#[test]
fn settings_verdicts_refuse_the_substep() {
    let mut ids = Ids::new();
    let w = ids.world();
    let id = w.world_id();
    assert_eq!(
        w.begin_step(id, 0, true, Err(ClothError::InvalidParameter("iterations")), true),
        Err(WorldError::Core(ClothError::InvalidParameter("iterations")))
    );
    assert_eq!(
        w.begin_step(id, 0, true, Ok(()), false),
        Err(WorldError::Core(ClothError::InvalidParameter(
            "collision settings"
        )))
    );
    assert_eq!(w.begin_step(id, 0, true, Ok(()), true), Ok(1));
}

#[test]
fn failed_substep_requires_restore() {
    let mut ids = Ids::new();
    let mut w = ids.world();
    let cloth = w.add_cloth(vec![1.0, 2.0, 3.0]);
    let cp = match w.checkpoint() {
        Ok(cp) => cp,
        Err(e) => panic!("checkpoint refused: {:?}", e),
    };
    w.commit_step(vec![(cloth, vec![4.0, 5.0, 6.0])], vec![]);
    w.fail_step();
    assert!(w.is_desynchronized());
    let id = w.world_id();
    assert_eq!(
        w.begin_step(id, 1, true, Ok(()), true),
        Err(WorldError::InvalidScene(
            "previous substep failed; restore both worlds from a checkpoint"
        ))
    );
    assert_eq!(
        w.checkpoint().err(),
        Some(WorldError::InvalidScene("cannot checkpoint a failed step"))
    );
    let mut fresh = ids.world();
    assert_eq!(
        fresh.restore(&cp),
        Err(WorldError::InvalidScene(
            "checkpoint belongs to another cloth world"
        ))
    );
    assert_eq!(w.restore(&cp), Ok(()));
    assert!(!w.is_desynchronized());
    assert_eq!(w.next_step_index(), 0);
    assert_eq!(w.cloth(cloth).unwrap(), &vec![1.0, 2.0, 3.0]);
    assert_eq!(w.begin_step(id, 0, true, Ok(()), true), Ok(1));
}

#[test]
fn release_reports_the_event_and_slots_are_reused_with_new_generation() {
    let mut ids = Ids::new();
    let mut w = ids.world();
    let cloth = w.add_cloth(vec![0.0; 9]);
    let a = attach(&mut w, cloth, BODY, &[0, 1, 2, 3]);
    assert_eq!(w.attachment(a).unwrap().points.len(), 4);
    assert_eq!(w.release(a), Ok(()));
    assert_eq!(
        w.release(a),
        Err(WorldError::InvalidAttachment("stale or foreign handle"))
    );
    let events = w.drain_attachment_events();
    assert_eq!(
        events,
        vec![AttachmentEvent {
            handle: a,
            cloth,
            body: BODY,
            kind: AttachmentEventKind::Released
        }]
    );
    assert!(w.drain_attachment_events().is_empty());
    let b = attach(&mut w, cloth, OTHER_BODY, &[0]);
    assert_eq!(a.index(), b.index());
    assert_ne!(a.generation(), b.generation());
    assert!(w.attachment(a).is_err());
    assert_eq!(w.attachment(b).unwrap().body, OTHER_BODY);
}

#[test]
fn foreign_attachment_handles_are_rejected() {
    let mut ids = Ids::new();
    let mut w = ids.world();
    let cloth = w.add_cloth(vec![0.0; 9]);
    let a = attach(&mut w, cloth, BODY, &[0]);
    let other = ids.world();
    assert_eq!(
        other.attachment(a).err(),
        Some(WorldError::InvalidAttachment("stale or foreign handle"))
    );
    assert!(w.attachment(a).is_ok());
}

#[test]
fn attach_refusals_come_in_order_and_change_nothing() {
    let mut ids = Ids::new();
    let mut w = ids.world();
    let cloth = w.add_cloth(vec![0.0; 9]);
    let gone = w.add_cloth(vec![0.0; 9]);
    w.remove_cloth(gone).unwrap();
    let held = attach(&mut w, cloth, BODY, &[5]);

    let d = desc(gone, BODY, &[0]);
    let c = checks(&d, 9);
    assert_eq!(w.attach(d, &c), Err(WorldError::Core(ClothError::InvalidHandle)));

    let d = desc(cloth, BODY, &[0]);
    let mut c = checks(&d, 9);
    c.body = None;
    assert_eq!(w.attach(d, &c), Err(WorldError::InvalidAttachment("body handle")));

    for (dynamic, enabled) in [(true, true), (false, false)] {
        let d = desc(cloth, BODY, &[0]);
        let mut c = checks(&d, 9);
        c.body = status(dynamic, enabled);
        assert_eq!(
            w.attach(d, &c),
            Err(WorldError::InvalidAttachment(
                "body must be enabled and fixed or kinematic"
            ))
        );
    }

    let d = desc(cloth, BODY, &[]);
    let c = checks(&d, 9);
    assert_eq!(w.attach(d, &c), Err(WorldError::InvalidAttachment("points or compliance")));
    let d = desc(cloth, BODY, &[0]);
    let mut c = checks(&d, 9);
    c.compliance_ok = false;
    assert_eq!(w.attach(d, &c), Err(WorldError::InvalidAttachment("points or compliance")));

    let d = desc(cloth, BODY, &[0, 9]);
    let c = checks(&d, 9);
    assert_eq!(w.attach(d, &c), Err(WorldError::Core(ClothError::InvalidParticle(9))));

    let d = desc(cloth, BODY, &[0, 1]);
    let mut c = checks(&d, 9);
    c.anchors_finite[1] = false;
    assert_eq!(w.attach(d, &c), Err(WorldError::InvalidAttachment("non-finite anchor")));

    let d = desc(cloth, BODY, &[2, 3, 2]);
    let c = checks(&d, 9);
    assert_eq!(w.attach(d, &c), Err(WorldError::Core(ClothError::ConflictingTarget(2))));

    let d = desc(cloth, BODY, &[1, 4]);
    let mut c = checks(&d, 9);
    c.pinned[1] = true;
    assert_eq!(w.attach(d, &c), Err(WorldError::Core(ClothError::ConflictingTarget(4))));

    let d = desc(cloth, OTHER_BODY, &[5]);
    let c = checks(&d, 9);
    assert_eq!(w.attach(d, &c), Err(WorldError::Core(ClothError::ConflictingTarget(5))));

    let mut d = desc(cloth, BODY, &[6]);
    d.excluded_colliders = vec![(3, 0), (4, 0)];
    let mut c = checks(&d, 9);
    c.excluded_parents = vec![Some(BODY), Some(OTHER_BODY)];
    assert_eq!(
        w.attach(d, &c),
        Err(WorldError::InvalidAttachment(
            "excluded collider must belong to attached body"
        ))
    );
    let mut d = desc(cloth, BODY, &[6]);
    d.excluded_colliders = vec![(3, 0)];
    let mut c = checks(&d, 9);
    c.excluded_parents = vec![None];
    assert!(w.attach(d, &c).is_err());

    let listed = w.attachments();
    assert_eq!(listed.len(), 1);
    assert_eq!(listed[0].0, held);
    assert!(w.drain_attachment_events().is_empty());

    let mut d = desc(cloth, BODY, &[6]);
    d.excluded_colliders = vec![(3, 0)];
    let c = checks(&d, 9);
    assert!(w.attach(d, &c).is_ok());
    assert_eq!(w.attachments().len(), 2);
}

#[test]
fn a_particle_held_by_another_cloth_attachment_is_free_here() {
    let mut ids = Ids::new();
    let mut w = ids.world();
    let first = w.add_cloth(vec![0.0; 9]);
    let second = w.add_cloth(vec![0.0; 9]);
    attach(&mut w, first, BODY, &[0]);
    let d = desc(second, BODY, &[0]);
    let c = checks(&d, 9);
    assert!(w.attach(d, &c).is_ok());
}

#[test]
fn removed_and_disabled_bodies_end_attachments_at_the_next_substep() {
    let mut ids = Ids::new();
    let mut w = ids.world();
    let cloth = w.add_cloth(vec![0.0; 9]);
    let a = attach(&mut w, cloth, BODY, &[0]);
    let b = attach(&mut w, cloth, OTHER_BODY, &[1]);
    let c = attach(&mut w, cloth, (2, 0), &[2]);
    assert_eq!(
        w.stage_attachment_events(&vec![None, status(true, true), status(false, true)]),
        Err(WorldError::InvalidAttachment("attached body changed to dynamic"))
    );
    let staged = w
        .stage_attachment_events(&vec![None, status(false, true), status(true, false)])
        .unwrap();
    assert_eq!(
        staged,
        vec![
            AttachmentEvent {
                handle: a,
                cloth,
                body: BODY,
                kind: AttachmentEventKind::BodyRemoved
            },
            AttachmentEvent {
                handle: c,
                cloth,
                body: (2, 0),
                kind: AttachmentEventKind::BodyDisabled
            },
        ]
    );
    let id = w.world_id();
    assert_eq!(w.begin_step(id, 0, true, Ok(()), true), Ok(1));
    w.commit_step(vec![], staged.clone());
    assert!(w.attachment(a).is_err());
    assert!(w.attachment(b).is_ok());
    assert!(w.attachment(c).is_err());
    assert_eq!(w.drain_attachment_events(), staged);
    assert_eq!(w.next_step_index(), 1);
    // A new body in a reused slot does not bring the old attachment back.
    let d = attach(&mut w, cloth, BODY, &[0]);
    assert_ne!(d, a);
    assert!(w.attachment(a).is_err());
}

#[test]
fn cloth_removal_emits_events_for_its_attachments_only() {
    let mut ids = Ids::new();
    let mut w = ids.world();
    let cloth = w.add_cloth(vec![0.0; 9]);
    let kept = w.add_cloth(vec![0.0; 4]);
    let a = attach(&mut w, cloth, BODY, &[0]);
    let k = attach(&mut w, kept, BODY, &[0]);
    let b = attach(&mut w, cloth, OTHER_BODY, &[1]);
    assert_eq!(w.remove_cloth(cloth), Ok(vec![0.0; 9]));
    assert!(w.cloth(cloth).is_err());
    assert_eq!(w.remove_cloth(cloth), Err(ClothError::InvalidHandle));
    assert!(w.attachment(a).is_err());
    assert!(w.attachment(b).is_err());
    assert!(w.attachment(k).is_ok());
    let events = w.drain_attachment_events();
    assert_eq!(events.len(), 2);
    assert_eq!((events[0].handle, events[1].handle), (a, b));
    assert!(events
        .iter()
        .all(|e| e.kind == AttachmentEventKind::ClothRemoved && e.cloth == cloth));
}

#[test]
fn commit_replaces_stepped_cloths_and_skips_stale_handles() {
    let mut ids = Ids::new();
    let mut w = ids.world();
    let a = w.add_cloth(vec![1.0]);
    let b = w.add_cloth(vec![2.0]);
    let gone = w.add_cloth(vec![3.0]);
    w.remove_cloth(gone).unwrap();
    w.commit_step(vec![(a, vec![10.0]), (gone, vec![30.0]), (a, vec![11.0])], vec![]);
    assert_eq!(w.cloth(a).unwrap(), &vec![11.0]);
    assert_eq!(w.cloth(b).unwrap(), &vec![2.0]);
    assert!(w.cloth(gone).is_err());
    assert_eq!(w.cloths().len(), 2);
    *w.cloth_mut(b).unwrap() = vec![5.0];
    assert_eq!(w.cloth(b).unwrap(), &vec![5.0]);
    assert_eq!(w.cloth_mut(gone), Err(ClothError::InvalidHandle));
}

#[test]
fn restore_returns_to_the_checkpoint() {
    let mut ids = Ids::new();
    let mut w = ids.world();
    let cloth = w.add_cloth(vec![0.5; 4]);
    let a = attach(&mut w, cloth, BODY, &[0, 3]);
    let cp = w.checkpoint().ok().unwrap();
    w.release(a).unwrap();
    let extra = w.add_cloth(vec![0.0]);
    w.commit_step(vec![(cloth, vec![9.0; 4])], vec![]);
    assert_eq!(w.restore(&cp), Ok(()));
    assert_eq!(w.next_step_index(), 0);
    assert_eq!(w.cloth(cloth).unwrap(), &vec![0.5; 4]);
    assert!(w.cloth(extra).is_err());
    let restored = w.attachment(a).unwrap();
    assert_eq!(restored.points.len(), 2);
    assert_eq!((restored.points[0].particle, restored.points[1].particle), (0, 3));
    assert!(w.drain_attachment_events().is_empty());
}

#[test]
fn snapshots_keep_the_last_pose_of_each_handle() {
    let mut ids = IdentityCounter::new();
    let world = WorldId::new(&mut ids).unwrap();
    let bodies = vec![((0, 0), 1.0f32), ((1, 0), 2.0), ((0, 0), 3.0)];
    let colliders = vec![((4, 1), 7.0f32)];
    let s = SceneSnapshot::capture(world, 12, &bodies, &colliders);
    assert_eq!(s.world_id(), world);
    assert_eq!(s.step_index(), 12);
    assert_eq!(s.body_pose((0, 0)), Some(&3.0));
    assert_eq!(s.body_pose((1, 0)), Some(&2.0));
    assert_eq!(s.body_pose((0, 1)), None);
    assert_eq!(s.collider_pose((4, 1)), Some(&7.0));
    assert_eq!(s.collider_pose((0, 0)), None);
}

#[test]
fn finishing_a_substep_commits_everything_or_nothing() {
    let mut ids = Ids::new();
    let mut w = ids.world();
    let cloth = w.add_cloth(vec![1.0]);
    let a = attach(&mut w, cloth, BODY, &[0]);
    let id = w.world_id();
    assert_eq!(w.begin_step(id, 0, true, Ok(()), true), Ok(1));
    w.finish_step(None);
    assert!(w.is_desynchronized());
    assert_eq!(w.next_step_index(), 0);
    assert_eq!(w.cloth(cloth).unwrap(), &vec![1.0]);
    assert!(w.attachment(a).is_ok());
    assert!(w.drain_attachment_events().is_empty());

    let mut w = ids.world();
    let cloth = w.add_cloth(vec![1.0]);
    let a = attach(&mut w, cloth, BODY, &[0]);
    let events = w.stage_attachment_events(&vec![None]).unwrap();
    w.finish_step(Some((vec![(cloth, vec![2.0])], events.clone())));
    assert!(!w.is_desynchronized());
    assert_eq!(w.next_step_index(), 1);
    assert_eq!(w.cloth(cloth).unwrap(), &vec![2.0]);
    assert!(w.attachment(a).is_err());
    assert_eq!(w.drain_attachment_events(), events);
}

#[test]
fn attach_checks_can_run_alone_and_first_handles_take_slot_zero() {
    let mut ids = Ids::new();
    let mut w = ids.world();
    let cloth = w.add_cloth(vec![0.0; 9]);
    assert_eq!((cloth.index(), cloth.generation()), (0, 0));
    let d = desc(cloth, BODY, &[0, 0]);
    let c = checks(&d, 9);
    assert_eq!(
        w.check_attach(&d, &c),
        Err(WorldError::Core(ClothError::ConflictingTarget(0)))
    );
    let d = desc(cloth, BODY, &[0]);
    let c = checks(&d, 9);
    assert_eq!(w.check_attach(&d, &c), Ok(()));
    let a = w.attach(d, &c).unwrap();
    assert_eq!((a.index(), a.generation()), (0, 0));
    w.release(a).unwrap();
    let b = attach(&mut w, cloth, OTHER_BODY, &[0]);
    assert_eq!((b.index(), b.generation()), (0, 1));
    w.remove_cloth(cloth).unwrap();
    let again = w.add_cloth(vec![0.0]);
    assert_eq!((again.index(), again.generation()), (0, 1));
}

#[test]
fn couplings_list_targets_and_exclusions_of_the_remaining_attachments() {
    let mut ids = Ids::new();
    let mut w = ids.world();
    let cloth = w.add_cloth(vec![0.0; 9]);
    let other = w.add_cloth(vec![0.0; 9]);
    let a = attach(&mut w, cloth, BODY, &[0]);
    let mut d = desc(cloth, OTHER_BODY, &[1, 4]);
    d.excluded_colliders = vec![(7, 0), (8, 1)];
    let c = checks(&d, 9);
    w.attach(d, &c).unwrap();
    attach(&mut w, other, (2, 0), &[3]);
    let ended = vec![AttachmentEvent {
        handle: a,
        cloth,
        body: BODY,
        kind: AttachmentEventKind::BodyRemoved,
    }];
    // The ended attachment and the other cloth's attachment take no part.
    let (targets, pairs) = w
        .cloth_couplings(cloth, &ended, &vec![false, true, false])
        .unwrap();
    assert_eq!(targets, vec![(1, 0), (1, 1)]);
    assert_eq!(pairs, vec![(1, (7, 0)), (1, (8, 1)), (4, (7, 0)), (4, (8, 1))]);
    // Without ended attachments the first one is coupled too.
    let (targets, pairs) = w
        .cloth_couplings(cloth, &vec![], &vec![true, true, false])
        .unwrap();
    assert_eq!(targets, vec![(0, 0), (1, 0), (1, 1)]);
    assert_eq!(pairs.len(), 4);
    assert_eq!(
        w.cloth_couplings(cloth, &vec![], &vec![false, true, true]),
        Err(WorldError::InvalidAttachment("missing previous body pose"))
    );
    let (targets, pairs) = w
        .cloth_couplings(other, &vec![], &vec![false, false, true])
        .unwrap();
    assert_eq!(targets, vec![(2, 0)]);
    assert!(pairs.is_empty());
}

#[test]
fn replay_after_restore_issues_the_same_handles() {
    let mut ids = Ids::new();
    let mut w = ids.world();
    let cloth = w.add_cloth(vec![0.0; 9]);
    let old = attach(&mut w, cloth, BODY, &[0]);
    w.release(old).unwrap();
    w.drain_attachment_events();
    let cp = w.checkpoint().ok().unwrap();
    let first = attach(&mut w, cloth, OTHER_BODY, &[1]);
    w.fail_step();
    assert!(w.checkpoint().is_err());
    assert_eq!(w.restore(&cp), Ok(()));
    assert!(!w.is_desynchronized());
    let again = attach(&mut w, cloth, OTHER_BODY, &[1]);
    assert_eq!(again, first);
    assert_ne!(again, old);
    assert!(w.attachment(old).is_err());
    // A checkpoint of another world is refused and changes nothing.
    let other = ids.world();
    let foreign = other.checkpoint().ok().unwrap();
    assert_eq!(
        w.restore(&foreign),
        Err(WorldError::InvalidScene("checkpoint belongs to another cloth world"))
    );
    assert!(w.attachment(again).is_ok());
}
