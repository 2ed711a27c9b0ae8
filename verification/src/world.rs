use vstd::prelude::*;

use crate::attachment::{
    same_links, AttachmentDesc, AttachmentEvent, AttachmentEventKind, AttachmentHandle, AttachmentPoint,
    Attachments,
};
use crate::cloth_set::{ClothHandle, ClothSet};
use crate::error::ClothError;
use crate::identity::{IdentityCounter, WorldId};
use crate::registry::SlotKey;
use crate::scene::RawHandle;

verus! {

/// Errors of the cloth world's bookkeeping: a core error, an inconsistent
/// scene (world token, step order, failed earlier step) or an invalid
/// attachment.
#[derive(Debug, Clone, PartialEq)]
pub enum WorldError {
    Core(ClothError),
    InvalidScene(&'static str),
    InvalidAttachment(&'static str),
}

/// State of a rigid body as seen by the cloth world.
#[derive(Debug, Clone, Copy, PartialEq, Eq, Structural)]
pub struct BodyStatus {
    pub dynamic: bool,
    pub enabled: bool,
}

/// The cloth world's state apart from the numerical solver: the world
/// token, the next external substep, whether a substep failed, the cloths,
/// the attachments and the pending attachment events.
pub struct ClothWorld<C, A, R> {
    world: WorldId,
    next_step: u64,
    desynchronized: bool,
    cloths: ClothSet<C>,
    attachments: Attachments<AttachmentDesc<A, R>>,
    events: Vec<AttachmentEvent>,
}

/// The event that reports removing attachment `h`.
pub open spec fn event_for<A, R>(
    h: AttachmentHandle,
    d: AttachmentDesc<A, R>,
    kind: AttachmentEventKind,
) -> AttachmentEvent {
    AttachmentEvent { handle: h, cloth: d.cloth, body: d.body, kind }
}

/// Attachment handles named by a list of events.
pub open spec fn event_handles(events: Seq<AttachmentEvent>) -> Set<AttachmentHandle> {
    Set::new(|h: AttachmentHandle| exists|i: int| 0 <= i < events.len() && (#[trigger] events[i]).handle == h)
}

/// Applies cloth replacements in order; a handle that does not resolve is
/// skipped.
pub open spec fn apply_updates<C>(m: Map<ClothHandle, C>, ups: Seq<(ClothHandle, C)>) -> Map<ClothHandle, C>
    decreases ups.len(),
{
    if ups.len() == 0 {
        m
    } else {
        let prev = apply_updates(m, ups.drop_last());
        if prev.contains_key(ups.last().0) {
            prev.insert(ups.last().0, ups.last().1)
        } else {
            prev
        }
    }
}

proof fn lemma_apply_updates_domain<C>(m: Map<ClothHandle, C>, ups: Seq<(ClothHandle, C)>)
    ensures
        apply_updates(m, ups).dom() == m.dom(),
    decreases ups.len(),
{
    if ups.len() > 0 {
        lemma_apply_updates_domain(m, ups.drop_last());
        let prev = apply_updates(m, ups.drop_last());
        if prev.contains_key(ups.last().0) {
            assert(prev.insert(ups.last().0, ups.last().1).dom() =~= prev.dom());
        }
    }
}

/// What the state of an attachment's body means for the next substep:
/// `Ok(Some(kind))` removes the attachment with that event, `Ok(None)` keeps
/// it, `Err(())` refuses the substep (the body became dynamic).
pub open spec fn body_verdict(b: Option<BodyStatus>) -> Result<Option<AttachmentEventKind>, ()> {
    match b {
        None => Ok(Some(AttachmentEventKind::BodyRemoved)),
        Some(s) => if !s.enabled {
            Ok(Some(AttachmentEventKind::BodyDisabled))
        } else if s.dynamic {
            Err(())
        } else {
            Ok(None)
        },
    }
}

/// Events for the first `k` attachments (in slot order) whose bodies are
/// gone or disabled.
pub open spec fn staged_events<A, R>(
    hs: Seq<AttachmentHandle>,
    m: Map<AttachmentHandle, AttachmentDesc<A, R>>,
    bodies: Seq<Option<BodyStatus>>,
    k: int,
) -> Seq<AttachmentEvent>
    decreases k,
{
    if k <= 0 {
        Seq::empty()
    } else {
        let prev = staged_events(hs, m, bodies, k - 1);
        match body_verdict(bodies[k - 1]) {
            Ok(Some(kind)) => prev.push(event_for(hs[k - 1], m[hs[k - 1]], kind)),
            _ => prev,
        }
    }
}

/// Live attachment handles of `cloth`, in slot order.
pub open spec fn attachments_of<A, R>(
    hs: Seq<AttachmentHandle>,
    m: Map<AttachmentHandle, AttachmentDesc<A, R>>,
    cloth: ClothHandle,
) -> Seq<AttachmentHandle> {
    hs.filter(on_cloth(m, cloth))
}

/// The attachment belongs to `cloth`.
pub open spec fn on_cloth<A, R>(m: Map<AttachmentHandle, AttachmentDesc<A, R>>, cloth: ClothHandle) -> spec_fn(
    AttachmentHandle,
) -> bool {
    |a: AttachmentHandle| m[a].cloth == cloth
}

/// The attachment holds `cloth` and was not ended before the substep.
pub open spec fn coupled<A, R>(
    d: AttachmentDesc<A, R>,
    h: AttachmentHandle,
    cloth: ClothHandle,
    gone: Set<AttachmentHandle>,
) -> bool {
    d.cloth == cloth && !gone.contains(h)
}

/// Targets of the coupled attachments among the first `k` live ones, in
/// slot order: (position in the live list, point index) for each point.
pub open spec fn coupled_targets<A, R>(
    hs: Seq<AttachmentHandle>,
    m: Map<AttachmentHandle, AttachmentDesc<A, R>>,
    cloth: ClothHandle,
    gone: Set<AttachmentHandle>,
    k: int,
) -> Seq<(usize, usize)>
    decreases k,
{
    if k <= 0 {
        Seq::empty()
    } else {
        let prev = coupled_targets(hs, m, cloth, gone, k - 1);
        if coupled(m[hs[k - 1]], hs[k - 1], cloth, gone) {
            prev + Seq::new(m[hs[k - 1]].points@.len(), |p: int| ((k - 1) as usize, p as usize))
        } else {
            prev
        }
    }
}

/// Each of the first `n` points paired with every excluded collider.
pub open spec fn point_exclusions<A>(points: Seq<AttachmentPoint<A>>, colliders: Seq<RawHandle>, n: int) -> Seq<
    (u32, RawHandle),
>
    decreases n,
{
    if n <= 0 {
        Seq::empty()
    } else {
        point_exclusions(points, colliders, n - 1) + colliders.map_values(
            |c: RawHandle| (points[n - 1].particle, c),
        )
    }
}

/// Excluded (particle, collider) pairs of the coupled attachments among the
/// first `k` live ones, in slot order.
pub open spec fn coupled_exclusions<A, R>(
    hs: Seq<AttachmentHandle>,
    m: Map<AttachmentHandle, AttachmentDesc<A, R>>,
    cloth: ClothHandle,
    gone: Set<AttachmentHandle>,
    k: int,
) -> Seq<(u32, RawHandle)>
    decreases k,
{
    if k <= 0 {
        Seq::empty()
    } else {
        let prev = coupled_exclusions(hs, m, cloth, gone, k - 1);
        let d = m[hs[k - 1]];
        if coupled(d, hs[k - 1], cloth, gone) {
            prev + point_exclusions(d.points@, d.excluded_colliders@, d.points@.len() as int)
        } else {
            prev
        }
    }
}

proof fn lemma_concat_contains<T>(a: Seq<T>, b: Seq<T>, x: T)
    ensures
        (a + b).contains(x) <==> a.contains(x) || b.contains(x),
{
    if (a + b).contains(x) {
        let i = choose|i: int| 0 <= i < (a + b).len() && (a + b)[i] == x;
        if i < a.len() {
            assert(a[i] == x);
        } else {
            assert(b[i - a.len()] == x);
        }
    }
    if a.contains(x) {
        let i = choose|i: int| 0 <= i < a.len() && a[i] == x;
        assert((a + b)[i] == x);
    }
    if b.contains(x) {
        let i = choose|i: int| 0 <= i < b.len() && b[i] == x;
        assert((a + b)[a.len() + i] == x);
    }
}

/// A pair is among the first `n` points' exclusions exactly when one of
/// those points holds its particle and its collider is excluded.
pub proof fn lemma_point_exclusions_members<A>(
    points: Seq<AttachmentPoint<A>>,
    colliders: Seq<RawHandle>,
    n: int,
    x: (u32, RawHandle),
)
    requires
        0 <= n <= points.len(),
    ensures
        point_exclusions(points, colliders, n).contains(x) <==> exists|p: int, e: int|
            0 <= p < n && 0 <= e < colliders.len() && #[trigger] points[p].particle == x.0
                && #[trigger] colliders[e] == x.1,
    decreases n,
{
    if n > 0 {
        lemma_point_exclusions_members(points, colliders, n - 1, x);
        let row = colliders.map_values(|c: RawHandle| (points[n - 1].particle, c));
        lemma_concat_contains(point_exclusions(points, colliders, n - 1), row, x);
        if row.contains(x) {
            let e = choose|e: int| 0 <= e < row.len() && row[e] == x;
            assert(points[n - 1].particle == x.0 && colliders[e] == x.1);
        }
        if exists|p: int, e: int|
            0 <= p < n && 0 <= e < colliders.len() && #[trigger] points[p].particle == x.0
                && #[trigger] colliders[e] == x.1 {
            let (p, e) = choose|p: int, e: int|
                0 <= p < n && 0 <= e < colliders.len() && #[trigger] points[p].particle == x.0
                    && #[trigger] colliders[e] == x.1;
            if p == n - 1 {
                assert(row[e] == x);
            }
        }
    }
}

/// A coupled attachment among the first `k` live ones holds particle `x.0`
/// and excludes collider `x.1`.
pub open spec fn excluded_by_coupling<A, R>(
    hs: Seq<AttachmentHandle>,
    m: Map<AttachmentHandle, AttachmentDesc<A, R>>,
    cloth: ClothHandle,
    gone: Set<AttachmentHandle>,
    k: int,
    x: (u32, RawHandle),
) -> bool {
    exists|j: int, p: int, e: int|
        0 <= j < k && coupled(m[hs[j]], hs[j], cloth, gone) && 0 <= p < m[hs[j]].points@.len() && 0 <= e
            < m[hs[j]].excluded_colliders@.len() && #[trigger] m[hs[j]].points@[p].particle == x.0
            && #[trigger] m[hs[j]].excluded_colliders@[e] == x.1
}

/// A pair is excluded for `cloth` exactly when a coupled attachment among
/// the first `k` live ones holds its particle and excludes its collider.
pub proof fn lemma_coupled_exclusions_members<A, R>(
    hs: Seq<AttachmentHandle>,
    m: Map<AttachmentHandle, AttachmentDesc<A, R>>,
    cloth: ClothHandle,
    gone: Set<AttachmentHandle>,
    k: int,
    x: (u32, RawHandle),
)
    requires
        0 <= k <= hs.len(),
    ensures
        coupled_exclusions(hs, m, cloth, gone, k).contains(x) <==> excluded_by_coupling(hs, m, cloth, gone, k, x),
    decreases k,
{
    if k > 0 {
        lemma_coupled_exclusions_members(hs, m, cloth, gone, k - 1, x);
        let d = m[hs[k - 1]];
        if coupled(d, hs[k - 1], cloth, gone) {
            let rows = point_exclusions(d.points@, d.excluded_colliders@, d.points@.len() as int);
            lemma_concat_contains(coupled_exclusions(hs, m, cloth, gone, k - 1), rows, x);
            lemma_point_exclusions_members(d.points@, d.excluded_colliders@, d.points@.len() as int, x);
        }
    }
}

/// Whether one of `events` ends attachment `h`.
fn ends(events: &Vec<AttachmentEvent>, h: AttachmentHandle) -> (r: bool)
    ensures
        r == event_handles(events@).contains(h),
{
    let mut i: usize = 0;
    while i < events.len()
        invariant
            i <= events@.len(),
            forall|j: int| 0 <= j < i ==> (#[trigger] events@[j]).handle != h,
        decreases events@.len() - i,
    {
        if events[i].handle == h {
            proof {
                assert(events@[i as int].handle == h);
            }
            return true;
        }
        i += 1;
    }
    false
}

/// Appends the excluded pairs of one attachment.
fn push_exclusions<A, R>(d: &AttachmentDesc<A, R>, out: &mut Vec<(u32, RawHandle)>)
    ensures
        final(out)@ == old(out)@ + point_exclusions(d.points@, d.excluded_colliders@, d.points@.len() as int),
{
    let ghost start = out@;
    let mut p: usize = 0;
    while p < d.points.len()
        invariant
            p <= d.points@.len(),
            out@ == start + point_exclusions(d.points@, d.excluded_colliders@, p as int),
        decreases d.points@.len() - p,
    {
        let particle = d.points[p].particle;
        let ghost row = d.excluded_colliders@.map_values(|c: RawHandle| (d.points@[p as int].particle, c));
        let ghost before = out@;
        let mut e: usize = 0;
        while e < d.excluded_colliders.len()
            invariant
                e <= d.excluded_colliders@.len(),
                particle == d.points@[p as int].particle,
                row == d.excluded_colliders@.map_values(|c: RawHandle| (d.points@[p as int].particle, c)),
                out@ == before + row.take(e as int),
            decreases d.excluded_colliders@.len() - e,
        {
            out.push((particle, d.excluded_colliders[e]));
            e += 1;
            proof {
                assert(out@ =~= before + row.take(e as int));
            }
        }
        p += 1;
        proof {
            assert(row.take(row.len() as int) =~= row);
            assert(start + point_exclusions(d.points@, d.excluded_colliders@, p as int) =~= before + row);
        }
    }
}

/// What `attach` needs to know from outside the bookkeeping: the body's
/// state (`None` when it does not exist), the verdicts on the compliance and
/// on each anchor (finite values), the cloth's particle count and which
/// attached particles it pins, and the parent body of each excluded collider
/// (`None` when the collider does not exist or has no parent).
pub struct AttachChecks {
    pub body: Option<BodyStatus>,
    pub compliance_ok: bool,
    pub anchors_finite: Vec<bool>,
    pub particle_count: usize,
    pub pinned: Vec<bool>,
    pub excluded_parents: Vec<Option<RawHandle>>,
}

/// Some attachment of `cloth` already holds particle `p`.
pub open spec fn held<A, R>(m: Map<AttachmentHandle, AttachmentDesc<A, R>>, cloth: ClothHandle, p: u32) -> bool {
    exists|a: AttachmentHandle|
        #[trigger] m.contains_key(a) && m[a].cloth == cloth && exists|q: int|
            0 <= q < m[a].points@.len() && m[a].points@[q].particle == p
}

/// No particle of a cloth is the target of two attachments, and no
/// attachment lists a particle twice.
pub open spec fn targets_exclusive<A, R>(m: Map<AttachmentHandle, AttachmentDesc<A, R>>) -> bool {
    forall|a: AttachmentHandle, b: AttachmentHandle, i: int, j: int|
        m.contains_key(a) && m.contains_key(b) && m[a].cloth == m[b].cloth && 0 <= i < m[a].points@.len()
            && 0 <= j < m[b].points@.len() && (a != b || i != j) ==> (#[trigger] m[a].points@[i]).particle
            != (#[trigger] m[b].points@[j]).particle
}

/// Dropping attachments keeps the targets exclusive.
proof fn lemma_submap_keeps_targets_exclusive<A, R>(
    m: Map<AttachmentHandle, AttachmentDesc<A, R>>,
    sub: Map<AttachmentHandle, AttachmentDesc<A, R>>,
)
    requires
        targets_exclusive(m),
        forall|a: AttachmentHandle| #[trigger] sub.contains_key(a) ==> m.contains_key(a) && sub[a] == m[a],
    ensures
        targets_exclusive(sub),
{
    assert forall|a: AttachmentHandle, b: AttachmentHandle, i: int, j: int|
        sub.contains_key(a) && sub.contains_key(b) && sub[a].cloth == sub[b].cloth && 0 <= i
            < sub[a].points@.len() && 0 <= j < sub[b].points@.len() && (a != b || i != j) implies (
    #[trigger] sub[a].points@[i]).particle != (#[trigger] sub[b].points@[j]).particle by {
        assert(m.contains_key(a) && m.contains_key(b));
        assert(sub[a] == m[a] && sub[b] == m[b]);
    }
}

/// Replacing each attachment by one with the same links keeps the targets
/// exclusive.
proof fn lemma_same_links_keep_targets_exclusive<A, R>(
    m: Map<AttachmentHandle, AttachmentDesc<A, R>>,
    copy: Map<AttachmentHandle, AttachmentDesc<A, R>>,
)
    requires
        targets_exclusive(m),
        copy.dom() == m.dom(),
        forall|a: AttachmentHandle| #[trigger] copy.contains_key(a) ==> same_links(copy[a], m[a]),
    ensures
        targets_exclusive(copy),
{
    assert forall|a: AttachmentHandle, b: AttachmentHandle, i: int, j: int|
        copy.contains_key(a) && copy.contains_key(b) && copy[a].cloth == copy[b].cloth && 0 <= i
            < copy[a].points@.len() && 0 <= j < copy[b].points@.len() && (a != b || i != j) implies (
    #[trigger] copy[a].points@[i]).particle != (#[trigger] copy[b].points@[j]).particle by {
        assert(m.contains_key(a) && m.contains_key(b));
        assert(same_links(copy[a], m[a]) && same_links(copy[b], m[b]));
        assert(copy[a].points@[i].particle == m[a].points@[i].particle);
        assert(copy[b].points@[j].particle == m[b].points@[j].particle);
    }
}

/// The check of point `k` of a new attachment.
pub open spec fn point_fault<A, R>(
    desc: AttachmentDesc<A, R>,
    checks: AttachChecks,
    m: Map<AttachmentHandle, AttachmentDesc<A, R>>,
    k: int,
) -> Option<WorldError> {
    let p = desc.points@[k].particle;
    if p >= checks.particle_count {
        Some(WorldError::Core(ClothError::InvalidParticle(p)))
    } else if !checks.anchors_finite@[k] {
        Some(WorldError::InvalidAttachment("non-finite anchor"))
    } else if (exists|q: int| 0 <= q < k && (#[trigger] desc.points@[q]).particle == p) || checks.pinned@[k]
        || held(m, desc.cloth, p) {
        Some(WorldError::Core(ClothError::ConflictingTarget(p)))
    } else {
        None
    }
}

pub open spec fn first_point_fault<A, R>(
    desc: AttachmentDesc<A, R>,
    checks: AttachChecks,
    m: Map<AttachmentHandle, AttachmentDesc<A, R>>,
    k: int,
) -> Option<WorldError>
    decreases k,
{
    if k <= 0 {
        None
    } else {
        match first_point_fault(desc, checks, m, k - 1) {
            Some(e) => Some(e),
            None => point_fault(desc, checks, m, k - 1),
        }
    }
}

/// The first excluded collider among the first `k` that is not a collider
/// of the attached body.
pub open spec fn first_excluded_fault<A, R>(desc: AttachmentDesc<A, R>, checks: AttachChecks, k: int) -> bool
    decreases k,
{
    if k <= 0 {
        false
    } else {
        first_excluded_fault(desc, checks, k - 1) || checks.excluded_parents@[k - 1] != Some(desc.body)
    }
}

proof fn lemma_first_point_fault_persists<A, R>(
    desc: AttachmentDesc<A, R>,
    checks: AttachChecks,
    m: Map<AttachmentHandle, AttachmentDesc<A, R>>,
    a: int,
    b: int,
)
    requires
        0 <= a <= b,
        first_point_fault(desc, checks, m, a) is Some,
    ensures
        first_point_fault(desc, checks, m, b) == first_point_fault(desc, checks, m, a),
    decreases b - a,
{
    if a < b {
        lemma_first_point_fault_persists(desc, checks, m, a, b - 1);
    }
}

proof fn lemma_no_point_fault<A, R>(
    desc: AttachmentDesc<A, R>,
    checks: AttachChecks,
    m: Map<AttachmentHandle, AttachmentDesc<A, R>>,
    n: int,
    k: int,
)
    requires
        first_point_fault(desc, checks, m, n) is None,
        0 <= k < n,
    ensures
        point_fault(desc, checks, m, k) is None,
    decreases n,
{
    if k < n - 1 {
        lemma_no_point_fault(desc, checks, m, n - 1, k);
    }
}

/// Adding an attachment whose points all pass their checks keeps the
/// targets exclusive.
proof fn lemma_attach_keeps_targets_exclusive<A, R>(
    m: Map<AttachmentHandle, AttachmentDesc<A, R>>,
    h: AttachmentHandle,
    desc: AttachmentDesc<A, R>,
    checks: AttachChecks,
)
    requires
        targets_exclusive(m),
        !m.contains_key(h),
        first_point_fault(desc, checks, m, desc.points@.len() as int) is None,
    ensures
        targets_exclusive(m.insert(h, desc)),
{
    let m2 = m.insert(h, desc);
    let n = desc.points@.len() as int;
    assert forall|a: AttachmentHandle, b: AttachmentHandle, i: int, j: int|
        m2.contains_key(a) && m2.contains_key(b) && m2[a].cloth == m2[b].cloth && 0 <= i < m2[a].points@.len()
            && 0 <= j < m2[b].points@.len() && (a != b || i != j) implies (
    #[trigger] m2[a].points@[i]).particle != (#[trigger] m2[b].points@[j]).particle by {
        if a == h && b == h {
            if i < j {
                lemma_no_point_fault(desc, checks, m, n, j);
                assert(desc.points@[i] == desc.points@[i]);
            } else {
                lemma_no_point_fault(desc, checks, m, n, i);
                assert(desc.points@[j] == desc.points@[j]);
            }
        } else if a == h {
            lemma_no_point_fault(desc, checks, m, n, i);
            let p = desc.points@[i].particle;
            if m[b].points@[j].particle == p {
                assert(m.contains_key(b) && m[b].cloth == desc.cloth && exists|q: int|
                    0 <= q < m[b].points@.len() && m[b].points@[q].particle == p);
                assert(held(m, desc.cloth, p));
            }
        } else if b == h {
            lemma_no_point_fault(desc, checks, m, n, j);
            let p = desc.points@[j].particle;
            if m[a].points@[i].particle == p {
                assert(m.contains_key(a) && m[a].cloth == desc.cloth && exists|q: int|
                    0 <= q < m[a].points@.len() && m[a].points@[q].particle == p);
                assert(held(m, desc.cloth, p));
            }
        } else {
            assert(m2[a] == m[a] && m2[b] == m[b]);
        }
    }
}

proof fn lemma_first_excluded_fault_persists<A, R>(desc: AttachmentDesc<A, R>, checks: AttachChecks, a: int, b: int)
    requires
        0 <= a <= b,
        first_excluded_fault(desc, checks, a),
    ensures
        first_excluded_fault(desc, checks, b),
    decreases b - a,
{
    if a < b {
        lemma_first_excluded_fault_persists(desc, checks, a, b - 1);
    }
}

impl<C, A, R> ClothWorld<C, A, R> {
    pub closed spec fn world_spec(&self) -> WorldId {
        self.world
    }

    pub closed spec fn next_step_spec(&self) -> u64 {
        self.next_step
    }

    pub closed spec fn desynchronized_spec(&self) -> bool {
        self.desynchronized
    }

    pub closed spec fn cloth_set(&self) -> ClothSet<C> {
        self.cloths
    }

    pub closed spec fn attachment_set(&self) -> Attachments<AttachmentDesc<A, R>> {
        self.attachments
    }

    pub closed spec fn pending_events(&self) -> Seq<AttachmentEvent> {
        self.events@
    }

    /// Every attachment belongs to a live cloth, and no particle is the
    /// target of two attachments.
    pub open spec fn attachments_wf(&self) -> bool {
        &&& forall|a: AttachmentHandle| #[trigger]
            self.attachment_set()@.contains_key(a) ==> self.cloth_set()@.contains_key(
                self.attachment_set()@[a].cloth,
            )
        &&& targets_exclusive(self.attachment_set()@)
    }

    /// Why a substep described by the captured scene may not run.
    /// `timing_ok` states that the scene's duration equals the substep
    /// duration and its gravity is finite; `settings` is the verdict on the
    /// solver settings and `collision_ok` the one on the collision settings.
    pub open spec fn step_fault(
        &self,
        scene_world: WorldId,
        scene_step: u64,
        timing_ok: bool,
        settings: Result<(), ClothError>,
        collision_ok: bool,
    ) -> Option<WorldError> {
        if self.desynchronized_spec() {
            Some(
                WorldError::InvalidScene(
                    "previous substep failed; restore both worlds from a checkpoint",
                ),
            )
        } else if scene_world != self.world_spec() {
            Some(WorldError::InvalidScene("world identity mismatch"))
        } else if scene_step != self.next_step_spec() {
            Some(WorldError::InvalidScene("substep must be consumed exactly once, in order"))
        } else if !timing_ok {
            Some(WorldError::InvalidScene("duration or gravity mismatch"))
        } else if settings is Err {
            Some(WorldError::Core(settings->Err_0))
        } else if !collision_ok {
            Some(WorldError::Core(ClothError::InvalidParameter("collision settings")))
        } else if self.next_step_spec() == u64::MAX {
            Some(WorldError::InvalidScene("step counter exhausted"))
        } else {
            None
        }
    }

    /// An empty world for `world`, with fresh cloth and attachment arena
    /// identities, or `None` when a counter is exhausted.
    pub fn new(
        world: WorldId,
        cloth_ids: &mut IdentityCounter,
        attachment_ids: &mut IdentityCounter,
    ) -> (r: Option<Self>)
        ensures
            r is Some <==> old(cloth_ids)@ < u64::MAX && old(attachment_ids)@ < u64::MAX,
            final(cloth_ids)@ == if old(cloth_ids)@ < u64::MAX {
                old(cloth_ids)@ + 1
            } else {
                old(cloth_ids)@ as int
            },
            final(attachment_ids)@ == if old(cloth_ids)@ < u64::MAX && old(attachment_ids)@ < u64::MAX {
                old(attachment_ids)@ + 1
            } else {
                old(attachment_ids)@ as int
            },
            r matches Some(w) ==> {
                &&& w.world_spec() == world
                &&& w.next_step_spec() == 0
                &&& !w.desynchronized_spec()
                &&& w.cloth_set()@ == Map::<ClothHandle, C>::empty()
                &&& w.cloth_set().set_id() == old(cloth_ids)@
                &&& w.attachment_set()@ == Map::<AttachmentHandle, AttachmentDesc<A, R>>::empty()
                &&& w.attachment_set().set_id() == old(attachment_ids)@
                &&& w.cloth_set().slot_count() == 0
                &&& w.attachment_set().slot_count() == 0
                &&& w.pending_events() == Seq::<AttachmentEvent>::empty()
                &&& w.attachments_wf()
            },
    {
        let cloths = match ClothSet::new(cloth_ids) {
            Some(c) => c,
            None => {
                return None;
            },
        };
        let attachments = match Attachments::new(attachment_ids) {
            Some(a) => a,
            None => {
                return None;
            },
        };
        Some(
            ClothWorld {
                world,
                next_step: 0,
                desynchronized: false,
                cloths,
                attachments,
                events: Vec::new(),
            },
        )
    }

    pub fn world_id(&self) -> (r: WorldId)
        ensures
            r == self.world_spec(),
    {
        self.world
    }

    pub fn next_step_index(&self) -> (r: u64)
        ensures
            r == self.next_step_spec(),
    {
        self.next_step
    }

    pub fn is_desynchronized(&self) -> (r: bool)
        ensures
            r == self.desynchronized_spec(),
    {
        self.desynchronized
    }

    pub fn cloths(&self) -> (r: &ClothSet<C>)
        ensures
            *r == self.cloth_set(),
    {
        &self.cloths
    }

    /// Whether `add_cloth` can find a slot.
    pub fn can_add_cloth(&self) -> (r: bool)
        ensures
            r == self.cloth_set().has_room(),
    {
        self.cloths.can_insert()
    }

    pub fn add_cloth(&mut self, cloth: C) -> (r: ClothHandle)
        requires
            old(self).cloth_set().has_room(),
        ensures
            same_world(*old(self), *final(self)),
            old(self).cloth_set().evolves_to(&final(self).cloth_set()),
            !old(self).cloth_set()@.contains_key(r),
            final(self).cloth_set()@ == old(self).cloth_set()@.insert(r, cloth),
            r.owner() == old(self).cloth_set().set_id(),
            old(self).cloth_set().next_slot(r.slot() as int),
            r.generation_of() == old(self).cloth_set().slot_generation(r.slot() as int),
            old(self).cloth_set().fills_slot(r.slot() as int, &final(self).cloth_set()),
            final(self).world_spec() == old(self).world_spec(),
            final(self).next_step_spec() == old(self).next_step_spec(),
            final(self).desynchronized_spec() == old(self).desynchronized_spec(),
            final(self).attachment_set() == old(self).attachment_set(),
            final(self).pending_events() == old(self).pending_events(),
            old(self).attachments_wf() ==> final(self).attachments_wf(),
    {
        self.cloths.insert(cloth)
    }

    pub fn cloth(&self, h: ClothHandle) -> (r: Result<&C, ClothError>)
        ensures
            r is Ok <==> self.cloth_set()@.contains_key(h),
            r matches Ok(c) ==> *c == self.cloth_set()@[h],
            r matches Err(e) ==> e == ClothError::InvalidHandle,
    {
        self.cloths.get(h)
    }

    /// The attachment behind a handle; stale and foreign handles are refused.
    pub fn attachment(&self, h: AttachmentHandle) -> (r: Result<&AttachmentDesc<A, R>, WorldError>)
        ensures
            r is Ok <==> self.attachment_set()@.contains_key(h),
            r matches Ok(d) ==> *d == self.attachment_set()@[h],
            r matches Err(e) ==> e == WorldError::InvalidAttachment("stale or foreign handle"),
    {
        match self.attachments.get(h) {
            Some(d) => Ok(d),
            None => Err(WorldError::InvalidAttachment("stale or foreign handle")),
        }
    }

    /// Live attachments with their handles, in slot order.
    pub fn attachments(&self) -> (r: Vec<(AttachmentHandle, &AttachmentDesc<A, R>)>)
        ensures
            r@.len() == self.attachment_set().live_handles().len(),
            forall|k: int|
                0 <= k < r@.len() ==> (#[trigger] r@[k]).0 == self.attachment_set().live_handles()[k]
                    && *r@[k].1 == self.attachment_set()@[r@[k].0],
    {
        self.attachments.iter()
    }

    /// Removes an attachment and queues the event that reports it.
    fn release_with_reason(&mut self, handle: AttachmentHandle, kind: AttachmentEventKind) -> (r:
        Result<(), WorldError>)
        ensures
            r is Ok <==> old(self).attachment_set()@.contains_key(handle),
            r is Err ==> *final(self) == *old(self),
            r matches Err(e) ==> e == WorldError::InvalidAttachment("stale or foreign handle"),
            r is Ok ==> {
                &&& final(self).attachment_set()@ == old(self).attachment_set()@.remove(handle)
                &&& final(self).attachment_set().retired(handle)
                &&& old(self).attachment_set().frees_slot(handle.slot() as int, &final(self).attachment_set())
                &&& final(self).pending_events() == old(self).pending_events().push(
                    event_for(handle, old(self).attachment_set()@[handle], kind),
                )
            },
            old(self).attachment_set().evolves_to(&final(self).attachment_set()),
            final(self).world_spec() == old(self).world_spec(),
            final(self).next_step_spec() == old(self).next_step_spec(),
            final(self).desynchronized_spec() == old(self).desynchronized_spec(),
            final(self).cloth_set() == old(self).cloth_set(),
            old(self).attachments_wf() ==> final(self).attachments_wf(),
    {
        let ghost m = self.attachments@;
        match self.attachments.remove(handle) {
            Some(a) => {
                self.events.push(AttachmentEvent { handle, cloth: a.cloth, body: a.body, kind });
                proof {
                    if targets_exclusive(m) {
                        lemma_submap_keeps_targets_exclusive(m, self.attachments@);
                    }
                }
                Ok(())
            },
            None => Err(WorldError::InvalidAttachment("stale or foreign handle")),
        }
    }

    /// Releases an attachment; the particles keep their current state.
    pub fn release(&mut self, handle: AttachmentHandle) -> (r: Result<(), WorldError>)
        ensures
            same_world(*old(self), *final(self)),
            r is Ok <==> old(self).attachment_set()@.contains_key(handle),
            r is Err ==> *final(self) == *old(self),
            r matches Err(e) ==> e == WorldError::InvalidAttachment("stale or foreign handle"),
            r is Ok ==> {
                &&& final(self).attachment_set()@ == old(self).attachment_set()@.remove(handle)
                &&& final(self).attachment_set().retired(handle)
                &&& old(self).attachment_set().frees_slot(handle.slot() as int, &final(self).attachment_set())
                &&& final(self).pending_events() == old(self).pending_events().push(
                    event_for(
                        handle,
                        old(self).attachment_set()@[handle],
                        AttachmentEventKind::Released,
                    ),
                )
            },
            old(self).attachment_set().evolves_to(&final(self).attachment_set()),
            final(self).world_spec() == old(self).world_spec(),
            final(self).next_step_spec() == old(self).next_step_spec(),
            final(self).desynchronized_spec() == old(self).desynchronized_spec(),
            final(self).cloth_set() == old(self).cloth_set(),
            old(self).attachments_wf() ==> final(self).attachments_wf(),
    {
        self.release_with_reason(handle, AttachmentEventKind::Released)
    }

    /// Hands out the pending attachment events, oldest first.
    pub fn drain_attachment_events(&mut self) -> (r: Vec<AttachmentEvent>)
        ensures
            same_world(*old(self), *final(self)),
            r@ == old(self).pending_events(),
            final(self).pending_events() == Seq::<AttachmentEvent>::empty(),
            final(self).world_spec() == old(self).world_spec(),
            final(self).next_step_spec() == old(self).next_step_spec(),
            final(self).desynchronized_spec() == old(self).desynchronized_spec(),
            final(self).cloth_set() == old(self).cloth_set(),
            final(self).attachment_set() == old(self).attachment_set(),
            old(self).attachments_wf() ==> final(self).attachments_wf(),
    {
        let mut drained: Vec<AttachmentEvent> = Vec::new();
        std::mem::swap(&mut drained, &mut self.events);
        drained
    }

    /// Checks that the captured scene may be consumed now and returns the
    /// step index that follows it.
    pub fn begin_step(
        &self,
        scene_world: WorldId,
        scene_step: u64,
        timing_ok: bool,
        settings: Result<(), ClothError>,
        collision_ok: bool,
    ) -> (r: Result<u64, WorldError>)
        ensures
            match self.step_fault(scene_world, scene_step, timing_ok, settings, collision_ok) {
                Some(e) => r == Err::<u64, WorldError>(e),
                None => r == Ok::<u64, WorldError>((self.next_step_spec() + 1) as u64),
            },
            r is Ok <==> {
                &&& !self.desynchronized_spec()
                &&& scene_world == self.world_spec()
                &&& scene_step == self.next_step_spec()
                &&& timing_ok
                &&& settings is Ok
                &&& collision_ok
                &&& self.next_step_spec() < u64::MAX
            },
            r matches Ok(n) ==> n == self.next_step_spec() + 1,
            !self.desynchronized_spec() && scene_world == self.world_spec() && scene_step
                != self.next_step_spec() ==> r == Err::<u64, WorldError>(
                WorldError::InvalidScene("substep must be consumed exactly once, in order"),
            ),
    {
        if self.desynchronized {
            return Err(
                WorldError::InvalidScene(
                    "previous substep failed; restore both worlds from a checkpoint",
                ),
            );
        }
        if scene_world != self.world {
            return Err(WorldError::InvalidScene("world identity mismatch"));
        }
        if scene_step != self.next_step {
            return Err(WorldError::InvalidScene("substep must be consumed exactly once, in order"));
        }
        if !timing_ok {
            return Err(WorldError::InvalidScene("duration or gravity mismatch"));
        }
        match settings {
            Err(e) => {
                return Err(WorldError::Core(e));
            },
            Ok(()) => {},
        }
        if !collision_ok {
            return Err(WorldError::Core(ClothError::InvalidParameter("collision settings")));
        }
        match self.next_step.checked_add(1) {
            Some(n) => Ok(n),
            None => Err(WorldError::InvalidScene("step counter exhausted")),
        }
    }

    pub fn cloth_mut(&mut self, h: ClothHandle) -> (r: Result<&mut C, ClothError>)
        ensures
            same_world(*old(self), *final(self)),
            r is Ok <==> old(self).cloth_set()@.contains_key(h),
            r is Err ==> *final(self) == *old(self),
            r matches Err(e) ==> e == ClothError::InvalidHandle,
            r matches Ok(c) ==> {
                &&& *c == old(self).cloth_set()@[h]
                &&& final(self).cloth_set()@ == old(self).cloth_set()@.insert(h, *final(c))
                &&& old(self).cloth_set().evolves_to(&final(self).cloth_set())
                &&& final(self).world_spec() == old(self).world_spec()
                &&& final(self).next_step_spec() == old(self).next_step_spec()
                &&& final(self).desynchronized_spec() == old(self).desynchronized_spec()
                &&& final(self).attachment_set() == old(self).attachment_set()
                &&& final(self).pending_events() == old(self).pending_events()
            },
            old(self).attachments_wf() ==> final(self).attachments_wf(),
    {
        self.cloths.get_mut(h)
    }

    /// Commits a successful substep: the stepped cloths replace the current
    /// ones, the attachments that the staged events name are removed, the
    /// events are queued and the step counter advances.
    pub fn commit_step(&mut self, updates: Vec<(ClothHandle, C)>, events: Vec<AttachmentEvent>)
        requires
            old(self).next_step_spec() < u64::MAX,
        ensures
            same_world(*old(self), *final(self)),
            final(self).cloth_set()@ == apply_updates(old(self).cloth_set()@, updates@),
            old(self).cloth_set().evolves_to(&final(self).cloth_set()),
            final(self).attachment_set()@ == old(self).attachment_set()@.remove_keys(
                event_handles(events@),
            ),
            old(self).attachment_set().evolves_to(&final(self).attachment_set()),
            final(self).pending_events() == old(self).pending_events() + events@,
            final(self).next_step_spec() == old(self).next_step_spec() + 1,
            final(self).world_spec() == old(self).world_spec(),
            final(self).desynchronized_spec() == old(self).desynchronized_spec(),
            old(self).attachments_wf() ==> final(self).attachments_wf(),
    {
        let ghost ups = updates@;
        let mut rest = updates;
        let mut i: usize = 0;
        let n = rest.len();
        while rest.len() > 0
            invariant
                i + rest@.len() == n,
                ups.len() == n,
                rest@ == ups.skip(i as int),
                self.cloths@ == apply_updates(old(self).cloths@, ups.take(i as int)),
                old(self).cloths.evolves_to(&self.cloths),
                self.world == old(self).world,
                self.next_step == old(self).next_step,
                self.desynchronized == old(self).desynchronized,
                self.attachments == old(self).attachments,
                self.events == old(self).events,
            decreases rest@.len(),
        {
            let (h, value) = rest.remove(0);
            proof {
                assert(ups.take(i + 1).drop_last() =~= ups.take(i as int));
                assert(ups[i as int] == (h, value));
                assert(ups.take(i + 1).last() == (h, value));
            }
            match self.cloths.get_mut(h) {
                Ok(c) => {
                    *c = value;
                },
                Err(_) => {},
            }
            i += 1;
            proof {
                assert(rest@ =~= ups.skip(i as int));
            }
        }
        proof {
            assert(ups.take(i as int) =~= ups);
        }
        let ghost before_events = self.events@;
        let mut k: usize = 0;
        while k < events.len()
            invariant
                k <= events@.len(),
                self.attachments@ == old(self).attachments@.remove_keys(
                    event_handles(events@.take(k as int)),
                ),
                old(self).attachments.evolves_to(&self.attachments),
                self.events == old(self).events,
                self.world == old(self).world,
                self.next_step == old(self).next_step,
                self.desynchronized == old(self).desynchronized,
                self.cloths@ == apply_updates(old(self).cloths@, ups),
                old(self).cloths.evolves_to(&self.cloths),
            decreases events@.len() - k,
        {
            let h = events[k].handle;
            let _ = self.attachments.remove(h);
            proof {
                let pre = events@.take(k as int);
                let post = events@.take(k + 1);
                assert(event_handles(post) =~= event_handles(pre).insert(h)) by {
                    assert forall|x: AttachmentHandle| event_handles(post).contains(x) implies event_handles(
                        pre,
                    ).insert(h).contains(x) by {
                        let i = choose|i: int| 0 <= i < post.len() && (#[trigger] post[i]).handle == x;
                        if i < k {
                            assert(pre[i] == post[i]);
                        }
                    }
                    assert forall|x: AttachmentHandle| event_handles(pre).insert(h).contains(x) implies event_handles(
                        post,
                    ).contains(x) by {
                        if x == h {
                            assert(post[k as int].handle == x);
                        } else {
                            let i = choose|i: int| 0 <= i < pre.len() && (#[trigger] pre[i]).handle == x;
                            assert(post[i] == pre[i]);
                        }
                    }
                }
                assert(self.attachments@ =~= old(self).attachments@.remove_keys(event_handles(post)));
            }
            k += 1;
        }
        proof {
            assert(events@.take(k as int) =~= events@);
        }
        let mut evs = events;
        self.events.append(&mut evs);
        self.next_step = self.next_step + 1;
        proof {
            lemma_apply_updates_domain(old(self).cloths@, ups);
            if targets_exclusive(old(self).attachments@) {
                lemma_submap_keeps_targets_exclusive(old(self).attachments@, self.attachments@);
            }
        }
    }

    /// Decides what happens to each attachment before a substep, given the
    /// state of its body (`bodies[k]` for the `k`-th live attachment in slot
    /// order, `None` for a body that no longer exists). A body that became
    /// dynamic refuses the substep; removed or disabled bodies end their
    /// attachments, reported by the returned events.
    pub fn stage_attachment_events(&self, bodies: &Vec<Option<BodyStatus>>) -> (r: Result<
        Vec<AttachmentEvent>,
        WorldError,
    >)
        requires
            bodies@.len() == self.attachment_set().live_handles().len(),
        ensures
            r is Err <==> exists|k: int|
                0 <= k < bodies@.len() && #[trigger] body_verdict(bodies@[k]) is Err,
            r matches Err(e) ==> e == WorldError::InvalidAttachment("attached body changed to dynamic"),
            r matches Ok(evs) ==> evs@ == staged_events(
                self.attachment_set().live_handles(),
                self.attachment_set()@,
                bodies@,
                bodies@.len() as int,
            ),
            r is Err <==> exists|k: int|
                0 <= k < bodies@.len() && (#[trigger] bodies@[k]) is Some && bodies@[k]->0.enabled
                    && bodies@[k]->0.dynamic,
            r matches Ok(evs) ==> forall|k: int|
                0 <= k < bodies@.len() ==> {
                    let h = self.attachment_set().live_handles()[k];
                    let d = self.attachment_set()@[h];
                    &&& (#[trigger] bodies@[k]) is None ==> evs@.contains(
                        event_for(h, d, AttachmentEventKind::BodyRemoved),
                    )
                    &&& (bodies@[k] is Some && !bodies@[k]->0.enabled) ==> evs@.contains(
                        event_for(h, d, AttachmentEventKind::BodyDisabled),
                    )
                    &&& (bodies@[k] is Some && bodies@[k]->0.enabled) ==> !event_handles(evs@).contains(h)
                },
    {
        let entries = self.attachments.iter();
        let ghost hs = self.attachments.live_handles();
        let ghost m = self.attachments@;
        let mut out: Vec<AttachmentEvent> = Vec::new();
        let mut k: usize = 0;
        while k < entries.len()
            invariant
                entries@.len() == hs.len(),
                bodies@.len() == hs.len(),
                forall|j: int| 0 <= j < entries@.len() ==> (#[trigger] entries@[j]).0 == hs[j] && *entries@[j].1 == m[entries@[j].0],
                k <= entries@.len(),
                forall|j: int| 0 <= j < k ==> #[trigger] body_verdict(bodies@[j]) is Ok,
                out@ == staged_events(hs, m, bodies@, k as int),
                hs.no_duplicates(),
                forall|j: int|
                    0 <= j < k ==> !((#[trigger] bodies@[j]) is Some && bodies@[j]->0.enabled
                        && bodies@[j]->0.dynamic),
                forall|j: int|
                    0 <= j < k ==> {
                        &&& (#[trigger] bodies@[j]) is None ==> out@.contains(
                            event_for(hs[j], m[hs[j]], AttachmentEventKind::BodyRemoved),
                        )
                        &&& (bodies@[j] is Some && !bodies@[j]->0.enabled) ==> out@.contains(
                            event_for(hs[j], m[hs[j]], AttachmentEventKind::BodyDisabled),
                        )
                    },
                forall|i: int|
                    0 <= i < out@.len() ==> exists|j: int|
                        0 <= j < k && (#[trigger] out@[i]).handle == hs[j] && (bodies@[j] is None
                            || !bodies@[j]->0.enabled),
            decreases entries@.len() - k,
        {
            let (h, d) = entries[k];
            let kind = match bodies[k] {
                None => Some(AttachmentEventKind::BodyRemoved),
                Some(b) => {
                    if !b.enabled {
                        Some(AttachmentEventKind::BodyDisabled)
                    } else if b.dynamic {
                        proof {
                            assert(body_verdict(bodies@[k as int]) is Err);
                        }
                        return Err(WorldError::InvalidAttachment("attached body changed to dynamic"));
                    } else {
                        None
                    }
                },
            };
            let ghost before = out@;
            match kind {
                Some(kind) => {
                    out.push(AttachmentEvent { handle: h, cloth: d.cloth, body: d.body, kind });
                    proof {
                        assert(out@[before.len() as int] == event_for(hs[k as int], m[hs[k as int]], kind));
                        assert forall|x: AttachmentEvent| before.contains(x) implies out@.contains(x) by {
                            let i = choose|i: int| 0 <= i < before.len() && before[i] == x;
                            assert(out@[i] == x);
                        }
                        assert forall|i: int| 0 <= i < out@.len() implies exists|j: int|
                            0 <= j < k + 1 && (#[trigger] out@[i]).handle == hs[j] && (bodies@[j] is None
                                || !bodies@[j]->0.enabled) by {
                            if i < before.len() {
                                assert(out@[i] == before[i]);
                            } else {
                                assert(out@[i].handle == hs[k as int]);
                            }
                        }
                    }
                },
                None => {},
            }
            k += 1;
        }
        proof {
            assert forall|k: int| 0 <= k < bodies@.len() && (#[trigger] bodies@[k]) is Some && bodies@[k]->0.enabled
                implies !event_handles(out@).contains(hs[k]) by {
                if event_handles(out@).contains(hs[k]) {
                    let i = choose|i: int| 0 <= i < out@.len() && (#[trigger] out@[i]).handle == hs[k];
                    let j = choose|j: int|
                        0 <= j < entries@.len() && (#[trigger] out@[i]).handle == hs[j] && (bodies@[j] is None
                            || !bodies@[j]->0.enabled);
                    assert(j != k);
                    assert(hs.no_duplicates());
                }
            }
        }
        Ok(out)
    }

    /// The couplings of `cloth` for a substep whose staged events are
    /// `ended`: the targets and excluded contact pairs of its live
    /// attachments that the events do not end, in slot order.
    /// `has_pose[k]` says whether the body of the `k`-th live attachment has
    /// a pose at the start of the substep; a coupled attachment without one
    /// refuses the substep.
    pub fn cloth_couplings(&self, cloth: ClothHandle, ended: &Vec<AttachmentEvent>, has_pose: &Vec<bool>) -> (r:
        Result<(Vec<(usize, usize)>, Vec<(u32, RawHandle)>), WorldError>)
        requires
            has_pose@.len() == self.attachment_set().live_handles().len(),
        ensures
            r is Err <==> exists|k: int|
                0 <= k < has_pose@.len() && !#[trigger] has_pose@[k] && coupled(
                    self.attachment_set()@[self.attachment_set().live_handles()[k]],
                    self.attachment_set().live_handles()[k],
                    cloth,
                    event_handles(ended@),
                ),
            r matches Err(e) ==> e == WorldError::InvalidAttachment("missing previous body pose"),
            r matches Ok((targets, pairs)) ==> {
                &&& targets@ == coupled_targets(
                    self.attachment_set().live_handles(),
                    self.attachment_set()@,
                    cloth,
                    event_handles(ended@),
                    has_pose@.len() as int,
                )
                &&& pairs@ == coupled_exclusions(
                    self.attachment_set().live_handles(),
                    self.attachment_set()@,
                    cloth,
                    event_handles(ended@),
                    has_pose@.len() as int,
                )
                &&& forall|x: (u32, RawHandle)|
                    #[trigger] pairs@.contains(x) <==> excluded_by_coupling(
                        self.attachment_set().live_handles(),
                        self.attachment_set()@,
                        cloth,
                        event_handles(ended@),
                        has_pose@.len() as int,
                        x,
                    )
            },
    {
        let entries = self.attachments.iter();
        let ghost hs = self.attachments.live_handles();
        let ghost m = self.attachments@;
        let ghost gone = event_handles(ended@);
        let mut targets: Vec<(usize, usize)> = Vec::new();
        let mut pairs: Vec<(u32, RawHandle)> = Vec::new();
        let mut k: usize = 0;
        while k < entries.len()
            invariant
                entries@.len() == hs.len(),
                hs == self.attachment_set().live_handles(),
                m == self.attachment_set()@,
                has_pose@.len() == hs.len(),
                gone == event_handles(ended@),
                forall|j: int|
                    0 <= j < entries@.len() ==> (#[trigger] entries@[j]).0 == hs[j] && *entries@[j].1
                        == m[entries@[j].0],
                k <= entries@.len(),
                forall|j: int| 0 <= j < k && coupled(m[hs[j]], hs[j], cloth, gone) ==> #[trigger] has_pose@[j],
                targets@ == coupled_targets(hs, m, cloth, gone, k as int),
                pairs@ == coupled_exclusions(hs, m, cloth, gone, k as int),
            decreases entries@.len() - k,
        {
            let (h, d) = entries[k];
            if d.cloth == cloth && !ends(ended, h) {
                if !has_pose[k] {
                    proof {
                        assert(entries@[k as int].0 == hs[k as int]);
                        assert(!has_pose@[k as int] && coupled(m[hs[k as int]], hs[k as int], cloth, gone));
                    }
                    return Err(WorldError::InvalidAttachment("missing previous body pose"));
                }
                let ghost before = targets@;
                let mut p: usize = 0;
                while p < d.points.len()
                    invariant
                        p <= d.points@.len(),
                        targets@ == before + Seq::new(p as nat, |q: int| (k, q as usize)),
                    decreases d.points@.len() - p,
                {
                    targets.push((k, p));
                    p += 1;
                    proof {
                        assert(targets@ =~= before + Seq::new(p as nat, |q: int| (k, q as usize)));
                    }
                }
                push_exclusions(d, &mut pairs);
                proof {
                    assert(entries@[k as int].0 == hs[k as int]);
                    assert(coupled_targets(hs, m, cloth, gone, k + 1) =~= before + Seq::new(
                        d.points@.len(),
                        |q: int| (k, q as usize),
                    ));
                }
            } else {
                proof {
                    assert(entries@[k as int].0 == hs[k as int]);
                }
            }
            k += 1;
        }
        proof {
            assert forall|x: (u32, RawHandle)| #[trigger] pairs@.contains(x) <==> excluded_by_coupling(
                hs,
                m,
                cloth,
                gone,
                hs.len() as int,
                x,
            ) by {
                lemma_coupled_exclusions_members(hs, m, cloth, gone, hs.len() as int, x);
            }
        }
        Ok((targets, pairs))
    }

    /// Removes a cloth. Its attachments are removed with it, each reported by
    /// a `ClothRemoved` event, in slot order.
    pub fn remove_cloth(&mut self, h: ClothHandle) -> (r: Result<C, ClothError>)
        ensures
            same_world(*old(self), *final(self)),
            r is Ok <==> old(self).cloth_set()@.contains_key(h),
            r is Err ==> *final(self) == *old(self),
            r matches Err(e) ==> e == ClothError::InvalidHandle,
            r matches Ok(c) ==> {
                let removed = attachments_of(
                    old(self).attachment_set().live_handles(),
                    old(self).attachment_set()@,
                    h,
                );
                &&& c == old(self).cloth_set()@[h]
                &&& final(self).cloth_set()@ == old(self).cloth_set()@.remove(h)
                &&& final(self).cloth_set().retired(h)
                &&& old(self).cloth_set().frees_slot(h.slot() as int, &final(self).cloth_set())
                &&& final(self).attachment_set()@ == old(self).attachment_set()@.remove_keys(
                    removed.to_set(),
                )
                &&& final(self).pending_events() == old(self).pending_events() + removed.map_values(
                    |a: AttachmentHandle|
                        event_for(a, old(self).attachment_set()@[a], AttachmentEventKind::ClothRemoved),
                )
            },
            old(self).cloth_set().evolves_to(&final(self).cloth_set()),
            old(self).attachment_set().evolves_to(&final(self).attachment_set()),
            final(self).world_spec() == old(self).world_spec(),
            final(self).next_step_spec() == old(self).next_step_spec(),
            final(self).desynchronized_spec() == old(self).desynchronized_spec(),
            old(self).attachments_wf() ==> final(self).attachments_wf(),
    {
        let cloth = self.cloths.remove(h)?;
        let ghost removed_cloths = self.cloths;
        let ghost hs = self.attachments.live_handles();
        let ghost m = self.attachments@;
        let ghost pred = on_cloth(m, h);
        let mut handles: Vec<AttachmentHandle> = Vec::new();
        {
            let entries = self.attachments.iter();
            let mut k: usize = 0;
            while k < entries.len()
                invariant
                    entries@.len() == hs.len(),
                    forall|j: int|
                        0 <= j < entries@.len() ==> (#[trigger] entries@[j]).0 == hs[j] && *entries@[j].1
                            == m[entries@[j].0],
                    k <= entries@.len(),
                    pred == on_cloth(m, h),
                    handles@ == hs.take(k as int).filter(pred),
                decreases entries@.len() - k,
            {
                let (a, d) = entries[k];
                proof {
                    assert(entries@[k as int].0 == a);
                    assert(*entries@[k as int].1 == m[a]);
                    assert(hs.take(k + 1) =~= hs.take(k as int).push(a));
                    hs.take(k as int).lemma_filter_push(a, pred);
                    assert(pred(a) == (m[a].cloth == h)) by {
                        reveal(on_cloth);
                    }
                    assert(d.cloth == m[a].cloth);
                }
                let ghost before = handles@;
                if d.cloth == h {
                    handles.push(a);
                    proof {
                        assert(handles@ == before.push(a));
                        assert(pred(a));
                    }
                } else {
                    proof {
                        assert(!pred(a));
                    }
                }
                k += 1;
            }
            proof {
                assert(hs.take(k as int) =~= hs);
            }
        }
        let ghost removed = handles@;
        proof {
            assert(removed == attachments_of(hs, m, h));
            assert forall|j: int| 0 <= j < removed.len() implies m.contains_key(#[trigger] removed[j]) by {
                hs.lemma_filter_contains_rev(pred, removed[j]);
                assert(hs.contains(removed[j]));
                assert(hs.to_set().contains(removed[j]));
            }
            assert(removed.no_duplicates()) by {
                lemma_filter_no_duplicates(hs, pred);
            }
        }
        let ghost events0 = self.events@;
        let mut i: usize = 0;
        while i < handles.len()
            invariant
                removed == handles@,
                removed.no_duplicates(),
                forall|j: int| 0 <= j < removed.len() ==> m.contains_key(#[trigger] removed[j]),
                i <= removed.len(),
                self.attachments@ == m.remove_keys(removed.take(i as int).to_set()),
                self.events@ == events0 + removed.take(i as int).map_values(
                    |a: AttachmentHandle| event_for(a, m[a], AttachmentEventKind::ClothRemoved),
                ),
                self.world == old(self).world,
                self.next_step == old(self).next_step,
                self.desynchronized == old(self).desynchronized,
                self.cloths@ == old(self).cloths@.remove(h),
                self.cloths.retired(h),
                self.cloths == removed_cloths,
                old(self).cloths.evolves_to(&self.cloths),
                old(self).attachments.evolves_to(&self.attachments),
                m == old(self).attachments@,
                events0 == old(self).events@,
            decreases removed.len() - i,
        {
            let a = handles[i];
            proof {
                assert(!removed.take(i as int).contains(a)) by {
                    if removed.take(i as int).contains(a) {
                        let j = choose|j: int| 0 <= j < i && removed.take(i as int)[j] == a;
                        assert(removed[j] == removed[i as int]);
                    }
                }
                assert(self.attachments@.contains_key(a));
            }
            let res = self.release_with_reason(a, AttachmentEventKind::ClothRemoved);
            proof {
                assert(removed.take(i + 1) =~= removed.take(i as int).push(a));
                removed.take(i as int).lemma_push_to_set_commute(a);
                assert(self.attachments@ =~= m.remove_keys(removed.take(i + 1).to_set()));
                assert(removed.take(i + 1).map_values(
                    |a: AttachmentHandle| event_for(a, m[a], AttachmentEventKind::ClothRemoved),
                ) =~= removed.take(i as int).map_values(
                    |a: AttachmentHandle| event_for(a, m[a], AttachmentEventKind::ClothRemoved),
                ).push(event_for(a, m[a], AttachmentEventKind::ClothRemoved)));
                assert(self.events@ =~= events0 + removed.take(i + 1).map_values(
                    |a: AttachmentHandle| event_for(a, m[a], AttachmentEventKind::ClothRemoved),
                ));
            }
            i += 1;
        }
        proof {
            assert(removed.take(i as int) =~= removed);
            if old(self).attachments_wf() {
                assert forall|a: AttachmentHandle| #[trigger] self.attachments@.contains_key(a) implies self.cloths@.contains_key(
                    self.attachments@[a].cloth,
                ) by {
                    assert(m.contains_key(a) && !removed.to_set().contains(a));
                    if m[a].cloth == h {
                        assert(hs.to_set().contains(a));
                        let j = choose|j: int| 0 <= j < hs.len() && hs[j] == a;
                        assert(pred(a)) by {
                            reveal(on_cloth);
                        }
                        hs.lemma_filter_contains(pred, j);
                        assert(removed.contains(a));
                    }
                }
                lemma_submap_keeps_targets_exclusive(m, self.attachments@);
            }
        }
        Ok(cloth)
    }

    /// Why `attach` refuses `desc`, checked in this order: the cloth handle,
    /// the body, the points and compliance, each point in order (particle in
    /// range, finite anchor, no second target on the particle), then each
    /// excluded collider (it must belong to the attached body).
    pub open spec fn attach_fault(&self, desc: AttachmentDesc<A, R>, checks: AttachChecks) -> Option<
        WorldError,
    > {
        let m = self.attachment_set()@;
        if !self.cloth_set()@.contains_key(desc.cloth) {
            Some(WorldError::Core(ClothError::InvalidHandle))
        } else if checks.body is None {
            Some(WorldError::InvalidAttachment("body handle"))
        } else if checks.body.unwrap().dynamic || !checks.body.unwrap().enabled {
            Some(WorldError::InvalidAttachment("body must be enabled and fixed or kinematic"))
        } else if desc.points@.len() == 0 || !checks.compliance_ok {
            Some(WorldError::InvalidAttachment("points or compliance"))
        } else if first_point_fault(desc, checks, m, desc.points@.len() as int) is Some {
            first_point_fault(desc, checks, m, desc.points@.len() as int)
        } else if first_excluded_fault(desc, checks, desc.excluded_colliders@.len() as int) {
            Some(WorldError::InvalidAttachment("excluded collider must belong to attached body"))
        } else {
            None
        }
    }

    /// Whether an attachment can find a slot.
    pub fn can_attach(&self) -> (r: bool)
        ensures
            r == self.attachment_set().has_room(),
    {
        self.attachments.can_insert()
    }

    /// Whether an attachment of `cloth` already holds particle `p`.
    fn holds_particle(&self, cloth: ClothHandle, p: u32) -> (r: bool)
        ensures
            r == held(self.attachment_set()@, cloth, p),
    {
        let entries = self.attachments.iter();
        let ghost hs = self.attachments.live_handles();
        let ghost m = self.attachments@;
        let mut k: usize = 0;
        while k < entries.len()
            invariant
                m == self.attachments@,
                entries@.len() == hs.len(),
                hs.to_set() == m.dom(),
                forall|j: int|
                    0 <= j < entries@.len() ==> (#[trigger] entries@[j]).0 == hs[j] && *entries@[j].1
                        == m[entries@[j].0],
                k <= entries@.len(),
                forall|j: int|
                    0 <= j < k ==> !(m[hs[j]].cloth == cloth && exists|q: int|
                        0 <= q < m[hs[j]].points@.len() && m[hs[j]].points@[q].particle == p),
            decreases entries@.len() - k,
        {
            let (a, d) = entries[k];
            proof {
                assert(entries@[k as int].0 == a && *entries@[k as int].1 == m[a]);
            }
            if d.cloth == cloth {
                let mut q: usize = 0;
                #[verifier::loop_isolation(false)]
                while q < d.points.len()
                    invariant
                        q <= d.points@.len(),
                        forall|x: int| 0 <= x < q ==> d.points@[x].particle != p,
                    decreases d.points@.len() - q,
                {
                    if d.points[q].particle == p {
                        proof {
                            assert(hs.to_set().contains(a));
                            assert(m.contains_key(a));
                            assert(m[a].points@[q as int].particle == p);
                            assert(m.contains_key(a) && m[a].cloth == cloth && exists|q: int|
                                0 <= q < m[a].points@.len() && m[a].points@[q].particle == p);
                        }
                        return true;
                    }
                    q += 1;
                }
            }
            k += 1;
        }
        proof {
            if held(m, cloth, p) {
                let a = choose|a: AttachmentHandle|
                    #[trigger] m.contains_key(a) && m[a].cloth == cloth && exists|q: int|
                        0 <= q < m[a].points@.len() && m[a].points@[q].particle == p;
                assert(hs.to_set().contains(a));
                let j = choose|j: int| 0 <= j < hs.len() && hs[j] == a;
                assert(false);
            }
        }
        false
    }

    /// The checks of `attach`, in order, without changing anything.
    pub fn check_attach(&self, desc: &AttachmentDesc<A, R>, checks: &AttachChecks) -> (r: Result<
        (),
        WorldError,
    >)
        requires
            checks.anchors_finite@.len() == desc.points@.len(),
            checks.pinned@.len() == desc.points@.len(),
            checks.excluded_parents@.len() == desc.excluded_colliders@.len(),
        ensures
            match self.attach_fault(*desc, *checks) {
                Some(e) => r == Err::<(), WorldError>(e),
                None => r is Ok,
            },
    {
        let ghost m = self.attachments@;
        if self.cloths.get(desc.cloth).is_err() {
            return Err(WorldError::Core(ClothError::InvalidHandle));
        }
        let body = match checks.body {
            None => {
                return Err(WorldError::InvalidAttachment("body handle"));
            },
            Some(b) => b,
        };
        if body.dynamic || !body.enabled {
            return Err(WorldError::InvalidAttachment("body must be enabled and fixed or kinematic"));
        }
        if desc.points.len() == 0 || !checks.compliance_ok {
            return Err(WorldError::InvalidAttachment("points or compliance"));
        }
        let mut k: usize = 0;
        #[verifier::loop_isolation(false)]
        while k < desc.points.len()
            invariant
                k <= desc.points@.len(),
                checks.anchors_finite@.len() == desc.points@.len(),
                checks.pinned@.len() == desc.points@.len(),
                m == self.attachments@,
                first_point_fault(*desc, *checks, m, k as int) is None,
            decreases desc.points@.len() - k,
        {
            let p = desc.points[k].particle;
            proof {
                if point_fault(*desc, *checks, m, k as int) is Some {
                    lemma_first_point_fault_persists(*desc, *checks, m, k + 1, desc.points@.len() as int);
                }
            }
            if p as usize >= checks.particle_count {
                return Err(WorldError::Core(ClothError::InvalidParticle(p)));
            }
            if !checks.anchors_finite[k] {
                return Err(WorldError::InvalidAttachment("non-finite anchor"));
            }
            let mut q: usize = 0;
            let mut repeated = false;
            while q < k
                invariant
                    q <= k < desc.points@.len(),
                    p == desc.points@[k as int].particle,
                    repeated <==> exists|x: int| 0 <= x < q && (#[trigger] desc.points@[x]).particle == p,
                decreases k - q,
            {
                if desc.points[q].particle == p {
                    repeated = true;
                }
                q += 1;
            }
            if repeated || checks.pinned[k] || self.holds_particle(desc.cloth, p) {
                return Err(WorldError::Core(ClothError::ConflictingTarget(p)));
            }
            k += 1;
        }
        let mut i: usize = 0;
        #[verifier::loop_isolation(false)]
        while i < desc.excluded_colliders.len()
            invariant
                i <= desc.excluded_colliders@.len(),
                checks.excluded_parents@.len() == desc.excluded_colliders@.len(),
                !first_excluded_fault(*desc, *checks, i as int),
            decreases desc.excluded_colliders@.len() - i,
        {
            let belongs = match checks.excluded_parents[i] {
                Some(parent) => parent.0 == desc.body.0 && parent.1 == desc.body.1,
                None => false,
            };
            if !belongs {
                proof {
                    lemma_first_excluded_fault_persists(*desc, *checks, i + 1, desc.excluded_colliders@.len() as int);
                }
                return Err(WorldError::InvalidAttachment("excluded collider must belong to attached body"));
            }
            i += 1;
        }
        Ok(())
    }

    /// Attaches particles of a cloth to a fixed or kinematic body, after the
    /// checks of `attach_fault`; nothing changes on refusal.
    pub fn attach(&mut self, desc: AttachmentDesc<A, R>, checks: &AttachChecks) -> (r: Result<
        AttachmentHandle,
        WorldError,
    >)
        requires
            checks.anchors_finite@.len() == desc.points@.len(),
            checks.pinned@.len() == desc.points@.len(),
            checks.excluded_parents@.len() == desc.excluded_colliders@.len(),
            old(self).attach_fault(desc, *checks) is None ==> old(self).attachment_set().has_room(),
        ensures
            same_world(*old(self), *final(self)),
            match old(self).attach_fault(desc, *checks) {
                Some(e) => r == Err::<AttachmentHandle, WorldError>(e) && *final(self) == *old(self),
                None => r is Ok && {
                    let h = r->Ok_0;
                    &&& !old(self).attachment_set()@.contains_key(h)
                    &&& final(self).attachment_set()@ == old(self).attachment_set()@.insert(h, desc)
                    &&& h.owner() == old(self).attachment_set().set_id()
                    &&& old(self).attachment_set().next_slot(h.slot() as int)
                    &&& h.generation_of() == old(self).attachment_set().slot_generation(h.slot() as int)
                    &&& old(self).attachment_set().fills_slot(h.slot() as int, &final(self).attachment_set())
                    &&& old(self).attachment_set().evolves_to(&final(self).attachment_set())
                    &&& final(self).cloth_set() == old(self).cloth_set()
                    &&& final(self).pending_events() == old(self).pending_events()
                    &&& final(self).world_spec() == old(self).world_spec()
                    &&& final(self).next_step_spec() == old(self).next_step_spec()
                    &&& final(self).desynchronized_spec() == old(self).desynchronized_spec()
                },
            },
            old(self).attachments_wf() ==> final(self).attachments_wf(),
    {
        let ghost m = self.attachments@;
        match self.check_attach(&desc, checks) {
            Err(e) => {
                return Err(e);
            },
            Ok(()) => {},
        }
        let ghost d = desc;
        let h = self.attachments.insert(desc);
        proof {
            if targets_exclusive(m) {
                lemma_attach_keeps_targets_exclusive(m, h, d, *checks);
            }
        }
        Ok(h)
    }

    /// Ends a substep that `begin_step` accepted, all or nothing: a computed
    /// outcome (every stepped cloth and the staged attachment events) is
    /// committed as a whole; no outcome marks the world as failed and leaves
    /// the step counter, the cloths, the attachments and the pending events
    /// as they were.
    pub fn finish_step(&mut self, outcome: Option<(Vec<(ClothHandle, C)>, Vec<AttachmentEvent>)>)
        requires
            outcome is Some ==> old(self).next_step_spec() < u64::MAX,
        ensures
            same_world(*old(self), *final(self)),
            match outcome {
                Some(o) => {
                    &&& final(self).cloth_set()@ == apply_updates(old(self).cloth_set()@, o.0@)
                    &&& final(self).attachment_set()@ == old(self).attachment_set()@.remove_keys(
                        event_handles(o.1@),
                    )
                    &&& final(self).pending_events() == old(self).pending_events() + o.1@
                    &&& final(self).next_step_spec() == old(self).next_step_spec() + 1
                    &&& final(self).desynchronized_spec() == old(self).desynchronized_spec()
                },
                None => {
                    &&& final(self).desynchronized_spec()
                    &&& final(self).next_step_spec() == old(self).next_step_spec()
                    &&& final(self).cloth_set() == old(self).cloth_set()
                    &&& final(self).attachment_set() == old(self).attachment_set()
                    &&& final(self).pending_events() == old(self).pending_events()
                },
            },
            old(self).cloth_set().evolves_to(&final(self).cloth_set()),
            old(self).attachment_set().evolves_to(&final(self).attachment_set()),
            final(self).world_spec() == old(self).world_spec(),
            old(self).attachments_wf() ==> final(self).attachments_wf(),
    {
        match outcome {
            Some((updates, events)) => self.commit_step(updates, events),
            None => self.fail_step(),
        }
    }

    /// Marks the world as failed: no further substep runs until a restore.
    pub fn fail_step(&mut self)
        ensures
            same_world(*old(self), *final(self)),
            final(self).desynchronized_spec(),
            final(self).world_spec() == old(self).world_spec(),
            final(self).next_step_spec() == old(self).next_step_spec(),
            final(self).cloth_set() == old(self).cloth_set(),
            final(self).attachment_set() == old(self).attachment_set(),
            final(self).pending_events() == old(self).pending_events(),
            old(self).attachments_wf() ==> final(self).attachments_wf(),
    {
        self.desynchronized = true;
    }
}

/// Filtering a sequence without duplicates keeps it without duplicates.
proof fn lemma_filter_no_duplicates<T>(s: Seq<T>, pred: spec_fn(T) -> bool)
    requires
        s.no_duplicates(),
    ensures
        s.filter(pred).no_duplicates(),
    decreases s.len(),
{
    reveal_with_fuel(Seq::filter, 1);
    if s.len() > 0 {
        let p = s.drop_last();
        let x = s.last();
        assert(p.no_duplicates()) by {
            assert forall|i: int, j: int| 0 <= i < p.len() && 0 <= j < p.len() && i != j implies p[i]
                != p[j] by {
                assert(p[i] == s[i] && p[j] == s[j]);
            }
        }
        lemma_filter_no_duplicates(p, pred);
        assert(s.filter(pred) == if pred(x) {
            p.filter(pred).push(x)
        } else {
            p.filter(pred)
        });
        if pred(x) {
            let f = p.filter(pred);
            assert(!f.contains(x)) by {
                if f.contains(x) {
                    let j = choose|j: int| 0 <= j < f.len() && f[j] == x;
                    p.lemma_filter_contains_rev(pred, x);
                    let k = choose|k: int| 0 <= k < p.len() && p[k] == x;
                    assert(s[k] == s[s.len() - 1]);
                }
            }
            let g = f.push(x);
            assert forall|i: int, j: int| 0 <= i < g.len() && 0 <= j < g.len() && i != j implies g[i]
                != g[j] by {
                if i < f.len() && j < f.len() {
                    assert(g[i] == f[i] && g[j] == f[j]);
                } else if i < f.len() {
                    assert(g[i] == f[i]);
                } else if j < f.len() {
                    assert(g[j] == f[j]);
                }
            }
        }
    }
}

/// Same world token and the same attachment arena identity: what every
/// operation of a world keeps, and what a restore checks before it accepts
/// a checkpoint.
pub open spec fn same_world<C, A, R>(a: ClothWorld<C, A, R>, b: ClothWorld<C, A, R>) -> bool {
    &&& a.world_spec() == b.world_spec()
    &&& a.attachment_set().set_id() == b.attachment_set().set_id()
}

/// Same world token, step counter, arena identities, live handles,
/// attachment links, pending events, and the same slots in both registries
/// (slot counts, live slots, generations, retired handles).
pub open spec fn same_bookkeeping<C, A, R>(a: ClothWorld<C, A, R>, b: ClothWorld<C, A, R>) -> bool {
    &&& a.world_spec() == b.world_spec()
    &&& a.next_step_spec() == b.next_step_spec()
    &&& a.cloth_set().set_id() == b.cloth_set().set_id()
    &&& a.cloth_set()@.dom() == b.cloth_set()@.dom()
    &&& a.attachment_set().set_id() == b.attachment_set().set_id()
    &&& a.attachment_set()@.dom() == b.attachment_set()@.dom()
    &&& forall|h: AttachmentHandle|
        #[trigger] a.attachment_set()@.contains_key(h) ==> same_links(
            a.attachment_set()@[h],
            b.attachment_set()@[h],
        )
    &&& a.pending_events() == b.pending_events()
    &&& a.cloth_set().same_slots(&b.cloth_set())
    &&& a.attachment_set().same_slots(&b.attachment_set())
}

fn copy_events(events: &Vec<AttachmentEvent>) -> (r: Vec<AttachmentEvent>)
    ensures
        r@ == events@,
{
    let mut out: Vec<AttachmentEvent> = Vec::new();
    let mut i: usize = 0;
    while i < events.len()
        invariant
            i <= events@.len(),
            out@ == events@.take(i as int),
        decreases events@.len() - i,
    {
        out.push(events[i]);
        i += 1;
        proof {
            assert(out@ =~= events@.take(i as int));
        }
    }
    proof {
        assert(events@.take(i as int) =~= events@);
    }
    out
}

impl<C: Clone, A: Clone, R: Clone> ClothWorld<C, A, R> {
    /// An in-memory copy of the world's state, refused after a failed substep.
    pub fn checkpoint(&self) -> (r: Result<Self, WorldError>)
        ensures
            r is Err <==> self.desynchronized_spec(),
            r matches Err(e) ==> e == WorldError::InvalidScene("cannot checkpoint a failed step"),
            r matches Ok(cp) ==> {
                &&& same_bookkeeping(cp, *self)
                &&& !cp.desynchronized_spec()
                &&& self.attachments_wf() ==> cp.attachments_wf()
                &&& forall|h: ClothHandle| #[trigger] self.cloth_set()@.contains_key(h) ==> cloned::<C>(
                    self.cloth_set()@[h],
                    cp.cloth_set()@[h],
                )
                &&& forall|h: AttachmentHandle| #[trigger]
                    self.attachment_set()@.contains_key(h) ==> cloned::<AttachmentDesc<A, R>>(
                        self.attachment_set()@[h],
                        cp.attachment_set()@[h],
                    )
            },
    {
        if self.desynchronized {
            return Err(WorldError::InvalidScene("cannot checkpoint a failed step"));
        }
        let cp = ClothWorld {
            world: self.world,
            next_step: self.next_step,
            desynchronized: false,
            cloths: self.cloths.clone(),
            attachments: self.attachments.clone(),
            events: copy_events(&self.events),
        };
        proof {
            assert forall|h: AttachmentHandle| #[trigger] cp.attachments@.contains_key(h) implies same_links(
                cp.attachments@[h],
                self.attachments@[h],
            ) by {
                assert(self.attachments@.contains_key(h));
            }
            if targets_exclusive(self.attachments@) {
                lemma_same_links_keep_targets_exclusive(self.attachments@, cp.attachments@);
            }
        }
        Ok(cp)
    }

    /// Returns the world to a checkpoint of this same world (same world
    /// token and attachment arena); the failure flag is cleared.
    pub fn restore(&mut self, checkpoint: &Self) -> (r: Result<(), WorldError>)
        ensures
            same_world(*old(self), *final(self)),
            r is Ok <==> (checkpoint.world_spec() == old(self).world_spec()
                && checkpoint.attachment_set().set_id() == old(self).attachment_set().set_id()),
            r matches Err(e) ==> e == WorldError::InvalidScene("checkpoint belongs to another cloth world")
                && *final(self) == *old(self),
            r is Ok ==> {
                &&& same_bookkeeping(*final(self), *checkpoint)
                &&& !final(self).desynchronized_spec()
                &&& checkpoint.attachments_wf() ==> final(self).attachments_wf()
                &&& forall|h: ClothHandle| #[trigger] checkpoint.cloth_set()@.contains_key(h) ==> cloned::<C>(
                    checkpoint.cloth_set()@[h],
                    final(self).cloth_set()@[h],
                )
                &&& forall|h: AttachmentHandle| #[trigger]
                    checkpoint.attachment_set()@.contains_key(h) ==> cloned::<AttachmentDesc<A, R>>(
                        checkpoint.attachment_set()@[h],
                        final(self).attachment_set()@[h],
                    )
            },
    {
        if checkpoint.world != self.world || checkpoint.attachments.identity() != self.attachments.identity() {
            return Err(WorldError::InvalidScene("checkpoint belongs to another cloth world"));
        }
        self.cloths = checkpoint.cloths.clone();
        self.attachments = checkpoint.attachments.clone();
        self.events = copy_events(&checkpoint.events);
        self.next_step = checkpoint.next_step;
        self.desynchronized = false;
        proof {
            assert forall|h: AttachmentHandle| #[trigger] self.attachments@.contains_key(h) implies same_links(
                self.attachments@[h],
                checkpoint.attachments@[h],
            ) by {
                assert(checkpoint.attachments@.contains_key(h));
            }
            if targets_exclusive(checkpoint.attachments@) {
                lemma_same_links_keep_targets_exclusive(checkpoint.attachments@, self.attachments@);
            }
        }
        Ok(())
    }
}

/// Restoring a checkpoint brings back the bookkeeping of the moment the
/// checkpoint was taken.
pub proof fn lemma_restore_returns_to_checkpoint<C, A, R>(
    taken: ClothWorld<C, A, R>,
    checkpoint: ClothWorld<C, A, R>,
    restored: ClothWorld<C, A, R>,
)
    requires
        same_bookkeeping(checkpoint, taken),
        same_bookkeeping(restored, checkpoint),
    ensures
        same_bookkeeping(restored, taken),
{
    assert forall|h: AttachmentHandle| #[trigger] restored.attachment_set()@.contains_key(h) implies same_links(
        restored.attachment_set()@[h],
        taken.attachment_set()@[h],
    ) by {
        assert(checkpoint.attachment_set()@.contains_key(h));
        let a = restored.attachment_set()@[h];
        let b = checkpoint.attachment_set()@[h];
        let c = taken.attachment_set()@[h];
        assert forall|i: int| 0 <= i < a.points@.len() implies (#[trigger] a.points@[i]).particle == c.points@[i].particle by {
            assert(a.points@[i].particle == b.points@[i].particle);
            assert(b.points@[i].particle == c.points@[i].particle);
        }
    }
}

/// A checkpoint survives any later use of its world: every operation keeps
/// `same_world` (steps, failures, edits and restores alike), so restoring
/// the checkpoint is accepted, and it brings back the bookkeeping of the
/// moment the checkpoint was taken.
pub proof fn lemma_checkpoint_round_trip<C, A, R>(
    taken: ClothWorld<C, A, R>,
    checkpoint: ClothWorld<C, A, R>,
    edited: ClothWorld<C, A, R>,
    restored: ClothWorld<C, A, R>,
)
    requires
        same_bookkeeping(checkpoint, taken),
        same_world(taken, edited),
        same_bookkeeping(restored, checkpoint),
    ensures
        checkpoint.world_spec() == edited.world_spec(),
        checkpoint.attachment_set().set_id() == edited.attachment_set().set_id(),
        same_world(restored, edited),
        same_bookkeeping(restored, taken),
{
    lemma_restore_returns_to_checkpoint(taken, checkpoint, restored);
}

/// Only the scene of this world's next substep can run, and only while the
/// world has not failed: a scene of an earlier or a later step is refused.
pub proof fn lemma_only_next_scene_runs<C, A, R>(
    w: ClothWorld<C, A, R>,
    scene_world: WorldId,
    scene_step: u64,
    timing_ok: bool,
    settings: Result<(), ClothError>,
    collision_ok: bool,
)
    ensures
        w.step_fault(scene_world, scene_step, timing_ok, settings, collision_ok) is None ==> {
            &&& !w.desynchronized_spec()
            &&& scene_world == w.world_spec()
            &&& scene_step == w.next_step_spec()
            &&& timing_ok && settings is Ok && collision_ok
        },
{
}

/// Once a substep failed, every further substep is refused until a restore.
pub proof fn lemma_failed_world_refuses_steps<C, A, R>(
    w: ClothWorld<C, A, R>,
    scene_world: WorldId,
    scene_step: u64,
    timing_ok: bool,
    settings: Result<(), ClothError>,
    collision_ok: bool,
)
    requires
        w.desynchronized_spec(),
    ensures
        w.step_fault(scene_world, scene_step, timing_ok, settings, collision_ok) is Some,
{
}

/// A captured scene is consumed at most once: after the world moved past
/// its step, the same scene is refused.
pub proof fn lemma_scene_consumed_once<C, A, R>(
    before: ClothWorld<C, A, R>,
    after: ClothWorld<C, A, R>,
    scene_world: WorldId,
    timing_ok: bool,
    settings: Result<(), ClothError>,
    collision_ok: bool,
)
    requires
        after.next_step_spec() == before.next_step_spec() + 1,
    ensures
        after.step_fault(scene_world, before.next_step_spec(), timing_ok, settings, collision_ok)
            is Some,
{
}

} // verus!
