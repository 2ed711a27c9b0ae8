use vstd::prelude::*;

use crate::error::ClothError;

verus! {

/// Why a triangle mesh is refused. Each fault maps to one `InvalidMesh`
/// message of `ClothError`.
#[derive(Debug, Clone, Copy, PartialEq, Eq, Structural)]
pub enum MeshFault {
    TooSmall,
    NonFiniteVertex,
    IndexOutOfBounds,
    RepeatedVertex,
    DuplicateTriangle,
    ZeroArea,
    NonManifoldEdge,
    InconsistentWinding,
    IsolatedVertex,
    InvalidEdgeLength,
    DegenerateHinge,
}

/// The text of each fault.
pub open spec fn fault_text(f: MeshFault) -> Seq<char> {
    match f {
        MeshFault::TooSmall => "at least three vertices and one triangle are required"@,
        MeshFault::NonFiniteVertex => "non-finite vertex"@,
        MeshFault::IndexOutOfBounds => "triangle index out of bounds"@,
        MeshFault::RepeatedVertex => "repeated triangle vertex"@,
        MeshFault::DuplicateTriangle => "duplicate triangle"@,
        MeshFault::ZeroArea => "zero or non-finite triangle area"@,
        MeshFault::NonManifoldEdge => "non-manifold edge"@,
        MeshFault::InconsistentWinding => "inconsistent triangle winding"@,
        MeshFault::IsolatedVertex => "isolated vertex or invalid accumulated area"@,
        MeshFault::InvalidEdgeLength => "invalid edge length"@,
        MeshFault::DegenerateHinge => "degenerate rest hinge"@,
    }
}

impl MeshFault {
    pub fn message(self) -> (r: &'static str)
        ensures
            r@ == fault_text(self),
    {
        match self {
            MeshFault::TooSmall => "at least three vertices and one triangle are required",
            MeshFault::NonFiniteVertex => "non-finite vertex",
            MeshFault::IndexOutOfBounds => "triangle index out of bounds",
            MeshFault::RepeatedVertex => "repeated triangle vertex",
            MeshFault::DuplicateTriangle => "duplicate triangle",
            MeshFault::ZeroArea => "zero or non-finite triangle area",
            MeshFault::NonManifoldEdge => "non-manifold edge",
            MeshFault::InconsistentWinding => "inconsistent triangle winding",
            MeshFault::IsolatedVertex => "isolated vertex or invalid accumulated area",
            MeshFault::InvalidEdgeLength => "invalid edge length",
            MeshFault::DegenerateHinge => "degenerate rest hinge",
        }
    }

    /// The `ClothError` that reports this fault.
    pub fn to_error(self) -> (r: ClothError)
        ensures
            r matches ClothError::InvalidMesh(s) && s@ == fault_text(self),
    {
        ClothError::InvalidMesh(self.message().to_owned())
    }
}

/// Corner `r` of a triangle, counting on past the last corner (`0 <= r < 5`).
pub open spec fn corner(t: [u32; 3], r: int) -> u32 {
    if r == 0 || r == 3 {
        t[0]
    } else if r == 1 || r == 4 {
        t[1]
    } else {
        t[2]
    }
}

/// Unordered vertex pair of the directed edge that starts at corner `r`.
pub open spec fn pair_of(t: [u32; 3], r: int) -> (u32, u32) {
    let i = corner(t, r);
    let j = corner(t, r + 1);
    if i < j {
        (i, j)
    } else {
        (j, i)
    }
}

/// The triangle rotated so that it starts at corner `r`.
pub open spec fn rotate(t: [u32; 3], r: int) -> [u32; 3] {
    [corner(t, r), corner(t, r + 1), corner(t, r + 2)]
}

pub open spec fn has_pair(t: [u32; 3], p: (u32, u32)) -> bool {
    pair_of(t, 0) == p || pair_of(t, 1) == p || pair_of(t, 2) == p
}

/// The triangle rotated so that its first edge is the pair `p`.
pub open spec fn directed_face(t: [u32; 3], p: (u32, u32)) -> [u32; 3] {
    if pair_of(t, 0) == p {
        rotate(t, 0)
    } else if pair_of(t, 1) == p {
        rotate(t, 1)
    } else {
        rotate(t, 2)
    }
}

/// The triangles of `tris` that contain the pair `p`, each rotated to start
/// on that edge, in triangle order.
pub open spec fn faces_on(tris: Seq<[u32; 3]>, p: (u32, u32)) -> Seq<[u32; 3]>
    decreases tris.len(),
{
    if tris.len() == 0 {
        Seq::empty()
    } else {
        let rest = faces_on(tris.drop_last(), p);
        if has_pair(tris.last(), p) {
            rest.push(directed_face(tris.last(), p))
        } else {
            rest
        }
    }
}

pub open spec fn in_bounds(t: [u32; 3], n: nat) -> bool {
    t[0] < n && t[1] < n && t[2] < n
}

pub open spec fn distinct(t: [u32; 3]) -> bool {
    t[0] != t[1] && t[1] != t[2] && t[0] != t[2]
}

pub open spec fn on_triangle(t: [u32; 3], v: u32) -> bool {
    t[0] == v || t[1] == v || t[2] == v
}

/// Same vertex set (both triangles have three distinct vertices).
pub open spec fn same_vertices(a: [u32; 3], b: [u32; 3]) -> bool {
    on_triangle(b, a[0]) && on_triangle(b, a[1]) && on_triangle(b, a[2])
}

pub open spec fn duplicates_earlier(prefix: Seq<[u32; 3]>, t: [u32; 3]) -> bool {
    exists|s: int| 0 <= s < prefix.len() && same_vertices(#[trigger] prefix[s], t)
}

/// The check on the directed edge at corner `r` of `t`, given the triangles
/// accepted before it: an edge has at most two faces, and the second face
/// runs along it in the opposite direction.
pub open spec fn edge_fault(prefix: Seq<[u32; 3]>, t: [u32; 3], r: int) -> Option<MeshFault> {
    let f = faces_on(prefix, pair_of(t, r));
    if f.len() >= 2 {
        Some(MeshFault::NonManifoldEdge)
    } else if f.len() == 1 && f[0][0] == corner(t, r) {
        Some(MeshFault::InconsistentWinding)
    } else {
        None
    }
}

/// The first check that triangle `t` fails, given the triangles before it.
pub open spec fn triangle_fault(prefix: Seq<[u32; 3]>, t: [u32; 3], area_ok: bool, n: nat) -> Option<
    MeshFault,
> {
    if !in_bounds(t, n) {
        Some(MeshFault::IndexOutOfBounds)
    } else if !distinct(t) {
        Some(MeshFault::RepeatedVertex)
    } else if duplicates_earlier(prefix, t) {
        Some(MeshFault::DuplicateTriangle)
    } else if !area_ok {
        Some(MeshFault::ZeroArea)
    } else if edge_fault(prefix, t, 0) is Some {
        edge_fault(prefix, t, 0)
    } else if edge_fault(prefix, t, 1) is Some {
        edge_fault(prefix, t, 1)
    } else {
        edge_fault(prefix, t, 2)
    }
}

/// The fault of the first failing triangle, scanning in order.
pub open spec fn first_triangle_fault(tris: Seq<[u32; 3]>, area_ok: Seq<bool>, n: nat) -> Option<
    MeshFault,
>
    decreases tris.len(),
{
    if tris.len() == 0 {
        None
    } else {
        match first_triangle_fault(tris.drop_last(), area_ok.take(tris.len() - 1), n) {
            Some(f) => Some(f),
            None => triangle_fault(tris.drop_last(), tris.last(), area_ok[tris.len() - 1], n),
        }
    }
}

pub open spec fn vertex_used(tris: Seq<[u32; 3]>, v: int) -> bool {
    exists|s: int| 0 <= s < tris.len() && on_triangle(#[trigger] tris[s], v as u32)
}

/// The complete mesh check. `positions_finite`, `face_area_ok` and
/// `vertex_areas_ok` are the geometric verdicts: every position finite,
/// each triangle's area finite and positive, and the accumulated vertex
/// areas finite and positive.
pub open spec fn mesh_fault(
    n: nat,
    positions_finite: bool,
    tris: Seq<[u32; 3]>,
    face_area_ok: Seq<bool>,
    vertex_areas_ok: bool,
) -> Option<MeshFault> {
    if n < 3 || n > u32::MAX || tris.len() == 0 {
        Some(MeshFault::TooSmall)
    } else if !positions_finite {
        Some(MeshFault::NonFiniteVertex)
    } else if first_triangle_fault(tris, face_area_ok, n) is Some {
        first_triangle_fault(tris, face_area_ok, n)
    } else if !vertex_areas_ok || exists|v: int| 0 <= v < n && !vertex_used(tris, v) {
        Some(MeshFault::IsolatedVertex)
    } else {
        None
    }
}

pub open spec fn pair_lt(a: (u32, u32), b: (u32, u32)) -> bool {
    a.0 < b.0 || (a.0 == b.0 && a.1 < b.1)
}

/// Hinge of an interior edge: the first face on the edge, followed by the
/// opposite vertex of the second face.
pub open spec fn hinge_of(tris: Seq<[u32; 3]>, p: (u32, u32)) -> Option<[u32; 4]> {
    let f = faces_on(tris, p);
    if f.len() == 2 {
        Some([f[0][0], f[0][1], f[0][2], f[1][2]])
    } else {
        None
    }
}

/// `f` is the triangle `t`, started at one of its corners.
pub open spec fn rotation_of(t: [u32; 3], f: [u32; 3]) -> bool {
    f == rotate(t, 0) || f == rotate(t, 1) || f == rotate(t, 2)
}

/// Two triangles of `tris` contain the vertex pair `p`.
pub open spec fn shared_edge(tris: Seq<[u32; 3]>, p: (u32, u32)) -> bool {
    exists|i: int, j: int| 0 <= i < j < tris.len() && has_pair(#[trigger] tris[i], p) && has_pair(#[trigger] tris[j], p)
}

/// `h` is the hinge of the edge `p` of `tris`: triangles `i < j` contain
/// the edge; `h[0..3]` is triangle `i` started on the edge, `h[3]` is the
/// vertex of triangle `j` off the edge, triangle `j` runs along the edge the
/// other way, and the four vertices are pairwise distinct.
pub open spec fn hinge_in(tris: Seq<[u32; 3]>, p: (u32, u32), h: [u32; 4]) -> bool {
    &&& pair_of([h[0], h[1], h[2]], 0) == p
    &&& h[0] != h[1] && h[0] != h[2] && h[0] != h[3]
    &&& h[1] != h[2] && h[1] != h[3] && h[2] != h[3]
    &&& exists|i: int, j: int|
        0 <= i < j < tris.len() && rotation_of(#[trigger] tris[i], [h[0], h[1], h[2]]) && rotation_of(
            #[trigger] tris[j],
            [h[1], h[0], h[3]],
        )
}

proof fn lemma_directed_face_is_rotation(t: [u32; 3], p: (u32, u32))
    ensures
        rotation_of(t, directed_face(t, p)),
{
}

/// The two faces on a shared edge come from two triangles, in triangle order.
proof fn lemma_faces_on_two_sources(tris: Seq<[u32; 3]>, p: (u32, u32))
    requires
        faces_on(tris, p).len() == 2,
    ensures
        exists|i: int, j: int|
            0 <= i < j < tris.len() && has_pair(#[trigger] tris[i], p) && has_pair(#[trigger] tris[j], p)
                && faces_on(tris, p)[0] == directed_face(tris[i], p) && faces_on(tris, p)[1]
                == directed_face(tris[j], p),
    decreases tris.len(),
{
    let pre = tris.drop_last();
    let last = tris.last();
    if has_pair(last, p) {
        assert(faces_on(tris, p) == faces_on(pre, p).push(directed_face(last, p)));
        lemma_faces_on_members(pre, p);
        assert(faces_on(pre, p).len() == 1);
        let s = choose|s: int|
            0 <= s < pre.len() && has_pair(pre[s], p) && #[trigger] faces_on(pre, p)[0] == directed_face(pre[s], p);
        assert(tris[s] == pre[s]);
        assert(tris[tris.len() - 1] == last);
        assert(has_pair(tris[s], p) && has_pair(tris[tris.len() - 1], p));
    } else {
        assert(faces_on(tris, p) == faces_on(pre, p));
        lemma_faces_on_two_sources(pre, p);
        let (i, j) = choose|i: int, j: int|
            0 <= i < j < pre.len() && has_pair(#[trigger] pre[i], p) && has_pair(#[trigger] pre[j], p)
                && faces_on(pre, p)[0] == directed_face(pre[i], p) && faces_on(pre, p)[1]
                == directed_face(pre[j], p);
        assert(tris[i] == pre[i] && tris[j] == pre[j]);
    }
}

/// In a mesh of distinct triangles with distinct vertices that forms an
/// oriented manifold, an edge has a hinge exactly when two triangles share
/// it, and the hinge is made of the earlier triangle started on the edge
/// and the later triangle's vertex off the edge: four distinct vertices.
pub proof fn lemma_hinge_shape(tris: Seq<[u32; 3]>, p: (u32, u32))
    requires
        forall|s: int| 0 <= s < tris.len() ==> distinct(#[trigger] tris[s]),
        forall|a: int, b: int| 0 <= a < b < tris.len() ==> !same_vertices(#[trigger] tris[a], #[trigger] tris[b]),
        faces_on(tris, p).len() <= 2,
        faces_on(tris, p).len() == 2 ==> faces_on(tris, p)[1][0] == faces_on(tris, p)[0][1]
            && faces_on(tris, p)[1][1] == faces_on(tris, p)[0][0],
    ensures
        hinge_of(tris, p) is Some <==> shared_edge(tris, p),
        hinge_of(tris, p) matches Some(h) ==> hinge_in(tris, p, h),
{
    let f = faces_on(tris, p);
    lemma_faces_on_start_on_pair(tris, p);
    if f.len() == 2 {
        lemma_faces_on_two_sources(tris, p);
        let (i, j) = choose|i: int, j: int|
            0 <= i < j < tris.len() && has_pair(#[trigger] tris[i], p) && has_pair(#[trigger] tris[j], p)
                && f[0] == directed_face(tris[i], p) && f[1] == directed_face(tris[j], p);
        lemma_directed_face_is_rotation(tris[i], p);
        lemma_directed_face_is_rotation(tris[j], p);
        assert(distinct(tris[i]) && distinct(tris[j]));
        assert(pair_of(f[0], 0) == p);
        let h = [f[0][0], f[0][1], f[0][2], f[1][2]];
        assert([h[0], h[1], h[2]] =~= f[0]);
        assert([h[1], h[0], h[3]] =~= f[1]);
        if h[2] == h[3] {
            assert(same_vertices(tris[i], tris[j]));
        }
        assert(hinge_in(tris, p, h));
    } else {
        if shared_edge(tris, p) {
            let (i, j) = choose|i: int, j: int|
                0 <= i < j < tris.len() && has_pair(#[trigger] tris[i], p) && has_pair(#[trigger] tris[j], p);
            lemma_faces_on_complete(tris, p, i);
            lemma_faces_on_complete(tris, p, j);
            let di = directed_face(tris[i], p);
            let dj = directed_face(tris[j], p);
            assert(distinct(tris[i]) && distinct(tris[j]));
            if di == dj {
                assert(same_vertices(tris[i], tris[j]));
            }
            let a = choose|a: int| 0 <= a < f.len() && f[a] == di;
            let b = choose|b: int| 0 <= b < f.len() && f[b] == dj;
            assert(false);
        }
    }
}

/// One undirected mesh edge and, when two faces share it, its hinge.
#[derive(Debug, Clone, Copy, PartialEq, Eq)]
pub struct TopologyEdge {
    pub vertices: [u32; 2],
    pub hinge: Option<[u32; 4]>,
}

/// Adjacency entry: an edge and the (one or two) faces on it.
#[derive(Clone, Copy)]
struct AdjEntry {
    pair: (u32, u32),
    first: [u32; 3],
    second: Option<[u32; 3]>,
}

spec fn entry_faces(e: AdjEntry) -> Seq<[u32; 3]> {
    match e.second {
        Some(s) => seq![e.first, s],
        None => seq![e.first],
    }
}

spec fn sorted_pairs(adj: Seq<AdjEntry>) -> bool {
    forall|a: int, b: int| 0 <= a < b < adj.len() ==> pair_lt(#[trigger] adj[a].pair, #[trigger] adj[b].pair)
}

fn pair_less(a: (u32, u32), b: (u32, u32)) -> (r: bool)
    ensures
        r == pair_lt(a, b),
{
    a.0 < b.0 || (a.0 == b.0 && a.1 < b.1)
}

/// Binary search: `Ok(i)` where entry `i` has the pair, else `Err(i)` with
/// `i` the position that keeps the entries sorted.
fn find_pair(adj: &Vec<AdjEntry>, p: (u32, u32)) -> (r: Result<usize, usize>)
    requires
        sorted_pairs(adj@),
    ensures
        match r {
            Ok(i) => i < adj@.len() && adj@[i as int].pair == p,
            Err(i) => {
                &&& i <= adj@.len()
                &&& forall|k: int| 0 <= k < adj@.len() ==> adj@[k].pair != p
                &&& forall|k: int| 0 <= k < i ==> pair_lt(#[trigger] adj@[k].pair, p)
                &&& forall|k: int| i <= k < adj@.len() ==> pair_lt(p, #[trigger] adj@[k].pair)
            },
        },
{
    let mut lo: usize = 0;
    let mut hi: usize = adj.len();
    while lo < hi
        invariant
            sorted_pairs(adj@),
            lo <= hi <= adj@.len(),
            forall|k: int| 0 <= k < lo ==> pair_lt(#[trigger] adj@[k].pair, p),
            forall|k: int| hi <= k < adj@.len() ==> pair_lt(p, #[trigger] adj@[k].pair),
        decreases hi - lo,
    {
        let mid = lo + (hi - lo) / 2;
        let q = adj[mid].pair;
        if q.0 == p.0 && q.1 == p.1 {
            return Ok(mid);
        } else if pair_less(q, p) {
            lo = mid + 1;
        } else {
            hi = mid;
        }
    }
    Err(lo)
}

/// The faces of `prefix` on `p`, followed by the rotation of `t` that was
/// already recorded while processing the corners of `t` before `r`.
spec fn partial_faces(prefix: Seq<[u32; 3]>, t: [u32; 3], r: int, p: (u32, u32)) -> Seq<[u32; 3]> {
    let base = faces_on(prefix, p);
    if r >= 1 && pair_of(t, 0) == p {
        base.push(rotate(t, 0))
    } else if r >= 2 && pair_of(t, 1) == p {
        base.push(rotate(t, 1))
    } else if r >= 3 && pair_of(t, 2) == p {
        base.push(rotate(t, 2))
    } else {
        base
    }
}

/// The adjacency holds every face of `prefix` and the corners of `t` before `r`.
spec fn adj_inv(adj: Seq<AdjEntry>, prefix: Seq<[u32; 3]>, t: [u32; 3], r: int) -> bool {
    &&& sorted_pairs(adj)
    &&& forall|i: int|
        0 <= i < adj.len() ==> entry_faces(#[trigger] adj[i]) == partial_faces(
            prefix,
            t,
            r,
            adj[i].pair,
        )
    &&& forall|q: (u32, u32)|
        #[trigger] partial_faces(prefix, t, r, q).len() > 0 ==> exists|i: int|
            0 <= i < adj.len() && adj[i].pair == q
}

proof fn lemma_distinct_pairs(t: [u32; 3])
    requires
        distinct(t),
    ensures
        pair_of(t, 0) != pair_of(t, 1),
        pair_of(t, 1) != pair_of(t, 2),
        pair_of(t, 0) != pair_of(t, 2),
        pair_of(t, 0).0 < pair_of(t, 0).1,
        pair_of(t, 1).0 < pair_of(t, 1).1,
        pair_of(t, 2).0 < pair_of(t, 2).1,
{
}

/// Records corner `r` of `t` on its edge, or reports the edge fault.
fn add_directed_edge(adj: &mut Vec<AdjEntry>, t: [u32; 3], r: usize, Ghost(prefix): Ghost<
    Seq<[u32; 3]>,
>) -> (res: Result<(), MeshFault>)
    requires
        adj_inv(old(adj)@, prefix, t, r as int),
        distinct(t),
        r < 3,
    ensures
        match res {
            Ok(()) => edge_fault(prefix, t, r as int) is None && adj_inv(
                final(adj)@,
                prefix,
                t,
                r + 1,
            ),
            Err(f) => edge_fault(prefix, t, r as int) == Some(f),
        },
{
    proof {
        lemma_distinct_pairs(t);
    }
    let i = if r == 0 {
        t[0]
    } else if r == 1 {
        t[1]
    } else {
        t[2]
    };
    let j = if r == 0 {
        t[1]
    } else if r == 1 {
        t[2]
    } else {
        t[0]
    };
    let k = if r == 0 {
        t[2]
    } else if r == 1 {
        t[0]
    } else {
        t[1]
    };
    let p = if i < j {
        (i, j)
    } else {
        (j, i)
    };
    let rot = [i, j, k];
    assert(p == pair_of(t, r as int));
    assert(rot == rotate(t, r as int));
    let ghost pre = adj@;
    assert(partial_faces(prefix, t, r as int, p) == faces_on(prefix, p));
    match find_pair(adj, p) {
        Ok(idx) => {
            let e = adj[idx];
            assert(entry_faces(pre[idx as int]) == faces_on(prefix, p));
            if e.second.is_some() {
                return Err(MeshFault::NonManifoldEdge);
            }
            if e.first[0] == i {
                return Err(MeshFault::InconsistentWinding);
            }
            adj.set(idx, AdjEntry { pair: e.pair, first: e.first, second: Some(rot) });
            proof {
                assert(partial_faces(prefix, t, r + 1, p) == faces_on(prefix, p).push(rot));
                assert forall|a: int|
                    0 <= a < adj@.len() implies entry_faces(#[trigger] adj@[a]) == partial_faces(
                    prefix,
                    t,
                    r + 1,
                    adj@[a].pair,
                ) by {
                    if a != idx {
                        assert(adj@[a] == pre[a]);
                        assert(pre[a].pair != p) by {
                            if a < idx {
                                assert(pair_lt(pre[a].pair, pre[idx as int].pair));
                            } else {
                                assert(pair_lt(pre[idx as int].pair, pre[a].pair));
                            }
                        }
                    } else {
                        assert(entry_faces(adj@[a]) =~= faces_on(prefix, p).push(rot));
                    }
                }
                assert forall|q: (u32, u32)| #[trigger]
                    partial_faces(prefix, t, r + 1, q).len() > 0 implies exists|a: int|
                    0 <= a < adj@.len() && adj@[a].pair == q by {
                    if q == p {
                        assert(adj@[idx as int].pair == q);
                    } else {
                        assert(partial_faces(prefix, t, r as int, q).len() > 0);
                        let a = choose|a: int| 0 <= a < pre.len() && pre[a].pair == q;
                        assert(adj@[a].pair == q);
                    }
                }
            }
            Ok(())
        },
        Err(pos) => {
            proof {
                if faces_on(prefix, p).len() > 0 {
                    let a = choose|a: int| 0 <= a < pre.len() && pre[a].pair == p;
                    assert(false);
                }
            }
            let e = AdjEntry { pair: p, first: rot, second: None };
            adj.insert(pos, e);
            proof {
                assert(partial_faces(prefix, t, r + 1, p) =~= seq![rot]);
                assert forall|a: int, b: int|
                    0 <= a < b < adj@.len() implies pair_lt(
                    #[trigger] adj@[a].pair,
                    #[trigger] adj@[b].pair,
                ) by {
                    if b < pos {
                        assert(adj@[a] == pre[a] && adj@[b] == pre[b]);
                    } else if b == pos {
                        assert(adj@[a] == pre[a]);
                    } else if a < pos {
                        assert(adj@[a] == pre[a] && adj@[b] == pre[b - 1]);
                    } else if a == pos {
                        assert(adj@[b] == pre[b - 1]);
                    } else {
                        assert(adj@[a] == pre[a - 1] && adj@[b] == pre[b - 1]);
                    }
                }
                assert forall|a: int|
                    0 <= a < adj@.len() implies entry_faces(#[trigger] adj@[a]) == partial_faces(
                    prefix,
                    t,
                    r + 1,
                    adj@[a].pair,
                ) by {
                    if a < pos {
                        assert(adj@[a] == pre[a]);
                    } else if a > pos {
                        assert(adj@[a] == pre[a - 1]);
                    } else {
                        assert(entry_faces(adj@[a]) =~= seq![rot]);
                    }
                }
                assert forall|q: (u32, u32)| #[trigger]
                    partial_faces(prefix, t, r + 1, q).len() > 0 implies exists|a: int|
                    0 <= a < adj@.len() && adj@[a].pair == q by {
                    if q == p {
                        assert(adj@[pos as int].pair == q);
                    } else {
                        assert(partial_faces(prefix, t, r as int, q).len() > 0);
                        let a = choose|a: int| 0 <= a < pre.len() && pre[a].pair == q;
                        if a < pos {
                            assert(adj@[a].pair == q);
                        } else {
                            assert(adj@[a + 1].pair == q);
                        }
                    }
                }
            }
            Ok(())
        },
    }
}

spec fn blank() -> [u32; 3] {
    [0u32, 0u32, 0u32]
}

spec fn adj_exact(adj: Seq<AdjEntry>, prefix: Seq<[u32; 3]>) -> bool {
    adj_inv(adj, prefix, blank(), 0)
}

proof fn lemma_adj_start(adj: Seq<AdjEntry>, prefix: Seq<[u32; 3]>, t: [u32; 3])
    ensures
        adj_exact(adj, prefix) == adj_inv(adj, prefix, t, 0),
{
    assert forall|q: (u32, u32)|
        #[trigger] partial_faces(prefix, t, 0, q) == partial_faces(prefix, blank(), 0, q)
        by {}
    if adj_exact(adj, prefix) {
        assert forall|q: (u32, u32)| #[trigger]
            partial_faces(prefix, t, 0, q).len() > 0 implies exists|i: int|
            0 <= i < adj.len() && adj[i].pair == q by {
            assert(partial_faces(prefix, blank(), 0, q).len() > 0);
        }
    }
    if adj_inv(adj, prefix, t, 0) {
        assert forall|q: (u32, u32)| #[trigger]
            partial_faces(prefix, blank(), 0, q).len() > 0 implies exists|i: int|
            0 <= i < adj.len() && adj[i].pair == q by {
            assert(partial_faces(prefix, t, 0, q).len() > 0);
        }
    }
}

proof fn lemma_adj_finish(adj: Seq<AdjEntry>, prefix: Seq<[u32; 3]>, t: [u32; 3])
    requires
        adj_inv(adj, prefix, t, 3),
        distinct(t),
    ensures
        adj_exact(adj, prefix.push(t)),
{
    lemma_distinct_pairs(t);
    let next = prefix.push(t);
    assert(next.drop_last() =~= prefix);
    assert forall|q: (u32, u32)|
        #[trigger] partial_faces(next, blank(), 0, q) == partial_faces(prefix, t, 3, q) by {
        assert(faces_on(next, q) == partial_faces(prefix, t, 3, q));
    }
    assert forall|q: (u32, u32)| #[trigger]
        partial_faces(next, blank(), 0, q).len() > 0 implies exists|i: int|
        0 <= i < adj.len() && adj[i].pair == q by {
        assert(partial_faces(prefix, t, 3, q).len() > 0);
    }
}

/// Every face on `p` is a triangle of `tris` that contains `p`, rotated onto it.
proof fn lemma_faces_on_members(tris: Seq<[u32; 3]>, p: (u32, u32))
    ensures
        forall|i: int|
            0 <= i < faces_on(tris, p).len() ==> exists|s: int|
                0 <= s < tris.len() && has_pair(tris[s], p) && #[trigger] faces_on(tris, p)[i]
                    == directed_face(tris[s], p),
    decreases tris.len(),
{
    if tris.len() > 0 {
        let pre = tris.drop_last();
        lemma_faces_on_members(pre, p);
        let last = tris.last();
        if has_pair(last, p) {
            assert(faces_on(tris, p) == faces_on(pre, p).push(directed_face(last, p)));
        } else {
            assert(faces_on(tris, p) == faces_on(pre, p));
        }
        assert forall|i: int| 0 <= i < faces_on(tris, p).len() implies exists|s: int|
            0 <= s < tris.len() && has_pair(tris[s], p) && #[trigger] faces_on(tris, p)[i]
                == directed_face(tris[s], p) by {
            if i < faces_on(pre, p).len() {
                assert(faces_on(tris, p)[i] == faces_on(pre, p)[i]);
                let s = choose|s: int|
                    0 <= s < pre.len() && has_pair(pre[s], p) && #[trigger] faces_on(pre, p)[i]
                        == directed_face(pre[s], p);
                assert(tris[s] == pre[s]);
            } else {
                assert(faces_on(tris, p)[i] == directed_face(tris[tris.len() - 1], p));
            }
        }
    }
}

/// No triangle contains `p`: no face on it.
pub(crate) proof fn lemma_faces_on_none(tris: Seq<[u32; 3]>, p: (u32, u32))
    requires
        forall|s: int| 0 <= s < tris.len() ==> !has_pair(#[trigger] tris[s], p),
    ensures
        faces_on(tris, p).len() == 0,
    decreases tris.len(),
{
    if tris.len() > 0 {
        let pre = tris.drop_last();
        assert forall|s: int| 0 <= s < pre.len() implies !has_pair(#[trigger] pre[s], p) by {
            assert(pre[s] == tris[s]);
        }
        lemma_faces_on_none(pre, p);
        assert(!has_pair(tris[tris.len() - 1], p));
    }
}

/// Exactly one triangle contains `p`: its face is the only one.
pub(crate) proof fn lemma_faces_on_single(tris: Seq<[u32; 3]>, p: (u32, u32), s0: int)
    requires
        0 <= s0 < tris.len(),
        has_pair(tris[s0], p),
        forall|s: int| 0 <= s < tris.len() && s != s0 ==> !has_pair(#[trigger] tris[s], p),
    ensures
        faces_on(tris, p) == seq![directed_face(tris[s0], p)],
    decreases tris.len(),
{
    let pre = tris.drop_last();
    if s0 == tris.len() - 1 {
        assert forall|s: int| 0 <= s < pre.len() implies !has_pair(#[trigger] pre[s], p) by {
            assert(pre[s] == tris[s]);
        }
        lemma_faces_on_none(pre, p);
        assert(faces_on(tris, p) =~= seq![directed_face(tris[s0], p)]);
    } else {
        assert(pre[s0] == tris[s0]);
        assert forall|s: int| 0 <= s < pre.len() && s != s0 implies !has_pair(#[trigger] pre[s], p) by {
            assert(pre[s] == tris[s]);
        }
        lemma_faces_on_single(pre, p, s0);
        assert(!has_pair(tris[tris.len() - 1], p));
    }
}

/// Every triangle of `tris` that contains `p` has its face on `p`.
proof fn lemma_faces_on_complete(tris: Seq<[u32; 3]>, p: (u32, u32), s: int)
    requires
        0 <= s < tris.len(),
        has_pair(tris[s], p),
    ensures
        faces_on(tris, p).contains(directed_face(tris[s], p)),
    decreases tris.len(),
{
    let pre = tris.drop_last();
    if s < tris.len() - 1 {
        assert(pre[s] == tris[s]);
        lemma_faces_on_complete(pre, p, s);
        let i = choose|i: int|
            0 <= i < faces_on(pre, p).len() && faces_on(pre, p)[i] == directed_face(tris[s], p);
        assert(faces_on(tris, p)[i] == faces_on(pre, p)[i]);
    } else {
        assert(faces_on(tris, p).last() == directed_face(tris[s], p));
    }
}

/// With all triangles distinct, a duplicate of `t` is found among the faces
/// on its first edge, as a face whose third vertex is the third vertex of `t`.
proof fn lemma_duplicate_by_edge(prefix: Seq<[u32; 3]>, t: [u32; 3])
    requires
        distinct(t),
        forall|s: int| 0 <= s < prefix.len() ==> distinct(#[trigger] prefix[s]),
    ensures
        duplicates_earlier(prefix, t) <==> exists|i: int|
            0 <= i < faces_on(prefix, pair_of(t, 0)).len() && (#[trigger] faces_on(
                prefix,
                pair_of(t, 0),
            )[i])[2] == t[2],
{
    let p = pair_of(t, 0);
    lemma_faces_on_members(prefix, p);
    if duplicates_earlier(prefix, t) {
        let s = choose|s: int| 0 <= s < prefix.len() && same_vertices(#[trigger] prefix[s], t);
        let u = prefix[s];
        assert(distinct(u));
        assert(has_pair(u, p));
        lemma_faces_on_complete(prefix, p, s);
        let i = choose|i: int|
            0 <= i < faces_on(prefix, p).len() && faces_on(prefix, p)[i] == directed_face(u, p);
        assert(faces_on(prefix, p)[i][2] == t[2]);
    }
    if exists|i: int|
        0 <= i < faces_on(prefix, p).len() && (#[trigger] faces_on(prefix, p)[i])[2] == t[2] {
        let i = choose|i: int|
            0 <= i < faces_on(prefix, p).len() && (#[trigger] faces_on(prefix, p)[i])[2] == t[2];
        let s = choose|s: int|
            0 <= s < prefix.len() && has_pair(prefix[s], p) && #[trigger] faces_on(prefix, p)[i]
                == directed_face(prefix[s], p);
        assert(distinct(prefix[s]));
        assert(same_vertices(prefix[s], t));
    }
}

/// Once a prefix of the triangles fails, every longer prefix fails the same way.
proof fn lemma_fault_persists(tris: Seq<[u32; 3]>, oks: Seq<bool>, n: nat, a: int, b: int)
    requires
        0 <= a <= b <= tris.len(),
        b <= oks.len(),
        first_triangle_fault(tris.take(a), oks.take(a), n) is Some,
    ensures
        first_triangle_fault(tris.take(b), oks.take(b), n) == first_triangle_fault(
            tris.take(a),
            oks.take(a),
            n,
        ),
    decreases b - a,
{
    if b > a {
        lemma_fault_persists(tris, oks, n, a, b - 1);
        assert(tris.take(b).drop_last() =~= tris.take(b - 1));
        assert(oks.take(b).take(b - 1) =~= oks.take(b - 1));
    }
}

/// Validated triangle topology of a cloth mesh: the triangles, and the
/// undirected edges in increasing vertex-pair order with their hinges.
pub struct MeshTopology {
    vertex_count: usize,
    triangles: Vec<[u32; 3]>,
    edges: Vec<TopologyEdge>,
}

pub open spec fn edge_pair(e: TopologyEdge) -> (u32, u32) {
    (e.vertices[0], e.vertices[1])
}

/// The edge list of `tris`: every vertex pair that a triangle contains,
/// once, in increasing order, with the hinge of each interior edge.
pub open spec fn edge_list(edges: Seq<TopologyEdge>, tris: Seq<[u32; 3]>) -> bool {
    &&& forall|a: int, b: int|
        0 <= a < b < edges.len() ==> pair_lt(
            edge_pair(#[trigger] edges[a]),
            edge_pair(#[trigger] edges[b]),
        )
    &&& forall|a: int|
        0 <= a < edges.len() ==> 1 <= faces_on(tris, edge_pair(#[trigger] edges[a])).len() <= 2
    &&& forall|a: int| 0 <= a < edges.len() ==> (#[trigger] edges[a]).hinge == hinge_of(tris, edge_pair(edges[a]))
    &&& forall|p: (u32, u32)|
        #[trigger] faces_on(tris, p).len() > 0 ==> exists|a: int|
            0 <= a < edges.len() && edge_pair(edges[a]) == p
}

impl MeshTopology {
    pub closed spec fn vertex_count_spec(&self) -> nat {
        self.vertex_count as nat
    }

    pub closed spec fn triangles_spec(&self) -> Seq<[u32; 3]> {
        self.triangles@
    }

    pub closed spec fn edges_spec(&self) -> Seq<TopologyEdge> {
        self.edges@
    }

    pub fn vertex_count(&self) -> (r: usize)
        ensures
            r == self.vertex_count_spec(),
    {
        self.vertex_count
    }

    pub fn triangles(&self) -> (r: &[[u32; 3]])
        ensures
            r@ == self.triangles_spec(),
    {
        self.triangles.as_slice()
    }

    pub fn edges(&self) -> (r: &[TopologyEdge])
        ensures
            r@ == self.edges_spec(),
    {
        self.edges.as_slice()
    }

    /// Number of hinges (edges shared by two faces).
    pub fn hinge_count(&self) -> (r: usize)
        ensures
            r == hinge_count_of(self.edges_spec()),
    {
        let mut count: usize = 0;
        let mut i: usize = 0;
        while i < self.edges.len()
            invariant
                i <= self.edges@.len(),
                count == hinge_count_of(self.edges@.take(i as int)),
                count <= i,
            decreases self.edges@.len() - i,
        {
            assert(self.edges@.take(i + 1).drop_last() =~= self.edges@.take(i as int));
            if self.edges[i].hinge.is_some() {
                count += 1;
            }
            i += 1;
        }
        assert(self.edges@.take(i as int) =~= self.edges@);
        count
    }

    /// Checks the topology of a triangle mesh with `vertex_count` vertices.
    /// The geometric verdicts come from the caller: `positions_finite`,
    /// `face_area_ok[t]` for triangle `t`, and `vertex_areas_ok`. Nothing is
    /// repaired: the first failing check, in the order of `mesh_fault`, is
    /// reported.
    pub fn new(
        vertex_count: usize,
        positions_finite: bool,
        triangles: Vec<[u32; 3]>,
        face_area_ok: &Vec<bool>,
        vertex_areas_ok: bool,
    ) -> (r: Result<MeshTopology, MeshFault>)
        requires
            face_area_ok@.len() == triangles@.len(),
        ensures
            match r {
                Ok(m) => {
                    &&& mesh_fault(
                        vertex_count as nat,
                        positions_finite,
                        triangles@,
                        face_area_ok@,
                        vertex_areas_ok,
                    ) is None
                    &&& m.vertex_count_spec() == vertex_count
                    &&& m.triangles_spec() == triangles@
                    &&& edge_list(m.edges_spec(), triangles@)
                    &&& forall|a: int|
                        0 <= a < m.edges_spec().len() ==> ((#[trigger] m.edges_spec()[a]).hinge is Some
                            <==> shared_edge(triangles@, edge_pair(m.edges_spec()[a])))
                    &&& forall|a: int|
                        0 <= a < m.edges_spec().len() ==> ((#[trigger] m.edges_spec()[a]).hinge matches Some(h)
                            ==> hinge_in(triangles@, edge_pair(m.edges_spec()[a]), h))
                },
                Err(f) => mesh_fault(
                    vertex_count as nat,
                    positions_finite,
                    triangles@,
                    face_area_ok@,
                    vertex_areas_ok,
                ) == Some(f),
            },
            r is Ok <==> valid_mesh(
                vertex_count as nat,
                positions_finite,
                triangles@,
                face_area_ok@,
                vertex_areas_ok,
            ),
    {
        proof {
            lemma_mesh_fault_none_iff_valid(
                vertex_count as nat,
                positions_finite,
                triangles@,
                face_area_ok@,
                vertex_areas_ok,
            );
        }
        let ghost tris = triangles@;
        let r = Self::check(vertex_count, positions_finite, triangles, face_area_ok, vertex_areas_ok);
        proof {
            if r is Ok {
                let m = r->Ok_0;
                assert forall|a: int| 0 <= a < m.edges_spec().len() implies ((#[trigger] m.edges_spec()[a]).hinge
                    is Some <==> shared_edge(tris, edge_pair(m.edges_spec()[a]))) && (m.edges_spec()[a].hinge matches Some(h)
                    ==> hinge_in(tris, edge_pair(m.edges_spec()[a]), h)) by {
                    lemma_hinge_shape(tris, edge_pair(m.edges_spec()[a]));
                }
            }
        }
        r
    }

    /// The checks of `new`, in the order of `mesh_fault`.
    fn check(
        vertex_count: usize,
        positions_finite: bool,
        triangles: Vec<[u32; 3]>,
        face_area_ok: &Vec<bool>,
        vertex_areas_ok: bool,
    ) -> (r: Result<MeshTopology, MeshFault>)
        requires
            face_area_ok@.len() == triangles@.len(),
        ensures
            match r {
                Ok(m) => {
                    &&& mesh_fault(
                        vertex_count as nat,
                        positions_finite,
                        triangles@,
                        face_area_ok@,
                        vertex_areas_ok,
                    ) is None
                    &&& m.vertex_count_spec() == vertex_count
                    &&& m.triangles_spec() == triangles@
                    &&& edge_list(m.edges_spec(), triangles@)
                },
                Err(f) => mesh_fault(
                    vertex_count as nat,
                    positions_finite,
                    triangles@,
                    face_area_ok@,
                    vertex_areas_ok,
                ) == Some(f),
            },
    {
        let ghost tris = triangles@;
        let ghost oks = face_area_ok@;
        let ghost nn = vertex_count as nat;
        if vertex_count < 3 || vertex_count > u32::MAX as usize || triangles.len() == 0 {
            return Err(MeshFault::TooSmall);
        }
        if !positions_finite {
            return Err(MeshFault::NonFiniteVertex);
        }
        let mut used: Vec<bool> = Vec::new();
        while used.len() < vertex_count
            invariant
                used@.len() <= vertex_count,
                forall|v: int| 0 <= v < used@.len() ==> !used@[v],
            decreases vertex_count - used@.len(),
        {
            used.push(false);
        }
        let mut adj: Vec<AdjEntry> = Vec::new();
        let mut k: usize = 0;
        proof {
            assert(tris.take(0) =~= Seq::<[u32; 3]>::empty());
            assert(oks.take(0) =~= Seq::<bool>::empty());
            assert forall|q: (u32, u32)|
                #[trigger] partial_faces(tris.take(0), blank(), 0, q).len() == 0 by {
                assert(faces_on(tris.take(0), q) =~= Seq::<[u32; 3]>::empty());
            }
        }
        while k < triangles.len()
            invariant
                tris == triangles@,
                oks == face_area_ok@,
                positions_finite,
                oks.len() == tris.len(),
                nn == vertex_count,
                3 <= vertex_count <= u32::MAX,
                k <= tris.len(),
                first_triangle_fault(tris.take(k as int), oks.take(k as int), nn) is None,
                adj_exact(adj@, tris.take(k as int)),
                forall|s: int| 0 <= s < k ==> distinct(#[trigger] tris[s]) && in_bounds(tris[s], nn),
                used@.len() == vertex_count,
                forall|v: int| 0 <= v < vertex_count ==> (#[trigger] used@[v] <==> vertex_used(tris.take(k as int), v)),
            decreases tris.len() - k,
        {
            let t = triangles[k];
            let ghost prefix = tris.take(k as int);
            proof {
                assert(tris.take(k + 1).drop_last() =~= prefix);
                assert(oks.take(k + 1).take(k as int) =~= oks.take(k as int));
                assert(tris.take(k + 1).last() == t);
                assert(oks.take(k + 1)[k as int] == oks[k as int]);
            }
            let fault: Option<MeshFault> = if t[0] as usize >= vertex_count || t[1] as usize
                >= vertex_count || t[2] as usize >= vertex_count {
                Some(MeshFault::IndexOutOfBounds)
            } else if t[0] == t[1] || t[1] == t[2] || t[0] == t[2] {
                Some(MeshFault::RepeatedVertex)
            } else {
                let p0 = if t[0] < t[1] {
                    (t[0], t[1])
                } else {
                    (t[1], t[0])
                };
                proof {
                    assert(p0 == pair_of(t, 0));
                    assert forall|s: int| 0 <= s < prefix.len() implies distinct(
                        #[trigger] prefix[s],
                    ) by {
                        assert(prefix[s] == tris[s]);
                    }
                    lemma_duplicate_by_edge(prefix, t);
                }
                let duplicate = match find_pair(&adj, p0) {
                    Ok(idx) => {
                        let e = adj[idx];
                        proof {
                            assert(entry_faces(e) == faces_on(prefix, p0));
                        }
                        e.first[2] == t[2] || match e.second {
                            Some(f) => f[2] == t[2],
                            None => false,
                        }
                    },
                    Err(_) => {
                        proof {
                            assert(partial_faces(prefix, blank(), 0, p0) == faces_on(
                                prefix,
                                p0,
                            ));
                            if faces_on(prefix, p0).len() > 0 {
                                let a = choose|a: int| 0 <= a < adj@.len() && adj@[a].pair == p0;
                                assert(false);
                            }
                        }
                        false
                    },
                };
                if duplicate {
                    Some(MeshFault::DuplicateTriangle)
                } else if !face_area_ok[k] {
                    Some(MeshFault::ZeroArea)
                } else {
                    proof {
                        lemma_adj_start(adj@, prefix, t);
                    }
                    match add_directed_edge(&mut adj, t, 0, Ghost(prefix)) {
                        Err(f) => Some(f),
                        Ok(()) => match add_directed_edge(&mut adj, t, 1, Ghost(prefix)) {
                            Err(f) => Some(f),
                            Ok(()) => match add_directed_edge(&mut adj, t, 2, Ghost(prefix)) {
                                Err(f) => Some(f),
                                Ok(()) => {
                                    proof {
                                        lemma_adj_finish(adj@, prefix, t);
                                    }
                                    None
                                },
                            },
                        },
                    }
                }
            };
            match fault {
                Some(f) => {
                    proof {
                        assert(first_triangle_fault(tris.take(k + 1), oks.take(k + 1), nn) == Some(f));
                        lemma_fault_persists(tris, oks, nn, k + 1, tris.len() as int);
                        assert(tris.take(tris.len() as int) =~= tris);
                        assert(oks.take(tris.len() as int) =~= oks);
                    }
                    return Err(f);
                },
                None => {},
            }
            used.set(t[0] as usize, true);
            used.set(t[1] as usize, true);
            used.set(t[2] as usize, true);
            proof {
                let next = tris.take(k + 1);
                assert(next == prefix.push(t));
                assert forall|v: int| 0 <= v < vertex_count implies (#[trigger] used@[v]
                    <==> vertex_used(next, v)) by {
                    if vertex_used(prefix, v) {
                        let s = choose|s: int| 0 <= s < prefix.len() && on_triangle(#[trigger] prefix[s], v as u32);
                        assert(next[s] == prefix[s]);
                    }
                    if vertex_used(next, v) {
                        let s = choose|s: int| 0 <= s < next.len() && on_triangle(#[trigger] next[s], v as u32);
                        if s < k {
                            assert(next[s] == prefix[s]);
                        }
                    }
                }
            }
            k += 1;
        }
        proof {
            assert(tris.take(k as int) =~= tris);
            assert(oks.take(k as int) =~= oks);
        }
        if !vertex_areas_ok {
            return Err(MeshFault::IsolatedVertex);
        }
        let mut v: usize = 0;
        #[verifier::loop_isolation(false)]
        while v < used.len()
            invariant
                used@.len() == vertex_count,
                v <= used@.len(),
                forall|w: int| 0 <= w < v ==> #[trigger] used@[w],
            decreases used@.len() - v,
        {
            if !used[v] {
                proof {
                    assert(!used@[v as int]);
                    assert(!vertex_used(tris, v as int));
                }
                return Err(MeshFault::IsolatedVertex);
            }
            v += 1;
        }
        proof {
            assert forall|w: int| 0 <= w < vertex_count implies vertex_used(tris, w) by {
                assert(used@[w]);
            }
        }
        let mut edges: Vec<TopologyEdge> = Vec::new();
        let mut i: usize = 0;
        #[verifier::loop_isolation(false)]
        while i < adj.len()
            invariant
                adj_exact(adj@, tris),
                i <= adj@.len(),
                edges@.len() == i,
                forall|a: int|
                    0 <= a < i ==> edge_pair(#[trigger] edges@[a]) == adj@[a].pair
                        && edges@[a].hinge == hinge_of(tris, adj@[a].pair),
            decreases adj@.len() - i,
        {
            let e = adj[i];
            proof {
                assert(entry_faces(adj@[i as int]) == faces_on(tris, e.pair));
            }
            let hinge = match e.second {
                Some(s) => Some([e.first[0], e.first[1], e.first[2], s[2]]),
                None => None,
            };
            edges.push(TopologyEdge { vertices: [e.pair.0, e.pair.1], hinge });
            i += 1;
        }
        proof {
            assert forall|a: int|
                0 <= a < edges@.len() implies 1 <= faces_on(tris, edge_pair(#[trigger] edges@[a])).len()
                <= 2 by {
                assert(entry_faces(adj@[a]) == faces_on(tris, adj@[a].pair));
            }
            assert forall|p: (u32, u32)| #[trigger] faces_on(tris, p).len() > 0 implies exists|a: int|
                0 <= a < edges@.len() && edge_pair(edges@[a]) == p by {
                assert(partial_faces(tris, blank(), 0, p) == faces_on(tris, p));
                let a = choose|a: int| 0 <= a < adj@.len() && adj@[a].pair == p;
                assert(edge_pair(edges@[a]) == p);
            }
            assert forall|a: int, b: int| 0 <= a < b < edges@.len() implies pair_lt(
                edge_pair(#[trigger] edges@[a]),
                edge_pair(#[trigger] edges@[b]),
            ) by {
                assert(pair_lt(adj@[a].pair, adj@[b].pair));
            }
        }
        Ok(MeshTopology { vertex_count, triangles, edges })
    }
}

pub open spec fn hinge_count_of(edges: Seq<TopologyEdge>) -> nat
    decreases edges.len(),
{
    if edges.len() == 0 {
        0
    } else {
        hinge_count_of(edges.drop_last()) + if edges.last().hinge is Some {
            1nat
        } else {
            0nat
        }
    }
}

/// Each face on the pair `p` starts with the two vertices of `p`.
proof fn lemma_faces_on_start_on_pair(tris: Seq<[u32; 3]>, p: (u32, u32))
    ensures
        forall|i: int| 0 <= i < faces_on(tris, p).len() ==> pair_of(#[trigger] faces_on(tris, p)[i], 0) == p,
    decreases tris.len(),
{
    if tris.len() > 0 {
        let t = tris.last();
        let rest = faces_on(tris.drop_last(), p);
        lemma_faces_on_start_on_pair(tris.drop_last(), p);
        if has_pair(t, p) {
            let d = directed_face(t, p);
            assert(pair_of(d, 0) == p);
            assert forall|i: int| 0 <= i < faces_on(tris, p).len() implies pair_of(
                #[trigger] faces_on(tris, p)[i],
                0,
            ) == p by {
                if i < rest.len() {
                    assert(faces_on(tris, p)[i] == rest[i]);
                }
            }
        }
    }
}

/// A triangle list that passes the triangle checks forms an oriented
/// manifold: every vertex pair borders at most two triangles, and two
/// triangles that share an edge run along it in opposite directions.
pub proof fn lemma_accepted_triangles_form_oriented_manifold(
    tris: Seq<[u32; 3]>,
    area_ok: Seq<bool>,
    n: nat,
    p: (u32, u32),
)
    requires
        first_triangle_fault(tris, area_ok, n) is None,
    ensures
        faces_on(tris, p).len() <= 2,
        faces_on(tris, p).len() == 2 ==> faces_on(tris, p)[1][0] == faces_on(tris, p)[0][1]
            && faces_on(tris, p)[1][1] == faces_on(tris, p)[0][0],
    decreases tris.len(),
{
    if tris.len() > 0 {
        let prefix = tris.drop_last();
        let t = tris.last();
        lemma_accepted_triangles_form_oriented_manifold(prefix, area_ok.take(tris.len() - 1), n, p);
        if has_pair(t, p) {
            let r: int = if pair_of(t, 0) == p {
                0
            } else if pair_of(t, 1) == p {
                1
            } else {
                2
            };
            assert(edge_fault(prefix, t, r) is None);
            lemma_faces_on_start_on_pair(prefix, p);
            let d = directed_face(t, p);
            assert(d[0] == corner(t, r) && d[1] == corner(t, r + 1));
            assert(faces_on(tris, p) == faces_on(prefix, p).push(d));
        }
    }
}

/// A validated mesh is an oriented manifold (see
/// `lemma_accepted_triangles_form_oriented_manifold`).
pub proof fn lemma_valid_mesh_is_oriented_manifold(
    n: nat,
    positions_finite: bool,
    tris: Seq<[u32; 3]>,
    face_area_ok: Seq<bool>,
    vertex_areas_ok: bool,
    p: (u32, u32),
)
    requires
        mesh_fault(n, positions_finite, tris, face_area_ok, vertex_areas_ok) is None,
    ensures
        faces_on(tris, p).len() <= 2,
        faces_on(tris, p).len() == 2 ==> faces_on(tris, p)[1][0] == faces_on(tris, p)[0][1]
            && faces_on(tris, p)[1][1] == faces_on(tris, p)[0][0],
{
    lemma_accepted_triangles_form_oriented_manifold(tris, face_area_ok, n, p);
}

/// Every triangle passes its checks against the triangles before it.
spec fn each_triangle_accepted(tris: Seq<[u32; 3]>, area_ok: Seq<bool>, n: nat) -> bool {
    forall|k: int| 0 <= k < tris.len() ==> #[trigger] triangle_fault(tris.take(k), tris[k], area_ok[k], n) is None
}

proof fn lemma_first_fault_none_iff_each(tris: Seq<[u32; 3]>, area_ok: Seq<bool>, n: nat)
    requires
        area_ok.len() == tris.len(),
    ensures
        first_triangle_fault(tris, area_ok, n) is None <==> each_triangle_accepted(tris, area_ok, n),
    decreases tris.len(),
{
    if tris.len() > 0 {
        let m = tris.len() - 1;
        let pre = tris.drop_last();
        let pa = area_ok.take(m);
        lemma_first_fault_none_iff_each(pre, pa, n);
        assert forall|k: int| 0 <= k < m implies #[trigger] triangle_fault(tris.take(k), tris[k], area_ok[k], n)
            == triangle_fault(pre.take(k), pre[k], pa[k], n) by {
            assert(tris.take(k) =~= pre.take(k));
        }
        assert(tris.take(m) =~= pre);
        if each_triangle_accepted(tris, area_ok, n) {
            assert forall|k: int| 0 <= k < pre.len() implies #[trigger] triangle_fault(pre.take(k), pre[k], pa[k], n)
                is None by {
                assert(triangle_fault(tris.take(k), tris[k], area_ok[k], n) is None);
            }
            assert(triangle_fault(tris.take(m), tris[m], area_ok[m], n) is None);
        }
        if first_triangle_fault(tris, area_ok, n) is None {
            assert forall|k: int| 0 <= k < tris.len() implies #[trigger] triangle_fault(
                tris.take(k),
                tris[k],
                area_ok[k],
                n,
            ) is None by {
                if k < m {
                    assert(triangle_fault(pre.take(k), pre[k], pa[k], n) is None);
                }
            }
        }
    }
}

/// The faces on `p` of a prefix of `tris` are a prefix of its faces on `p`.
proof fn lemma_faces_on_prefix_of(tris: Seq<[u32; 3]>, k: int, p: (u32, u32))
    requires
        0 <= k <= tris.len(),
    ensures
        faces_on(tris.take(k), p).len() <= faces_on(tris, p).len(),
        forall|i: int|
            0 <= i < faces_on(tris.take(k), p).len() ==> #[trigger] faces_on(tris.take(k), p)[i]
                == faces_on(tris, p)[i],
    decreases tris.len() - k,
{
    if k < tris.len() {
        let pre = tris.drop_last();
        lemma_faces_on_prefix_of(pre, k, p);
        assert(pre.take(k) =~= tris.take(k));
        let f = faces_on(pre, p);
        assert forall|i: int| 0 <= i < f.len() implies #[trigger] faces_on(tris, p)[i] == f[i] by {
        }
    } else {
        assert(tris.take(k) =~= tris);
    }
}

/// The declarative description of a valid mesh: enough vertices and at
/// least one triangle; finite positions and sound vertex areas; every
/// triangle in bounds, with three distinct vertices and a sound area; no
/// two triangles on the same three vertices; every vertex pair bordered by
/// at most two triangles, two of them running along it in opposite
/// directions; every vertex used.
pub open spec fn valid_mesh(
    n: nat,
    positions_finite: bool,
    tris: Seq<[u32; 3]>,
    face_area_ok: Seq<bool>,
    vertex_areas_ok: bool,
) -> bool {
    &&& 3 <= n <= u32::MAX
    &&& tris.len() > 0
    &&& positions_finite
    &&& vertex_areas_ok
    &&& forall|s: int|
        0 <= s < tris.len() ==> in_bounds(#[trigger] tris[s], n) && distinct(tris[s]) && face_area_ok[s]
    &&& forall|a: int, b: int| 0 <= a < b < tris.len() ==> !same_vertices(#[trigger] tris[a], #[trigger] tris[b])
    &&& forall|p: (u32, u32)|
        #![trigger faces_on(tris, p)]
        faces_on(tris, p).len() <= 2 && (faces_on(tris, p).len() == 2 ==> faces_on(tris, p)[1][0]
            == faces_on(tris, p)[0][1] && faces_on(tris, p)[1][1] == faces_on(tris, p)[0][0])
    &&& forall|v: int| 0 <= v < n ==> vertex_used(tris, v)
}

/// The mesh check accepts exactly the valid meshes.
pub proof fn lemma_mesh_fault_none_iff_valid(
    n: nat,
    positions_finite: bool,
    tris: Seq<[u32; 3]>,
    face_area_ok: Seq<bool>,
    vertex_areas_ok: bool,
)
    requires
        face_area_ok.len() == tris.len(),
    ensures
        mesh_fault(n, positions_finite, tris, face_area_ok, vertex_areas_ok) is None <==> valid_mesh(
            n,
            positions_finite,
            tris,
            face_area_ok,
            vertex_areas_ok,
        ),
{
    lemma_first_fault_none_iff_each(tris, face_area_ok, n);
    if mesh_fault(n, positions_finite, tris, face_area_ok, vertex_areas_ok) is None {
        assert forall|s: int| 0 <= s < tris.len() implies in_bounds(#[trigger] tris[s], n) && distinct(tris[s])
            && face_area_ok[s] by {
            assert(triangle_fault(tris.take(s), tris[s], face_area_ok[s], n) is None);
        }
        assert forall|a: int, b: int| 0 <= a < b < tris.len() implies !same_vertices(
            #[trigger] tris[a],
            #[trigger] tris[b],
        ) by {
            assert(triangle_fault(tris.take(b), tris[b], face_area_ok[b], n) is None);
            assert(tris.take(b)[a] == tris[a]);
        }
        assert forall|p: (u32, u32)|
            #![trigger faces_on(tris, p)]
            faces_on(tris, p).len() <= 2 && (faces_on(tris, p).len() == 2 ==> faces_on(tris, p)[1][0]
                == faces_on(tris, p)[0][1] && faces_on(tris, p)[1][1] == faces_on(tris, p)[0][0]) by {
            lemma_accepted_triangles_form_oriented_manifold(tris, face_area_ok, n, p);
        }
    }
    if valid_mesh(n, positions_finite, tris, face_area_ok, vertex_areas_ok) {
        assert forall|k: int| 0 <= k < tris.len() implies #[trigger] triangle_fault(
            tris.take(k),
            tris[k],
            face_area_ok[k],
            n,
        ) is None by {
            let t = tris[k];
            let prefix = tris.take(k);
            assert(in_bounds(t, n) && distinct(t) && face_area_ok[k]);
            assert(!duplicates_earlier(prefix, t)) by {
                if duplicates_earlier(prefix, t) {
                    let s = choose|s: int| 0 <= s < prefix.len() && same_vertices(#[trigger] prefix[s], t);
                    assert(prefix[s] == tris[s]);
                    assert(!same_vertices(tris[s], tris[k]));
                }
            }
            lemma_distinct_pairs(t);
            assert forall|r: int| 0 <= r < 3 implies #[trigger] edge_fault(prefix, t, r) is None by {
                let p = pair_of(t, r);
                let f = faces_on(prefix, p);
                let g = faces_on(tris, p);
                let next = tris.take(k + 1);
                assert(next.drop_last() =~= prefix);
                assert(next.last() == t);
                assert(has_pair(t, p));
                assert(faces_on(next, p) == f.push(directed_face(t, p)));
                lemma_faces_on_prefix_of(tris, k + 1, p);
                lemma_faces_on_start_on_pair(prefix, p);
                assert(faces_on(next, p)[f.len() as int] == directed_face(t, p));
                if f.len() == 1 {
                    assert(faces_on(next, p)[0] == f[0]);
                    assert(faces_on(tris.take(k + 1), p)[0] == g[0]);
                    assert(faces_on(tris.take(k + 1), p)[1] == g[1]);
                    assert(g[0] == f[0]);
                    assert(g[1] == directed_face(t, p));
                    assert(directed_face(t, p)[0] == corner(t, r));
                    assert(pair_of(f[0], 0) == p);
                }
            }
        }
    }
}

} // verus!
