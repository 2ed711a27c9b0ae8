use rapier_cloth::grid::{check_grid_dimensions, grid_triangles};
use rapier_cloth::{ClothError, MeshFault, MeshTopology};

fn sub(a: [f32; 3], b: [f32; 3]) -> [f32; 3] {
    [a[0] - b[0], a[1] - b[1], a[2] - b[2]]
}

fn cross(a: [f32; 3], b: [f32; 3]) -> [f32; 3] {
    [
        a[1] * b[2] - a[2] * b[1],
        a[2] * b[0] - a[0] * b[2],
        a[0] * b[1] - a[1] * b[0],
    ]
}

/// The geometric verdicts that the float side of the mesh builder computes.
fn verdicts(p: &[[f32; 3]], tris: &[[u32; 3]]) -> (bool, Vec<bool>, bool) {
    let finite = p.iter().all(|v| v.iter().all(|x| x.is_finite()));
    let mut areas = vec![0.0f32; p.len()];
    let mut ok = vec![];
    for t in tris {
        if t.iter().any(|&i| i as usize >= p.len()) {
            ok.push(false);
            continue;
        }
        let n = cross(
            sub(p[t[1] as usize], p[t[0] as usize]),
            sub(p[t[2] as usize], p[t[0] as usize]),
        );
        let area = (n[0] * n[0] + n[1] * n[1] + n[2] * n[2]).sqrt() * 0.5;
        let good = area.is_finite() && area > f32::MIN_POSITIVE;
        ok.push(good);
        if good {
            for &i in t {
                areas[i as usize] += area / 3.0;
            }
        }
    }
    let vertex_ok = areas.iter().all(|a| a.is_finite() && *a > f32::MIN_POSITIVE);
    (finite, ok, vertex_ok)
}

fn build(p: &[[f32; 3]], tris: Vec<[u32; 3]>) -> Result<MeshTopology, MeshFault> {
    let (finite, ok, vertex_ok) = verdicts(p, &tris);
    MeshTopology::new(p.len(), finite, tris, &ok, vertex_ok)
}

fn grid_mesh(n: usize) -> MeshTopology {
    check_grid_dimensions(n, n).unwrap();
    let tris = grid_triangles(n, n);
    let ok = vec![true; tris.len()];
    MeshTopology::new(n * n, true, tris, &ok, true).unwrap()
}

#[test]
fn grid_counts_area_and_order() {
    for n in [2, 16, 32, 64] {
        let m = grid_mesh(n);
        assert_eq!(m.vertex_count(), n * n);
        assert_eq!(m.triangles().len(), 2 * (n - 1) * (n - 1));
        assert_eq!(m.edges().len(), 2 * n * (n - 1) + (n - 1) * (n - 1));
        assert_eq!(m.hinge_count(), m.edges().len() - 4 * (n - 1));
        let m2 = grid_mesh(n);
        assert_eq!(m.triangles(), m2.triangles());
        assert_eq!(
            m.edges().iter().map(|e| e.vertices).collect::<Vec<_>>(),
            m2.edges().iter().map(|e| e.vertices).collect::<Vec<_>>()
        );
    }
}

#[test]
fn invalid_topology_is_rejected_without_repair() {
    let z = [0.0, 0.0, 0.0];
    let x = [1.0, 0.0, 0.0];
    let y = [0.0, 1.0, 0.0];
    let zz = [0.0, 0.0, 1.0];
    let ny = [0.0, -1.0, 0.0];
    let p = vec![z, x, y, zz, ny];
    let cases: Vec<(Vec<[f32; 3]>, Vec<[u32; 3]>, MeshFault)> = vec![
        (p[..3].to_vec(), vec![[0, 1, 9]], MeshFault::IndexOutOfBounds),
        (p[..3].to_vec(), vec![[0, 1, 1]], MeshFault::RepeatedVertex),
        (
            p[..3].to_vec(),
            vec![[0, 1, 2], [2, 1, 0]],
            MeshFault::DuplicateTriangle,
        ),
        (
            p[..4].to_vec(),
            vec![[0, 1, 2], [0, 1, 3]],
            MeshFault::InconsistentWinding,
        ),
        (
            p.clone(),
            vec![[0, 1, 2], [1, 0, 3], [0, 1, 4]],
            MeshFault::NonManifoldEdge,
        ),
        (p.clone(), vec![[0, 1, 2]], MeshFault::IsolatedVertex),
        (
            vec![z, x, [2.0, 0.0, 0.0]],
            vec![[0, 1, 2]],
            MeshFault::ZeroArea,
        ),
        (
            vec![[f32::NAN; 3], x, y],
            vec![[0, 1, 2]],
            MeshFault::NonFiniteVertex,
        ),
    ];
    for (positions, faces, fault) in cases {
        assert_eq!(build(&positions, faces).err(), Some(fault));
    }
    assert!(check_grid_dimensions(1, 4).is_err());
    assert_eq!(
        check_grid_dimensions(1, 4),
        Err(ClothError::InvalidParameter("grid dimensions"))
    );
}

#[test]
fn too_small_meshes_are_refused_first() {
    assert_eq!(
        build(&[[0.0; 3], [1.0, 0.0, 0.0]], vec![[0, 1, 1]]).err(),
        Some(MeshFault::TooSmall)
    );
    assert_eq!(
        build(&[[0.0; 3], [1.0, 0.0, 0.0], [0.0, 1.0, 0.0]], vec![]).err(),
        Some(MeshFault::TooSmall)
    );
}

#[test]
fn shared_edge_yields_one_hinge_in_face_order() {
    let p = [[0.0, 0.0, 0.0], [1.0, 0.0, 0.0], [0.0, 1.0, 0.0], [1.0, -1.0, 0.0]];
    let m = build(&p, vec![[0, 1, 2], [1, 0, 3]]).unwrap();
    let edges: Vec<_> = m.edges().iter().map(|e| (e.vertices, e.hinge)).collect();
    assert_eq!(
        edges,
        vec![
            ([0, 1], Some([0, 1, 2, 3])),
            ([0, 2], None),
            ([0, 3], None),
            ([1, 2], None),
            ([1, 3], None),
        ]
    );
}

#[test]
fn grid_triangles_follow_the_cell_pattern() {
    let t = grid_triangles(3, 2);
    assert_eq!(t, vec![[0, 3, 1], [1, 3, 4], [1, 4, 2], [2, 4, 5]]);
    assert!(check_grid_dimensions(65536, 65536).is_err());
    assert!(check_grid_dimensions(usize::MAX, 2).is_err());
    assert!(check_grid_dimensions(2, 2).is_ok());
}

#[test]
fn fault_messages_become_mesh_errors() {
    assert_eq!(
        MeshFault::DuplicateTriangle.to_error(),
        ClothError::InvalidMesh("duplicate triangle".into())
    );
    assert_eq!(
        MeshFault::NonManifoldEdge.to_error(),
        ClothError::InvalidMesh("non-manifold edge".into())
    );
}

#[test]
fn every_grid_shape_passes_the_topology_checks() {
    for nx in 2..7 {
        for ny in 2..7 {
            check_grid_dimensions(nx, ny).unwrap();
            let tris = grid_triangles(nx, ny);
            let ok = vec![true; tris.len()];
            let m = MeshTopology::new(nx * ny, true, tris, &ok, true).unwrap();
            // Interior edges are shared by exactly two faces running in
            // opposite directions.
            for e in m.edges() {
                if let Some([a, b, _, _]) = e.hinge {
                    let [u, v] = e.vertices;
                    assert!((a, b) == (u, v) || (a, b) == (v, u));
                }
            }
            let boundary = 2 * (nx - 1) + 2 * (ny - 1);
            assert_eq!(m.hinge_count(), m.edges().len() - boundary);
        }
    }
}
