# rapier_cloth

Cloth simulation for Rapier 3D, split into a verified core and the numerical
code around it.

- `src/` is the verified library (Verus). It holds the bookkeeping and the
  discrete algorithms: generational registries of cloths and attachments,
  identity counters, mesh topology validation (manifold, consistently wound,
  no isolated vertices), grid triangulation, contact-key ordering and
  merging, target ordering, solver-setting checks, scene snapshots, the
  substep protocol of a cloth world (world token, step order, atomic commit,
  failure and restore) and the request handling of the live demo. Laws such
  as "every grid mesh passes the topology checks", "validated meshes are
  oriented manifolds" and "no particle is the target of two attachments"
  are proof functions or `ensures` clauses there.
- `app/` is ordinary Rust: floating-point materials, mesh geometry, the XPBD
  solver, Rapier and Parry contact queries, the Rapier bridge world and the
  WebSocket demo server. It hands the library the geometric verdicts
  (finite values, positive areas) and acts on the library's decisions.
- `tests/` exercises the library's public functions.
