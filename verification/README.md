# renormalization_learning

Verified integer core of a Wilsonian renormalization-group toolkit for
periodic square lattices, used as a model of skill acquisition.

`src/` (Verus) holds the index structure that every lattice computation
walks, with contracts and proofs:

- `coarse`: the block-spin coarse-graining operator and its plan (which fine
  sites make up each `b × b` block); the plan partitions the lattice.
- `geometry`: nearest-neighbour bonds and correlation pairs with periodic
  boundary conditions; shifts by `r` and `L - r` undo each other.
- `flow`: the lattice side at every level of an RG flow, and when a flow
  can be run at all.
- `random`: the seeded xorshift64 generator that fills lattices.
- `schedule`: the history window read by the learning-rate decay fit.

`app/` is ordinary Rust: the `f64` lattices (stored in `ndarray` arrays),
magnetization, energy, correlation, RG transforms, fixed points, critical
exponents, the learning-rate scheduler and power-law fits, all driven by the
plans above.
