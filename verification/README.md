# lau_constitutive_compute

Constitutive computation: idempotents and their Karoubi splittings, CRDT joins,
single-decree consensus, run-length complexity estimates and graph Laplacians.

`src/` is the library, written in Verus. Every function there carries a contract
and is verified, and the laws of the library stand there as proof functions:

- `gcounter`: the grow-only counter over names kept sorted; its join is the
  pointwise maximum, proved idempotent, commutative, associative and the least
  upper bound.
- `crdt`: the grow-only set and the last-writer-wins register, with their join laws.
- `warp`: acceptors, ballots and a full prepare/accept/decide round; a value
  once chosen is proposed and kept by every later round.
- `constitutive`: the splitting check r∘i = id, i∘r = e on samples, and
  conservation by construction.
- `kolmogorov`: run-length size, byte-value overlap and structure sizes.
- `laplacian`: path, cycle and complete graph Laplacians, symmetric with zero row sums.
- `order`, `exact`: the byte and text orders and the conditions under which
  generic contracts are exact.

`app/` holds what works on floating point or through nalgebra and serde: the
spectral and dynamical quantities, the Hodge and symplectic realizations, the
agent design, and serialisable copies of the library's types.
