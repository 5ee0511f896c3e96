# hynergy

A simulator of electrical networks by modified nodal analysis, verified with Verus.

- `src/` is the library: device definitions and their binary form, networks, the nets and islands
  derived from them, sparse patterns, and the decisions that solving an island takes. Verus proves
  its contracts, but for those of the wrappers around `smallvec`, `faer` and one sort of the standard
  library: they are marked `external_body`, and what they claim is believed.
- `app/` is ordinary Rust around it: the C interface, error messages, and the floating-point
  arithmetic.
- `tests/` runs the library.

Statements that hold of several functions together are the public proof functions whose names begin
with `law_`.
