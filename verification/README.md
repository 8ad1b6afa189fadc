# umt

Exact structural time for music, with its contracts proved by Verus.

The library keeps structural time in exact rationals and says, for every
operation, what it returns and when it refuses. Its parts:

- `algebra`: exact rationals over 64-bit storage. Every arithmetic step
  returns the reduced exact value, or nothing when that value does not fit;
  rounding conventions with their laws (floor and ceiling bracket a value,
  whole values are fixed, directed rounding is monotone, nearest rounding is
  within half a step).
- `time`: beats and spans; rhythm trees whose children partition their
  parent's span exactly; cyclic onset patterns; meters as nested pulse
  levels; grid quantization that returns its residuals, and allocation of
  ticks that preserves a parent's endpoint; rate and duration orientation;
  three temporal-constraint profiles (simple temporal networks solved by
  all-pairs shortest paths with tight implied bounds, linear ratio
  constraints decided by exact Fourier-Motzkin elimination, and hybrid
  problems whose external predicates stay external).
- `score`: events with scoped identity, ties as relations, and
  transformations that claim to compose only when every component does.
- `realization`: provenance, residual records, optimization outcomes and a
  compiled performance plan.
- `temperament`: the ambient pitch lattice and the odometer step of bounded
  lattice search.

Layout:

- `src/` is the verified library; each module states its model as spec
  functions and views, and the laws that relate several operations as public
  proof functions.
- `tests/` runs the library on concrete values.
- `app/` holds what cannot be verified: clock time and tempo maps in
  floating point, and the error types that carry `Display`.
