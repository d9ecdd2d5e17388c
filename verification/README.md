# knot

The exact core of a B-rep geometry kernel, verified with Verus, and the
floating-point kernel around it.

## Layout

- `src/` — the verified library. Everything here is proved against its
  `requires` / `ensures` contracts:
  - `frac`, `sums`: fractions over `int` and finite sums, the mathematical
    model that the contracts are written in;
  - `rational`: exact rationals (arithmetic by `malachite`);
  - `exact`: exact points, orientation and side-of-plane predicates;
  - `poly`, `evaluation`, `substitution`: sparse bivariate polynomials with
    exact coefficients, their arithmetic, derivatives, regrouping by powers
    of `y`, and the laws that evaluation respects all of it;
  - `implicit`, `cylinder_torus`, `cone_torus`: substitution of parametric
    surfaces into the implicit equations of planes, spheres, cylinders,
    cones and tori;
  - `nurbs_bridge`: Bézier patches in homogeneous power form, Bernstein
    and binomial tables;
  - `branch_topology`: the combinatorics of tracing branches of `F(s, v) = 0`
    through critical values — U-turn pairings, boundary matchings, the
    segment graph and the walk that splits it into chains;
  - `snap`, `id`, `error`, `line`: lattice merging, content ids, error
    codes and messages, line segments.
- `app/` — the floating-point kernel that uses the library: curves and
  surfaces, fitting, root finding, branch sampling and clipping,
  intersection front ends, bounding boxes and intervals.
- `tests/` — tests of the library on concrete values.

## Dependencies

- `malachite-q` does the rational arithmetic behind `ExactRational`;
  `malachite-base` supplies its sign and rounding traits.
- `malachite-nz` is named only because `ExactRational` keeps its numerator
  and denominator as limb vectors: building malachite's `Natural` from
  those limbs (and reading them back) needs `malachite-nz` directly. No
  work of the kernel happens in it.
- `nalgebra` (with serde support), `serde` and `thiserror` serve the
  floating-point code in `app/`.
