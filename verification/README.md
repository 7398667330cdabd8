# georbf

The verified core of GeoRBF, a geological radial-basis-function modelling
library. Every public function under `src/` carries a Verus contract and
Verus proves every function there, helpers included, free of panics and
against the contracts it has; `tests/` exercise the library on concrete values, and `app/`
holds the host-side adapters that Verus does not check (binary64
conversions, platform queries, `Display` text).

Layout of `src/`:

- `error`, `geometry`, `kernel`: stable error categories and their messages.
- `layout`: row/column layouts of interpolation systems and their snapshots.
- `fit`: problem-size records and the priority of preflight diagnoses.
- `inventory`, `preflight`: a plain-value inventory of a problem's inputs,
  the counts and identifier storage derived from it, and the structural
  findings that need no lowering.
- `dyadic`: exact signed multiples of `2^-1074`, including the exact value of
  a binary64 bit pattern.
- `graph`, `relaxation`, `conflicts`: strongly connected components,
  longest-walk relaxation and the positive cycles it exposes, breadth-first
  paths, and contradictory cycles of hard relations between shared level
  sets.
- `value_forest`: the union-find forest of hard value equalities with
  anchored targets and conflict proofs.
- `model`: batch-query capacity planning and query errors.
- `diagnostics`, `witness`: typed evidence records of fit reports, and
  conflict witnesses with their relations and sources in canonical order
  (measurements held as binary64 bits).
- `faer_backend`: the linear-algebra backend fingerprint.
