# lau-fibonacci-growth

Fibonacci growth patterns, as a Verus library.

- `src/` is the verified library: `FibonacciSequence` and `LucasSequence`
  tables, the exact perfect-square membership test, index lookup, prefix
  sums, Zeckendorf representations (with uniqueness proved), the unlock
  schedule of a skill tree (`SkillUnlock`, `unlock_order`) and the spiral arm
  counts of a phyllotaxis pattern (`spiral_count_for_root`).
  `sequence_spec.rs` and `zeckendorf_spec.rs` hold the spec functions and
  the laws.
- `app/` holds what works on `f64` values (golden spiral, growth curve,
  skill powers and balance, retracement levels, phyllotaxis points, ratios)
  and the serde forms of the library's types.
- `tests/` runs the library on concrete values.
