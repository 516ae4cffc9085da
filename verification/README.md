# unit_interval

Constrained float types for values in the closed intervals `[0, 1]`
(`UnitInterval`) and `[-1, 1]` (`SignedUnitInterval`), verified with Verus.

The verified library (`src/`) works on the IEEE-754 bit patterns of the
floats: `u32` for `f32` and `u64` for `f64`. `src/ieee.rs` gives every finite
pattern its numeric meaning (the number times a fixed power of two of the
format, so that every finite value is an integer), and proves that this
meaning is ordered like the patterns' magnitudes. On that basis the library
decides interval membership, clamping (`NaN` counts as zero), comparison,
equality (`-0.0 == +0.0`) and the sign operations, and it implements IEEE-754
multiplication, addition and division with rounding to nearest, ties to even
(subnormals, signed zeros, infinities, overflow and `NaN` included). Every
operation is proved to return the correctly rounded result, and the interval
types carry their membership as a type invariant, so the operations that are
closed over an interval are proved to stay inside it.

- `src/ieee.rs` – numeric meaning of bit patterns and its monotonicity.
- `src/float.rs` – the `UnitIntervalFloat` trait, its contracts, the interval
  predicates and what IEEE-754 rounding to nearest means.
- `src/arith32.rs`, `src/arith64.rs` – rounding, multiplication, addition and
  division on `binary32` and `binary64` patterns.
- `src/binary32.rs`, `src/binary64.rs` – the trait for `f32` and `f64` bits.
- `src/convert.rs` – exact widening and correctly rounded narrowing between
  the formats.
- `src/unit_interval.rs`, `src/signed_unit_interval.rs` – the interval types.
- `src/random.rs` – adapters that turn raw distribution samples into interval
  values.
- `src/invariants.rs` – the fuzzing invariant checks, proved always to hold.
- `src/laws.rs` – properties across operations (saturation, constants,
  negation).

`app/` holds the float-facing types over `f32`/`f64`, which convert to and
from the bit patterns and delegate to the library. The float remainder and
the float functions (rounding to integers, roots, exponentials, logarithms,
trigonometry) are computed there on the floats. It also holds the
`rand_distr` sampling implementations and the fuzzing entry point.
