# qtx_float

Fixed-point decimal numbers for prices and quantities, verified with Verus.
A `Float` is an `i64` value counted in units of `10^-scale`.

- `src/decimal.rs`: the type, constructors, conversions to machine integers,
  scaling helpers.
- `src/ops.rs`: `+ - * / %` and their assigning forms, with exact contracts
  (division keeps the larger scale and rounds half away from zero).
- `src/parse.rs`: reading decimal text (trailing zeros kept as scale).
- `src/text.rs`: writing decimal text.
- `src/float_text.rs`: reading the printed text of a binary float with its
  noise cut off; the printing is done by the caller.
- `src/laws.rs`: properties proved across the operations, among them that
  written text reads back and that division rounds to nearest.
- `src/arith.rs`: powers of ten and truncating division.
- `app/`: serde and sqlx support, `f64`/`f32` conversions and the `float!`
  macro, around the verified library.
