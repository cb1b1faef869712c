//! Fixed-point decimal numbers for prices and quantities.
//!
//! A [`Float`] is an `i64` count of units of `10^-scale`. Text is read with
//! its trailing zeros kept as precision, sums and differences are exact at the
//! larger scale, and quotients keep the larger scale, rounded half away from
//! zero. The text of a binary floating-point number can be read with its
//! printing noise cut off (see `float_text`).
use vstd::prelude::*;

pub mod arith;
pub mod decimal;
pub mod float_text;
pub mod laws;
pub mod ops;
pub mod parse;
pub mod text;

pub use decimal::Float;
pub use float_text::FixedTextStep;

verus! {

} // verus!
