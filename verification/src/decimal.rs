//! The fixed-point number itself: construction, conversion to and from the
//! machine integers, and the scaling helpers the operators rest on.
use crate::arith::{fits_i64, lemma_pow10_bounds, lemma_pow10_positive, lemma_pow10_succ, lemma_tdiv_trem, pow10, tdiv};
use vstd::prelude::*;

verus! {

/// A decimal number held as an integer count of units of `10^-scale`:
/// `value = 12345, scale = 2` is 123.45.
#[derive(Debug, Clone, Copy, PartialEq, Eq, Structural)]
pub struct Float {
    /// The number multiplied by `10^scale`.
    pub value: i64,
    /// How many decimal places the number carries.
    pub scale: i8,
}

/// `value` moved from `current` decimal places to `target` places; a value
/// already at `target` places or more is left as it is.
pub open spec fn scaled_up(value: int, current: int, target: int) -> int {
    if current >= target {
        value
    } else {
        value * pow10((target - current) as nat)
    }
}

/// The inputs on which moving `value` to `target` places does not overflow:
/// the factor `10^(target - current)` and the product must both fit in an `i64`.
pub open spec fn scale_up_fits(value: int, current: int, target: int) -> bool {
    current >= target || (target - current <= 18 && fits_i64(
        value * pow10((target - current) as nat),
    ))
}

/// `10^scale` for a positive scale, and 1 otherwise.
pub open spec fn scale_factor(scale: int) -> int {
    if scale <= 0 {
        1
    } else {
        pow10(scale as nat)
    }
}

/// The whole part of a number: its value divided by its scale factor,
/// rounded toward zero.
pub open spec fn whole_part(f: Float) -> int {
    if f.scale <= 0 {
        f.value as int
    } else {
        tdiv(f.value as int, pow10(f.scale as nat))
    }
}

/// `10^exp` for the exponents whose power fits in an `i64`.
fn pow10_i64(exp: u32) -> (r: i64)
    requires
        exp <= 18,
    ensures
        r == pow10(exp as nat),
        r > 0,
{
    let mut r: i64 = 1;
    let mut i: u32 = 0;
    proof {
        vstd::arithmetic::power::lemma_pow0(10);
    }
    while i < exp
        invariant
            i <= exp <= 18,
            r == pow10(i as nat),
            r > 0,
        decreases exp - i,
    {
        proof {
            lemma_pow10_succ(i as nat);
            lemma_pow10_bounds((i + 1) as nat);
            assert(pow10((i + 1) as nat) == 10 * pow10(i as nat));
            assert(10 * r <= 1_000_000_000_000_000_000);
        }
        r = r * 10;
        i = i + 1;
    }
    proof {
        lemma_pow10_positive(exp as nat);
    }
    r
}

impl Float {
    /// A number from its scaled value and its scale.
    pub fn new(value: i64, scale: i8) -> (r: Self)
        ensures
            r == (Float { value, scale }),
    {
        Float { value, scale }
    }

    /// The whole number `v`, at scale 0.
    pub fn from_i64(v: i64) -> (r: Self)
        ensures
            r == (Float { value: v, scale: 0 }),
    {
        Self::new(v, 0)
    }

    /// The whole number `v`, at scale 0.
    pub fn from_i32(v: i32) -> (r: Self)
        ensures
            r == (Float { value: v as i64, scale: 0 }),
    {
        Self::new(v as i64, 0)
    }

    /// The whole number `v`, at scale 0.
    pub fn from_i8(v: i8) -> (r: Self)
        ensures
            r == (Float { value: v as i64, scale: 0 }),
    {
        Self::new(v as i64, 0)
    }

    /// The whole number `v`, at scale 0.
    pub fn from_u32(v: u32) -> (r: Self)
        ensures
            r == (Float { value: v as i64, scale: 0 }),
    {
        Self::new(v as i64, 0)
    }

    /// The whole number `v`, at scale 0.
    pub fn from_u8(v: u8) -> (r: Self)
        ensures
            r == (Float { value: v as i64, scale: 0 }),
    {
        Self::new(v as i64, 0)
    }

    /// The whole number `v` at scale 0, or `None` when it exceeds `i64::MAX`.
    pub fn from_u64(v: u64) -> (r: Option<Self>)
        ensures
            v <= i64::MAX ==> r == Some(Float { value: v as i64, scale: 0 }),
            v > i64::MAX ==> r is None,
    {
        if v <= i64::MAX as u64 {
            Some(Self::new(v as i64, 0))
        } else {
            None
        }
    }

    /// The whole number `v` at scale 0, or `None` when it exceeds `i64::MAX`.
    pub fn from_usize(v: usize) -> (r: Option<Self>)
        ensures
            v <= i64::MAX ==> r == Some(Float { value: v as i64, scale: 0 }),
            v > i64::MAX ==> r is None,
    {
        if (v as u64) <= i64::MAX as u64 {
            Some(Self::new(v as i64, 0))
        } else {
            None
        }
    }

    /// Moves `value` from `current_scale` decimal places to `target_scale`
    /// places by multiplying it by `10^(target_scale - current_scale)`; a
    /// value already at `target_scale` places or more comes back unchanged.
    pub fn scale_up(value: i64, current_scale: i8, target_scale: i8) -> (r: i64)
        requires
            scale_up_fits(value as int, current_scale as int, target_scale as int),
        ensures
            r == scaled_up(value as int, current_scale as int, target_scale as int),
    {
        if current_scale >= target_scale {
            return value;
        }
        let exp = (target_scale - current_scale) as u32;
        let factor = pow10_i64(exp);
        value * factor
    }

    /// `10^scale` for a positive scale, and 1 for a scale of 0 or less.
    pub fn get_scale_factor(scale: i8) -> (r: i64)
        requires
            scale <= 18,
        ensures
            r == scale_factor(scale as int),
            r > 0,
    {
        if scale <= 0 {
            return 1;
        }
        pow10_i64(scale as u32)
    }

    /// The whole part of the number, the fraction cut off toward zero.
    pub fn to_i64(&self) -> (r: i64)
        ensures
            r == whole_part(*self),
    {
        if self.scale <= 0 {
            self.value
        } else if self.scale > 18 {
            proof {
                crate::arith::lemma_i64_below_pow10(self.value as int, self.scale as nat);
            }
            0
        } else {
            let factor = Self::get_scale_factor(self.scale);
            proof {
                lemma_tdiv_trem(self.value as int, factor as int);
            }
            let r = self.value.checked_div(factor);
            r.unwrap()
        }
    }

    /// The whole part as a `u64`, or `None` when the number is negative.
    pub fn to_u64(&self) -> (r: Option<u64>)
        ensures
            self.value >= 0 ==> r == Some(whole_part(*self) as u64),
            self.value < 0 ==> r is None,
    {
        if self.value < 0 {
            return None;
        }
        let val = self.to_i64();
        proof {
            if self.scale > 0 {
                crate::arith::lemma_pow10_positive(self.scale as nat);
                vstd::arithmetic::div_mod::lemma_div_pos_is_pos(self.value as int, pow10(self.scale as nat));
            }
        }
        Some(val as u64)
    }

    /// The whole part as an `i32`, or `None` when it does not fit in one.
    pub fn to_i32(&self) -> (r: Option<i32>)
        ensures
            i32::MIN <= whole_part(*self) <= i32::MAX ==> r == Some(whole_part(*self) as i32),
            !(i32::MIN <= whole_part(*self) <= i32::MAX) ==> r is None,
    {
        let val = self.to_i64();
        if val >= i32::MIN as i64 && val <= i32::MAX as i64 {
            Some(val as i32)
        } else {
            None
        }
    }

    /// The whole part as a `u32`, or `None` when it does not fit in one.
    pub fn to_u32(&self) -> (r: Option<u32>)
        ensures
            0 <= whole_part(*self) <= u32::MAX ==> r == Some(whole_part(*self) as u32),
            !(0 <= whole_part(*self) <= u32::MAX) ==> r is None,
    {
        let val = self.to_i64();
        if val >= 0 && val <= u32::MAX as i64 {
            Some(val as u32)
        } else {
            None
        }
    }

    /// The whole part as a `usize`, or `None` when it does not fit in one.
    pub fn to_usize(&self) -> (r: Option<usize>)
        ensures
            0 <= whole_part(*self) <= usize::MAX ==> r == Some(whole_part(*self) as usize),
            !(0 <= whole_part(*self) <= usize::MAX) ==> r is None,
    {
        let val = self.to_i64();
        if val >= 0 && (val as u64) <= (usize::MAX as u64) {
            Some(val as usize)
        } else {
            None
        }
    }
}

impl From<i64> for Float {
    fn from(v: i64) -> (r: Float) {
        Float::new(v, 0)
    }
}

impl vstd::std_specs::convert::FromSpecImpl<i64> for Float {
    open spec fn obeys_from_spec() -> bool {
        true
    }

    open spec fn from_spec(v: i64) -> Float {
        Float { value: v, scale: 0 }
    }
}

impl From<i32> for Float {
    fn from(v: i32) -> (r: Float) {
        Float::new(v as i64, 0)
    }
}

impl vstd::std_specs::convert::FromSpecImpl<i32> for Float {
    open spec fn obeys_from_spec() -> bool {
        true
    }

    open spec fn from_spec(v: i32) -> Float {
        Float { value: v as i64, scale: 0 }
    }
}

impl From<i8> for Float {
    fn from(v: i8) -> (r: Float) {
        Float::new(v as i64, 0)
    }
}

impl vstd::std_specs::convert::FromSpecImpl<i8> for Float {
    open spec fn obeys_from_spec() -> bool {
        true
    }

    open spec fn from_spec(v: i8) -> Float {
        Float { value: v as i64, scale: 0 }
    }
}

impl From<u32> for Float {
    fn from(v: u32) -> (r: Float) {
        Float::new(v as i64, 0)
    }
}

impl vstd::std_specs::convert::FromSpecImpl<u32> for Float {
    open spec fn obeys_from_spec() -> bool {
        true
    }

    open spec fn from_spec(v: u32) -> Float {
        Float { value: v as i64, scale: 0 }
    }
}

impl From<u8> for Float {
    fn from(v: u8) -> (r: Float) {
        Float::new(v as i64, 0)
    }
}

impl vstd::std_specs::convert::FromSpecImpl<u8> for Float {
    open spec fn obeys_from_spec() -> bool {
        true
    }

    open spec fn from_spec(v: u8) -> Float {
        Float { value: v as i64, scale: 0 }
    }
}

impl TryFrom<u64> for Float {
    type Error = &'static str;

    fn try_from(v: u64) -> (r: Result<Float, &'static str>) {
        match Float::from_u64(v) {
            Some(f) => Ok(f),
            None => Err("u64 value overflows i64"),
        }
    }
}

impl vstd::std_specs::convert::TryFromSpecImpl<u64> for Float {
    open spec fn obeys_try_from_spec() -> bool {
        true
    }

    open spec fn try_from_spec(v: u64) -> Result<Float, &'static str> {
        if v <= i64::MAX {
            Ok(Float { value: v as i64, scale: 0 })
        } else {
            Err("u64 value overflows i64")
        }
    }
}

impl TryFrom<usize> for Float {
    type Error = &'static str;

    fn try_from(v: usize) -> (r: Result<Float, &'static str>) {
        match Float::from_usize(v) {
            Some(f) => Ok(f),
            None => Err("usize value overflows i64"),
        }
    }
}

impl vstd::std_specs::convert::TryFromSpecImpl<usize> for Float {
    open spec fn obeys_try_from_spec() -> bool {
        true
    }

    open spec fn try_from_spec(v: usize) -> Result<Float, &'static str> {
        if v <= i64::MAX {
            Ok(Float { value: v as i64, scale: 0 })
        } else {
            Err("usize value overflows i64")
        }
    }
}

} // verus!
