//! Arithmetic on fixed-point numbers.
//!
//! Addition, subtraction and remainder first bring both operands to the larger
//! of their two scales; multiplication multiplies values and adds scales;
//! division keeps the larger scale and rounds half away from zero.
use crate::arith::{abs_int, fits_i64, fits_i8, lemma_tdiv_trem, max_int, tdiv, trem};
use crate::decimal::{scale_up_fits, scaled_up, Float};
use vstd::prelude::*;

verus! {

/// The scale of a sum, difference, remainder or quotient: the larger scale.
pub open spec fn common_scale(a: Float, b: Float) -> int {
    max_int(a.scale as int, b.scale as int)
}

/// Both operands can be brought to their common scale without overflow.
pub open spec fn aligns(a: Float, b: Float) -> bool {
    &&& scale_up_fits(a.value as int, a.scale as int, common_scale(a, b))
    &&& scale_up_fits(b.value as int, b.scale as int, common_scale(a, b))
}

/// The value of `a` at the common scale of `a` and `b`.
pub open spec fn left_aligned(a: Float, b: Float) -> int {
    scaled_up(a.value as int, a.scale as int, common_scale(a, b))
}

/// The value of `b` at the common scale of `a` and `b`.
pub open spec fn right_aligned(a: Float, b: Float) -> int {
    scaled_up(b.value as int, b.scale as int, common_scale(a, b))
}

/// `a + b` does not overflow.
pub open spec fn sum_fits(a: Float, b: Float) -> bool {
    aligns(a, b) && fits_i64(left_aligned(a, b) + right_aligned(a, b))
}

/// `a + b`: the aligned values added, at the common scale.
pub open spec fn sum_of(a: Float, b: Float) -> Float {
    Float {
        value: (left_aligned(a, b) + right_aligned(a, b)) as i64,
        scale: common_scale(a, b) as i8,
    }
}

/// `a - b` does not overflow.
pub open spec fn difference_fits(a: Float, b: Float) -> bool {
    aligns(a, b) && fits_i64(left_aligned(a, b) - right_aligned(a, b))
}

/// `a - b`: the aligned values subtracted, at the common scale.
pub open spec fn difference_of(a: Float, b: Float) -> Float {
    Float {
        value: (left_aligned(a, b) - right_aligned(a, b)) as i64,
        scale: common_scale(a, b) as i8,
    }
}

/// `a * b` does not overflow, neither in the value nor in the scale.
pub open spec fn product_fits(a: Float, b: Float) -> bool {
    fits_i64(a.value * b.value) && fits_i8(a.scale + b.scale)
}

/// `a * b`: values multiplied, scales added.
pub open spec fn product_of(a: Float, b: Float) -> Float {
    Float { value: (a.value * b.value) as i64, scale: (a.scale + b.scale) as i8 }
}

/// The scale the dividend is brought to before dividing: one decimal place
/// more than the result needs, plus the divisor's own places.
pub open spec fn dividend_scale(a: Float, b: Float) -> int {
    common_scale(a, b) + b.scale + 1
}

/// The dividend at `dividend_scale`.
pub open spec fn amplified_dividend(a: Float, b: Float) -> int {
    scaled_up(a.value as int, a.scale as int, dividend_scale(a, b))
}

/// `a / b` does not divide by zero and does not overflow.
pub open spec fn quotient_defined(a: Float, b: Float) -> bool {
    &&& b.value != 0
    &&& fits_i8(common_scale(a, b) + b.scale)
    &&& fits_i8(dividend_scale(a, b))
    &&& scale_up_fits(a.value as int, a.scale as int, dividend_scale(a, b))
    &&& fits_i64(tdiv(amplified_dividend(a, b), b.value as int))
}

/// The quotient with one extra decimal place, cut toward zero.
pub open spec fn raw_quotient(a: Float, b: Float) -> int {
    tdiv(amplified_dividend(a, b), b.value as int)
}

/// `raw` with its last decimal place rounded off, half away from zero.
pub open spec fn drop_digit_rounded(raw: int) -> int {
    let q = tdiv(raw, 10);
    if abs_int(trem(raw, 10)) >= 5 {
        if raw >= 0 {
            q + 1
        } else {
            q - 1
        }
    } else {
        q
    }
}

/// `a / b`: the raw quotient rounded to the common scale.
pub open spec fn quotient_of(a: Float, b: Float) -> Float {
    Float { value: drop_digit_rounded(raw_quotient(a, b)) as i64, scale: common_scale(a, b) as i8 }
}

/// `a % b` does not divide by zero and does not overflow.
pub open spec fn remainder_defined(a: Float, b: Float) -> bool {
    &&& b.value != 0
    &&& aligns(a, b)
    &&& !(left_aligned(a, b) == i64::MIN && right_aligned(a, b) == -1)
}

/// `a % b`: the remainder of the aligned values, with the dividend's sign.
pub open spec fn remainder_of(a: Float, b: Float) -> Float {
    Float {
        value: trem(left_aligned(a, b), right_aligned(a, b)) as i64,
        scale: common_scale(a, b) as i8,
    }
}

fn larger_scale(a: i8, b: i8) -> (r: i8)
    ensures
        r == max_int(a as int, b as int),
{
    if a >= b {
        a
    } else {
        b
    }
}

impl core::ops::Add for Float {
    type Output = Float;

    fn add(self, rhs: Float) -> (r: Float) {
        let max_scale = larger_scale(self.scale, rhs.scale);
        let left_val = Float::scale_up(self.value, self.scale, max_scale);
        let right_val = Float::scale_up(rhs.value, rhs.scale, max_scale);
        Float::new(left_val + right_val, max_scale)
    }
}

impl vstd::std_specs::ops::AddSpecImpl for Float {
    open spec fn obeys_add_spec() -> bool {
        true
    }

    open spec fn add_req(self, rhs: Float) -> bool {
        sum_fits(self, rhs)
    }

    open spec fn add_spec(self, rhs: Float) -> Float {
        sum_of(self, rhs)
    }
}

impl core::ops::Sub for Float {
    type Output = Float;

    fn sub(self, rhs: Float) -> (r: Float) {
        let max_scale = larger_scale(self.scale, rhs.scale);
        let left_val = Float::scale_up(self.value, self.scale, max_scale);
        let right_val = Float::scale_up(rhs.value, rhs.scale, max_scale);
        Float::new(left_val - right_val, max_scale)
    }
}

impl vstd::std_specs::ops::SubSpecImpl for Float {
    open spec fn obeys_sub_spec() -> bool {
        true
    }

    open spec fn sub_req(self, rhs: Float) -> bool {
        difference_fits(self, rhs)
    }

    open spec fn sub_spec(self, rhs: Float) -> Float {
        difference_of(self, rhs)
    }
}

impl core::ops::Mul for Float {
    type Output = Float;

    fn mul(self, rhs: Float) -> (r: Float) {
        let new_value = self.value * rhs.value;
        let new_scale = self.scale + rhs.scale;
        Float::new(new_value, new_scale)
    }
}

impl vstd::std_specs::ops::MulSpecImpl for Float {
    open spec fn obeys_mul_spec() -> bool {
        true
    }

    open spec fn mul_req(self, rhs: Float) -> bool {
        product_fits(self, rhs)
    }

    open spec fn mul_spec(self, rhs: Float) -> Float {
        product_of(self, rhs)
    }
}

impl core::ops::Div for Float {
    type Output = Float;

    fn div(self, rhs: Float) -> (r: Float) {
        let target_scale = larger_scale(self.scale, rhs.scale);
        let temp_scale = target_scale + rhs.scale + 1;
        let amplified_left = Float::scale_up(self.value, self.scale, temp_scale);
        proof {
            lemma_tdiv_trem(amplified_left as int, rhs.value as int);
        }
        let raw_div = amplified_left.checked_div(rhs.value).unwrap();
        proof {
            lemma_tdiv_trem(raw_div as int, 10);
        }
        let rem_digit = raw_div.checked_rem(10).unwrap();
        let last_digit = if rem_digit < 0 {
            -rem_digit
        } else {
            rem_digit
        };
        let mut final_value = raw_div.checked_div(10).unwrap();
        if last_digit >= 5 {
            if raw_div >= 0 {
                final_value += 1;
            } else {
                final_value -= 1;
            }
        }
        Float::new(final_value, target_scale)
    }
}

impl vstd::std_specs::ops::DivSpecImpl for Float {
    open spec fn obeys_div_spec() -> bool {
        true
    }

    open spec fn div_req(self, rhs: Float) -> bool {
        quotient_defined(self, rhs)
    }

    open spec fn div_spec(self, rhs: Float) -> Float {
        quotient_of(self, rhs)
    }
}

impl core::ops::Rem for Float {
    type Output = Float;

    fn rem(self, rhs: Float) -> (r: Float) {
        let max_scale = larger_scale(self.scale, rhs.scale);
        let left_val = Float::scale_up(self.value, self.scale, max_scale);
        let right_val = Float::scale_up(rhs.value, rhs.scale, max_scale);
        proof {
            crate::arith::lemma_pow10_positive((max_scale - rhs.scale) as nat);
            if rhs.scale < max_scale {
                vstd::arithmetic::mul::lemma_mul_nonzero(rhs.value as int, crate::arith::pow10((max_scale - rhs.scale) as nat));
            }
            lemma_tdiv_trem(left_val as int, right_val as int);
        }
        let r = left_val.checked_rem(right_val);
        assert(r == Some(trem(left_val as int, right_val as int) as i64));
        Float::new(r.unwrap(), max_scale)
    }
}

impl vstd::std_specs::ops::RemSpecImpl for Float {
    open spec fn obeys_rem_spec() -> bool {
        true
    }

    open spec fn rem_req(self, rhs: Float) -> bool {
        remainder_defined(self, rhs)
    }

    open spec fn rem_spec(self, rhs: Float) -> Float {
        remainder_of(self, rhs)
    }
}

impl Float {
    /// `*self = *self + rhs`.
    pub fn add_assign(&mut self, rhs: Float)
        requires
            sum_fits(*old(self), rhs),
        ensures
            *final(self) == sum_of(*old(self), rhs),
    {
        *self = *self + rhs;
    }

    /// `*self = *self - rhs`.
    pub fn sub_assign(&mut self, rhs: Float)
        requires
            difference_fits(*old(self), rhs),
        ensures
            *final(self) == difference_of(*old(self), rhs),
    {
        *self = *self - rhs;
    }

    /// `*self = *self * rhs`.
    pub fn mul_assign(&mut self, rhs: Float)
        requires
            product_fits(*old(self), rhs),
        ensures
            *final(self) == product_of(*old(self), rhs),
    {
        *self = *self * rhs;
    }

    /// `*self = *self / rhs`.
    pub fn div_assign(&mut self, rhs: Float)
        requires
            quotient_defined(*old(self), rhs),
        ensures
            *final(self) == quotient_of(*old(self), rhs),
    {
        *self = *self / rhs;
    }

    /// `*self = *self % rhs`.
    pub fn rem_assign(&mut self, rhs: Float)
        requires
            remainder_defined(*old(self), rhs),
        ensures
            *final(self) == remainder_of(*old(self), rhs),
    {
        *self = *self % rhs;
    }
}

} // verus!
