//! Integer facts shared by the fixed-point operations: powers of ten,
//! Rust's truncating division and remainder, and the `i64` / `i8` ranges.
use vstd::arithmetic::div_mod::*;
use vstd::arithmetic::mul::*;
use vstd::arithmetic::power::*;
use vstd::prelude::*;

verus! {

/// `10^n`.
pub open spec fn pow10(n: nat) -> int {
    pow(10, n)
}

/// Whether `x` is a value of `i64`.
pub open spec fn fits_i64(x: int) -> bool {
    i64::MIN <= x <= i64::MAX
}

/// Whether `x` is a value of `i8`.
pub open spec fn fits_i8(x: int) -> bool {
    i8::MIN <= x <= i8::MAX
}

/// The larger of two integers.
pub open spec fn max_int(a: int, b: int) -> int {
    if a >= b {
        a
    } else {
        b
    }
}

/// The absolute value of an integer.
pub open spec fn abs_int(x: int) -> int {
    if x < 0 {
        -x
    } else {
        x
    }
}

/// Division rounded toward zero, as Rust's `/` on signed integers.
pub open spec fn tdiv(x: int, d: int) -> int {
    let q = abs_int(x) / abs_int(d);
    if (x < 0) != (d < 0) {
        -q
    } else {
        q
    }
}

/// The remainder of `tdiv`, with the sign of the dividend, as Rust's `%`.
pub open spec fn trem(x: int, d: int) -> int {
    let r = abs_int(x) % abs_int(d);
    if x < 0 {
        -r
    } else {
        r
    }
}

/// What `x as i8` gives for a non-negative `x`: the low eight bits read
/// as a two's complement byte.
pub open spec fn wrap_i8(x: nat) -> int {
    let m = x % 256;
    if m >= 128 {
        m - 256
    } else {
        m as int
    }
}

pub proof fn lemma_pow10_positive(n: nat)
    ensures
        pow10(n) > 0,
{
    lemma_pow_positive(10, n);
}

pub proof fn lemma_pow10_succ(n: nat)
    ensures
        pow10(n + 1) == 10 * pow10(n),
{
    reveal(pow);
}

pub proof fn lemma_pow10_adds(a: nat, b: nat)
    ensures
        pow10(a + b) == pow10(a) * pow10(b),
{
    lemma_pow_adds(10, a, b);
}

pub proof fn lemma_pow10_monotone(a: nat, b: nat)
    requires
        a <= b,
    ensures
        pow10(a) <= pow10(b),
{
    lemma_pow_increases(10, a, b);
}

/// The powers of ten that fit in an `i64` are those up to `10^18`.
pub proof fn lemma_pow10_bounds(n: nat)
    ensures
        n <= 18 ==> pow10(n) <= 1_000_000_000_000_000_000,
        n >= 19 ==> pow10(n) >= 10_000_000_000_000_000_000,
{
    reveal_with_fuel(pow, 20);
    if n <= 18 {
        lemma_pow10_monotone(n, 18);
        assert(pow10(18) == 1_000_000_000_000_000_000);
    } else {
        lemma_pow10_monotone(19, n);
        assert(pow10(19) == 10_000_000_000_000_000_000);
    }
}

/// Every `i64` is smaller in magnitude than `10^19`, so dividing one by a
/// larger power of ten leaves nothing of it.
pub proof fn lemma_i64_below_pow10(v: int, n: nat)
    requires
        fits_i64(v),
        n >= 19,
    ensures
        abs_int(v) < pow10(n),
        tdiv(v, pow10(n)) == 0,
        abs_int(v) / pow10(n) == 0,
        abs_int(v) % pow10(n) == abs_int(v),
{
    lemma_pow10_bounds(n);
    vstd::arithmetic::div_mod::lemma_basic_div(abs_int(v), pow10(n));
    vstd::arithmetic::div_mod::lemma_small_mod(abs_int(v) as nat, pow10(n) as nat);
}

/// Truncating division and remainder put the dividend back together.
pub proof fn lemma_tdiv_trem(x: int, d: int)
    requires
        d != 0,
    ensures
        x == d * tdiv(x, d) + trem(x, d),
        abs_int(trem(x, d)) < abs_int(d),
        trem(x, d) == 0 || (trem(x, d) < 0) == (x < 0),
        abs_int(tdiv(x, d)) <= abs_int(x),
{
    let ax = abs_int(x);
    let ad = abs_int(d);
    lemma_fundamental_div_mod(ax, ad);
    lemma_mod_bound(ax, ad);
    lemma_div_nonincreasing(ax, ad);
    lemma_div_pos_is_pos(ax, ad);
    let q = ax / ad;
    let r = ax % ad;
    if x < 0 && d < 0 {
        assert(x == d * q - r) by (nonlinear_arith)
            requires
                ax == ad * q + r,
                ax == -x,
                ad == -d,
        ;
    } else if x < 0 {
        assert(x == d * (-q) - r) by (nonlinear_arith)
            requires
                ax == ad * q + r,
                ax == -x,
                ad == d,
        ;
    } else if d < 0 {
        assert(x == d * (-q) + r) by (nonlinear_arith)
            requires
                ax == ad * q + r,
                ax == x,
                ad == -d,
        ;
    }
}

} // verus!
