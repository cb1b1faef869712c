//! Properties that tie the operations together.
use crate::decimal::{scale_factor, scale_up_fits, scaled_up, whole_part, Float};
use crate::ops::{
    amplified_dividend, dividend_scale, drop_digit_rounded, quotient_defined, quotient_of,
    raw_quotient, remainder_defined, remainder_of, common_scale, right_aligned, difference_fits, difference_of, left_aligned, product_fits, product_of, sum_fits,
    sum_of,
};
use crate::parse::{
    all_digits, decimal_fields, digits_value, first_dot, has_dot, is_digit, is_first_dot, is_white,
    negation_overflows, parse_i64_text, parsed_decimal, strip_sign, trim, trim_start, unsigned_fields,
};
use crate::float_text::{fixed_text_step, has_char, is_first_run, run_at, FixedTextStep};
use crate::text::{decimal_text, fixed_digits, lemma_nat_digits, nat_digits};
use crate::arith::{abs_int, fits_i64, pow10, tdiv, trem, wrap_i8};
use vstd::prelude::*;

verus! {

/// Addition does not depend on the order of its operands.
pub proof fn law_add_commutes(a: Float, b: Float)
    requires
        sum_fits(a, b),
    ensures
        sum_fits(b, a),
        sum_of(a, b) == sum_of(b, a),
{
}

/// Bringing a value to scale `m` and then to `t` is bringing it to `t`.
proof fn lemma_scaled_up_twice(v: int, s: int, m: int, t: int)
    requires
        s <= m <= t,
    ensures
        scaled_up(scaled_up(v, s, m), m, t) == scaled_up(v, s, t),
{
    if s < m && m < t {
        let a = (m - s) as nat;
        let b = (t - m) as nat;
        crate::arith::lemma_pow10_adds(a, b);
        vstd::arithmetic::mul::lemma_mul_is_associative(v, pow10(a), pow10(b));
    } else if s == m {
        vstd::arithmetic::power::lemma_pow0(10);
    }
}

/// Bringing a sum to another scale brings each term.
proof fn lemma_scaled_up_sum(x: int, y: int, m: int, t: int)
    ensures
        scaled_up(x + y, m, t) == scaled_up(x, m, t) + scaled_up(y, m, t),
{
    if m < t {
        vstd::arithmetic::mul::lemma_mul_is_distributive_add_other_way(
            pow10((t - m) as nat),
            x,
            y,
        );
    }
}

/// Addition groups either way: `(a + b) + c` and `a + (b + c)` are the same
/// number at the same scale, wherever every sum involved fits.
pub proof fn law_add_associates(a: Float, b: Float, c: Float)
    requires
        sum_fits(a, b),
        sum_fits(sum_of(a, b), c),
        sum_fits(b, c),
        sum_fits(a, sum_of(b, c)),
    ensures
        sum_of(sum_of(a, b), c) == sum_of(a, sum_of(b, c)),
{
    let ab = sum_of(a, b);
    let bc = sum_of(b, c);
    let m1 = common_scale(a, b);
    let m2 = common_scale(b, c);
    let t = common_scale(ab, c);
    assert(ab.scale == m1 && bc.scale == m2);
    assert(t == common_scale(a, bc));
    lemma_scaled_up_sum(left_aligned(a, b), right_aligned(a, b), m1, t);
    lemma_scaled_up_twice(a.value as int, a.scale as int, m1, t);
    lemma_scaled_up_twice(b.value as int, b.scale as int, m1, t);
    lemma_scaled_up_sum(left_aligned(b, c), right_aligned(b, c), m2, t);
    lemma_scaled_up_twice(b.value as int, b.scale as int, m2, t);
    lemma_scaled_up_twice(c.value as int, c.scale as int, m2, t);
}

/// A value at scale `s` brought to a scale `t >= s` is the value times
/// `10^(t - s)`.
proof fn lemma_scaled_up_is_power(v: int, s: int, t: int)
    requires
        s <= t,
    ensures
        scaled_up(v, s, t) == v * pow10((t - s) as nat),
{
    if s == t {
        vstd::arithmetic::power::lemma_pow0(10);
    }
}

/// Moving a value to more decimal places multiplies it by ten for each
/// place added; moving it to as many places or fewer leaves it as it is.
pub proof fn law_scale_up_multiplies(value: int, current: int, target: int)
    ensures
        current < target ==> scaled_up(value, current, target) == value * pow10(
            (target - current) as nat,
        ),
        current >= target ==> scaled_up(value, current, target) == value,
        current < target && target - current <= 18 ==> scale_up_fits(value, current, target)
            == fits_i64(value * pow10((target - current) as nat)),
{
}

/// The scale factor is ten to the scale for a positive scale, and 1 for a
/// scale of 0 or less.
pub proof fn law_scale_factor_is_power(scale: int)
    ensures
        scale > 0 ==> scale_factor(scale) == pow10(scale as nat),
        scale <= 0 ==> scale_factor(scale) == 1,
{
}

/// A sum is exact: at the larger scale `s` of its operands, its value is the
/// sum of the operands' values each multiplied up to `s` places.
pub proof fn law_add_exact(a: Float, b: Float)
    requires
        sum_fits(a, b),
    ensures
        ({
            let s = if a.scale >= b.scale {
                a.scale as int
            } else {
                b.scale as int
            };
            &&& sum_of(a, b).scale == s
            &&& sum_of(a, b).value == a.value * pow10((s - a.scale) as nat) + b.value * pow10(
                (s - b.scale) as nat,
            )
        }),
{
    let s = common_scale(a, b);
    lemma_scaled_up_is_power(a.value as int, a.scale as int, s);
    lemma_scaled_up_is_power(b.value as int, b.scale as int, s);
}

/// A difference is exact: at the larger scale `s` of its operands, its value
/// is the first operand's value minus the second's, each multiplied up to `s`
/// places.
pub proof fn law_sub_exact(a: Float, b: Float)
    requires
        difference_fits(a, b),
    ensures
        ({
            let s = if a.scale >= b.scale {
                a.scale as int
            } else {
                b.scale as int
            };
            &&& difference_of(a, b).scale == s
            &&& difference_of(a, b).value == a.value * pow10((s - a.scale) as nat) - b.value
                * pow10((s - b.scale) as nat)
        }),
{
    let s = common_scale(a, b);
    lemma_scaled_up_is_power(a.value as int, a.scale as int, s);
    lemma_scaled_up_is_power(b.value as int, b.scale as int, s);
}

/// Adding back what was subtracted gives the first operand, written at the
/// larger scale `s`: `(a - b) + b` is `a`'s value times `10^(s - a.scale)`
/// at scale `s`.
pub proof fn law_add_undoes_sub(a: Float, b: Float)
    requires
        difference_fits(a, b),
    ensures
        ({
            let s = if a.scale >= b.scale {
                a.scale as int
            } else {
                b.scale as int
            };
            &&& sum_fits(difference_of(a, b), b)
            &&& sum_of(difference_of(a, b), b) == (Float {
                value: (a.value * pow10((s - a.scale) as nat)) as i64,
                scale: s as i8,
            })
        }),
{
    let s = common_scale(a, b);
    lemma_scaled_up_is_power(a.value as int, a.scale as int, s);
    lemma_scaled_up_is_power(b.value as int, b.scale as int, s);
    let d = difference_of(a, b);
    assert(common_scale(d, b) == s);
    assert(left_aligned(d, b) == d.value);
    assert(right_aligned(d, b) == right_aligned(a, b));
}

/// A product is exact: its value is the product of the values and its scale
/// the sum of the scales, so the number it denotes is the product of the
/// numbers the operands denote.
pub proof fn law_mul_exact(a: Float, b: Float)
    requires
        product_fits(a, b),
    ensures
        product_of(a, b).value == a.value * b.value,
        product_of(a, b).scale == a.scale + b.scale,
{
}

/// A remainder is the remainder of truncating division: at the larger scale
/// `s`, with `x` and `y` the operands' values multiplied up to `s` places, the
/// result `r` differs from `x` by a multiple of `y`, is smaller than `y` in
/// magnitude, and is zero or has the sign of `x`.
pub proof fn law_rem_exact(a: Float, b: Float)
    requires
        remainder_defined(a, b),
    ensures
        ({
            let s = if a.scale >= b.scale {
                a.scale as int
            } else {
                b.scale as int
            };
            let x = a.value * pow10((s - a.scale) as nat);
            let y = b.value * pow10((s - b.scale) as nat);
            let r = remainder_of(a, b).value as int;
            &&& remainder_of(a, b).scale == s
            &&& (x - r) % abs_int(y) == 0
            &&& abs_int(r) < abs_int(y)
            &&& r == 0 || ((r < 0) == (x < 0))
        }),
{
    let s = common_scale(a, b);
    lemma_scaled_up_is_power(a.value as int, a.scale as int, s);
    lemma_scaled_up_is_power(b.value as int, b.scale as int, s);
    let x = left_aligned(a, b);
    let y = right_aligned(a, b);
    crate::arith::lemma_pow10_positive((s - b.scale) as nat);
    if b.scale < s {
        vstd::arithmetic::mul::lemma_mul_nonzero(b.value as int, pow10((s - b.scale) as nat));
    }
    assert(y != 0);
    crate::arith::lemma_tdiv_trem(x, y);
    let t = tdiv(x, y);
    let r = trem(x, y);
    assert(fits_i64(r));
    assert(x - r == y * t);
    if y > 0 {
        vstd::arithmetic::mul::lemma_mul_is_commutative(y, t);
        vstd::arithmetic::div_mod::lemma_mod_multiples_basic(t, y);
    } else {
        assert(y * t == (-t) * (-y)) by (nonlinear_arith);
        vstd::arithmetic::div_mod::lemma_mod_multiples_basic(-t, -y);
    }
}

/// The whole part of a number is its value divided by `10^scale`, cut toward
/// zero: `r` times `10^scale` is at most the value in magnitude, one more
/// than `r` in magnitude would be too much, and `r` is zero or has the
/// value's sign. At a scale of 0 or less it is the value itself.
pub proof fn law_whole_part_truncates(f: Float)
    ensures
        f.scale <= 0 ==> whole_part(f) == f.value,
        f.scale > 0 ==> ({
            let p = pow10(f.scale as nat);
            let r = whole_part(f);
            &&& abs_int(r) * p <= abs_int(f.value as int) < (abs_int(r) + 1) * p
            &&& r == 0 || ((r > 0) == (f.value > 0))
        }),
{
    if f.scale > 0 {
        let p = pow10(f.scale as nat);
        let v = abs_int(f.value as int);
        crate::arith::lemma_pow10_positive(f.scale as nat);
        vstd::arithmetic::div_mod::lemma_fundamental_div_mod(v, p);
        vstd::arithmetic::div_mod::lemma_mod_bound(v, p);
        vstd::arithmetic::div_mod::lemma_div_pos_is_pos(v, p);
        let q = v / p;
        assert(abs_int(whole_part(f)) == q);
        assert(q * p <= v < (q + 1) * p) by (nonlinear_arith)
            requires
                v == p * q + v % p,
                0 <= v % p < p,
        ;
    }
}

/// Multiplication does not depend on the order of its operands.
pub proof fn law_mul_commutes(a: Float, b: Float)
    requires
        product_fits(a, b),
    ensures
        product_fits(b, a),
        product_of(a, b) == product_of(b, a),
{
    vstd::arithmetic::mul::lemma_mul_is_commutative(a.value as int, b.value as int);
}

/// Subtracting what was added gives back the first operand, written at the
/// larger of the two scales: `(a + b) - b` is `a` with its value brought to
/// `common_scale(a, b)`.
pub proof fn law_sub_undoes_add(a: Float, b: Float)
    requires
        sum_fits(a, b),
    ensures
        difference_fits(sum_of(a, b), b),
        difference_of(sum_of(a, b), b) == (Float {
            value: left_aligned(a, b) as i64,
            scale: common_scale(a, b) as i8,
        }),
{
}

/// A whole number read back as a whole number is unchanged.
pub proof fn law_whole_number_round_trip(v: i64)
    ensures
        whole_part(Float { value: v, scale: 0 }) == v,
{
}

/// Text without a decimal point reads at scale 0: trailing zeros stay in the
/// value.
pub proof fn law_whole_text_has_scale_zero(s: Seq<char>)
    requires
        parsed_decimal(s) is Some,
        !has_dot(strip_sign(trim(s)).1),
    ensures
        parsed_decimal(s)->0.scale == 0,
{
}

/// Text with a decimal point reads at a scale of as many places as follow
/// the point, trailing zeros counted (up to 127 places; the count is taken
/// modulo 256 as an `i8`).
pub proof fn law_fraction_digits_set_scale(s: Seq<char>)
    requires
        parsed_decimal(s) is Some,
        has_dot(strip_sign(trim(s)).1),
    ensures
        ({
            let num = strip_sign(trim(s)).1;
            let places = num.len() - first_dot(num) - 1;
            &&& parsed_decimal(s)->0.scale == wrap_i8(places as nat)
            &&& places <= 127 ==> parsed_decimal(s)->0.scale == places
        }),
{
    let num = strip_sign(trim(s)).1;
    let d = first_dot(num);
    crate::parse::lemma_has_first_dot(num);
    let places = num.len() - d - 1;
    assert(num.subrange(d + 1, num.len() as int).len() == places);
    assert(decimal_fields(s) is Some);
}

proof fn lemma_drop_digit_bounds(n: int, dd: int, rr: int, qq: int, d: int, r: int)
    by (nonlinear_arith)
    requires
        n == rr * dd + r,
        0 <= r < dd,
        rr == 10 * qq + d,
        0 <= d < 10,
        dd > 0,
        qq >= 0,
    ensures
        d < 5 ==> 0 <= n - 10 * qq * dd && 2 * (n - 10 * qq * dd) < 10 * dd,
        d >= 5 ==> 0 < 10 * (qq + 1) * dd - n && 2 * (10 * (qq + 1) * dd - n) <= 10 * dd,
{
}

/// Division rounds to the nearest multiple of `10^-s`, where `s` is the
/// larger scale, and rounds halves away from zero.
///
/// With `x = s + b.scale + 1 - a.scale` and `e` the dividend's value times
/// `10^x` (the value itself when `x` is negative), the result is at scale `s`
/// and its value `q` is `e / (10 * b.value)` rounded: at most half a unit away,
/// and exactly half a unit only on the far side from zero. When `x` is not
/// negative, `e / (10 * b.value)` is exactly the quotient `a / b` times
/// `10^s`, so the result is that quotient rounded to `s` places.
pub proof fn law_div_rounds_half_away_from_zero(a: Float, b: Float)
    requires
        quotient_defined(a, b),
    ensures
        ({
            let s = if a.scale >= b.scale {
                a.scale as int
            } else {
                b.scale as int
            };
            let x = s + b.scale + 1 - a.scale;
            let e = if x >= 0 {
                a.value * pow10(x as nat)
            } else {
                a.value as int
            };
            let m = 10 * abs_int(b.value as int);
            let q = quotient_of(a, b).value as int;
            &&& quotient_of(a, b).scale == s
            &&& 2 * abs_int(abs_int(e) - abs_int(q) * m) <= m
            &&& 2 * abs_int(abs_int(e) - abs_int(q) * m) == m ==> abs_int(q) * m > abs_int(e)
            &&& q == 0 || ((q > 0) == ((e > 0) == (b.value > 0)))
        }),
{
    let e = amplified_dividend(a, b);
    let v2 = b.value as int;
    let n = abs_int(e);
    let dd = abs_int(v2);
    let raw = raw_quotient(a, b);
    let rr = n / dd;
    let qq = rr / 10;
    let d = rr % 10;
    let r = n % dd;
    if dividend_scale(a, b) == a.scale {
        vstd::arithmetic::power::lemma_pow0(10);
    }
    vstd::arithmetic::div_mod::lemma_fundamental_div_mod(n, dd);
    vstd::arithmetic::div_mod::lemma_mod_bound(n, dd);
    vstd::arithmetic::div_mod::lemma_div_pos_is_pos(n, dd);
    vstd::arithmetic::div_mod::lemma_fundamental_div_mod(rr, 10);
    vstd::arithmetic::div_mod::lemma_mod_bound(rr, 10);
    vstd::arithmetic::div_mod::lemma_div_pos_is_pos(rr, 10);
    assert(abs_int(raw) == rr);
    assert(abs_int(trem(raw, 10)) == d);
    assert(abs_int(tdiv(raw, 10)) == qq);
    vstd::arithmetic::mul::lemma_mul_is_commutative(rr, dd);
    lemma_drop_digit_bounds(n, dd, rr, qq, d, r);
    let q = quotient_of(a, b).value as int;
    assert(fits_i64(drop_digit_rounded(raw))) by {
        assert(abs_int(raw) <= i64::MAX + 1);
    }
    if d >= 5 {
        assert(abs_int(q) == qq + 1);
        assert(abs_int(q) * (10 * dd) == 10 * (qq + 1) * dd) by (nonlinear_arith)
            requires
                abs_int(q) == qq + 1,
        ;
    } else {
        assert(abs_int(q) == qq);
        assert(abs_int(q) * (10 * dd) == 10 * qq * dd) by (nonlinear_arith)
            requires
                abs_int(q) == qq,
        ;
        if rr == 0 {
            assert(q == 0);
        }
    }
}

/// The characters of a digit string are not white space, signs or points.
proof fn lemma_digit_string_plain(t: Seq<char>)
    requires
        all_digits(t),
    ensures
        forall|i: int|
            0 <= i < t.len() ==> !is_white(#[trigger] t[i]) && t[i] != '-' && t[i] != '+' && t[i]
                != '.',
{
    assert forall|i: int| 0 <= i < t.len() implies !is_white(#[trigger] t[i]) && t[i] != '-' && t[i]
        != '+' && t[i] != '.' by {
        assert(is_digit(t[i]));
    }
}

/// A digit string reads as `str::parse::<i64>` reads it: as its value, when
/// that fits.
proof fn lemma_parse_digit_string(t: Seq<char>)
    requires
        all_digits(t),
        t.len() >= 1,
        digits_value(t) <= i64::MAX,
    ensures
        parse_i64_text(t) == Some(digits_value(t)),
{
    lemma_digit_string_plain(t);
    crate::parse::lemma_digits_value_nonneg(t);
    assert(strip_sign(t) == (false, t));
}

/// Digits, a point and digits, read after the sign: the whole digits are
/// shifted left by the number of fraction digits and the fraction digits
/// added, at a scale of the number of fraction digits.
proof fn lemma_dotted_digits_read(ip: Seq<char>, fd: Seq<char>, magnitude: int)
    requires
        all_digits(ip),
        ip.len() >= 1,
        all_digits(fd),
        fd.len() <= 127,
        magnitude == digits_value(ip) * pow10(fd.len()) + digits_value(fd),
        magnitude <= i64::MAX,
        ip =~= seq!['0'] || ip.len() + fd.len() <= 25,
    ensures
        ({
            let num = ip + seq!['.'] + fd;
            &&& forall|i: int|
                0 <= i < num.len() ==> !is_white(#[trigger] num[i]) && num[i] != '-' && num[i]
                    != '+'
            &&& (num.len() > 0 && num[0] != '-' && num[0] != '+')
            &&& unsigned_fields(num) == Some((magnitude, fd.len() as int))
        }),
{
    let num = ip + seq!['.'] + fd;
    lemma_digit_string_plain(ip);
    lemma_digit_string_plain(fd);
    assert forall|i: int|
        0 <= i < num.len() implies !is_white(#[trigger] num[i]) && num[i] != '-' && num[i]
        != '+' by {
        if i < ip.len() {
            assert(num[i] == ip[i]);
        } else if i > ip.len() {
            assert(num[i] == fd[i - ip.len() - 1]);
        }
    }
    assert(num[0] == ip[0]);
    assert(is_first_dot(num, ip.len() as int)) by {
        assert forall|j: int| 0 <= j < ip.len() implies num[j] != '.' by {
            assert(num[j] == ip[j]);
        }
    }
    crate::parse::lemma_first_dot(num, ip.len() as int);
    let ip2 = num.subrange(0, ip.len() as int);
    let fp = num.subrange(ip.len() as int + 1, num.len() as int);
    assert(ip2 =~= ip);
    assert(fp =~= fd);
    assert(!has_dot(fd)) by {
        if has_dot(fd) {
            let k = choose|k: int| 0 <= k < fd.len() && fd[k] == '.';
            assert(fd[k] != '.');
        }
    }
    crate::arith::lemma_pow10_positive(fd.len());
    crate::parse::lemma_digits_value_nonneg(fd);
    crate::parse::lemma_digits_value_nonneg(ip);
    vstd::arithmetic::mul::lemma_mul_nonnegative(digits_value(ip), pow10(fd.len()));
    if ip =~= seq!['0'] {
        assert(digits_value(ip) == 0) by {
            assert(ip.drop_last() =~= Seq::<char>::empty());
            assert(digits_value(Seq::<char>::empty()) == 0);
            assert(ip.last() == '0');
            assert(('0' as u32) == 48);
        }
        assert(digits_value(fd) == magnitude);
        if fd.len() > 0 {
            lemma_parse_digit_string(fd);
        }
    } else {
        let joined = ip + fd;
        crate::parse::lemma_digits_value_concat(ip, fd);
        assert(all_digits(joined)) by {
            assert forall|i: int| 0 <= i < joined.len() implies #[trigger] is_digit(joined[i]) by {
                if i < ip.len() {
                    assert(joined[i] == ip[i]);
                } else {
                    assert(joined[i] == fd[i - ip.len()]);
                }
            }
        }
        assert(ip2 + fp =~= joined);
        lemma_parse_digit_string(joined);
    }
    assert(wrap_i8(fd.len()) == fd.len());
}

/// What follows the sign in the text of a number with whole part `m` and
/// fraction digits `fd` (`scale` of them) reads as the number's magnitude.
proof fn lemma_unsigned_text_reads(m: nat, fd: Seq<char>, scale: int, magnitude: int)
    requires
        1 <= scale <= 127,
        all_digits(fd),
        fd.len() == scale,
        magnitude == m * pow10(scale as nat) + digits_value(fd),
        magnitude <= i64::MAX,
    ensures
        ({
            let num = nat_digits(m) + seq!['.'] + fd;
            &&& forall|i: int|
                0 <= i < num.len() ==> !is_white(#[trigger] num[i]) && num[i] != '-' && num[i]
                    != '+'
            &&& (num.len() > 0 && num[0] != '-' && num[0] != '+')
            &&& unsigned_fields(num) == Some((magnitude, scale))
        }),
{
    let a = nat_digits(m);
    lemma_nat_digits(m);
    crate::arith::lemma_pow10_positive(scale as nat);
    crate::parse::lemma_digits_value_nonneg(fd);
    vstd::arithmetic::mul::lemma_mul_nonnegative(m as int, pow10(scale as nat));
    if m != 0 {
        assert(scale <= 18) by {
            if scale > 18 {
                crate::arith::lemma_pow10_bounds(scale as nat);
                assert(m * pow10(scale as nat) >= pow10(scale as nat)) by (nonlinear_arith)
                    requires
                        m >= 1,
                        pow10(scale as nat) > 0,
                ;
            }
        }
        let k = (19 - scale) as nat;
        assert(m < pow10(k)) by {
            crate::arith::lemma_pow10_adds(k, scale as nat);
            crate::arith::lemma_pow10_bounds(19);
            let p = pow10(scale as nat);
            let pk = pow10(k);
            assert(m * p <= i64::MAX);
            assert(pk * p >= 10_000_000_000_000_000_000);
            assert(m < pk) by (nonlinear_arith)
                requires
                    m * p <= i64::MAX,
                    pk * p >= 10_000_000_000_000_000_000,
                    p > 0,
            ;
        }
        crate::text::lemma_nat_digits_len(m, k);
    }
    lemma_dotted_digits_read(a, fd, magnitude);
}

/// Text made of an optional minus sign, digits, a point and at most 127
/// digits reads as the number those digits spell, at a scale of as many
/// places as follow the point, trailing zeros counted: `12.340` is 12340 at
/// scale 3, `-0.05` is -5 at scale 2. This holds when the magnitude fits in an
/// `i64` and, unless the whole digits are exactly `0`, the digits number 25
/// or fewer.
pub proof fn law_decimal_digits_read(neg: bool, ip: Seq<char>, fd: Seq<char>)
    requires
        all_digits(ip),
        ip.len() >= 1,
        all_digits(fd),
        fd.len() <= 127,
        digits_value(ip) * pow10(fd.len()) + digits_value(fd) <= i64::MAX,
        ip =~= seq!['0'] || ip.len() + fd.len() <= 25,
    ensures
        ({
            let magnitude = digits_value(ip) * pow10(fd.len()) + digits_value(fd);
            let text = (if neg {
                seq!['-']
            } else {
                Seq::<char>::empty()
            }) + ip + seq!['.'] + fd;
            &&& !negation_overflows(text)
            &&& parsed_decimal(text) == Some(
                Float {
                    value: (if neg {
                        -magnitude
                    } else {
                        magnitude
                    }) as i64,
                    scale: fd.len() as i8,
                },
            )
        }),
{
    let magnitude = digits_value(ip) * pow10(fd.len()) + digits_value(fd);
    lemma_dotted_digits_read(ip, fd, magnitude);
    let num = ip + seq!['.'] + fd;
    let text = (if neg {
        seq!['-']
    } else {
        Seq::<char>::empty()
    }) + ip + seq!['.'] + fd;
    crate::arith::lemma_pow10_positive(fd.len());
    crate::parse::lemma_digits_value_nonneg(fd);
    crate::parse::lemma_digits_value_nonneg(ip);
    vstd::arithmetic::mul::lemma_mul_nonnegative(digits_value(ip), pow10(fd.len()));
    if neg {
        assert(text =~= seq!['-'] + num);
        assert forall|k: int| 0 <= k < text.len() implies !is_white(#[trigger] text[k]) by {
            if k > 0 {
                assert(text[k] == num[k - 1]);
            }
        }
        crate::parse::lemma_trim_plain(text);
        assert(text.drop_first() =~= num);
        assert forall|k: int| 1 <= k < text.len() implies text[k] != '-' by {
            assert(text[k] == num[k - 1]);
        }
    } else {
        assert(text =~= num);
        crate::parse::lemma_trim_plain(text);
        assert(strip_sign(text) == (false, num));
    }
    crate::parse::lemma_no_inner_minus_reads_safely(text);
}

/// Text made of an optional minus sign and digits reads as the whole number
/// the digits spell, at scale 0, trailing zeros kept in the value: `1230000`
/// is 1230000 at scale 0. This holds when the magnitude fits in an `i64`.
pub proof fn law_whole_digits_read(neg: bool, ds: Seq<char>)
    requires
        all_digits(ds),
        ds.len() >= 1,
        digits_value(ds) <= i64::MAX,
    ensures
        ({
            let text = (if neg {
                seq!['-']
            } else {
                Seq::<char>::empty()
            }) + ds;
            &&& !negation_overflows(text)
            &&& parsed_decimal(text) == Some(
                Float {
                    value: (if neg {
                        -digits_value(ds)
                    } else {
                        digits_value(ds)
                    }) as i64,
                    scale: 0,
                },
            )
        }),
{
    let text = (if neg {
        seq!['-']
    } else {
        Seq::<char>::empty()
    }) + ds;
    lemma_digit_string_plain(ds);
    lemma_parse_digit_string(ds);
    assert(!has_dot(ds)) by {
        if has_dot(ds) {
            let k = choose|k: int| 0 <= k < ds.len() && ds[k] == '.';
            assert(ds[k] != '.');
        }
    }
    if neg {
        assert(text =~= seq!['-'] + ds);
        assert forall|k: int| 0 <= k < text.len() implies !is_white(#[trigger] text[k]) by {
            if k > 0 {
                assert(text[k] == ds[k - 1]);
            }
        }
        crate::parse::lemma_trim_plain(text);
        assert(text.drop_first() =~= ds);
        assert forall|k: int| 1 <= k < text.len() implies text[k] != '-' by {
            assert(text[k] == ds[k - 1]);
        }
    } else {
        assert(text =~= ds);
        crate::parse::lemma_trim_plain(text);
        assert(strip_sign(text) == (false, ds));
    }
    crate::parse::lemma_no_inner_minus_reads_safely(text);
}

/// Writing a number as decimal text and reading the text back gives the
/// number, for every scale of 0 or more.
///
/// `i64::MIN` is left out: after its sign the reading takes its magnitude,
/// `2^63`, as an `i64`, which it cannot hold.
pub proof fn law_decimal_text_reads_back(f: Float)
    requires
        0 <= f.scale,
        f.value != i64::MIN,
    ensures
        !negation_overflows(decimal_text(f)),
        parsed_decimal(decimal_text(f)) == Some(f),
{
    let v = f.value as int;
    let text = decimal_text(f);
    if f.scale == 0 {
        let m = abs_int(v) as nat;
        lemma_nat_digits(m);
        lemma_digit_string_plain(nat_digits(m));
        if v >= 0 {
            assert(text == nat_digits(m));
            assert(!has_dot(text)) by {
                if has_dot(text) {
                    let k = choose|k: int| 0 <= k < text.len() && text[k] == '.';
                    assert(text[k] != '.');
                }
            }
            lemma_parse_digit_string(text);
            crate::parse::lemma_trim_plain(text);
            assert(strip_sign(text) == (false, text));
        } else {
            let a = nat_digits(m);
            assert(text == seq!['-'] + a);
            assert forall|i: int| 0 <= i < text.len() implies !is_white(#[trigger] text[i]) by {
                if i > 0 {
                    assert(text[i] == a[i - 1]);
                }
            }
            crate::parse::lemma_trim_plain(text);
            assert(text.drop_first() =~= a);
            assert(strip_sign(text) == (true, a));
            assert(!has_dot(a)) by {
                if has_dot(a) {
                    let k = choose|k: int| 0 <= k < a.len() && a[k] == '.';
                    assert(a[k] != '.');
                }
            }
            lemma_parse_digit_string(a);
        }
        crate::parse::lemma_no_inner_minus_reads_safely(text);
    } else {
        let sc = f.scale as int;
        let p = pow10(sc as nat);
        crate::arith::lemma_pow10_positive(sc as nat);
        let mag = abs_int(v);
        let m = (mag / p) as nat;
        let frac = (mag % p) as nat;
        vstd::arithmetic::div_mod::lemma_fundamental_div_mod(mag, p);
        vstd::arithmetic::div_mod::lemma_mod_bound(mag, p);
        vstd::arithmetic::div_mod::lemma_div_pos_is_pos(mag, p);
        vstd::arithmetic::mul::lemma_mul_is_commutative(p, m as int);
        let fd = fixed_digits(frac, sc as nat);
        crate::text::lemma_fixed_digits(frac, sc as nat);
        vstd::arithmetic::div_mod::lemma_small_mod(frac, p as nat);
        assert(digits_value(fd) == frac);
        lemma_unsigned_text_reads(m, fd, sc, mag);
        let num = nat_digits(m) + seq!['.'] + fd;
        if v >= 0 {
            assert(text =~= num);
            crate::parse::lemma_trim_plain(text);
            assert(strip_sign(text) == (false, num));
        } else {
            assert(text =~= seq!['-'] + num);
            assert forall|k: int| 0 <= k < text.len() implies !is_white(#[trigger] text[k]) by {
                if k > 0 {
                    assert(text[k] == num[k - 1]);
                }
            }
            crate::parse::lemma_trim_plain(text);
            assert(text.drop_first() =~= num);
        }
        assert forall|k: int| 1 <= k < text.len() implies text[k] != '-' by {
            if v < 0 {
                assert(text[k] == num[k - 1]);
            } else {
                assert(text[k] == num[k]);
            }
        }
        crate::parse::lemma_no_inner_minus_reads_safely(text);
    }
}

/// Text made of an optional minus sign, whole digits, a point and fraction
/// digits, as a floating-point number prints.
pub open spec fn signed_point_text(neg: bool, ip: Seq<char>, fp: Seq<char>) -> Seq<char> {
    (if neg {
        seq!['-']
    } else {
        Seq::<char>::empty()
    }) + ip + seq!['.'] + fp
}

/// Where the point and the fraction of such a text stand.
proof fn lemma_signed_point_text(neg: bool, ip: Seq<char>, fp: Seq<char>)
    requires
        all_digits(ip),
        all_digits(fp),
    ensures
        ({
            let s = signed_point_text(neg, ip, fp);
            let d = (if neg {
                1int
            } else {
                0int
            }) + ip.len();
            &&& !has_char(s, 'e') && !has_char(s, 'E')
            &&& has_dot(s)
            &&& first_dot(s) == d
            &&& s.subrange(d + 1, s.len() as int) == fp
            &&& s.subrange(0, d) == (if neg {
                seq!['-']
            } else {
                Seq::<char>::empty()
            }) + ip
        }),
{
    let sign = if neg {
        seq!['-']
    } else {
        Seq::<char>::empty()
    };
    let s = signed_point_text(neg, ip, fp);
    let d = (sign.len() + ip.len()) as int;
    lemma_digit_string_plain(ip);
    lemma_digit_string_plain(fp);
    assert forall|i: int| 0 <= i < s.len() implies s[i] != 'e' && s[i] != 'E' by {
        if i < sign.len() {
        } else if i < d {
            assert(s[i] == ip[i - sign.len()]);
            assert(is_digit(ip[i - sign.len()]));
        } else if i > d {
            assert(s[i] == fp[i - d - 1]);
            assert(is_digit(fp[i - d - 1]));
        }
    }
    assert(is_first_dot(s, d)) by {
        assert forall|j: int| 0 <= j < d implies s[j] != '.' by {
            if j >= sign.len() {
                assert(s[j] == ip[j - sign.len()]);
            }
        }
    }
    crate::parse::lemma_first_dot(s, d);
    assert(s.subrange(d + 1, s.len() as int) =~= fp);
    assert(s.subrange(0, d) =~= sign + ip);
}

/// A printed floating-point text with a run of seven zeros in its fraction
/// reads as the number its digits spell up to that run.
///
/// For text made of an optional minus sign, whole digits `ip`, a point and
/// fraction digits `fp`, at most 32 characters long, whose first run of seven
/// zeros in `fp` starts at `z`: the step is to read the number whose digits
/// are `ip` and the first `z` digits of `fp`, at scale `z`. So
/// `65000.5000000000000000` reads as 650005 at scale 1 and
/// `0.3000000000000000` as 3 at scale 1. This holds when that number's
/// magnitude fits in an `i64` and, unless `ip` is exactly `0`, `ip` and the
/// kept digits number 25 or fewer.
pub proof fn law_printed_text_cut_at_zeros(neg: bool, ip: Seq<char>, fp: Seq<char>, z: int)
    requires
        all_digits(ip),
        ip.len() >= 1,
        all_digits(fp),
        signed_point_text(neg, ip, fp).len() <= 32,
        0 <= z,
        z + 7 <= fp.len(),
        forall|k: int| 0 <= k < 7 ==> #[trigger] fp[z + k] == '0',
        forall|j: int| 0 <= j < z ==> !#[trigger] run_at(fp, '0', j),
        digits_value(ip) * pow10(z as nat) + digits_value(fp.subrange(0, z)) <= i64::MAX,
        ip =~= seq!['0'] || ip.len() + z <= 25,
    ensures
        ({
            let magnitude = digits_value(ip) * pow10(z as nat) + digits_value(fp.subrange(0, z));
            fixed_text_step(signed_point_text(neg, ip, fp)) == FixedTextStep::Read(
                Some(
                    Float {
                        value: (if neg {
                            -magnitude
                        } else {
                            magnitude
                        }) as i64,
                        scale: z as i8,
                    },
                ),
            )
        }),
{
    let sign = if neg {
        seq!['-']
    } else {
        Seq::<char>::empty()
    };
    lemma_signed_point_text(neg, ip, fp);
    assert(is_first_run(fp, '0', z));
    crate::float_text::lemma_first_run(fp, '0', z);
    let kept = fp.subrange(0, z);
    assert(all_digits(kept)) by {
        assert forall|i: int| 0 <= i < kept.len() implies #[trigger] is_digit(kept[i]) by {
            assert(kept[i] == fp[i]);
            assert(is_digit(fp[i]));
        }
    }
    assert(signed_point_text(neg, ip, kept) =~= sign + ip + seq!['.'] + kept);
    law_decimal_digits_read(neg, ip, kept);
}

/// A printed floating-point text with no run of seven zeros but a run of
/// seven nines in its fraction asks to be printed again with as many places
/// as stand before the first such run: `0.1299999999999999` asks for 2.
pub proof fn law_printed_text_nines_reprint(neg: bool, ip: Seq<char>, fp: Seq<char>, n: int)
    requires
        all_digits(ip),
        all_digits(fp),
        signed_point_text(neg, ip, fp).len() <= 32,
        forall|j: int| 0 <= j ==> !#[trigger] run_at(fp, '0', j),
        0 <= n,
        n + 7 <= fp.len(),
        forall|k: int| 0 <= k < 7 ==> #[trigger] fp[n + k] == '9',
        forall|j: int| 0 <= j < n ==> !#[trigger] run_at(fp, '9', j),
    ensures
        fixed_text_step(signed_point_text(neg, ip, fp)) == (FixedTextStep::Reprint {
            precision: n as usize,
        }),
{
    lemma_signed_point_text(neg, ip, fp);
    assert(is_first_run(fp, '9', n));
    crate::float_text::lemma_first_run(fp, '9', n);
}

/// A printed floating-point text with no run of seven zeros or nines in its
/// fraction reads as the number all its digits spell, at a scale of as many
/// places as follow the point: `1.2345678912345678` is 12345678912345678 at
/// scale 16. This holds when that number's magnitude fits in an `i64` and,
/// unless `ip` is exactly `0`, the digits number 25 or fewer.
pub proof fn law_printed_text_read_whole(neg: bool, ip: Seq<char>, fp: Seq<char>)
    requires
        all_digits(ip),
        ip.len() >= 1,
        all_digits(fp),
        signed_point_text(neg, ip, fp).len() <= 32,
        forall|j: int| 0 <= j ==> !#[trigger] run_at(fp, '0', j),
        forall|j: int| 0 <= j ==> !#[trigger] run_at(fp, '9', j),
        digits_value(ip) * pow10(fp.len()) + digits_value(fp) <= i64::MAX,
        ip =~= seq!['0'] || ip.len() + fp.len() <= 25,
    ensures
        ({
            let magnitude = digits_value(ip) * pow10(fp.len()) + digits_value(fp);
            fixed_text_step(signed_point_text(neg, ip, fp)) == FixedTextStep::Read(
                Some(
                    Float {
                        value: (if neg {
                            -magnitude
                        } else {
                            magnitude
                        }) as i64,
                        scale: fp.len() as i8,
                    },
                ),
            )
        }),
{
    lemma_signed_point_text(neg, ip, fp);
    law_decimal_digits_read(neg, ip, fp);
}

/// A printed floating-point text longer than 32 bytes is not read.
pub proof fn law_printed_text_too_long(s: Seq<char>)
    requires
        s.len() > 32,
    ensures
        fixed_text_step(s) == FixedTextStep::Read(None),
{
}

/// The digits of a number start with `0` only when the number is 0.
proof fn lemma_nat_digits_first(n: nat)
    ensures
        nat_digits(n).len() >= 1,
        (nat_digits(n)[0] == '0') ==> n == 0,
    decreases n,
{
    lemma_nat_digits(n);
    if n < 10 {
        crate::text::lemma_digit_char(n as int);
    } else {
        lemma_nat_digits_first(n / 10);
        assert(nat_digits(n)[0] == nat_digits(n / 10)[0]);
    }
}

/// The body of written text (the text after any minus sign): whole digits
/// without leading zeros, then for a positive scale a point and exactly
/// `w` fraction digits.
proof fn lemma_text_body(k: nat, w: int, body: Seq<char>, fd: Seq<char>)
    requires
        w >= 0,
        w == 0 ==> body == nat_digits(k),
        w > 0 ==> body == nat_digits(k) + seq!['.'] + fd && fd.len() == w && all_digits(fd),
    ensures
        body.len() >= 1 + (if w > 0 {
            w + 1
        } else {
            0
        }),
        forall|i: int|
            0 <= i < body.len() ==> (if w > 0 && i == body.len() - w - 1 {
                body[i] == '.'
            } else {
                is_digit(#[trigger] body[i])
            }),
        body[0] != '0' || body.len() == 1 || body[1] == '.',
{
    let a = nat_digits(k);
    lemma_nat_digits(k);
    lemma_nat_digits_first(k);
    assert(body[0] == a[0]);
    if a.len() > 1 {
        assert(body[1] == a[1]);
        assert(is_digit(a[1]));
        assert(k != 0) by {
            if k == 0 {
                assert(a =~= seq!['0']);
            }
        }
    }
    assert forall|i: int|
        0 <= i < body.len() implies (if w > 0 && i == body.len() - w - 1 {
        body[i] == '.'
    } else {
        is_digit(#[trigger] body[i])
    }) by {
        if i < a.len() {
            assert(body[i] == a[i]);
        } else if i > a.len() {
            assert(body[i] == fd[i - a.len() - 1]);
        }
    }
}

/// Written text has one shape: a minus sign exactly when the number is
/// negative, then whole digits without leading zeros (a lone `0` when the
/// whole part is 0), and for a positive scale a point followed by exactly
/// `scale` digits, trailing zeros kept. Nothing else stands in it.
pub proof fn law_decimal_text_shape(f: Float)
    ensures
        ({
            let t = decimal_text(f);
            let body = if f.value < 0 {
                t.drop_first()
            } else {
                t
            };
            let w = if f.scale > 0 {
                f.scale as int
            } else {
                0
            };
            &&& (t.len() > 0 && t[0] == '-') == (f.value < 0)
            &&& body.len() >= 1 + (if w > 0 {
                w + 1
            } else {
                0
            })
            &&& forall|i: int|
                0 <= i < body.len() ==> (if w > 0 && i == body.len() - w - 1 {
                    body[i] == '.'
                } else {
                    is_digit(#[trigger] body[i])
                })
            &&& (body[0] != '0' || body.len() == 1 || body[1] == '.')
        }),
{
    let v = f.value as int;
    let t = decimal_text(f);
    let m = abs_int(v);
    if f.scale <= 0 {
        let body = nat_digits(m as nat);
        if v < 0 {
            assert(t.drop_first() =~= body);
        }
        lemma_text_body(m as nat, 0, body, Seq::<char>::empty());
        lemma_nat_digits(m as nat);
        assert(is_digit(body[0]));
    } else {
        let p = pow10(f.scale as nat);
        crate::arith::lemma_pow10_positive(f.scale as nat);
        vstd::arithmetic::div_mod::lemma_div_pos_is_pos(m, p);
        vstd::arithmetic::div_mod::lemma_mod_bound(m, p);
        let fd = fixed_digits((m % p) as nat, f.scale as nat);
        crate::text::lemma_fixed_digits((m % p) as nat, f.scale as nat);
        let body = nat_digits((m / p) as nat) + seq!['.'] + fd;
        if v < 0 {
            assert(t =~= seq!['-'] + body);
            assert(t.drop_first() =~= body);
        } else {
            assert(t =~= body);
        }
        lemma_text_body((m / p) as nat, f.scale as int, body, fd);
        lemma_nat_digits((m / p) as nat);
        assert(body[0] == nat_digits((m / p) as nat)[0]);
        assert(is_digit(body[0]));
    }
}

/// Trimming the front of a text with one more character at its end.
proof fn lemma_trim_start_push(t: Seq<char>, c: char)
    requires
        is_white(c),
    ensures
        trim_start(t.push(c)) == (if trim_start(t).len() > 0 {
            trim_start(t).push(c)
        } else {
            Seq::<char>::empty()
        }),
    decreases t.len(),
{
    let u = t.push(c);
    if t.len() == 0 {
        assert(u.drop_first() =~= Seq::<char>::empty());
        assert(trim_start(Seq::<char>::empty()) == Seq::<char>::empty());
        assert(u[0] == c);
        assert(trim_start(u) == trim_start(u.drop_first()));
        assert(trim_start(t) == t);
    } else if is_white(t[0]) {
        assert(u.drop_first() =~= t.drop_first().push(c));
        assert(u[0] == t[0]);
        lemma_trim_start_push(t.drop_first(), c);
        assert(trim_start(u) == trim_start(u.drop_first()));
        assert(trim_start(t) == trim_start(t.drop_first()));
    } else {
        assert(u[0] == t[0]);
        assert(trim_start(u) == u);
        assert(trim_start(t) == t);
    }
}

/// White space before a number changes nothing.
pub proof fn law_leading_space_ignored(c: char, t: Seq<char>)
    requires
        is_white(c),
    ensures
        parsed_decimal(seq![c] + t) == parsed_decimal(t),
        negation_overflows(seq![c] + t) == negation_overflows(t),
{
    assert((seq![c] + t).drop_first() =~= t);
    assert((seq![c] + t)[0] == c);
    assert(trim(seq![c] + t) == trim(t));
}

/// White space after a number changes nothing.
pub proof fn law_trailing_space_ignored(t: Seq<char>, c: char)
    requires
        is_white(c),
    ensures
        parsed_decimal(t.push(c)) == parsed_decimal(t),
        negation_overflows(t.push(c)) == negation_overflows(t),
{
    lemma_trim_start_push(t, c);
    let u = crate::parse::trim_start(t);
    if u.len() > 0 {
        assert(u.push(c).drop_last() =~= u);
        assert(u.push(c).last() == c);
    }
    assert(trim(t.push(c)) == trim(t));
}

/// A plus sign in front of a number changes nothing.
pub proof fn law_plus_sign_ignored(t: Seq<char>)
    requires
        t.len() > 0,
        !is_white(t[0]),
        !is_white(t.last()),
        t[0] != '+' && t[0] != '-',
    ensures
        parsed_decimal(seq!['+'] + t) == parsed_decimal(t),
{
    let u = seq!['+'] + t;
    assert(!is_white('+'));
    assert(u[0] == '+');
    assert(u.last() == t.last());
    assert(trim(u) == u);
    assert(trim(t) == t);
    assert(u.drop_first() =~= t);
    assert(strip_sign(u) == (false, t));
    assert(strip_sign(t) == (false, t));
}

} // verus!
