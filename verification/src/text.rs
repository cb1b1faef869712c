//! Writing a number as decimal text: the whole part, then for a positive
//! scale a point and exactly `scale` fraction digits, trailing zeros kept.
use crate::arith::{abs_int, lemma_pow10_positive, lemma_pow10_succ, pow10};
use crate::decimal::Float;
use crate::parse::{all_digits, digit_value, digits_value, is_digit, is_white};
use vstd::prelude::*;

verus! {

/// The character of the decimal digit `d`.
pub open spec fn digit_char(d: int) -> char {
    (d + 48) as char
}

/// The decimal digits of `n`, without leading zeros (`0` is `"0"`).
pub open spec fn nat_digits(n: nat) -> Seq<char>
    decreases n,
{
    if n < 10 {
        seq![digit_char(n as int)]
    } else {
        nat_digits(n / 10).push(digit_char((n % 10) as int))
    }
}

/// `v` as Rust's `{}` prints an integer: a `-` for a negative value, then
/// its digits.
pub open spec fn int_text(v: int) -> Seq<char> {
    if v < 0 {
        seq!['-'] + nat_digits((-v) as nat)
    } else {
        nat_digits(v as nat)
    }
}

/// The last `w` decimal digits of `n`; for `n < 10^w` this is `n` padded
/// with zeros on the left to width `w`, as `{:0w$}` prints it.
pub open spec fn fixed_digits(n: nat, w: nat) -> Seq<char>
    decreases w,
{
    if w == 0 {
        seq![]
    } else {
        fixed_digits(n / 10, (w - 1) as nat).push(digit_char((n % 10) as int))
    }
}

/// `-` for a negative number, nothing otherwise.
pub open spec fn sign_text(v: int) -> Seq<char> {
    if v < 0 {
        seq!['-']
    } else {
        seq![]
    }
}

/// The decimal text of a number. At a scale of 0 or less it is the value
/// alone; otherwise a `-` for a negative number, the digits of the magnitude's
/// whole part, a point, and the magnitude's remaining digits padded to
/// `scale` places: -0.5 at scale 1 is `-0.5`.
pub open spec fn decimal_text(f: Float) -> Seq<char> {
    if f.scale <= 0 {
        int_text(f.value as int)
    } else {
        let factor = pow10(f.scale as nat);
        let m = abs_int(f.value as int);
        sign_text(f.value as int) + nat_digits((m / factor) as nat) + seq!['.'] + fixed_digits(
            (m % factor) as nat,
            f.scale as nat,
        )
    }
}

/// The digit characters are the ASCII digits, and read back as their digit.
pub proof fn lemma_digit_char(d: int)
    requires
        0 <= d < 10,
    ensures
        is_digit(digit_char(d)),
        digit_value(digit_char(d)) == d,
        digit_char(d) != '-' && digit_char(d) != '+' && digit_char(d) != '.',
        !is_white(digit_char(d)),
        (digit_char(d) == '0') == (d == 0),
{
    assert((d + 48) as char as u32 == d + 48);
}

/// The digits of `n` are ASCII digits that read back as `n`.
pub proof fn lemma_nat_digits(n: nat)
    ensures
        all_digits(nat_digits(n)),
        digits_value(nat_digits(n)) == n,
        nat_digits(n).len() >= 1,
        (nat_digits(n) =~= seq!['0']) == (n == 0),
    decreases n,
{
    if n < 10 {
        lemma_digit_char(n as int);
        let t = nat_digits(n);
        assert(t.drop_last() =~= Seq::<char>::empty());
        assert(digits_value(Seq::<char>::empty()) == 0);
        assert(t.last() == digit_char(n as int));
    } else {
        lemma_nat_digits(n / 10);
        lemma_digit_char((n % 10) as int);
        let t = nat_digits(n);
        assert(t.drop_last() =~= nat_digits(n / 10));
        assert forall|i: int| 0 <= i < t.len() implies #[trigger] is_digit(t[i]) by {
            if i < t.len() - 1 {
                assert(t[i] == nat_digits(n / 10)[i]);
            }
        }
        assert(t.len() >= 2);
        vstd::arithmetic::div_mod::lemma_fundamental_div_mod(n as int, 10);
        assert(t.last() == digit_char((n % 10) as int));
    }
}

/// A number below `10^k` has at most `k` digits.
pub proof fn lemma_nat_digits_len(n: nat, k: nat)
    requires
        k >= 1,
        n < pow10(k),
    ensures
        nat_digits(n).len() <= k,
    decreases n,
{
    if n >= 10 {
        lemma_pow10_succ((k - 1) as nat);
        assert(k >= 2) by {
            if k == 1 {
                vstd::arithmetic::power::lemma_pow1(10);
            }
        }
        assert(n / 10 < pow10((k - 1) as nat)) by {
            vstd::arithmetic::div_mod::lemma_multiply_divide_lt(n as int, 10, pow10((k - 1) as nat));
        }
        lemma_nat_digits_len(n / 10, (k - 1) as nat);
    }
}

/// The last `w` digits of `n` are `w` ASCII digits reading as `n mod 10^w`.
pub proof fn lemma_fixed_digits(n: nat, w: nat)
    ensures
        all_digits(fixed_digits(n, w)),
        fixed_digits(n, w).len() == w,
        digits_value(fixed_digits(n, w)) == (n as int) % pow10(w),
    decreases w,
{
    if w == 0 {
        vstd::arithmetic::power::lemma_pow0(10);
    } else {
        let w1 = (w - 1) as nat;
        lemma_fixed_digits(n / 10, w1);
        lemma_digit_char((n % 10) as int);
        let t = fixed_digits(n, w);
        assert(t.drop_last() =~= fixed_digits(n / 10, w1));
        assert forall|i: int| 0 <= i < t.len() implies #[trigger] is_digit(t[i]) by {
            if i < t.len() - 1 {
                assert(t[i] == fixed_digits(n / 10, w1)[i]);
            }
        }
        lemma_pow10_succ(w1);
        lemma_pow10_positive(w1);
        lemma_mod_of_tens(n, pow10(w1));
        assert(pow10(w) == 10 * pow10(w1));
    }
}

/// `n mod 10p` is `(n/10 mod p) * 10 + n mod 10`.
proof fn lemma_mod_of_tens(n: nat, p: int)
    requires
        p > 0,
    ensures
        (n as int) % (10 * p) == (((n / 10) as int) % p) * 10 + (n as int) % 10,
{
    vstd::arithmetic::div_mod::lemma_breakdown(n as int, 10, p);
    vstd::arithmetic::mul::lemma_mul_is_commutative(10, p);
}

/// The decimal text of a number at a scale of at most 18 is at most 21
/// characters long: a sign, 19 digits and a point at the very most.
pub proof fn lemma_decimal_text_len(f: Float)
    requires
        f.scale <= 18,
    ensures
        decimal_text(f).len() <= 21,
{
    let v = f.value as int;
    crate::arith::lemma_pow10_bounds(19);
    if f.scale <= 0 {
        let m = abs_int(v) as nat;
        lemma_nat_digits_len(m, 19);
    } else {
        let sc = f.scale as int;
        let p = pow10(sc as nat);
        lemma_pow10_positive(sc as nat);
        let m = abs_int(v);
        let k = (19 - sc) as nat;
        crate::arith::lemma_pow10_adds(k, sc as nat);
        vstd::arithmetic::mul::lemma_mul_is_commutative(p, pow10(k));
        vstd::arithmetic::div_mod::lemma_multiply_divide_lt(m, p, pow10(k));
        vstd::arithmetic::div_mod::lemma_div_pos_is_pos(m, p);
        vstd::arithmetic::div_mod::lemma_mod_bound(m, p);
        lemma_nat_digits_len((m / p) as nat, k);
        lemma_fixed_digits((m % p) as nat, sc as nat);
    }
}

fn digit_to_char(d: u64) -> (c: char)
    requires
        d < 10,
    ensures
        c == digit_char(d as int),
{
    ((d as u8) + 48) as char
}

/// Appends the digits of `n`.
fn push_nat_digits(out: &mut Vec<char>, n: u64)
    ensures
        final(out)@ == old(out)@ + nat_digits(n as nat),
    decreases n,
{
    if n >= 10 {
        push_nat_digits(out, n / 10);
    }
    out.push(digit_to_char(n % 10));
    assert(final(out)@ =~= old(out)@ + nat_digits(n as nat));
}

/// Appends the last `w` digits of `n`.
fn push_fixed_digits(out: &mut Vec<char>, n: u64, w: u32)
    ensures
        final(out)@ == old(out)@ + fixed_digits(n as nat, w as nat),
    decreases w,
{
    if w > 0 {
        push_fixed_digits(out, n / 10, w - 1);
        out.push(digit_to_char(n % 10));
        assert(final(out)@ =~= old(out)@ + fixed_digits(n as nat, w as nat));
    } else {
        assert(final(out)@ =~= old(out)@ + fixed_digits(n as nat, w as nat));
    }
}

/// Appends `v` as `{}` prints it.
fn push_int_text(out: &mut Vec<char>, v: i64)
    ensures
        final(out)@ == old(out)@ + int_text(v as int),
{
    if v < 0 {
        out.push('-');
        let magnitude = (-(v as i128)) as u64;
        push_nat_digits(out, magnitude);
        assert(final(out)@ =~= old(out)@ + int_text(v as int));
    } else {
        push_nat_digits(out, v as u64);
    }
}

/// Wraps std's `String::from_iter`, which collects characters into a string
/// in the order given; the contract claims the string holds exactly them.
#[verifier::external_body]
fn string_from_chars(cs: Vec<char>) -> (s: String)
    ensures
        s@ == cs@,
{
    String::from_iter(cs)
}

impl Float {
    /// The number as decimal text: `1500.50` for value 150050 at scale 2,
    /// `5000` for 5000 at scale 0. This is the text the number is stored and
    /// sent as. Up to scale 18 it is never longer than 21 characters; past
    /// that the whole part is always 0 (`0.00000000000000000001` for value 1
    /// at scale 20).
    pub fn to_decimal_string(&self) -> (r: String)
        ensures
            r@ == decimal_text(*self),
            self.scale <= 18 ==> r@.len() <= 21,
    {
        proof {
            if self.scale <= 18 {
                lemma_decimal_text_len(*self);
            }
        }
        let mut out: Vec<char> = Vec::new();
        if self.scale <= 0 {
            push_int_text(&mut out, self.value);
        } else {
            let magnitude = if self.value < 0 {
                out.push('-');
                (-(self.value as i128)) as u64
            } else {
                self.value as u64
            };
            let (whole, frac) = if self.scale > 18 {
                proof {
                    crate::arith::lemma_i64_below_pow10(self.value as int, self.scale as nat);
                }
                (0, magnitude)
            } else {
                let factor = Float::get_scale_factor(self.scale) as u64;
                (magnitude / factor, magnitude % factor)
            };
            push_nat_digits(&mut out, whole);
            out.push('.');
            push_fixed_digits(&mut out, frac, self.scale as u32);
            assert(out@ =~= decimal_text(*self));
        }
        string_from_chars(out)
    }
}

} // verus!
