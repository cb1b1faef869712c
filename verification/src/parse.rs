//! Reading a decimal number from text.
//!
//! The text is trimmed of Unicode white space and may carry one sign. Without
//! a decimal point it is read as a whole number at scale 0, trailing zeros
//! kept in the value; with one, every digit after the point counts toward the
//! scale, trailing zeros included.
use crate::arith::{fits_i64, wrap_i8};
use crate::decimal::Float;
use vstd::prelude::*;

verus! {

/// Unicode `White_Space`: the characters `str::trim` removes.
pub open spec fn is_white(c: char) -> bool {
    let u = c as u32;
    ||| 0x9 <= u <= 0xd
    ||| u == 0x20
    ||| u == 0x85
    ||| u == 0xa0
    ||| u == 0x1680
    ||| 0x2000 <= u <= 0x200a
    ||| u == 0x2028
    ||| u == 0x2029
    ||| u == 0x202f
    ||| u == 0x205f
    ||| u == 0x3000
}

/// `s` without its leading white space.
pub open spec fn trim_start(s: Seq<char>) -> Seq<char>
    decreases s.len(),
{
    if s.len() > 0 && is_white(s[0]) {
        trim_start(s.drop_first())
    } else {
        s
    }
}

/// `s` without its trailing white space.
pub open spec fn trim_end(s: Seq<char>) -> Seq<char>
    decreases s.len(),
{
    if s.len() > 0 && is_white(s.last()) {
        trim_end(s.drop_last())
    } else {
        s
    }
}

/// `s` without leading and trailing white space.
pub open spec fn trim(s: Seq<char>) -> Seq<char> {
    trim_end(trim_start(s))
}

/// Splits off one leading `-` (negative) or `+`.
pub open spec fn strip_sign(t: Seq<char>) -> (bool, Seq<char>) {
    if t.len() > 0 && t[0] == '-' {
        (true, t.drop_first())
    } else if t.len() > 0 && t[0] == '+' {
        (false, t.drop_first())
    } else {
        (false, t)
    }
}

/// An ASCII decimal digit.
pub open spec fn is_digit(c: char) -> bool {
    48 <= (c as u32) <= 57
}

pub open spec fn all_digits(t: Seq<char>) -> bool {
    forall|i: int| 0 <= i < t.len() ==> #[trigger] is_digit(t[i])
}

pub open spec fn digit_value(c: char) -> int {
    (c as u32) - 48
}

/// The number a string of decimal digits names.
pub open spec fn digits_value(t: Seq<char>) -> int
    decreases t.len(),
{
    if t.len() == 0 {
        0
    } else {
        digits_value(t.drop_last()) * 10 + digit_value(t.last())
    }
}

/// What `str::parse::<i64>` reads: one optional sign, then one or more ASCII
/// digits naming a value in the range of `i64`.
pub open spec fn parse_i64_text(t: Seq<char>) -> Option<int> {
    let (neg, ds) = strip_sign(t);
    if ds.len() == 0 || !all_digits(ds) {
        None
    } else {
        let v = if neg {
            -digits_value(ds)
        } else {
            digits_value(ds)
        };
        if fits_i64(v) {
            Some(v)
        } else {
            None
        }
    }
}

/// `t` has a `.` somewhere.
pub open spec fn has_dot(t: Seq<char>) -> bool {
    exists|i: int| 0 <= i < t.len() && t[i] == '.'
}

/// `i` is the position of the first `.` in `t`.
pub open spec fn is_first_dot(t: Seq<char>, i: int) -> bool {
    &&& 0 <= i < t.len()
    &&& t[i] == '.'
    &&& forall|j: int| 0 <= j < i ==> t[j] != '.'
}

/// The position of the first `.` in `t`.
pub open spec fn first_dot(t: Seq<char>) -> int {
    choose|i: int| is_first_dot(t, i)
}

/// The integer and scale read from the text after its sign.
///
/// With a point, the digits before and after it are read as one integer,
/// except that a whole part of exactly `0` reads the fraction alone; more than
/// 25 characters in the two parts together are refused, and the scale is the
/// length of the fraction taken modulo 256 as an `i8`. Without a point the
/// text is read as a whole number at scale 0.
pub open spec fn unsigned_fields(num: Seq<char>) -> Option<(int, int)> {
    if has_dot(num) {
        let d = first_dot(num);
        let ip = num.subrange(0, d);
        let fp = num.subrange(d + 1, num.len() as int);
        if has_dot(fp) {
            None
        } else {
            let parsed = if ip =~= seq!['0'] {
                if fp.len() == 0 {
                    Some(0int)
                } else {
                    parse_i64_text(fp)
                }
            } else if ip.len() + fp.len() > 25 {
                None
            } else {
                parse_i64_text(ip + fp)
            };
            match parsed {
                Some(v) => Some((v, wrap_i8(fp.len()))),
                None => None,
            }
        }
    } else if num.len() == 0 {
        None
    } else {
        match parse_i64_text(num) {
            Some(v) => Some((v, 0int)),
            None => None,
        }
    }
}

/// The pieces a decimal text is read into: whether one minus sign stood in
/// front, the signed integer read after it, and the scale.
pub open spec fn decimal_fields(s: Seq<char>) -> Option<(bool, int, int)> {
    let t = trim(s);
    if t.len() == 0 {
        None
    } else {
        let (neg, num) = strip_sign(t);
        match unsigned_fields(num) {
            Some((v, sc)) => Some((neg, v, sc)),
            None => None,
        }
    }
}

/// The text reads as `i64::MIN` after its own minus sign, so the value it
/// names, `2^63`, has no `i64`: negating it overflows.
pub open spec fn negation_overflows(s: Seq<char>) -> bool {
    match decimal_fields(s) {
        Some((neg, v, _)) => neg && v == i64::MIN,
        None => false,
    }
}

/// The number a decimal text denotes, if it is one.
pub open spec fn parsed_decimal(s: Seq<char>) -> Option<Float> {
    match decimal_fields(s) {
        Some((neg, v, sc)) => Some(
            Float {
                value: (if neg {
                    -v
                } else {
                    v
                }) as i64,
                scale: sc as i8,
            },
        ),
        None => None,
    }
}

/// An `Option<i64>` read as an `Option<int>`.
pub open spec fn as_int_option(r: Option<i64>) -> Option<int> {
    match r {
        Some(v) => Some(v as int),
        None => None,
    }
}

/// A string of digits names at least what each of its prefixes names.
pub proof fn lemma_digits_value_prefix(t: Seq<char>, k: int)
    requires
        all_digits(t),
        0 <= k <= t.len(),
    ensures
        0 <= digits_value(t.subrange(0, k)) <= digits_value(t),
    decreases t.len(),
{
    if k == t.len() {
        assert(t.subrange(0, k) =~= t);
        lemma_digits_value_nonneg(t);
    } else {
        let u = t.drop_last();
        assert(u.subrange(0, k) =~= t.subrange(0, k));
        assert forall|i: int| 0 <= i < u.len() implies #[trigger] is_digit(u[i]) by {
            assert(is_digit(t[i]));
        }
        lemma_digits_value_prefix(u, k);
        assert(is_digit(t[t.len() - 1]));
    }
}

pub proof fn lemma_digits_value_nonneg(t: Seq<char>)
    requires
        all_digits(t),
    ensures
        digits_value(t) >= 0,
    decreases t.len(),
{
    if t.len() > 0 {
        let u = t.drop_last();
        assert forall|i: int| 0 <= i < u.len() implies #[trigger] is_digit(u[i]) by {
            assert(is_digit(t[i]));
        }
        lemma_digits_value_nonneg(u);
        assert(is_digit(t[t.len() - 1]));
    }
}

/// Reads `t` as `str::parse::<i64>` does.
fn parse_i64_chars(t: &Vec<char>) -> (r: Option<i64>)
    ensures
        as_int_option(r) == parse_i64_text(t@),
{
    let n = t.len();
    let mut i: usize = 0;
    let mut neg = false;
    if n > 0 && t[0] == '-' {
        neg = true;
        i = 1;
    } else if n > 0 && t[0] == '+' {
        i = 1;
    }
    let start = i;
    let ghost ds = t@.subrange(start as int, n as int);
    assert(strip_sign(t@) == (neg, ds)) by {
        if start == 1 {
            assert(t@.drop_first() =~= ds);
        } else {
            assert(t@ =~= ds);
        }
    }
    if i == n {
        return None;
    }
    let mut mag: u128 = 0;
    while i < n
        invariant
            start <= i <= n,
            n == t.len(),
            ds == t@.subrange(start as int, n as int),
            strip_sign(t@) == (neg, ds),
            start < n,
            forall|j: int| start <= j < i ==> #[trigger] is_digit(t@[j]),
            mag == digits_value(t@.subrange(start as int, i as int)),
            mag <= 0x8000_0000_0000_0000,
        decreases n - i,
    {
        let u = t[i] as u32;
        if u < 48 || u > 57 {
            assert(!is_digit(ds[i - start]));
            return None;
        }
        let ghost before = t@.subrange(start as int, i as int);
        assert(t@.subrange(start as int, i + 1).drop_last() =~= before);
        mag = mag * 10 + (u - 48) as u128;
        i = i + 1;
        if mag > 0x8000_0000_0000_0000 {
            proof {
                if all_digits(ds) {
                    assert(ds.subrange(0, i - start) =~= t@.subrange(start as int, i as int));
                    lemma_digits_value_prefix(ds, i - start);
                }
            }
            return None;
        }
    }
    assert(ds =~= t@.subrange(start as int, i as int));
    if neg {
        if mag == 0x8000_0000_0000_0000 {
            Some(i64::MIN)
        } else {
            Some(-(mag as i64))
        }
    } else if mag > 0x7fff_ffff_ffff_ffff {
        None
    } else {
        Some(mag as i64)
    }
}

/// The first `.` of a text is where `first_dot` points.
pub proof fn lemma_first_dot(t: Seq<char>, i: int)
    requires
        is_first_dot(t, i),
    ensures
        has_dot(t),
        first_dot(t) == i,
{
    let k = first_dot(t);
    assert(is_first_dot(t, k));
    if k < i {
        assert(t[k] != '.');
    } else if i < k {
        assert(t[i] != '.');
    }
}

/// Trimming the front leaves a suffix.
pub proof fn lemma_trim_start_suffix(s: Seq<char>) -> (k: int)
    ensures
        0 <= k <= s.len(),
        trim_start(s) == s.subrange(k, s.len() as int),
    decreases s.len(),
{
    if s.len() > 0 && is_white(s[0]) {
        let k1 = lemma_trim_start_suffix(s.drop_first());
        assert(s.drop_first().subrange(k1, s.len() - 1) =~= s.subrange(k1 + 1, s.len() as int));
        k1 + 1
    } else {
        assert(s.subrange(0, s.len() as int) =~= s);
        0
    }
}

/// Trimming the end leaves a prefix.
pub proof fn lemma_trim_end_prefix(s: Seq<char>) -> (k: int)
    ensures
        0 <= k <= s.len(),
        trim_end(s) == s.subrange(0, k),
    decreases s.len(),
{
    if s.len() > 0 && is_white(s.last()) {
        let k1 = lemma_trim_end_prefix(s.drop_last());
        assert(s.drop_last().subrange(0, k1) =~= s.subrange(0, k1));
        k1
    } else {
        assert(s.subrange(0, s.len() as int) =~= s);
        s.len() as int
    }
}

/// A trimmed text is a piece of the text.
pub proof fn lemma_trim_subrange(s: Seq<char>) -> (r: (int, int))
    ensures
        0 <= r.0 <= r.1 <= s.len(),
        trim(s) == s.subrange(r.0, r.1),
{
    let a = lemma_trim_start_suffix(s);
    let u = s.subrange(a, s.len() as int);
    let b = lemma_trim_end_prefix(u);
    assert(u.subrange(0, b) =~= s.subrange(a, a + b));
    (a, a + b)
}

/// A text with no minus sign reads as a number that is not negative.
proof fn lemma_parse_unsigned_text(x: Seq<char>)
    requires
        forall|i: int| 0 <= i < x.len() ==> x[i] != '-',
    ensures
        parse_i64_text(x) matches Some(v) ==> v >= 0,
{
    let (neg, ds) = strip_sign(x);
    if parse_i64_text(x) is Some {
        lemma_digits_value_nonneg(ds);
    }
}

/// After its sign, a text with no minus sign reads as a number that is not
/// negative.
proof fn lemma_unsigned_fields_nonneg(num: Seq<char>)
    requires
        forall|i: int| 0 <= i < num.len() ==> num[i] != '-',
    ensures
        unsigned_fields(num) matches Some((v, _)) ==> v >= 0,
{
    if has_dot(num) {
        let d = first_dot(num);
        lemma_has_first_dot(num);
        let ip = num.subrange(0, d);
        let fp = num.subrange(d + 1, num.len() as int);
        lemma_parse_unsigned_text(fp);
        let joined = ip + fp;
        assert forall|i: int| 0 <= i < joined.len() implies joined[i] != '-' by {
            if i < ip.len() {
                assert(joined[i] == num[i]);
            } else {
                assert(joined[i] == num[i + 1]);
            }
        }
        lemma_parse_unsigned_text(joined);
    } else {
        lemma_parse_unsigned_text(num);
    }
}

/// A text with no minus sign past its first character never reads as the
/// negation of `i64::MIN`.
pub proof fn lemma_no_inner_minus_reads_safely(s: Seq<char>)
    requires
        forall|i: int| 1 <= i < s.len() ==> s[i] != '-',
    ensures
        !negation_overflows(s),
{
    let (a, b) = lemma_trim_subrange(s);
    let t = trim(s);
    if t.len() > 0 {
        let (neg, num) = strip_sign(t);
        if neg {
            assert forall|i: int| 0 <= i < num.len() implies num[i] != '-' by {
                assert(num[i] == s[a + i + 1]);
            }
            lemma_unsigned_fields_nonneg(num);
        }
    }
}

/// A text with a `.` has a first one.
pub proof fn lemma_has_first_dot(t: Seq<char>)
    requires
        has_dot(t),
    ensures
        is_first_dot(t, first_dot(t)),
{
    let i = choose|i: int| 0 <= i < t.len() && t[i] == '.';
    lemma_dot_before(t, i);
}

proof fn lemma_dot_before(t: Seq<char>, i: int)
    requires
        0 <= i < t.len(),
        t[i] == '.',
    ensures
        exists|k: int| is_first_dot(t, k),
    decreases i,
{
    if exists|j: int| 0 <= j < i && t[j] == '.' {
        let j = choose|j: int| 0 <= j < i && t[j] == '.';
        lemma_dot_before(t, j);
    } else {
        assert(is_first_dot(t, i));
    }
}

/// Digit strings put side by side read as the first shifted left by the
/// length of the second, plus the second.
pub proof fn lemma_digits_value_concat(x: Seq<char>, y: Seq<char>)
    ensures
        digits_value(x + y) == digits_value(x) * crate::arith::pow10(y.len()) + digits_value(y),
    decreases y.len(),
{
    if y.len() == 0 {
        assert(x + y =~= x);
        vstd::arithmetic::power::lemma_pow0(10);
    } else {
        let y1 = y.drop_last();
        assert((x + y).drop_last() =~= x + y1);
        assert((x + y).last() == y.last());
        lemma_digits_value_concat(x, y1);
        crate::arith::lemma_pow10_succ(y1.len());
        let p = crate::arith::pow10(y1.len());
        let dx = digits_value(x);
        let dy1 = digits_value(y1);
        assert((dx * p + dy1) * 10 == dx * (10 * p) + dy1 * 10) by (nonlinear_arith);
    }
}

/// Text with no white space is its own trim.
pub proof fn lemma_trim_plain(t: Seq<char>)
    requires
        forall|i: int| 0 <= i < t.len() ==> !is_white(#[trigger] t[i]),
    ensures
        trim(t) == t,
{
    if t.len() > 0 {
        assert(!is_white(t[0]));
        assert(!is_white(t[t.len() - 1]));
    }
}

fn is_white_char(c: char) -> (b: bool)
    ensures
        b == is_white(c),
{
    let u = c as u32;
    (0x9 <= u && u <= 0xd) || u == 0x20 || u == 0x85 || u == 0xa0 || u == 0x1680 || (0x2000 <= u
        && u <= 0x200a) || u == 0x2028 || u == 0x2029 || u == 0x202f || u == 0x205f || u == 0x3000
}

/// The characters of `s`, in order.
pub(crate) fn chars_of(s: &str) -> (r: Vec<char>)
    ensures
        r@ == s@,
{
    let mut r: Vec<char> = Vec::new();
    for c in it: s.chars()
        invariant
            r@ == it.seq().take(it.index() as int),
    {
        r.push(c);
    }
    r
}

/// `cs[a..b]` as a vector of its own.
pub(crate) fn copy_range(cs: &Vec<char>, a: usize, b: usize) -> (r: Vec<char>)
    requires
        a <= b <= cs.len(),
    ensures
        r@ == cs@.subrange(a as int, b as int),
{
    let mut r: Vec<char> = Vec::new();
    let mut i = a;
    while i < b
        invariant
            a <= i <= b <= cs.len(),
            r@ == cs@.subrange(a as int, i as int),
        decreases b - i,
    {
        r.push(cs[i]);
        i = i + 1;
        assert(r@ =~= cs@.subrange(a as int, i as int));
    }
    r
}

/// Appends `cs[a..b]` to `out`.
pub(crate) fn append_range(out: &mut Vec<char>, cs: &Vec<char>, a: usize, b: usize)
    requires
        a <= b <= cs.len(),
    ensures
        final(out)@ == old(out)@ + cs@.subrange(a as int, b as int),
{
    let mut i = a;
    while i < b
        invariant
            a <= i <= b <= cs.len(),
            out@ == old(out)@ + cs@.subrange(a as int, i as int),
        decreases b - i,
    {
        out.push(cs[i]);
        i = i + 1;
        assert(out@ =~= old(out)@ + cs@.subrange(a as int, i as int));
    }
}

/// The position of the first `.` in `cs[a..b]`, counted from the start of `cs`.
pub(crate) fn find_dot(cs: &Vec<char>, a: usize, b: usize) -> (r: Option<usize>)
    requires
        a <= b <= cs.len(),
    ensures
        r matches Some(d) ==> a <= d < b && is_first_dot(cs@.subrange(a as int, b as int), d - a),
        r is None ==> !has_dot(cs@.subrange(a as int, b as int)),
{
    let ghost t = cs@.subrange(a as int, b as int);
    let mut i = a;
    while i < b
        invariant
            a <= i <= b <= cs.len(),
            t == cs@.subrange(a as int, b as int),
            forall|j: int| 0 <= j < i - a ==> t[j] != '.',
        decreases b - i,
    {
        if cs[i] == '.' {
            return Some(i);
        }
        i = i + 1;
    }
    None
}

/// `n as i8`.
fn wrap_to_i8(n: usize) -> (r: i8)
    ensures
        r == wrap_i8(n as nat),
{
    let m = (n % 256) as i16;
    if m >= 128 {
        (m - 256) as i8
    } else {
        m as i8
    }
}

/// The bounds of `cs` without its leading and trailing white space.
fn trim_bounds(cs: &Vec<char>) -> (r: (usize, usize))
    ensures
        r.0 <= r.1 <= cs.len(),
        trim(cs@) == cs@.subrange(r.0 as int, r.1 as int),
{
    let n = cs.len();
    let mut lo: usize = 0;
    assert(cs@.subrange(0, n as int) =~= cs@);
    while lo < n && is_white_char(cs[lo])
        invariant
            lo <= n,
            n == cs.len(),
            trim_start(cs@) == trim_start(cs@.subrange(lo as int, n as int)),
        decreases n - lo,
    {
        assert(cs@.subrange(lo as int, n as int).drop_first() =~= cs@.subrange(lo + 1, n as int));
        lo = lo + 1;
    }
    assert(trim_start(cs@) == cs@.subrange(lo as int, n as int)) by {
        if lo == n {
            assert(cs@.subrange(lo as int, n as int).len() == 0);
        }
    }
    let mut hi = n;
    while hi > lo && is_white_char(cs[hi - 1])
        invariant
            lo <= hi <= n,
            n == cs.len(),
            trim_end(cs@.subrange(lo as int, n as int)) == trim_end(
                cs@.subrange(lo as int, hi as int),
            ),
        decreases hi,
    {
        assert(cs@.subrange(lo as int, hi as int).drop_last() =~= cs@.subrange(lo as int, hi - 1));
        hi = hi - 1;
    }
    assert(trim_end(cs@.subrange(lo as int, hi as int)) == cs@.subrange(lo as int, hi as int)) by {
        if hi == lo {
            assert(cs@.subrange(lo as int, hi as int).len() == 0);
        }
    }
    (lo, hi)
}

/// An `Option<(i64, i8)>` read as integers.
pub open spec fn as_fields(r: Option<(i64, i8)>) -> Option<(int, int)> {
    match r {
        Some((v, sc)) => Some((v as int, sc as int)),
        None => None,
    }
}

/// Reads `cs[start..hi]`, whose first `.` stands at `d`.
fn read_dotted(cs: &Vec<char>, start: usize, d: usize, hi: usize) -> (r: Option<(i64, i8)>)
    requires
        start <= d < hi <= cs.len(),
        is_first_dot(cs@.subrange(start as int, hi as int), d - start),
    ensures
        as_fields(r) == unsigned_fields(cs@.subrange(start as int, hi as int)),
{
    let ghost num = cs@.subrange(start as int, hi as int);
    proof {
        lemma_first_dot(num, d - start);
    }
    let ghost ip = num.subrange(0, d - start);
    let ghost fp = num.subrange(d - start + 1, num.len() as int);
    assert(ip =~= cs@.subrange(start as int, d as int));
    assert(fp =~= cs@.subrange(d + 1, hi as int));
    if find_dot(cs, d + 1, hi).is_some() {
        return None;
    }
    let flen = hi - d - 1;
    let scale = wrap_to_i8(flen);
    let is_zero_whole = d - start == 1 && cs[start] == '0';
    assert(is_zero_whole == (ip =~= seq!['0']));
    let parsed: Option<i64> = if is_zero_whole {
        if flen == 0 {
            Some(0)
        } else {
            let frac = copy_range(cs, d + 1, hi);
            parse_i64_chars(&frac)
        }
    } else if (d - start) + flen > 25 {
        None
    } else {
        let mut combined = copy_range(cs, start, d);
        append_range(&mut combined, cs, d + 1, hi);
        assert(combined@ =~= ip + fp);
        parse_i64_chars(&combined)
    };
    match parsed {
        Some(v) => Some((v, scale)),
        None => None,
    }
}

/// Reads `cs[start..hi]`, the text after its sign.
fn read_unsigned(cs: &Vec<char>, start: usize, hi: usize) -> (r: Option<(i64, i8)>)
    requires
        start <= hi <= cs.len(),
    ensures
        as_fields(r) == unsigned_fields(cs@.subrange(start as int, hi as int)),
{
    match find_dot(cs, start, hi) {
        Some(d) => read_dotted(cs, start, d, hi),
        None => {
            if start == hi {
                return None;
            }
            let whole = copy_range(cs, start, hi);
            match parse_i64_chars(&whole) {
                Some(v) => Some((v, 0)),
                None => None,
            }
        },
    }
}

/// An `Option<(bool, i64, i8)>` read as integers.
pub open spec fn as_signed_fields(r: Option<(bool, i64, i8)>) -> Option<(bool, int, int)> {
    match r {
        Some((neg, v, sc)) => Some((neg, v as int, sc as int)),
        None => None,
    }
}

/// Reads the characters `cs` into their sign, integer and scale.
fn read_decimal_fields(cs: &Vec<char>) -> (r: Option<(bool, i64, i8)>)
    ensures
        as_signed_fields(r) == decimal_fields(cs@),
{
    let (lo, hi) = trim_bounds(cs);
    let ghost t = cs@.subrange(lo as int, hi as int);
    if lo == hi {
        return None;
    }
    let mut start = lo;
    let mut neg = false;
    if cs[lo] == '-' {
        neg = true;
        start = lo + 1;
    } else if cs[lo] == '+' {
        start = lo + 1;
    }
    let ghost num = cs@.subrange(start as int, hi as int);
    assert(strip_sign(t) == (neg, num)) by {
        if start == lo + 1 {
            assert(t.drop_first() =~= num);
        } else {
            assert(t =~= num);
        }
    }
    match read_unsigned(cs, start, hi) {
        Some((v, scale)) => Some((neg, v, scale)),
        None => None,
    }
}

/// Reads the characters `cs` as a decimal number.
pub(crate) fn read_decimal_chars(cs: &Vec<char>) -> (r: Option<Float>)
    requires
        !negation_overflows(cs@),
    ensures
        r == parsed_decimal(cs@),
{
    match read_decimal_fields(cs) {
        Some((neg, v, scale)) => {
            let value = if neg {
                -v
            } else {
                v
            };
            Some(Float::new(value, scale))
        },
        None => None,
    }
}

/// Whether reading `s` would have to negate `i64::MIN`, as `"--9223372036854775808"`
/// does: such a text has no value, and `Float::from_str` refuses it.
pub fn negation_overflows_in(s: &str) -> (r: bool)
    ensures
        r == negation_overflows(s@),
{
    let cs = chars_of(s);
    match read_decimal_fields(&cs) {
        Some((neg, v, _)) => neg && v == i64::MIN,
        None => false,
    }
}

impl Float {
    /// Reads a decimal number such as `"123.456"`, `"-0.25"` or `" +1500 "`.
    ///
    /// White space around the text is ignored. Without a point the number is
    /// whole and its scale is 0 (`"123000"` is 123000 at scale 0); with one,
    /// the scale is the number of digits after it (`"123.000"` is 123000 at
    /// scale 3). `None` when the text is no such number or its value does not
    /// fit in an `i64`.
    pub fn from_str(s: &str) -> (r: Option<Self>)
        requires
            !negation_overflows(s@),
        ensures
            r == parsed_decimal(s@),
    {
        let cs = chars_of(s);
        read_decimal_chars(&cs)
    }
}

} // verus!
