//! Reading the text that a binary floating-point number prints as.
//!
//! A number such as `0.1 + 0.2` prints with sixteen places as
//! `0.3000000000000000444`-like text whose tail is noise. A run of seven
//! zeros in the fraction cuts the text there; a run of seven nines asks for
//! the number to be printed again, rounded to the places before the run.
//! The printing itself is left to the caller; this module decides.
use crate::decimal::Float;
use crate::parse::{chars_of, first_dot, has_dot, lemma_first_dot, parsed_decimal};
use vstd::prelude::*;
use vstd::string::StringSliceAdditionalSpecFns;

verus! {

/// What to do with the sixteen-place text of a floating-point number.
#[derive(Debug, Clone, Copy, PartialEq, Eq)]
pub enum FixedTextStep {
    /// The number is read; `None` when the text is no number.
    Read(Option<Float>),
    /// Print the number again with `precision` places and read that text
    /// with `Float::from_rounded_text`.
    Reprint { precision: usize },
    /// The text is in exponent form: print the number with fourteen places
    /// and read that with `Float::from_scientific_text`.
    Scientific,
}

/// Text a number printer may give: ASCII, with a sign only in front.
pub open spec fn printed_number_text(s: Seq<char>) -> bool {
    &&& vstd::utf8::is_ascii_chars(s)
    &&& forall|i: int| 1 <= i < s.len() ==> s[i] != '-' && s[i] != '+'
}

/// Seven copies of `c` start at `i` in `t`.
pub open spec fn run_at(t: Seq<char>, c: char, i: int) -> bool {
    &&& 0 <= i
    &&& i + 7 <= t.len()
    &&& forall|k: int| 0 <= k < 7 ==> #[trigger] t[i + k] == c
}

pub open spec fn has_run(t: Seq<char>, c: char) -> bool {
    exists|i: int| run_at(t, c, i)
}

pub open spec fn is_first_run(t: Seq<char>, c: char, i: int) -> bool {
    run_at(t, c, i) && forall|j: int| 0 <= j < i ==> !run_at(t, c, j)
}

/// Where the first run of seven `c` starts in `t`.
pub open spec fn first_run(t: Seq<char>, c: char) -> int {
    choose|i: int| is_first_run(t, c, i)
}

pub open spec fn has_char(t: Seq<char>, c: char) -> bool {
    exists|i: int| 0 <= i < t.len() && t[i] == c
}

/// What the sixteen-place text `s` of a number leads to.
pub open spec fn fixed_text_step(s: Seq<char>) -> FixedTextStep {
    if s.len() > 32 {
        FixedTextStep::Read(None)
    } else if has_char(s, 'e') || has_char(s, 'E') {
        FixedTextStep::Scientific
    } else if has_dot(s) {
        let d = first_dot(s);
        let fp = s.subrange(d + 1, s.len() as int);
        if has_run(fp, '0') {
            FixedTextStep::Read(
                parsed_decimal(s.subrange(0, d) + seq!['.'] + fp.subrange(0, first_run(fp, '0'))),
            )
        } else if has_run(fp, '9') {
            FixedTextStep::Reprint { precision: first_run(fp, '9') as usize }
        } else {
            FixedTextStep::Read(parsed_decimal(s))
        }
    } else {
        FixedTextStep::Read(parsed_decimal(s))
    }
}

/// `s` without any of the character `c` at its end.
pub open spec fn trim_end_char(s: Seq<char>, c: char) -> Seq<char>
    decreases s.len(),
{
    if s.len() > 0 && s.last() == c {
        trim_end_char(s.drop_last(), c)
    } else {
        s
    }
}

/// The first run of seven `c` in a text is where `first_run` points.
pub proof fn lemma_first_run(t: Seq<char>, c: char, i: int)
    requires
        is_first_run(t, c, i),
    ensures
        has_run(t, c),
        first_run(t, c) == i,
{
    let k = first_run(t, c);
    assert(is_first_run(t, c, k));
}

/// Whether `c` occurs in `cs`.
fn contains_char(cs: &Vec<char>, c: char) -> (r: bool)
    ensures
        r == has_char(cs@, c),
{
    let mut i: usize = 0;
    while i < cs.len()
        invariant
            i <= cs.len(),
            forall|j: int| 0 <= j < i ==> cs@[j] != c,
        decreases cs.len() - i,
    {
        if cs[i] == c {
            return true;
        }
        i = i + 1;
    }
    false
}

/// Whether seven `c` start at `p`.
fn run_starts_at(cs: &Vec<char>, p: usize, c: char) -> (r: bool)
    requires
        p + 7 <= cs.len(),
    ensures
        r == (forall|k: int| 0 <= k < 7 ==> #[trigger] cs@[p + k] == c),
{
    let mut k: usize = 0;
    while k < 7
        invariant
            k <= 7,
            p + 7 <= cs.len(),
            forall|j: int| 0 <= j < k ==> #[trigger] cs@[p + j] == c,
        decreases 7 - k,
    {
        if cs[p + k] != c {
            return false;
        }
        k = k + 1;
    }
    true
}

/// Where the first run of seven `c` in `cs[a..b]` starts, counted from the
/// start of `cs`.
fn find_run(cs: &Vec<char>, a: usize, b: usize, c: char) -> (r: Option<usize>)
    requires
        a <= b <= cs.len(),
    ensures
        r matches Some(p) ==> a <= p && is_first_run(cs@.subrange(a as int, b as int), c, p - a),
        r is None ==> !has_run(cs@.subrange(a as int, b as int), c),
{
    let ghost t = cs@.subrange(a as int, b as int);
    let mut p = a;
    while b - p >= 7
        invariant
            a <= p <= b,
            b <= cs.len(),
            t == cs@.subrange(a as int, b as int),
            forall|j: int| 0 <= j < p - a ==> !run_at(t, c, j),
        decreases b - p,
    {
        let here = run_starts_at(cs, p, c);
        assert(here == run_at(t, c, p - a)) by {
            if here {
                assert forall|k: int| 0 <= k < 7 implies #[trigger] t[p - a + k] == c by {
                    assert(t[p - a + k] == cs@[p + k]);
                }
            } else {
                let k = choose|k: int| 0 <= k < 7 && #[trigger] cs@[p + k] != c;
                assert(t[p - a + k] == cs@[p + k]);
            }
        }
        if here {
            return Some(p);
        }
        p = p + 1;
    }
    None
}

/// The characters of `cs` with every `c` at the end removed.
fn trim_end_char_vec(cs: &Vec<char>, c: char) -> (r: Vec<char>)
    ensures
        r@ == trim_end_char(cs@, c),
{
    let mut n = cs.len();
    assert(cs@.subrange(0, n as int) =~= cs@);
    while n > 0 && cs[n - 1] == c
        invariant
            n <= cs.len(),
            trim_end_char(cs@, c) == trim_end_char(cs@.subrange(0, n as int), c),
        decreases n,
    {
        assert(cs@.subrange(0, n as int).drop_last() =~= cs@.subrange(0, n - 1));
        n = n - 1;
    }
    crate::parse::copy_range(cs, 0, n)
}

impl Float {
    /// Decides what the sixteen-place text `s` of a floating-point number
    /// (`format!("{:.16}", f)`) reads as.
    ///
    /// Text longer than 32 bytes reads as nothing. A run of seven zeros in
    /// the fraction cuts the fraction there (`0.3000000000000000` reads as
    /// 0.3, and `5000.0000000000000000` as 5000); a run of seven nines asks
    /// for the number to be printed again with as many places as stand
    /// before the run; otherwise the text is read as it is.
    pub fn from_f64_text(s: &str) -> (r: FixedTextStep)
        requires
            printed_number_text(s@),
        ensures
            r == fixed_text_step(s@),
    {
        proof {
            vstd::string::is_ascii_spec_bytes(s);
            assert(s.spec_bytes().len() == s@.len());
        }
        if s.len() > 32 {
            return FixedTextStep::Read(None);
        }
        let cs = chars_of(s);
        let n = cs.len();
        if contains_char(&cs, 'e') || contains_char(&cs, 'E') {
            return FixedTextStep::Scientific;
        }
        assert(cs@.subrange(0, n as int) =~= cs@);
        match crate::parse::find_dot(&cs, 0, n) {
            Some(d) => {
                proof {
                    lemma_first_dot(cs@, d as int);
                }
                let ghost fp = cs@.subrange(d + 1, n as int);
                match find_run(&cs, d + 1, n, '0') {
                    Some(z) => {
                        proof {
                            lemma_first_run(fp, '0', z - d - 1);
                        }
                        let mut clean = crate::parse::copy_range(&cs, 0, d);
                        clean.push('.');
                        crate::parse::append_range(&mut clean, &cs, d + 1, z);
                        assert(clean@ =~= cs@.subrange(0, d as int) + seq!['.'] + fp.subrange(
                            0,
                            z - d - 1,
                        ));
                        proof {
                            crate::parse::lemma_no_inner_minus_reads_safely(clean@);
                        }
                        FixedTextStep::Read(crate::parse::read_decimal_chars(&clean))
                    },
                    None => {
                        match find_run(&cs, d + 1, n, '9') {
                            Some(p) => {
                                proof {
                                    lemma_first_run(fp, '9', p - d - 1);
                                }
                                FixedTextStep::Reprint { precision: p - d - 1 }
                            },
                            None => {
                                proof {
                                    crate::parse::lemma_no_inner_minus_reads_safely(cs@);
                                }
                                FixedTextStep::Read(crate::parse::read_decimal_chars(&cs))
                            },
                        }
                    },
                }
            },
            None => {
                proof {
                    crate::parse::lemma_no_inner_minus_reads_safely(cs@);
                }
                FixedTextStep::Read(crate::parse::read_decimal_chars(&cs))
            },
        }
    }

    /// Reads the text of a floating-point number printed again with fewer
    /// places (`format!("{:.p$}", f)`); text longer than 32 bytes reads as
    /// nothing.
    pub fn from_rounded_text(s: &str) -> (r: Option<Self>)
        requires
            printed_number_text(s@),
        ensures
            s@.len() > 32 ==> r is None,
            s@.len() <= 32 ==> r == parsed_decimal(s@),
    {
        proof {
            vstd::string::is_ascii_spec_bytes(s);
            assert(s.spec_bytes().len() == s@.len());
        }
        let cs = chars_of(s);
        if s.len() > 32 {
            return None;
        }
        proof {
            crate::parse::lemma_no_inner_minus_reads_safely(s@);
        }
        crate::parse::read_decimal_chars(&cs)
    }

    /// Reads the fourteen-place text of a floating-point number
    /// (`format!("{:.14}", f)`) with its trailing zeros, and then any trailing
    /// points, removed; text longer than 64 bytes reads as nothing.
    pub fn from_scientific_text(s: &str) -> (r: Option<Self>)
        requires
            printed_number_text(s@),
        ensures
            s@.len() > 64 ==> r is None,
            s@.len() <= 64 ==> r == parsed_decimal(trim_end_char(trim_end_char(s@, '0'), '.')),
    {
        proof {
            vstd::string::is_ascii_spec_bytes(s);
            assert(s.spec_bytes().len() == s@.len());
        }
        let cs = chars_of(s);
        if s.len() > 64 {
            return None;
        }
        let without_zeros = trim_end_char_vec(&cs, '0');
        let trimmed = trim_end_char_vec(&without_zeros, '.');
        proof {
            lemma_trim_end_char_prefix(cs@, '0');
            lemma_trim_end_char_prefix(without_zeros@, '.');
            crate::parse::lemma_no_inner_minus_reads_safely(trimmed@);
        }
        crate::parse::read_decimal_chars(&trimmed)
    }
}

/// Removing characters from the end leaves a prefix.
pub proof fn lemma_trim_end_char_prefix(s: Seq<char>, c: char)
    ensures
        trim_end_char(s, c).len() <= s.len(),
        forall|i: int| 0 <= i < trim_end_char(s, c).len() ==> #[trigger] trim_end_char(s, c)[i] == s[i],
    decreases s.len(),
{
    if s.len() > 0 && s.last() == c {
        lemma_trim_end_char_prefix(s.drop_last(), c);
    }
}

} // verus!
