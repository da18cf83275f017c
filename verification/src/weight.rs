//! Path weights. A weight is kept as the bit pattern of an IEEE 754 binary64
//! number; sums and decimal numerals are delegated to a software
//! implementation of that arithmetic.

use crate::text::{all_digits, find_in, position_from};
use core::str::FromStr;
use rustc_apfloat::ieee::Double;
use rustc_apfloat::Float;
use vstd::prelude::*;

verus! {

/// A weight: the bit pattern of an IEEE 754 binary64 number.
#[derive(Clone, Copy, Debug, PartialEq, Eq, Hash, Structural)]
pub struct Weight {
    pub bits: u64,
}

/// The binary64 sum, rounded to nearest with ties to even, of the numbers
/// with bit patterns `a` and `b`, as a bit pattern.
pub uninterp spec fn ieee_sum(a: u64, b: u64) -> u64;

/// The bit pattern of the binary64 number nearest to the decimal numeral
/// `text`, where the conversion accepts `text`.
pub uninterp spec fn decimal_bits(text: Seq<char>) -> Option<u64>;

/// `rustc_apfloat`'s `Add` for `Double`, which rounds to nearest, ties to
/// even. The result is a function of the two bit patterns alone; the contract
/// names it and claims nothing else.
#[verifier::external_body]
fn double_add(a: u64, b: u64) -> (r: u64)
    ensures
        r == ieee_sum(a, b),
{
    let x = Double::from_bits(a as u128);
    let y = Double::from_bits(b as u128);
    (x + y).value.to_bits() as u64
}

/// `rustc_apfloat`'s `FromStr` for `Double`, which rounds to nearest, ties to
/// even. The result is a function of the text alone; the contract names it
/// and claims nothing else.
#[verifier::external_body]
fn double_from_decimal(text: &Vec<char>) -> (r: Option<u64>)
    ensures
        r == decimal_bits(text@),
{
    let s: String = text.iter().collect();
    match Double::from_str(&s) {
        Ok(d) => Some(d.to_bits() as u64),
        Err(_) => None,
    }
}

/// The bit pattern of positive infinity.
pub const INFINITY_BITS: u64 = 0x7ff0_0000_0000_0000;

/// The bit pattern of negative infinity.
pub const NEG_INFINITY_BITS: u64 = 0xfff0_0000_0000_0000;

/// The bit pattern of the default quiet NaN.
pub const NAN_BITS: u64 = 0x7ff8_0000_0000_0000;

/// The bit pattern of the default quiet NaN with the sign set.
pub const NEG_NAN_BITS: u64 = 0xfff8_0000_0000_0000;

/// Every bit but the sign.
pub const MAGNITUDE_MASK: u64 = 0x7fff_ffff_ffff_ffff;

impl Weight {
    /// Positive zero.
    pub fn zero() -> (w: Weight)
        ensures
            w.bits == 0,
    {
        Weight { bits: 0 }
    }

    /// The bits below the sign, which order numbers of one sign.
    pub open spec fn magnitude(self) -> int {
        (self.bits & MAGNITUDE_MASK) as int
    }

    /// Whether the sign bit is set.
    pub open spec fn negative(self) -> bool {
        self.bits >> 63 == 1
    }

    /// Whether the weight is zero, of either sign.
    pub open spec fn is_zero(self) -> bool {
        self.bits & MAGNITUDE_MASK == 0
    }

    /// A number that orders weights as their values are ordered: both zeros
    /// get 0, and a NaN lies beyond the infinity of its sign.
    pub open spec fn rank(self) -> int {
        if self.negative() {
            -self.magnitude()
        } else {
            self.magnitude()
        }
    }

    /// Tests whether the weight is zero, of either sign.
    pub fn zero_valued(&self) -> (r: bool)
        ensures
            r == self.is_zero(),
    {
        self.bits & MAGNITUDE_MASK == 0
    }

    /// Tests whether `self` is at most `other` in the order of `rank`.
    pub fn at_most(&self, other: &Weight) -> (r: bool)
        ensures
            r == (self.rank() <= other.rank()),
    {
        let m1 = self.bits & MAGNITUDE_MASK;
        let m2 = other.bits & MAGNITUDE_MASK;
        let n1 = self.bits >> 63 == 1;
        let n2 = other.bits >> 63 == 1;
        if n1 {
            if n2 {
                m2 <= m1
            } else {
                true
            }
        } else {
            if n2 {
                m1 == 0 && m2 == 0
            } else {
                m1 <= m2
            }
        }
    }

    /// The sum of two weights.
    pub fn plus(&self, other: &Weight) -> (w: Weight)
        ensures
            w.bits == ieee_sum(self.bits, other.bits),
    {
        Weight { bits: double_add(self.bits, other.bits) }
    }
}

/// Whether `c` is the lower-case letter `l` or its upper-case form.
pub open spec fn is_letter(c: char, l: char) -> bool {
    c == l || c as u32 + 32 == l as u32
}

/// Whether `s` spells the lower-case word `w`, in any mix of cases.
pub open spec fn spells(s: Seq<char>, w: Seq<char>) -> bool {
    s.len() == w.len() && forall|i: int| 0 <= i < s.len() ==> is_letter(#[trigger] s[i], w[i])
}

/// The number of leading sign characters of `s`: one or none.
pub open spec fn sign_len(s: Seq<char>) -> int {
    if s.len() > 0 && (s[0] == '+' || s[0] == '-') {
        1
    } else {
        0
    }
}

/// Where the exponent marker stands in `s`, or the length of `s`.
pub open spec fn exponent_mark(s: Seq<char>) -> int {
    let lower = position_from(s, 'e', 0);
    let upper = position_from(s, 'E', 0);
    if lower <= upper {
        lower
    } else {
        upper
    }
}

/// Digits, digits with a point after or among them, or a point before
/// digits.
pub open spec fn is_mantissa(m: Seq<char>) -> bool {
    let dot = position_from(m, '.', 0);
    if dot >= m.len() {
        m.len() > 0 && all_digits(m)
    } else {
        m.len() > 1 && all_digits(m.subrange(0, dot)) && all_digits(
            m.subrange(dot + 1, m.len() as int),
        )
    }
}

/// An optional sign, then one or more digits.
pub open spec fn is_exponent(x: Seq<char>) -> bool {
    let digits = x.subrange(sign_len(x), x.len() as int);
    digits.len() > 0 && all_digits(digits)
}

/// An unsigned decimal number: a mantissa, then optionally `e` or `E` and an
/// exponent.
pub open spec fn is_number(s: Seq<char>) -> bool {
    let mark = exponent_mark(s);
    is_mantissa(s.subrange(0, mark)) && (mark >= s.len() || is_exponent(
        s.subrange(mark + 1, s.len() as int),
    ))
}

/// The weight that a decimal field denotes: after an optional sign either
/// `inf`, `infinity` or `nan` in any mix of cases, or a decimal number, whose
/// value is the nearest binary64 number.
pub open spec fn weight_of_text(s: Seq<char>) -> Option<Weight> {
    let body = s.subrange(sign_len(s), s.len() as int);
    let minus = s.len() > 0 && s[0] == '-';
    if spells(body, seq!['i', 'n', 'f']) || spells(
        body,
        seq!['i', 'n', 'f', 'i', 'n', 'i', 't', 'y'],
    ) {
        Some(
            Weight {
                bits: if minus {
                    NEG_INFINITY_BITS
                } else {
                    INFINITY_BITS
                },
            },
        )
    } else if spells(body, seq!['n', 'a', 'n']) {
        Some(
            Weight {
                bits: if minus {
                    NEG_NAN_BITS
                } else {
                    NAN_BITS
                },
            },
        )
    } else if is_number(body) {
        match decimal_bits(s) {
            Some(bits) => Some(Weight { bits }),
            None => None,
        }
    } else {
        None
    }
}

fn spells_word(s: &Vec<char>, from: usize, w: &Vec<char>) -> (r: bool)
    requires
        from <= s.len(),
    ensures
        r == spells(s@.subrange(from as int, s.len() as int), w@),
{
    let ghost body = s@.subrange(from as int, s.len() as int);
    if s.len() - from != w.len() {
        return false;
    }
    let mut i: usize = 0;
    while i < w.len()
        invariant
            i <= w.len(),
            from + w.len() == s.len(),
            body == s@.subrange(from as int, s.len() as int),
            forall|j: int| 0 <= j < i ==> is_letter(#[trigger] body[j], w@[j]),
        decreases w.len() - i,
    {
        let c = s[from + i];
        let l = w[i];
        assert(c == body[i as int]);
        let upper: u32 = c as u32;
        let lower: u32 = l as u32;
        if !(c == l || (lower >= 32 && upper == lower - 32)) {
            return false;
        }
        i += 1;
    }
    true
}

fn digits_between(s: &Vec<char>, from: usize, to: usize) -> (r: bool)
    requires
        from <= to <= s.len(),
    ensures
        r == all_digits(s@.subrange(from as int, to as int)),
{
    let ghost run = s@.subrange(from as int, to as int);
    let mut i: usize = from;
    while i < to
        invariant
            from <= i <= to <= s.len(),
            run == s@.subrange(from as int, to as int),
            forall|j: int| 0 <= j < i - from ==> crate::text::is_digit(#[trigger] run[j]),
        decreases to - i,
    {
        let code: u32 = s[i] as u32;
        assert(s@[i as int] == run[i - from]);
        if code < 48 || code > 57 {
            return false;
        }
        i += 1;
    }
    true
}

fn number_between(s: &Vec<char>, from: usize) -> (r: bool)
    requires
        from <= s.len(),
    ensures
        r == is_number(s@.subrange(from as int, s.len() as int)),
{
    let n = s.len();
    let ghost body = s@.subrange(from as int, n as int);
    let lower = find_in(s, 'e', from, n);
    let upper = find_in(s, 'E', from, n);
    let mark = if lower <= upper {
        lower
    } else {
        upper
    };
    assert(mark - from == exponent_mark(body));
    let ghost m = body.subrange(0, mark - from);
    assert(m == s@.subrange(from as int, mark as int));
    let dot = find_in(s, '.', from, mark);
    assert(dot - from == position_from(m, '.', 0));
    let mantissa = if dot >= mark {
        mark > from && digits_between(s, from, mark)
    } else {
        assert(m.subrange(0, dot - from) == s@.subrange(from as int, dot as int));
        assert(m.subrange(dot - from + 1, m.len() as int) == s@.subrange(dot + 1, mark as int));
        mark - from > 1 && digits_between(s, from, dot) && digits_between(s, dot + 1, mark)
    };
    if !mantissa {
        return false;
    }
    if mark >= n {
        return true;
    }
    let ghost x = body.subrange(mark - from + 1, body.len() as int);
    assert(x == s@.subrange(mark + 1, n as int));
    let start = if mark + 1 < n && (s[mark + 1] == '+' || s[mark + 1] == '-') {
        mark + 2
    } else {
        mark + 1
    };
    assert(start - (mark + 1) == sign_len(x));
    assert(x.subrange(sign_len(x), x.len() as int) == s@.subrange(start as int, n as int));
    start < n && digits_between(s, start, n)
}

/// Reads a weight from a decimal field.
pub fn parse_weight(field: &Vec<char>) -> (r: Option<Weight>)
    ensures
        r == weight_of_text(field@),
{
    let n = field.len();
    let from: usize = if n > 0 && (field[0] == '+' || field[0] == '-') {
        1
    } else {
        0
    };
    let minus = n > 0 && field[0] == '-';
    let inf: Vec<char> = vec!['i', 'n', 'f'];
    let infinity: Vec<char> = vec!['i', 'n', 'f', 'i', 'n', 'i', 't', 'y'];
    let nan: Vec<char> = vec!['n', 'a', 'n'];
    assert(inf@ =~= seq!['i', 'n', 'f']);
    assert(infinity@ =~= seq!['i', 'n', 'f', 'i', 'n', 'i', 't', 'y']);
    assert(nan@ =~= seq!['n', 'a', 'n']);
    if spells_word(field, from, &inf) || spells_word(field, from, &infinity) {
        Some(
            Weight {
                bits: if minus {
                    NEG_INFINITY_BITS
                } else {
                    INFINITY_BITS
                },
            },
        )
    } else if spells_word(field, from, &nan) {
        Some(
            Weight {
                bits: if minus {
                    NEG_NAN_BITS
                } else {
                    NAN_BITS
                },
            },
        )
    } else if number_between(field, from) {
        match double_from_decimal(field) {
            Some(bits) => Some(Weight { bits }),
            None => None,
        }
    } else {
        None
    }
}

} // verus!
