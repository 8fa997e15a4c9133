//! The bounded decimal representation of a numeral, and the scanner that
//! fills it.
use vstd::prelude::*;

use crate::reader::{
    byte_at, digit_run_end, is_digit, is_digit_byte, sign_len, zero_run_end, Reader, ASCII_MINUS,
    ASCII_PLUS, ASCII_POINT, ASCII_ZERO,
};

verus! {

/// The most significant decimal digits that a double can hold.
pub const DOUBLE_SIGNIFICANT_DIGITS: usize = 17;

/// Capacity of a `FixedDecimal`: twice what a double can hold.
pub const FIXED_DECIMAL_DIGITS: usize = DOUBLE_SIGNIFICANT_DIGITS * 2;

/// Bound on the magnitude of every exponent kept while scanning.
pub const CLIP_EXPONENT: isize = 1000000;

pub const ASCII_UPPER_E: u8 = 0x45;

pub const ASCII_LOWER_E: u8 = 0x65;

/// A decimal number with at most `FIXED_DECIMAL_DIGITS` significant digits:
/// `digits[0].digits[1]digits[2]... * 10^exponent`, negated when `is_negative`.
/// A scan stores the digits from the first nonzero one on, so no digits
/// stand for zero.
pub struct FixedDecimal {
    pub count: usize,
    pub exponent: isize,
    pub is_negative: bool,
    pub digits: [u8; FIXED_DECIMAL_DIGITS],
}

impl FixedDecimal {
    pub open spec fn wf(&self) -> bool {
        &&& self.count <= FIXED_DECIMAL_DIGITS
        &&& -2 * CLIP_EXPONENT <= self.exponent <= 2 * CLIP_EXPONENT
        &&& forall|j: int| 0 <= j < self.count ==> #[trigger] self.digits@[j] <= 9
        &&& forall|j: int| self.count <= j < FIXED_DECIMAL_DIGITS ==> #[trigger] self.digits@[j] == 0
    }

    /// Whether this holds the numeral that starts at position `i` of `s`.
    pub open spec fn represents(&self, s: Seq<u8>, i: int) -> bool {
        &&& self.wf()
        &&& self.is_negative == (byte_at(s, i) == ASCII_MINUS)
        &&& self.digit_seq() == truncated(significant_digits(s, i))
        &&& self.exponent == numeral_exponent(s, i)
    }

    /// The stored digits, most significant first.
    pub open spec fn digit_seq(&self) -> Seq<u8> {
        self.digits@.take(self.count as int)
    }

    /// The power of ten of the last stored digit: the scale that turns the
    /// stored digits, read as an integer, into the number.
    pub fn scale_exponent(&self) -> (r: isize)
        requires
            self.wf(),
        ensures
            r == self.exponent - self.count + 1,
    {
        self.exponent - self.count as isize + 1
    }

    /// Appends a digit if there is room left; a digit beyond the capacity is dropped.
    pub fn push_digit(&mut self, d: u8)
        requires
            old(self).wf(),
            d <= 9,
        ensures
            final(self).wf(),
            final(self).exponent == old(self).exponent,
            final(self).is_negative == old(self).is_negative,
            final(self).digit_seq() == if old(self).count < FIXED_DECIMAL_DIGITS {
                old(self).digit_seq().push(d)
            } else {
                old(self).digit_seq()
            },
    {
        if self.count < FIXED_DECIMAL_DIGITS {
            self.digits[self.count] = d;
            self.count = self.count + 1;
            assert(self.digit_seq() =~= old(self).digit_seq().push(d));
        }
    }
}

/// The digit values of the bytes in `[a, b)`.
pub open spec fn digit_values(s: Seq<u8>, a: int, b: int) -> Seq<u8> {
    s.subrange(a, b).map_values(|c: u8| (c - ASCII_ZERO) as u8)
}

/// The number that the digits in `[a, b)` spell.
pub open spec fn digits_value(s: Seq<u8>, a: int, b: int) -> int
    decreases b - a,
{
    if b <= a {
        0
    } else {
        digits_value(s, a, b - 1) * 10 + (byte_at(s, b - 1) - ASCII_ZERO)
    }
}

/// At most the first `FIXED_DECIMAL_DIGITS` elements of `d`.
pub open spec fn truncated(d: Seq<u8>) -> Seq<u8> {
    if d.len() <= FIXED_DECIMAL_DIGITS {
        d
    } else {
        d.take(FIXED_DECIMAL_DIGITS as int)
    }
}

pub open spec fn clamp_exponent(e: int) -> int {
    if e > CLIP_EXPONENT {
        CLIP_EXPONENT as int
    } else if e < -CLIP_EXPONENT {
        -CLIP_EXPONENT
    } else {
        e
    }
}

// The parts of a numeral that starts at position `i`:
//   sign, leading zeros [m, z1), significant integer digits [z1, n),
//   point at n, leading fraction zeros [n + 1, z2) when [z1, n) is empty,
//   remaining fraction digits [z2, f), exponent suffix.
/// Start of the mantissa, after an optional sign.
pub open spec fn mantissa_start(s: Seq<u8>, i: int) -> int {
    i + sign_len(s, i)
}

/// End of the leading zeros of the integer part.
pub open spec fn int_lead_end(s: Seq<u8>, i: int) -> int {
    zero_run_end(s, mantissa_start(s, i))
}

/// End of the integer part.
pub open spec fn int_end(s: Seq<u8>, i: int) -> int {
    digit_run_end(s, int_lead_end(s, i))
}

pub open spec fn has_point(s: Seq<u8>, i: int) -> bool {
    byte_at(s, int_end(s, i)) == ASCII_POINT
}

pub open spec fn frac_start(s: Seq<u8>, i: int) -> int {
    int_end(s, i) + 1
}

/// Start of the significant fraction digits: fraction zeros are leading
/// zeros of the number only when the integer part is all zeros.
pub open spec fn frac_lead_end(s: Seq<u8>, i: int) -> int {
    if int_lead_end(s, i) == int_end(s, i) {
        zero_run_end(s, frac_start(s, i))
    } else {
        frac_start(s, i)
    }
}

pub open spec fn frac_end(s: Seq<u8>, i: int) -> int {
    digit_run_end(s, frac_lead_end(s, i))
}

/// End of the mantissa. A second point ends it without being consumed.
pub open spec fn mantissa_end(s: Seq<u8>, i: int) -> int {
    if has_point(s, i) {
        frac_end(s, i)
    } else {
        int_end(s, i)
    }
}

/// Whether the mantissa holds at least one digit.
pub open spec fn has_digits(s: Seq<u8>, i: int) -> bool {
    int_end(s, i) > mantissa_start(s, i) || (has_point(s, i) && frac_end(s, i) > frac_start(s, i))
}

/// The digits of the mantissa from its first nonzero digit on.
pub open spec fn significant_digits(s: Seq<u8>, i: int) -> Seq<u8> {
    digit_values(s, int_lead_end(s, i), int_end(s, i)) + if has_point(s, i) {
        digit_values(s, frac_lead_end(s, i), frac_end(s, i))
    } else {
        Seq::empty()
    }
}

/// The power of ten of the first significant digit of the mantissa, clamped.
pub open spec fn lead_exponent(s: Seq<u8>, i: int) -> int {
    if int_lead_end(s, i) < int_end(s, i) {
        clamp_exponent(int_end(s, i) - int_lead_end(s, i) - 1)
    } else if has_point(s, i) {
        clamp_exponent(-1 - (frac_lead_end(s, i) - frac_start(s, i)))
    } else {
        -1
    }
}

pub open spec fn is_exponent_marker(b: u8) -> bool {
    b == ASCII_LOWER_E || b == ASCII_UPPER_E
}

/// Start of the digits of an exponent suffix whose marker stands at `e`.
pub open spec fn exponent_digits_start(s: Seq<u8>, e: int) -> int {
    e + 1 + sign_len(s, e + 1)
}

/// Whether a complete exponent suffix (marker, optional sign, at least one
/// digit) starts at `e`.
pub open spec fn has_exponent(s: Seq<u8>, e: int) -> bool {
    is_exponent_marker(byte_at(s, e)) && digit_run_end(s, exponent_digits_start(s, e))
        > exponent_digits_start(s, e)
}

/// The signed value of the exponent suffix at `e`, its magnitude clamped; zero
/// when there is no complete suffix.
pub open spec fn exponent_value(s: Seq<u8>, e: int) -> int {
    if has_exponent(s, e) {
        let a = exponent_digits_start(s, e);
        let v = clamp_exponent(digits_value(s, a, digit_run_end(s, a)));
        if byte_at(s, e + 1) == ASCII_MINUS {
            -v
        } else {
            v
        }
    } else {
        0
    }
}

/// Where a numeral that starts at `i` ends: an incomplete exponent suffix is
/// not part of it.
pub open spec fn numeral_end(s: Seq<u8>, i: int) -> int {
    let e = mantissa_end(s, i);
    if has_exponent(s, e) {
        digit_run_end(s, exponent_digits_start(s, e))
    } else {
        e
    }
}

/// The power of ten of the first stored digit of the numeral at `i`.
pub open spec fn numeral_exponent(s: Seq<u8>, i: int) -> int {
    lead_exponent(s, i) + exponent_value(s, mantissa_end(s, i))
}

proof fn lemma_digit_values_push(s: Seq<u8>, a: int, b: int)
    requires
        0 <= a <= b < s.len(),
    ensures
        digit_values(s, a, b + 1) == digit_values(s, a, b).push((s[b] - ASCII_ZERO) as u8),
{
    assert(digit_values(s, a, b + 1) =~= digit_values(s, a, b).push((s[b] - ASCII_ZERO) as u8));
}

proof fn lemma_truncated_push(x: Seq<u8>, d: u8)
    ensures
        truncated(x.push(d)) == if truncated(x).len() < FIXED_DECIMAL_DIGITS {
            truncated(x).push(d)
        } else {
            truncated(x)
        },
{
    if x.len() < FIXED_DECIMAL_DIGITS {
    } else if x.len() == FIXED_DECIMAL_DIGITS {
        assert(x.push(d).take(FIXED_DECIMAL_DIGITS as int) =~= x);
    } else {
        assert(x.push(d).take(FIXED_DECIMAL_DIGITS as int) =~= x.take(FIXED_DECIMAL_DIGITS as int));
    }
}

proof fn lemma_clamp_step(v: int, d: int)
    requires
        v >= 0,
        0 <= d <= 9,
    ensures
        clamp_exponent(clamp_exponent(v) * 10 + d) == clamp_exponent(v * 10 + d),
{
    if v > CLIP_EXPONENT {
        assert(v * 10 + d > CLIP_EXPONENT) by (nonlinear_arith)
            requires
                v > CLIP_EXPONENT,
                d >= 0,
        ;
    }
}

proof fn lemma_digits_value_nonneg(s: Seq<u8>, a: int, b: int)
    requires
        forall|j: int| a <= j < b ==> is_digit(#[trigger] byte_at(s, j)),
    ensures
        digits_value(s, a, b) >= 0,
    decreases b - a,
{
    if b > a {
        lemma_digits_value_nonneg(s, a, b - 1);
    }
}

/// Reads the numeral that starts at the cursor: an optional sign, digits with
/// at most one point, and an optional exponent suffix. Returns the numeral
/// and the position just past it, or `None` when the mantissa has no digit.
pub fn read_fixed_decimal(p: Reader) -> (r: Option<(FixedDecimal, usize)>)
    requires
        p.wf(),
    ensures
        r.is_some() == has_digits(p.bytes(), p.offset()),
        r matches Some((d, end)) ==> d.represents(p.bytes(), p.offset()) && end == numeral_end(
            p.bytes(),
            p.offset(),
        ),
{
    let ghost s = p.bytes();
    let ghost i = p.offset();
    let mut p = p;

    // sign
    let first = p.get();
    let is_negative = first == ASCII_MINUS;
    if first == ASCII_PLUS || first == ASCII_MINUS {
        p.advance();
    }
    let m = p.position();
    assert(m == mantissa_start(s, i));

    let mut decimal = FixedDecimal {
        count: 0,
        exponent: -1,
        is_negative,
        digits: [0u8; FIXED_DECIMAL_DIGITS],
    };
    assert(decimal.digit_seq() =~= Seq::<u8>::empty());

    // leading zeros of the integer part
    while p.get() == ASCII_ZERO
        invariant
            p.wf(),
            p.bytes() == s,
            m <= p.offset(),
            zero_run_end(s, m as int) == zero_run_end(s, p.offset()),
            forall|j: int| m <= j < p.offset() ==> is_digit(#[trigger] byte_at(s, j)),
        decreases s.len() - p.offset(),
    {
        p.advance();
    }
    let ghost z1 = p.offset();
    assert(z1 == int_lead_end(s, i));

    // significant digits of the integer part
    while is_digit_byte(p.get())
        invariant
            p.wf(),
            p.bytes() == s,
            0 <= z1 <= p.offset(),
            digit_run_end(s, z1) == digit_run_end(s, p.offset()),
            forall|j: int| m <= j < p.offset() ==> is_digit(#[trigger] byte_at(s, j)),
            decimal.wf(),
            decimal.is_negative == is_negative,
            decimal.digit_seq() == truncated(digit_values(s, z1, p.offset())),
            decimal.count == decimal.digit_seq().len(),
            decimal.exponent == clamp_exponent(p.offset() - z1 - 1),
        decreases s.len() - p.offset(),
    {
        let ghost pos = p.offset();
        let d = p.get() - ASCII_ZERO;
        decimal.push_digit(d);
        if decimal.exponent < CLIP_EXPONENT {
            decimal.exponent = decimal.exponent + 1;
        }
        proof {
            assert(byte_at(s, pos) != 0);
            lemma_digit_values_push(s, z1, pos);
            lemma_truncated_push(digit_values(s, z1, pos), d);
        }
        p.advance();
    }
    let n = p.position();
    let ghost int_digits = digit_values(s, z1, n as int);
    assert(n == int_end(s, i));
    assert(decimal.count == 0 <==> z1 == n);

    if p.get() == ASCII_POINT {
        p.advance();
        let f0 = p.position();
        if decimal.count == 0 {
            // leading zeros of the fraction
            while p.get() == ASCII_ZERO
                invariant
                    p.wf(),
                    p.bytes() == s,
                    f0 <= p.offset(),
                    zero_run_end(s, f0 as int) == zero_run_end(s, p.offset()),
                    forall|j: int| f0 <= j < p.offset() ==> is_digit(#[trigger] byte_at(s, j)),
                    decimal.wf(),
                    decimal.is_negative == is_negative,
                    decimal.count == 0,
                    decimal.digit_seq() == truncated(int_digits),
                    decimal.exponent == clamp_exponent(-1 - (p.offset() - f0)),
                decreases s.len() - p.offset(),
            {
                if decimal.exponent > -CLIP_EXPONENT {
                    decimal.exponent = decimal.exponent - 1;
                }
                p.advance();
            }
        }
        let ghost z2 = p.offset();
        let ghost e0 = decimal.exponent;
        assert(z2 == frac_lead_end(s, i));
        assert(int_digits + digit_values(s, z2, z2) =~= int_digits);

        // remaining digits of the fraction
        while is_digit_byte(p.get())
            invariant
                p.wf(),
                p.bytes() == s,
                0 <= z2 <= p.offset(),
                digit_run_end(s, z2) == digit_run_end(s, p.offset()),
                forall|j: int| f0 <= j < p.offset() ==> is_digit(#[trigger] byte_at(s, j)),
                decimal.wf(),
                decimal.is_negative == is_negative,
                decimal.digit_seq() == truncated(int_digits + digit_values(s, z2, p.offset())),
                decimal.count == decimal.digit_seq().len(),
                decimal.exponent == e0,
            decreases s.len() - p.offset(),
        {
            let ghost pos = p.offset();
            let d = p.get() - ASCII_ZERO;
            decimal.push_digit(d);
            proof {
                assert(byte_at(s, pos) != 0);
                lemma_digit_values_push(s, z2, pos);
                assert(int_digits + digit_values(s, z2, pos + 1) =~= (int_digits + digit_values(
                    s,
                    z2,
                    pos,
                )).push(d));
                lemma_truncated_push(int_digits + digit_values(s, z2, pos), d);
            }
            p.advance();
        }
        assert(p.offset() == frac_end(s, i));
        if !(n > m || p.position() > f0) {
            return None;
        }
    } else {
        if !(n > m) {
            return None;
        }
        assert(int_digits + Seq::<u8>::empty() =~= int_digits);
    }
    assert(decimal.exponent == lead_exponent(s, i));
    assert(decimal.digit_seq() == truncated(significant_digits(s, i)));
    let ghost me = p.offset();
    assert(me == mantissa_end(s, i));

    // exponent suffix, consumed only when it has a digit
    let marker = p.get();
    if marker == ASCII_LOWER_E || marker == ASCII_UPPER_E {
        let mut q = p;
        q.advance();
        let exponent_sign = q.get();
        if exponent_sign == ASCII_PLUS || exponent_sign == ASCII_MINUS {
            q.advance();
        }
        let ghost a = q.offset();
        assert(a == exponent_digits_start(s, me));
        if is_digit_byte(q.get()) {
            let mut value: isize = 0;
            while is_digit_byte(q.get())
                invariant
                    q.wf(),
                    q.bytes() == s,
                    a <= q.offset(),
                    digit_run_end(s, a) == digit_run_end(s, q.offset()),
                    forall|j: int| a <= j < q.offset() ==> is_digit(#[trigger] byte_at(s, j)),
                    value == clamp_exponent(digits_value(s, a, q.offset())),
                    0 <= value <= CLIP_EXPONENT,
                decreases s.len() - q.offset(),
            {
                let ghost pos = q.offset();
                let d = q.get() - ASCII_ZERO;
                proof {
                    lemma_digits_value_nonneg(s, a, pos);
                    lemma_clamp_step(digits_value(s, a, pos), d as int);
                }
                value = value * 10 + d as isize;
                if value > CLIP_EXPONENT {
                    value = CLIP_EXPONENT;
                }
                q.advance();
            }
            if exponent_sign == ASCII_MINUS {
                decimal.exponent = decimal.exponent - value;
            } else {
                decimal.exponent = decimal.exponent + value;
            }
            p = q;
        }
    }
    Some((decimal, p.position()))
}

} // verus!
