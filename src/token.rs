//! The top-level scan: a special value or a numeral, and where it ends.
use vstd::prelude::*;

use crate::decimal::{
    exponent_digits_start, frac_lead_end, frac_start, has_digits, has_exponent, has_point,
    int_lead_end, mantissa_end, mantissa_start, numeral_end, read_fixed_decimal, FixedDecimal,
};
use crate::reader::{byte_at, lemma_digit_run, lemma_zero_run, sign_len, Reader};
use crate::special::{
    folds_to, infinity_word, matches_word, nan_word, read_inf_or_nan, special_of, Special,
};

verus! {

/// What a scan recognises: a special value, or a numeral.
pub enum Token {
    Special(Special),
    Decimal(FixedDecimal),
}

/// Where the token that starts at position `i` ends, if one does.
pub open spec fn token_end(s: Seq<u8>, i: int) -> Option<int> {
    if let Some((_, e)) = special_of(s, i) {
        Some(e)
    } else if has_digits(s, i) {
        Some(numeral_end(s, i))
    } else {
        None
    }
}

/// Reads the token at the cursor: a special value if one is spelled there,
/// else a numeral. Returns it with the position just past it, or `None` when
/// neither starts at the cursor.
pub fn read_token(text: Reader) -> (r: Option<(Token, usize)>)
    requires
        text.wf(),
    ensures
        special_of(text.bytes(), text.offset()) matches Some((v, e)) ==> r matches Some(
            (Token::Special(w), end),
        ) && w == v && end == e,
        special_of(text.bytes(), text.offset()) is None ==> {
            &&& r.is_some() == has_digits(text.bytes(), text.offset())
            &&& r matches Some((t, end)) ==> t matches Token::Decimal(d) && d.represents(
                text.bytes(),
                text.offset(),
            ) && end == numeral_end(text.bytes(), text.offset())
        },
        r matches Some((_, end)) ==> token_end(text.bytes(), text.offset()) == Some(end as int),
        r is None ==> token_end(text.bytes(), text.offset()) is None,
{
    if let Some((value, end)) = read_inf_or_nan(text) {
        Some((Token::Special(value), end))
    } else if let Some((decimal, end)) = read_fixed_decimal(text) {
        Some((Token::Decimal(decimal), end))
    } else {
        None
    }
}

/// A special value spans its sign and its word, none of them a terminator.
proof fn lemma_special_span(s: Seq<u8>, i: int)
    requires
        0 <= i,
        special_of(s, i) is Some,
    ensures
        special_of(s, i) matches Some((_, e)) && i < e && forall|j: int|
            i <= j < e ==> #[trigger] byte_at(s, j) != 0,
{
    let q = i + sign_len(s, i);
    let (_, e) = special_of(s, i)->0;
    let w = if matches_word(s, q, infinity_word(), 3) {
        infinity_word()
    } else {
        nan_word()
    };
    assert forall|j: int| i <= j < e implies #[trigger] byte_at(s, j) != 0 by {
        if j >= q {
            assert(folds_to(byte_at(s, q + (j - q)), w[j - q]));
        }
    }
}

/// A numeral spans its sign, mantissa and complete exponent suffix, none of
/// them a terminator.
proof fn lemma_numeral_span(s: Seq<u8>, i: int)
    requires
        0 <= i,
        has_digits(s, i),
    ensures
        i < numeral_end(s, i),
        forall|j: int| i <= j < numeral_end(s, i) ==> #[trigger] byte_at(s, j) != 0,
{
    let m = mantissa_start(s, i);
    lemma_zero_run(s, m);
    lemma_digit_run(s, int_lead_end(s, i));
    if has_point(s, i) {
        lemma_zero_run(s, frac_start(s, i));
        lemma_digit_run(s, frac_lead_end(s, i));
    }
    let me = mantissa_end(s, i);
    assert(forall|j: int| i <= j < me ==> #[trigger] byte_at(s, j) != 0);
    if has_exponent(s, me) {
        let a = exponent_digits_start(s, me);
        lemma_digit_run(s, a);
        assert(forall|j: int| me <= j < a ==> #[trigger] byte_at(s, j) != 0);
    }
}

/// A token takes at least one byte and stops before the terminator, so a scan
/// started again where a token ended never reads a byte of that token again:
/// whatever it reads lies past the end of the first.
pub proof fn lemma_rescan_after_token(s: Seq<u8>, i: int)
    requires
        0 <= i <= s.len(),
        token_end(s, i) is Some,
    ensures
        token_end(s, i) matches Some(e) && {
            &&& i < e <= s.len()
            &&& forall|j: int| i <= j < e ==> #[trigger] byte_at(s, j) != 0
            &&& token_end(s, e) matches Some(e2) ==> e < e2
        },
{
    lemma_token_span(s, i);
    let e = token_end(s, i)->0;
    if token_end(s, e) is Some {
        lemma_token_span(s, e);
    }
}

proof fn lemma_token_span(s: Seq<u8>, i: int)
    requires
        0 <= i,
        token_end(s, i) is Some,
    ensures
        token_end(s, i) matches Some(e) && i < e <= s.len() && forall|j: int|
            i <= j < e ==> #[trigger] byte_at(s, j) != 0,
{
    if special_of(s, i) is Some {
        lemma_special_span(s, i);
    } else {
        lemma_numeral_span(s, i);
    }
    let e = token_end(s, i)->0;
    assert(byte_at(s, e - 1) != 0);
}

} // verus!
