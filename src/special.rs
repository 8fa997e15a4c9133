//! The special values spelled as words: `inf`, `infinity` and `nan`.
use vstd::prelude::*;

use crate::reader::{byte_at, sign_len, Reader, ASCII_MINUS, ASCII_PLUS};

verus! {

pub const ASCII_UPPER_A: u8 = 0x41;

pub const ASCII_UPPER_Z: u8 = 0x5a;

/// ASCII upper-case letters map to lower case, every other byte to itself.
pub open spec fn ascii_lower(b: u8) -> u8 {
    if ASCII_UPPER_A <= b <= ASCII_UPPER_Z {
        (b + 0x20) as u8
    } else {
        b
    }
}

pub fn to_ascii_lower(b: u8) -> (r: u8)
    ensures
        r == ascii_lower(b),
{
    if ASCII_UPPER_A <= b && b <= ASCII_UPPER_Z {
        b + 0x20
    } else {
        b
    }
}

/// Whether text byte `b` matches the lower-case pattern byte `c`.
pub open spec fn folds_to(b: u8, c: u8) -> bool {
    b != 0 && ascii_lower(b) == c
}

/// Whether the `k` bytes from position `i` match the first `k` bytes of
/// `word`, ignoring ASCII case.
pub open spec fn matches_word(s: Seq<u8>, i: int, word: Seq<u8>, k: int) -> bool {
    forall|j: int| 0 <= j < k ==> folds_to(#[trigger] byte_at(s, i + j), word[j])
}

/// "infinity"
pub open spec fn infinity_word() -> Seq<u8> {
    seq![0x69u8, 0x6e, 0x66, 0x69, 0x6e, 0x69, 0x74, 0x79]
}

/// "nan"
pub open spec fn nan_word() -> Seq<u8> {
    seq![0x6eu8, 0x61, 0x6e]
}

/// Length of the longest common prefix of the text at the cursor and `prefix`,
/// ignoring ASCII case of the text; `prefix` is lower case.
pub fn common_prefix_length(text: Reader, prefix: &[u8]) -> (r: usize)
    requires
        text.wf(),
    ensures
        r <= prefix@.len(),
        matches_word(text.bytes(), text.offset(), prefix@, r as int),
        r < prefix@.len() ==> !folds_to(byte_at(text.bytes(), text.offset() + r), prefix@[r as int]),
{
    let ghost s = text.bytes();
    let ghost i = text.offset();
    let mut cursor = text;
    let mut k: usize = 0;
    while k < prefix.len()
        invariant
            cursor.wf(),
            s == text.bytes(),
            i == text.offset(),
            cursor.bytes() == s,
            cursor.offset() == i + k,
            k <= prefix@.len(),
            matches_word(s, i, prefix@, k as int),
        decreases prefix@.len() - k,
    {
        let c = cursor.get();
        if c == 0 || to_ascii_lower(c) != prefix[k] {
            return k;
        }
        cursor.advance();
        k = k + 1;
    }
    k
}

/// A value that a word, not digits, stands for.
#[derive(PartialEq, Eq, Structural, Clone, Copy, Debug)]
pub enum Special {
    Infinity { is_negative: bool },
    NaN { is_negative: bool },
}

/// The special value spelled at position `i` and the position past it: an
/// optional sign, then `inf`, `infinity` or `nan` in any case.
pub open spec fn special_of(s: Seq<u8>, i: int) -> Option<(Special, int)> {
    let q = i + sign_len(s, i);
    let is_negative = byte_at(s, i) == ASCII_MINUS;
    if matches_word(s, q, infinity_word(), 8) {
        Some((Special::Infinity { is_negative }, q + 8))
    } else if matches_word(s, q, infinity_word(), 3) && !matches_word(s, q, infinity_word(), 4) {
        Some((Special::Infinity { is_negative }, q + 3))
    } else if matches_word(s, q, nan_word(), 3) {
        Some((Special::NaN { is_negative }, q + 3))
    } else {
        None
    }
}

/// Reads a special value at the cursor.
pub fn read_inf_or_nan(p: Reader) -> (r: Option<(Special, usize)>)
    requires
        p.wf(),
    ensures
        r matches Some((v, end)) ==> special_of(p.bytes(), p.offset()) == Some((v, end as int)),
        r is None ==> special_of(p.bytes(), p.offset()) is None,
{
    let ghost s = p.bytes();
    let ghost i = p.offset();
    let mut p = p;
    let first = p.get();
    let is_negative = first == ASCII_MINUS;
    if first == ASCII_PLUS || first == ASCII_MINUS {
        p.advance();
    }
    let ghost q = p.offset();
    assert(q == i + sign_len(s, i));
    let infinity: [u8; 8] = [0x69, 0x6e, 0x66, 0x69, 0x6e, 0x69, 0x74, 0x79];
    let nan: [u8; 3] = [0x6e, 0x61, 0x6e];
    assert(infinity@ =~= infinity_word());
    assert(nan@ =~= nan_word());

    let len = common_prefix_length(p, &infinity);
    if len == 3 || len == 8 {
        proof {
            if len == 3 {
                assert(!matches_word(s, q, infinity_word(), 8)) by {
                    assert(!folds_to(byte_at(s, q + 3), infinity_word()[3]));
                }
                assert(!matches_word(s, q, infinity_word(), 4)) by {
                    assert(!folds_to(byte_at(s, q + 3), infinity_word()[3]));
                }
            }
        }
        assert(byte_at(s, q + (len - 1)) != 0);
        let end = p.position() + len;
        return Some((Special::Infinity { is_negative }, end));
    }
    proof {
        if matches_word(s, q, infinity_word(), 8) {
            assert(folds_to(byte_at(s, q + len), infinity_word()[len as int]));
        }
        if matches_word(s, q, infinity_word(), 3) && !matches_word(s, q, infinity_word(), 4) {
            if len < 3 {
                assert(folds_to(byte_at(s, q + len), infinity_word()[len as int]));
            } else {
                assert(matches_word(s, q, infinity_word(), 4)) by {
                    assert forall|j: int| 0 <= j < 4 implies folds_to(
                        #[trigger] byte_at(s, q + j),
                        infinity_word()[j],
                    ) by {
                        assert(byte_at(s, q + j) == byte_at(s, q + j));
                    }
                }
            }
        }
    }
    let len = common_prefix_length(p, &nan);
    if len == 3 {
        assert(byte_at(s, q + 2) != 0);
        let end = p.position() + len;
        return Some((Special::NaN { is_negative }, end));
    }
    proof {
        if matches_word(s, q, nan_word(), 3) {
            assert(folds_to(byte_at(s, q + len), nan_word()[len as int]));
        }
    }
    None
}

} // verus!
