//! How a power of ten is applied in steps that are each exact in a double.
use vstd::prelude::*;

verus! {

/// The largest power of ten that a double holds exactly.
pub const LAST_ACCURACY_EXPONENT_10: usize = 22;

pub open spec fn abs(e: int) -> int {
    if e < 0 {
        -e
    } else {
        e
    }
}

/// Splits the power of ten `10^e` into `chunks` factors of `10^22` and a last
/// factor `10^rest`, to be multiplied in when `e` is positive and divided out
/// when it is negative. The last factor takes between 1 and 22 powers, so
/// that every chunk but the last is a full one.
pub fn split_scale(e: isize) -> (r: (usize, usize))
    ensures
        r.0 * LAST_ACCURACY_EXPONENT_10 + r.1 == abs(e as int),
        e == 0 ==> r.1 == 0,
        e != 0 ==> 1 <= r.1 <= LAST_ACCURACY_EXPONENT_10,
{
    if e == 0 {
        return (0, 0);
    }
    // |e| - 1, computed without overflow
    let a: usize = if e > 0 {
        (e - 1) as usize
    } else {
        (-(e + 1)) as usize
    };
    let chunks = a / LAST_ACCURACY_EXPONENT_10;
    let rest = a % LAST_ACCURACY_EXPONENT_10 + 1;
    assert(chunks * LAST_ACCURACY_EXPONENT_10 + a % LAST_ACCURACY_EXPONENT_10 == a) by (
    nonlinear_arith)
        requires
            chunks == a / LAST_ACCURACY_EXPONENT_10,
            LAST_ACCURACY_EXPONENT_10 == 22,
    ;
    (chunks, rest)
}

} // verus!
