use vstd::prelude::*;

verus! {

pub open spec fn fits_i64(x: int) -> bool {
    i64::MIN <= x <= i64::MAX
}

pub open spec fn abs(x: int) -> int {
    if x < 0 {
        -x
    } else {
        x
    }
}

/// Integer division rounding toward zero, as Rust's `/` on signed integers does.
pub open spec fn tdiv(a: int, b: int) -> int {
    let q = abs(a) / abs(b);
    if (a < 0) == (b < 0) {
        q
    } else {
        -q
    }
}

proof fn lemma_div_le_dividend(a: int, b: int)
    by (nonlinear_arith)
    requires
        a >= 0,
        b >= 1,
    ensures
        0 <= a / b <= a,
{
}

/// Dividing by a non-zero integer never moves a value away from zero.
pub proof fn lemma_tdiv_within(a: int, b: int)
    requires
        b != 0,
    ensures
        abs(tdiv(a, b)) <= abs(a),
{
    lemma_div_le_dividend(abs(a), abs(b));
}

/// Rust's `a / b` on `i128` (which rounds toward zero), on every input on which it does
/// not panic.
pub fn trunc_div(a: i128, b: i128) -> (r: i128)
    requires
        b != 0,
        !(a == i128::MIN && b == -1),
    ensures
        r == tdiv(a as int, b as int),
{
    let ua: u128 = if a < 0 { ((-(a + 1)) as u128) + 1 } else { a as u128 };
    let ub: u128 = if b < 0 { ((-(b + 1)) as u128) + 1 } else { b as u128 };
    assert(ua == abs(a as int) && ub == abs(b as int));
    let q: u128 = ua / ub;
    proof {
        lemma_div_le_dividend(ua as int, ub as int);
        if q == 0x8000_0000_0000_0000_0000_0000_0000_0000 {
            assert(ub == 1) by (nonlinear_arith)
                requires
                    ub >= 1,
                    ua / ub == 0x8000_0000_0000_0000_0000_0000_0000_0000,
                    ua <= 0x8000_0000_0000_0000_0000_0000_0000_0000,
            {
                if ub >= 2 {
                    assert(ua / ub <= ua / 2);
                }
            }
        }
    }
    if (a < 0) == (b < 0) {
        q as i128
    } else if q == 0x8000_0000_0000_0000_0000_0000_0000_0000 {
        i128::MIN
    } else {
        -(q as i128)
    }
}

} // verus!
