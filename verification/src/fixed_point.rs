use vstd::arithmetic::div_mod::{
    lemma_div_is_ordered,
    lemma_div_is_ordered_by_denominator,
    lemma_fundamental_div_mod,
};
use vstd::prelude::*;

verus! {

/// One, on the scale on which rates, fractions and intensities are held:
/// a rate of 0.3 is stored as `3 * UNIT / 10`.
pub const UNIT: u64 = 1_000_000_000;

/// `UNIT` times `UNIT`.
pub const UNIT_SQUARED: u128 = 1_000_000_000_000_000_000;

/// The quotient of `n` by a positive `d`, rounded toward zero.
pub open spec fn trunc_div(n: int, d: int) -> int {
    if n >= 0 {
        n / d
    } else {
        -((-n) / d)
    }
}

/// `v` as a 64-bit quantity, or `None` where it does not fit.
pub open spec fn fit_i64(v: int) -> Option<i64> {
    if i64::MIN <= v <= i64::MAX {
        Some(v as i64)
    } else {
        None
    }
}

/// `x * y * num / den`, rounded toward zero.
pub open spec fn scaled_product(x: int, y: int, num: int, den: int) -> int {
    trunc_div(x * y * num, den)
}

/// The size of `x` without its sign.
pub open spec fn abs(x: int) -> int {
    if x >= 0 {
        x
    } else {
        -x
    }
}

/// Computes the size of `x` without its sign.
pub fn magnitude(x: i128) -> (m: u128)
    requires
        x > i128::MIN,
    ensures
        m == abs(x as int),
{
    if x >= 0 {
        x as u128
    } else {
        (-x) as u128
    }
}

/// Narrows a wide quantity to 64 bits where it fits.
pub fn narrow(v: i128) -> (r: Option<i64>)
    ensures
        r == fit_i64(v as int),
{
    if v < -0x8000_0000_0000_0000 || v > 0x7fff_ffff_ffff_ffff {
        None
    } else {
        Some(v as i64)
    }
}

/// Computes `x * y * num / den` rounded toward zero, and reports `None`
/// exactly when the quotient does not fit in 64 bits.
pub fn mul_div(x: i128, y: i64, num: u64, den: u64) -> (r: Option<i64>)
    requires
        -0x1_0000_0000_0000_0000 <= x <= 0x1_0000_0000_0000_0000,
        1 <= den <= 0x8000_0000_0000_0000,
    ensures
        r == fit_i64(scaled_product(x as int, y as int, num as int, den as int)),
{
    if num == 0 {
        assert(x * y * 0 == 0) by (nonlinear_arith);
        assert(0int / (den as int) == 0) by (nonlinear_arith)
            requires
                den >= 1,
        ;
        return Some(0);
    }
    let mx: u128 = magnitude(x);
    let my: u128 = magnitude(y as i128);
    assert(mx * my <= 0x8000_0000_0000_0000_0000_0000_0000_0000) by (nonlinear_arith)
        requires
            mx <= 0x1_0000_0000_0000_0000,
            my <= 0x8000_0000_0000_0000,
    ;
    let p: u128 = mx * my;
    let negative: bool = (x < 0) != (y < 0);
    let ghost n: int = x * y * num;
    assert(n == if negative {
        -(p * num)
    } else {
        p * num
    }) by (nonlinear_arith)
        requires
            n == x * y * num,
            p == mx * my,
            mx == abs(x as int),
            my == abs(y as int),
            negative == ((x < 0) != (y < 0)),
    ;
    assert(p * num >= 0) by (nonlinear_arith)
        requires
            p >= 0,
            num >= 0,
    ;
    let wide: u128 = num as u128;
    let cap: u128 = u128::MAX / wide;
    if p > cap {
        proof {
            lemma_fundamental_div_mod(u128::MAX as int, wide as int);
            assert(p * wide >= 0x1_0000_0000_0000_0000_0000_0000_0000_0000int) by (nonlinear_arith)
                requires
                    p >= cap + 1,
                    wide >= 1,
                    u128::MAX == wide * cap + (u128::MAX as int) % (wide as int),
                    0 <= (u128::MAX as int) % (wide as int) < wide,
            ;
            let big: int = 0x1_0000_0000_0000_0000_0000_0000_0000_0000int;
            lemma_div_is_ordered(big, p * num, den as int);
            lemma_div_is_ordered_by_denominator(big, den as int, 0x8000_0000_0000_0000);
            assert(big / 0x8000_0000_0000_0000 == 0x2_0000_0000_0000_0000) by (nonlinear_arith)
                requires
                    big == 0x1_0000_0000_0000_0000_0000_0000_0000_0000int,
            ;
        }
        return None;
    }
    proof {
        lemma_fundamental_div_mod(u128::MAX as int, wide as int);
        assert(p * wide <= u128::MAX) by (nonlinear_arith)
            requires
                0 <= p <= cap,
                wide >= 1,
                u128::MAX == wide * cap + (u128::MAX as int) % (wide as int),
                0 <= (u128::MAX as int) % (wide as int) < wide,
        ;
    }
    let q: u128 = p * wide / (den as u128);
    if negative {
        if q > 0x8000_0000_0000_0000 {
            None
        } else {
            let signed: i128 = -(q as i128);
            Some(signed as i64)
        }
    } else {
        if q > 0x7fff_ffff_ffff_ffff {
            None
        } else {
            Some(q as i64)
        }
    }
}

} // verus!
