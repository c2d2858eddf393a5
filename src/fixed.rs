//! Fixed-point arithmetic on `i64` values.
//!
//! A value `v` stands for the real number `v / ONE`, so `ONE` is `1.0`.
//! Products are rounded down to the next multiple of `1 / ONE`, and every
//! result that leaves the `i64` range is clamped to its nearest end.
use vstd::prelude::*;

verus! {

/// The fixed-point representation of `1.0`.
pub const ONE: i64 = 1_000_000;

/// `x`, clamped to the range of `i64`.
pub open spec fn clamp(x: int) -> i64 {
    if x > i64::MAX {
        i64::MAX
    } else if x < i64::MIN {
        i64::MIN
    } else {
        x as i64
    }
}

/// The product of two fixed-point values, rounded down (not yet clamped).
pub open spec fn scaled(a: int, b: int) -> int {
    (a * b) / (ONE as int)
}

/// The largest magnitude that a product of two `i64` values can have.
pub open spec fn wide_bound() -> int {
    0x4000_0000_0000_0000_0000_0000_0000_0000
}

/// Clamps a wide intermediate value into the `i64` range.
pub fn saturate(x: i128) -> (r: i64)
    ensures
        r == clamp(x as int),
{
    if x > i64::MAX as i128 {
        i64::MAX
    } else if x < i64::MIN as i128 {
        i64::MIN
    } else {
        x as i64
    }
}

/// The rounded-down fixed-point product `a * b`, in a wide integer.
pub fn scale_wide(a: i64, b: i64) -> (r: i128)
    ensures
        r == scaled(a as int, b as int),
        -wide_bound() <= r <= wide_bound(),
{
    proof {
        assert(-wide_bound() <= a * b <= wide_bound()) by (nonlinear_arith)
            requires
                i64::MIN <= a <= i64::MAX,
                i64::MIN <= b <= i64::MAX,
        ;
    }
    let prod: i128 = (a as i128) * (b as i128);
    proof {
        let q = (prod as int) / (ONE as int);
        vstd::arithmetic::div_mod::lemma_fundamental_div_mod(prod as int, ONE as int);
        vstd::arithmetic::div_mod::lemma_mod_bound(prod as int, ONE as int);
        assert(-wide_bound() <= q <= wide_bound());
    }
    match prod.checked_div_euclid(ONE as i128) {
        Some(q) => q,
        None => 0,
    }
}

} // verus!
