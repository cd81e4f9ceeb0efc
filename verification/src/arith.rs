use vstd::prelude::*;

verus! {

/// `a * b`, or `u64::MAX` when the product does not fit.
pub open spec fn saturating_mul_spec(a: u64, b: u64) -> u64 {
    if a * b > u64::MAX {
        u64::MAX
    } else {
        (a * b) as u64
    }
}

/// Ceiling of `a / b` for a positive divisor.
pub open spec fn div_ceil_spec(a: int, b: int) -> int {
    if a % b == 0 {
        a / b
    } else {
        a / b + 1
    }
}

/// Rust's truncating signed division for a positive divisor.
pub open spec fn trunc_div(a: int, b: int) -> int {
    if a >= 0 {
        a / b
    } else {
        -((-a) / b)
    }
}

pub fn saturating_mul_u64(a: u64, b: u64) -> (product: u64)
    ensures
        product == saturating_mul_spec(a, b),
{
    match a.checked_mul(b) {
        Some(product) => product,
        None => u64::MAX,
    }
}

pub fn div_ceil_u64(a: u64, b: u64) -> (quotient: u64)
    requires
        b > 0,
    ensures
        quotient == div_ceil_spec(a as int, b as int),
{
    let base: u64 = a / b;
    if a % b == 0 {
        base
    } else {
        proof {
            assert(a / b < a || b == 1) by (nonlinear_arith)
                requires
                    b > 0,
                    a % b != 0,
            ;
        }
        base + 1
    }
}

pub fn saturating_mul_u128(a: u128, b: u128) -> (product: u128)
    ensures
        product == (if a * b > u128::MAX {
            u128::MAX as int
        } else {
            a * b
        }),
{
    match a.checked_mul(b) {
        Some(product) => product,
        None => u128::MAX,
    }
}

pub fn div_ceil_u8(a: u8, b: u8) -> (quotient: u8)
    requires
        b > 0,
    ensures
        quotient == div_ceil_spec(a as int, b as int),
{
    let base: u8 = a / b;
    if a % b == 0 {
        base
    } else {
        proof {
            assert(a / b < a || b == 1) by (nonlinear_arith)
                requires
                    b > 0,
                    a % b != 0,
            ;
        }
        base + 1
    }
}

} // verus!
