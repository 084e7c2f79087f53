//! IEEE 754 values by their bit patterns.
//!
//! Single-precision values are `u32` patterns and double-precision values `u64` patterns. This
//! module holds what can be decided on the pattern alone: signs, NaNs, the order of two values.

use vstd::prelude::*;

#[allow(unused_imports)]
use vstd::arithmetic::logarithm::log;
#[allow(unused_imports)]
use vstd::arithmetic::power2::{lemma2_to64, lemma_pow2_adds, lemma_pow2_unfold, pow2};

verus! {

/// Positive zero, single precision.
pub const ZERO: u32 = 0x0000_0000;

/// One, single precision.
pub const ONE: u32 = 0x3F80_0000;

/// Negative infinity, single precision.
pub const NEG_INFINITY: u32 = 0xFF80_0000;

/// Positive infinity, single precision.
pub const INFINITY: u32 = 0x7F80_0000;

/// The NaN that decoding yields.
pub const NAN: u32 = 0x7FC0_0000;

/// Zero, double precision.
pub const DOUBLE_ZERO: u64 = 0x0000_0000_0000_0000;

/// One, double precision.
pub const DOUBLE_ONE: u64 = 0x3FF0_0000_0000_0000;

/// Two, double precision.
pub const DOUBLE_TWO: u64 = 0x4000_0000_0000_0000;

/// Minus one half, double precision.
pub const DOUBLE_MINUS_HALF: u64 = 0xBFE0_0000_0000_0000;

/// The pattern without its sign bit.
pub open spec fn magnitude(b: u32) -> int {
    if b >= 0x8000_0000 {
        b - 0x8000_0000
    } else {
        b as int
    }
}

pub open spec fn is_negative(b: u32) -> bool {
    b >= 0x8000_0000
}

pub open spec fn is_nan(b: u32) -> bool {
    magnitude(b) > 0x7F80_0000
}

/// Neither infinite nor NaN.
pub open spec fn is_finite(b: u32) -> bool {
    magnitude(b) < 0x7F80_0000
}

pub open spec fn is_zero(b: u32) -> bool {
    magnitude(b) == 0
}

/// Position of a value that is not NaN in the numeric order (both zeros at 0).
pub open spec fn rank(b: u32) -> int {
    if is_negative(b) {
        -magnitude(b)
    } else {
        magnitude(b)
    }
}

/// The numeric `a < b`: false if either is NaN.
pub open spec fn less(a: u32, b: u32) -> bool {
    !is_nan(a) && !is_nan(b) && rank(a) < rank(b)
}

/// The magnitude of a finite single-precision value, in units of `2^-149`.
pub open spec fn units(b: u32) -> nat {
    let exponent = magnitude(b) / 0x80_0000;
    let mantissa = magnitude(b) % 0x80_0000;
    if exponent == 0 {
        mantissa as nat
    } else {
        ((0x80_0000 + mantissa) * pow2((exponent - 1) as nat)) as nat
    }
}

/// The same value: equal patterns, or NaNs of any payload.
pub open spec fn agrees(r: u32, v: u32) -> bool {
    r == v || (is_nan(r) && is_nan(v))
}

/// A value that minus infinity takes in: their sum is minus infinity.
pub open spec fn absorbed(b: u32) -> bool {
    !is_nan(b) && b != INFINITY
}

/// The value with the other sign.
pub open spec fn negated(b: u32) -> u32 {
    (if b >= 0x8000_0000 {
        b - 0x8000_0000
    } else {
        b + 0x8000_0000
    }) as u32
}

/// Decides `a < b` numerically.
pub fn lower(a: u32, b: u32) -> (r: bool)
    ensures
        r == less(a, b),
{
    let ma: u32 = if a >= 0x8000_0000 {
        a - 0x8000_0000
    } else {
        a
    };
    let mb: u32 = if b >= 0x8000_0000 {
        b - 0x8000_0000
    } else {
        b
    };
    if ma > 0x7F80_0000 || mb > 0x7F80_0000 {
        return false;
    }
    if a >= 0x8000_0000 {
        if b >= 0x8000_0000 {
            mb < ma
        } else {
            ma > 0 || mb > 0
        }
    } else if b >= 0x8000_0000 {
        false
    } else {
        ma < mb
    }
}

/// The pattern of a double without its sign bit.
pub open spec fn double_magnitude(b: u64) -> int {
    if b >= 0x8000_0000_0000_0000 {
        b - 0x8000_0000_0000_0000
    } else {
        b as int
    }
}

pub open spec fn double_is_nan(b: u64) -> bool {
    double_magnitude(b) > 0x7FF0_0000_0000_0000
}

pub open spec fn double_rank(b: u64) -> int {
    if b >= 0x8000_0000_0000_0000 {
        -double_magnitude(b)
    } else {
        double_magnitude(b)
    }
}

/// The numeric `a < b` of doubles: false if either is NaN.
pub open spec fn double_less(a: u64, b: u64) -> bool {
    !double_is_nan(a) && !double_is_nan(b) && double_rank(a) < double_rank(b)
}

/// The same double: equal patterns, or NaNs of any payload.
pub open spec fn double_agrees(r: u64, v: u64) -> bool {
    r == v || (double_is_nan(r) && double_is_nan(v))
}

/// How many steps of the pattern make up one, for a double of at least one and less than `2^52`.
pub open spec fn steps_of_one(b: u64) -> int {
    pow2((1075 - double_magnitude(b) / 0x10_0000_0000_0000) as nat) as int
}

/// `r` is a double of the given sign and magnitude.
pub open spec fn double_signed(r: u64, negative: bool, m: int) -> bool {
    (r >= 0x8000_0000_0000_0000 <==> negative) && double_magnitude(r) == m
}

/// `r` is `x` rounded to a whole number, towards zero or, if `outward`, away from it. The sign of a
/// zero is left open.
pub open spec fn rounded_whole(x: u64, outward: bool, r: u64) -> bool {
    let (m, negative) = (double_magnitude(x), x >= 0x8000_0000_0000_0000);
    let part = m % steps_of_one(x);
    if double_is_nan(x) {
        double_is_nan(r)
    } else if m >= 0x4330_0000_0000_0000 {
        r == x
    } else if m < DOUBLE_ONE {
        if m > 0 && outward {
            double_signed(r, negative, DOUBLE_ONE as int)
        } else {
            double_magnitude(r) == 0
        }
    } else if part > 0 && outward {
        double_signed(r, negative, m - part + steps_of_one(x))
    } else {
        double_signed(r, negative, m - part)
    }
}

/// A whole number divided by another, rounded to nearest, ties to even.
pub open spec fn nearest(a: int, u: int) -> int {
    let (q, rest) = (a / u, a % u);
    if 2 * rest > u || (2 * rest == u && q % 2 == 1) {
        q + 1
    } else {
        q
    }
}

/// The pattern of a whole number that is not negative, rounded to nearest, ties to even: 53 bits of
/// it, the first of which is part of the exponent.
pub open spec fn whole_pattern(a: int) -> int {
    let k = log(2, a);
    if a <= 0 {
        0
    } else if k <= 52 {
        (1022 + k) * 0x10_0000_0000_0000 + a * pow2((52 - k) as nat)
    } else {
        (1022 + k) * 0x10_0000_0000_0000 + nearest(a, pow2((k - 52) as nat) as int)
    }
}

pub open spec fn double_negated(b: u64) -> u64 {
    (if b >= 0x8000_0000_0000_0000 {
        b - 0x8000_0000_0000_0000
    } else {
        b + 0x8000_0000_0000_0000
    }) as u64
}

/// Decides `a < b` for doubles.
pub fn double_lower(a: u64, b: u64) -> (r: bool)
    ensures
        r == double_less(a, b),
{
    let ma: u64 = if a >= 0x8000_0000_0000_0000 {
        a - 0x8000_0000_0000_0000
    } else {
        a
    };
    let mb: u64 = if b >= 0x8000_0000_0000_0000 {
        b - 0x8000_0000_0000_0000
    } else {
        b
    };
    if ma > 0x7FF0_0000_0000_0000 || mb > 0x7FF0_0000_0000_0000 {
        return false;
    }
    if a >= 0x8000_0000_0000_0000 {
        if b >= 0x8000_0000_0000_0000 {
            mb < ma
        } else {
            ma > 0 || mb > 0
        }
    } else if b >= 0x8000_0000_0000_0000 {
        false
    } else {
        ma < mb
    }
}

/// The double with the other sign.
pub fn double_negate(b: u64) -> (r: u64)
    ensures
        r == double_negated(b),
{
    if b >= 0x8000_0000_0000_0000 {
        b - 0x8000_0000_0000_0000
    } else {
        b + 0x8000_0000_0000_0000
    }
}

/// The magnitude of a finite double, in units of `2^-1074`.
pub open spec fn double_units(b: u64) -> nat {
    let exponent = double_magnitude(b) / 0x10_0000_0000_0000;
    let mantissa = double_magnitude(b) % 0x10_0000_0000_0000;
    if exponent == 0 {
        mantissa as nat
    } else {
        ((0x10_0000_0000_0000 + mantissa) * pow2((exponent - 1) as nat)) as nat
    }
}

/// `w` is the double with the value of the single-precision `x`.
pub open spec fn widens(x: u32, w: u64) -> bool {
    &&& is_nan(x) <==> double_is_nan(w)
    &&& !is_nan(x) ==> (is_negative(x) <==> w >= 0x8000_0000_0000_0000)
    &&& is_finite(x) ==> double_magnitude(w) < 0x7FF0_0000_0000_0000 && double_units(w) == units(x)
        * pow2(925)
    &&& magnitude(x) == 0x7F80_0000 ==> double_magnitude(w) == 0x7FF0_0000_0000_0000
}

/// Widens a single-precision value to double precision, exactly.
pub fn widen(x: u32) -> (w: u64)
    ensures
        widens(x, w),
{
    let sign: u64 = if x >= 0x8000_0000 {
        0x8000_0000_0000_0000
    } else {
        0
    };
    let m: u32 = if x >= 0x8000_0000 {
        x - 0x8000_0000
    } else {
        x
    };
    let exponent: u32 = m / 0x80_0000;
    let mantissa: u32 = m % 0x80_0000;
    if exponent == 255 {
        return sign + 0x7FF0_0000_0000_0000 + mantissa as u64 * 0x2000_0000;
    }
    if m == 0 {
        proof {
            assert(0 * pow2(925) == 0);
        }
        return sign;
    }
    let mut k: u64 = if exponent == 0 {
        mantissa as u64
    } else {
        0x80_0000 + mantissa as u64
    };
    let mut field: u64 = if exponent == 0 {
        897
    } else {
        exponent as u64 + 896
    };
    let ghost value: nat = (k * pow2((field - 897) as nat)) as nat;
    proof {
        lemma2_to64();
        if exponent == 0 {
            assert(k * pow2(0) == k) by (nonlinear_arith)
                requires
                    pow2(0) == 1,
            ;
        }
        assert(value == units(x));
        lemma_pow2_adds((field - 897) as nat, 925);
        let a: int = k as int;
        let b: nat = pow2((field - 897) as nat);
        let c: nat = pow2(925);
        assert(a * (b * c) == (a * b) * c) by (nonlinear_arith);
    }
    while k < 0x80_0000
        invariant
            0 < k < 0x100_0000,
            k < 0x80_0000 ==> field <= 897,
            field <= 1150,
            874 <= field,
            k * pow2((field + 28) as nat) == units(x) * pow2(925),
            field <= 897 ==> k >= pow2((897 - field) as nat),
        decreases field,
    {
        proof {
            lemma_pow2_unfold((field + 28) as nat);
            let p: nat = pow2((field + 27) as nat);
            assert(k * (2 * p) == (2 * k) * p) by (nonlinear_arith);
            lemma2_to64();
            lemma_pow2_unfold((898 - field) as nat);
            assert(field > 874);
        }
        k = 2 * k;
        field = field - 1;
    }
    let w: u64 = sign + field * 0x10_0000_0000_0000 + (k - 0x80_0000) * 0x2000_0000;
    proof {
        let e: int = field as int;
        assert(double_magnitude(w) == e * 0x10_0000_0000_0000 + (k - 0x80_0000) * 0x2000_0000);
        assert(double_magnitude(w) / 0x10_0000_0000_0000 == e);
        assert(double_magnitude(w) % 0x10_0000_0000_0000 == (k - 0x80_0000) * 0x2000_0000);
        lemma2_to64();
        lemma_pow2_adds(29, (field - 1) as nat);
        let p: nat = pow2((field - 1) as nat);
        assert((k * 0x2000_0000) * p == k * (0x2000_0000 * p)) by (nonlinear_arith);
    }
    w
}

} // verus!
