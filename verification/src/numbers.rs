//! Laws on numbers: what the constants are, and how single values are compared and negated.

use vstd::prelude::*;

#[allow(unused_imports)]
use crate::bits::{
    double_lower, double_negate, lower, DOUBLE_MINUS_HALF, DOUBLE_ONE, DOUBLE_TWO, DOUBLE_ZERO,
    NEG_INFINITY, ONE, ZERO,
};
#[allow(unused_imports)]
use crate::config::{default_eps, Config};
#[allow(unused_imports)]
use crate::rope::{DOUBLE_PI, DOUBLE_THOUSANDTH, DOUBLE_TWO_TO_32};

verus! {

/// The exponent field of a double.
pub open spec fn exponent_of(b: u64) -> int {
    b as int / 0x10_0000_0000_0000 % 0x800
}

/// The 53 leading bits of a normal double.
pub open spec fn leading_bits(b: u64) -> int {
    0x10_0000_0000_0000 + b as int % 0x10_0000_0000_0000
}

/// The doubles that are powers of two, up to the sign.
pub proof fn law_powers_of_two()
    ensures
        exponent_of(DOUBLE_ONE) == 1023 && leading_bits(DOUBLE_ONE) == 0x10_0000_0000_0000,
        exponent_of(DOUBLE_TWO) == 1023 + 1 && leading_bits(DOUBLE_TWO) == 0x10_0000_0000_0000,
        exponent_of(DOUBLE_MINUS_HALF) == 1023 - 1 && leading_bits(DOUBLE_MINUS_HALF)
            == 0x10_0000_0000_0000,
        exponent_of(DOUBLE_TWO_TO_32) == 1023 + 32 && leading_bits(DOUBLE_TWO_TO_32)
            == 0x10_0000_0000_0000,
        DOUBLE_ONE < 0x8000_0000_0000_0000,
        DOUBLE_TWO < 0x8000_0000_0000_0000,
        DOUBLE_TWO_TO_32 < 0x8000_0000_0000_0000,
        DOUBLE_MINUS_HALF >= 0x8000_0000_0000_0000,
        DOUBLE_ZERO == 0,
        ZERO == 0,
        ONE == 127 * 0x80_0000,
        NEG_INFINITY == 0x8000_0000 + 255 * 0x80_0000,
{
}

/// The half turn to sixteen digits, one thousandth and the default epsilon of one millionth: each the
/// nearest double.
pub proof fn law_decimal_constants(eps: u64)
    requires
        call_ensures(default_eps, (), eps),
    ensures
        exponent_of(DOUBLE_PI) == 1023 + 1,
        DOUBLE_PI < 0x8000_0000_0000_0000,
        3_141_592_653_589_793 * 0x8_0000_0000_0000 <= leading_bits(DOUBLE_PI) * 1_000_000_000_000_000
            < 3_141_592_653_589_794 * 0x8_0000_0000_0000,
        exponent_of(DOUBLE_THOUSANDTH) == 1023 - 10,
        DOUBLE_THOUSANDTH < 0x8000_0000_0000_0000,
        -500 <= leading_bits(DOUBLE_THOUSANDTH) * 1000 - 0x4000_0000_0000_0000int <= 500,
        exponent_of(eps) == 1023 - 20,
        eps < 0x8000_0000_0000_0000,
        -500_000 <= leading_bits(eps) * 1_000_000 - 0x100_0000_0000_0000_0000int <= 500_000,
{
}

/// Comparing two single-precision values: nothing is less than a NaN or than itself, patterns of the
/// positive ones grow with the value and of the negative ones fall, and the two zeros are equal.
pub proof fn law_lower_calls(a: u32, b: u32, r: bool, back: bool)
    requires
        call_ensures(lower, (a, b), r),
        call_ensures(lower, (b, a), back),
    ensures
        !(r && back),
        a % 0x8000_0000 > 0x7F80_0000 || b % 0x8000_0000 > 0x7F80_0000 ==> !r && !back,
        a <= 0x7F80_0000 && b <= 0x7F80_0000 ==> (r <==> a < b),
        0x8000_0000 <= a <= 0xFF80_0000 && 0x8000_0000 <= b <= 0xFF80_0000 ==> (r <==> b < a),
        0x8000_0000 <= a <= 0xFF80_0000 && b <= 0x7F80_0000 ==> (r <==> a > 0x8000_0000 || b > 0)
            && !back,
{
}

/// The same for doubles.
pub proof fn law_double_lower_calls(a: u64, b: u64, r: bool, back: bool)
    requires
        call_ensures(double_lower, (a, b), r),
        call_ensures(double_lower, (b, a), back),
    ensures
        !(r && back),
        a % 0x8000_0000_0000_0000 > 0x7FF0_0000_0000_0000 || b % 0x8000_0000_0000_0000
            > 0x7FF0_0000_0000_0000 ==> !r && !back,
        a <= 0x7FF0_0000_0000_0000 && b <= 0x7FF0_0000_0000_0000 ==> (r <==> a < b),
        0x8000_0000_0000_0000 <= a <= 0xFFF0_0000_0000_0000 && 0x8000_0000_0000_0000 <= b
            <= 0xFFF0_0000_0000_0000 ==> (r <==> b < a),
        0x8000_0000_0000_0000 <= a <= 0xFFF0_0000_0000_0000 && b <= 0x7FF0_0000_0000_0000 ==> (r
            <==> a > 0x8000_0000_0000_0000 || b > 0) && !back,
{
}

/// Negating changes the sign and nothing else, and twice gives the value back.
pub proof fn law_double_negate_calls(b: u64, n: u64, back: u64)
    requires
        call_ensures(double_negate, (b,), n),
        call_ensures(double_negate, (n,), back),
    ensures
        back == b,
        n % 0x8000_0000_0000_0000 == b % 0x8000_0000_0000_0000,
        n >= 0x8000_0000_0000_0000 <==> b < 0x8000_0000_0000_0000,
{
}

/// The mixing vector has a gate before and a gate after for each stream, and a weight for each pair.
pub proof fn law_mix_hc_call(c: Config, n: usize)
    requires
        call_ensures(Config::mix_hc, (&c,), n),
    ensures
        n == c.hc_mult + c.hc_mult + c.hc_mult * c.hc_mult,
{
    crate::config::law_mix_width_parts(c.hc_mult as int);
}

} // verus!
