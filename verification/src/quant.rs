//! FP4 / FP8 / BF16 weights decoded to single precision, bit for bit.
//!
//! Most weights are stored as FP8 (`e4m3`) and the experts as FP4 (`e2m1`), each block with a
//! shared `e8m0` scale. Every decoded element is exact: magnitudes are stated as whole numbers of
//! `2^-149`, the smallest positive single-precision value.
//!
//! Bit layouts:
//! - `e4m3`: `S EEEE MMM`, exponent bias 7; `E = 0` is subnormal, `S.1111.111` is the only NaN, and
//!   the largest finite value is 448.
//! - `e2m1`: `S EE M`, exponent bias 1: the magnitudes 0, ½, 1, 1½, 2, 3, 4, 6. Two nibbles share a
//!   byte, the even element in the low nibble.
//! - `e8m0`: an unsigned exponent, `2^(b - 127)`; `0xFF` is NaN.

use vstd::prelude::*;

use crate::bits::NAN;
use crate::error::TensorError;
use crate::shape::axes2;
use crate::tensor::Tensor;

#[allow(unused_imports)]
use crate::bits::{is_finite, is_nan, is_negative, magnitude, units};
#[allow(unused_imports)]
use crate::shape::{fits, lemma_divide, lemma_flat, lemma_grid, shape2};
#[allow(unused_imports)]
use vstd::arithmetic::power2::{
    lemma2_to64, lemma_pow2_adds, lemma_pow2_pos, lemma_pow2_strictly_increases, lemma_pow2_unfold,
    pow2,
};

verus! {

/// FP8 tile size: one scale per `FP8_BLOCK` × `FP8_BLOCK` weights.
pub const FP8_BLOCK: usize = 128;

/// FP4 block size: one scale per `FP4_BLOCK` weights of a row.
pub const FP4_BLOCK: usize = 32;

/// `r` is the value of the given sign and magnitude (in units of `2^-149`), or the infinity of that
/// sign where the magnitude reaches `2^128`.
pub open spec fn holds(r: u32, negative: bool, m: nat) -> bool {
    &&& is_negative(r) == negative
    &&& if m < pow2(277) {
        is_finite(r) && units(r) == m
    } else {
        magnitude(r) == 0x7F80_0000
    }
}

/// The magnitude of an `e2m1` nibble, in halves.
pub open spec fn e2m1_units(nibble: u8) -> nat {
    let e = (nibble as int % 8) / 2;
    let m = nibble as int % 2;
    if e == 0 {
        m as nat
    } else {
        ((2 + m) * pow2((e - 1) as nat)) as nat
    }
}

pub open spec fn e2m1_negative(nibble: u8) -> bool {
    (nibble as int / 8) % 2 == 1
}

/// The magnitude of an `e4m3` byte that is not NaN, in units of `2^-9`.
pub open spec fn e4m3_units(byte: u8) -> nat {
    let e = (byte as int % 128) / 8;
    let m = byte as int % 8;
    if e == 0 {
        m as nat
    } else {
        ((8 + m) * pow2((e - 1) as nat)) as nat
    }
}

pub open spec fn e4m3_nan(byte: u8) -> bool {
    byte as int % 128 == 127
}

pub open spec fn e4m3_negative(byte: u8) -> bool {
    byte >= 128
}

/// `r` is the exact product of an `e4m3` weight and an `e8m0` scale.
pub open spec fn fp8_value(weight: u8, scale: u8, r: u32) -> bool {
    if e4m3_nan(weight) || scale == 255 {
        is_nan(r)
    } else {
        holds(r, e4m3_negative(weight), e4m3_units(weight) * pow2((scale + 13) as nat))
    }
}

/// `r` is the exact product of an `e2m1` weight and an `e8m0` scale.
pub open spec fn fp4_value(nibble: u8, scale: u8, r: u32) -> bool {
    if scale == 255 {
        is_nan(r)
    } else {
        holds(r, e2m1_negative(nibble), e2m1_units(nibble) * pow2((scale + 21) as nat))
    }
}

/// How many blocks of size `block` cover `n` elements.
pub open spec fn blocks(n: int, block: int) -> int {
    (n + block - 1) / block
}

/// The nibble of logical element `j` of a packed row.
pub open spec fn nibble_of(byte: u8, j: int) -> u8 {
    if j % 2 == 0 {
        byte % 16
    } else {
        byte / 16
    }
}

/// The magnitude `k · 2^e` in units of `2^-149`, with its sign, as a single-precision value.
fn compose(negative: bool, k: u32, e: u32) -> (r: u32)
    requires
        k < 0x100_0000,
        e <= 0x1000,
    ensures
        holds(r, negative, (k as nat) * pow2(e as nat)),
{
    let sign: u32 = if negative {
        0x8000_0000
    } else {
        0
    };
    let ghost m0: nat = (k as nat) * pow2(e as nat);
    proof {
        lemma2_to64();
        lemma_pow2_pos(277);
    }
    if k == 0 {
        assert(m0 == 0) by (nonlinear_arith)
            requires
                m0 == 0 * pow2(e as nat),
        ;
        return sign;
    }
    let mut m: u32 = k;
    let mut x: u32 = e;
    while m < 0x80_0000 && x > 0
        invariant
            0 < m < 0x100_0000,
            x <= e <= 0x1000,
            (m as nat) * pow2(x as nat) == m0,
        decreases x,
    {
        proof {
            lemma_pow2_unfold(x as nat);
            let p: nat = pow2((x - 1) as nat);
            assert((m as nat) * (2 * p) == ((2 * m) as nat) * p) by (nonlinear_arith);
        }
        m = 2 * m;
        x = x - 1;
    }
    if m < 0x80_0000 {
        proof {
            assert(m0 == m as nat) by (nonlinear_arith)
                requires
                    m0 == (m as nat) * 1,
            ;
            lemma_pow2_strictly_increases(23, 277);
        }
        return sign + m;
    }
    if x >= 254 {
        proof {
            let a: nat = m as nat;
            let p: nat = pow2(x as nat);
            lemma_pow2_adds(23, 254);
            if x > 254 {
                lemma_pow2_strictly_increases(254, x as nat);
            }
            let q: nat = pow2(254);
            assert(a * p >= 0x80_0000 * q) by (nonlinear_arith)
                requires
                    a >= 0x80_0000,
                    p >= q,
            ;
        }
        return sign + 0x7F80_0000;
    }
    let field: u32 = (x + 1) * 0x80_0000;
    let r: u32 = sign + field + (m - 0x80_0000);
    proof {
        let a: nat = m as nat;
        let p: nat = pow2(x as nat);
        let q: nat = pow2(253);
        if x < 253 {
            lemma_pow2_strictly_increases(x as nat, 253);
        }
        lemma_pow2_adds(24, 253);
        lemma_pow2_pos(x as nat);
        assert(a * p < 0x100_0000 * q) by (nonlinear_arith)
            requires
                a < 0x100_0000,
                p <= q,
                p > 0,
        ;
        assert(magnitude(r) == (x + 1) * 0x80_0000 + (m - 0x80_0000));
        assert(magnitude(r) / 0x80_0000 == x + 1);
        assert(magnitude(r) % 0x80_0000 == m - 0x80_0000);
    }
    r
}

/// The fields of an `e2m1` nibble.
fn e2m1_parts(nibble: u8) -> (r: (bool, u32))
    ensures
        r.0 == e2m1_negative(nibble),
        r.1 == e2m1_units(nibble),
        r.1 <= 12,
{
    proof {
        lemma2_to64();
    }
    let e: u8 = (nibble % 8) / 2;
    let m: u32 = (nibble % 2) as u32;
    let k: u32 = if e == 0 {
        m
    } else if e == 1 {
        2 + m
    } else if e == 2 {
        (2 + m) * 2
    } else {
        (2 + m) * 4
    };
    proof {
        if e > 0 {
            let a: int = 2 + m;
            let p: nat = pow2((e - 1) as nat);
            let q: int = if e == 1 {
                1
            } else if e == 2 {
                2
            } else {
                4
            };
            assert(p == q);
            assert(a * p == a * q);
            assert(e as int == (nibble as int % 8) / 2);
        }
    }
    ((nibble / 8) % 2 == 1, k)
}

/// The fields of an `e4m3` byte that is not NaN.
fn e4m3_parts(byte: u8) -> (r: (bool, u32))
    ensures
        r.0 == e4m3_negative(byte),
        r.1 == e4m3_units(byte),
        r.1 < 0x100_0000,
{
    let e: u8 = (byte % 128) / 8;
    let m: u32 = (byte % 8) as u32;
    if e == 0 {
        return (byte >= 128, m);
    }
    let mut k: u32 = 8 + m;
    let mut i: u8 = 1;
    proof {
        lemma2_to64();
        let a: int = 8 + m;
        let p: nat = pow2((i - 1) as nat);
        assert(p == 1);
        assert(a * p == a) by (nonlinear_arith)
            requires
                p == 1,
        ;
    }
    while i < e
        invariant
            1 <= i <= e <= 15,
            m < 8,
            k == (8 + m) * pow2((i - 1) as nat),
            pow2((i - 1) as nat) <= 0x4000,
        decreases e - i,
    {
        proof {
            lemma_pow2_unfold(i as nat);
            lemma2_to64();
            if i < 14 {
                lemma_pow2_strictly_increases(i as nat, 14);
            }
            let a: int = 8 + m;
            let p: nat = pow2((i - 1) as nat);
            assert(2 * (a * p) == a * (2 * p)) by (nonlinear_arith);
            assert(a * p <= 15 * 0x4000) by (nonlinear_arith)
                requires
                    0 <= a <= 15,
                    0 <= p <= 0x4000,
            ;
        }
        k = 2 * k;
        i = i + 1;
    }
    proof {
        let a: int = 8 + m;
        let p: nat = pow2((i - 1) as nat);
        assert(a * p <= 15 * 0x4000) by (nonlinear_arith)
            requires
                0 <= a <= 15,
                0 <= p <= 0x4000,
        ;
    }
    (byte >= 128, k)
}

/// Decodes one `e2m1` nibble; the bits above the nibble are ignored.
pub fn e2m1_decode(nibble: u8) -> (r: u32)
    ensures
        holds(r, e2m1_negative(nibble), e2m1_units(nibble) * pow2(148)),
{
    let (negative, k) = e2m1_parts(nibble);
    compose(negative, k, 148)
}

/// Decodes one `e4m3` byte.
pub fn e4m3_decode(byte: u8) -> (r: u32)
    ensures
        if e4m3_nan(byte) {
            is_nan(r)
        } else {
            holds(r, e4m3_negative(byte), e4m3_units(byte) * pow2(140))
        },
{
    if byte % 128 == 127 {
        return NAN;
    }
    let (negative, k) = e4m3_parts(byte);
    compose(negative, k, 140)
}

/// Decodes one `e8m0` scale: `2^(b - 127)`.
pub fn e8m0_decode(byte: u8) -> (r: u32)
    ensures
        if byte == 255 {
            is_nan(r)
        } else {
            holds(r, false, pow2((byte + 22) as nat))
        },
{
    if byte == 255 {
        return NAN;
    }
    compose(false, 1, byte as u32 + 22)
}

/// Widens one BF16 value: its bits become the high half of the single-precision pattern.
pub fn bf16_decode(h: u16) -> (r: u32)
    ensures
        r == h * 0x1_0000,
{
    h as u32 * 0x1_0000
}

fn fp8_element(weight: u8, scale: u8) -> (r: u32)
    ensures
        fp8_value(weight, scale, r),
{
    if weight % 128 == 127 || scale == 255 {
        return NAN;
    }
    let (negative, k) = e4m3_parts(weight);
    compose(negative, k, scale as u32 + 13)
}

fn fp4_element(nibble: u8, scale: u8) -> (r: u32)
    ensures
        fp4_value(nibble, scale, r),
{
    if scale == 255 {
        return NAN;
    }
    let (negative, k) = e2m1_parts(nibble);
    compose(negative, k, scale as u32 + 21)
}

/// `⌈n / block⌉`.
pub(crate) fn count_blocks(n: usize, block: usize) -> (r: usize)
    requires
        block > 0,
    ensures
        r == blocks(n as int, block as int),
        forall|i: int| 0 <= i < n ==> 0 <= #[trigger] (i / block as int) < r,
{
    let r: usize = if n == 0 {
        0
    } else {
        (n - 1) / block + 1
    };
    proof {
        let b = block as int;
        if n == 0 {
            vstd::arithmetic::div_mod::lemma_basic_div(b - 1, b);
        } else {
            vstd::arithmetic::div_mod::lemma_div_plus_one(n as int - 1, b);
            assert((n as int - 1 + b) / b == (n as int - 1) / b + 1);
            assert forall|i: int| 0 <= i < n implies 0 <= #[trigger] (i / b) < r by {
                vstd::arithmetic::div_mod::lemma_div_is_ordered(i, n as int - 1, b);
                vstd::arithmetic::div_mod::lemma_div_pos_is_pos(i, b);
            }
        }
    }
    r
}

/// Which scale belongs to flat element `p` of an FP8 weight of width `cols`.
pub open spec fn fp8_scale_index(p: int, cols: int, block: int) -> int {
    ((p / cols) / block) * blocks(cols, block) + (p % cols) / block
}

/// Decodes an FP8 weight `[rows, cols]` with one `e8m0` scale per `block` × `block` tile.
pub fn fp8_weight_dequant(weight: &[u8], scale: &[u8], rows: usize, cols: usize, block: usize) -> (r:
    Result<Tensor, TensorError>)
    requires
        block > 0,
        rows * cols <= weight@.len(),
        rows > 0 && cols > 0 ==> blocks(rows as int, block as int) * blocks(
            cols as int,
            block as int,
        ) <= scale@.len(),
    ensures
        r is Ok,
        r matches Ok(t) ==> ({
            &&& t@.wf()
            &&& t@.shape == shape2(rows, cols)
            &&& forall|p: int|
                0 <= p < rows * cols ==> fp8_value(
                    weight@[p],
                    scale@[fp8_scale_index(p, cols as int, block as int)],
                    #[trigger] t@.data[p],
                )
        }),
{
    let (stored, scales): (usize, usize) = (weight.len(), scale.len());
    assert(0 <= rows * cols <= stored) by {
        assert(rows * cols >= 0) by (nonlinear_arith);
    }
    let total: usize = rows * cols;
    let across: usize = count_blocks(cols, block);
    let down: usize = count_blocks(rows, block);
    let mut out: Vec<u32> = Vec::new();
    let mut p: usize = 0;
    while p < total
        invariant
            block > 0,
            total == rows * cols,
            total <= weight@.len(),
            scale@.len() == scales,
            across == blocks(cols as int, block as int),
            forall|i: int| 0 <= i < cols ==> 0 <= #[trigger] (i / block as int) < across,
            forall|i: int| 0 <= i < rows ==> 0 <= #[trigger] (i / block as int) < down,
            rows > 0 && cols > 0 ==> down * across <= scale@.len(),
            p <= total,
            out@.len() == p,
            forall|q: int|
                0 <= q < p ==> fp8_value(
                    weight@[q],
                    scale@[fp8_scale_index(q, cols as int, block as int)],
                    #[trigger] out@[q],
                ),
        decreases total - p,
    {
        proof {
            lemma_divide(p as int, rows as int, cols as int);
        }
        let i: usize = p / cols;
        let j: usize = p % cols;
        proof {
            lemma_flat(i as int / block as int, j as int / block as int, down as int, across as int);
            assert((i as int / block as int) * across >= 0) by (nonlinear_arith)
                requires
                    i as int / block as int >= 0,
            ;
        }
        let k: usize = (i / block) * across + j / block;
        let v: u32 = fp8_element(weight[p], scale[k]);
        out.push(v);
        p = p + 1;
    }
    proof {
        lemma_grid(rows, cols);
    }
    Tensor::new(axes2(rows, cols), out)
}

/// Which byte holds flat element `p` of a packed FP4 weight of width `cols`.
pub open spec fn fp4_byte_index(p: int, cols: int) -> int {
    (p / cols) * (cols / 2) + (p % cols) / 2
}

/// Which scale belongs to flat element `p` of an FP4 weight of width `cols`.
pub open spec fn fp4_scale_index(p: int, cols: int, block: int) -> int {
    (p / cols) * (cols / block) + (p % cols) / block
}

/// Every byte and every scale that a `[rows, cols]` FP4 weight needs is present.
pub open spec fn fp4_covered(packed: int, scale: int, rows: int, cols: int, block: int) -> bool {
    forall|p: int|
        #![trigger fp4_byte_index(p, cols)]
        0 <= p < rows * cols ==> fp4_byte_index(p, cols) < packed && fp4_scale_index(p, cols, block)
            < scale
}

/// Decodes an FP4 weight packed as `[rows, cols / 2]` with one `e8m0` scale per `block` elements of
/// a row.
pub fn fp4_weight_dequant(packed: &[u8], scale: &[u8], rows: usize, cols: usize, block: usize) -> (r:
    Result<Tensor, TensorError>)
    requires
        block > 0,
        fp4_covered(packed@.len() as int, scale@.len() as int, rows as int, cols as int, block as int),
    ensures
        r is Ok <==> fits(shape2(rows, cols)),
        r matches Ok(t) ==> ({
            &&& t@.wf()
            &&& t@.shape == shape2(rows, cols)
            &&& forall|p: int|
                0 <= p < rows * cols ==> fp4_value(
                    nibble_of(packed@[fp4_byte_index(p, cols as int)], p % cols as int),
                    scale@[fp4_scale_index(p, cols as int, block as int)],
                    #[trigger] t@.data[p],
                )
        }),
        r matches Err(e) ==> e == TensorError::Shape,
{
    proof {
        lemma_grid(rows, cols);
    }
    let (stored, scales): (usize, usize) = (packed.len(), scale.len());
    let total: usize = match rows.checked_mul(cols) {
        Some(v) => v,
        None => {
            return Err(TensorError::Shape);
        },
    };
    let mut out: Vec<u32> = Vec::new();
    let mut p: usize = 0;
    while p < total
        invariant
            block > 0,
            total == rows * cols,
            packed@.len() == stored,
            scale@.len() == scales,
            fp4_covered(
                packed@.len() as int,
                scale@.len() as int,
                rows as int,
                cols as int,
                block as int,
            ),
            p <= total,
            out@.len() == p,
            forall|q: int|
                0 <= q < p ==> fp4_value(
                    nibble_of(packed@[fp4_byte_index(q, cols as int)], q % cols as int),
                    scale@[fp4_scale_index(q, cols as int, block as int)],
                    #[trigger] out@[q],
                ),
        decreases total - p,
    {
        proof {
            lemma_divide(p as int, rows as int, cols as int);
            assert(fp4_byte_index(p as int, cols as int) < packed@.len());
        }
        let i: usize = p / cols;
        let j: usize = p % cols;
        proof {
            assert(i * (cols as int / 2) >= 0) by (nonlinear_arith);
            assert(i * (cols as int / block as int) >= 0) by (nonlinear_arith)
                requires
                    block > 0,
            ;
        }
        let byte: u8 = packed[i * (cols / 2) + j / 2];
        let nibble: u8 = if j % 2 == 0 {
            byte % 16
        } else {
            byte / 16
        };
        let v: u32 = fp4_element(nibble, scale[i * (cols / block) + j / block]);
        out.push(v);
        p = p + 1;
    }
    Tensor::new(axes2(rows, cols), out)
}

// --- laws -----------------------------------------------------------------------------------

/// Magnitudes grow with the pattern.
proof fn lemma_units_grow(a: u32, b: u32)
    requires
        magnitude(a) < magnitude(b),
    ensures
        units(a) < units(b),
{
    let x = magnitude(a);
    let y = magnitude(b);
    let (ex, mx) = (x / 0x80_0000, x % 0x80_0000);
    let (ey, my) = (y / 0x80_0000, y % 0x80_0000);
    lemma2_to64();
    let px: nat = pow2((ex - 1) as nat);
    let py: nat = pow2((ey - 1) as nat);
    if ey == 0 {
    } else if ex == ey {
        lemma_pow2_pos((ey - 1) as nat);
        assert((0x80_0000 + mx) * py < (0x80_0000 + my) * py) by (nonlinear_arith)
            requires
                mx < my,
                py > 0,
        ;
    } else if ex == 0 {
        lemma_pow2_pos((ey - 1) as nat);
        assert(mx < (0x80_0000 + my) * py) by (nonlinear_arith)
            requires
                0 <= mx < 0x80_0000,
                0 <= my,
                py >= 1,
        ;
    } else {
        lemma_pow2_unfold(ex as nat);
        if ex < ey - 1 {
            lemma_pow2_strictly_increases(ex as nat, (ey - 1) as nat);
        }
        lemma_pow2_pos((ex - 1) as nat);
        assert((0x80_0000 + mx) * px < (0x80_0000 + my) * py) by (nonlinear_arith)
            requires
                0 <= mx < 0x80_0000,
                0 <= my,
                2 * px <= py,
                px > 0,
        ;
    }
}

/// A sign and a magnitude have one bit pattern: decoding leaves no choice.
pub proof fn law_pattern_is_unique(a: u32, b: u32, negative: bool, m: nat)
    requires
        holds(a, negative, m),
        holds(b, negative, m),
    ensures
        a == b,
{
    if magnitude(a) < magnitude(b) {
        lemma_units_grow(a, b);
    } else if magnitude(b) < magnitude(a) {
        lemma_units_grow(b, a);
    }
}

/// A decoded FP8 element is exactly the decoded weight times the decoded scale.
pub proof fn law_fp8_is_exact_product(weight: u8, scale: u8, w: u32, s: u32, r: u32)
    requires
        !e4m3_nan(weight),
        scale != 255,
        holds(w, e4m3_negative(weight), e4m3_units(weight) * pow2(140)),
        holds(s, false, pow2((scale + 22) as nat)),
        fp8_value(weight, scale, r),
        is_finite(r),
    ensures
        is_finite(w),
        is_finite(s),
        is_negative(r) == is_negative(w),
        units(w) * units(s) == units(r) * pow2(149),
{
    let k = e4m3_units(weight);
    lemma_e4m3_bound(weight);
    lemma2_to64();
    lemma_pow2_adds(18, 140);
    lemma_pow2_strictly_increases(158, 277);
    lemma_pow2_strictly_increases((scale + 22) as nat, 277);
    let a: nat = pow2(140);
    assert(k * a <= 0x40000 * a) by (nonlinear_arith)
        requires
            k <= 0x40000,
    ;
    lemma_pow2_adds(140, (scale + 22) as nat);
    lemma_pow2_adds((scale + 13) as nat, 149);
    let b: nat = pow2((scale + 22) as nat);
    let c: nat = pow2((scale + 13) as nat);
    let d: nat = pow2(149);
    assert((k * a) * b == (k * c) * d) by (nonlinear_arith)
        requires
            a * b == c * d,
    ;
}

/// A decoded FP4 element is exactly the decoded weight times the decoded scale.
pub proof fn law_fp4_is_exact_product(nibble: u8, scale: u8, w: u32, s: u32, r: u32)
    requires
        scale != 255,
        holds(w, e2m1_negative(nibble), e2m1_units(nibble) * pow2(148)),
        holds(s, false, pow2((scale + 22) as nat)),
        fp4_value(nibble, scale, r),
        is_finite(r),
    ensures
        is_finite(w),
        is_finite(s),
        is_negative(r) == is_negative(w),
        units(w) * units(s) == units(r) * pow2(149),
{
    let k = e2m1_units(nibble);
    law_e2m1_magnitudes(nibble);
    lemma2_to64();
    lemma_pow2_adds(4, 148);
    lemma_pow2_strictly_increases(152, 277);
    lemma_pow2_strictly_increases((scale + 22) as nat, 277);
    let a: nat = pow2(148);
    assert(k * a <= 16 * a) by (nonlinear_arith)
        requires
            k <= 16,
    ;
    lemma_pow2_adds(148, (scale + 22) as nat);
    lemma_pow2_adds((scale + 21) as nat, 149);
    let b: nat = pow2((scale + 22) as nat);
    let c: nat = pow2((scale + 21) as nat);
    let d: nat = pow2(149);
    assert((k * a) * b == (k * c) * d) by (nonlinear_arith)
        requires
            a * b == c * d,
    ;
}

proof fn lemma_e4m3_bound(byte: u8)
    ensures
        e4m3_units(byte) <= 0x40000,
        !e4m3_nan(byte) ==> e4m3_units(byte) <= 448 * 512,
        e4m3_units(0x7E) == 448 * 512,
{
    lemma2_to64();
    let e = (byte as int % 128) / 8;
    let m = byte as int % 8;
    if e > 0 {
        let p: nat = pow2((e - 1) as nat);
        if e < 15 {
            lemma_pow2_strictly_increases((e - 1) as nat, 14);
            assert(p <= 0x2000) by {
                if e < 14 {
                    lemma_pow2_strictly_increases((e - 1) as nat, 13);
                }
            }
        }
        let top: int = if e == 15 {
            0x4000
        } else {
            0x2000
        };
        assert((8 + m) * p <= (8 + m) * top) by (nonlinear_arith)
            requires
                p <= top,
                m >= 0,
        ;
    }
    assert(14 * pow2(14) == 14 * 0x4000);
}

/// 448 is the largest finite `e4m3` value, at `0x7E`.
pub proof fn law_e4m3_largest(byte: u8)
    requires
        !e4m3_nan(byte),
    ensures
        e4m3_units(byte) <= e4m3_units(0x7E),
        e4m3_units(0x7E) == 448 * pow2(9),
{
    lemma_e4m3_bound(byte);
    lemma2_to64();
}

/// The magnitudes of `e2m1`, in halves: 0, 1, 2, 3, 4, 6, 8, 12.
pub proof fn law_e2m1_magnitudes(nibble: u8)
    ensures
        e2m1_units(nibble) == seq![0nat, 1, 2, 3, 4, 6, 8, 12][nibble as int % 8],
{
    lemma2_to64();
    let i = nibble as int % 8;
    let e = i / 2;
    let m = nibble as int % 2;
    assert(m == i % 2);
    if e == 1 {
        assert((2 + m) * pow2(0) == 2 + m) by (nonlinear_arith)
            requires
                pow2(0) == 1,
        ;
    } else if e == 2 {
        assert((2 + m) * pow2(1) == (2 + m) * 2);
    } else if e == 3 {
        assert((2 + m) * pow2(2) == (2 + m) * 4);
    }
}

/// Rows that divide into whole blocks and whole bytes are covered by `rows · cols / 2` packed bytes and
/// `rows · (cols / block)` scales.
pub proof fn law_whole_blocks_are_covered(rows: int, cols: int, block: int)
    requires
        rows >= 0,
        cols >= 0,
        block > 0,
        cols % block == 0,
        cols % 2 == 0,
    ensures
        fp4_covered(rows * cols / 2, rows * (cols / block), rows, cols, block),
{
    let half = cols / 2;
    let q = cols / block;
    assert(rows * cols / 2 == rows * half) by {
        assert(rows * cols == (rows * half) * 2) by (nonlinear_arith)
            requires
                cols == half * 2,
        ;
    }
    assert forall|p: int|
        #![trigger fp4_byte_index(p, cols)]
        0 <= p < rows * cols implies fp4_byte_index(p, cols) < rows * cols / 2 && fp4_scale_index(
        p,
        cols,
        block,
    ) < rows * q by {
        lemma_divide(p, rows, cols);
        let i = p / cols;
        let j = p % cols;
        lemma_flat(i, j / 2, rows, half);
        assert(0 <= j / block < q) by {
            vstd::arithmetic::div_mod::lemma_fundamental_div_mod(cols, block);
            assert(cols == q * block) by (nonlinear_arith)
                requires
                    cols == block * q + 0,
            ;
            lemma_divide(j, q, block);
        }
        lemma_flat(i, j / block, rows, q);
    }
}

/// Flipping the sign bit of an `e4m3` byte flips the sign of its value and nothing else.
pub proof fn law_e4m3_sign_symmetry(byte: u8, a: u32, b: u32)
    requires
        byte < 127,
        holds(a, e4m3_negative(byte), e4m3_units(byte) * pow2(140)),
        holds(
            b,
            e4m3_negative((byte + 128) as u8),
            e4m3_units((byte + 128) as u8) * pow2(140),
        ),
    ensures
        b == crate::bits::negated(a),
{
    let other = (byte + 128) as u8;
    assert(other as int % 128 == byte as int % 128);
    assert(other as int % 8 == byte as int % 8);
    let m = e4m3_units(byte) * pow2(140);
    law_pattern_is_unique(crate::bits::negated(a), b, true, m);
}

/// The tiles of an FP8 weight lie in a row-major grid of `⌈cols / block⌉` columns: element `(i, j)` has
/// the scale of tile `(i / block, j / block)`.
pub proof fn law_scale_of_an_element(i: int, j: int, cols: int, block: int)
    requires
        block > 0,
        0 <= i,
        0 <= j < cols,
    ensures
        fp8_scale_index(i * cols + j, cols, block) == (i / block) * ((cols + block - 1) / block) + j
            / block,
        0 <= j / block < (cols + block - 1) / block,
{
    vstd::arithmetic::div_mod::lemma_fundamental_div_mod_converse(i * cols + j, cols, i, j);
    lemma_tile_column(j, cols, block);
}

/// A column of a weight lies in a tile of the grid.
proof fn lemma_tile_column(j: int, cols: int, block: int)
    requires
        block > 0,
        0 <= j < cols,
    ensures
        0 <= j / block < (cols + block - 1) / block,
{
    vstd::arithmetic::div_mod::lemma_div_is_ordered(j, cols - 1, block);
    vstd::arithmetic::div_mod::lemma_div_pos_is_pos(j, block);
    vstd::arithmetic::div_mod::lemma_div_plus_one(cols - 1, block);
    assert((cols - 1 + block) / block == (cols - 1) / block + 1);
}

/// Two elements of an FP8 weight share a scale if and only if they lie in one tile.
pub proof fn law_tiles_share_no_scale(i: int, j: int, i2: int, j2: int, cols: int, block: int)
    requires
        block > 0,
        0 <= i,
        0 <= i2,
        0 <= j < cols,
        0 <= j2 < cols,
    ensures
        fp8_scale_index(i * cols + j, cols, block) == fp8_scale_index(i2 * cols + j2, cols, block)
            <==> i / block == i2 / block && j / block == j2 / block,
{
    law_scale_of_an_element(i, j, cols, block);
    law_scale_of_an_element(i2, j2, cols, block);
    let w = (cols + block - 1) / block;
    let (a, c, a2, c2) = (i / block, j / block, i2 / block, j2 / block);
    vstd::arithmetic::div_mod::lemma_fundamental_div_mod_converse(a * w + c, w, a, c);
    vstd::arithmetic::div_mod::lemma_fundamental_div_mod_converse(a2 * w + c2, w, a2, c2);
}

/// Every one of the `⌈rows / block⌉ · ⌈cols / block⌉` scales belongs to an element: scale `k` to the
/// first element of the `k`-th tile in row-major order.
pub proof fn law_every_scale_is_used(k: int, rows: int, cols: int, block: int)
    requires
        block > 0,
        rows > 0,
        cols > 0,
        0 <= k < ((rows + block - 1) / block) * ((cols + block - 1) / block),
    ensures
        ({
            let w = (cols + block - 1) / block;
            let (i, j) = ((k / w) * block, (k % w) * block);
            &&& 0 <= i < rows
            &&& 0 <= j < cols
            &&& fp8_scale_index(i * cols + j, cols, block) == k
        }),
{
    let w = (cols + block - 1) / block;
    let h = (rows + block - 1) / block;
    vstd::arithmetic::div_mod::lemma_div_plus_one(cols - 1, block);
    vstd::arithmetic::div_mod::lemma_div_plus_one(rows - 1, block);
    assert(w == (cols - 1) / block + 1 && h == (rows - 1) / block + 1);
    vstd::arithmetic::div_mod::lemma_div_pos_is_pos(cols - 1, block);
    lemma_divide(k, h, w);
    let (a, c) = (k / w, k % w);
    lemma_tile_start(a, rows, block);
    lemma_tile_start(c, cols, block);
    law_scale_of_an_element(a * block, c * block, cols, block);
}

/// The first element of a tile lies inside the weight.
proof fn lemma_tile_start(a: int, n: int, block: int)
    requires
        block > 0,
        n > 0,
        0 <= a <= (n - 1) / block,
    ensures
        0 <= a * block < n,
        (a * block) / block == a,
{
    let q = (n - 1) / block;
    vstd::arithmetic::div_mod::lemma_fundamental_div_mod(n - 1, block);
    assert(0 <= a * block <= block * q) by (nonlinear_arith)
        requires
            0 <= a <= q,
            block > 0,
    ;
    vstd::arithmetic::div_mod::lemma_fundamental_div_mod_converse(a * block, block, a, 0);
}

/// Row `i` of an FP4 weight takes `cols / 2` bytes and `cols / block` scales: the elements `2k` and
/// `2k + 1` are the low and the high half of its `k`-th byte, and `block` neighbours share a scale.
pub proof fn law_nibbles_of_a_row(i: int, j: int, cols: int, block: int, byte: u8)
    requires
        block > 0,
        0 <= i,
        0 <= j < cols,
    ensures
        fp4_byte_index(i * cols + j, cols) == i * (cols / 2) + j / 2,
        fp4_scale_index(i * cols + j, cols, block) == i * (cols / block) + j / block,
        nibble_of(byte, j) == (if j == 2 * (j / 2) {
            byte & 0x0F
        } else {
            byte >> 4
        }),
        nibble_of(byte, 2 * (j / 2)) + 16 * nibble_of(byte, 2 * (j / 2) + 1) == byte,
{
    vstd::arithmetic::div_mod::lemma_fundamental_div_mod_converse(i * cols + j, cols, i, j);
    assert(byte & 0x0F == byte % 16) by (bit_vector);
    assert(byte >> 4 == byte / 16) by (bit_vector);
}

/// An FP8 product is a NaN if and only if the weight or the scale is one, and infinite if and only if
/// the exact product reaches `2^128`.
pub proof fn law_fp8_special_values(weight: u8, scale: u8, r: u32)
    requires
        fp8_value(weight, scale, r),
    ensures
        is_nan(r) <==> weight == 0x7F || weight == 0xFF || scale == 0xFF,
        !is_nan(r) ==> (is_negative(r) <==> weight >= 0x80),
        !is_nan(r) ==> (is_finite(r) <==> e4m3_units(weight) * pow2((scale + 13) as nat) < pow2(277)),
{
}

/// The `e4m3` magnitudes: in steps of one below eight, then each octave of eight bytes doubles the last.
pub proof fn law_e4m3_octaves(byte: u8)
    requires
        byte < 120,
    ensures
        byte < 8 ==> e4m3_units(byte) == byte,
        byte < 8 ==> e4m3_units((byte + 8) as u8) == byte + 8,
        byte >= 8 ==> e4m3_units((byte + 8) as u8) == 2 * e4m3_units(byte),
        e4m3_units((byte + 128) as u8) == e4m3_units(byte),
{
    lemma2_to64();
    let (e, m) = (byte as int / 8, byte as int % 8);
    let up = (byte + 8) as u8;
    let other = (byte + 128) as u8;
    assert(up as int / 8 == e + 1 && up as int % 8 == m && up as int % 128 == up);
    assert(other as int % 128 == byte && other as int % 8 == m);
    if e >= 1 {
        lemma_pow2_unfold(e as nat);
        let p: nat = pow2((e - 1) as nat);
        assert((8 + m) * (2 * p) == 2 * ((8 + m) * p)) by (nonlinear_arith);
    } else {
        assert((8 + m) * pow2(0) == 8 + m) by (nonlinear_arith)
            requires
                pow2(0) == 1,
        ;
    }
}

} // verus!
