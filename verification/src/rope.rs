//! YaRN rotary position embeddings.
//!
//! Consecutive pairs `(x[2i], x[2i+1])` form a complex number that is rotated by the angle
//! `pos * freq[i]`. YaRN divides the low frequencies by `factor`, keeps the high ones, and ramps
//! linearly between the two correction bounds. Frequencies are computed in double precision and
//! stored as single-precision cosine and sine tables.

use vstd::prelude::*;

use crate::bits::{double_lower, DOUBLE_ONE, DOUBLE_TWO, DOUBLE_ZERO};
use crate::double;
use crate::error::TensorError;
use crate::kernel;
use crate::shape::axes2;
use crate::tensor::Tensor;

#[allow(unused_imports)]
use crate::bits::{agrees, double_agrees, double_is_nan, double_less, double_rank, negated};
#[allow(unused_imports)]
use crate::double::{
    ceil_gives, dadd, dcos_gives, ddiv, dint, dlog_gives, dmul, dpow_gives, dsin_gives, dsub,
    floor_gives,
};
#[allow(unused_imports)]
use crate::kernel::{fadd, fmul, fsub, single};
#[allow(unused_imports)]
use crate::shape::{fits, inner, lemma_divide, lemma_flat, lemma_grid, product, shape2, shape4};
#[allow(unused_imports)]
use crate::tensor::{joined, look_up_ok, narrowed, rows_looked_up, BLANK_ROW, V};

verus! {

/// π.
pub const DOUBLE_PI: u64 = 0x4009_21FB_5444_2D18;

/// 0.001, the width of a ramp whose bounds coincide.
pub const DOUBLE_THOUSANDTH: u64 = 0x3F50_624D_D2F1_A9FC;

/// `2^32` in double precision.
pub const DOUBLE_TWO_TO_32: u64 = 0x41F0_0000_0000_0000;

/// The intermediate values of a correction dimension.
pub struct DimSteps {
    pub high: u64,
    pub length: u64,
    pub twofold: u64,
    pub turns: u64,
    pub ratio: u64,
    pub log_ratio: u64,
    pub scaled: u64,
    pub log_base: u64,
    pub below: u64,
}

/// A length as a double, from its two halves of 32 bits. The halves and the shifted high half are
/// exact, so the sum is the length rounded to nearest.
pub open spec fn length_steps(n: int, high: u64, r: u64) -> bool {
    &&& double_agrees(high, dmul(dint((n / 0x1_0000_0000) as i64), DOUBLE_TWO_TO_32))
    &&& double_agrees(r, dadd(high, dint((n % 0x1_0000_0000) as i64)))
}

/// `r = dim · ln(seq_len / (rotations · 2π)) / (2 ln base)`.
pub open spec fn correction_dim_steps(
    rotations: u64,
    dim: i64,
    base: u64,
    seq_len: int,
    t: DimSteps,
    r: u64,
) -> bool {
    &&& length_steps(seq_len, t.high, t.length)
    &&& double_agrees(t.twofold, dmul(rotations, DOUBLE_TWO))
    &&& double_agrees(t.turns, dmul(t.twofold, DOUBLE_PI))
    &&& double_agrees(t.ratio, ddiv(t.length, t.turns))
    &&& dlog_gives(t.ratio, t.log_ratio)
    &&& double_agrees(t.scaled, dmul(dint(dim), t.log_ratio))
    &&& dlog_gives(base, t.log_base)
    &&& double_agrees(t.below, dmul(DOUBLE_TWO, t.log_base))
    &&& double_agrees(r, ddiv(t.scaled, t.below))
}

pub open spec fn correction_dim_gives(
    rotations: u64,
    dim: i64,
    base: u64,
    seq_len: int,
    r: u64,
) -> bool {
    exists|t: DimSteps| correction_dim_steps(rotations, dim, base, seq_len, t, r)
}

/// The value, at least `lo`; `lo` for a NaN.
pub open spec fn double_floor_at(x: u64, lo: u64) -> u64 {
    if double_is_nan(x) || double_less(x, lo) {
        lo
    } else {
        x
    }
}

/// The value, at most `hi`; `hi` for a NaN.
pub open spec fn double_cap_at(x: u64, hi: u64) -> u64 {
    if double_is_nan(x) || double_less(hi, x) {
        hi
    } else {
        x
    }
}

/// The value held in `[0, 1]`; a NaN stays.
pub open spec fn unit_clamped(x: u64) -> u64 {
    if double_less(x, DOUBLE_ZERO) {
        DOUBLE_ZERO
    } else if double_less(DOUBLE_ONE, x) {
        DOUBLE_ONE
    } else {
        x
    }
}

pub open spec fn double_equal(a: u64, b: u64) -> bool {
    !double_is_nan(a) && !double_is_nan(b) && double_rank(a) == double_rank(b)
}

/// The lower bound of the ramp and its width.
pub struct Ramp {
    pub low: u64,
    pub width: u64,
}

/// The intermediate values of a ramp.
pub struct RangeSteps {
    pub low_dim: u64,
    pub low_whole: u64,
    pub high_dim: u64,
    pub high_whole: u64,
}

/// The ramp between the correction bounds, which are rounded outwards and clamped to `0 .. dim`.
pub open spec fn ramp_steps(
    fast: u64,
    slow: u64,
    dim: i64,
    base: u64,
    seq_len: int,
    t: RangeSteps,
    r: Ramp,
) -> bool {
    let high = double_cap_at(t.high_whole, dint((dim - 1) as i64));
    &&& correction_dim_gives(fast, dim, base, seq_len, t.low_dim)
    &&& floor_gives(t.low_dim, t.low_whole)
    &&& r.low == double_floor_at(t.low_whole, DOUBLE_ZERO)
    &&& correction_dim_gives(slow, dim, base, seq_len, t.high_dim)
    &&& ceil_gives(t.high_dim, t.high_whole)
    &&& if double_equal(r.low, high) {
        r.width == DOUBLE_THOUSANDTH
    } else {
        double_agrees(r.width, dsub(high, r.low))
    }
}

pub open spec fn ramp_gives(
    fast: u64,
    slow: u64,
    dim: i64,
    base: u64,
    seq_len: int,
    r: Ramp,
) -> bool {
    exists|t: RangeSteps| ramp_steps(fast, slow, dim, base, seq_len, t, r)
}

/// The intermediate values of a frequency.
pub struct FrequencySteps {
    pub exponent: u64,
    pub power: u64,
    pub plain: u64,
    pub offset: u64,
    pub place: u64,
    pub smooth: u64,
    pub rest: u64,
    pub slowed: u64,
    pub slow_part: u64,
    pub kept: u64,
}

/// `f = 1 / base^(2i / dim)`, and with a ramp `f / factor · (1 - smooth) + f · smooth`, where
/// `1 - smooth` is the position of `i` on the ramp.
pub open spec fn frequency_steps(
    dim: i64,
    base: u64,
    factor: u64,
    ramp: Option<Ramp>,
    i: int,
    t: FrequencySteps,
    f: u64,
) -> bool {
    &&& double_agrees(t.exponent, ddiv(dint((2 * i) as i64), dint(dim)))
    &&& dpow_gives(base, t.exponent, t.power)
    &&& double_agrees(t.plain, ddiv(DOUBLE_ONE, t.power))
    &&& match ramp {
        None => f == t.plain,
        Some(r) => {
            &&& double_agrees(t.offset, dsub(dint(i as i64), r.low))
            &&& double_agrees(t.place, ddiv(t.offset, r.width))
            &&& double_agrees(t.smooth, dsub(DOUBLE_ONE, unit_clamped(t.place)))
            &&& double_agrees(t.rest, dsub(DOUBLE_ONE, t.smooth))
            &&& double_agrees(t.slowed, ddiv(t.plain, factor))
            &&& double_agrees(t.slow_part, dmul(t.slowed, t.rest))
            &&& double_agrees(t.kept, dmul(t.plain, t.smooth))
            &&& double_agrees(f, dadd(t.slow_part, t.kept))
        },
    }
}

pub open spec fn frequency_gives(
    dim: i64,
    base: u64,
    factor: u64,
    ramp: Option<Ramp>,
    i: int,
    f: u64,
) -> bool {
    exists|t: FrequencySteps| frequency_steps(dim, base, factor, ramp, i, t, f)
}

/// `c` and `s` are the single-precision cosine and sine of `position · f`.
pub open spec fn entry_gives(position: int, f: u64, c: u32, s: u32) -> bool {
    exists|angle: u64, dc: u64, ds: u64|
        double_agrees(angle, dmul(dint(position as i64), f)) && #[trigger] dcos_gives(angle, dc)
            && #[trigger] dsin_gives(angle, ds) && agrees(c, single(dc)) && agrees(s, single(ds))
}

/// The tables hold the cosine and sine of every position and frequency.
pub open spec fn tables_give(freqs: Seq<u64>, max_seq: int, cos: V, sin: V) -> bool {
    let half = freqs.len() as int;
    &&& cos.data.len() == max_seq * half
    &&& sin.data.len() == max_seq * half
    &&& forall|q: int|
        #![trigger cos.data[q]]
        #![trigger sin.data[q]]
        0 <= q < max_seq * half ==> entry_gives(q / half, freqs[q % half], cos.data[q], sin.data[q])
}

/// The tables of a YaRN configuration: the ramp exists if and only if the original length is set,
/// there is one frequency per pair, and the tables hold the cosines and sines.
pub open spec fn yarn_tables(
    dim: usize,
    max_seq: usize,
    original: usize,
    base: u64,
    factor: u64,
    fast: u64,
    slow: u64,
    ramp: Option<Ramp>,
    freqs: Seq<u64>,
    rope: RopeView,
) -> bool {
    &&& ramp is Some <==> original > 0
    &&& ramp matches Some(p) ==> ramp_gives(
        fast,
        slow,
        dim as i64,
        base,
        original as int,
        p,
    )
    &&& freqs.len() == dim / 2
    &&& forall|i: int|
        0 <= i < freqs.len() ==> frequency_gives(
            dim as i64,
            base,
            factor,
            ramp,
            i,
            #[trigger] freqs[i],
        )
    &&& tables_give(freqs, max_seq as int, rope.cos, rope.sin)
}

fn sum_of(a: u64, b: u64) -> (r: u64)
    ensures
        double_agrees(r, dadd(a, b)),
{
    let r = double::plus(&vec![a], &vec![b]);
    r[0]
}

fn difference_of(a: u64, b: u64) -> (r: u64)
    ensures
        double_agrees(r, dsub(a, b)),
{
    let r = double::minus(&vec![a], &vec![b]);
    r[0]
}

/// The product of two doubles.
pub(crate) fn product_of(a: u64, b: u64) -> (r: u64)
    ensures
        double_agrees(r, dmul(a, b)),
{
    let r = double::times(&vec![a], &vec![b]);
    r[0]
}

fn quotient_of(a: u64, b: u64) -> (r: u64)
    ensures
        double_agrees(r, ddiv(a, b)),
{
    let r = double::over(&vec![a], &vec![b]);
    r[0]
}

fn log_of(a: u64) -> (r: u64)
    ensures
        dlog_gives(a, r),
{
    let r = double::log(&vec![a]);
    r[0]
}

/// A whole number as a double.
pub(crate) fn whole_of(n: i64) -> (r: u64)
    ensures
        r == dint(n),
{
    let r = double::whole(&vec![n]);
    r[0]
}

/// The rotary dimension at which a number of rotations occurs over `seq_len` positions.
fn correction_dim(rotations: u64, dim: i64, base: u64, seq_len: u64) -> (r: u64)
    ensures
        correction_dim_gives(rotations, dim, base, seq_len as int, r),
{
    let top: i64 = (seq_len / 0x1_0000_0000) as i64;
    let rest: i64 = (seq_len % 0x1_0000_0000) as i64;
    let high: u64 = product_of(whole_of(top), DOUBLE_TWO_TO_32);
    let length: u64 = sum_of(high, whole_of(rest));
    let twofold: u64 = product_of(rotations, DOUBLE_TWO);
    let turns: u64 = product_of(twofold, DOUBLE_PI);
    let ratio: u64 = quotient_of(length, turns);
    let log_ratio: u64 = log_of(ratio);
    let scaled: u64 = product_of(whole_of(dim), log_ratio);
    let log_base: u64 = log_of(base);
    let below: u64 = product_of(DOUBLE_TWO, log_base);
    let r: u64 = quotient_of(scaled, below);
    assert(correction_dim_steps(
        rotations,
        dim,
        base,
        seq_len as int,
        DimSteps { high, length, twofold, turns, ratio, log_ratio, scaled, log_base, below },
        r,
    ));
    r
}

/// Whether a double is a NaN.
fn check_nan(x: u64) -> (r: bool)
    ensures
        r == double_is_nan(x),
{
    let m: u64 = if x >= 0x8000_0000_0000_0000 {
        x - 0x8000_0000_0000_0000
    } else {
        x
    };
    m > 0x7FF0_0000_0000_0000
}

/// The correction bounds as a ramp.
fn correction_range(fast: u64, slow: u64, dim: i64, base: u64, seq_len: u64) -> (r: Ramp)
    requires
        dim > 0,
    ensures
        ramp_gives(fast, slow, dim, base, seq_len as int, r),
{
    let low_dim: u64 = correction_dim(fast, dim, base, seq_len);
    let floors = double::floor(&vec![low_dim]);
    let low_whole: u64 = floors[0];
    let low: u64 = if check_nan(low_whole) || double_lower(low_whole, DOUBLE_ZERO) {
        DOUBLE_ZERO
    } else {
        low_whole
    };
    let high_dim: u64 = correction_dim(slow, dim, base, seq_len);
    let ceils = double::ceil(&vec![high_dim]);
    let high_whole: u64 = ceils[0];
    let top: u64 = whole_of(dim - 1);
    let high: u64 = if check_nan(high_whole) || double_lower(top, high_whole) {
        top
    } else {
        high_whole
    };
    let same: bool = !check_nan(low) && !check_nan(high) && !double_lower(low, high)
        && !double_lower(high, low);
    let width: u64 = if same {
        DOUBLE_THOUSANDTH
    } else {
        difference_of(high, low)
    };
    let r = Ramp { low, width };
    assert(ramp_steps(
        fast,
        slow,
        dim,
        base,
        seq_len as int,
        RangeSteps { low_dim, low_whole, high_dim, high_whole },
        r,
    ));
    r
}

/// The frequency of pair `i`.
fn frequency(dim: i64, base: u64, factor: u64, ramp: &Option<Ramp>, i: i64) -> (f: u64)
    requires
        0 <= i,
        2 * i <= dim,
    ensures
        frequency_gives(dim, base, factor, *ramp, i as int, f),
{
    let exponent: u64 = quotient_of(whole_of(2 * i), whole_of(dim));
    let power: u64 = double::powf(base, exponent);
    let plain: u64 = quotient_of(DOUBLE_ONE, power);
    match ramp {
        None => {
            assert(frequency_steps(
                dim,
                base,
                factor,
                *ramp,
                i as int,
                FrequencySteps {
                    exponent,
                    power,
                    plain,
                    offset: 0,
                    place: 0,
                    smooth: 0,
                    rest: 0,
                    slowed: 0,
                    slow_part: 0,
                    kept: 0,
                },
                plain,
            ));
            plain
        },
        Some(r) => {
            let offset: u64 = difference_of(whole_of(i), r.low);
            let place: u64 = quotient_of(offset, r.width);
            let held: u64 = if double_lower(place, DOUBLE_ZERO) {
                DOUBLE_ZERO
            } else if double_lower(DOUBLE_ONE, place) {
                DOUBLE_ONE
            } else {
                place
            };
            let smooth: u64 = difference_of(DOUBLE_ONE, held);
            let rest: u64 = difference_of(DOUBLE_ONE, smooth);
            let slowed: u64 = quotient_of(plain, factor);
            let slow_part: u64 = product_of(slowed, rest);
            let kept: u64 = product_of(plain, smooth);
            let f: u64 = sum_of(slow_part, kept);
            assert(frequency_steps(
                dim,
                base,
                factor,
                *ramp,
                i as int,
                FrequencySteps {
                    exponent,
                    power,
                    plain,
                    offset,
                    place,
                    smooth,
                    rest,
                    slowed,
                    slow_part,
                    kept,
                },
                f,
            ));
            f
        },
    }
}

/// Precomputed cosine and sine tables, `[max_seq, dim / 2]` each.
pub struct Rope {
    cos: Tensor,
    sin: Tensor,
}

/// The content of a [`Rope`].
pub struct RopeView {
    pub cos: V,
    pub sin: V,
}

impl RopeView {
    /// Two matrices of one shape.
    pub open spec fn wf(self) -> bool {
        self.cos.wf() && self.sin.wf() && self.cos.shape.len() == 2 && self.sin.shape
            == self.cos.shape
    }
}

impl View for Rope {
    type V = RopeView;

    closed spec fn view(&self) -> RopeView {
        RopeView { cos: self.cos@, sin: self.sin@ }
    }
}

impl Rope {
    #[verifier::type_invariant]
    spec fn inv(self) -> bool {
        self.cos@.wf() && self.sin@.wf() && self.cos@.shape.len() == 2 && self.sin@.shape
            == self.cos@.shape
    }

    /// Builds the tables for `max_seq` positions. `original_seq_len == 0` disables YaRN. The real
    /// parameters are double-precision patterns.
    pub fn new(
        dim: usize,
        max_seq: usize,
        original_seq_len: usize,
        base: u64,
        factor: u64,
        beta_fast: u64,
        beta_slow: u64,
    ) -> (r: Result<Rope, TensorError>)
        requires
            original_seq_len > 0 ==> dim > 0,
            dim <= i64::MAX,
            max_seq <= i64::MAX,
        ensures
            r is Ok <==> fits(shape2(max_seq, dim / 2)),
            r matches Err(e) ==> e == TensorError::Shape,
            r matches Ok(rope) ==> {
                &&& rope@.wf()
                &&& rope@.cos.shape == shape2(max_seq, dim / 2)
                &&& exists|ramp: Option<Ramp>, freqs: Seq<u64>|
                    yarn_tables(
                        dim,
                        max_seq,
                        original_seq_len,
                        base,
                        factor,
                        beta_fast,
                        beta_slow,
                        ramp,
                        freqs,
                        rope@,
                    )
            },
    {
        let half: usize = dim / 2;
        let shape: Vec<usize> = axes2(max_seq, half);
        if !crate::shape::check_fits(&shape) {
            return Err(TensorError::Shape);
        }
        let total: usize = crate::shape::count(&shape, 0, 2);
        proof {
            assert(shape@.subrange(0, 2) =~= shape@);
            lemma_grid(max_seq, half);
        }
        let ramp: Option<Ramp> = if original_seq_len > 0 {
            Some(
                correction_range(
                    beta_fast,
                    beta_slow,
                    dim as i64,
                    base,
                    original_seq_len as u64,
                ),
            )
        } else {
            None
        };
        let mut freqs: Vec<u64> = Vec::new();
        while freqs.len() < half
            invariant
                half == dim / 2,
                dim <= i64::MAX,
                freqs@.len() <= half,
                forall|i: int|
                    0 <= i < freqs@.len() ==> frequency_gives(
                        dim as i64,
                        base,
                        factor,
                        ramp,
                        i,
                        #[trigger] freqs@[i],
                    ),
            decreases half - freqs@.len(),
        {
            let f: u64 = frequency(dim as i64, base, factor, &ramp, freqs.len() as i64);
            freqs.push(f);
        }
        let mut positions: Vec<i64> = Vec::new();
        let mut repeated: Vec<u64> = Vec::new();
        let mut q: usize = 0;
        while q < total
            invariant
                q <= total,
                total == max_seq * half,
                max_seq <= i64::MAX,
                half == freqs@.len(),
                positions@.len() == q,
                repeated@.len() == q,
                forall|j: int|
                    0 <= j < q ==> #[trigger] positions@[j] == j / half as int && positions@[j]
                        >= 0,
                forall|j: int| 0 <= j < q ==> #[trigger] repeated@[j] == freqs@[j % half as int],
            decreases total - q,
        {
            proof {
                lemma_divide(q as int, max_seq as int, half as int);
            }
            positions.push((q / half) as i64);
            repeated.push(freqs[q % half]);
            q = q + 1;
        }
        let angles = double::times(&double::whole(&positions), &repeated);
        let exact_cos = double::cos(&angles);
        let exact_sin = double::sin(&angles);
        let cos = Tensor::new(axes2(max_seq, half), double::singles(&exact_cos))?;
        let sin = Tensor::new(axes2(max_seq, half), double::singles(&exact_sin))?;
        proof {
            assert forall|j: int|
                #![trigger cos@.data[j]]
                #![trigger sin@.data[j]]
                0 <= j < total implies entry_gives(
                j / half as int,
                freqs@[j % half as int],
                cos@.data[j],
                sin@.data[j],
            ) by {
                assert(positions@[j] == j / half as int);
                assert(double_agrees(angles@[j], dmul(dint(positions@[j]), repeated@[j])));
                assert(dcos_gives(angles@[j], exact_cos@[j]));
                assert(dsin_gives(angles@[j], exact_sin@[j]));
            }
        }
        let rope = Rope { cos, sin };
        assert(yarn_tables(
            dim,
            max_seq,
            original_seq_len,
            base,
            factor,
            beta_fast,
            beta_slow,
            ramp,
            freqs@,
            rope@,
        ));
        Ok(rope)
    }
}

// --- rotation -------------------------------------------------------------------------------

/// `(re + i·ro) = (e + i·o)(c + i·s)`, each product and each sum rounded.
pub open spec fn turned(e: u32, o: u32, c: u32, s: u32, re: u32, ro: u32) -> bool {
    &&& exists|a: u32, b: u32|
        agrees(a, fmul(e, c)) && agrees(b, fmul(o, s)) && agrees(re, #[trigger] fsub(a, b))
    &&& exists|a: u32, b: u32|
        agrees(a, fmul(e, s)) && agrees(b, fmul(o, c)) && agrees(ro, #[trigger] fadd(a, b))
}

/// Where the angle of pair `q` of a `[b, s, h, d]` tensor stands in a table of `s` rows.
pub open spec fn table_index(x: Seq<usize>, q: int) -> int {
    let half = x[3] as int / 2;
    (((q / half) / x[2] as int) % x[1] as int) * half + q % half
}

/// Pair `q` of `y` is pair `q` of `x` rotated by its position's angle, backwards if `inverse`.
pub open spec fn pair_turned(
    x: V,
    cos: Seq<u32>,
    sin: Seq<u32>,
    inverse: bool,
    y: V,
    q: int,
) -> bool {
    let k = table_index(x.shape, q);
    turned(
        x.data[2 * q],
        x.data[2 * q + 1],
        cos[k],
        if inverse {
            negated(sin[k])
        } else {
            sin[k]
        },
        y.data[2 * q],
        y.data[2 * q + 1],
    )
}

/// A four-axis tensor of even width, and one table entry per position and pair.
pub open spec fn rotate_ok(x: Seq<usize>, cos: int, sin: int) -> bool {
    &&& x.len() == 4
    &&& x[3] % 2 == 0 || product(x) == 0
    &&& cos == x[1] * (x[3] / 2)
    &&& sin == x[1] * (x[3] / 2)
}

/// `y` is `x` with every pair rotated.
pub open spec fn rotated(x: V, cos: Seq<u32>, sin: Seq<u32>, inverse: bool, y: V) -> bool {
    &&& y.shape == x.shape
    &&& y.data.len() == x.data.len()
    &&& forall|q: int|
        0 <= q < x.data.len() / 2 ==> #[trigger] pair_turned(x, cos, sin, inverse, y, q)
}

/// The table rows of the positions `start .. start + s`.
pub open spec fn rows_from(table: V, start: int, s: int) -> Seq<u32> {
    narrowed(table, 0, start, s).data
}

pub open spec fn apply_ok(x: Seq<usize>, table: Seq<usize>, start: int) -> bool {
    &&& x.len() == 4
    &&& start + x[1] <= table[0]
    &&& rotate_ok(x, x[1] * table[1], x[1] * table[1])
}

pub open spec fn apply_at_ok(x: Seq<usize>, table: Seq<usize>, positions: Seq<usize>) -> bool {
    &&& look_up_ok(table, positions)
    &&& rotate_ok(x, positions.len() * table[1], positions.len() * table[1])
}

impl Rope {
    /// The `[max_seq, dim / 2]` cosine table.
    pub fn cos(&self) -> (r: &Tensor)
        ensures
            r@ == self@.cos,
            self@.wf(),
    {
        proof {
            use_type_invariant(self);
        }
        &self.cos
    }

    /// The `[max_seq, dim / 2]` sine table.
    pub fn sin(&self) -> (r: &Tensor)
        ensures
            r@ == self@.sin,
            self@.wf(),
    {
        proof {
            use_type_invariant(self);
        }
        &self.sin
    }

    /// Rotates the last axis of `x` (`[b, s, h, d]`) by the angles of `start_pos .. start_pos + s`;
    /// `inverse` rotates back.
    pub fn apply(&self, x: &Tensor, start_pos: usize, inverse: bool) -> (r: Result<Tensor, TensorError>)
        ensures
            self@.wf(),
            r is Ok <==> apply_ok(x@.shape, self@.cos.shape, start_pos as int),
            r matches Ok(y) ==> y@.wf() && rotated(
                x@,
                rows_from(self@.cos, start_pos as int, x@.shape[1] as int),
                rows_from(self@.sin, start_pos as int, x@.shape[1] as int),
                inverse,
                y@,
            ),
            r matches Err(e) ==> e == TensorError::Shape,
    {
        proof {
            use_type_invariant(self);
        }
        let (_, s, _, _) = x.dims4()?;
        let cos = self.cos.narrow(0, start_pos, s)?;
        let sin = self.sin.narrow(0, start_pos, s)?;
        proof {
            lemma_rows(self@.cos.shape, s);
            lemma_rows(self@.sin.shape, s);
        }
        apply_rows(x, &cos, &sin, inverse)
    }

    /// Rotates the last axis of `x` by the angles of the given positions, one per query: the
    /// compressor rotates each block at its first token, `0, ratio, 2 · ratio, ..`. A query at
    /// [`BLANK_ROW`](crate::tensor::BLANK_ROW) is multiplied by zeros.
    pub fn apply_at(&self, x: &Tensor, positions: &Vec<usize>, inverse: bool) -> (r: Result<
        Tensor,
        TensorError,
    >)
        ensures
            self@.wf(),
            r is Ok <==> apply_at_ok(x@.shape, self@.cos.shape, positions@),
            r matches Ok(y) ==> y@.wf() && rotated(
                x@,
                rows_looked_up(self@.cos, positions@).data,
                rows_looked_up(self@.sin, positions@).data,
                inverse,
                y@,
            ),
            r matches Err(e) ==> e == TensorError::Shape,
    {
        proof {
            use_type_invariant(self);
        }
        let n: usize = positions.len();
        match (self.cos.look_up(positions), self.sin.look_up(positions)) {
            (Ok(cos), Ok(sin)) => {
                proof {
                    lemma_rows(self@.cos.shape, n);
                    lemma_rows(self@.sin.shape, n);
                }
                apply_rows(x, &cos, &sin, inverse)
            },
            _ => Err(TensorError::Shape),
        }
    }
}

/// The element count of `n` rows of a matrix.
proof fn lemma_rows(table: Seq<usize>, n: usize)
    requires
        table.len() == 2,
    ensures
        product(table.update(0, n)) == n * table[1],
{
    assert(table.update(0, n) =~= shape2(n, table[1]));
    lemma_grid(n, table[1]);
}

/// The rotation of a tensor by table rows that are already selected for its positions.
fn apply_rows(x: &Tensor, cos: &Tensor, sin: &Tensor, inverse: bool) -> (r: Result<Tensor, TensorError>)
    ensures
        r is Ok <==> rotate_ok(x@.shape, cos@.data.len() as int, sin@.data.len() as int),
        r matches Ok(y) ==> y@.wf() && rotated(x@, cos@.data, sin@.data, inverse, y@),
        r matches Err(e) ==> e == TensorError::Shape,
{
    let (b, s, h, d) = x.dims4()?;
    let half: usize = d / 2;
    let n: usize = x.data().len();
    if d % 2 != 0 && n != 0 {
        return Err(TensorError::Shape);
    }
    let (given_cos, given_sin): (usize, usize) = (cos.data().len(), sin.data().len());
    let rows: usize = match s.checked_mul(half) {
        Some(v) => v,
        None => {
            return Err(TensorError::Shape);
        },
    };
    if given_cos != rows || given_sin != rows {
        return Err(TensorError::Shape);
    }
    let pairs: usize = n / 2;
    proof {
        crate::shape::lemma_cube4(b, s, h, d);
        if n > 0 {
            let k: int = b * s * h;
            assert(k * (2 * half) == 2 * (k * half)) by (nonlinear_arith);
            assert(d == 2 * half);
            assert(n == 2 * (k * half));
        }
    }
    let mut even: Vec<u32> = Vec::new();
    let mut odd: Vec<u32> = Vec::new();
    let mut c: Vec<u32> = Vec::new();
    let mut t: Vec<u32> = Vec::new();
    let mut q: usize = 0;
    while q < pairs
        invariant
            x@.shape == shape4(b, s, h, d),
            half == d / 2,
            n == x@.data.len(),
            pairs == n / 2,
            n > 0 ==> n == 2 * (b * s * h * half),
            cos@.data.len() == s * half,
            sin@.data.len() == s * half,
            cos@.data.len() <= usize::MAX,
            q <= pairs,
            even@.len() == q,
            odd@.len() == q,
            c@.len() == q,
            t@.len() == q,
            forall|j: int| 0 <= j < q ==> #[trigger] even@[j] == x@.data[2 * j],
            forall|j: int| 0 <= j < q ==> #[trigger] odd@[j] == x@.data[2 * j + 1],
            forall|j: int|
                0 <= j < q ==> #[trigger] c@[j] == cos@.data[table_index(x@.shape, j)],
            forall|j: int|
                0 <= j < q ==> #[trigger] t@[j] == sin@.data[table_index(x@.shape, j)],
        decreases pairs - q,
    {
        proof {
            lemma_divide(q as int, b * s * h, half as int);
            lemma_divide(q as int / half as int, b * s, h as int);
            lemma_divide((q as int / half as int) / h as int, b as int, s as int);
            lemma_flat(
                ((q as int / half as int) / h as int) % s as int,
                q as int % half as int,
                s as int,
                half as int,
            );
        }
        even.push(x.data()[2 * q]);
        odd.push(x.data()[2 * q + 1]);
        let row: usize = ((q / half) / h) % s;
        proof {
            assert(row * half >= 0) by (nonlinear_arith);
        }
        let k: usize = row * half + q % half;
        c.push(cos.data()[k]);
        t.push(sin.data()[k]);
        q = q + 1;
    }
    let signed = if inverse {
        kernel::neg(&t)
    } else {
        crate::tensor::copied(&t)
    };
    let ec = kernel::times(&even, &c);
    let os = kernel::times(&odd, &signed);
    let es = kernel::times(&even, &signed);
    let oc = kernel::times(&odd, &c);
    let out_even = kernel::minus(&ec, &os);
    let out_odd = kernel::plus(&es, &oc);
    let mut out: Vec<u32> = Vec::new();
    let mut i: usize = 0;
    while i < pairs
        invariant
            i <= pairs,
            pairs == out_even@.len(),
            pairs == out_odd@.len(),
            out@.len() == 2 * i,
            forall|j: int|
                0 <= j < i ==> out@[2 * j] == #[trigger] out_even@[j],
            forall|j: int|
                0 <= j < i ==> out@[2 * j + 1] == #[trigger] out_odd@[j],
        decreases pairs - i,
    {
        out.push(out_even[i]);
        out.push(out_odd[i]);
        i = i + 1;
    }
    let y = Tensor::new(crate::shape::axes4(b, s, h, d), out)?;
    proof {
        assert forall|j: int| 0 <= j < n as int / 2 implies #[trigger] pair_turned(
            x@,
            cos@.data,
            sin@.data,
            inverse,
            y@,
            j,
        ) by {
            assert(y@.data[2 * j] == out_even@[j]);
            assert(y@.data[2 * j + 1] == out_odd@[j]);
            assert(agrees(out_even@[j], fsub(ec@[j], os@[j])));
            assert(agrees(out_odd@[j], fadd(es@[j], oc@[j])));
            assert(agrees(ec@[j], fmul(even@[j], c@[j])));
            assert(agrees(os@[j], fmul(odd@[j], signed@[j])));
            assert(agrees(es@[j], fmul(even@[j], signed@[j])));
            assert(agrees(oc@[j], fmul(odd@[j], c@[j])));
        }
    }
    Ok(y)
}

// --- rotation of the last columns ----------------------------------------------------------

/// `y` is `x` with its last `rd` columns rotated and the columns before them as they were.
pub open spec fn tail_rotated(
    x: V,
    cos: Seq<u32>,
    sin: Seq<u32>,
    rd: int,
    inverse: bool,
    y: V,
) -> bool {
    let axis = x.shape.len() - 1;
    let keep = x.shape[axis] - rd;
    exists|t: V|
        #[trigger] rotated(narrowed(x, axis, keep, rd), cos, sin, inverse, t) && y == joined(
            narrowed(x, axis, 0, keep),
            t,
            axis,
        )
}

pub open spec fn tail_ok(x: Seq<usize>, table: Seq<usize>, start: int, rd: usize) -> bool {
    x.len() > 0 && apply_ok(x.update(x.len() - 1, rd), table, start)
}

pub open spec fn tail_at_ok(
    x: Seq<usize>,
    table: Seq<usize>,
    positions: Seq<usize>,
    rd: usize,
) -> bool {
    x.len() > 0 && apply_at_ok(x.update(x.len() - 1, rd), table, positions)
}

/// Cuts a tensor before its last `rd` columns.
fn split_tail(x: &Tensor, rd: usize) -> (r: (Tensor, Tensor))
    requires
        x@.shape.len() > 0,
        rd <= x@.shape.last(),
    ensures
        r.0@.wf(),
        r.1@.wf(),
        r.0@ == narrowed(x@, x@.shape.len() - 1, 0, x@.shape.last() - rd),
        r.1@ == narrowed(x@, x@.shape.len() - 1, x@.shape.last() - rd, rd as int),
{
    let axis: usize = x.rank() - 1;
    let d: usize = x.dims()[axis];
    match (x.narrow(axis, 0, d - rd), x.narrow(axis, d - rd, rd)) {
        (Ok(head), Ok(tail)) => (head, tail),
        _ => (x.duplicate(), x.duplicate()),
    }
}

/// The pieces of a tensor go together again.
proof fn lemma_pieces_join(x: Seq<usize>, rd: usize)
    requires
        x.len() > 0,
        fits(x),
        rd <= x.last(),
    ensures
        crate::tensor::cat_ok(
            x.update(x.len() - 1, (x.last() - rd) as usize),
            x.update(x.len() - 1, rd),
            x.len() - 1,
        ),
        x.update(x.len() - 1, (x.last() - rd) as usize).update(x.len() - 1, x.last()) == x,
{
    let axis = x.len() - 1;
    let a = x.update(axis, (x.last() - rd) as usize);
    let b = x.update(axis, rd);
    assert(b =~= a.update(axis, rd));
    assert(a.update(axis, x.last()) =~= x);
}

/// Rotates only the last `rd` columns of `x` (`[b, s, h, d]`), from position `start_pos` on.
pub fn rope_tail(rope: &Rope, x: &Tensor, start_pos: usize, rd: usize, inverse: bool) -> (r: Result<
    Tensor,
    TensorError,
>)
    requires
        x@.shape.len() > 0 ==> rd <= x@.shape.last(),
    ensures
        rope@.wf(),
        r is Ok <==> tail_ok(x@.shape, rope@.cos.shape, start_pos as int, rd),
        r matches Ok(y) ==> y@.wf() && y@.shape == x@.shape && tail_rotated(
            x@,
            rows_from(rope@.cos, start_pos as int, x@.shape[1] as int),
            rows_from(rope@.sin, start_pos as int, x@.shape[1] as int),
            rd as int,
            inverse,
            y@,
        ),
        r matches Err(e) ==> e == TensorError::Shape,
{
    let _ = rope.cos();
    if x.rank() == 0 {
        return Err(TensorError::Shape);
    }
    let (head, tail) = split_tail(x, rd);
    let turned_tail = rope.apply(&tail, start_pos, inverse)?;
    proof {
        lemma_pieces_join(x@.shape, rd);
        assert(tail@.shape[1] == x@.shape[1]);
    }
    head.join(&turned_tail, x.rank() - 1)
}

/// Rotates only the last `rd` columns of `x`, each query at its own position.
pub fn rope_tail_at(rope: &Rope, x: &Tensor, positions: &Vec<usize>, rd: usize) -> (r: Result<
    Tensor,
    TensorError,
>)
    requires
        x@.shape.len() > 0 ==> rd <= x@.shape.last(),
    ensures
        rope@.wf(),
        r is Ok <==> tail_at_ok(x@.shape, rope@.cos.shape, positions@, rd),
        r matches Ok(y) ==> y@.wf() && y@.shape == x@.shape && tail_rotated(
            x@,
            rows_looked_up(rope@.cos, positions@).data,
            rows_looked_up(rope@.sin, positions@).data,
            rd as int,
            false,
            y@,
        ),
        r matches Err(e) ==> e == TensorError::Shape,
{
    let _ = rope.cos();
    if x.rank() == 0 {
        return Err(TensorError::Shape);
    }
    let (head, tail) = split_tail(x, rd);
    let turned_tail = rope.apply_at(&tail, positions, false)?;
    proof {
        lemma_pieces_join(x@.shape, rd);
    }
    head.join(&turned_tail, x.rank() - 1)
}

/// The columns before the rotated tail are left untouched.
pub proof fn law_tail_keeps_head(
    x: V,
    cos: Seq<u32>,
    sin: Seq<u32>,
    rd: int,
    inverse: bool,
    y: V,
    i: int,
)
    requires
        x.wf(),
        x.shape.len() > 0,
        0 <= rd <= x.shape.last(),
        tail_rotated(x, cos, sin, rd, inverse, y),
        0 <= i < x.data.len(),
        i % (x.shape.last() as int) < x.shape.last() - rd,
    ensures
        y.shape == x.shape,
        y.data[i] == x.data[i],
{
    let axis = x.shape.len() - 1;
    let d = x.shape.last() as int;
    let keep = d - rd;
    let head = narrowed(x, axis, 0, keep);
    let t = choose|t: V|
        #[trigger] rotated(narrowed(x, axis, keep, rd), cos, sin, inverse, t) && y == joined(
            head,
            t,
            axis,
        );
    let o = crate::shape::outer(x.shape, axis) as int;
    lemma_pieces_join(x.shape, rd as usize);
    assert(head.shape.take(axis) =~= x.shape.take(axis));
    assert(x.shape.skip(axis + 1) =~= Seq::<usize>::empty());
    assert(head.shape.skip(axis + 1) =~= Seq::<usize>::empty());
    assert(inner(x.shape, axis) == 1);
    assert(inner(head.shape, axis) == 1);
    crate::shape::lemma_axis(x.shape, axis);
    assert(o * d * 1 == o * d);
    lemma_divide(i, o, d);
    let q = i / d;
    let k = i % d;
    assert(i / 1 == i && i % 1 == 0);
    lemma_flat(q, k, o, keep);
    assert(o * keep * 1 == o * keep);
    let p = q * keep + k;
    assert(p / 1 == p && p % 1 == 0);
    assert(head.data[p] == x.data[(q * d + 0 + k) * 1 + 0]);
    assert((q * keep + k) * 1 + 0 == p);
}

/// On contiguous positions `start, start + 1, ..`, one per query, [`Rope::apply_at`] does what
/// [`Rope::apply`] does from `start`: it succeeds on the same tensors and rotates by the same rows.
pub proof fn law_contiguous_positions(table: V, x: Seq<usize>, start: int, positions: Seq<usize>)
    requires
        table.wf(),
        table.shape.len() == 2,
        x.len() == 4,
        x[1] == positions.len(),
        start >= 0,
        start + positions.len() <= table.shape[0],
        forall|i: int| 0 <= i < positions.len() ==> #[trigger] positions[i] == start + i,
        !positions.contains(BLANK_ROW),
    ensures
        apply_at_ok(x, table.shape, positions) <==> apply_ok(x, table.shape, start),
        rows_looked_up(table, positions).data == rows_from(table, start, positions.len() as int),
{
    crate::shape::lemma_span_update(table.shape, 0, x[1]);
    let step = inner(table.shape, 0) as int;
    let n = positions.len() as int;
    let a = rows_looked_up(table, positions).data;
    let b = rows_from(table, start, n);
    assert(table.shape.take(0) =~= Seq::<usize>::empty());
    assert(crate::shape::outer(table.shape, 0) == 1);
    assert(1 * n * step == n * step) by (nonlinear_arith);
    assert forall|i: int| 0 <= i < n * step implies a[i] == b[i] by {
        lemma_divide(i, n, step);
        vstd::arithmetic::div_mod::lemma_basic_div(i / step, n);
        vstd::arithmetic::div_mod::lemma_small_mod((i / step) as nat, n as nat);
        assert(0 * table.shape[0] == 0);
        assert(positions[i / step] == start + i / step);
        assert(positions.contains(positions[i / step]));
    }
    assert(a =~= b);
}

/// The row of a table that a position names is the row that starts at it.
pub proof fn law_rows_by_position(table: V, positions: Seq<usize>, r: int)
    requires
        table.wf(),
        table.shape.len() == 2,
        0 <= r < positions.len(),
        positions[r] < table.shape[0],
        positions[r] != BLANK_ROW,
    ensures
        rows_from(table, positions[r] as int, 1).len() == table.shape[1],
        rows_looked_up(table, positions).data.len() == positions.len() * table.shape[1],
        rows_looked_up(table, positions).data.subrange(
            r * table.shape[1],
            r * table.shape[1] + table.shape[1],
        ) == rows_from(table, positions[r] as int, 1),
{
    let (n, k) = (positions.len() as int, table.shape[1] as int);
    let a = rows_looked_up(table, positions).data;
    let b = rows_from(table, positions[r] as int, 1);
    let e = table.shape.skip(1);
    assert(e.drop_last() =~= Seq::<usize>::empty());
    assert(e.last() == table.shape[1]);
    reveal_with_fuel(product, 2);
    assert(inner(table.shape, 0) == 1 * (k as nat));
    assert(table.shape.take(0) =~= Seq::<usize>::empty());
    assert(crate::shape::outer(table.shape, 0) == 1);
    assert(1 * 1 * k == k);
    assert(0 <= r * k && r * k + k <= n * k) by (nonlinear_arith)
        requires
            0 <= r,
            r + 1 <= n,
            k >= 0,
    ;
    assert forall|i: int| 0 <= i < k implies a[r * k + i] == #[trigger] b[i] by {
        lemma_flat(r, i, n, k);
        lemma_flat(0, i, 1, k);
        assert(0 * k + i == i && 0 * table.shape[0] == 0);
        assert(a[r * k + i] == table.data[positions[r] * k + i]);
    }
    assert(a.subrange(r * k, r * k + k) =~= b);
}

/// The table entry and the pair of one query row, in the whole tensor and in the row alone.
proof fn lemma_pair_of_row(x: V, b: int, s: int, h: int, half: int, r: int, q: int)
    requires
        x.wf(),
        x.shape.len() == 4,
        b == x.shape[0],
        s == x.shape[1],
        h == x.shape[2],
        x.shape[3] == 2 * half,
        0 <= r < s,
        0 <= q < b * h * half,
    ensures
        ({
            let hs = h * half;
            let u = ((q / hs) * s + r) * hs + q % hs;
            let row = narrowed(x, 1, r, 1);
            &&& 0 <= u < x.data.len() / 2
            &&& row.data.len() == 2 * (b * h * half)
            &&& row.shape == shape4(x.shape[0], 1, x.shape[2], x.shape[3])
            &&& row.data[2 * q] == x.data[2 * u]
            &&& row.data[2 * q + 1] == x.data[2 * u + 1]
            &&& table_index(x.shape, u) == r * half + q % half
            &&& table_index(row.shape, q) == q % half
            &&& 0 <= q % half < half
        }),
{
    let hs = h * half;
    let d = 2 * half;
    let step = h * d;
    let row = narrowed(x, 1, r, 1);
    assert(x.shape =~= shape4(x.shape[0], x.shape[1], x.shape[2], x.shape[3]));
    crate::shape::lemma_cube4(x.shape[0], x.shape[1], x.shape[2], x.shape[3]);
    assert(x.shape.skip(2) =~= shape2(x.shape[2], x.shape[3]));
    lemma_grid(x.shape[2], x.shape[3]);
    assert(x.shape.take(1).drop_last() =~= Seq::<usize>::empty());
    assert(x.shape.take(1).last() == x.shape[0]);
    reveal_with_fuel(product, 2);
    assert(crate::shape::outer(x.shape, 1) == 1 * (x.shape[0] as nat));
    assert(row.shape =~= shape4(x.shape[0], 1, x.shape[2], x.shape[3]));
    assert(b * 1 * step == 2 * (b * h * half) && step == 2 * hs && b * h * half == b * hs && b * s * h
        * d == 2 * (b * s * hs)) by (nonlinear_arith)
        requires
            step == h * d,
            d == 2 * half,
            hs == h * half,
    ;
    lemma_divide(q, b, hs);
    let (a, w) = (q / hs, q % hs);
    let u = (a * s + r) * hs + w;
    lemma_flat(a, r, b, s);
    lemma_flat(a * s + r, w, b * s, hs);
    // The row alone.
    lemma_even_place(a, w, hs, b);
    assert(2 * q == a * step + 2 * w && 2 * q + 1 == a * step + (2 * w + 1)) by (nonlinear_arith)
        requires
            q == a * hs + w,
            step == 2 * hs,
    ;
    assert(row.data[2 * q] == x.data[(a * s + r) * step + 2 * w]);
    assert(row.data[2 * q + 1] == x.data[(a * s + r) * step + (2 * w + 1)]);
    assert(2 * u == (a * s + r) * step + 2 * w) by (nonlinear_arith)
        requires
            u == (a * s + r) * hs + w,
            step == 2 * hs,
    ;
    // The table entries.
    lemma_divide(w, h, half);
    let (c, p) = (w / half, w % half);
    assert(u == ((a * s + r) * h + c) * half + p && q == (a * h + c) * half + p) by (nonlinear_arith)
        requires
            u == (a * s + r) * hs + w,
            q == a * hs + w,
            w == c * half + p,
            hs == h * half,
    ;
    lemma_flat(a * s + r, c, b * s, h);
    lemma_flat((a * s + r) * h + c, p, b * s * h, half);
    lemma_flat(a, c, b, h);
    lemma_flat(a * h + c, p, b * h, half);
    assert(x.shape[3] as int / 2 == half);
    assert(a % 1 == 0);
    assert(0 * half == 0);
}

/// Both halves of a pair stand in one row.
proof fn lemma_even_place(a: int, w: int, hs: int, b: int)
    requires
        0 <= a < b,
        0 <= w < hs,
    ensures
        (a * (2 * hs) + 2 * w) / (2 * hs) == a,
        (a * (2 * hs) + 2 * w) % (2 * hs) == 2 * w,
        (a * (2 * hs) + (2 * w + 1)) / (2 * hs) == a,
        (a * (2 * hs) + (2 * w + 1)) % (2 * hs) == 2 * w + 1,
        a / 1 == a,
        a % 1 == 0,
        0 <= a * (2 * hs) + 2 * w,
        a * (2 * hs) + (2 * w + 1) < b * (2 * hs),
{
    lemma_flat(a, 2 * w, b, 2 * hs);
    lemma_flat(a, 2 * w + 1, b, 2 * hs);
}

/// [`Rope::apply_at`] rotates each query by itself: a row of its result is what [`Rope::apply`] gives
/// for that row alone at its position. The positions may stand in any order and need not be distinct.
pub proof fn law_positions_are_per_row(
    rope: RopeView,
    x: V,
    positions: Seq<usize>,
    inverse: bool,
    y: V,
    r: int,
)
    requires
        rope.wf(),
        x.wf(),
        apply_at_ok(x.shape, rope.cos.shape, positions),
        x.data.len() > 0,
        rotated(
            x,
            rows_looked_up(rope.cos, positions).data,
            rows_looked_up(rope.sin, positions).data,
            inverse,
            y,
        ),
        positions.len() == x.shape[1],
        0 <= r < positions.len(),
        positions[r] != BLANK_ROW,
    ensures
        apply_ok(x.shape.update(1, 1), rope.cos.shape, positions[r] as int),
        rotated(
            narrowed(x, 1, r, 1),
            rows_from(rope.cos, positions[r] as int, 1),
            rows_from(rope.sin, positions[r] as int, 1),
            inverse,
            narrowed(y, 1, r, 1),
        ),
{
    let (b, s, h, d) = (
        x.shape[0] as int,
        x.shape[1] as int,
        x.shape[2] as int,
        x.shape[3] as int,
    );
    let half = d / 2;
    let k = rope.cos.shape[1] as int;
    assert(x.shape =~= shape4(x.shape[0], x.shape[1], x.shape[2], x.shape[3]));
    crate::shape::lemma_cube4(x.shape[0], x.shape[1], x.shape[2], x.shape[3]);
    assert(b > 0 && s > 0 && h > 0 && d > 0) by (nonlinear_arith)
        requires
            b * s * h * d > 0,
            b >= 0,
            s >= 0,
            h >= 0,
            d >= 0,
    ;
    assert(k == half) by (nonlinear_arith)
        requires
            s * k == s * half,
            s > 0,
    ;
    assert(b * h * half > 0) by (nonlinear_arith)
        requires
            b > 0,
            h > 0,
            half > 0,
    ;
    law_rows_by_position(rope.cos, positions, r);
    law_rows_by_position(rope.sin, positions, r);
    let (row, out) = (narrowed(x, 1, r, 1), narrowed(y, 1, r, 1));
    let (cos, sin) = (
        rows_from(rope.cos, positions[r] as int, 1),
        rows_from(rope.sin, positions[r] as int, 1),
    );
    let (all_cos, all_sin) = (
        rows_looked_up(rope.cos, positions).data,
        rows_looked_up(rope.sin, positions).data,
    );
    lemma_pair_of_row(x, b, s, h, half, r, 0);
    lemma_pair_of_row(y, b, s, h, half, r, 0);
    assert forall|q: int| 0 <= q < row.data.len() / 2 implies #[trigger] pair_turned(
        row,
        cos,
        sin,
        inverse,
        out,
        q,
    ) by {
        lemma_pair_of_row(x, b, s, h, half, r, q);
        lemma_pair_of_row(y, b, s, h, half, r, q);
        let hs = h * half;
        let u = ((q / hs) * s + r) * hs + q % hs;
        assert(pair_turned(x, all_cos, all_sin, inverse, y, u));
        let i = q % half;
        assert(0 <= r * half && r * half + half <= s * half) by (nonlinear_arith)
            requires
                0 <= r,
                r + 1 <= s,
                half > 0,
        ;
        assert(all_cos[r * half + i] == cos[i]) by {
            assert(all_cos.subrange(r * half, r * half + half)[i] == cos[i]);
        }
        assert(all_sin[r * half + i] == sin[i]) by {
            assert(all_sin.subrange(r * half, r * half + half)[i] == sin[i]);
        }
    }
}

} // verus!
