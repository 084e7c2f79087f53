//! What the position tables hold and how they turn a vector, element by element.

use vstd::prelude::*;

#[allow(unused_imports)]
use crate::bits::{
    agrees, double_agrees, double_is_nan, double_less, double_rank, negated, DOUBLE_ONE, DOUBLE_TWO,
    DOUBLE_ZERO,
};
#[allow(unused_imports)]
use crate::double::{
    ceil_gives, dadd, dcos_gives, ddiv, dint, dlog_gives, dmul, dpow_gives, dsin_gives, dsub,
    floor_gives,
};
#[allow(unused_imports)]
use crate::kernel::{fadd, fmul, fsub, single};
#[allow(unused_imports)]
use crate::rope::{
    correction_dim_gives, correction_dim_steps, frequency_gives, frequency_steps, pair_turned,
    ramp_steps, rotated, rows_from, tail_rotated, yarn_tables, DimSteps, FrequencySteps, Ramp,
    RangeSteps, RopeView, DOUBLE_PI,
};
#[allow(unused_imports)]
use crate::shape::{
    inner, lemma_axis, lemma_cube4, lemma_flat, lemma_flat3, lemma_grid, outer, product, shape4,
};
#[allow(unused_imports)]
use crate::tensor::{joined, narrowed, rows_looked_up, BLANK_ROW, V};
#[allow(unused_imports)]
use vstd::arithmetic::div_mod::lemma_fundamental_div_mod_converse;

verus! {

// --- tables ---------------------------------------------------------------------------------

/// The values on the way to the pair dimension of a number of turns.
pub struct BoundValues {
    pub length: u64,
    pub turns: u64,
    pub ratio: u64,
    pub log_ratio: u64,
    pub above: u64,
    pub below: u64,
}

/// `d` is the pair dimension at which `turns` turns fall on `length` positions: the `d` with
/// `base^(2d / dim) · 2π · turns = length`, so `d = dim · ln(length / (2π · turns)) / (2 · ln base)`, where
/// `log_base` is the logarithm of the base.
pub open spec fn bound_at(
    turns: u64,
    dim: int,
    log_base: u64,
    v: BoundValues,
    d: u64,
) -> bool {
    &&& exists|twice: u64|
        double_agrees(twice, dmul(turns, DOUBLE_TWO)) && double_agrees(
            v.turns,
            #[trigger] dmul(twice, DOUBLE_PI),
        )
    &&& double_agrees(v.ratio, ddiv(v.length, v.turns))
    &&& dlog_gives(v.ratio, v.log_ratio)
    &&& double_agrees(v.above, dmul(dint(dim as i64), v.log_ratio))
    &&& double_agrees(v.below, dmul(DOUBLE_TWO, log_base))
    &&& double_agrees(d, ddiv(v.above, v.below))
}

/// `r` is the length as a double: its high half of 32 bits times `2^32`, plus its low half.
pub open spec fn length_as_double(n: int, r: u64) -> bool {
    exists|high: u64|
        double_agrees(high, dmul(dint((n / 0x1_0000_0000) as i64), 0x41F0_0000_0000_0000))
            && double_agrees(r, #[trigger] dadd(high, dint((n % 0x1_0000_0000) as i64)))
}

/// The frequency of a pair, with everything that it is made of.
pub struct PairValues {
    pub exponent: u64,
    pub power: u64,
    pub plain: u64,
    pub low_log: u64,
    pub low_values: BoundValues,
    pub low_dim: u64,
    pub low_whole: u64,
    pub low: u64,
    pub high_log: u64,
    pub high_values: BoundValues,
    pub high_dim: u64,
    pub high_whole: u64,
    pub high: u64,
    pub width: u64,
    pub offset: u64,
    pub place: u64,
    pub clamped: u64,
    pub smooth: u64,
    pub rest: u64,
    pub slowed: u64,
    pub slow_part: u64,
    pub kept: u64,
}

/// The plain frequency of pair `i`: `1 / base^(2i / dim)`.
pub open spec fn plain_frequency(dim: int, base: u64, i: int, v: PairValues) -> bool {
    &&& double_agrees(v.exponent, ddiv(dint((2 * i) as i64), dint(dim as i64)))
    &&& dpow_gives(base, v.exponent, v.power)
    &&& double_agrees(v.plain, ddiv(DOUBLE_ONE, v.power))
}

/// The ramp runs from the dimension of the fast turns, rounded down and at least zero, to that of the
/// slow turns, rounded up and at most `dim - 1`. Both dimensions belong to the base of the plain
/// frequencies.
pub open spec fn ramp_between(
    dim: int,
    length: int,
    base: u64,
    fast: u64,
    slow: u64,
    v: PairValues,
) -> bool {
    let last = dint((dim - 1) as i64);
    &&& dlog_gives(base, v.low_log)
    &&& length_as_double(length, v.low_values.length)
    &&& bound_at(fast, dim, v.low_log, v.low_values, v.low_dim)
    &&& floor_gives(v.low_dim, v.low_whole)
    &&& !double_less(v.low, DOUBLE_ZERO)
    &&& v.low == v.low_whole || (v.low == DOUBLE_ZERO && (double_is_nan(v.low_whole) || double_less(
        v.low_whole,
        DOUBLE_ZERO,
    )))
    &&& !double_is_nan(v.low)
    &&& dlog_gives(base, v.high_log)
    &&& length_as_double(length, v.high_values.length)
    &&& bound_at(slow, dim, v.high_log, v.high_values, v.high_dim)
    &&& ceil_gives(v.high_dim, v.high_whole)
    &&& !double_less(last, v.high)
    &&& v.high == v.high_whole || (v.high == last && (double_is_nan(v.high_whole) || double_less(
        last,
        v.high_whole,
    )))
    &&& if !double_is_nan(v.high) && double_rank(v.low) == double_rank(v.high) {
        v.width == 0x3F50_624D_D2F1_A9FC
    } else {
        double_agrees(v.width, dsub(v.high, v.low))
    }
}

/// Pair `i` keeps the share `1 - place` of its plain frequency and takes the share `place` of the slowed
/// one, where `place` is the position of `i` on the ramp, held in `[0, 1]`.
pub open spec fn blended(factor: u64, i: int, v: PairValues, f: u64) -> bool {
    &&& double_agrees(v.offset, dsub(dint(i as i64), v.low))
    &&& double_agrees(v.place, ddiv(v.offset, v.width))
    &&& !double_less(v.clamped, DOUBLE_ZERO)
    &&& !double_less(DOUBLE_ONE, v.clamped)
    &&& double_less(v.place, DOUBLE_ZERO) ==> v.clamped == DOUBLE_ZERO
    &&& double_less(DOUBLE_ONE, v.place) ==> v.clamped == DOUBLE_ONE
    &&& !double_less(v.place, DOUBLE_ZERO) && !double_less(DOUBLE_ONE, v.place) ==> v.clamped == v.place
    &&& double_agrees(v.smooth, dsub(DOUBLE_ONE, v.clamped))
    &&& double_agrees(v.rest, dsub(DOUBLE_ONE, v.smooth))
    &&& double_agrees(v.slowed, ddiv(v.plain, factor))
    &&& double_agrees(v.slow_part, dmul(v.slowed, v.rest))
    &&& double_agrees(v.kept, dmul(v.plain, v.smooth))
    &&& double_agrees(f, dadd(v.slow_part, v.kept))
}

/// `f` is the frequency of pair `i`: the plain one, and with an original length the one that the ramp of
/// that length blends.
pub open spec fn pair_frequency(
    dim: int,
    length: int,
    base: u64,
    factor: u64,
    fast: u64,
    slow: u64,
    i: int,
    v: PairValues,
    f: u64,
) -> bool {
    &&& plain_frequency(dim, base, i, v)
    &&& if length == 0 {
        f == v.plain
    } else {
        ramp_between(dim, length, base, fast, slow, v) && blended(factor, i, v, f)
    }
}

/// `c` and `s` are the cosine and the sine of `position · f`, in single precision.
pub open spec fn angle_entry(position: int, f: u64, c: u32, s: u32) -> bool {
    exists|angle: u64, dc: u64, ds: u64|
        {
            &&& double_agrees(angle, dmul(dint(position as i64), f))
            &&& #[trigger] dcos_gives(angle, dc)
            &&& #[trigger] dsin_gives(angle, ds)
            &&& agrees(c, single(dc))
            &&& agrees(s, single(ds))
        }
}

/// The bound that belongs to a base.
proof fn lemma_bound(rotations: u64, dim: i64, base: u64, length: int, r: u64) -> (p: (BoundValues, u64))
    requires
        correction_dim_gives(rotations, dim, base, length, r),
    ensures
        dlog_gives(base, p.1),
        length_as_double(length, p.0.length),
        bound_at(rotations, dim as int, p.1, p.0, r),
{
    let t = choose|t: DimSteps| correction_dim_steps(rotations, dim, base, length, t, r);
    let v = BoundValues {
        length: t.length,
        turns: t.turns,
        ratio: t.ratio,
        log_ratio: t.log_ratio,
        above: t.scaled,
        below: t.below,
    };
    assert(double_agrees(v.turns, dmul(t.twofold, DOUBLE_PI)));
    assert(double_agrees(v.length, dadd(t.high, dint((length % 0x1_0000_0000) as i64))));
    (v, t.log_base)
}

/// Column `i` of the tables belongs to one frequency: the frequency of pair `i` under the given base,
/// and entry `(p, i)` holds the cosine and the sine of `p` times it.
pub proof fn law_columns_of_the_tables(
    dim: usize,
    max_seq: usize,
    original: usize,
    base: u64,
    factor: u64,
    fast: u64,
    slow: u64,
    ramp: Option<Ramp>,
    freqs: Seq<u64>,
    rope: RopeView,
    i: int,
)
    requires
        yarn_tables(dim, max_seq, original, base, factor, fast, slow, ramp, freqs, rope),
        0 < dim <= i64::MAX,
        0 <= i < dim / 2,
    ensures
        exists|v: PairValues, f: u64|
            {
                &&& #[trigger] pair_frequency(
                    dim as int,
                    original as int,
                    base,
                    factor,
                    fast,
                    slow,
                    i,
                    v,
                    f,
                )
                &&& forall|p: int|
                    0 <= p < max_seq ==> #[trigger] angle_entry(
                        p,
                        f,
                        rope.cos.data[p * (dim / 2) + i],
                        rope.sin.data[p * (dim / 2) + i],
                    )
            },
{
    let f = freqs[i];
    let half = (dim / 2) as int;
    let m: i64 = dim as i64;
    let length: int = original as int;
    assert(frequency_gives(m, base, factor, ramp, i, f));
    let t = choose|t: FrequencySteps| frequency_steps(m, base, factor, ramp, i, t, f);
    let blank = BoundValues { length: 0, turns: 0, ratio: 0, log_ratio: 0, above: 0, below: 0 };
    let start = PairValues {
        exponent: t.exponent,
        power: t.power,
        plain: t.plain,
        low_log: 0,
        low_values: blank,
        low_dim: 0,
        low_whole: 0,
        low: 0,
        high_log: 0,
        high_values: blank,
        high_dim: 0,
        high_whole: 0,
        high: 0,
        width: 0,
        offset: t.offset,
        place: t.place,
        clamped: crate::rope::unit_clamped(t.place),
        smooth: t.smooth,
        rest: t.rest,
        slowed: t.slowed,
        slow_part: t.slow_part,
        kept: t.kept,
    };
    let v: PairValues;
    if original == 0 {
        v = start;
        assert(ramp is None);
    } else {
        let r = ramp.unwrap();
        let z = choose|z: RangeSteps|
            ramp_steps(fast, slow, m, base, length, z, r);
        let last = dint((dim - 1) as i64);
        let low = lemma_bound(fast, m, base, length, z.low_dim);
        let high = lemma_bound(slow, m, base, length, z.high_dim);
        v = PairValues {
            low_log: low.1,
            low_values: low.0,
            low_dim: z.low_dim,
            low_whole: z.low_whole,
            low: r.low,
            high_log: high.1,
            high_values: high.0,
            high_dim: z.high_dim,
            high_whole: z.high_whole,
            high: crate::rope::double_cap_at(z.high_whole, last),
            width: r.width,
            ..start
        };
        assert(ramp_between(dim as int, original as int, base, fast, slow, v));
        assert(blended(factor, i, v, f));
    }
    assert(pair_frequency(dim as int, original as int, base, factor, fast, slow, i, v, f));
    assert forall|p: int| 0 <= p < max_seq implies #[trigger] angle_entry(
        p,
        f,
        rope.cos.data[p * (dim / 2) + i],
        rope.sin.data[p * (dim / 2) + i],
    ) by {
        lemma_flat(p, i, max_seq as int, half);
        let q = p * half + i;
        let c = rope.cos.data[q];
    }
}

/// Without an original length the tables do not depend on the factor and on the turns.
pub proof fn law_plain_tables_have_no_ramp(
    dim: usize,
    max_seq: usize,
    base: u64,
    factor: u64,
    fast: u64,
    slow: u64,
    factor2: u64,
    fast2: u64,
    slow2: u64,
    freqs: Seq<u64>,
    rope: RopeView,
)
    requires
        yarn_tables(dim, max_seq, 0, base, factor, fast, slow, None, freqs, rope),
    ensures
        yarn_tables(dim, max_seq, 0, base, factor2, fast2, slow2, None, freqs, rope),
{
    assert forall|i: int| 0 <= i < freqs.len() implies frequency_gives(
        dim as i64,
        base,
        factor2,
        None,
        i,
        #[trigger] freqs[i],
    ) by {
        let (m, f): (i64, u64) = (dim as i64, freqs[i]);
        assert(frequency_gives(m, base, factor, None, i, f));
        let t = choose|t: FrequencySteps| frequency_steps(m, base, factor, None, i, t, f);
        assert(frequency_steps(m, base, factor2, None, i, t, f));
    }
}

// --- rotation -------------------------------------------------------------------------------

/// `re + i·ro` is `e + i·o` turned by the angle of cosine `c` and sine `s`, or back by it:
/// `re = e·c - o·s` and `ro = e·s + o·c`, with the other sign of the sine on the way back.
pub open spec fn turned_by(e: u32, o: u32, c: u32, s: u32, back: bool, re: u32, ro: u32) -> bool {
    let z = if back {
        negated(s)
    } else {
        s
    };
    exists|ec: u32, oz: u32, ez: u32, oc: u32|
        {
            &&& agrees(ec, fmul(e, c))
            &&& agrees(oz, fmul(o, z))
            &&& agrees(ez, fmul(e, z))
            &&& agrees(oc, fmul(o, c))
            &&& agrees(re, #[trigger] fsub(ec, oz))
            &&& agrees(ro, #[trigger] fadd(ez, oc))
        }
}

/// The pair `(2p, 2p + 1)` of head `c` of token `i` is turned by entry `p` of row `i` of the table rows.
pub proof fn law_rotation_of_a_pair(
    x: V,
    cos: Seq<u32>,
    sin: Seq<u32>,
    back: bool,
    y: V,
    a: int,
    i: int,
    c: int,
    p: int,
)
    requires
        rotated(x, cos, sin, back, y),
        x.wf(),
        x.shape.len() == 4,
        x.shape[3] % 2 == 0,
        0 <= a < x.shape[0],
        0 <= i < x.shape[1],
        0 <= c < x.shape[2],
        0 <= 2 * p < x.shape[3],
    ensures
        ({
            let (s, h, half) = (x.shape[1] as int, x.shape[2] as int, x.shape[3] as int / 2);
            let q = ((a * s + i) * h + c) * x.shape[3] + 2 * p;
            let k = i * half + p;
            &&& 0 <= q
            &&& q + 1 < x.data.len()
            &&& y.data.len() == x.data.len()
            &&& turned_by(
                x.data[q],
                x.data[q + 1],
                cos[k],
                sin[k],
                back,
                y.data[q],
                y.data[q + 1],
            )
        }),
{
    let (b, s, h, d) = (
        x.shape[0] as int,
        x.shape[1] as int,
        x.shape[2] as int,
        x.shape[3] as int,
    );
    let half = d / 2;
    assert(x.shape =~= shape4(x.shape[0], x.shape[1], x.shape[2], x.shape[3]));
    lemma_cube4(x.shape[0], x.shape[1], x.shape[2], x.shape[3]);
    let row = (a * s + i) * h + c;
    lemma_flat3(a, i, c, b, s, h);
    lemma_flat(row, p, b * s * h, half);
    lemma_fundamental_div_mod_converse(row, h, a * s + i, c);
    lemma_fundamental_div_mod_converse(a * s + i, s, a, i);
    let u = row * half + p;
    assert(row * d + 2 * p == 2 * u) by (nonlinear_arith)
        requires
            d == 2 * half,
            u == row * half + p,
    ;
    assert(b * s * h * d == 2 * (b * s * h * half)) by (nonlinear_arith)
        requires
            d == 2 * half,
    ;
    assert(pair_turned(x, cos, sin, back, y, u));
    let k = i * half + p;
    assert(crate::rope::table_index(x.shape, u) == k);
    let (e, o, cc) = (x.data[2 * u], x.data[2 * u + 1], cos[k]);
    let z = if back {
        negated(sin[k])
    } else {
        sin[k]
    };
    let (ec, oz) = choose|f: u32, g: u32|
        agrees(f, fmul(e, cc)) && agrees(g, fmul(o, z)) && agrees(
            y.data[2 * u],
            #[trigger] fsub(f, g),
        );
    let (ez, oc) = choose|f: u32, g: u32|
        agrees(f, fmul(e, z)) && agrees(g, fmul(o, cc)) && agrees(
            y.data[2 * u + 1],
            #[trigger] fadd(f, g),
        );
    assert(agrees(y.data[2 * u], fsub(ec, oz)));
    assert(agrees(y.data[2 * u + 1], fadd(ez, oc)));
}

/// The last columns of a row, taken off and put back.
proof fn lemma_tail_columns(x: V, rd: int, t: V, r: int, j: int)
    requires
        x.wf(),
        x.shape.len() > 0,
        0 <= rd <= x.shape.last(),
        0 <= r < product(x.shape.drop_last()),
        0 <= j < rd,
        t.shape == x.shape.update(x.shape.len() - 1, rd as usize),
    ensures
        ({
            let axis = x.shape.len() - 1;
            let (d, keep) = (x.shape.last() as int, x.shape.last() - rd);
            &&& narrowed(x, axis, keep, rd).data[r * rd + j] == x.data[r * d + keep + j]
            &&& joined(narrowed(x, axis, 0, keep), t, axis).data[r * d + keep + j] == t.data[r * rd + j]
            &&& 0 <= r * d + keep + j < x.data.len()
        }),
{
    let s = x.shape;
    let axis = s.len() - 1;
    let (d, keep) = (s.last() as int, s.last() - rd);
    let rows = product(s.drop_last()) as int;
    assert(s.take(axis) =~= s.drop_last());
    assert(s.skip(axis + 1) =~= Seq::<usize>::empty());
    assert(inner(s, axis) == 1 && outer(s, axis) == rows);
    lemma_flat(r, j, rows, rd);
    lemma_flat(r, keep + j, rows, d);
    let i = r * rd + j;
    assert(i / 1 == i && i % 1 == 0);
    assert((outer(s, axis) * rd * 1) as nat == rows * rd) by (nonlinear_arith)
        requires
            outer(s, axis) == rows,
            rd >= 0,
            rows >= 0,
    ;
    assert(narrowed(x, axis, keep, rd).data[i] == x.data[(r * d + keep + j) * 1 + 0]);
    let head = narrowed(x, axis, 0, keep);
    assert(head.shape == s.update(axis, keep as usize));
    assert(head.shape.take(axis) =~= s.take(axis));
    assert(head.shape.skip(axis + 1) =~= Seq::<usize>::empty());
    assert(inner(head.shape, axis) == 1 && outer(head.shape, axis) == rows);
    let q = r * d + (keep + j);
    assert(q / 1 == q && q % 1 == 0);
    assert((outer(head.shape, axis) * (keep + rd) * 1) as nat == rows * d) by (nonlinear_arith)
        requires
            outer(head.shape, axis) == rows,
            keep + rd == d,
            d >= 0,
            rows >= 0,
    ;
    assert(joined(head, t, axis).data[q] == t.data[(r * rd + j) * 1 + 0]);
}

/// Of a head of width `d`, the columns before the last `rd` pass through, and the pair `(2p, 2p + 1)` of
/// the last `rd` columns is turned by entry `p` of row `i` of the table rows.
pub proof fn law_tail_of_a_head(
    x: V,
    cos: Seq<u32>,
    sin: Seq<u32>,
    rd: usize,
    back: bool,
    y: V,
    a: int,
    i: int,
    c: int,
    p: int,
)
    requires
        tail_rotated(x, cos, sin, rd as int, back, y),
        x.wf(),
        x.shape.len() == 4,
        rd <= x.shape[3],
        rd % 2 == 0,
        0 <= a < x.shape[0],
        0 <= i < x.shape[1],
        0 <= c < x.shape[2],
        0 <= 2 * p < rd,
    ensures
        ({
            let (s, h, d) = (x.shape[1] as int, x.shape[2] as int, x.shape[3] as int);
            let row = ((a * s + i) * h + c) * d;
            let q = row + (d - rd) + 2 * p;
            let k = i * (rd as int / 2) + p;
            &&& forall|j: int|
                0 <= j < d - rd ==> #[trigger] y.data[row + j] == x.data[row + j]
            &&& turned_by(
                x.data[q],
                x.data[q + 1],
                cos[k],
                sin[k],
                back,
                y.data[q],
                y.data[q + 1],
            )
        }),
{
    let sh = x.shape;
    let (b, s, h, d) = (sh[0] as int, sh[1] as int, sh[2] as int, sh[3] as int);
    let keep = d - rd;
    let t = choose|t: V|
        #[trigger] rotated(narrowed(x, 3, keep, rd as int), cos, sin, back, t) && y == joined(
            narrowed(x, 3, 0, keep),
            t,
            3,
        );
    let tail = narrowed(x, 3, keep, rd as int);
    assert(sh =~= shape4(sh[0], sh[1], sh[2], sh[3]));
    assert(sh.drop_last() =~= crate::shape::shape3(sh[0], sh[1], sh[2]));
    crate::shape::lemma_cube(sh[0], sh[1], sh[2]);
    lemma_cube4(sh[0], sh[1], sh[2], sh[3]);
    let r = (a * s + i) * h + c;
    lemma_flat3(a, i, c, b, s, h);
    lemma_tail_columns(x, rd as int, t, r, 2 * p);
    lemma_tail_columns(x, rd as int, t, r, 2 * p + 1);
    crate::shape::lemma_span_update(sh, 3, rd);
    lemma_axis(sh.update(3, rd), 3);
    assert(sh.take(3) =~= sh.drop_last());
    assert(sh.skip(4) =~= Seq::<usize>::empty());
    assert(tail.wf()) by {
        assert(outer(sh, 3) * rd * 1 == outer(sh, 3) * (rd as nat) * 1);
    }
    law_rotation_of_a_pair(tail, cos, sin, back, t, a, i, c, p);
    assert forall|j: int| 0 <= j < keep implies #[trigger] y.data[r * d + j] == x.data[r * d + j] by {
        lemma_flat(r, j, b * s * h, d);
        crate::rope::law_tail_keeps_head(x, cos, sin, rd as int, back, y, r * d + j);
    }
    assert(r * d + keep + (2 * p + 1) == r * d + keep + 2 * p + 1);
    assert(r * rd + (2 * p + 1) == r * rd + 2 * p + 1);
}

/// Rotating the last columns keeps the shape.
pub proof fn lemma_tail_length(x: V, cos: Seq<u32>, sin: Seq<u32>, rd: int, back: bool, y: V)
    requires
        tail_rotated(x, cos, sin, rd, back, y),
        x.wf(),
        x.shape.len() > 0,
        0 <= rd <= x.shape.last(),
    ensures
        y.shape == x.shape,
        y.data.len() == x.data.len(),
{
    let s = x.shape;
    let axis = s.len() - 1;
    let keep = s.last() - rd;
    let t = choose|t: V|
        #[trigger] rotated(narrowed(x, axis, keep, rd), cos, sin, back, t) && y == joined(
            narrowed(x, axis, 0, keep),
            t,
            axis,
        );
    let head = narrowed(x, axis, 0, keep);
    assert(head.shape.take(axis) =~= s.take(axis));
    assert(head.shape.skip(axis + 1) =~= s.skip(axis + 1));
    lemma_axis(s, axis);
    assert(outer(s, axis) * (keep + rd) * inner(s, axis) == outer(s, axis) * (s[axis] as nat) * inner(
        s,
        axis,
    )) by {
        assert(keep + rd == s[axis]);
    }
    assert(y.shape =~= s);
}

/// A head at a position: the columns before the last `rd` pass through, and pair `p` of the last `rd`
/// columns is turned by entry `p` of the table rows of the position.
pub open spec fn head_turned(
    flat: Seq<u32>,
    rope: RopeView,
    rd: int,
    position: int,
    back: bool,
    out: Seq<u32>,
) -> bool {
    let keep = flat.len() - rd;
    &&& out.len() == flat.len()
    &&& forall|j: int| 0 <= j < keep ==> #[trigger] out[j] == flat[j]
    &&& forall|p: int| 0 <= 2 * p < rd ==> #[trigger] pair_at(flat, rope, rd, position, back, out, p)
}

/// Pair `p` of the last `rd` columns of a head at a position.
pub open spec fn pair_at(
    flat: Seq<u32>,
    rope: RopeView,
    rd: int,
    position: int,
    back: bool,
    out: Seq<u32>,
    p: int,
) -> bool {
    let q = flat.len() - rd + 2 * p;
    let k = position * (rd / 2) + p;
    turned_by(flat[q], flat[q + 1], rope.cos.data[k], rope.sin.data[k], back, out[q], out[q + 1])
}

/// Row `i` of `rows` is row `position` of `table`, in rows of `k` entries.
pub open spec fn row_at(rows: Seq<u32>, i: int, table: Seq<u32>, position: int, k: int) -> bool {
    &&& 0 <= i * k
    &&& i * k + k <= rows.len()
    &&& 0 <= position * k
    &&& position * k + k <= table.len()
    &&& rows.subrange(i * k, i * k + k) == table.subrange(position * k, position * k + k)
}

/// Each head of a rotated tensor stands at the position of its token.
pub proof fn law_heads_stand_at_positions(
    x: V,
    rope: RopeView,
    cos: Seq<u32>,
    sin: Seq<u32>,
    rd: usize,
    back: bool,
    y: V,
    a: int,
    i: int,
    c: int,
    position: int,
)
    requires
        tail_rotated(x, cos, sin, rd as int, back, y),
        x.wf(),
        x.shape.len() == 4,
        0 < x.shape[3],
        rd <= x.shape[3],
        rd % 2 == 0,
        0 <= a < x.shape[0],
        0 <= i < x.shape[1],
        0 <= c < x.shape[2],
        row_at(cos, i, rope.cos.data, position, rd as int / 2),
        row_at(sin, i, rope.sin.data, position, rd as int / 2),
    ensures
        ({
            let (s, h, d) = (x.shape[1] as int, x.shape[2] as int, x.shape[3] as int);
            let start = ((a * s + i) * h + c) * d;
            &&& 0 <= start
            &&& start + d <= x.data.len()
            &&& head_turned(
                x.data.subrange(start, start + d),
                rope,
                rd as int,
                position,
                back,
                y.data.subrange(start, start + d),
            )
        }),
{
    let sh = x.shape;
    let (b, s, h, d) = (sh[0] as int, sh[1] as int, sh[2] as int, sh[3] as int);
    let r = (a * s + i) * h + c;
    let start = r * d;
    assert(sh =~= shape4(sh[0], sh[1], sh[2], sh[3]));
    lemma_cube4(sh[0], sh[1], sh[2], sh[3]);
    lemma_flat3(a, i, c, b, s, h);
    assert(0 <= start && start + d <= b * s * h * d) by (nonlinear_arith)
        requires
            0 <= r < b * s * h,
            d > 0,
            start == r * d,
    ;
    lemma_tail_length(x, cos, sin, rd as int, back, y);
    let (flat, out) = (x.data.subrange(start, start + d), y.data.subrange(start, start + d));
    let keep = d - rd;
    assert forall|j: int| 0 <= j < keep implies #[trigger] out[j] == flat[j] by {
        lemma_flat(r, j, b * s * h, d);
        crate::rope::law_tail_keeps_head(x, cos, sin, rd as int, back, y, r * d + j);
    }
    assert forall|p: int| 0 <= 2 * p < rd implies #[trigger] pair_at(
        flat,
        rope,
        rd as int,
        position,
        back,
        out,
        p,
    ) by {
        law_tail_of_a_head(x, cos, sin, rd, back, y, a, i, c, p);
        let k = rd as int / 2;
        let (u, v) = (cos.subrange(i * k, i * k + k), sin.subrange(i * k, i * k + k));
        assert(u[p] == rope.cos.data[position * k + p]);
        assert(v[p] == rope.sin.data[position * k + p]);
    }
}

/// The rows of a table that contiguous positions name, and those that listed positions name.
pub proof fn law_table_rows(table: V, start: int, n: int, positions: Seq<usize>, i: int, p: int)
    requires
        table.wf(),
        table.shape.len() == 2,
        0 <= p < table.shape[1],
    ensures
        0 <= start && 0 <= i < n && start + n <= table.shape[0] ==> rows_from(table, start, n)[i
            * table.shape[1] + p] == table.data[(start + i) * table.shape[1] + p],
        0 <= i < positions.len() && positions[i] != BLANK_ROW && positions[i] < table.shape[0]
            ==> rows_looked_up(table, positions).data[i * table.shape[1] + p] == table.data[positions[i]
            * table.shape[1] + p],
{
    let s = table.shape;
    let k = s[1] as int;
    assert(s.skip(1).drop_last() =~= Seq::<usize>::empty());
    assert(s.skip(1).last() == s[1]);
    reveal_with_fuel(product, 2);
    assert(inner(s, 0) == 1 * (k as nat));
    assert(s.take(0) =~= Seq::<usize>::empty());
    assert(outer(s, 0) == 1);
    if 0 <= start && 0 <= i < n && start + n <= s[0] {
        lemma_flat(i, p, n, k);
        let q = i * k + p;
        assert(1 * n * k == n * k) by (nonlinear_arith);
        vstd::arithmetic::div_mod::lemma_small_mod(i as nat, n as nat);
        vstd::arithmetic::div_mod::lemma_basic_div(i, n);
        assert(0 * s[0] == 0);
    }
    if 0 <= i < positions.len() && positions[i] != BLANK_ROW && positions[i] < s[0] {
        lemma_flat(i, p, positions.len() as int, k);
    }
}

/// The same for whole rows.
pub proof fn lemma_table_row(table: V, start: int, n: int, positions: Seq<usize>, i: int)
    requires
        table.wf(),
        table.shape.len() == 2,
    ensures
        0 <= start && 0 <= i < n && start + n <= table.shape[0] ==> row_at(
            rows_from(table, start, n),
            i,
            table.data,
            start + i,
            table.shape[1] as int,
        ),
        0 <= i < positions.len() && positions[i] != BLANK_ROW && positions[i] < table.shape[0] ==> row_at(
            rows_looked_up(table, positions).data,
            i,
            table.data,
            positions[i] as int,
            table.shape[1] as int,
        ),
{
    let s = table.shape;
    let k = s[1] as int;
    assert(s =~= crate::shape::shape2(s[0], s[1]));
    lemma_grid(s[0], s[1]);
    assert(s.skip(1).drop_last() =~= Seq::<usize>::empty());
    assert(s.skip(1).last() == s[1]);
    reveal_with_fuel(product, 2);
    assert(inner(s, 0) == 1 * (k as nat));
    assert(s.take(0) =~= Seq::<usize>::empty());
    assert(outer(s, 0) == 1);
    if 0 <= start && 0 <= i < n && start + n <= s[0] {
        assert(1 * n * k == n * k) by (nonlinear_arith);
        lemma_row_bounds(i, n, k);
        lemma_row_bounds(start + i, s[0] as int, k);
        let (a, b) = (
            rows_from(table, start, n).subrange(i * k, i * k + k),
            table.data.subrange((start + i) * k, (start + i) * k + k),
        );
        assert forall|p: int| 0 <= p < k implies a[p] == b[p] by {
            law_table_rows(table, start, n, positions, i, p);
        }
        assert(a =~= b);
    }
    if 0 <= i < positions.len() && positions[i] != BLANK_ROW && positions[i] < s[0] {
        lemma_row_bounds(i, positions.len() as int, k);
        lemma_row_bounds(positions[i] as int, s[0] as int, k);
        let (a, b) = (
            rows_looked_up(table, positions).data.subrange(i * k, i * k + k),
            table.data.subrange(positions[i] * k, positions[i] * k + k),
        );
        assert forall|p: int| 0 <= p < k implies a[p] == b[p] by {
            law_table_rows(table, start, n, positions, i, p);
        }
        assert(a =~= b);
    }
}

proof fn lemma_row_bounds(i: int, n: int, k: int)
    requires
        0 <= i < n,
        k >= 0,
    ensures
        0 <= i * k,
        i * k + k <= n * k,
{
    assert(0 <= i * k && i * k + k <= n * k) by (nonlinear_arith)
        requires
            0 <= i < n,
            k >= 0,
    ;
}

} // verus!
