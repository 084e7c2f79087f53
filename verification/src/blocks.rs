//! What compressed blocks and their selection hold, element by element.

use vstd::prelude::*;

#[allow(unused_imports)]
use crate::angles::{law_table_rows, law_tail_of_a_head, turned_by};
#[allow(unused_imports)]
use crate::bits::{agrees, NEG_INFINITY, ZERO};
#[allow(unused_imports)]
use crate::elements::{
    lane, law_rms_norm_levels, law_softmax_gives_shares, lemma_linear_at, lemma_reduced_at,
    lemma_source_step, gained, products_of, shares, weighted_sum,
};
#[allow(unused_imports)]
use crate::kernel::{dot_gives, fmul};
#[allow(unused_imports)]
use crate::layout::compressor_layout;
#[allow(unused_imports)]
use crate::ops::{added, Reduce};
#[allow(unused_imports)]
use crate::rope::{tail_rotated, RopeView};
#[allow(unused_imports)]
use crate::shape::{
    fits, inner, lemma_cube, lemma_cube4, lemma_divide, lemma_flat, lemma_flat3, lemma_grid, outer,
    product, shape2, shape3, shape4, source_index,
};
#[allow(unused_imports)]
use crate::sparse::{
    block_count, block_positions, compress_gives, compress_steps, overlap_element, overlap_of,
    pool_gives, pool_steps, CompressSteps, Compressor, PoolSteps,
};
#[allow(unused_imports)]
use crate::tensor::{reshaped, rows_looked_up, BLANK_ROW, V};
#[allow(unused_imports)]
use vstd::arithmetic::div_mod::lemma_fundamental_div_mod_converse;

verus! {

/// Four axes, split before and after the third.
proof fn lemma_four_axes(b: usize, n: usize, m: usize, d: usize)
    ensures
        outer(shape4(b, n, m, d), 2) == b * n,
        inner(shape4(b, n, m, d), 2) == d,
        product(shape4(b, n, m, d)) == b * n * m * d,
{
    let s = shape4(b, n, m, d);
    lemma_cube4(b, n, m, d);
    lemma_grid(b, n);
    assert(s.take(2) =~= shape2(b, n));
    assert(s.skip(3).drop_last() =~= Seq::<usize>::empty());
    reveal_with_fuel(product, 2);
    assert(1 * (d as nat) == d as nat);
}

/// A gated pool over the third axis: the sum of the values, each times the share of its gate.
pub proof fn law_pool_weighs_by_gates(values: V, gates: V, y: V, o: int, c: int)
    requires
        pool_gives(values, gates, y),
        gates.data.len() == product(gates.shape),
        values.data.len() == gates.data.len(),
        gates.shape.len() == 4,
        values.shape == gates.shape,
        0 <= o < gates.shape[0] * gates.shape[1],
        0 <= c < gates.shape[3],
    ensures
        ({
            let (m, d) = (gates.shape[2] as int, gates.shape[3] as int);
            exists|w: Seq<u32>| #[trigger]
                shares(lane(gates.data, m, d, o, c), w) && weighted_sum(
                    lane(values.data, m, d, o, c),
                    w,
                    y.data[o * d + c],
                )
        }),
        y.shape == shape3(gates.shape[0], gates.shape[1], gates.shape[3]),
        y.data.len() == gates.shape[0] * gates.shape[1] * gates.shape[3],
{
    let u = choose|u: PoolSteps| pool_steps(values, gates, u, y);
    let s = gates.shape;
    let (m, d) = (s[2] as int, s[3] as int);
    assert(s =~= shape4(s[0], s[1], s[2], s[3]));
    lemma_four_axes(s[0], s[1], s[2], s[3]);
    law_softmax_gives_shares(2, gates, u.weights, o, c);
    lemma_reduced_at(Reduce::Sum, 2, u.weighted, u.total, o, c);
    let (v, w, parts) = (
        lane(values.data, m, d, o, c),
        lane(u.weights.data, m, d, o, c),
        lane(u.weighted.data, m, d, o, c),
    );
    assert forall|k: int| 0 <= k < m implies agrees(#[trigger] parts[k], fmul(v[k], w[k])) by {
        lemma_flat3(o, k, c, s[0] * s[1], m, d);
        let z = u.weighted.data[(o * m + k) * d + c];
    }
    assert(products_of(v, w, parts));
    assert(s.update(2, 1).remove(2) =~= shape3(s[0], s[1], s[3]));
}

/// The tokens that a block draws on, in one channel. At a ratio other than four they are its own `ratio`
/// tokens. At a ratio of four the blocks overlap: they are the `ratio` tokens of the block before, in the first half of the channels, and
/// then its own in the second half; before the first block of a sequence stands the filling.
pub open spec fn drawn_on(
    data: Seq<u32>,
    nb: int,
    ratio: int,
    d: int,
    fill: u32,
    blk: int,
    c: int,
) -> Seq<u32> {
    if ratio == 4 {
        Seq::new(
            (2 * ratio) as nat,
            |j: int|
                if j >= ratio {
                    data[(blk * ratio + (j - ratio)) * (2 * d) + d + c]
                } else if blk % nb == 0 {
                    fill
                } else {
                    data[((blk - 1) * ratio + j) * (2 * d) + c]
                },
        )
    } else {
        Seq::new(ratio as nat, |j: int| data[(blk * ratio + j) * d + c])
    }
}

/// The windows of overlapping blocks are what they draw on.
proof fn lemma_window(t: V, d: usize, fill: u32, blk: int, c: int)
    requires
        t.shape.len() == 4,
        t.shape[2] == 4,
        t.shape[3] == 2 * d,
        2 * t.shape[2] <= usize::MAX,
        0 <= blk < t.shape[0] * t.shape[1],
        0 <= c < d,
    ensures
        lane(overlap_of(t, d, fill).data, 2 * t.shape[2], d as int, blk, c) == drawn_on(
            t.data,
            t.shape[1] as int,
            t.shape[2] as int,
            d as int,
            fill,
            blk,
            c,
        ),
{
    let s = t.shape;
    let (r, w) = (s[2] as int, d as int);
    let wide = (2 * s[2]) as usize;
    lemma_cube4(s[0], s[1], wide, d);
    let a = lane(overlap_of(t, d, fill).data, 2 * r, w, blk, c);
    let b = drawn_on(t.data, s[1] as int, r, w, fill, blk, c);
    assert forall|j: int| 0 <= j < 2 * r implies #[trigger] a[j] == b[j] by {
        lemma_flat3(blk, j, c, s[0] * s[1], 2 * r, w);
        let p = (blk * (2 * r) + j) * w + c;
        lemma_fundamental_div_mod_converse(p, w, blk * (2 * r) + j, c);
        lemma_fundamental_div_mod_converse(blk * (2 * r) + j, 2 * r, blk, j);
        assert(a[j] == overlap_element(t, w, fill, p));
    }
    assert(a =~= b);
}

/// How many channels a token has: twice as many where the blocks overlap.
pub open spec fn channels(m: Compressor) -> int {
    if m.compress_ratio == 4 {
        2 * m.head_dim
    } else {
        m.head_dim as int
    }
}

/// The values on the way to the blocks.
pub struct BlockValues {
    pub values: Seq<u32>,
    pub gates: Seq<u32>,
    pub pooled: Seq<u32>,
    pub normed: Seq<u32>,
}

/// Token `t` in channel `c`: its value is the token times row `c` of `wkv`, and its score the token times
/// row `c` of `wgate`, plus the embedding of the token's place in the block.
pub open spec fn token_channel(
    m: Compressor,
    x: V,
    width: int,
    ratio: int,
    u: BlockValues,
    t: int,
    c: int,
) -> bool {
    let k = x.shape[2] as int;
    let row = x.data.subrange(t * k, t * k + k);
    &&& dot_gives(row, m.wkv@.data.subrange(c * k, c * k + k), u.values[t * width + c])
    &&& exists|g: u32| #[trigger]
        dot_gives(row, m.wgate@.data.subrange(c * k, c * k + k), g) && agrees(
            u.gates[t * width + c],
            added(g, m.ape@.data[(t % ratio) * width + c]),
        )
}

/// Block `blk` in channel `c`: the values that it draws on, each times the share of its gate.
pub open spec fn pooled_channel(m: Compressor, nb: int, u: BlockValues, blk: int, c: int) -> bool {
    let (r, d) = (m.compress_ratio as int, m.head_dim as int);
    exists|w: Seq<u32>|
        #[trigger] shares(
            drawn_on(u.gates, nb, r, d, NEG_INFINITY, blk, c),
            w,
        ) && weighted_sum(
            drawn_on(u.values, nb, r, d, ZERO, blk, c),
            w,
            u.pooled[blk * d + c],
        )
}

/// A whole block after the norm and the rotation: its row is levelled and scaled by the gain; of the
/// last columns, pair `p` is turned by the table row of the position of the block's first token.
pub open spec fn block_ends(
    m: Compressor,
    rope: RopeView,
    nb: int,
    u: BlockValues,
    blk: int,
    y: Seq<u32>,
) -> bool {
    let (r, d, rd) = (m.compress_ratio as int, m.head_dim as int, m.rope_head_dim as int);
    let position = (blk % nb) * r;
    let keep = d - rd;
    &&& gained(
        u.pooled.subrange(blk * d, blk * d + d),
        m.eps,
        Some(m.norm@),
        u.normed.subrange(blk * d, blk * d + d),
    )
    &&& forall|c: int| 0 <= c < keep ==> #[trigger] y[blk * d + c] == u.normed[blk * d + c]
    &&& forall|p: int|
        0 <= 2 * p < rd ==> #[trigger] turned_by(
            u.normed[blk * d + keep + 2 * p],
            u.normed[blk * d + keep + 2 * p + 1],
            rope.cos.data[position * (rd / 2) + p],
            rope.sin.data[position * (rd / 2) + p],
            false,
            y[blk * d + keep + 2 * p],
            y[blk * d + keep + 2 * p + 1],
        )
}

/// The input and the tables that a compressor takes.
pub open spec fn compressor_input(m: Compressor, x: V, rope: RopeView) -> bool {
    &&& x.wf()
    &&& x.shape.len() == 3
    &&& x.shape[0] > 0
    &&& x.shape[1] > 0
    &&& x.shape[2] > 0
    &&& compressor_layout(m, x.shape[2])
    &&& x.shape[1] as int % m.compress_ratio as int == 0
    &&& rope.wf()
    &&& m.rope_head_dim > 0 ==> 2 * rope.cos.shape[1] == m.rope_head_dim
    &&& m.rope_head_dim > 0 ==> x.shape[1] <= rope.cos.shape[0]
    &&& x.shape[1] <= BLANK_ROW
}

/// Each block is the gated pool of the tokens that it draws on, levelled, and rotated to the position of
/// its first token.
pub proof fn law_compressed_block(m: Compressor, x: V, rope: RopeView, y: V, blk: int)
    requires
        compressor_input(m, x, rope),
        compress_gives(m, x, rope, y),
        0 <= blk < x.shape[0] * (x.shape[1] as int / m.compress_ratio as int),
    ensures
        ({
            let nb = x.shape[1] as int / m.compress_ratio as int;
            let (r, d) = (m.compress_ratio as int, m.head_dim as int);
            let width = channels(m);
            exists|u: BlockValues|
                {
                    &&& forall|t: int, c: int|
                        0 <= t < x.shape[0] * x.shape[1] && 0 <= c < width ==> #[trigger] token_channel(
                            m,
                            x,
                            width,
                            r,
                            u,
                            t,
                            c,
                        )
                    &&& forall|c: int|
                        0 <= c < d ==> #[trigger] pooled_channel(m, nb, u, blk, c)
                    &&& #[trigger] block_ends(m, rope, nb, u, blk, y.data)
                }
        }),
{
    reveal(compress_gives);
    let t = choose|t: CompressSteps| compress_steps(m, x, rope, t, y);
    let (b, s, k) = (x.shape[0] as int, x.shape[1] as int, x.shape[2] as int);
    let nbu = block_count(x.shape[1], m.compress_ratio);
    let nb = nbu as int;
    let (r, d) = (m.compress_ratio as int, m.head_dim as int);
    let wu = m.width() as usize;
    let width = wu as int;
    assert(nb == s / r && s == nb * r) by {
        vstd::arithmetic::div_mod::lemma_fundamental_div_mod(s, r);
        vstd::arithmetic::div_mod::lemma_div_pos_is_pos(s, r);
        vstd::arithmetic::div_mod::lemma_div_is_ordered_by_denominator(s, 1, r);
        assert(s / 1 == s);
        assert(r * (s / r) == (s / r) * r) by (nonlinear_arith);
    }
    let wide = shape4(x.shape[0], nbu, m.compress_ratio, wu);
    let flat = shape3(x.shape[0], x.shape[1], wu);
    assert(x.shape.drop_last().push(wu) =~= flat);
    lemma_cube(x.shape[0], x.shape[1], wu);
    lemma_cube(x.shape[0], x.shape[1], x.shape[2]);
    assert(x.shape =~= shape3(x.shape[0], x.shape[1], x.shape[2]));
    lemma_cube4(x.shape[0], nbu, m.compress_ratio, wu);
    assert(b * nb * r * width == b * s * width) by (nonlinear_arith)
        requires
            s == nb * r,
    ;
    assert(b * nb * r == b * s) by (nonlinear_arith)
        requires
            s == nb * r,
    ;
    assert(t.kv_flat.data.len() == b * s * width);
    assert(t.gate_flat.data.len() == b * s * width);
    let u = BlockValues {
        values: t.kv.data,
        gates: t.gates.data,
        pooled: t.pooled.data,
        normed: t.normed.data,
    };
    let ape4 = shape4(1, 1, m.compress_ratio, wu);
    crate::shape::lemma_expands_axes(ape4, wide);
    crate::shape::lemma_broadcast_into(ape4, wide);
    assert(t.gates.shape == wide);
    assert forall|e: int, c: int| 0 <= e < b * s && 0 <= c < width implies #[trigger] token_channel(
        m,
        x,
        width,
        r,
        u,
        e,
        c,
    ) by {
        lemma_flat(e, c, b * s, width);
        lemma_linear_at(x, m.wkv@, t.kv_flat, e, c);
        lemma_linear_at(x, m.wgate@, t.gate_flat, e, c);
        lemma_token_place(x.shape[0], nbu, m.compress_ratio, wu, e, c);
        let g = t.gate_flat.data[e * width + c];
        let z = t.gates.data[e * width + c];
    }
    lemma_pooled_block(m, t, x.shape[0], nbu, blk);
    assert(t.pooled.shape == shape3(x.shape[0], nbu, m.head_dim));
    lemma_cube(x.shape[0], nbu, m.head_dim);
    assert(t.pooled.shape.drop_last() =~= shape2(x.shape[0], nbu));
    lemma_grid(x.shape[0], nbu);
    law_rms_norm_levels(t.pooled, Some(m.norm@), m.eps, t.normed, blk);
    assert forall|c: int| 0 <= c < d implies #[trigger] pooled_channel(m, nb, u, blk, c) by {
        lemma_pooled_channel(m, t, x.shape[0], nbu, blk, c);
    }
    lemma_block_ends(m, t, x.shape[0], nbu, rope, blk, y, u);
}

/// The place of a token's channel in the blocks, and its embedding.
proof fn lemma_token_place(b: usize, nb: usize, r: usize, w: usize, t: int, c: int)
    requires
        0 <= t < b * nb * r,
        0 <= c < w,
    ensures
        ({
            let e = t * w + c;
            let wide = shape4(b, nb, r, w);
            &&& source_index(shape4(1, 1, r, w), wide, e) == (t % r as int) * w + c
            &&& source_index(wide, wide, e) == e
            &&& 0 <= e < b * nb * r * w
        }),
{
    let wide = shape4(b, nb, r, w);
    let small = shape4(1, 1, r, w);
    lemma_flat(t, c, b * nb * r, w as int);
    lemma_cube4(b, nb, r, w);
    crate::tokens::lemma_source_self(wide, t * w + c);
    lemma_divide(t, b * nb, r as int);
    let (o, j) = (t / r as int, t % r as int);
    lemma_divide(o, b as int, nb as int);
    let (a, k) = (o / nb as int, o % nb as int);
    lemma_source_step(small, wide, t, c);
    let (s3, w3) = (small.drop_last(), wide.drop_last());
    assert(s3 =~= shape3(1, 1, r) && w3 =~= shape3(b, nb, r));
    lemma_source_step(s3, w3, o, j);
    let (s2, w2) = (s3.drop_last(), w3.drop_last());
    assert(s2 =~= shape2(1, 1) && w2 =~= shape2(b, nb));
    lemma_source_step(s2, w2, a, k);
    let (s1, w1) = (s2.drop_last(), w2.drop_last());
    assert(s1.len() == 1 && s1[0] == 1 && w1.len() == 1 && w1[0] == b);
    reveal_with_fuel(source_index, 2);
    if b == 1 {
        assert(a % 1 == 0);
    }
    assert(source_index(s1, w1, a) == 0);
    assert(0 * 1 + 0 == 0 && 0 * r + j == j);
}

/// The pooled blocks have their shape.
proof fn lemma_pooled_block(m: Compressor, t: CompressSteps, b: usize, nb: usize, blk: int)
    requires
        ({
            let w = m.width() as usize;
            let wide = shape4(b, nb, m.compress_ratio, w);
            &&& m.compress_ratio > 0
            &&& m.width() <= usize::MAX
            &&& t.kv.shape == wide
            &&& t.gates.shape == wide
            &&& t.kv.data.len() == product(wide)
            &&& t.gates.data.len() == product(wide)
            &&& if m.overlaps() {
                pool_gives(
                    overlap_of(t.kv, m.head_dim, ZERO),
                    overlap_of(t.gates, m.head_dim, NEG_INFINITY),
                    t.pooled,
                )
            } else {
                pool_gives(t.kv, t.gates, t.pooled)
            }
        }),
        0 <= blk < b * nb,
        m.head_dim > 0,
    ensures
        t.pooled.shape == shape3(b, nb, m.head_dim),
        t.pooled.data.len() == b * nb * m.head_dim,
        t.pooled.data.len() == product(t.pooled.shape),
{
    lemma_pooled_channel(m, t, b, nb, blk, 0);
}

proof fn lemma_pooled_channel(
    m: Compressor,
    t: CompressSteps,
    b: usize,
    nb: usize,
    blk: int,
    c: int,
)
    requires
        ({
            let w = m.width() as usize;
            let wide = shape4(b, nb, m.compress_ratio, w);
            &&& m.compress_ratio > 0
            &&& m.width() <= usize::MAX
            &&& t.kv.shape == wide
            &&& t.gates.shape == wide
            &&& t.kv.data.len() == product(wide)
            &&& t.gates.data.len() == product(wide)
            &&& if m.overlaps() {
                pool_gives(
                    overlap_of(t.kv, m.head_dim, ZERO),
                    overlap_of(t.gates, m.head_dim, NEG_INFINITY),
                    t.pooled,
                )
            } else {
                pool_gives(t.kv, t.gates, t.pooled)
            }
        }),
        0 <= blk < b * nb,
        0 <= c < m.head_dim,
    ensures
        pooled_channel(
            m,
            nb as int,
            BlockValues {
                values: t.kv.data,
                gates: t.gates.data,
                pooled: t.pooled.data,
                normed: t.normed.data,
            },
            blk,
            c,
        ),
        t.pooled.shape == shape3(b, nb, m.head_dim),
        t.pooled.data.len() == b * nb * m.head_dim,
        t.pooled.data.len() == product(t.pooled.shape),
{
    let (r, d) = (m.compress_ratio as int, m.head_dim as int);
    let wide = shape4(b, nb, m.compress_ratio, m.width() as usize);
    lemma_cube(b, nb, m.head_dim);
    let u = BlockValues {
        values: t.kv.data,
        gates: t.gates.data,
        pooled: t.pooled.data,
        normed: t.normed.data,
    };
    if m.overlaps() {
        let (kv, gates) = (
            overlap_of(t.kv, m.head_dim, ZERO),
            overlap_of(t.gates, m.head_dim, NEG_INFINITY),
        );
        law_pool_weighs_by_gates(kv, gates, t.pooled, blk, c);
        lemma_window(t.kv, m.head_dim, ZERO, blk, c);
        lemma_window(t.gates, m.head_dim, NEG_INFINITY, blk, c);
        lemma_cube4(b, nb, 8, m.head_dim);
        let w = choose|w: Seq<u32>| #[trigger]
            shares(lane(gates.data, 8, d, blk, c), w) && weighted_sum(
                lane(kv.data, 8, d, blk, c),
                w,
                t.pooled.data[blk * d + c],
            );
        assert(shares(drawn_on(u.gates, nb as int, r, d, NEG_INFINITY, blk, c), w));
    } else {
        law_pool_weighs_by_gates(t.kv, t.gates, t.pooled, blk, c);
        assert(lane(t.gates.data, r, d, blk, c) =~= drawn_on(
            t.gates.data,
            nb as int,
            r,
            d,
            NEG_INFINITY,
            blk,
            c,
        ));
        assert(lane(t.kv.data, r, d, blk, c) =~= drawn_on(
            t.kv.data,
            nb as int,
            r,
            d,
            ZERO,
            blk,
            c,
        ));
        let w = choose|w: Seq<u32>| #[trigger]
            shares(lane(t.gates.data, r, d, blk, c), w) && weighted_sum(
                lane(t.kv.data, r, d, blk, c),
                w,
                t.pooled.data[blk * d + c],
            );
        assert(shares(drawn_on(u.gates, nb as int, r, d, NEG_INFINITY, blk, c), w));
    }
}

/// A block after the norm and the rotation.
proof fn lemma_block_ends(
    m: Compressor,
    t: CompressSteps,
    b: usize,
    nb: usize,
    rope: RopeView,
    blk: int,
    y: V,
    u: BlockValues,
)
    requires
        ({
            let positions = block_positions(nb, m.compress_ratio);
            if m.rope_head_dim == 0 {
                y == t.normed
            } else {
                &&& tail_rotated(
                    reshaped(t.normed, shape4(b, nb, 1, m.head_dim)),
                    rows_looked_up(rope.cos, positions).data,
                    rows_looked_up(rope.sin, positions).data,
                    m.rope_head_dim as int,
                    false,
                    t.turned,
                )
                &&& y == reshaped(t.turned, shape3(b, nb, m.head_dim))
            }
        }),
        u.pooled == t.pooled.data,
        u.normed == t.normed.data,
        t.normed.shape == shape3(b, nb, m.head_dim),
        t.normed.data.len() == product(t.normed.shape),
        fits(t.normed.shape),
        gained(
            u.pooled.subrange(blk * m.head_dim, blk * m.head_dim + m.head_dim),
            m.eps,
            Some(m.norm@),
            u.normed.subrange(blk * m.head_dim, blk * m.head_dim + m.head_dim),
        ),
        rope.wf(),
        m.rope_head_dim <= m.head_dim,
        m.rope_head_dim > 0 ==> 2 * rope.cos.shape[1] == m.rope_head_dim,
        m.rope_head_dim > 0 ==> nb * m.compress_ratio <= rope.cos.shape[0],
        nb * m.compress_ratio <= BLANK_ROW,
        m.compress_ratio > 0,
        0 <= blk < b * nb,
    ensures
        block_ends(m, rope, nb as int, u, blk, y.data),
{
    let (r, d, rd) = (m.compress_ratio as int, m.head_dim as int, m.rope_head_dim as int);
    let keep = d - rd;
    let n = nb as int;
    lemma_divide(blk, b as int, n);
    let (a, i) = (blk / n, blk % n);
    let position = i * r;
    assert(0 <= position < n * r) by (nonlinear_arith)
        requires
            0 <= i < n,
            r > 0,
            position == i * r,
    ;
    lemma_cube(b, nb, m.head_dim);
    lemma_cube4(b, nb, 1, m.head_dim);
    assert(b * nb * 1 * d == b * nb * d) by (nonlinear_arith);
    if rd > 0 {
        let x = reshaped(t.normed, shape4(b, nb, 1, m.head_dim));
        assert(x.wf()) by {
            assert(shape4(b, nb, 1, m.head_dim) =~= t.normed.shape.insert(2, 1));
            crate::tensor::lemma_unit_axis(t.normed.shape, 2);
        }
        let positions = block_positions(nb, m.compress_ratio);
        let (cos, sin) = (
            rows_looked_up(rope.cos, positions).data,
            rows_looked_up(rope.sin, positions).data,
        );
        assert((a * n + i) * 1 + 0 == blk);
        assert(((a * n + i) * 1 + 0) * d == blk * d);
        assert forall|p: int| 0 <= 2 * p < rd implies #[trigger] turned_by(
            u.normed[blk * d + keep + 2 * p],
            u.normed[blk * d + keep + 2 * p + 1],
            rope.cos.data[position * (rd / 2) + p],
            rope.sin.data[position * (rd / 2) + p],
            false,
            y.data[blk * d + keep + 2 * p],
            y.data[blk * d + keep + 2 * p + 1],
        ) by {
            law_tail_of_a_head(x, cos, sin, m.rope_head_dim, false, t.turned, a, i, 0, p);
            law_table_rows(rope.cos, 0, 0, positions, i, p);
            law_table_rows(rope.sin, 0, 0, positions, i, p);
        }
        law_tail_of_a_head(x, cos, sin, m.rope_head_dim, false, t.turned, a, i, 0, 0);
        assert forall|c: int| 0 <= c < keep implies #[trigger] y.data[blk * d + c] == u.normed[blk * d
            + c] by {
            assert(t.turned.data[((a * n + i) * 1 + 0) * d + c] == x.data[((a * n + i) * 1 + 0) * d + c]);
        }
    }
}

} // verus!
