//! Laws of dependence: what a layer gives at a position is settled by what lies at or before it.
//!
//! Two runs of a layer are put together (see [`crate::mix`]): the positions whose inputs agree take
//! what they have from the first run, the others from the second. The laws say that the result is a
//! run on the second input, so that what the first run has at those positions is an outcome of the
//! second input as well.

use vstd::prelude::*;

#[allow(unused_imports)]
use crate::attention::{
    latent_gives, latent_steps, query_gives, query_steps, LatentSteps, Mla, QuerySteps,
};
#[allow(unused_imports)]
use crate::bits::{agrees, DOUBLE_ZERO, NEG_INFINITY, ZERO};
#[allow(unused_imports)]
use crate::kernel::{left_row, right_column};
#[allow(unused_imports)]
use crate::layout::{compressor_layout, indexer_layout, lemma_blocks, lemma_positive, mla_layout};
#[allow(unused_imports)]
use crate::mix::{
    at, lemma_linear_same, lemma_mix_gain, lemma_mix_linear, lemma_mix_mapped, lemma_mix_overlap,
    lemma_mix_pool, lemma_mix_reshaped, lemma_mix_rms_norm, lemma_mix_tail, lemma_position,
    lemma_quotients, mixed, row_at, same_row, windowed,
};
#[allow(unused_imports)]
use crate::ops::{binary, combined, linear_gives, multiplied, reduced, Binary, Reduce, Unary};
#[allow(unused_imports)]
use crate::rope::{rows_from, RopeView};
#[allow(unused_imports)]
use crate::shape::{
    fits, lemma_broadcast_into, lemma_cube, lemma_cube4, lemma_divide, lemma_expands_axes,
    lemma_flat, shape2, shape3, shape4,
};
#[allow(unused_imports)]
use crate::sparse::{
    block_count, block_positions, compress_gives, compress_steps, kept_blocks, overlap_of,
    pool_gives, row_holds, row_selected, select_gives, select_inputs, select_steps, selected,
    visible_blocks, CompressSteps, Compressor, Indexer, SelectSteps,
};
#[allow(unused_imports)]
use crate::tensor::{reshaped, rows_looked_up, squeezed, swapped, unsqueezed, IndexView, V};
#[allow(unused_imports)]
use crate::topk::top_k_of;

verus! {

/// The rows of the block of `r` rows that starts at row `q * r` are the same in both.
pub open spec fn same_block(x: V, x2: V, k: int, r: int, q: int) -> bool {
    forall|j: int| q * r <= j < q * r + r ==> #[trigger] same_row(x, x2, k, j)
}

/// The tokens that go into block `q` are the same in both.
pub open spec fn same_sources(c: Compressor, x: V, x2: V, q: int) -> bool {
    let nb = block_count(x.shape[1], c.compress_ratio) as int;
    let (k, r) = (x.shape[2] as int, c.compress_ratio as int);
    &&& same_block(x, x2, k, r, q)
    &&& c.overlaps() && q % nb != 0 ==> same_block(x, x2, k, r, q - 1)
}

/// The tokens that go into the blocks that `f` names are the same in both.
pub open spec fn blocks_agree(c: Compressor, x: V, x2: V, f: spec_fn(int) -> bool) -> bool {
    forall|q: int|
        0 <= q < x.shape[0] * block_count(x.shape[1], c.compress_ratio) && f(q)
            ==> #[trigger] same_sources(c, x, x2, q)
}

/// Every step of the compression acts on each block.
proof fn lemma_pooled_blocks(
    c: Compressor,
    x: V,
    x2: V,
    rope: RopeView,
    t: CompressSteps,
    t2: CompressSteps,
    y: V,
    y2: V,
    f: spec_fn(int) -> bool,
)
    requires
        x.shape.len() == 3,
        x2.shape == x.shape,
        x.wf(),
        x2.wf(),
        compressor_layout(c, x.shape[2]),
        x.shape[0] > 0,
        x.shape[1] > 0,
        x.shape[1] as int % c.compress_ratio as int == 0,
        compress_steps(c, x, rope, t, y),
        compress_steps(c, x2, rope, t2, y2),
        blocks_agree(c, x, x2, f),
    ensures
        ({
            let (b, nb, ratio, d) = (
                x.shape[0],
                block_count(x.shape[1], c.compress_ratio),
                c.compress_ratio,
                c.head_dim,
            );
            let width = c.width() as usize;
            let wide = shape4(b, nb, ratio, width);
            let g = if c.overlaps() {
                windowed(f, nb as int, ratio as int, d as int)
            } else {
                at(f, ratio * width)
            };
            let (kv, gates) = (
                reshaped(mixed(t.kv_flat, t2.kv_flat, g), wide),
                mixed(t.gates, t2.gates, g),
            );
            let pooled = mixed(t.pooled, t2.pooled, at(f, d as int));
            &&& linear_gives(x2, c.wkv@, mixed(t.kv_flat, t2.kv_flat, g))
            &&& linear_gives(x2, c.wgate@, mixed(t.gate_flat, t2.gate_flat, g))
            &&& combined(
                Binary::Add,
                reshaped(mixed(t.gate_flat, t2.gate_flat, g), wide),
                reshaped(c.ape@, shape4(1, 1, ratio, width)),
                gates,
            )
            &&& if c.overlaps() {
                pool_gives(overlap_of(kv, d, ZERO), overlap_of(gates, d, NEG_INFINITY), pooled)
            } else {
                pool_gives(kv, gates, pooled)
            }
            &&& t.pooled.wf()
            &&& t2.pooled.wf()
            &&& t.pooled.shape == shape3(b, nb, d)
            &&& t2.pooled.shape == shape3(b, nb, d)
        }),
{
    let (b, s, dim) = (x.shape[0], x.shape[1], x.shape[2]);
    let (ratio, d) = (c.compress_ratio, c.head_dim);
    let nb = block_count(s, ratio);
    let width = c.width() as usize;
    let wide = shape4(b, nb, ratio, width);
    let g = if c.overlaps() {
        windowed(f, nb as int, ratio as int, d as int)
    } else {
        at(f, ratio * width)
    };
    lemma_blocks(s, ratio);
    assert(nb * ratio == s);
    let flat = shape3(b, s, width);
    assert(x.shape.drop_last().push(width) =~= flat);
    lemma_cube(b, s, width);
    lemma_cube4(b, nb, ratio, width);
    assert(b * nb * ratio * width == b * s * width) by (nonlinear_arith)
        requires
            nb * ratio == s,
    ;
    lemma_positive(flat);
    lemma_positive(wide);
    let (k, wi, ri) = (dim as int, width as int, ratio as int);
    assert forall|i: int| 0 <= i < t.kv_flat.data.len() && g(i) implies same_row(
        x,
        x2,
        k,
        #[trigger] row_at(i, wi),
    ) by {
        let j = row_at(i, wi);
        lemma_divide(i, b * s, wi);
        assert(b * s == b * nb * ratio) by (nonlinear_arith)
            requires
                nb * ratio == s,
        ;
        lemma_divide(j, b * nb, ri);
        lemma_position(i, wi, ri);
        let q = j / ri;
        if c.overlaps() {
            assert(ri * (2 * d) == ri * wi);
            if i % wi < d {
                assert((q + 1) % (nb as int) != 0 && f(q + 1));
                lemma_next_block(q, b as int, nb as int);
                assert(same_sources(c, x, x2, q + 1));
                assert(same_block(x, x2, k, ri, q + 1 - 1));
            } else {
                assert(same_sources(c, x, x2, q));
            }
        } else {
            assert(same_sources(c, x, x2, q));
        }
        assert(same_row(x, x2, k, j));
    }
    lemma_linear_same(x, x2, c.wkv@, t.kv_flat, t2.kv_flat, g);
    lemma_linear_same(x, x2, c.wgate@, t.gate_flat, t2.gate_flat, g);
    lemma_mix_reshaped(t.kv_flat, t2.kv_flat, wide, g);
    lemma_mix_reshaped(t.gate_flat, t2.gate_flat, wide, g);
    let ape = reshaped(c.ape@, shape4(1, 1, ratio, width));
    lemma_expands_axes(ape.shape, wide);
    lemma_broadcast_into(ape.shape, wide);
    lemma_mix_gain(
        Binary::Add,
        reshaped(t.gate_flat, wide),
        reshaped(t2.gate_flat, wide),
        ape,
        t.gates,
        t2.gates,
        g,
    );
    if c.overlaps() {
        let eight = shape4(b, nb, 8, d);
        lemma_cube4(b, nb, 8, d);
        lemma_positive(eight);
        assert(b * nb * 8 * d == b * nb * ratio * width) by (nonlinear_arith)
            requires
                ratio == 4,
                width == 2 * d,
        ;
        lemma_mix_overlap(t.kv, t2.kv, d, ZERO, f);
        lemma_mix_overlap(t.gates, t2.gates, d, NEG_INFINITY, f);
        lemma_mix_pool(
            overlap_of(t.kv, d, ZERO),
            overlap_of(t2.kv, d, ZERO),
            overlap_of(t.gates, d, NEG_INFINITY),
            overlap_of(t2.gates, d, NEG_INFINITY),
            t.pooled,
            t2.pooled,
            f,
        );
    } else {
        lemma_mix_pool(t.kv, t2.kv, t.gates, t2.gates, t.pooled, t2.pooled, f);
    }
}

/// A block that does not start a sequence has a number inside the list.
proof fn lemma_next_block(q: int, b: int, nb: int)
    requires
        0 <= q < b * nb,
        (q + 1) % nb != 0,
        nb > 0,
    ensures
        q + 1 < b * nb,
{
    if q + 1 == b * nb {
        vstd::arithmetic::div_mod::lemma_mod_multiples_basic(b, nb);
    }
}

/// A compressed block depends on nothing but its own tokens and, where blocks overlap, on those of
/// the block before it in its sequence. If two inputs have these tokens in common for the blocks that
/// `f` names, then those blocks of the one and the rest of the other make up a result of the other.
pub proof fn law_blocks_are_local(
    c: Compressor,
    x: V,
    x2: V,
    rope: RopeView,
    y: V,
    y2: V,
    f: spec_fn(int) -> bool,
)
    requires
        x.shape.len() == 3,
        x2.shape == x.shape,
        x.wf(),
        x2.wf(),
        compressor_layout(c, x.shape[2]),
        c.rope_head_dim % 2 == 0,
        x.shape[0] > 0,
        x.shape[1] > 0,
        x.shape[1] as int % c.compress_ratio as int == 0,
        compress_gives(c, x, rope, y),
        compress_gives(c, x2, rope, y2),
        blocks_agree(c, x, x2, f),
    ensures
        y.wf(),
        y2.wf(),
        y.shape == shape3(
            x.shape[0],
            block_count(x.shape[1], c.compress_ratio),
            c.head_dim,
        ),
        y2.shape == y.shape,
        compress_gives(c, x2, rope, mixed(y, y2, at(f, c.head_dim as int))),
{
    reveal(compress_gives);
    let t = choose|t: CompressSteps| compress_steps(c, x, rope, t, y);
    let t2 = choose|t2: CompressSteps| compress_steps(c, x2, rope, t2, y2);
    lemma_pooled_blocks(c, x, x2, rope, t, t2, y, y2, f);
    let (b, nb, ratio, d) = (
        x.shape[0],
        block_count(x.shape[1], c.compress_ratio),
        c.compress_ratio,
        c.head_dim,
    );
    let width = c.width() as usize;
    let wide = shape4(b, nb, ratio, width);
    let g = if c.overlaps() {
        windowed(f, nb as int, ratio as int, d as int)
    } else {
        at(f, ratio * width)
    };
    let h = at(f, d as int);
    assert(1 * d == d);
    lemma_mix_rms_norm(t.pooled, t2.pooled, Some(c.norm@), c.eps, t.normed, t2.normed, f, 1);
    let lane = shape4(b, nb, 1, d);
    lemma_mix_reshaped(t.normed, t2.normed, lane, h);
    crate::tensor::lemma_unit_axis(shape3(b, nb, d), 2);
    assert(shape3(b, nb, d).insert(2, 1) =~= lane);
    let positions = block_positions(nb, ratio);
    if c.rope_head_dim > 0 {
        lemma_mix_tail(
            reshaped(t.normed, lane),
            reshaped(t2.normed, lane),
            rows_looked_up(rope.cos, positions).data,
            rows_looked_up(rope.sin, positions).data,
            c.rope_head_dim as int,
            false,
            t.turned,
            t2.turned,
            f,
            1,
        );
        lemma_mix_reshaped(t.turned, t2.turned, shape3(b, nb, d), h);
    }
    let v = CompressSteps {
        kv_flat: mixed(t.kv_flat, t2.kv_flat, g),
        kv: reshaped(mixed(t.kv_flat, t2.kv_flat, g), wide),
        gate_flat: mixed(t.gate_flat, t2.gate_flat, g),
        gates: mixed(t.gates, t2.gates, g),
        pooled: mixed(t.pooled, t2.pooled, h),
        normed: mixed(t.normed, t2.normed, h),
        turned: mixed(t.turned, t2.turned, h),
    };
    assert(compress_steps(c, x2, rope, v, mixed(y, y2, h)));
}

/// The queries of a token depend on that token and its place: mixed inputs give mixed queries.
pub proof fn law_queries_are_per_token(
    m: Mla,
    x: V,
    x2: V,
    rope: RopeView,
    start: int,
    qr: V,
    q: V,
    qr2: V,
    q2: V,
    qlr: usize,
    f: spec_fn(int) -> bool,
)
    requires
        x.shape.len() == 3,
        x2.shape == x.shape,
        x.wf(),
        x2.wf(),
        mla_layout(m, x.shape[2], qlr),
        m.rope_head_dim % 2 == 0,
        query_gives(m, x, rope, start, qr, q),
        query_gives(m, x2, rope, start, qr2, q2),
        fits(shape4(x.shape[0], x.shape[1], m.n_heads, m.head_dim)),
    ensures
        qr.wf(),
        qr2.wf(),
        q.wf(),
        q2.wf(),
        qr.shape == shape3(x.shape[0], x.shape[1], qlr),
        qr2.shape == qr.shape,
        q.shape == shape4(x.shape[0], x.shape[1], m.n_heads, m.head_dim),
        q2.shape == q.shape,
        query_gives(
            m,
            mixed(x, x2, at(f, x.shape[2] as int)),
            rope,
            start,
            mixed(qr, qr2, at(f, qlr as int)),
            mixed(q, q2, at(f, m.n_heads * m.head_dim)),
        ),
{
    reveal(query_gives);
    let (b, s, dim) = (x.shape[0], x.shape[1], x.shape[2]);
    let (h, hd) = (m.n_heads, m.head_dim);
    let wide = h * hd;
    let t = choose|t: QuerySteps| query_steps(m, x, rope, start, t, qr, q);
    let t2 = choose|t2: QuerySteps| query_steps(m, x2, rope, start, t2, qr2, q2);
    assert(1 * dim == dim && 1 * qlr == qlr && 1 * wide == wide);
    assert(x.shape.drop_last().push(qlr) =~= shape3(b, s, qlr));
    lemma_mix_linear(x, x2, m.wq_a@, t.low, t2.low, f, 1);
    lemma_mix_rms_norm(t.low, t2.low, Some(m.q_norm@), m.eps, qr, qr2, f, 1);
    lemma_mix_linear(qr, qr2, m.wq_b@, t.flat, t2.flat, f, 1);
    let flat = shape3(b, s, wide as usize);
    assert(qr.shape.drop_last().push(wide as usize) =~= flat);
    let heads = shape4(b, s, h, hd);
    lemma_cube(b, s, wide as usize);
    lemma_cube4(b, s, h, hd);
    assert(b * s * h * hd == b * s * wide) by (nonlinear_arith)
        requires
            wide == h * hd,
    ;
    let g = at(f, wide);
    lemma_mix_reshaped(t.flat, t2.flat, heads, g);
    lemma_mix_rms_norm(
        reshaped(t.flat, heads),
        reshaped(t2.flat, heads),
        None,
        m.eps,
        t.normed,
        t2.normed,
        f,
        h as int,
    );
    lemma_mix_tail(
        t.normed,
        t2.normed,
        rows_from(rope.cos, start, s as int),
        rows_from(rope.sin, start, s as int),
        m.rope_head_dim as int,
        false,
        q,
        q2,
        f,
        h as int,
    );
    let v = QuerySteps {
        low: mixed(t.low, t2.low, at(f, qlr as int)),
        flat: mixed(t.flat, t2.flat, g),
        normed: mixed(t.normed, t2.normed, g),
    };
    assert(query_steps(
        m,
        mixed(x, x2, at(f, dim as int)),
        rope,
        start,
        v,
        mixed(qr, qr2, at(f, qlr as int)),
        mixed(q, q2, g),
    ));
}

/// The latent key of a token depends on that token and its place: mixed inputs give mixed keys.
pub proof fn law_latents_are_per_token(
    m: Mla,
    x: V,
    x2: V,
    rope: RopeView,
    start: int,
    kv: V,
    kv2: V,
    qlr: usize,
    f: spec_fn(int) -> bool,
)
    requires
        x.shape.len() == 3,
        x2.shape == x.shape,
        x.wf(),
        x2.wf(),
        mla_layout(m, x.shape[2], qlr),
        m.rope_head_dim % 2 == 0,
        latent_gives(m, x, rope, start, kv),
        latent_gives(m, x2, rope, start, kv2),
    ensures
        kv.wf(),
        kv2.wf(),
        kv.shape == shape3(x.shape[0], x.shape[1], m.head_dim),
        kv2.shape == kv.shape,
        latent_gives(
            m,
            mixed(x, x2, at(f, x.shape[2] as int)),
            rope,
            start,
            mixed(kv, kv2, at(f, m.head_dim as int)),
        ),
{
    reveal(latent_gives);
    let (b, s, dim, hd) = (x.shape[0], x.shape[1], x.shape[2], m.head_dim);
    let t = choose|t: LatentSteps| latent_steps(m, x, rope, start, t, kv);
    let t2 = choose|t2: LatentSteps| latent_steps(m, x2, rope, start, t2, kv2);
    assert(1 * dim == dim && 1 * hd == hd);
    let flat = shape3(b, s, hd);
    let lane = shape4(b, s, 1, hd);
    assert(x.shape.drop_last().push(hd) =~= flat);
    let g = at(f, hd as int);
    lemma_mix_linear(x, x2, m.wkv@, t.low, t2.low, f, 1);
    lemma_mix_rms_norm(t.low, t2.low, Some(m.kv_norm@), m.eps, t.normed, t2.normed, f, 1);
    crate::tensor::lemma_unit_axis(flat, 2);
    assert(flat.insert(2, 1) =~= lane);
    lemma_mix_reshaped(t.normed, t2.normed, lane, g);
    lemma_mix_tail(
        reshaped(t.normed, lane),
        reshaped(t2.normed, lane),
        rows_from(rope.cos, start, s as int),
        rows_from(rope.sin, start, s as int),
        m.rope_head_dim as int,
        false,
        t.turned,
        t2.turned,
        f,
        1,
    );
    lemma_mix_reshaped(t.turned, t2.turned, flat, g);
    let v = LatentSteps {
        low: mixed(t.low, t2.low, g),
        normed: mixed(t.normed, t2.normed, g),
        turned: mixed(t.turned, t2.turned, g),
    };
    assert(latent_steps(
        m,
        mixed(x, x2, at(f, dim as int)),
        rope,
        start,
        v,
        mixed(kv, kv2, g),
    ));
}

/// What the selector starts from, with the tokens that `f` names and the blocks that `g` names from
/// the first run.
pub open spec fn mixed_inputs(
    ix: Indexer,
    t: SelectSteps,
    t2: SelectSteps,
    f: spec_fn(int) -> bool,
    g: spec_fn(int) -> bool,
) -> SelectSteps {
    let heads = at(f, ix.n_heads * ix.head_dim);
    let lanes = at(f, ix.n_heads as int);
    SelectSteps {
        q_flat: mixed(t.q_flat, t2.q_flat, heads),
        q: mixed(t.q, t2.q, heads),
        compressed: mixed(t.compressed, t2.compressed, at(g, ix.head_dim as int)),
        weights_flat: mixed(t.weights_flat, t2.weights_flat, lanes),
        weights: mixed(t.weights, t2.weights, lanes),
        ..t2
    }
}

/// The shapes of what the selector starts from.
pub open spec fn selector_shapes(ix: Indexer, x: Seq<usize>, t: SelectSteps) -> bool {
    let (b, s, h, hd) = (x[0], x[1], ix.n_heads, ix.head_dim);
    let nb = block_count(s, ix.compress_ratio);
    &&& t.q.wf()
    &&& t.compressed.wf()
    &&& t.weights.wf()
    &&& t.q.shape == shape4(b, s, h, hd)
    &&& t.compressed.shape == shape3(b, nb, hd)
    &&& t.weights.shape == shape3(b, s, h)
}

/// The selector's queries and head weights depend on their token, its keys on the tokens of their
/// block. Both runs scale the head weights by the same constant.
pub proof fn law_selector_inputs_are_local(
    ix: Indexer,
    x: V,
    x2: V,
    qr: V,
    qr2: V,
    rope: RopeView,
    t: SelectSteps,
    t2: SelectSteps,
    f: spec_fn(int) -> bool,
    g: spec_fn(int) -> bool,
)
    requires
        x.shape.len() == 3,
        x2.shape == x.shape,
        x.wf(),
        x2.wf(),
        qr.wf(),
        qr2.wf(),
        qr.shape.len() == 3,
        qr.shape == shape3(x.shape[0], x.shape[1], qr.shape[2]),
        qr2.shape == qr.shape,
        indexer_layout(ix, x.shape[2], qr.shape[2]),
        ix.rope_head_dim % 2 == 0,
        ix.compressor.rope_head_dim % 2 == 0,
        x.shape[0] > 0,
        x.shape[1] > 0,
        x.shape[1] as int % ix.compress_ratio as int == 0,
        fits(shape4(x.shape[0], x.shape[1], ix.n_heads, ix.head_dim)),
        select_inputs(ix, x, qr, rope, t),
        select_inputs(ix, x2, qr2, rope, t2),
        t.factor == t2.factor,
        mixed(x, x2, at(f, x.shape[2] as int)) == x2,
        blocks_agree(ix.compressor, x, x2, g),
    ensures
        select_inputs(
            ix,
            x2,
            mixed(qr, qr2, at(f, qr.shape[2] as int)),
            rope,
            mixed_inputs(ix, t, t2, f, g),
        ),
        selector_shapes(ix, x.shape, t),
        selector_shapes(ix, x.shape, t2),
{
    reveal(select_inputs);
    let (b, s, dim, qlr) = (x.shape[0], x.shape[1], x.shape[2], qr.shape[2]);
    let (h, hd) = (ix.n_heads, ix.head_dim);
    let wide = h * hd;
    assert(1 * dim == dim && 1 * qlr == qlr && 1 * wide == wide && 1 * h == h);
    let flat = shape3(b, s, wide as usize);
    assert(qr.shape.drop_last().push(wide as usize) =~= flat);
    assert(x.shape.drop_last().push(h) =~= shape3(b, s, h));
    lemma_mix_linear(qr, qr2, ix.wq_b@, t.q_flat, t2.q_flat, f, 1);
    let heads = shape4(b, s, h, hd);
    lemma_cube(b, s, wide as usize);
    lemma_cube4(b, s, h, hd);
    assert(b * s * h * hd == b * s * wide) by (nonlinear_arith)
        requires
            wide == h * hd,
    ;
    lemma_mix_reshaped(t.q_flat, t2.q_flat, heads, at(f, wide));
    let positions = block_positions(s, 1);
    if ix.rope_head_dim > 0 {
        lemma_mix_tail(
            reshaped(t.q_flat, heads),
            reshaped(t2.q_flat, heads),
            rows_looked_up(rope.cos, positions).data,
            rows_looked_up(rope.sin, positions).data,
            ix.rope_head_dim as int,
            false,
            t.q,
            t2.q,
            f,
            h as int,
        );
    }
    law_blocks_are_local(ix.compressor, x, x2, rope, t.compressed, t2.compressed, g);
    lemma_mix_linear(x, x2, ix.weights_proj@, t.weights_flat, t2.weights_flat, f, 1);
    lemma_mix_mapped(
        Unary::Affine(t.factor, DOUBLE_ZERO),
        t.weights_flat,
        t2.weights_flat,
        t.weights,
        t2.weights,
        at(f, h as int),
    );
}

/// The entries of query row `p` for the first `n` of `nb` blocks, in a tensor with `r` rows per query.
pub open spec fn seen(p: int, r: int, nb: int, n: int) -> spec_fn(int) -> bool {
    |e: int| e / (r * nb) == p && e % nb < n
}

/// The entries of row `p` of a matrix with rows of `k` elements.
pub open spec fn of_row(p: int, k: int) -> spec_fn(int) -> bool {
    at(|q: int| q == p, k)
}

/// The scores of one query for the blocks that it sees can be taken from another run in which its
/// queries, its head weights and the keys of these blocks are the same.
proof fn lemma_scores_of_query(
    ix: Indexer,
    x: V,
    qr: V,
    rope: RopeView,
    t: SelectSteps,
    x2: V,
    qr2: V,
    t2: SelectSteps,
    p: int,
    n: int,
)
    requires
        x.shape.len() == 3,
        x2.shape == x.shape,
        ix.n_heads > 0,
        ix.head_dim > 0,
        ix.compress_ratio > 0,
        x.shape[1] > 0,
        select_steps(ix, x, qr, rope, t),
        select_steps(ix, x2, qr2, rope, t2),
        selector_shapes(ix, x.shape, t),
        selector_shapes(ix, x.shape, t2),
        ({
            let (b, s, h, hd) = (x.shape[0], x.shape[1], ix.n_heads, ix.head_dim);
            let nb = block_count(s, ix.compress_ratio);
            &&& fits(shape4(b, s, h, nb))
            &&& 0 <= p < b * s
            &&& 0 <= n <= nb
            &&& same_row(t.q, t2.q, h * hd, p)
            &&& same_row(t.weights, t2.weights, h as int, p)
            &&& forall|c: int|
                0 <= c < n ==> #[trigger] same_row(
                    t.compressed,
                    t2.compressed,
                    hd as int,
                    (p / s as int) * nb + c,
                )
        }),
    ensures
        ({
            let (h, nb) = (
                ix.n_heads as int,
                block_count(x.shape[1], ix.compress_ratio) as int,
            );
            let v = SelectSteps {
                products: mixed(t.products, t2.products, seen(p, h, nb, n)),
                scores: mixed(t.scores, t2.scores, seen(p, h, nb, n)),
                weighted: mixed(t.weighted, t2.weighted, seen(p, h, nb, n)),
                total: mixed(t.total, t2.total, seen(p, 1, nb, n)),
                score: mixed(t.score, t2.score, seen(p, 1, nb, n)),
                ..t2
            };
            &&& select_steps(ix, x2, qr2, rope, v)
            &&& t.score.data.len() == x.shape[0] * x.shape[1] * nb
            &&& t2.score.data.len() == x.shape[0] * x.shape[1] * nb
        }),
{
    reveal(select_inputs);
    let (b, s, h, hd) = (x.shape[0], x.shape[1], ix.n_heads, ix.head_dim);
    let nb = block_count(s, ix.compress_ratio);
    let (hi, di, ni, si) = (h as int, hd as int, nb as int, s as int);
    let g = seen(p, hi, ni, n);
    let full = shape4(b, s, h, nb);
    lemma_cube4(b, s, h, nb);
    let rows = (s * h) as usize;
    lemma_cube4(b, s, h, hd);
    crate::shape::lemma_merged(t.q.shape, 1);
    assert(s * h == rows);
    let flat = shape3(b, rows, nb);
    let lq = shape3(b, rows, hd);
    let (q3, q4) = (reshaped(t.q, lq), reshaped(t2.q, lq));
    let (k3, k4) = (swapped(t.compressed, 1), swapped(t2.compressed, 1));
    assert(lq.drop_last().push(nb) =~= flat);
    assert(k3.shape =~= shape3(b, hd, nb) && k4.shape =~= shape3(b, hd, nb));
    lemma_cube(b, rows, nb);
    lemma_cube(b, nb, hd);
    assert(b * rows * nb == b * s * h * nb && b * s * h == b * rows) by (nonlinear_arith)
        requires
            rows == s * h,
    ;
    let v = mixed(t.products, t2.products, g);
    assert forall|e: int| 0 <= e < v.data.len() implies crate::kernel::dot_gives(
        left_row(q4.data, di, ni, e),
        right_column(k4.data, rows as int, di, ni, e),
        #[trigger] v.data[e],
    ) by {
        if g(e) {
            lemma_divide(e, b * rows, ni);
            lemma_position(e, ni, hi);
            let (row, c) = (e / ni, e % ni);
            assert(row / hi == p);
            lemma_divide(row, b * s, hi);
            lemma_divide(row, b as int, rows as int);
            lemma_divide(p, b as int, si);
            lemma_position(row, hi, si);
            assert(si * hi == rows);
            let a = p / si;
            assert(row / rows as int == a);
            let (l, l2) = (left_row(q3.data, di, ni, e), left_row(q4.data, di, ni, e));
            lemma_flat(row, di - 1, b * rows, di);
            assert(row * di >= 0) by (nonlinear_arith)
                requires
                    row >= 0,
                    di > 0,
            ;
            assert(l =~= l2) by {
                assert forall|j: int| 0 <= j < di implies l[j] == l2[j] by {
                    let z = row * di + j;
                    assert(p * (hi * di) <= z < p * (hi * di) + hi * di) by (nonlinear_arith)
                        requires
                            z == row * di + j,
                            row == p * hi + row % hi,
                            0 <= row % hi < hi,
                            0 <= j < di,
                    ;
                    assert(t.q.data[z] == t2.q.data[z]);
                }
            }
            let (r, r2) = (
                right_column(k3.data, rows as int, di, ni, e),
                right_column(k4.data, rows as int, di, ni, e),
            );
            assert(r =~= r2) by {
                assert forall|j: int| 0 <= j < di implies r[j] == r2[j] by {
                    lemma_swapped_keys(t.compressed, b, nb, hd, a, c, j);
                    lemma_swapped_keys(t2.compressed, b, nb, hd, a, c, j);
                    assert(same_row(t.compressed, t2.compressed, di, a * nb + c));
                    let z = (a * ni + c) * di + j;
                    assert(t.compressed.data[z] == t2.compressed.data[z]);
                }
            }
        }
    }
    assert(multiplied(q4, k4, v));
    lemma_mix_reshaped(t.products, t2.products, full, g);
    lemma_mix_mapped(
        Unary::Relu,
        reshaped(t.products, full),
        reshaped(t2.products, full),
        t.scores,
        t2.scores,
        g,
    );
    let (w, w2) = (unsqueezed(t.weights, 3), unsqueezed(t2.weights, 3));
    let col = shape4(b, s, h, 1);
    assert(w.shape =~= col && w2.shape =~= col);
    lemma_expands_axes(col, full);
    lemma_broadcast_into(col, full);
    let weighted = mixed(t.weighted, t2.weighted, g);
    let scores = mixed(t.scores, t2.scores, g);
    lemma_cube(b, s, h);
    assert(combined(Binary::Mul, scores, w2, weighted)) by {
        assert forall|e: int| 0 <= e < weighted.data.len() implies agrees(
            #[trigger] weighted.data[e],
            binary(
                Binary::Mul,
                scores.data[crate::shape::source_index(full, full, e)],
                w2.data[crate::shape::source_index(col, full, e)],
            ),
        ) by {
            crate::tokens::lemma_source_self(full, e);
            lemma_column_source(b, s, h, nb, e);
            lemma_divide(e, b * s * h, ni);
            if g(e) {
                lemma_position(e, ni, hi);
                let row = e / ni;
                lemma_divide(row, b * s, hi);
                assert(t.weights.data[row] == t2.weights.data[row]);
                assert(agrees(t.weighted.data[e], binary(Binary::Mul, t.scores.data[e], w.data[row])));
            } else {
                assert(agrees(
                    t2.weighted.data[e],
                    binary(Binary::Mul, t2.scores.data[e], w2.data[e / ni]),
                ));
            }
        }
    }
    let total = mixed(t.total, t2.total, seen(p, 1, ni, n));
    lemma_total_of_query(t.weighted, t2.weighted, t.total, t2.total, b, s, h, nb, p, n);
    let line = shape3(b, s, nb);
    assert(t.total.shape.remove(2) =~= line);
    lemma_cube(b, s, nb);
    assert(mixed(t.score, t2.score, seen(p, 1, ni, n)).data =~= squeezed(total, 2).data);
    assert(mixed(t.score, t2.score, seen(p, 1, ni, n)) == squeezed(total, 2));
}

/// A key of the selector, with its axes exchanged.
pub proof fn lemma_swapped_keys(keys: V, b: usize, nb: usize, hd: usize, a: int, c: int, j: int)
    requires
        keys.data.len() == crate::shape::product(keys.shape),
        keys.shape == shape3(b, nb, hd),
        0 <= a < b,
        0 <= c < nb,
        0 <= j < hd,
    ensures
        swapped(keys, 1).data[(a * hd + j) * nb + c] == keys.data[(a * nb + c) * hd + j],
        (a * nb + c) * hd <= (a * nb + c) * hd + j < keys.data.len(),
{
    let (bi, ni, di) = (b as int, nb as int, hd as int);
    lemma_cube(b, nb, hd);
    assert(keys.shape.skip(3) =~= Seq::<usize>::empty());
    assert(crate::shape::inner(keys.shape, 2) == 1);
    lemma_flat(a, j, bi, di);
    lemma_flat(a * di + j, c, bi * di, ni);
    lemma_flat(a, c, bi, ni);
    lemma_flat(a * ni + c, j, bi * ni, di);
    let e = (a * di + j) * ni + c;
    assert(bi * di * ni == bi * ni * di) by (nonlinear_arith);
    assert(e / 1 == e && e % 1 == 0);
    assert(((a * ni + c) * di + j) * 1 + 0 == (a * ni + c) * di + j);
}

/// Where a head weight comes from.
pub proof fn lemma_column_source(b: usize, s: usize, h: usize, nb: usize, e: int)
    requires
        0 <= e < b * s * h * nb,
    ensures
        crate::shape::source_index(shape4(b, s, h, 1), shape4(b, s, h, nb), e) == e / nb as int,
{
    let (f, t) = (shape4(b, s, h, 1), shape4(b, s, h, nb));
    let p = shape3(b, s, h);
    assert(f.drop_last() =~= p && t.drop_last() =~= p);
    lemma_cube(b, s, h);
    lemma_divide(e, b * s * h, nb as int);
    crate::tokens::lemma_source_self(p, e / nb as int);
    assert(f.last() == 1 && t.last() == nb && f.len() == 4);
    let q = e / nb as int;
    assert(crate::shape::source_index(f.drop_last(), t.drop_last(), q) == q);
    assert(q * 1 == q);
    if nb == 1 {
        assert(e % 1 == 0);
    }
}

/// The sums over the heads for one query and the blocks that it sees.
proof fn lemma_total_of_query(
    x: V,
    x2: V,
    y: V,
    y2: V,
    b: usize,
    s: usize,
    h: usize,
    nb: usize,
    p: int,
    n: int,
)
    requires
        reduced(Reduce::Sum, 2, x, y),
        reduced(Reduce::Sum, 2, x2, y2),
        x.shape == shape4(b, s, h, nb),
        x2.shape == x.shape,
        x.data.len() == b * s * h * nb,
        x2.data.len() == x.data.len(),
        h > 0,
    ensures
        reduced(
            Reduce::Sum,
            2,
            mixed(x, x2, seen(p, h as int, nb as int, n)),
            mixed(y, y2, seen(p, 1, nb as int, n)),
        ),
        y.data.len() == b * s * nb,
        y2.data.len() == b * s * nb,
        y.shape == shape4(b, s, 1, nb),
        y2.shape == y.shape,
{
    let (hi, ni) = (h as int, nb as int);
    let (g, k) = (seen(p, hi, ni, n), seen(p, 1, ni, n));
    let (u, v) = (mixed(x, x2, g), mixed(y, y2, k));
    crate::queries::lemma_rows4(x.shape, b, s, h, nb);
    assert(x.shape.take(2) =~= shape2(b, s));
    crate::shape::lemma_grid(b, s);
    assert(y.shape =~= shape4(b, s, 1, nb));
    assert forall|i: int| 0 <= i < v.data.len() implies crate::ops::reduce_gives(
        Reduce::Sum,
        u.along(2, i),
        #[trigger] v.data[i],
    ) by {
        lemma_divide(i, b * s, ni);
        let (q, c) = (i / ni, i % ni);
        let (l, l1, l2) = (u.along(2, i), x.along(2, i), x2.along(2, i));
        assert(1 * ni == ni);
        assert forall|j: int| 0 <= j < hi implies l[j] == (if k(i) {
            l1[j]
        } else {
            l2[j]
        }) by {
            let e = (q * hi + j) * ni + c;
            lemma_flat(q, j, b * s, hi);
            lemma_flat(q * hi + j, c, b * s * hi, ni);
            lemma_quotients(q * hi + j, c, ni, hi);
            assert(g(e) == k(i));
        }
        assert(k(i) ==> l =~= l1);
        assert(!k(i) ==> l =~= l2);
    }
}

/// The blocks that a query selects are settled by its own queries and head weights and by the keys of
/// the blocks that it sees: with these in common, its selection in one run is one that the other may
/// come to.
pub proof fn law_selection_of_a_query(
    ix: Indexer,
    x: V,
    qr: V,
    rope: RopeView,
    t: SelectSteps,
    out: IndexView,
    x2: V,
    qr2: V,
    t2: SelectSteps,
    out2: IndexView,
    p: int,
)
    requires
        x.shape.len() == 3,
        x2.shape == x.shape,
        x.shape[1] > 0,
        ix.n_heads > 0,
        ix.head_dim > 0,
        ix.compress_ratio > 0,
        select_steps(ix, x, qr, rope, t),
        select_steps(ix, x2, qr2, rope, t2),
        selector_shapes(ix, x.shape, t),
        selector_shapes(ix, x.shape, t2),
        ({
            let (b, s, h, hd) = (x.shape[0], x.shape[1], ix.n_heads, ix.head_dim);
            let (nb, k) = (block_count(s, ix.compress_ratio), kept_blocks(ix, s));
            let n = visible_blocks(p % s as int, ix.compress_ratio as int);
            &&& fits(shape4(b, s, h, nb))
            &&& selected(t.score.data, b, s, nb, ix.compress_ratio, k, out)
            &&& selected(t2.score.data, b, s, nb, ix.compress_ratio, k, out2)
            &&& 0 <= p < b * s
            &&& same_row(t.q, t2.q, h * hd, p)
            &&& same_row(t.weights, t2.weights, h as int, p)
            &&& forall|c: int|
                0 <= c < n ==> #[trigger] same_row(
                    t.compressed,
                    t2.compressed,
                    hd as int,
                    (p / s as int) * nb + c,
                )
        }),
    ensures
        select_gives(
            ix,
            x2,
            qr2,
            rope,
            mixed(out, out2, of_row(p, kept_blocks(ix, x.shape[1]) as int)),
        ),
{
    let (b, s, ratio) = (x.shape[0], x.shape[1], ix.compress_ratio);
    let (nb, k) = (block_count(s, ratio), kept_blocks(ix, s));
    let (ni, ki, si, ri) = (nb as int, k as int, s as int, ratio as int);
    let n = visible_blocks(p % si, ri);
    lemma_divide(p, b as int, si);
    vstd::arithmetic::div_mod::lemma_div_is_ordered(p % si + 1, si, ri);
    vstd::arithmetic::div_mod::lemma_div_pos_is_pos(p % si + 1, ri);
    assert(0 <= si / ri <= si) by (nonlinear_arith)
        requires
            si >= 0,
            ri > 0,
    ;
    lemma_scores_of_query(ix, x, qr, rope, t, x2, qr2, t2, p, n);
    let g = seen(p, 1, ni, n);
    let v = SelectSteps {
        products: mixed(t.products, t2.products, seen(p, ix.n_heads as int, ni, n)),
        scores: mixed(t.scores, t2.scores, seen(p, ix.n_heads as int, ni, n)),
        weighted: mixed(t.weighted, t2.weighted, seen(p, ix.n_heads as int, ni, n)),
        total: mixed(t.total, t2.total, g),
        score: mixed(t.score, t2.score, g),
        ..t2
    };
    let o = mixed(out, out2, of_row(p, ki));
    let (sc, sc1, sc2) = (v.score.data, t.score.data, t2.score.data);
    assert forall|w: int| 0 <= w < b * s implies #[trigger] row_selected(
        sc,
        si,
        ni,
        ri,
        ki,
        o.data,
        w,
    ) by {
        let from = if w == p {
            sc1
        } else {
            sc2
        };
        let have = if w == p {
            out.data
        } else {
            out2.data
        };
        assert(row_selected(from, si, ni, ri, ki, have, w));
        lemma_divide(w, b as int, si);
        vstd::arithmetic::div_mod::lemma_div_is_ordered(w % si + 1, si, ri);
        vstd::arithmetic::div_mod::lemma_div_pos_is_pos(w % si + 1, ri);
        let m = visible_blocks(w % si, ri);
        assert(0 <= w * ni && w * ni + ni <= b * s * ni) by (nonlinear_arith)
            requires
                0 <= w,
                w + 1 <= b * s,
                ni >= 0,
        ;
        let (l, l1) = (sc.subrange(w * ni, w * ni + m), from.subrange(w * ni, w * ni + m));
        assert(1 * ni == ni);
        assert forall|c: int| 0 <= c < m implies l[c] == l1[c] by {
            lemma_quotients(w, c, ni, 1);
            assert(sc[w * ni + c] == from[w * ni + c]);
        }
        assert(l =~= l1);
        let r = choose|r: Seq<usize>|
            #[trigger] top_k_of(l1, ki, r) && row_holds(have, w, ki, si, r);
        assert(row_holds(o.data, w, ki, si, r)) by {
            assert forall|j: int| 0 <= j < ki implies #[trigger] o.data[w * ki + j] == (if j
                < r.len() {
                (r[j] + si) as i64
            } else {
                crate::sparse::EMPTY
            }) by {
                lemma_quotients(w, j, ki, 1);
                lemma_flat(w, j, b * s, ki);
                assert(have[w * ki + j] == o.data[w * ki + j]);
            }
        }
    }
    assert(selected(sc, b, s, nb, ratio, k, o));
    assert(select_steps(ix, x2, qr2, rope, v));
}

} // verus!
