//! Laws of layout: weights of the documented shapes lead from the documented input shape to the
//! documented output shape.
//!
//! Every law names the intermediate tensors that must fit in memory; beyond that, nothing depends on
//! what the weights hold.

use vstd::prelude::*;

#[allow(unused_imports)]
use crate::attention::{
    chosen_width, group_width, keys_shape, latent_ok, low_query_shape, mla_shape, output_shape,
    query_ok, window_ok, window_width, Mla,
};
#[allow(unused_imports)]
use crate::block::{
    attn_half_shape, block_blocked, block_gives, block_shape, ffn_blocked, ffn_entry,
    ffn_half_shape, token_shape, Block, HalfSteps,
};
#[allow(unused_imports)]
use crate::config::{law_mix_width_parts, mix_width};
#[allow(unused_imports)]
use crate::mhc::{flat_shape, lemma_flat_streams, logits_shape, post_ok, pre_ok, Hc};
#[allow(unused_imports)]
use crate::model::{
    embed_ok, embedded, head_shape, id_rows, model_shape, stack_blocked, stack_shape, stack_states,
    Head, Transformer,
};
#[allow(unused_imports)]
use crate::moe::{
    expert_fits, expert_shape, hits, lemma_tokens_distinct, moe_blocked, moe_shape, route_gives,
    route_ok, tokens_of, Expert, Gate, Moe,
};
#[allow(unused_imports)]
use crate::nn::rms_norm_shape;
#[allow(unused_imports)]
use crate::ops::{combined_shape, linear_shape, matmul_shape};
#[allow(unused_imports)]
use crate::rope::RopeView;
#[allow(unused_imports)]
use crate::shape::{
    expands, fits, lemma_axis, lemma_broadcast_into, lemma_broadcast_self, lemma_expands_axes,
    lemma_cube, lemma_cube4, lemma_grid, lemma_merged, lemma_product_le_span, merged,
    lemma_span_update, product, shape2, shape3, shape4, shape5, span,
};
#[allow(unused_imports)]
use crate::sparse::{
    block_count, block_positions, compress_shape, kept_blocks, select_ok, swap_shape, then_reshape,
    Compressor, Indexer,
};
#[allow(unused_imports)]
use crate::tensor::{look_up_ok, reshaped, rows_known, IndexView, NdView, V};

verus! {

/// A one-axis shape.
pub open spec fn vector(s: Seq<usize>, n: usize) -> bool {
    s.len() == 1 && s[0] == n
}

/// A gain of the width of the last axis applies to any shape that fits.
pub proof fn lemma_gain(x: Seq<usize>, g: Seq<usize>)
    requires
        x.len() > 0,
        vector(g, x.last()),
        fits(x),
    ensures
        combined_shape(x, g) == Some(x),
{
    assert(g.drop_last() =~= Seq::<usize>::empty());
    assert(expands(g.drop_last(), x.drop_last()));
    assert(expands(g, x));
    lemma_broadcast_into(g, x);
}

/// Without empty axes the bound in memory is the element count.
pub proof fn lemma_positive(s: Seq<usize>)
    requires
        forall|i: int| 0 <= i < s.len() ==> (#[trigger] s[i]) > 0,
    ensures
        span(s) == product(s),
        product(s) > 0,
    decreases s.len(),
{
    if s.len() > 0 {
        let r = s.drop_last();
        assert forall|i: int| 0 <= i < r.len() implies (#[trigger] r[i]) > 0 by {
            assert(r[i] == s[i]);
        }
        lemma_positive(r);
        let (a, b): (nat, nat) = (product(r), s.last() as nat);
        assert(s.last() == s[s.len() - 1]);
        assert(a * b > 0) by (nonlinear_arith)
            requires
                a > 0,
                b > 0,
        ;
    }
}

/// A shape without empty axes can be changed to another one of the same count.
proof fn lemma_reshape(from: Seq<usize>, to: Seq<usize>)
    requires
        forall|i: int| 0 <= i < to.len() ==> (#[trigger] to[i]) > 0,
        product(to) == product(from),
        fits(from),
    ensures
        then_reshape(Some(from), to) == Some(to),
{
    lemma_positive(to);
    lemma_product_le_span(from);
}

/// The element count of a five-axis shape.
pub proof fn lemma_cube5(a: usize, b: usize, c: usize, d: usize, e: usize)
    ensures
        product(shape5(a, b, c, d, e)) == a * b * c * d * e,
{
    let s = shape5(a, b, c, d, e);
    assert(s.drop_last() =~= shape4(a, b, c, d));
    lemma_cube4(a, b, c, d);
}

/// A projection of the last axis.
proof fn lemma_project(x: Seq<usize>, o: usize, w: Seq<usize>, y: Seq<usize>)
    requires
        x.len() > 0,
        w == shape2(o, x.last()),
        y =~= x.drop_last().push(o),
        fits(y),
    ensures
        linear_shape(x, w) == Some(y),
{
}

// --- experts --------------------------------------------------------------------------------

/// The weights of an expert of hidden width `inter`.
pub open spec fn expert_layout(ex: Expert, dim: usize, inter: usize) -> bool {
    &&& ex.w1@.shape == shape2(inter, dim)
    &&& ex.w3@.shape == shape2(inter, dim)
    &&& ex.w2@.shape == shape2(dim, inter)
}

/// An expert maps `[n, dim]` to `[n, dim]`, with or without a routing weight per token.
pub proof fn law_expert_layout(
    ex: Expert,
    n: usize,
    dim: usize,
    inter: usize,
    weights: Option<Seq<usize>>,
)
    requires
        expert_layout(ex, dim, inter),
        weights matches Some(w) ==> w == shape2(n, 1),
        fits(shape2(n, dim)),
        fits(shape2(n, inter)),
    ensures
        expert_shape(ex, shape2(n, dim), weights) == Some(shape2(n, dim)),
{
    let x = shape2(n, dim);
    let h = shape2(n, inter);
    assert(x.drop_last().push(inter) =~= h);
    assert(h.drop_last().push(dim) =~= x);
    assert(linear_shape(x, shape2(inter, dim)) == Some(h));
    assert(linear_shape(h, shape2(dim, inter)) == Some(x));
    lemma_expands_axes(shape2(n, 1), h);
    lemma_broadcast_into(shape2(n, 1), h);
}

/// The weights of a gate over `count` experts.
pub open spec fn gate_layout(g: Gate, dim: usize, count: usize) -> bool {
    &&& g.weight@.shape == shape2(count, dim)
    &&& g.bias matches Some(b) ==> vector(b@.shape, count)
}

/// A gate routes `[n, dim]`.
pub proof fn law_gate_layout(g: Gate, n: usize, dim: usize, count: usize)
    requires
        gate_layout(g, dim, count),
        0 < n,
        0 < count <= i64::MAX,
        fits(shape2(n, count)),
    ensures
        g.wf(),
        route_ok(g, shape2(n, dim)),
{
    let x = shape2(n, dim);
    let s = shape2(n, count);
    assert(x.drop_last().push(count) =~= s);
    assert(linear_shape(x, g.weight@.shape) == Some(s));
    lemma_grid(n, count);
    assert(n * count > 0) by (nonlinear_arith)
        requires
            n > 0,
            count > 0,
    ;
    if let Some(b) = g.bias {
        lemma_gain(s, b@.shape);
        reveal_with_fuel(product, 2);
        assert(b@.shape.drop_last() =~= Seq::<usize>::empty());
        assert(product(b@.shape) == 1 * (count as nat));
    }
}

/// Distinct numbers below `n` are at most `n`.
pub proof fn lemma_pigeons(rows: Seq<usize>, n: usize)
    requires
        forall|p: int| 0 <= p < rows.len() ==> (#[trigger] rows[p]) < n,
        forall|p: int, q: int| 0 <= p < q < rows.len() ==> rows[p] != rows[q],
    ensures
        rows.len() <= n,
{
    let s = rows.map_values(|v: usize| v as int);
    assert(s.no_duplicates());
    s.unique_seq_to_set();
    vstd::set_lib::lemma_int_range(0, n as int);
    assert(s.to_set().subset_of(vstd::set_lib::set_int_range(0, n as int)));
    vstd::set_lib::lemma_len_subset(s.to_set(), vstd::set_lib::set_int_range(0, n as int));
}

/// The weights of a mixture of `count` experts of hidden width `inter` and a shared one of hidden
/// width `wide`.
pub open spec fn moe_layout(m: Moe, dim: usize, inter: usize, wide: usize) -> bool {
    &&& gate_layout(m.gate, dim, m.experts@.len() as usize)
    &&& m.gate.topk <= m.experts@.len() <= i64::MAX
    &&& forall|e: int|
        0 <= e < m.experts@.len() ==> expert_layout(#[trigger] m.experts@[e], dim, inter)
    &&& expert_layout(m.shared, dim, wide)
}

/// A mixture maps `[n, dim]` to `[n, dim]`: no routing can send tokens to an expert that does not
/// take them.
pub proof fn law_moe_layout(m: Moe, x: V, n: usize, dim: usize, inter: usize, wide: usize)
    requires
        moe_layout(m, dim, inter, wide),
        x.shape == shape2(n, dim),
        n > 0,
        m.experts@.len() > 0,
        m.experts@.len() <= usize::MAX,
        fits(shape2(n, dim)),
        fits(shape2(n, inter)),
        fits(shape2(n, wide)),
        fits(shape2(n, m.experts@.len() as usize)),
    ensures
        m.wf(),
        moe_shape(m, x.shape) == Some(shape2(n, dim)),
        !moe_blocked(m, x),
{
    let count = m.experts@.len() as usize;
    law_gate_layout(m.gate, n, dim, count);
    law_expert_layout(m.shared, n, dim, wide, None);
    lemma_broadcast_self(shape2(n, dim));
    assert forall|weights: V, indices: IndexView, e: int|
        #[trigger] route_gives(m.gate, x, weights, indices) && 0 <= e < m.experts@.len() implies ({
        let r = #[trigger] hits(indices.data, e, indices.data.len() as int).len();
        r > 0 ==> expert_fits(m.experts@[e], r as usize, x.shape[1])
    }) by {
        let slots = hits(indices.data, e, indices.data.len() as int);
        let rows = tokens_of(slots, m.gate.topk as int);
        let r = slots.len();
        if r > 1 {
            assert forall|p: int| 0 <= p < rows.len() implies (#[trigger] rows[p]) < n by {
                if p + 1 < rows.len() {
                    lemma_tokens_distinct(m.gate, x, weights, indices, e, p, p + 1);
                } else {
                    lemma_tokens_distinct(m.gate, x, weights, indices, e, p - 1, p);
                }
            }
            assert forall|p: int, q: int| 0 <= p < q < rows.len() implies rows[p] != rows[q] by {
                lemma_tokens_distinct(m.gate, x, weights, indices, e, p, q);
            }
            lemma_pigeons(rows, n);
        }
        if r > 0 {
            let k = r as usize;
            assert(k <= n);
            lemma_span_update(shape2(n, dim), 0, k);
            assert(shape2(n, dim).update(0, k) =~= shape2(k, dim));
            lemma_span_update(shape2(n, inter), 0, k);
            assert(shape2(n, inter).update(0, k) =~= shape2(k, inter));
            law_expert_layout(m.experts@[e], k, dim, inter, Some(shape2(k, 1)));
        }
    }
}

// --- hyper-connections ----------------------------------------------------------------------

/// The weights of a mixer of streams of width `dim`.
pub open spec fn hc_layout(h: Hc, dim: usize) -> bool {
    let mix = mix_width(h.hc as int);
    &&& mix <= usize::MAX
    &&& h.hc * dim <= usize::MAX
    &&& h.hc_fn@.shape == shape2(mix as usize, (h.hc * dim) as usize)
    &&& vector(h.hc_base@.shape, mix as usize)
    &&& vector(h.hc_scale@.shape, 3)
}

/// The columns that hold one part of a mixing vector.
proof fn lemma_part(bs: usize, mix: usize, base: Seq<usize>, start: int, len: usize)
    requires
        vector(base, mix),
        0 <= start,
        start + len <= mix,
        fits(shape2(bs, mix)),
    ensures
        fits(shape2(bs, len)),
        logits_shape(shape2(bs, mix), base, start, len as int) == Some(shape2(bs, len)),
{
    lemma_span_update(shape2(bs, mix), 1, len);
    assert(shape2(bs, mix).update(1, len) =~= shape2(bs, len));
    lemma_gain(shape2(bs, len), base.update(0, len));
}

/// A mixer collapses `[b, s, hc, dim]` to `[b, s, dim]` and expands a sublayer's output of that shape
/// back to `[b, s, hc, dim]`.
pub proof fn law_hc_layout(h: Hc, b: usize, s: usize, dim: usize)
    requires
        hc_layout(h, dim),
        b > 0,
        s > 0,
        h.hc > 0,
        dim > 0,
        fits(shape5(b, s, h.hc, h.hc, dim)),
        b * s * mix_width(h.hc as int) <= usize::MAX,
    ensures
        h.wf(),
        pre_ok(h, shape4(b, s, h.hc, dim)),
        post_ok(
            h.hc,
            shape3(b, s, dim),
            shape4(b, s, h.hc, dim),
            shape3(b, s, h.hc),
            shape4(b, s, h.hc, h.hc),
        ),
{
    let hc = h.hc;
    let x = shape4(b, s, hc, dim);
    let mix = mix_width(hc as int) as usize;
    lemma_cube5(b, s, hc, hc, dim);
    lemma_positive(shape5(b, s, hc, hc, dim));
    lemma_cube4(b, s, hc, dim);
    lemma_positive(x);
    assert(b * s * hc * dim <= b * s * hc * hc * dim) by (nonlinear_arith)
        requires
            b > 0,
            s > 0,
            hc > 0,
            dim > 0,
    ;
    assert(fits(x));
    lemma_flat_streams(x);
    let bs = (b * s) as usize;
    assert(bs == b * s);
    assert(b * s > 0) by (nonlinear_arith)
        requires
            b > 0,
            s > 0,
    ;
    lemma_grid(bs, mix);
    let mixes = shape2(bs, mix);
    lemma_project(flat_shape(x), mix, h.hc_fn@.shape, mixes);
    law_mix_width_parts(hc as int);
    assert(hc * hc >= 0 && hc * hc <= mix) by (nonlinear_arith)
        requires
            mix == hc + hc + hc * hc,
            hc > 0,
    ;
    let sq = (hc * hc) as usize;
    lemma_part(bs, mix, h.hc_base@.shape, 0, hc);
    lemma_part(bs, mix, h.hc_base@.shape, hc as int, hc);
    lemma_part(bs, mix, h.hc_base@.shape, 2 * hc, sq);
    lemma_grid(bs, hc);
    lemma_grid(bs, sq);
    lemma_cube(bs, hc, hc);
    assert(bs * sq == bs * hc * hc) by (nonlinear_arith)
        requires
            sq == hc * hc,
    ;
    lemma_reshape(shape2(bs, sq), shape3(bs, hc, hc));
    lemma_positive(shape3(bs, hc, hc));
    lemma_cube4(b, s, hc, 1);
    lemma_cube(b, s, hc);
    assert(bs * hc == b * s * hc && b * s * hc * 1 == b * s * hc) by (nonlinear_arith)
        requires
            bs == b * s,
    ;
    lemma_reshape(shape2(bs, hc), shape4(b, s, hc, 1));
    lemma_reshape(shape2(bs, hc), shape3(b, s, hc));
    lemma_cube4(b, s, hc, hc);
    assert(bs * hc * hc == b * s * hc * hc) by (nonlinear_arith)
        requires
            bs == b * s,
    ;
    lemma_reshape(shape3(bs, hc, hc), shape4(b, s, hc, hc));
    lemma_positive(shape3(b, s, hc));
    lemma_positive(shape4(b, s, hc, hc));
    lemma_reshape(shape3(b, s, hc), shape4(b, s, hc, 1));
    lemma_cube5(b, s, hc, hc, 1);
    lemma_cube5(b, s, hc, 1, dim);
    assert(b * s * hc * hc * 1 == b * s * hc * hc && b * s * hc * 1 * dim == b * s * hc * dim)
        by (nonlinear_arith);
    lemma_reshape(shape4(b, s, hc, hc), shape5(b, s, hc, hc, 1));
    lemma_reshape(x, shape5(b, s, hc, 1, dim));
}

// --- compression ----------------------------------------------------------------------------

/// Tables that rotate `rd` columns at positions below `len`.
pub open spec fn table_layout(table: Seq<usize>, rd: usize, len: int) -> bool {
    &&& table.len() == 2
    &&& fits(table)
    &&& 2 * table[1] == rd
    &&& len <= table[0]
}

/// The weights of a compressor of inputs of width `dim`.
pub open spec fn compressor_layout(c: Compressor, dim: usize) -> bool {
    let width = c.width() as usize;
    &&& c.wf()
    &&& c.width() <= usize::MAX
    &&& c.head_dim > 0
    &&& c.wkv@.shape == shape2(width, dim)
    &&& c.wgate@.shape == shape2(width, dim)
    &&& c.ape@.shape == shape2(c.compress_ratio, width)
    &&& vector(c.norm@.shape, c.head_dim)
}

/// The rows of listed positions can be taken from the tables.
proof fn lemma_picks(table: Seq<usize>, rd: usize, len: int, positions: Seq<usize>)
    requires
        table_layout(table, rd, len),
        positions.len() <= len,
        forall|i: int| 0 <= i < positions.len() ==> (#[trigger] positions[i]) < len,
    ensures
        look_up_ok(table, positions),
{
    lemma_span_update(table, 0, positions.len() as usize);
    assert(rows_known(table, positions));
}

/// Whole blocks fill the sequence.
pub proof fn lemma_blocks(s: usize, ratio: usize)
    requires
        s > 0,
        ratio > 0,
        s % ratio == 0,
    ensures
        0 < block_count(s, ratio) <= s,
        block_count(s, ratio) == s as int / ratio as int,
        block_count(s, ratio) * ratio == s,
        ratio <= s,
        forall|i: int|
            0 <= i < block_count(s, ratio) ==> (#[trigger] block_positions(
                block_count(s, ratio),
                ratio,
            )[i]) < s,
{
    let nb = s as int / ratio as int;
    assert(0 < nb <= s && nb * ratio == s && ratio <= s) by (nonlinear_arith)
        requires
            nb == s as int / ratio as int,
            s > 0,
            ratio > 0,
            s as int % ratio as int == 0,
    ;
    assert forall|i: int| 0 <= i < nb implies (#[trigger] block_positions(nb as usize, ratio)[i]) < s by {
        assert(0 <= i * ratio < s) by (nonlinear_arith)
            requires
                0 <= i < nb,
                nb * ratio == s,
                ratio > 0,
        ;
    }
}

/// A compressor maps `[b, s, dim]` to `[b, s / ratio, head_dim]` where the blocks fill the sequence.
pub proof fn law_compressor_layout(c: Compressor, b: usize, s: usize, dim: usize, table: Seq<usize>)
    requires
        compressor_layout(c, dim),
        b > 0,
        s > 0,
        s % c.compress_ratio == 0,
        c.rope_head_dim > 0 ==> table_layout(table, c.rope_head_dim, s as int),
        fits(shape3(b, s, c.width() as usize)),
    ensures
        compress_shape(c, shape3(b, s, dim), table) == Some(
            shape3(b, block_count(s, c.compress_ratio), c.head_dim),
        ),
{
    let (ratio, d, rd) = (c.compress_ratio, c.head_dim, c.rope_head_dim);
    let nb = block_count(s, ratio);
    let width = c.width() as usize;
    let x = shape3(b, s, dim);
    lemma_blocks(s, ratio);
    lemma_project(x, width, c.wkv@.shape, shape3(b, s, width));
    lemma_cube(b, s, width);
    lemma_positive(shape3(b, s, width));
    lemma_cube4(b, nb, ratio, width);
    assert(b * nb * ratio * width == b * s * width) by (nonlinear_arith)
        requires
            nb * ratio == s,
    ;
    let wide = shape4(b, nb, ratio, width);
    lemma_reshape(shape3(b, s, width), wide);
    lemma_positive(wide);
    lemma_grid(ratio, width);
    lemma_cube4(1, 1, ratio, width);
    assert(ratio * width <= b * s * width && 1 * 1 * ratio * width == ratio * width) by (nonlinear_arith)
        requires
            ratio <= s,
            b >= 1,
    ;
    lemma_reshape(shape2(ratio, width), shape4(1, 1, ratio, width));
    if c.overlaps() {
        lemma_cube4(b, nb, 8, d);
        lemma_positive(shape4(b, nb, 8, d));
        assert(b * nb * 8 * d == b * s * width) by (nonlinear_arith)
            requires
                nb * 4 == s,
                width == 2 * d,
        ;
    }
    let p = shape3(b, nb, d);
    lemma_cube(b, nb, d);
    lemma_positive(p);
    assert(b * nb * d <= b * s * width) by (nonlinear_arith)
        requires
            nb <= s,
            d <= width,
    ;
    lemma_gain(p, c.norm@.shape);
    if rd > 0 {
        lemma_cube4(b, nb, 1, d);
        assert(b * nb * 1 * d == b * nb * d) by (nonlinear_arith);
        let q = shape4(b, nb, 1, d);
        lemma_reshape(p, q);
        lemma_positive(q);
        lemma_reshape(q, p);
        lemma_picks(table, rd, s as int, block_positions(nb, ratio));
        assert(q.update(3, rd) =~= shape4(b, nb, 1, rd));
    }
}

/// The weights of a block selector over inputs of width `dim` and low-rank queries of width `qlr`.
pub open spec fn indexer_layout(ix: Indexer, dim: usize, qlr: usize) -> bool {
    &&& ix.wf()
    &&& ix.n_heads > 0
    &&& ix.head_dim > 0
    &&& ix.n_heads * ix.head_dim <= usize::MAX
    &&& ix.wq_b@.shape == shape2((ix.n_heads * ix.head_dim) as usize, qlr)
    &&& ix.weights_proj@.shape == shape2(ix.n_heads, dim)
    &&& compressor_layout(ix.compressor, dim)
    &&& ix.compressor.head_dim == ix.head_dim
    &&& ix.compressor.compress_ratio == ix.compress_ratio
}

/// What the selector builds fits in memory.
pub open spec fn indexer_room(ix: Indexer, b: usize, s: usize) -> bool {
    &&& fits(shape4(b, s, ix.n_heads, ix.head_dim))
    &&& fits(shape4(b, s, ix.n_heads, block_count(s, ix.compress_ratio)))
    &&& fits(shape3(b, s, ix.compressor.width() as usize))
    &&& s + block_count(s, ix.compress_ratio) <= i64::MAX
}

/// A selector takes `[b, s, dim]` and `[b, s, qlr]` where the blocks fill the sequence.
pub proof fn law_indexer_layout(
    ix: Indexer,
    b: usize,
    s: usize,
    dim: usize,
    qlr: usize,
    table: Seq<usize>,
)
    requires
        indexer_layout(ix, dim, qlr),
        indexer_room(ix, b, s),
        b > 0,
        s > 0,
        s % ix.compress_ratio == 0,
        ix.rope_head_dim > 0 ==> table_layout(table, ix.rope_head_dim, s as int),
        ix.compressor.rope_head_dim > 0 ==> table_layout(
            table,
            ix.compressor.rope_head_dim,
            s as int,
        ),
    ensures
        select_ok(ix, shape3(b, s, dim), shape3(b, s, qlr), table),
{
    let (h, hd, rd) = (ix.n_heads, ix.head_dim, ix.rope_head_dim);
    let nb = block_count(s, ix.compress_ratio);
    let x = shape3(b, s, dim);
    let qr = shape3(b, s, qlr);
    let heads = shape4(b, s, h, hd);
    lemma_blocks(s, ix.compress_ratio);
    lemma_positive(heads);
    lemma_cube4(b, s, h, hd);
    let flat = (h * hd) as usize;
    assert(h * hd > 0) by (nonlinear_arith)
        requires
            h > 0,
            hd > 0,
    ;
    lemma_cube(b, s, flat);
    assert(b * s * flat == b * s * h * hd) by (nonlinear_arith)
        requires
            flat == h * hd,
    ;
    lemma_positive(shape3(b, s, flat));
    lemma_project(qr, flat, ix.wq_b@.shape, shape3(b, s, flat));
    lemma_reshape(shape3(b, s, flat), heads);
    if rd > 0 {
        assert forall|i: int| 0 <= i < s implies (#[trigger] block_positions(s, 1)[i]) < s by {}
        lemma_picks(table, rd, s as int, block_positions(s, 1));
        assert(heads.update(3, rd) =~= shape4(b, s, h, rd));
    }
    law_compressor_layout(ix.compressor, b, s, dim, table);
    let kv = shape3(b, nb, hd);
    let scores = shape4(b, s, h, nb);
    lemma_cube4(b, s, h, nb);
    lemma_positive(scores);
    lemma_cube(b, s, h);
    lemma_positive(shape3(b, s, h));
    assert(b * s * h <= b * s * h * nb) by (nonlinear_arith)
        requires
            nb >= 1,
    ;
    lemma_project(x, h, ix.weights_proj@.shape, shape3(b, s, h));
    assert(s * h <= b * s * h) by (nonlinear_arith)
        requires
            b >= 1,
    ;
    let sh = (s * h) as usize;
    assert(s * h > 0) by (nonlinear_arith)
        requires
            s > 0,
            h > 0,
    ;
    let left = shape3(b, sh, hd);
    let right = swap_shape(kv, 1);
    assert(right =~= shape3(b, hd, nb));
    let c = left.drop_last().push(nb);
    assert(c =~= shape3(b, sh, nb));
    lemma_cube(b, sh, nb);
    lemma_positive(shape3(b, sh, nb));
    assert(b * sh * nb == b * s * h * nb) by (nonlinear_arith)
        requires
            sh == s * h,
    ;
    assert(left.take(1) =~= right.take(1));
    assert(matmul_shape(left, right) == Some(shape3(b, sh, nb)));
    lemma_reshape(shape3(b, sh, nb), scores);
    assert(shape3(b, s, h).push(1) =~= shape4(b, s, h, 1));
    lemma_expands_axes(shape4(b, s, h, 1), scores);
    lemma_broadcast_into(shape4(b, s, h, 1), scores);
    let k = kept_blocks(ix, s);
    lemma_cube(b, s, nb);
    lemma_positive(shape3(b, s, nb));
    assert(b * s * nb <= b * s * h * nb) by (nonlinear_arith)
        requires
            h >= 1,
    ;
    lemma_span_update(shape3(b, s, nb), 2, k);
    assert(shape3(b, s, nb).update(2, k) =~= shape3(b, s, k));
}

// --- attention ------------------------------------------------------------------------------

/// The weights of an attention layer over inputs of width `dim` with low-rank queries of width
/// `qlr`.
pub open spec fn mla_layout(m: Mla, dim: usize, qlr: usize) -> bool {
    let (h, hd, g, r) = (m.n_heads, m.head_dim, m.n_groups, m.o_lora_rank);
    &&& m.wf()
    &&& h > 0
    &&& hd > 0
    &&& r > 0
    &&& h * hd <= usize::MAX
    &&& g * r <= usize::MAX
    &&& (h * hd) % (g as int) == 0
    &&& m.wq_a@.shape == shape2(qlr, dim)
    &&& vector(m.q_norm@.shape, qlr)
    &&& m.wq_b@.shape == shape2((h * hd) as usize, qlr)
    &&& m.wkv@.shape == shape2(hd, dim)
    &&& vector(m.kv_norm@.shape, hd)
    &&& m.wo_a@.shape == shape2((g * r) as usize, group_width(m))
    &&& fits(m.wo_a@.shape)
    &&& m.wo_b@.shape == shape2(dim, (g * r) as usize)
    &&& vector(m.attn_sink@.shape, h)
    &&& m.compressor matches Some(c) ==> compressor_layout(c, dim) && c.head_dim == hd
        && c.compress_ratio == m.compress_ratio
    &&& m.indexer matches Some(ix) ==> m.compressor is Some && indexer_layout(ix, dim, qlr)
        && ix.compress_ratio == m.compress_ratio
}

/// The number of keys: the window's, and one per compressed block.
pub open spec fn key_count(m: Mla, s: usize) -> int {
    if m.compressor is Some {
        s + block_count(s, m.compress_ratio)
    } else {
        s as int
    }
}

/// What the layer builds fits in memory.
pub open spec fn mla_room(m: Mla, b: usize, s: usize, dim: usize, qlr: usize) -> bool {
    let n = key_count(m, s) as usize;
    &&& key_count(m, s) <= usize::MAX
    &&& key_count(m, s) <= i64::MAX
    &&& fits(shape3(b, s, qlr))
    &&& fits(shape4(b, s, m.n_heads, m.head_dim))
    &&& fits(shape4(b, m.n_heads, n, m.head_dim))
    &&& fits(shape4(b, m.n_heads, s, n))
    &&& fits(shape3(b, s, (m.n_groups * m.o_lora_rank) as usize))
    &&& fits(shape3(b, s, dim))
    &&& m.compressor matches Some(c) ==> fits(shape3(b, s, c.width() as usize))
    &&& m.indexer matches Some(ix) ==> indexer_room(ix, b, s)
}

/// The blocks fill the sequence, and the tables reach over it from the start position on.
pub open spec fn mla_ready(m: Mla, s: usize, table: Seq<usize>, start: int) -> bool {
    &&& start >= 0
    &&& table_layout(table, m.rope_head_dim, start + s)
    &&& m.compressor matches Some(c) ==> s % c.compress_ratio == 0 && (c.rope_head_dim > 0
        ==> c.rope_head_dim == m.rope_head_dim)
    &&& m.indexer matches Some(ix) ==> (ix.rope_head_dim > 0 ==> ix.rope_head_dim
        == m.rope_head_dim) && (ix.compressor.rope_head_dim > 0 ==> ix.compressor.rope_head_dim
        == m.rope_head_dim)
}

/// The queries and latent keys of `[b, s, dim]`.
proof fn lemma_query_layout(
    m: Mla,
    b: usize,
    s: usize,
    dim: usize,
    qlr: usize,
    table: Seq<usize>,
    start: int,
)
    requires
        mla_layout(m, dim, qlr),
        mla_room(m, b, s, dim, qlr),
        mla_ready(m, s, table, start),
        b > 0,
        s > 0,
    ensures
        low_query_shape(m, shape3(b, s, dim)) == Some(shape3(b, s, qlr)),
        query_ok(m, shape3(b, s, dim), table, start),
        latent_ok(m, shape3(b, s, dim), table, start),
{
    let (h, hd, rd) = (m.n_heads, m.head_dim, m.rope_head_dim);
    let x = shape3(b, s, dim);
    let low = shape3(b, s, qlr);
    let heads = shape4(b, s, h, hd);
    lemma_project(x, qlr, m.wq_a@.shape, low);
    lemma_gain(low, m.q_norm@.shape);
    lemma_positive(heads);
    lemma_cube4(b, s, h, hd);
    let flat = (h * hd) as usize;
    assert(h * hd > 0) by (nonlinear_arith)
        requires
            h > 0,
            hd > 0,
    ;
    lemma_cube(b, s, flat);
    assert(b * s * flat == b * s * h * hd) by (nonlinear_arith)
        requires
            flat == h * hd,
    ;
    lemma_positive(shape3(b, s, flat));
    lemma_project(low, flat, m.wq_b@.shape, shape3(b, s, flat));
    lemma_reshape(shape3(b, s, flat), heads);
    assert(heads.update(3, rd) =~= shape4(b, s, h, rd));
    let latent = shape3(b, s, hd);
    lemma_cube(b, s, hd);
    lemma_positive(latent);
    assert(b * s * hd <= b * s * h * hd) by (nonlinear_arith)
        requires
            h >= 1,
    ;
    lemma_project(x, hd, m.wkv@.shape, latent);
    lemma_gain(latent, m.kv_norm@.shape);
    let lane = shape4(b, s, 1, hd);
    lemma_cube4(b, s, 1, hd);
    assert(b * s * 1 * hd == b * s * hd) by (nonlinear_arith);
    lemma_reshape(latent, lane);
    assert(lane.update(3, rd) =~= shape4(b, s, 1, rd));
}

/// The keys and index sets of `[b, s, dim]`.
proof fn lemma_keys_layout(
    m: Mla,
    b: usize,
    s: usize,
    dim: usize,
    qlr: usize,
    table: Seq<usize>,
    start: int,
)
    requires
        mla_layout(m, dim, qlr),
        mla_room(m, b, s, dim, qlr),
        mla_ready(m, s, table, start),
        b > 0,
        s > 0,
    ensures
        window_ok(m, shape3(b, s, dim)),
        keys_shape(m, shape3(b, s, dim), shape3(b, s, qlr), table) == Some(
            shape3(b, key_count(m, s) as usize, m.head_dim),
        ),
{
    let (h, hd) = (m.n_heads, m.head_dim);
    let x = shape3(b, s, dim);
    let n = key_count(m, s) as usize;
    let k = window_width(m, s);
    lemma_cube4(b, h, s, n);
    lemma_positive(shape4(b, h, s, n));
    let all = shape3(b, s, n);
    lemma_cube(b, s, n);
    lemma_positive(all);
    assert(b * s * n <= b * h * s * n) by (nonlinear_arith)
        requires
            h >= 1,
    ;
    lemma_span_update(all, 2, k);
    assert(all.update(2, k) =~= shape3(b, s, k));
    lemma_window(b, s, k);
    let latent = shape3(b, s, hd);
    if let Some(c) = m.compressor {
        let nb = block_count(s, c.compress_ratio);
        lemma_blocks(s, c.compress_ratio);
        law_compressor_layout(c, b, s, dim, table);
        let blocks = shape3(b, nb, hd);
        assert(blocks =~= latent.update(1, nb));
        assert(latent.update(1, n) =~= shape3(b, n, hd));
        lemma_cube4(b, h, n, hd);
        lemma_positive(shape4(b, h, n, hd));
        lemma_cube(b, n, hd);
        lemma_positive(shape3(b, n, hd));
        assert(b * n * hd <= b * h * n * hd) by (nonlinear_arith)
            requires
                h >= 1,
        ;
        let width = match m.indexer {
            Some(ix) => kept_blocks(ix, s),
            None => nb,
        };
        lemma_span_update(all, 2, nb);
        assert(all.update(2, nb) =~= shape3(b, s, nb));
        if let Some(ix) = m.indexer {
            law_indexer_layout(ix, b, s, dim, qlr, table);
        } else {
            lemma_window(b, s, nb);
        }
        assert(chosen_width(m, x, shape3(b, s, qlr), table) == Some(width));
        let both = (k + width) as usize;
        lemma_span_update(all, 2, both);
        assert(all.update(2, both) =~= shape3(b, s, both));
        assert(shape3(b, s, k).update(2, both) =~= shape3(b, s, both));
        assert(shape3(b, s, width) =~= shape3(b, s, k).update(2, width));
    } else {
        assert(latent =~= shape3(b, n, hd));
    }
}

/// An index set that fits once per batch fits.
proof fn lemma_window(b: usize, s: usize, k: usize)
    requires
        b > 0,
        fits(shape3(b, s, k)),
    ensures
        fits(shape2(s, k)),
{
    let t = shape3(b, s, k);
    lemma_axis(t, 0);
    assert(t.skip(1) =~= shape2(s, k));
    assert(t.take(0) =~= Seq::<usize>::empty());
    let (x, y): (nat, nat) = (span(t.take(0)), span(shape2(s, k)));
    assert(y <= x * (b as nat) * y) by (nonlinear_arith)
        requires
            x == 1,
            b >= 1,
    ;
}

/// The output projection.
proof fn lemma_output_layout(m: Mla, b: usize, s: usize, dim: usize, qlr: usize)
    requires
        mla_layout(m, dim, qlr),
        mla_room(m, b, s, dim, qlr),
        b > 0,
        s > 0,
    ensures
        output_shape(m, b, s) == Some(shape3(b, s, dim)),
{
    let (h, hd, g, r) = (m.n_heads, m.head_dim, m.n_groups, m.o_lora_rank);
    let din = group_width(m);
    let flat = h * hd;
    assert(flat > 0) by (nonlinear_arith)
        requires
            flat == h * hd,
            h > 0,
            hd > 0,
    ;
    assert(0 < flat / (g as int) <= flat && g * (flat / (g as int)) == flat) by (nonlinear_arith)
        requires
            flat > 0,
            g > 0,
            flat % (g as int) == 0,
    ;
    assert(g * din == h * hd && din > 0);
    let heads = shape4(b, s, h, hd);
    let groups = shape4(b, s, g, din);
    lemma_cube4(b, s, h, hd);
    lemma_cube4(b, s, g, din);
    assert(b * s * g * din == b * s * h * hd) by (nonlinear_arith)
        requires
            g * din == h * hd,
    ;
    lemma_reshape(heads, groups);
    let gr = (g * r) as usize;
    assert(g * r > 0) by (nonlinear_arith)
        requires
            g > 0,
            r > 0,
    ;
    lemma_grid(gr, din);
    lemma_cube(g, r, din);
    assert(gr * din == g * r * din);
    lemma_reshape(shape2(gr, din), shape3(g, r, din));
    let joint = shape3(b, s, gr);
    lemma_cube(b, s, gr);
    lemma_positive(joint);
    assert(b * s <= b * s * gr && b * s > 0) by (nonlinear_arith)
        requires
            gr >= 1,
            b > 0,
            s > 0,
    ;
    let bs = (b * s) as usize;
    lemma_cube(g, bs, r);
    lemma_positive(shape3(g, bs, r));
    assert(g * bs * r == b * s * gr) by (nonlinear_arith)
        requires
            bs == b * s,
            gr == g * r,
    ;
    lemma_project(joint, dim, m.wo_b@.shape, shape3(b, s, dim));
}

/// An attention layer maps `[b, s, dim]` to `[b, s, dim]`, in each of its variants.
pub proof fn law_mla_layout(
    m: Mla,
    b: usize,
    s: usize,
    dim: usize,
    qlr: usize,
    table: Seq<usize>,
    start: int,
)
    requires
        mla_layout(m, dim, qlr),
        mla_room(m, b, s, dim, qlr),
        mla_ready(m, s, table, start),
        b > 0,
        s > 0,
    ensures
        mla_shape(m, shape3(b, s, dim), table, start) == Some(shape3(b, s, dim)),
{
    let (h, hd) = (m.n_heads, m.head_dim);
    let n = key_count(m, s) as usize;
    lemma_query_layout(m, b, s, dim, qlr, table, start);
    lemma_keys_layout(m, b, s, dim, qlr, table, start);
    let q = shape4(b, s, h, hd);
    let keys = shape3(b, n, hd);
    assert(keys.insert(1, 1) =~= shape4(b, 1, n, hd));
    lemma_expands_axes(shape4(b, 1, n, hd), shape4(b, h, n, hd));
    lemma_positive(shape4(b, h, s, n));
    let sink = m.attn_sink@.shape;
    reveal_with_fuel(product, 2);
    assert(sink.drop_last() =~= Seq::<usize>::empty());
    assert(product(sink) == 1 * (h as nat));
    lemma_output_layout(m, b, s, dim, qlr);
}

// --- blocks, head and model -----------------------------------------------------------------

/// The sizes that the layers of a model share.
pub struct Sizes {
    pub dim: usize,
    /// The width of the low-rank queries.
    pub qlr: usize,
    /// The hidden width of a routed expert.
    pub inter: usize,
    /// The hidden width of the shared expert.
    pub wide: usize,
    pub vocab: usize,
}

/// The weights of a decoder layer over `hc` streams.
pub open spec fn block_layout(k: Block, z: Sizes, hc: usize) -> bool {
    &&& mla_layout(k.attn, z.dim, z.qlr)
    &&& moe_layout(k.ffn, z.dim, z.inter, z.wide)
    &&& 0 < k.ffn.experts@.len() <= usize::MAX
    &&& vector(k.attn_norm@.shape, z.dim)
    &&& vector(k.ffn_norm@.shape, z.dim)
    &&& hc_layout(k.hc_attn, z.dim)
    &&& hc_layout(k.hc_ffn, z.dim)
    &&& k.hc_attn.hc == hc
    &&& k.hc_ffn.hc == hc
}

/// What the layer builds fits in memory.
pub open spec fn block_room(k: Block, b: usize, s: usize, z: Sizes, hc: usize) -> bool {
    let n = (b * s) as usize;
    &&& mla_room(k.attn, b, s, z.dim, z.qlr)
    &&& fits(shape5(b, s, hc, hc, z.dim))
    &&& b * s * mix_width(hc as int) <= usize::MAX
    &&& fits(shape2(n, z.inter))
    &&& fits(shape2(n, z.wide))
    &&& fits(shape2(n, k.ffn.experts@.len() as usize))
}

/// The tokens of `[b, s, dim]` side by side.
proof fn lemma_tokens(b: usize, s: usize, dim: usize)
    requires
        b > 0,
        s > 0,
        dim > 0,
        fits(shape3(b, s, dim)),
    ensures
        0 < b * s <= usize::MAX,
        fits(shape2((b * s) as usize, dim)),
        then_reshape(Some(shape2((b * s) as usize, dim)), shape3(b, s, dim)) == Some(
            shape3(b, s, dim),
        ),
{
    let x = shape3(b, s, dim);
    lemma_merged(x, 0);
    assert(merged(x, 0) =~= shape2((b * s) as usize, dim));
    assert(b * s > 0) by (nonlinear_arith)
        requires
            b > 0,
            s > 0,
    ;
    lemma_reshape(shape2((b * s) as usize, dim), x);
}

/// A decoder layer maps `[b, s, hc, dim]` to `[b, s, hc, dim]`, whatever its input holds.
pub proof fn law_block_layout(
    k: Block,
    x: V,
    rope: RopeView,
    start: int,
    b: usize,
    s: usize,
    z: Sizes,
    hc: usize,
)
    requires
        block_layout(k, z, hc),
        block_room(k, b, s, z, hc),
        mla_ready(k.attn, s, rope.cos.shape, start),
        x.shape == shape4(b, s, hc, z.dim),
        b > 0,
        s > 0,
        hc > 0,
        z.dim > 0,
    ensures
        k.wf(),
        block_shape(k, x.shape, rope.cos.shape, start) == Some(x.shape),
        !block_blocked(k, x, rope, start),
{
    reveal(block_shape);
    reveal(block_blocked);
    let dim = z.dim;
    let n = shape3(b, s, dim);
    let table = rope.cos.shape;
    law_hc_layout(k.hc_attn, b, s, dim);
    law_hc_layout(k.hc_ffn, b, s, dim);
    lemma_gain(n, k.attn_norm@.shape);
    lemma_gain(n, k.ffn_norm@.shape);
    law_mla_layout(k.attn, b, s, dim, z.qlr, table, start);
    assert(attn_half_shape(k, x.shape, table, start) == Some(x.shape));
    lemma_tokens(b, s, dim);
    let bs = (b * s) as usize;
    assert(token_shape(n) == shape2(bs, dim));
    let any = NdView::<u32> { shape: shape2(bs, dim), data: Seq::empty() };
    law_moe_layout(k.ffn, any, bs, dim, z.inter, z.wide);
    assert(ffn_half_shape(k, x.shape) == Some(x.shape));
    assert forall|mid: V| Some(mid.shape) == attn_half_shape(k, x.shape, table, start) implies !(
    #[trigger] ffn_blocked(k, mid)) by {
        assert forall|t: HalfSteps|
            #[trigger] ffn_entry(k, mid, t) && Some(t.normed.shape) == rms_norm_shape(
                shape3(mid.shape[0], mid.shape[1], mid.shape[3]),
                Some(k.ffn_norm@.shape),
            ) implies !moe_blocked(k.ffn, reshaped(t.normed, token_shape(t.normed.shape))) by {
            law_moe_layout(
                k.ffn,
                reshaped(t.normed, token_shape(t.normed.shape)),
                bs,
                dim,
                z.inter,
                z.wide,
            );
        }
    }
}

/// The weights of a head over `hc` streams.
pub open spec fn head_layout(h: Head, z: Sizes, hc: usize) -> bool {
    &&& h.hc == hc
    &&& hc * z.dim <= usize::MAX
    &&& h.weight@.shape == shape2(z.vocab, z.dim)
    &&& vector(h.norm@.shape, z.dim)
    &&& h.hc_fn@.shape == shape2(hc, (hc * z.dim) as usize)
    &&& vector(h.hc_base@.shape, hc)
    &&& vector(h.hc_scale@.shape, 1)
}

/// A head maps `[b, s, hc, dim]` to the logits `[b, vocab]`.
pub proof fn law_head_layout(h: Head, b: usize, s: usize, z: Sizes, hc: usize)
    requires
        head_layout(h, z, hc),
        b > 0,
        s > 0,
        hc > 0,
        z.dim > 0,
        fits(shape4(b, s, hc, z.dim)),
        fits(shape2(b, z.vocab)),
    ensures
        h.wf(),
        head_shape(h, shape4(b, s, hc, z.dim)) == Some(shape2(b, z.vocab)),
{
    let dim = z.dim;
    let x = shape4(b, s, hc, dim);
    lemma_flat_streams(x);
    lemma_cube4(b, s, hc, dim);
    lemma_positive(x);
    let bs = (b * s) as usize;
    assert(b * s > 0) by (nonlinear_arith)
        requires
            b > 0,
            s > 0,
    ;
    let mixes = shape2(bs, hc);
    lemma_grid(bs, hc);
    lemma_cube(b, s, hc);
    lemma_cube4(b, s, hc, 1);
    assert(bs * hc == b * s * hc * 1 && b * s * hc * 1 <= b * s * hc * dim) by (nonlinear_arith)
        requires
            bs == b * s,
            dim >= 1,
    ;
    lemma_project(flat_shape(x), hc, h.hc_fn@.shape, mixes);
    lemma_gain(mixes, h.hc_base@.shape);
    lemma_reshape(mixes, shape4(b, s, hc, 1));
    let n = shape3(b, s, dim);
    lemma_cube(b, s, dim);
    lemma_positive(n);
    assert(b * s * dim <= b * s * hc * dim) by (nonlinear_arith)
        requires
            hc >= 1,
    ;
    lemma_gain(n, h.norm@.shape);
    lemma_project(shape2(b, dim), z.vocab, h.weight@.shape, shape2(b, z.vocab));
}

/// The weights of a model.
pub open spec fn model_layout(m: Transformer, z: Sizes) -> bool {
    &&& m.embed@.shape == shape2(z.vocab, z.dim)
    &&& forall|i: int| 0 <= i < m.layers@.len() ==> block_layout(#[trigger] m.layers@[i], z, m.hc)
    &&& head_layout(m.head, z, m.hc)
}

/// What the model builds fits in memory, and every layer takes the sequence.
pub open spec fn model_room(m: Transformer, b: usize, s: usize, z: Sizes, start: int) -> bool {
    &&& fits(shape4(b, s, m.hc, z.dim))
    &&& fits(shape2(b, z.vocab))
    &&& forall|i: int|
        0 <= i < m.layers@.len() ==> block_room(#[trigger] m.layers@[i], b, s, z, m.hc)
            && mla_ready(m.layers@[i].attn, s, m.rope@.cos.shape, start)
}

/// The streams keep their shape through the first `k` layers.
proof fn lemma_stack_layout(
    m: Transformer,
    x: V,
    b: usize,
    s: usize,
    z: Sizes,
    start: int,
    k: int,
)
    requires
        model_layout(m, z),
        model_room(m, b, s, z, start),
        x.shape == shape4(b, s, m.hc, z.dim),
        b > 0,
        s > 0,
        m.hc > 0,
        z.dim > 0,
        0 <= k <= m.layers@.len(),
    ensures
        stack_shape(m.layers@, x.shape, m.rope@.cos.shape, start, k) == Some(x.shape),
    decreases k,
{
    if k > 0 {
        lemma_stack_layout(m, x, b, s, z, start, k - 1);
        law_block_layout(m.layers@[k - 1], x, m.rope@, start, b, s, z, m.hc);
    }
}

/// Every state that the layers can reach has the shape of the first.
proof fn lemma_states_layout(
    m: Transformer,
    x: V,
    states: Seq<V>,
    b: usize,
    s: usize,
    z: Sizes,
    start: int,
    i: int,
)
    requires
        model_layout(m, z),
        model_room(m, b, s, z, start),
        x.shape == shape4(b, s, m.hc, z.dim),
        b > 0,
        s > 0,
        m.hc > 0,
        z.dim > 0,
        stack_states(m.layers@, x, m.rope@, start, states),
        0 <= i < states.len(),
    ensures
        states[i].shape == x.shape,
    decreases i,
{
    if i > 0 {
        lemma_states_layout(m, x, states, b, s, z, start, i - 1);
        let k = m.layers@[i - 1];
        assert(block_gives(k, states[i - 1], m.rope@, start, states[i - 1 + 1]));
        law_block_layout(k, states[i - 1], m.rope@, start, b, s, z, m.hc);
        reveal(block_gives);
        reveal(block_shape);
    }
}

/// A model maps the token numbers `[b, s]` of its vocabulary to the logits `[b, vocab]`, whatever
/// its weights hold.
pub proof fn law_model_layout(
    m: Transformer,
    ids: NdView<u32>,
    b: usize,
    s: usize,
    z: Sizes,
    start: int,
)
    requires
        model_layout(m, z),
        model_room(m, b, s, z, start),
        ids.shape == shape2(b, s),
        ids.wf(),
        forall|i: int| 0 <= i < ids.data.len() ==> (#[trigger] ids.data[i]) < z.vocab,
        b > 0,
        s > 0,
        m.hc > 0,
        z.dim > 0,
    ensures
        m.wf(),
        rows_known(m.embed@.shape, id_rows(ids.data)),
        model_shape(m, ids, start) == Some(shape2(b, z.vocab)),
        !stack_blocked(m.layers@, embedded(m, ids), m.rope@, start),
{
    let dim = z.dim;
    let x = embedded(m, ids);
    let streams = shape4(b, s, m.hc, dim);
    assert(x.shape == streams);
    lemma_grid(b, s);
    let n = shape3(b, s, dim);
    lemma_cube4(b, s, m.hc, dim);
    lemma_positive(streams);
    lemma_cube(b, s, dim);
    lemma_positive(n);
    assert(b * s * dim <= b * s * m.hc * dim) by (nonlinear_arith)
        requires
            m.hc >= 1,
    ;
    lemma_tokens(b, s, dim);
    let bs = (b * s) as usize;
    assert(ids.data.len() == bs);
    assert(m.embed@.shape.update(0, bs) =~= shape2(bs, dim));
    assert(rows_known(m.embed@.shape, id_rows(ids.data)));
    assert(embed_ok(m, ids));
    let count = m.layers@.len() as int;
    lemma_stack_layout(m, x, b, s, z, start, count);
    law_head_layout(m.head, b, s, z, m.hc);
    assert forall|states: Seq<V>|
        #[trigger] stack_states(m.layers@, x, m.rope@, start, states) && states.len()
            <= m.layers@.len() implies !block_blocked(
        m.layers@[states.len() - 1],
        states.last(),
        m.rope@,
        start,
    ) by {
        lemma_states_layout(m, x, states, b, s, z, start, states.len() - 1);
        law_block_layout(
            m.layers@[states.len() - 1],
            states.last(),
            m.rope@,
            start,
            b,
            s,
            z,
            m.hc,
        );
    }
    assert forall|i: int| 0 <= i < m.layers@.len() implies (#[trigger] m.layers@[i]).wf() by {
        law_block_layout(m.layers@[i], x, m.rope@, start, b, s, z, m.hc);
    }
}

} // verus!
