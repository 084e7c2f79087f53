//! Laws of the decoder layer: streams are mixed per token, never across positions, and what a
//! position attends to lies at or before it.

use vstd::prelude::*;

#[allow(unused_imports)]
use crate::attention::mla_gives;
#[allow(unused_imports)]
use crate::block::{
    attn_half_gives, attn_half_shape, attn_half_steps, block_gives, ffn_half_gives, ffn_half_shape,
    ffn_half_steps, token_shape, Block, HalfSteps,
};
#[allow(unused_imports)]
use crate::layer::{
    law_layer_weights_are_causal, layer_inputs, layer_run, lemma_layer_shape, same_scaling, settled,
    tokens_agree, up_to, LayerRun,
};
#[allow(unused_imports)]
use crate::layout::{block_layout, block_room, law_hc_layout, mla_layout, mla_ready, Sizes};
#[allow(unused_imports)]
use crate::mhc::{post_gives, pre_gives};
#[allow(unused_imports)]
use crate::mix::same_row;
#[allow(unused_imports)]
use crate::nn::rms_norm_gives;
#[allow(unused_imports)]
use crate::rope::RopeView;
#[allow(unused_imports)]
use crate::shape::{lemma_merged, merged, shape2, shape3, shape4};
#[allow(unused_imports)]
use crate::tensor::{reshaped, V};
#[allow(unused_imports)]
use crate::tokens::{
    law_moe_is_per_token, law_post_is_per_token, law_pre_is_per_token, lemma_columns,
    lemma_norm_shape, lemma_piece, lemma_reshaped, lemma_rms_norm, lemma_tokens3, lemma_tokens4,
    ones, piece,
};

verus! {

/// A decoder layer of the documented shapes and streams for it.
pub open spec fn block_inputs(k: Block, x: V, z: Sizes, hc: usize) -> bool {
    &&& block_layout(k, z, hc)
    &&& x.wf()
    &&& x.shape.len() == 4
    &&& x.shape == shape4(x.shape[0], x.shape[1], hc, z.dim)
    &&& block_room(k, x.shape[0], x.shape[1], z, hc)
    &&& x.shape[0] > 0
    &&& x.shape[1] > 0
    &&& hc > 0
    &&& z.dim > 0
    &&& k.attn_norm@.wf()
    &&& k.ffn_norm@.wf()
    &&& k.hc_attn.hc_base@.wf()
    &&& k.hc_ffn.hc_base@.wf()
    &&& k.ffn.gate.bias matches Some(g) ==> g@.wf()
}

/// What one token goes through: its streams `x` are collapsed and normed to what attention takes, `n`,
/// and with what attention gives it, `w`, they are expanded, collapsed, normed, sent to its experts
/// and expanded again to its streams `y`.
pub open spec fn token_steps(k: Block, x: V, n: V, w: V, y: V, t: HalfSteps, mid: V) -> bool {
    &&& pre_gives(k.hc_attn, x, t.collapsed, t.post, t.comb)
    &&& rms_norm_gives(t.collapsed, Some(k.attn_norm@), k.eps, n)
    &&& post_gives(k.hc_attn.hc, w, x, t.post, t.comb, mid)
    &&& ffn_half_gives(k, mid, y)
}

pub open spec fn token_gives(k: Block, x: V, n: V, w: V, y: V) -> bool {
    exists|t: HalfSteps, mid: V| token_steps(k, x, n, w, y, t, mid)
}

/// The attention layer takes `n` and gives `w`; every token of the streams goes its own way around it.
pub open spec fn around_attention(
    k: Block,
    x: V,
    rope: RopeView,
    start: int,
    n: V,
    w: V,
    y: V,
) -> bool {
    &&& mla_gives(k.attn, n, rope, start, w)
    &&& n.wf()
    &&& n.shape == shape3(x.shape[0], x.shape[1], x.shape[3])
    &&& forall|p: int|
        0 <= p < x.shape[0] * x.shape[1] ==> #[trigger] token_gives(
            k,
            piece(x, 2, p),
            piece(n, 2, p),
            piece(w, 2, p),
            piece(y, 2, p),
        )
}

/// The feed-forward half acts on each token.
proof fn lemma_ffn_half(k: Block, x: V, y: V, z: Sizes, hc: usize, p: int)
    requires
        block_inputs(k, x, z, hc),
        ffn_half_gives(k, x, y),
        0 <= p < x.shape[0] * x.shape[1],
    ensures
        y.wf(),
        y.shape == x.shape,
        ffn_half_gives(k, piece(x, 2, p), piece(y, 2, p)),
{
    let (b, s, dim) = (x.shape[0], x.shape[1], z.dim);
    let t = choose|t: HalfSteps| ffn_half_steps(k, x, t, y);
    law_hc_layout(k.hc_ffn, b, s, dim);
    law_pre_is_per_token(k.hc_ffn, x, t.collapsed, t.post, t.comb, p);
    let n = shape3(b, s, dim);
    lemma_tokens3(n, b, s, dim);
    lemma_norm_shape(t.collapsed, k.ffn_norm@, k.eps, t.normed);
    lemma_rms_norm(t.collapsed, Some(k.ffn_norm@), k.eps, t.normed, 2, p);
    lemma_merged(n, 0);
    let bs = (b * s) as usize;
    let flat = shape2(bs, dim);
    assert(merged(n, 0) =~= flat);
    let rows = reshaped(t.normed, flat);
    assert(token_shape(t.normed.shape) == flat);
    law_moe_is_per_token(k.ffn, rows, t.inner, bs, dim, z.inter, z.wide, p);
    lemma_columns(rows, p);
    lemma_columns(t.inner, p);
    lemma_reshaped(t.normed, 2, flat, 1, p);
    assert(ones(1) + flat.skip(1) =~= shape2(1, dim));
    lemma_piece(t.normed, 2, p);
    let pn = piece(t.normed, 2, p);
    assert(pn.shape == shape3(1, 1, dim));
    assert(pn.shape[0] == 1 && pn.shape[1] == 1 && pn.shape[2] == dim);
    assert(pn.shape[0] * pn.shape[1] == 1) by (nonlinear_arith)
        requires
            pn.shape[0] == 1,
            pn.shape[1] == 1,
    ;
    assert(token_shape(pn.shape) =~= shape2(1, dim));
    assert(piece(rows, 1, p) == reshaped(pn, token_shape(pn.shape)));
    let back = reshaped(t.inner, n);
    lemma_reshaped(t.inner, 1, n, 2, p);
    assert(ones(2) + n.skip(2) =~= shape3(1, 1, dim));
    assert(piece(back, 2, p) == reshaped(piece(t.inner, 1, p), pn.shape));
    law_post_is_per_token(k.hc_ffn.hc, back, x, t.post, t.comb, y, p);
    let u = HalfSteps {
        collapsed: piece(t.collapsed, 2, p),
        post: piece(t.post, 2, p),
        comb: piece(t.comb, 2, p),
        normed: pn,
        inner: piece(t.inner, 1, p),
    };
    assert(ffn_half_steps(k, piece(x, 2, p), u, piece(y, 2, p)));
}

/// The attention layer gives what it takes a place for.
proof fn lemma_attended(k: Block, x: V, rope: RopeView, start: int, y: V, z: Sizes)
    requires
        mla_layout(k.attn, z.dim, z.qlr),
        mla_ready(k.attn, x.shape[1], rope.cos.shape, start),
        x.wf(),
        x.shape.len() == 3,
        x.shape[2] == z.dim,
        x.shape[0] > 0,
        x.shape[1] > 0,
        z.qlr > 0,
        2 * x.shape[1] <= i64::MAX,
        mla_gives(k.attn, x, rope, start, y),
    ensures
        y.wf(),
        y.shape == x.shape,
{
    assert(layer_inputs(k.attn, x, x, z.qlr));
    lemma_layer_shape(k.attn, x, rope, start, y, z.qlr);
}

/// What stands around the attention layer acts on each token.
proof fn lemma_around(
    k: Block,
    x: V,
    t: HalfSteps,
    mid: V,
    y: V,
    z: Sizes,
    hc: usize,
    p: int,
)
    requires
        block_inputs(k, x, z, hc),
        pre_gives(k.hc_attn, x, t.collapsed, t.post, t.comb),
        rms_norm_gives(t.collapsed, Some(k.attn_norm@), k.eps, t.normed),
        post_gives(k.hc_attn.hc, t.inner, x, t.post, t.comb, mid),
        ffn_half_gives(k, mid, y),
        t.inner.wf(),
        t.inner.shape == shape3(x.shape[0], x.shape[1], z.dim),
        0 <= p < x.shape[0] * x.shape[1],
    ensures
        y.wf(),
        y.shape == x.shape,
        token_gives(
            k,
            piece(x, 2, p),
            piece(t.normed, 2, p),
            piece(t.inner, 2, p),
            piece(y, 2, p),
        ),
{
    let (b, s, dim) = (x.shape[0], x.shape[1], z.dim);
    law_hc_layout(k.hc_attn, b, s, dim);
    lemma_tokens3(shape3(b, s, dim), b, s, dim);
    law_pre_is_per_token(k.hc_attn, x, t.collapsed, t.post, t.comb, p);
    lemma_rms_norm(t.collapsed, Some(k.attn_norm@), k.eps, t.normed, 2, p);
    law_post_is_per_token(k.hc_attn.hc, t.inner, x, t.post, t.comb, mid, p);
    lemma_ffn_half(k, mid, y, z, hc, p);
    let u = HalfSteps {
        collapsed: piece(t.collapsed, 2, p),
        post: piece(t.post, 2, p),
        comb: piece(t.comb, 2, p),
        normed: piece(t.normed, 2, p),
        inner: piece(t.inner, 2, p),
    };
    assert(token_steps(
        k,
        piece(x, 2, p),
        piece(t.normed, 2, p),
        piece(t.inner, 2, p),
        piece(y, 2, p),
        u,
        piece(mid, 2, p),
    ));
}

/// What the attention layer takes has the shape of the tokens.
proof fn lemma_taken_shape(k: Block, x: V, t: HalfSteps, z: Sizes, hc: usize)
    requires
        block_inputs(k, x, z, hc),
        pre_gives(k.hc_attn, x, t.collapsed, t.post, t.comb),
        rms_norm_gives(t.collapsed, Some(k.attn_norm@), k.eps, t.normed),
    ensures
        t.normed.wf(),
        t.normed.shape == shape3(x.shape[0], x.shape[1], z.dim),
{
    let (b, s, dim) = (x.shape[0], x.shape[1], z.dim);
    law_hc_layout(k.hc_attn, b, s, dim);
    lemma_first_token(b, s);
    lemma_tokens3(shape3(b, s, dim), b, s, dim);
    law_pre_is_per_token(k.hc_attn, x, t.collapsed, t.post, t.comb, 0);
    lemma_norm_shape(t.collapsed, k.attn_norm@, k.eps, t.normed);
    lemma_rms_norm(t.collapsed, Some(k.attn_norm@), k.eps, t.normed, 2, 0);
}

/// The steps of both halves.
proof fn lemma_halves(k: Block, x: V, rope: RopeView, start: int, y: V) -> (r: (HalfSteps, V))
    requires
        block_gives(k, x, rope, start, y),
    ensures
        attn_half_steps(k, x, rope, start, r.0, r.1),
        ffn_half_gives(k, r.1, y),
{
    reveal(block_gives);
    let mid = choose|mid: V|
        #[trigger] attn_half_gives(k, x, rope, start, mid) && Some(mid.shape) == attn_half_shape(
            k,
            x.shape,
            rope.cos.shape,
            start,
        ) && ffn_half_gives(k, mid, y) && Some(y.shape) == ffn_half_shape(k, mid.shape);
    let t = choose|t: HalfSteps| attn_half_steps(k, x, rope, start, t, mid);
    (t, mid)
}

/// Streams are mixed per token: around its attention layer, a decoder layer gives each token what
/// that token alone gives it.
pub proof fn law_block_is_per_token(
    k: Block,
    x: V,
    rope: RopeView,
    start: int,
    y: V,
    z: Sizes,
    hc: usize,
)
    requires
        block_inputs(k, x, z, hc),
        mla_ready(k.attn, x.shape[1], rope.cos.shape, start),
        z.qlr > 0,
        2 * x.shape[1] <= i64::MAX,
        block_gives(k, x, rope, start, y),
    ensures
        y.wf(),
        y.shape == x.shape,
        exists|n: V, w: V| around_attention(k, x, rope, start, n, w, y),
{
    let (b, s) = (x.shape[0], x.shape[1]);
    let (t, mid) = lemma_halves(k, x, rope, start, y);
    lemma_taken_shape(k, x, t, z, hc);
    lemma_attended(k, t.normed, rope, start, t.inner, z);
    lemma_first_token(b, s);
    lemma_around(k, x, t, mid, y, z, hc, 0);
    assert forall|p: int| 0 <= p < b * s implies #[trigger] token_gives(
        k,
        piece(x, 2, p),
        piece(t.normed, 2, p),
        piece(t.inner, 2, p),
        piece(y, 2, p),
    ) by {
        lemma_around(k, x, t, mid, y, z, hc, p);
    }
    assert(around_attention(k, x, rope, start, t.normed, t.inner, y));
}

proof fn lemma_first_token(b: usize, s: usize)
    requires
        b > 0,
        s > 0,
    ensures
        0 < b * s,
{
    assert(0 < b * s) by (nonlinear_arith)
        requires
            b > 0,
            s > 0,
    ;
}

/// A decoder layer is causal, up to the weights of its attention. Take streams `x`, with the input `n`
/// and the output `w` of the attention layer in a run on them, and other streams `x2` with the same
/// tokens up to place `i`. Up to the place, every token of `x2` may come to the same input of the
/// attention layer and, with the same output of it, to the same streams. For any input `n2` of the
/// attention layer that has these inputs up to the place, what the attention layer does for query `i`
/// is settled: the keys that it attends to, what they hold, and their weights.
pub proof fn law_block_weights_are_causal(
    k: Block,
    x: V,
    x2: V,
    rope: RopeView,
    start: int,
    y: V,
    n: V,
    w: V,
    n2: V,
    z: Sizes,
    hc: usize,
    l: LayerRun,
    l2: LayerRun,
    l3: LayerRun,
    a: int,
    i: int,
    c: int,
)
    requires
        block_inputs(k, x, z, hc),
        x2.shape == x.shape,
        x2.wf(),
        around_attention(k, x, rope, start, n, w, y),
        forall|p: int|
            0 <= p < x.shape[0] * x.shape[1] && p % x.shape[1] as int <= i ==> #[trigger] same_row(
                x,
                x2,
                hc * z.dim,
                p,
            ),
        layer_inputs(k.attn, n, n2, z.qlr),
        k.attn.window_size > 0,
        tokens_agree(n, n2, up_to(x.shape[1] as int, i)),
        layer_run(k.attn, n, rope, start, l),
        layer_run(k.attn, n2, rope, start, l2),
        same_scaling(k.attn, l, l2),
        0 <= a < x.shape[0],
        0 <= i < x.shape[1],
        0 <= c < k.attn.n_heads,
    ensures
        forall|p: int|
            0 <= p < x.shape[0] * x.shape[1] && p % x.shape[1] as int <= i
                ==> #[trigger] token_gives(
                k,
                piece(x2, 2, p),
                piece(n2, 2, p),
                piece(w, 2, p),
                piece(y, 2, p),
            ),
        settled(k.attn, n2, rope, start, z.qlr, l, l2, l3, a, i, c),
{
    let (b, s, dim) = (x.shape[0], x.shape[1], z.dim);
    law_layer_weights_are_causal(k.attn, n, n2, rope, start, z.qlr, l, l2, l3, a, i, c);
    let f = up_to(s as int, i);
    assert forall|p: int| 0 <= p < b * s && p % s as int <= i implies #[trigger] token_gives(
        k,
        piece(x2, 2, p),
        piece(n2, 2, p),
        piece(w, 2, p),
        piece(y, 2, p),
    ) by {
        lemma_tokens4(x.shape, b, s, hc, dim);
        lemma_tokens3(n.shape, b, s, dim);
        lemma_piece(x, 2, p);
        lemma_piece(x2, 2, p);
        lemma_piece(n, 2, p);
        lemma_piece(n2, 2, p);
        let wide = hc * dim;
        assert(same_row(x, x2, wide, p));
        assert(f(p));
        assert(same_row(n, n2, dim as int, p));
        assert(piece(x, 2, p).data =~= piece(x2, 2, p).data) by {
            assert forall|j: int| 0 <= j < wide implies piece(x, 2, p).data[j] == piece(
                x2,
                2,
                p,
            ).data[j] by {
                assert(x.data[p * wide + j] == x2.data[p * wide + j]);
            }
        }
        assert(piece(n, 2, p).data =~= piece(n2, 2, p).data) by {
            assert forall|j: int| 0 <= j < dim implies piece(n, 2, p).data[j] == piece(
                n2,
                2,
                p,
            ).data[j] by {
                assert(n.data[p * dim + j] == n2.data[p * dim + j]);
            }
        }
        assert(piece(x, 2, p) == piece(x2, 2, p));
        assert(piece(n, 2, p) == piece(n2, 2, p));
        assert(token_gives(k, piece(x, 2, p), piece(n, 2, p), piece(w, 2, p), piece(y, 2, p)));
    }
}

} // verus!
