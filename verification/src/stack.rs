//! What a decoder layer and the model hold, from end to end.

use vstd::prelude::*;

#[allow(unused_imports)]
use crate::bits::{DOUBLE_ONE, DOUBLE_ZERO};
#[allow(unused_imports)]
use crate::block::{
    attn_half_gives, attn_half_steps, block_gives, ffn_entry, ffn_half_gives, ffn_half_steps, Block,
    HalfSteps,
};
#[allow(unused_imports)]
use crate::attention::mla_gives;
#[allow(unused_imports)]
use crate::elements::{
    gained, lane, law_rms_norm_levels, law_sigmoid_is_logistic, lemma_with_vector, logistic,
    projected, weighted_sum,
};
#[allow(unused_imports)]
use crate::heads::{lemma_projected_row, lemma_row_inside, row_of};
#[allow(unused_imports)]
use crate::kernel::affine_gives;
#[allow(unused_imports)]
use crate::layout::{head_layout, Sizes};
#[allow(unused_imports)]
use crate::mhc::{collapse_gives, flat_streams, mix_gives, post_gives, pre_gives};
#[allow(unused_imports)]
use crate::mixing::{law_streams_collapse, logit_of};
#[allow(unused_imports)]
use crate::model::{
    embedded, head_collapse_steps, head_gives, head_steps, last_position, model_gives, stack_states,
    CollapseSteps, Head, Transformer,
};
#[allow(unused_imports)]
use crate::moe::moe_gives;
#[allow(unused_imports)]
use crate::nn::rms_norm_gives;
#[allow(unused_imports)]
use crate::ops::Binary;
#[allow(unused_imports)]
use crate::rope::RopeView;
#[allow(unused_imports)]
use crate::shape::{
    inner, lemma_cube, lemma_cube4, lemma_flat, lemma_grid, outer, product, shape2, shape3, shape4,
};
#[allow(unused_imports)]
use crate::tensor::{NdView, V};

verus! {

/// The values on the way through a decoder layer.
pub struct LayerValues {
    pub first: HalfValues,
    pub middle: V,
    pub second: HalfValues,
}

/// The values around one sublayer.
pub struct HalfValues {
    pub collapsed: V,
    pub post: V,
    pub comb: V,
    pub normed: V,
    pub inner: V,
}

/// Two sublayers in turn, each inside its own mixer and behind its own norm: the attention on the
/// incoming streams, then the experts, token by token, on what comes out. Each mixer adds the sublayer's
/// output to the streams that went into it.
pub open spec fn layer_values(
    k: Block,
    x: V,
    rope: RopeView,
    start: int,
    v: LayerValues,
    y: V,
) -> bool {
    let n = v.second.normed.shape;
    let tokens = shape2((n[0] * n[1]) as usize, n[2]);
    &&& pre_gives(k.hc_attn, x, v.first.collapsed, v.first.post, v.first.comb)
    &&& rms_norm_gives(v.first.collapsed, Some(k.attn_norm@), k.eps, v.first.normed)
    &&& mla_gives(k.attn, v.first.normed, rope, start, v.first.inner)
    &&& post_gives(k.hc_attn.hc, v.first.inner, x, v.first.post, v.first.comb, v.middle)
    &&& pre_gives(k.hc_ffn, v.middle, v.second.collapsed, v.second.post, v.second.comb)
    &&& rms_norm_gives(v.second.collapsed, Some(k.ffn_norm@), k.eps, v.second.normed)
    &&& moe_gives(
        k.ffn,
        NdView { shape: tokens, data: v.second.normed.data },
        v.second.inner,
    )
    &&& post_gives(
        k.hc_ffn.hc,
        NdView { shape: n, data: v.second.inner.data },
        v.middle,
        v.second.post,
        v.second.comb,
        y,
    )
}

/// A decoder layer runs its two sublayers in turn.
pub proof fn law_sublayers_in_turn(k: Block, x: V, rope: RopeView, start: int, y: V)
    requires
        block_gives(k, x, rope, start, y),
    ensures
        exists|v: LayerValues| #[trigger] layer_values(k, x, rope, start, v, y),
{
    reveal(block_gives);
    let middle = choose|mid: V|
        #[trigger] attn_half_gives(k, x, rope, start, mid) && Some(mid.shape)
            == crate::block::attn_half_shape(k, x.shape, rope.cos.shape, start) && ffn_half_gives(k, mid, y)
            && Some(y.shape) == crate::block::ffn_half_shape(k, mid.shape);
    let a = choose|t: HalfSteps| attn_half_steps(k, x, rope, start, t, middle);
    let f = choose|t: HalfSteps| ffn_half_steps(k, middle, t, y);
    let v = LayerValues {
        first: HalfValues {
            collapsed: a.collapsed,
            post: a.post,
            comb: a.comb,
            normed: a.normed,
            inner: a.inner,
        },
        middle,
        second: HalfValues {
            collapsed: f.collapsed,
            post: f.post,
            comb: f.comb,
            normed: f.normed,
            inner: f.inner,
        },
    };
    assert(layer_values(k, x, rope, start, v, y));
}

/// Each half of a decoder layer keeps to its own parameters: the attention half does not change with the
/// experts, their norm and their mixer, nor the other half with the attention, its norm and its mixer.
pub proof fn law_halves_keep_to_their_parameters(
    k: Block,
    k2: Block,
    x: V,
    rope: RopeView,
    start: int,
    y: V,
)
    requires
        k.eps == k2.eps,
    ensures
        k.attn == k2.attn && k.attn_norm == k2.attn_norm && k.hc_attn == k2.hc_attn && attn_half_gives(
            k,
            x,
            rope,
            start,
            y,
        ) ==> attn_half_gives(k2, x, rope, start, y),
        k.ffn == k2.ffn && k.ffn_norm == k2.ffn_norm && k.hc_ffn == k2.hc_ffn && ffn_half_gives(k, x, y)
            ==> ffn_half_gives(k2, x, y),
{
    if k.attn == k2.attn && k.attn_norm == k2.attn_norm && k.hc_attn == k2.hc_attn && attn_half_gives(
        k,
        x,
        rope,
        start,
        y,
    ) {
        let t = choose|t: HalfSteps| attn_half_steps(k, x, rope, start, t, y);
        assert(attn_half_steps(k2, x, rope, start, t, y));
    }
    if k.ffn == k2.ffn && k.ffn_norm == k2.ffn_norm && k.hc_ffn == k2.hc_ffn && ffn_half_gives(k, x, y) {
        let t = choose|t: HalfSteps| ffn_half_steps(k, x, t, y);
        assert(ffn_entry(k2, x, t));
        assert(ffn_half_steps(k2, x, t, y));
    }
}

/// The model runs its layers in order, all with the same tables and from the same position, on the
/// embedded tokens, and its head on what the last layer leaves.
pub proof fn law_layers_in_order(m: Transformer, ids: NdView<u32>, start: int, y: V)
    requires
        model_gives(m, ids, start, y),
    ensures
        exists|states: Seq<V>|
            {
                &&& states.len() == m.layers@.len() + 1
                &&& states[0] == embedded(m, ids)
                &&& forall|i: int|
                    0 <= i < m.layers@.len() ==> #[trigger] block_gives(
                        m.layers@[i],
                        states[i],
                        m.rope@,
                        start,
                        states[i + 1],
                    )
                &&& #[trigger] head_gives(m.head, states[m.layers@.len() as int], y)
            },
{
    let states = choose|states: Seq<V>|
        #[trigger] stack_states(m.layers@, embedded(m, ids), m.rope@, start, states) && states.len()
            == m.layers@.len() + 1 && head_gives(m.head, states.last(), y);
    assert(head_gives(m.head, states[m.layers@.len() as int], y));
}

// --- the head -------------------------------------------------------------------------------

/// The values on the way to the logits of one sequence.
pub struct HeadValues {
    pub mixes: V,
    pub pre: Seq<u32>,
    pub collapsed: Seq<u32>,
    pub normed: Seq<u32>,
}

/// The logits of sequence `r`, read off its last token. The mixing vector of the token's streams gives the
/// gate of stream `k`: the logistic function of its element `k`, scaled, plus the base's, plus `hc_eps`.
/// The streams are summed by their gates, levelled, scaled by the gain, and projected to the vocabulary.
pub open spec fn head_values(h: Head, x: V, r: int, vocab: int, v: HeadValues, y: Seq<u32>) -> bool {
    let (s, hc, d) = (x.shape[1] as int, x.shape[2] as int, x.shape[3] as int);
    let t = r * s + (s - 1);
    &&& mix_gives(
        NdView {
            shape: shape2((x.shape[0] * x.shape[1]) as usize, (x.shape[2] * x.shape[3]) as usize),
            data: x.data,
        },
        h.hc_fn@,
        h.eps,
        v.mixes,
    )
    &&& v.pre.len() == hc
    &&& forall|k: int|
        0 <= k < hc ==> #[trigger] stream_gated(
            v.mixes.data[t * hc + k],
            h.hc_scale@.data[0],
            h.hc_base@.data[k],
            h.hc_eps,
            v.pre[k],
        )
    &&& v.collapsed.len() == d
    &&& forall|c: int|
        0 <= c < d ==> weighted_sum(v.pre, lane(x.data, hc, d, t, c), #[trigger] v.collapsed[c])
    &&& gained(v.collapsed, h.eps, Some(h.norm@), v.normed)
    &&& y.len() == vocab
    &&& projected(v.normed, h.weight@.data, 0, d, y)
}

/// `pre` is the logistic function of `mix · scale + base`, plus `eps`.
pub open spec fn stream_gated(mix: u32, scale: u32, base: u32, eps: u64, pre: u32) -> bool {
    exists|l: u32, g: u32|
        #[trigger] logit_of(mix, scale, base, l) && #[trigger] logistic(l, g) && affine_gives(
            g,
            DOUBLE_ONE,
            eps,
            pre,
        )
}

/// The last position of a `[b, s, d]` tensor.
proof fn lemma_last_row(x: V, r: int)
    requires
        x.shape.len() == 3,
        x.data.len() == product(x.shape),
        x.shape[1] > 0,
        0 <= r < x.shape[0],
    ensures
        ({
            let (s, d) = (x.shape[1] as int, x.shape[2] as int);
            row_of(last_position(x).data, r, d) == row_of(x.data, r * s + (s - 1), d)
        }),
        last_position(x).data.len() == x.shape[0] * x.shape[2],
{
    let sh = x.shape;
    let (b, s, d) = (sh[0] as int, sh[1] as int, sh[2] as int);
    assert(sh =~= shape3(sh[0], sh[1], sh[2]));
    lemma_cube(sh[0], sh[1], sh[2]);
    assert(sh.take(1).drop_last() =~= Seq::<usize>::empty());
    assert(sh.take(1).last() == sh[0]);
    assert(sh.skip(2).drop_last() =~= Seq::<usize>::empty());
    assert(sh.skip(2).last() == sh[2]);
    reveal_with_fuel(product, 2);
    assert(outer(sh, 1) == 1 * (b as nat) && inner(sh, 1) == 1 * (d as nat));
    let y = last_position(x);
    assert((outer(sh, 1) * 1 * inner(sh, 1)) as nat == b * d) by (nonlinear_arith)
        requires
            outer(sh, 1) == b,
            inner(sh, 1) == d,
    ;
    let t = r * s + (s - 1);
    lemma_flat(r, s - 1, b, s);
    lemma_row_inside(r, b, d);
    lemma_row_inside(t, b * s, d);
    let (u, v) = (row_of(y.data, r, d), row_of(x.data, t, d));
    assert forall|c: int| 0 <= c < d implies u[c] == v[c] by {
        lemma_flat(r, c, b, d);
        assert(r / 1 == r && r % 1 == 0);
        assert((r * s + (s - 1) + 0) * d + c == t * d + c);
    }
    assert(u =~= v);
}

/// The head gives each sequence the logits of its last token.
pub proof fn law_logits_of_a_sequence(h: Head, x: V, y: V, z: Sizes, hc: usize, r: int)
    requires
        head_layout(h, z, hc),
        x.wf(),
        x.shape.len() == 4,
        x.shape[2] == hc,
        x.shape[3] == z.dim,
        x.shape[1] > 0,
        hc > 0,
        z.dim > 0,
        head_gives(h, x, y),
        0 <= r < x.shape[0],
    ensures
        exists|v: HeadValues|
            #[trigger] head_values(
                h,
                x,
                r,
                z.vocab as int,
                v,
                row_of(y.data, r, z.vocab as int),
            ),
{
    let (bu, su, du) = (x.shape[0], x.shape[1], x.shape[3]);
    let (b, s, k, d) = (bu as int, su as int, hc as int, du as int);
    let (collapsed, normed) = choose|collapsed: V, normed: V| head_steps(h, x, collapsed, normed, y);
    let u = choose|u: CollapseSteps| head_collapse_steps(h, x, u, collapsed);
    assert(x.shape =~= shape4(bu, su, hc, du));
    lemma_cube4(bu, su, hc, du);
    crate::shape::lemma_merged(x.shape, 0);
    crate::shape::lemma_merged(x.shape, 2);
    let n = b * s;
    let nu = (bu * su) as usize;
    let t = r * s + (s - 1);
    lemma_flat(r, s - 1, b, s);
    // the gates
    let flat = flat_streams(x);
    lemma_mix_shape(x, flat, h.hc_fn@, h.eps, u.mixes, nu, hc);
    assert(u.mixes.shape =~= shape2(nu, hc));
    lemma_grid(nu, hc);
    assert(u.mixes.data.len() == n * k);
    assert(u.scaled.data.len() == product(u.scaled.shape));
    lemma_row_inside(t, n, k);
    lemma_with_vector(Binary::Add, u.scaled, h.hc_base@, u.logits, t, 0);
    law_sigmoid_is_logistic(u.logits, u.gate, t * k);
    let pre = row_of(u.pre.data, t, k);
    assert forall|j: int| 0 <= j < k implies #[trigger] stream_gated(
        u.mixes.data[t * k + j],
        h.hc_scale@.data[0],
        h.hc_base@.data[j],
        h.hc_eps,
        pre[j],
    ) by {
        let e = t * k + j;
        lemma_with_vector(Binary::Add, u.scaled, h.hc_base@, u.logits, t, j);
        law_sigmoid_is_logistic(u.logits, u.gate, e);
        let (p, l, g, q) = (u.scaled.data[e], u.logits.data[e], u.gate.data[e], u.pre.data[e]);
        assert(affine_gives(u.mixes.data[e], u.scale, DOUBLE_ZERO, p));
        assert(logit_of(u.mixes.data[e], h.hc_scale@.data[0], h.hc_base@.data[j], l));
        assert(logistic(l, g));
    }
    // the collapsed stream
    lemma_collapsed_shape(x, u.pre, collapsed, bu, su, hc, du);
    lemma_row_inside(t, n, d);
    let one = row_of(collapsed.data, t, d);
    assert(lane(u.pre.data, k, 1, t, 0) =~= pre);
    assert forall|c: int| 0 <= c < d implies weighted_sum(
        pre,
        lane(x.data, k, d, t, c),
        #[trigger] one[c],
    ) by {
        law_streams_collapse(x, u.pre, collapsed, t, c);
    }
    // the norm and the logits
    lemma_cube(bu, su, du);
    assert(collapsed.shape.drop_last() =~= shape2(bu, su));
    lemma_grid(bu, su);
    law_rms_norm_levels(collapsed, Some(h.norm@), h.eps, normed, t);
    lemma_last_row(normed, r);
    let last = last_position(normed);
    assert(last.shape.drop_last().push(z.vocab) =~= shape2(bu, z.vocab));
    lemma_grid(bu, z.vocab);
    lemma_projected_row(last, h.weight@, y, b, d, z.vocab as int, r);
    let v = HeadValues { mixes: u.mixes, pre, collapsed: one, normed: row_of(normed.data, t, d) };
    assert(head_values(h, x, r, z.vocab as int, v, row_of(y.data, r, z.vocab as int)));
}

proof fn lemma_mix_shape(x: V, flat: V, w: V, eps: u64, y: V, n: usize, m: usize)
    requires
        mix_gives(flat, w, eps, y),
        flat.shape.len() == 2,
        flat.shape[0] == n,
        w.shape.len() == 2,
        w.shape[0] == m,
    ensures
        y.shape == shape2(n, m),
        y.data.len() == n * m,
{
    let t = choose|t: crate::mhc::MixSteps| crate::mhc::mix_steps(flat, w, eps, t, y);
    let r = t.raw.shape;
    assert(flat.shape.drop_last().push(m) =~= shape2(n, m));
    lemma_grid(n, m);
    assert(t.rms.shape =~= shape2(n, m).update(1, 1)) by {
        assert(flat.shape.update(1, 1) =~= shape2(n, m).update(1, 1));
    }
    crate::shape::lemma_broadcast_keepdim(r, 1);
}

proof fn lemma_collapsed_shape(x: V, pre: V, y: V, b: usize, s: usize, hc: usize, d: usize)
    requires
        collapse_gives(x, pre, y),
        x.wf(),
        x.shape == shape4(b, s, hc, d),
    ensures
        y.shape == shape3(b, s, d),
        y.data.len() == b * s * d,
{
    let (weighted, total) = choose|weighted: V, total: V|
        crate::mhc::collapse_steps(x, pre, weighted, total, y);
    let full = shape4(b, s, hc, d);
    crate::shape::lemma_expands_axes(shape4(b, s, hc, 1), full);
    crate::shape::lemma_broadcast_into(shape4(b, s, hc, 1), full);
    assert(full.take(2) =~= shape2(b, s));
    assert(full.skip(3).drop_last() =~= Seq::<usize>::empty());
    reveal_with_fuel(product, 2);
    lemma_grid(b, s);
    assert(1 * (d as nat) == d as nat);
    assert(full.update(2, 1).remove(2) =~= shape3(b, s, d));
}

} // verus!
