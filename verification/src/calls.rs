//! Laws on calls: what a call gives back, in terms of what it was given.

use vstd::prelude::*;

use crate::error::TensorError;
use crate::model::TokenIds;
use crate::tensor::{Indices, Tensor};

#[allow(unused_imports)]
use crate::angles::{
    angle_entry, head_turned, law_columns_of_the_tables, law_heads_stand_at_positions,
    law_rotation_of_a_pair, law_table_rows, lemma_table_row, pair_frequency, turned_by, PairValues,
};
#[allow(unused_imports)]
use crate::attending::{attends_at, law_attention_of_a_query, QueryValues};
#[allow(unused_imports)]
use crate::attention::{
    causal_mask_of, listed, sdpa_with_sink, sparse_attn, sparse_mask_of, Mla, MlaSteps,
};
#[allow(unused_imports)]
use crate::block::Block;
#[allow(unused_imports)]
use crate::blocks::{
    block_ends, channels, compressor_input, law_compressed_block, pooled_channel, token_channel,
    BlockValues,
};
#[allow(unused_imports)]
use crate::elements::{lane, logistic, weighted_sum};
#[allow(unused_imports)]
use crate::experts::{
    expert_row, law_expert_of_a_token, law_routing_of_a_token, routed_row, slots_of, HiddenRow,
    RoutedRow,
};
#[allow(unused_imports)]
use crate::bits::{agrees, DOUBLE_ONE, DOUBLE_TWO, DOUBLE_ZERO, NEG_INFINITY, ZERO};
#[allow(unused_imports)]
use crate::heads::{law_layer_from_end_to_end, layer_input, row_of, turned_back};
#[allow(unused_imports)]
use crate::kernel::{affine_gives, fmul};
#[allow(unused_imports)]
use crate::layer::layer_inputs;
#[allow(unused_imports)]
use crate::layout::{
    expert_layout, gate_layout, head_layout, law_expert_layout, law_gate_layout, law_head_layout,
    Sizes,
};
#[allow(unused_imports)]
use crate::mhc::{hc_split_sinkhorn, mix_gives, split_gives, Hc};
#[allow(unused_imports)]
use crate::mixing::{
    law_gates_of_a_stream, law_matrix_of_a_split, law_mixer_parts, law_parts_follow_their_scales,
    law_streams_after_a_sublayer, law_streams_collapse, logit_of, mixing_of, split_room, Mixing,
};
#[allow(unused_imports)]
use crate::model::{Head, Transformer};
#[allow(unused_imports)]
use crate::moe::{Expert, Gate};
#[allow(unused_imports)]
use crate::nn::view_of;
#[allow(unused_imports)]
use crate::ops::added;
#[allow(unused_imports)]
use crate::rope::{rope_tail, rope_tail_at, rows_from, Rope, RopeView};
#[allow(unused_imports)]
use crate::selector::{law_selected_blocks, law_selector_query, selector_head, selector_input};
#[allow(unused_imports)]
use crate::shape::{fits, lemma_cube4, lemma_flat, product, shape2, shape3, shape4};
#[allow(unused_imports)]
use crate::sparse::{block_count, select_steps, selected, Compressor, Indexer, SelectSteps};
#[allow(unused_imports)]
use crate::stack::{
    head_values, law_logits_of_a_sequence, law_sublayers_in_turn, layer_values, HeadValues,
    LayerValues,
};
#[allow(unused_imports)]
use crate::tensor::{rows_looked_up, NdView, BLANK_ROW, V};
#[allow(unused_imports)]
use crate::topk::top_k_of;

verus! {

// --- positions ------------------------------------------------------------------------------

/// `Rope::new` fills column `i` of the tables from the frequency of pair `i` under the arguments.
pub proof fn law_new_tables(
    dim: usize,
    max_seq: usize,
    original: usize,
    base: u64,
    factor: u64,
    fast: u64,
    slow: u64,
    rope: Rope,
    i: int,
)
    requires
        call_ensures(
            Rope::new,
            (dim, max_seq, original, base, factor, fast, slow),
            Ok::<Rope, TensorError>(rope),
        ),
        0 < dim <= i64::MAX,
        0 <= i < dim / 2,
    ensures
        rope@.cos.shape == shape2(max_seq, dim / 2),
        rope@.sin.shape == shape2(max_seq, dim / 2),
        exists|v: PairValues, f: u64|
            {
                &&& #[trigger] pair_frequency(
                    dim as int,
                    original as int,
                    base,
                    factor,
                    fast,
                    slow,
                    i,
                    v,
                    f,
                )
                &&& forall|p: int|
                    0 <= p < max_seq ==> #[trigger] angle_entry(
                        p,
                        f,
                        rope@.cos.data[p * (dim / 2) + i],
                        rope@.sin.data[p * (dim / 2) + i],
                    )
            },
{
    let (ramp, freqs) = choose|ramp: Option<crate::rope::Ramp>, freqs: Seq<u64>|
        crate::rope::yarn_tables(
            dim,
            max_seq,
            original,
            base,
            factor,
            fast,
            slow,
            ramp,
            freqs,
            rope@,
        );
    law_columns_of_the_tables(
        dim,
        max_seq,
        original,
        base,
        factor,
        fast,
        slow,
        ramp,
        freqs,
        rope@,
        i,
    );
}

/// A rotation from `start` on turns pair `p` of token `i` by entry `p` of row `start + i` of the tables.
pub proof fn law_apply_turns(
    rope: Rope,
    x: Tensor,
    start: usize,
    inverse: bool,
    y: Tensor,
    a: int,
    i: int,
    c: int,
    p: int,
)
    requires
        call_ensures(Rope::apply, (&rope, &x, start, inverse), Ok::<Tensor, TensorError>(y)),
        x@.wf(),
        x@.shape.len() == 4,
        0 <= a < x@.shape[0],
        0 <= i < x@.shape[1],
        0 <= c < x@.shape[2],
        0 <= p,
        2 * p < x@.shape[3],
    ensures
        ({
            let (s, h, d) = (x@.shape[1] as int, x@.shape[2] as int, x@.shape[3] as int);
            let q = ((a * s + i) * h + c) * d + 2 * p;
            let k = (start + i) * (d / 2) + p;
            &&& 2 * rope@.cos.shape[1] == d
            &&& start + s <= rope@.cos.shape[0]
            &&& turned_by(
                x@.data[q],
                x@.data[q + 1],
                rope@.cos.data[k],
                rope@.sin.data[k],
                inverse,
                y@.data[q],
                y@.data[q + 1],
            )
        }),
{
    let (s, d) = (x@.shape[1] as int, x@.shape[3] as int);
    let k = rope@.cos.shape[1] as int;
    lemma_even(x@, a, i, c, p);
    assert(k == d / 2) by (nonlinear_arith)
        requires
            s * k == s * (d / 2),
            s > 0,
    ;
    law_rotation_of_a_pair(
        x@,
        rows_from(rope@.cos, start as int, s),
        rows_from(rope@.sin, start as int, s),
        inverse,
        y@,
        a,
        i,
        c,
        p,
    );
    law_table_rows(rope@.cos, start as int, s, Seq::<usize>::empty(), i, p);
    law_table_rows(rope@.sin, start as int, s, Seq::<usize>::empty(), i, p);
}

/// A tensor with an element is not empty.
proof fn lemma_even(x: V, a: int, i: int, c: int, p: int)
    requires
        x.wf(),
        x.shape.len() == 4,
        0 <= a < x.shape[0],
        0 <= i < x.shape[1],
        0 <= c < x.shape[2],
        0 <= p,
        2 * p < x.shape[3],
    ensures
        product(x.shape) > 0,
{
    let s = x.shape;
    assert(s =~= shape4(s[0], s[1], s[2], s[3]));
    lemma_cube4(s[0], s[1], s[2], s[3]);
    crate::shape::lemma_flat3(a, i, c, s[0] as int, s[1] as int, s[2] as int);
    lemma_flat((a * s[1] + i) * s[2] + c, 2 * p, s[0] * s[1] * s[2], s[3] as int);
}

/// A rotation at listed positions turns pair `p` of token `i` by entry `p` of row `positions[i]`.
pub proof fn law_apply_at_turns(
    rope: Rope,
    x: Tensor,
    positions: Vec<usize>,
    inverse: bool,
    y: Tensor,
    a: int,
    i: int,
    c: int,
    p: int,
)
    requires
        call_ensures(Rope::apply_at, (&rope, &x, &positions, inverse), Ok::<Tensor, TensorError>(y)),
        x@.wf(),
        x@.shape.len() == 4,
        positions@.len() == x@.shape[1],
        0 <= a < x@.shape[0],
        0 <= i < x@.shape[1],
        0 <= c < x@.shape[2],
        0 <= p,
        2 * p < x@.shape[3],
        positions@[i] != BLANK_ROW,
    ensures
        ({
            let (s, h, d) = (x@.shape[1] as int, x@.shape[2] as int, x@.shape[3] as int);
            let q = ((a * s + i) * h + c) * d + 2 * p;
            let k = positions@[i] * (d / 2) + p;
            &&& 2 * rope@.cos.shape[1] == d
            &&& positions@[i] < rope@.cos.shape[0]
            &&& turned_by(
                x@.data[q],
                x@.data[q + 1],
                rope@.cos.data[k],
                rope@.sin.data[k],
                inverse,
                y@.data[q],
                y@.data[q + 1],
            )
        }),
{
    let (s, d) = (x@.shape[1] as int, x@.shape[3] as int);
    let k = rope@.cos.shape[1] as int;
    lemma_even(x@, a, i, c, p);
    assert(k == d / 2) by (nonlinear_arith)
        requires
            s * k == s * (d / 2),
            s > 0,
    ;
    assert(positions@[i] < rope@.cos.shape[0]);
    law_rotation_of_a_pair(
        x@,
        rows_looked_up(rope@.cos, positions@).data,
        rows_looked_up(rope@.sin, positions@).data,
        inverse,
        y@,
        a,
        i,
        c,
        p,
    );
    law_table_rows(rope@.cos, 0, 0, positions@, i, p);
    law_table_rows(rope@.sin, 0, 0, positions@, i, p);
}

/// `rope_tail` puts each head at its token's position.
pub proof fn law_tail_call(
    rope: Rope,
    x: Tensor,
    start: usize,
    rd: usize,
    inverse: bool,
    y: Tensor,
    a: int,
    i: int,
    c: int,
)
    requires
        call_ensures(rope_tail, (&rope, &x, start, rd, inverse), Ok::<Tensor, TensorError>(y)),
        x@.wf(),
        x@.shape.len() == 4,
        0 < x@.shape[3],
        rd <= x@.shape[3],
        rd == 2 * rope@.cos.shape[1],
        0 <= a < x@.shape[0],
        0 <= i < x@.shape[1],
        0 <= c < x@.shape[2],
    ensures
        ({
            let (s, h, d) = (x@.shape[1] as int, x@.shape[2] as int, x@.shape[3] as int);
            let r = (a * s + i) * h + c;
            head_turned(
                row_of(x@.data, r, d),
                rope@,
                rd as int,
                start + i,
                inverse,
                row_of(y@.data, r, d),
            )
        }),
{
    let s = x@.shape[1] as int;
    lemma_table_row(rope@.cos, start as int, s, Seq::<usize>::empty(), i);
    lemma_table_row(rope@.sin, start as int, s, Seq::<usize>::empty(), i);
    law_heads_stand_at_positions(
        x@,
        rope@,
        rows_from(rope@.cos, start as int, s),
        rows_from(rope@.sin, start as int, s),
        rd,
        inverse,
        y@,
        a,
        i,
        c,
        start + i,
    );
}

/// `rope_tail_at` puts each head at its token's listed position.
pub proof fn law_tail_at_call(
    rope: Rope,
    x: Tensor,
    positions: Vec<usize>,
    rd: usize,
    y: Tensor,
    a: int,
    i: int,
    c: int,
)
    requires
        call_ensures(rope_tail_at, (&rope, &x, &positions, rd), Ok::<Tensor, TensorError>(y)),
        x@.wf(),
        x@.shape.len() == 4,
        0 < x@.shape[3],
        rd <= x@.shape[3],
        rd == 2 * rope@.cos.shape[1],
        positions@.len() == x@.shape[1],
        0 <= a < x@.shape[0],
        0 <= i < x@.shape[1],
        0 <= c < x@.shape[2],
        positions@[i] != BLANK_ROW,
    ensures
        ({
            let (s, h, d) = (x@.shape[1] as int, x@.shape[2] as int, x@.shape[3] as int);
            let r = (a * s + i) * h + c;
            head_turned(
                row_of(x@.data, r, d),
                rope@,
                rd as int,
                positions@[i] as int,
                false,
                row_of(y@.data, r, d),
            )
        }),
{
    assert(positions@[i] < rope@.cos.shape[0]);
    lemma_table_row(rope@.cos, 0, 0, positions@, i);
    lemma_table_row(rope@.sin, 0, 0, positions@, i);
    law_heads_stand_at_positions(
        x@,
        rope@,
        rows_looked_up(rope@.cos, positions@).data,
        rows_looked_up(rope@.sin, positions@).data,
        rd,
        false,
        y@,
        a,
        i,
        c,
        positions@[i] as int,
    );
}

// --- hyper-connections ----------------------------------------------------------------------

/// Two splits that differ in the scales only: each part of the one is one that the other may give,
/// wherever the part's own scale is the same.
pub proof fn law_split_calls(
    mixes: Tensor,
    base: Tensor,
    hc: usize,
    iters: usize,
    eps: u64,
    scale: Tensor,
    r: (Tensor, Tensor, Tensor),
    scale2: Tensor,
    r2: (Tensor, Tensor, Tensor),
)
    requires
        call_ensures(
            hc_split_sinkhorn,
            (&mixes, &scale, &base, hc, iters, eps),
            Ok::<(Tensor, Tensor, Tensor), TensorError>(r),
        ),
        call_ensures(
            hc_split_sinkhorn,
            (&mixes, &scale2, &base, hc, iters, eps),
            Ok::<(Tensor, Tensor, Tensor), TensorError>(r2),
        ),
    ensures
        scale@.data[0] == scale2@.data[0] ==> split_gives(
            mixes@,
            scale2@,
            base@,
            hc,
            iters,
            eps,
            r.0@,
            r2.1@,
            r2.2@,
        ),
        scale@.data[1] == scale2@.data[1] ==> split_gives(
            mixes@,
            scale2@,
            base@,
            hc,
            iters,
            eps,
            r2.0@,
            r.1@,
            r2.2@,
        ),
        scale@.data[2] == scale2@.data[2] ==> split_gives(
            mixes@,
            scale2@,
            base@,
            hc,
            iters,
            eps,
            r2.0@,
            r2.1@,
            r.2@,
        ),
{
    law_parts_follow_their_scales(
        mixes@,
        base@,
        hc,
        iters,
        eps,
        scale@,
        r.0@,
        r.1@,
        r.2@,
        scale2@,
        r2.0@,
        r2.1@,
        r2.2@,
    );
}

/// A split gives the first gates first, the second gates second, the matrices last: each by its own
/// columns and its own scale.
pub proof fn law_split_parts(
    mixes: Tensor,
    scale: Tensor,
    base: Tensor,
    hc: usize,
    iters: usize,
    eps: u64,
    r: (Tensor, Tensor, Tensor),
    t: int,
    k: int,
)
    requires
        call_ensures(
            hc_split_sinkhorn,
            (&mixes, &scale, &base, hc, iters, eps),
            Ok::<(Tensor, Tensor, Tensor), TensorError>(r),
        ),
        split_room(mixes@, base@, hc),
        0 <= t < mixes@.shape[0],
        0 <= k < hc,
    ensures
        exists|l: u32, g: u32|
            #[trigger] logit_of(
                mixes@.data[t * mixes@.shape[1] + k],
                scale@.data[0],
                base@.data[k],
                l,
            ) && #[trigger] logistic(l, g) && affine_gives(
                g,
                DOUBLE_ONE,
                eps,
                r.0@.data[t * hc + k],
            ),
        exists|l: u32, g: u32|
            #[trigger] logit_of(
                mixes@.data[t * mixes@.shape[1] + hc + k],
                scale@.data[1],
                base@.data[hc + k],
                l,
            ) && #[trigger] logistic(l, g) && affine_gives(
                g,
                DOUBLE_TWO,
                DOUBLE_ZERO,
                r.1@.data[t * hc + k],
            ),
        exists|u: Mixing|
            #[trigger] mixing_of(
                mixes@,
                scale@,
                base@,
                hc as int,
                iters as int,
                eps,
                u,
                r.2@.data,
            ),
{
    law_gates_of_a_stream(mixes@, scale@, base@, hc, iters, eps, r.0@, r.1@, r.2@, t, k);
    law_matrix_of_a_split(mixes@, scale@, base@, hc, iters, eps, r.0@, r.1@, r.2@);
}

/// The mixer in front of a sublayer. Its mixing vectors are those of the flattened streams; its second
/// result and its third are the second gates and the matrices of their split; its first is the sum of the
/// streams by the first gates.
pub proof fn law_pre_call(h: Hc, x: Tensor, r: (Tensor, Tensor, Tensor), t: int, c: int)
    requires
        call_ensures(Hc::pre, (&h, &x), Ok::<(Tensor, Tensor, Tensor), TensorError>(r)),
        x@.wf(),
        x@.shape.len() == 4,
        x@.shape[2] > 0,
        0 <= t < x@.shape[0] * x@.shape[1],
        0 <= c < x@.shape[3],
    ensures
        ({
            let (hc, d) = (x@.shape[2] as int, x@.shape[3] as int);
            exists|mixes: V, pre: V, post: V, comb: V|
                {
                    &&& #[trigger] mix_gives(
                        NdView {
                            shape: shape2(
                                (x@.shape[0] * x@.shape[1]) as usize,
                                (x@.shape[2] * x@.shape[3]) as usize,
                            ),
                            data: x@.data,
                        },
                        h.hc_fn@,
                        h.norm_eps,
                        mixes,
                    )
                    &&& #[trigger] split_gives(
                        mixes,
                        h.hc_scale@,
                        h.hc_base@,
                        h.hc,
                        h.sinkhorn_iters,
                        h.eps,
                        pre,
                        post,
                        comb,
                    )
                    &&& weighted_sum(
                        lane(pre.data, hc, 1, t, 0),
                        lane(x@.data, hc, d, t, c),
                        r.0@.data[t * d + c],
                    )
                    &&& r.1@.data == post.data
                    &&& r.2@.data == comb.data
                }
        }),
{
    law_mixer_parts(h, x@, r.0@, r.1@, r.2@);
    let (mixes, pre, post, comb) = choose|mixes: V, pre: V, post: V, comb: V|
        {
            &&& #[trigger] mix_gives(
                NdView {
                    shape: shape2(
                        (x@.shape[0] * x@.shape[1]) as usize,
                        (x@.shape[2] * x@.shape[3]) as usize,
                    ),
                    data: x@.data,
                },
                h.hc_fn@,
                h.norm_eps,
                mixes,
            )
            &&& #[trigger] split_gives(
                mixes,
                h.hc_scale@,
                h.hc_base@,
                h.hc,
                h.sinkhorn_iters,
                h.eps,
                pre,
                post,
                comb,
            )
            &&& crate::mhc::collapse_gives(x@, pre, r.0@)
            &&& r.1@.data == post.data
            &&& r.2@.data == comb.data
        };
    law_streams_collapse(x@, pre, r.0@, t, c);
}

/// The mixer behind a sublayer: stream `k` of a token is the sublayer's output times the stream's second
/// gate, plus the residual streams `j`, each times row `j` and column `k` of the matrix.
pub proof fn law_post_call(
    h: Hc,
    x: Tensor,
    residual: Tensor,
    post: Tensor,
    comb: Tensor,
    y: Tensor,
    t: int,
    k: int,
    c: int,
)
    requires
        call_ensures(
            Hc::post,
            (&h, &x, &residual, &post, &comb),
            Ok::<Tensor, TensorError>(y),
        ),
        x@.shape.len() == 3,
        0 <= t < x@.shape[0] * x@.shape[1],
        0 <= k < h.hc,
        0 <= c < x@.shape[2],
    ensures
        ({
            let (hc, d) = (h.hc as int, x@.shape[2] as int);
            exists|own: u32, total: u32|
                {
                    &&& agrees(own, fmul(post@.data[t * hc + k], x@.data[t * d + c]))
                    &&& weighted_sum(
                        lane(comb@.data, hc, hc, t, k),
                        lane(residual@.data, hc, d, t, c),
                        total,
                    )
                    &&& agrees(y@.data[(t * hc + k) * d + c], #[trigger] added(own, total))
                }
        }),
{
    law_streams_after_a_sublayer(h.hc, x@, residual@, post@, comb@, y@, t, k, c);
}

// --- experts --------------------------------------------------------------------------------

/// An expert of the documented shapes gives back a row for each token, by its formula.
pub proof fn law_expert_call(
    ex: Expert,
    x: Tensor,
    weights: Option<&Tensor>,
    r: Result<Tensor, TensorError>,
    n: usize,
    dim: usize,
    wide: usize,
    t: int,
)
    requires
        call_ensures(Expert::forward, (&ex, &x, weights), r),
        expert_layout(ex, dim, wide),
        x@.wf(),
        x@.shape == shape2(n, dim),
        weights matches Some(w) ==> w@.shape == shape2(n, 1),
        fits(shape2(n, wide)),
        dim > 0,
        wide > 0,
        0 <= t < n,
    ensures
        r is Ok,
        exists|u: HiddenRow|
            #[trigger] expert_row(
                ex,
                x@.data.subrange(t * dim, t * dim + dim),
                crate::experts::weight_of(view_of(weights), t),
                dim as int,
                wide as int,
                u,
                r.unwrap()@.data.subrange(t * dim, t * dim + dim),
            ),
{
    let shapes: Option<Seq<usize>> = match weights {
        Some(w) => Some(w@.shape),
        None => None,
    };
    law_expert_layout(ex, n, dim, wide, shapes);
    assert(crate::nn::shape_of(view_of(weights)) == shapes);
    law_expert_of_a_token(ex, x@, view_of(weights), r.unwrap()@, n, dim, wide, t);
}

/// A router of the documented shapes routes each token by its formula.
pub proof fn law_route_call(
    g: Gate,
    x: Tensor,
    r: Result<(Tensor, Indices), TensorError>,
    n: usize,
    dim: usize,
    count: usize,
    t: int,
)
    requires
        call_ensures(Gate::route, (&g, &x), r),
        gate_layout(g, dim, count),
        x@.wf(),
        x@.shape == shape2(n, dim),
        fits(shape2(n, count)),
        0 < count <= i64::MAX,
        dim > 0,
        0 <= t < n,
    ensures
        r is Ok,
        ({
            let k = slots_of(g, count);
            exists|u: RoutedRow|
                #[trigger] routed_row(
                    g,
                    x@.data.subrange(t * dim, t * dim + dim),
                    dim as int,
                    count as int,
                    k,
                    u,
                    r.unwrap().0@.data.subrange(t * k, t * k + k),
                    r.unwrap().1@.data.subrange(t * k, t * k + k),
                )
        }),
{
    law_gate_layout(g, n, dim, count);
    let p = r.unwrap();
    law_routing_of_a_token(g, x@, p.0@, p.1@, n, dim, count, t);
}

// --- compressed blocks ----------------------------------------------------------------------

/// A compressor gives back each block by its formula.
pub proof fn law_compress_call(
    m: Compressor,
    x: Tensor,
    rope: Rope,
    y: Tensor,
    blk: int,
)
    requires
        call_ensures(Compressor::compress, (&m, &x, &rope), Ok::<Tensor, TensorError>(y)),
        compressor_input(m, x@, rope@),
        0 <= blk < x@.shape[0] * (x@.shape[1] as int / m.compress_ratio as int),
    ensures
        ({
            let nb = x@.shape[1] as int / m.compress_ratio as int;
            let (r, d) = (m.compress_ratio as int, m.head_dim as int);
            let width = channels(m);
            exists|u: BlockValues|
                {
                    &&& forall|t: int, c: int|
                        0 <= t < x@.shape[0] * x@.shape[1] && 0 <= c < width
                            ==> #[trigger] token_channel(m, x@, width, r, u, t, c)
                    &&& forall|c: int|
                        0 <= c < d ==> #[trigger] pooled_channel(m, nb, u, blk, c)
                    &&& #[trigger] block_ends(m, rope@, nb, u, blk, y@.data)
                }
        }),
{
    law_compressed_block(m, x@, rope@, y@, blk);
}

/// What one query of a selection comes from: its own scores of the blocks, of which it lists the highest
/// among those that it sees.
pub open spec fn query_selects(
    ix: Indexer,
    x: V,
    qr: V,
    rope: RopeView,
    t: SelectSteps,
    out: Seq<i64>,
    a: int,
    i: int,
    best: Seq<usize>,
) -> bool {
    let s = x.shape[1] as int;
    let nb = s / ix.compress_ratio as int;
    let k = if ix.index_topk <= nb {
        ix.index_topk as int
    } else {
        nb
    };
    let p = a * s + i;
    &&& top_k_of(t.score.data.subrange(p * nb, p * nb + (i + 1) / ix.compress_ratio as int), k, best)
    &&& forall|j: int| 0 <= j < k && j < best.len() ==> #[trigger] out[p * k + j] == s + best[j]
    &&& forall|j: int| best.len() <= j < k ==> #[trigger] out[p * k + j] == -1
}

/// A selection lists, for each query, the visible blocks of its highest scores. The scores are those of
/// `t`: its queries stand at the positions of their tokens, and its keys are the selector's own blocks.
pub proof fn law_select_call(
    ix: Indexer,
    x: Tensor,
    qr: Tensor,
    rope: Rope,
    out: Indices,
    a: int,
    i: int,
    c: int,
)
    requires
        call_ensures(Indexer::select, (&ix, &x, &qr, &rope), Ok::<Indices, TensorError>(out)),
        selector_input(ix, x@, qr@, rope@),
        x@.shape[1] + x@.shape[1] <= i64::MAX,
        0 <= a < x@.shape[0],
        0 <= i < x@.shape[1],
        0 <= c < ix.n_heads,
    ensures
        exists|t: SelectSteps, flat: Seq<u32>, best: Seq<usize>|
            {
                &&& #[trigger] select_steps(ix, x@, qr@, rope@, t)
                &&& #[trigger] selector_head(ix, qr@, rope@, t.q, a, i, c, flat)
                &&& #[trigger] query_selects(ix, x@, qr@, rope@, t, out@.data, a, i, best)
            },
{
    let nb = block_count(x@.shape[1], ix.compress_ratio);
    let t = choose|t: SelectSteps|
        #[trigger] select_steps(ix, x@, qr@, rope@, t) && selected(
            t.score.data,
            x@.shape[0],
            x@.shape[1],
            nb,
            ix.compress_ratio,
            crate::sparse::kept_blocks(ix, x@.shape[1]),
            out@,
        );
    law_selector_query(ix, x@, qr@, rope@, t, a, i, c);
    let flat = choose|flat: Seq<u32>| #[trigger] selector_head(ix, qr@, rope@, t.q, a, i, c, flat);
    let s = x@.shape[1] as int;
    let r = ix.compress_ratio as int;
    assert(0 <= s / r <= s) by (nonlinear_arith)
        requires
            s >= 0,
            r > 0,
    ;
    let k = crate::sparse::kept_blocks(ix, x@.shape[1]);
    law_selected_blocks(
        t.score.data,
        x@.shape[0],
        x@.shape[1],
        nb,
        ix.compress_ratio,
        k,
        out@,
        a,
        i,
    );
    let p = a * s + i;
    let best = choose|best: Seq<usize>|
        {
            &&& #[trigger] top_k_of(
                t.score.data.subrange(p * nb, p * nb + (i + 1) / r),
                k as int,
                best,
            )
            &&& forall|j: int|
                0 <= j < k && j < best.len() ==> #[trigger] out@.data[p * k + j] == s + best[j]
            &&& forall|j: int| best.len() <= j < k ==> #[trigger] out@.data[p * k + j] == -1
        };
    assert(query_selects(ix, x@, qr@, rope@, t, out@.data, a, i, best));
}

// --- attention ------------------------------------------------------------------------------

/// Dense attention: each query attends by its formula; if causal, under a mask that is minus infinity
/// exactly at the keys that follow it.
pub proof fn law_dense_call(
    q: Tensor,
    kv: Tensor,
    sink: Tensor,
    scale: u64,
    causal: bool,
    o: Tensor,
    a: int,
    i: int,
    c: int,
)
    requires
        call_ensures(
            sdpa_with_sink,
            (&q, &kv, &sink, scale, causal),
            Ok::<Tensor, TensorError>(o),
        ),
        q@.wf(),
        kv@.wf(),
        q@.shape.len() == 4,
        kv@.shape == shape3(q@.shape[0], kv@.shape[1], q@.shape[3]),
        kv@.shape[1] > 0,
        q@.shape[3] > 0,
        0 <= a < q@.shape[0],
        0 <= i < q@.shape[1],
        0 <= c < q@.shape[2],
    ensures
        ({
            let (s, n) = (q@.shape[1] as int, kv@.shape[1] as int);
            let mask = dense_mask(q@.shape[1], kv@.shape[1], causal);
            &&& exists|u: QueryValues|
                #[trigger] attends_at(q@, kv@, sink@, scale, mask, o@, a, i, c, u)
            &&& causal ==> forall|j: int|
                0 <= j < n ==> #[trigger] crate::attending::mask_values(mask, a, i).unwrap()[j] == (if j > i
                    + (n - s) {
                    NEG_INFINITY
                } else {
                    ZERO
                })
        }),
{
    let (s, n) = (q@.shape[1], kv@.shape[1]);
    let mask = dense_mask(s, n, causal);
    if causal {
        lemma_open_mask(q@, s, n);
        crate::shape::lemma_cube4(1, 1, s, n);
        assert(1 * 1 * s * n == s * n) by (nonlinear_arith);
        assert forall|j: int| 0 <= j < n implies #[trigger] crate::attending::mask_values(
            mask,
            a,
            i,
        ).unwrap()[j] == (if j > i + (n - s) {
            NEG_INFINITY
        } else {
            ZERO
        }) by {
            lemma_flat(i, j, s as int, n as int);
            crate::heads::lemma_row_inside(i, s as int, n as int);
            assert(0 * s + i == i);
        }
    }
    law_attention_of_a_query(q@, kv@, sink@, scale, mask, o@, a, i, c);
}

/// The mask of dense attention, if there is one.
pub open spec fn dense_mask(s: usize, n: usize, causal: bool) -> Option<V> {
    if causal {
        Some(causal_mask_of(s, n))
    } else {
        None
    }
}

proof fn lemma_open_mask(q: V, s: usize, n: usize)
    requires
        q.shape.len() == 4,
    ensures
        fits(shape4(q.shape[0], q.shape[2], s, n)) ==> fits(shape4(1, 1, s, n)),
        fits(shape4(q.shape[0], q.shape[2], s, n)) ==> fits(shape4(q.shape[0], 1, s, n)),
{
    let full = shape4(q.shape[0], q.shape[2], s, n);
    crate::shape::lemma_span_update(full, 1, 1);
    assert(full.update(1, 1) =~= shape4(q.shape[0], 1, s, n));
    crate::shape::lemma_span_update(shape4(q.shape[0], 1, s, n), 0, 1);
    assert(shape4(q.shape[0], 1, s, n).update(0, 1) =~= shape4(1, 1, s, n));
}

/// Entry `t` of index row `p`, of `k` entries, names key `j`.
pub open spec fn names_key(idxs: Seq<i64>, k: int, p: int, t: int, j: int) -> bool {
    0 <= t < k && idxs[p * k + t] == j
}

/// A mask row is zero at key `j` if index row `p` names the key, and minus infinity if not.
pub open spec fn opened_by_name(mask: Seq<u32>, idxs: Seq<i64>, k: int, p: int, j: int) -> bool {
    mask[j] == (if exists|t: int| #[trigger] names_key(idxs, k, p, t, j) {
        ZERO
    } else {
        NEG_INFINITY
    })
}

/// Attention by key sets: each query attends by its formula, under a mask that is zero exactly at the
/// keys that its own index row names.
pub proof fn law_sparse_call(
    q: Tensor,
    kv: Tensor,
    sink: Tensor,
    idxs: Indices,
    scale: u64,
    o: Tensor,
    a: int,
    i: int,
    c: int,
)
    requires
        call_ensures(sparse_attn, (&q, &kv, &sink, &idxs, scale), Ok::<Tensor, TensorError>(o)),
        q@.wf(),
        kv@.wf(),
        q@.shape.len() == 4,
        kv@.shape == shape3(q@.shape[0], kv@.shape[1], q@.shape[3]),
        kv@.shape[1] > 0,
        q@.shape[3] > 0,
        0 <= a < q@.shape[0],
        0 <= i < q@.shape[1],
        0 <= c < q@.shape[2],
    ensures
        ({
            let (s, n, k) = (q@.shape[1] as int, kv@.shape[1] as int, idxs@.shape[2] as int);
            let p = a * s + i;
            let mask = Some(sparse_mask_of(q@.shape[0], q@.shape[1], kv@.shape[1], idxs@));
            &&& exists|u: QueryValues|
                #[trigger] attends_at(q@, kv@, sink@, scale, mask, o@, a, i, c, u)
            &&& forall|j: int|
                0 <= j < n ==> #[trigger] opened_by_name(
                    crate::attending::mask_values(mask, a, i).unwrap(),
                    idxs@.data,
                    k,
                    p,
                    j,
                )
        }),
{
    let (b, s, n) = (q@.shape[0], q@.shape[1], kv@.shape[1]);
    let m = sparse_mask_of(b, s, n, idxs@);
    let mask = Some(m);
    lemma_open_mask(q@, s, n);
    lemma_cube4(b, 1, s, n);
    assert(b * 1 * s * n == b * s * n) by (nonlinear_arith);
    law_attention_of_a_query(q@, kv@, sink@, scale, mask, o@, a, i, c);
    let p = a * s + i;
    let k = idxs@.shape[2] as int;
    lemma_flat(a, i, b as int, s as int);
    crate::heads::lemma_row_inside(p, b * s, n as int);
    let row = crate::attending::mask_values(mask, a, i).unwrap();
    assert forall|j: int| 0 <= j < n implies #[trigger] opened_by_name(
        row,
        idxs@.data,
        k,
        p,
        j,
    ) by {
        lemma_flat(p, j, b * s, n as int);
        if listed(idxs@, p, j) {
            let t = choose|t: int| 0 <= t < k && #[trigger] idxs@.data[p * idxs@.shape[2] + t] == j;
            assert(names_key(idxs@.data, k, p, t, j));
        } else {
            assert forall|t: int| !#[trigger] names_key(idxs@.data, k, p, t, j) by {
                let at = idxs@.data[p * idxs@.shape[2] + t];
            }
        }
        if b == 1 {
            assert(0 * s == 0 && a == 0);
        }
    }
}

/// An attention layer of the documented shapes gives back a row for each token: what the layer computes
/// from end to end, with the heads turned back, and the output projection of each token.
pub proof fn law_mla_call(
    m: Mla,
    x: Tensor,
    rope: Rope,
    start: usize,
    y: Tensor,
    qlr: usize,
)
    requires
        call_ensures(Mla::forward, (&m, &x, &rope, start), Ok::<Tensor, TensorError>(y)),
        layer_input(m, x@, rope@, start as int, qlr),
        layer_inputs(m, x@, x@, qlr),
    ensures
        exists|t: MlaSteps|
            {
                &&& crate::attention::query_gives(m, x@, rope@, start as int, t.qr, t.q)
                &&& crate::attention::latent_gives(m, x@, rope@, start as int, t.latent)
                &&& crate::attention::keys_give(m, x@, t.qr, rope@, t.latent, t.keys, t.idxs)
                &&& crate::attention::attn_gives(
                    t.q,
                    t.keys,
                    m.attn_sink@,
                    m.scale,
                    Some(sparse_mask_of(x@.shape[0], x@.shape[1], t.keys.shape[1], t.idxs)),
                    t.attended,
                )
                &&& #[trigger] turned_back(m, x@, rope@, start as int, t.attended, t.turned)
                &&& crate::attention::output_gives(m, t.turned, t.grouped, y@)
            },
{
    law_layer_from_end_to_end(m, x@, rope@, start as int, y@, qlr);
}

// --- the model ------------------------------------------------------------------------------

/// A decoder layer runs its two sublayers in turn on the streams that it is given.
pub proof fn law_block_call(k: Block, x: Tensor, rope: Rope, start: usize, y: Tensor)
    requires
        call_ensures(Block::forward, (&k, &x, &rope, start), Ok::<Tensor, TensorError>(y)),
    ensures
        exists|v: LayerValues| #[trigger] layer_values(k, x@, rope@, start as int, v, y@),
{
    law_sublayers_in_turn(k, x@, rope@, start as int, y@);
}

/// The head gives back the logits of the last token of each sequence.
pub proof fn law_head_call(
    h: Head,
    x: Tensor,
    r: Result<Tensor, TensorError>,
    z: Sizes,
    hc: usize,
    t: int,
)
    requires
        call_ensures(Head::forward, (&h, &x), r),
        head_layout(h, z, hc),
        x@.wf(),
        x@.shape.len() == 4,
        x@.shape[2] == hc,
        x@.shape[3] == z.dim,
        x@.shape[1] > 0,
        hc > 0,
        z.dim > 0,
        fits(shape2(x@.shape[0], z.vocab)),
        0 <= t < x@.shape[0],
    ensures
        r is Ok,
        exists|v: HeadValues|
            #[trigger] head_values(
                h,
                x@,
                t,
                z.vocab as int,
                v,
                row_of(r.unwrap()@.data, t, z.vocab as int),
            ),
{
    let s = x@.shape;
    assert(s =~= shape4(s[0], s[1], hc, z.dim));
    law_head_layout(h, s[0], s[1], z, hc);
    law_logits_of_a_sequence(h, x@, r.unwrap()@, z, hc, t);
}

/// The model runs its layers in order from the given position on, on the embedded tokens, and its head
/// on what the last layer leaves.
pub proof fn law_transformer_call(m: Transformer, ids: TokenIds, start: usize, y: Tensor)
    requires
        call_ensures(Transformer::forward, (&m, &ids, start), Ok::<Tensor, TensorError>(y)),
    ensures
        exists|states: Seq<V>|
            {
                &&& states.len() == m.layers@.len() + 1
                &&& states[0] == crate::model::embedded(m, ids@)
                &&& forall|i: int|
                    0 <= i < m.layers@.len() ==> #[trigger] crate::block::block_gives(
                        m.layers@[i],
                        states[i],
                        m.rope@,
                        start as int,
                        states[i + 1],
                    )
                &&& #[trigger] crate::model::head_gives(
                    m.head,
                    states[m.layers@.len() as int],
                    y@,
                )
            },
{
    crate::stack::law_layers_in_order(m, ids@, start as int, y@);
}

} // verus!
