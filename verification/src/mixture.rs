//! What a mixture of experts makes of one token, element by element.

use vstd::prelude::*;

use crate::error::TensorError;
use crate::tensor::Tensor;

#[allow(unused_imports)]
use crate::bits::{agrees, ZERO};
#[allow(unused_imports)]
use crate::experts::{
    expert_row, law_expert_of_a_token, law_routing_of_a_token, routed_row, HiddenRow, RoutedRow,
};
#[allow(unused_imports)]
use crate::kernel::fadd;
#[allow(unused_imports)]
use crate::layout::moe_layout;
#[allow(unused_imports)]
use crate::moe::{expert_gives, moe_gives, Expert, Moe, MoeSteps};
#[allow(unused_imports)]
use crate::ops::added;
#[allow(unused_imports)]
use crate::shape::{lemma_grid, shape2};
#[allow(unused_imports)]
use crate::tensor::V;
#[allow(unused_imports)]
use crate::tokens::{
    law_moe_sums_its_experts, lemma_columns, lemma_piece, lemma_route, one_weight, piece, slot_adds,
    summed, token_sum, turn_of,
};

verus! {

/// The values of one token in a mixture: its routing, its sum before and after each expert, and the
/// shared expert's part.
pub struct MixtureRow {
    pub routed: RoutedRow,
    pub weights: Seq<u32>,
    pub indices: Seq<i64>,
    pub sums: Seq<Seq<u32>>,
    pub hidden: HiddenRow,
    pub shared: Seq<u32>,
}

/// Slot `j` of a token names expert `e`.
pub open spec fn slot_names(indices: Seq<i64>, j: int, e: int) -> bool {
    0 <= j < indices.len() && indices[j] == e
}

/// Slot `j` names expert `e`, which adds what it makes of the token with the weight of that slot.
pub open spec fn slot_gains(
    ex: Expert,
    x: Seq<u32>,
    dim: int,
    inter: int,
    v: MixtureRow,
    e: int,
    j: int,
    u: HiddenRow,
    y: Seq<u32>,
) -> bool {
    &&& slot_names(v.indices, j, e)
    &&& expert_row(ex, x, Some(v.weights[j]), dim, inter, u, y)
    &&& v.sums[e + 1].len() == dim
    &&& forall|c: int|
        0 <= c < dim ==> agrees(#[trigger] v.sums[e + 1][c], fadd(v.sums[e][c], y[c]))
}

/// Expert `e` adds to a token that one of its slots sends to it, and to no other.
pub open spec fn turn_at(
    m: Moe,
    x: Seq<u32>,
    dim: int,
    inter: int,
    v: MixtureRow,
    e: int,
) -> bool {
    if exists|j: int| #[trigger] slot_names(v.indices, j, e) {
        exists|j: int, u: HiddenRow, y: Seq<u32>| #[trigger]
            slot_gains(m.experts@[e], x, dim, inter, v, e, j, u, y)
    } else {
        v.sums[e + 1] == v.sums[e]
    }
}

/// What a mixture makes of one token: from zero, the experts in their order, then the shared expert.
pub open spec fn mixture_row(
    m: Moe,
    x: Seq<u32>,
    dim: int,
    inter: int,
    wide: int,
    v: MixtureRow,
    y: Seq<u32>,
) -> bool {
    let count = m.experts@.len() as int;
    &&& routed_row(
        m.gate,
        x,
        dim,
        count,
        m.gate.topk as int,
        v.routed,
        v.weights,
        v.indices,
    )
    &&& v.sums.len() == count + 1
    &&& v.sums[0].len() == dim
    &&& forall|c: int| 0 <= c < dim ==> #[trigger] v.sums[0][c] == ZERO
    &&& forall|e: int| 0 <= e < count ==> #[trigger] turn_at(m, x, dim, inter, v, e)
    &&& expert_row(m.shared, x, None, dim, wide, v.hidden, v.shared)
    &&& y.len() == dim
    &&& forall|c: int|
        0 <= c < dim ==> agrees(#[trigger] y[c], added(v.sums[count][c], v.shared[c]))
}

/// A mixture treats each token by its formula.
pub proof fn law_mixture_of_a_token(
    m: Moe,
    x: V,
    y: V,
    n: usize,
    dim: usize,
    inter: usize,
    wide: usize,
    t: int,
)
    requires
        moe_layout(m, dim, inter, wide),
        0 < m.experts@.len() <= usize::MAX,
        m.gate.bias matches Some(b) ==> b@.wf(),
        x.wf(),
        x.shape == shape2(n, dim),
        y.wf(),
        y.shape == shape2(n, dim),
        moe_gives(m, x, y),
        dim > 0,
        inter > 0,
        wide > 0,
        0 <= t < n,
    ensures
        exists|v: MixtureRow|
            #[trigger] mixture_row(
                m,
                x.data.subrange(t * dim, t * dim + dim),
                dim as int,
                inter as int,
                wide as int,
                v,
                y.data.subrange(t * dim, t * dim + dim),
            ),
{
    law_moe_sums_its_experts(m, x, y, n, dim, inter, wide, t);
    let (px, py) = (piece(x, 1, t), piece(y, 1, t));
    let s = choose|s: MoeSteps| token_sum(m, px, s, py);
    lemma_columns(x, t);
    lemma_columns(y, t);
    lemma_piece(x, 1, t);
    lemma_piece(y, 1, t);
    let count = m.experts@.len() as usize;
    let (d, k) = (dim as int, m.gate.topk as int);
    lemma_route(m.gate, px, s.weights, s.indices, 1, dim, count, 0);
    lemma_grid(1, m.gate.topk);
    lemma_grid(1, dim);
    law_routing_of_a_token(m.gate, px, s.weights, s.indices, 1, dim, count, 0);
    let row = px.data;
    assert(row == x.data.subrange(t * d, t * d + d));
    assert(row.subrange(0 * d, 0 * d + d) =~= row);
    assert(s.weights.data.subrange(0 * k, 0 * k + k) =~= s.weights.data);
    assert(s.indices.data.subrange(0 * k, 0 * k + k) =~= s.indices.data);
    let routed = choose|u: RoutedRow|
        #[trigger] routed_row(
            m.gate,
            row,
            d,
            count as int,
            k,
            u,
            s.weights.data,
            s.indices.data,
        );
    let hidden = lemma_alone(m.shared, px, None, s.shared, dim, wide);
    let v = MixtureRow {
        routed,
        weights: s.weights.data,
        indices: s.indices.data,
        sums: Seq::new(s.sums.len(), |e: int| s.sums[e].data),
        hidden,
        shared: s.shared.data,
    };
    lemma_sum_shapes(m, px, s, py, dim, count as int);
    assert forall|e: int| 0 <= e < count implies #[trigger] turn_at(
        m,
        row,
        d,
        inter as int,
        v,
        e,
    ) by {
        lemma_sum_shapes(m, px, s, py, dim, e);
        lemma_turn_at(m, px, s, v, dim, inter, e);
    }
    let out = py.data;
    let total = s.sums[count as int];
    assert(out == y.data.subrange(t * d, t * d + d));
    assert forall|c: int| 0 <= c < d implies agrees(
        #[trigger] out[c],
        added(v.sums[count as int][c], v.shared[c]),
    ) by {
        crate::shape::lemma_broadcast_self(shape2(1, dim));
        crate::tokens::lemma_source_self(shape2(1, dim), c);
        let w = py.data[c];
    }
    assert(mixture_row(m, row, d, inter as int, wide as int, v, out));
}

/// The partial sums are rows of the token's width.
proof fn lemma_sum_shapes(m: Moe, x: V, s: MoeSteps, y: V, dim: usize, e: int)
    requires
        token_sum(m, x, s, y),
        x.shape == shape2(1, dim),
        0 <= e <= m.experts@.len(),
    ensures
        s.sums[e].shape == shape2(1, dim),
        s.sums[e].data.len() == dim,
    decreases e,
{
    lemma_grid(1, dim);
    if e > 0 {
        lemma_sum_shapes(m, x, s, y, dim, e - 1);
        assert(turn_of(
            m.experts@[e - 1],
            x,
            s.weights,
            s.indices,
            e - 1,
            s.sums[e - 1],
            s.sums[e - 1 + 1],
        ));
    }
}

/// What an expert makes of a single token.
proof fn lemma_alone(ex: Expert, x: V, w: Option<V>, y: V, dim: usize, inter: usize) -> (u: HiddenRow)
    requires
        crate::layout::expert_layout(ex, dim, inter),
        x.wf(),
        x.shape == shape2(1, dim),
        w matches Some(v) ==> v.shape == shape2(1, 1),
        dim > 0,
        inter > 0,
        expert_gives(ex, x, w, y),
    ensures
        expert_row(
            ex,
            x.data,
            crate::experts::weight_of(w, 0),
            dim as int,
            inter as int,
            u,
            y.data,
        ),
        y.data.len() == dim,
        y.shape == shape2(1, dim),
{
    law_expert_of_a_token(ex, x, w, y, 1, dim, inter, 0);
    lemma_grid(1, dim);
    let d = dim as int;
    assert(x.data.subrange(0 * d, 0 * d + d) =~= x.data);
    assert(y.data.subrange(0 * d, 0 * d + d) =~= y.data);
    choose|u: HiddenRow|
        #[trigger] expert_row(
            ex,
            x.data,
            crate::experts::weight_of(w, 0),
            d,
            inter as int,
            u,
            y.data,
        )
}

/// The turn of one expert.
proof fn lemma_turn_at(m: Moe, x: V, s: MoeSteps, v: MixtureRow, dim: usize, inter: usize, e: int)
    requires
        0 <= e < m.experts@.len() <= i64::MAX,
        crate::layout::expert_layout(m.experts@[e], dim, inter),
        x.wf(),
        x.shape == shape2(1, dim),
        dim > 0,
        inter > 0,
        v.weights == s.weights.data,
        v.indices == s.indices.data,
        v.sums[e] == s.sums[e].data,
        v.sums[e + 1] == s.sums[e + 1].data,
        s.sums[e].data.len() == dim,
        turn_of(
            m.experts@[e],
            x,
            s.weights,
            s.indices,
            e,
            s.sums[e],
            s.sums[e + 1],
        ),
    ensures
        turn_at(m, x.data, dim as int, inter as int, v, e),
{
    let ex = m.experts@[e];
    if exists|j: int| #[trigger] slot_names(v.indices, j, e) {
        let j0 = choose|j: int| #[trigger] slot_names(v.indices, j, e);
        assert(s.indices.data[j0] == e as i64);
        assert(s.indices.data.contains(e as i64));
        let j = choose|j: int|
            0 <= j < s.indices.data.len() && s.indices.data[j] == e && #[trigger] slot_adds(
                ex,
                x,
                s.weights,
                j,
                s.sums[e],
                s.sums[e + 1],
            );
        let w = one_weight(s.weights.data[j]);
        let y = choose|y: V|
            #[trigger] expert_gives(ex, x, Some(w), y) && summed(s.sums[e], y, s.sums[e + 1]);
        let u = lemma_alone(ex, x, Some(w), y, dim, inter);
        assert(slot_names(v.indices, j, e));
        assert(w.data[0] == v.weights[j]);
        assert(slot_gains(ex, x.data, dim as int, inter as int, v, e, j, u, y.data));
    } else {
        if s.indices.data.contains(e as i64) {
            let j = choose|j: int|
                0 <= j < s.indices.data.len() && s.indices.data[j] == e as i64;
            assert(slot_names(v.indices, j, e));
        }
    }
}

/// A call of a mixture treats each token by its formula.
pub proof fn law_mixture_call(
    m: Moe,
    x: Tensor,
    y: Tensor,
    n: usize,
    dim: usize,
    inter: usize,
    wide: usize,
    t: int,
)
    requires
        call_ensures(Moe::forward, (&m, &x), Ok::<Tensor, TensorError>(y)),
        moe_layout(m, dim, inter, wide),
        0 < m.experts@.len() <= usize::MAX,
        m.gate.bias matches Some(b) ==> b@.wf(),
        x@.wf(),
        x@.shape == shape2(n, dim),
        y@.shape == shape2(n, dim),
        dim > 0,
        inter > 0,
        wide > 0,
        0 <= t < n,
    ensures
        exists|v: MixtureRow|
            #[trigger] mixture_row(
                m,
                x@.data.subrange(t * dim, t * dim + dim),
                dim as int,
                inter as int,
                wide as int,
                v,
                y@.data.subrange(t * dim, t * dim + dim),
            ),
{
    law_mixture_of_a_token(m, x@, y@, n, dim, inter, wide, t);
}

} // verus!
