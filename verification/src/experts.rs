//! What the router and the experts hold, element by element.

use vstd::prelude::*;

#[allow(unused_imports)]
use crate::bits::{
    agrees, double_less, double_negated, less, magnitude, negated, DOUBLE_ONE, DOUBLE_ZERO,
};
#[allow(unused_imports)]
use crate::elements::{
    lane, law_sigmoid_is_logistic, law_softmax_gives_shares, lemma_keepdim_at, lemma_linear_at,
    lemma_matrix_axes, lemma_reduced_at, lemma_source2, lemma_with_vector, logistic, shares,
};
#[allow(unused_imports)]
use crate::kernel::{
    affine_gives, clamp_gives, dot_gives, exp_gives, fdiv, fmul, fsqrt, greater, lesser, log_gives,
    minimum_gives, relu_gives, silu_gives, single, sum_gives,
};
#[allow(unused_imports)]
use crate::layout::{expert_layout, gate_layout};
#[allow(unused_imports)]
use crate::moe::{
    expert_gives, expert_steps, route_gives, route_steps, score_gives, slots_hold,
    sqrtsoftplus_steps, token_routed, Expert, ExpertSteps, Gate, RouteSteps, ScoreFunc,
    SoftplusSteps,
};
#[allow(unused_imports)]
use crate::ops::{added, combined, unary_gives, Binary, Reduce, Unary};
#[allow(unused_imports)]
use crate::shape::{lemma_flat, lemma_grid, shape2};
#[allow(unused_imports)]
use crate::tensor::{IndexView, V};
#[allow(unused_imports)]
use crate::topk::top_k_of;

verus! {

/// `r` is `x` held between two bounds: `x` itself where it lies between them, otherwise the bound that it
/// passes. A NaN stays.
pub open spec fn held_between(x: u32, lo: u32, hi: u32, r: u32) -> bool {
    &&& !less(hi, lo) ==> !less(r, lo) && !less(hi, r)
    &&& !less(x, lo) && !less(hi, x) ==> r == x
    &&& less(x, lo) && !less(hi, lo) ==> r == lo
    &&& !less(x, lo) && less(hi, x) ==> r == hi
}

/// `r` is `x` held below a bound: `x` itself where it does not pass the bound, otherwise the bound. A NaN
/// stays.
pub open spec fn held_below(x: u32, hi: u32, r: u32) -> bool {
    &&& !less(hi, r)
    &&& !less(hi, x) ==> r == x
    &&& less(hi, x) ==> r == hi
}

/// Both paths of an expert for one hidden element, after the clamp: the up path lies in `[-l, l]`, the
/// gating path is at most `l`. Without a positive limit they stay as they are.
pub open spec fn paths_held(limit: u64, gate: u32, up: u32, gate_held: u32, up_held: u32) -> bool {
    if double_less(DOUBLE_ZERO, limit) {
        &&& exists|lo: u32, hi: u32|
            agrees(lo, single(double_negated(limit))) && agrees(hi, single(limit))
                && #[trigger] held_between(up, lo, hi, up_held)
        &&& exists|hi: u32|
            agrees(hi, single(limit)) && #[trigger] held_below(gate, hi, gate_held)
    } else {
        gate_held == gate && up_held == up
    }
}

/// The hidden values of one token in an expert.
pub struct HiddenRow {
    pub gate: Seq<u32>,
    pub up: Seq<u32>,
    pub gate_held: Seq<u32>,
    pub up_held: Seq<u32>,
    pub lit: Seq<u32>,
    pub hidden: Seq<u32>,
    pub scaled: Seq<u32>,
}

/// Hidden element `j` of a token.
pub open spec fn hidden_at(
    ex: Expert,
    x: Seq<u32>,
    weight: Option<u32>,
    dim: int,
    u: HiddenRow,
    j: int,
) -> bool {
    &&& dot_gives(x, ex.w1@.data.subrange(j * dim, j * dim + dim), u.gate[j])
    &&& dot_gives(x, ex.w3@.data.subrange(j * dim, j * dim + dim), u.up[j])
    &&& paths_held(ex.swiglu_limit, u.gate[j], u.up[j], u.gate_held[j], u.up_held[j])
    &&& silu_gives(u.gate_held[j], u.lit[j])
    &&& agrees(u.hidden[j], fmul(u.lit[j], u.up_held[j]))
    &&& match weight {
        Some(w) => agrees(u.scaled[j], fmul(u.hidden[j], w)),
        None => u.scaled[j] == u.hidden[j],
    }
}

/// What an expert makes of one token: hidden element `j` is `silu(w1[j] · x) · (w3[j] · x)`, with both
/// factors held by the limit, times the routing weight; output element `o` is `w2[o]` times the hidden
/// row.
pub open spec fn expert_row(
    ex: Expert,
    x: Seq<u32>,
    weight: Option<u32>,
    dim: int,
    inter: int,
    u: HiddenRow,
    y: Seq<u32>,
) -> bool {
    &&& u.scaled.len() == inter
    &&& forall|j: int| 0 <= j < inter ==> #[trigger] hidden_at(ex, x, weight, dim, u, j)
    &&& y.len() == dim
    &&& forall|o: int|
        0 <= o < dim ==> dot_gives(
            u.scaled,
            ex.w2@.data.subrange(o * inter, o * inter + inter),
            #[trigger] y[o],
        )
}

/// The routing weight of token `r`.
pub open spec fn weight_of(weights: Option<V>, r: int) -> Option<u32> {
    match weights {
        Some(w) => Some(w.data[r]),
        None => None,
    }
}

/// A clamp holds a value between its bounds.
proof fn lemma_clamp(x: u32, lo: u64, hi: u64, r: u32)
    requires
        clamp_gives(x, lo, hi, r),
    ensures
        exists|l: u32, h: u32|
            agrees(l, single(lo)) && agrees(h, single(hi)) && #[trigger] held_between(x, l, h, r),
{
    let (l, h) = choose|l: u32, h: u32|
        agrees(l, single(lo)) && agrees(h, single(hi)) && r == #[trigger] lesser(greater(x, l), h);
    assert(held_between(x, l, h, r));
}

proof fn lemma_cap(x: u32, hi: u64, r: u32)
    requires
        minimum_gives(x, hi, r),
    ensures
        exists|h: u32| agrees(h, single(hi)) && #[trigger] held_below(x, h, r),
{
    let h = choose|h: u32| agrees(h, single(hi)) && r == #[trigger] lesser(x, h);
    assert(held_below(x, h, r));
}

/// An expert treats each token by its formula, with the activations held by the limit.
pub proof fn law_expert_of_a_token(
    ex: Expert,
    x: V,
    weights: Option<V>,
    y: V,
    n: usize,
    dim: usize,
    wide: usize,
    r: int,
)
    requires
        expert_layout(ex, dim, wide),
        x.wf(),
        x.shape == shape2(n, dim),
        weights matches Some(w) ==> w.shape == shape2(n, 1),
        dim > 0,
        wide > 0,
        expert_gives(ex, x, weights, y),
        0 <= r < n,
    ensures
        exists|u: HiddenRow|
            #[trigger] expert_row(
                ex,
                x.data.subrange(r * dim, r * dim + dim),
                weight_of(weights, r),
                dim as int,
                wide as int,
                u,
                y.data.subrange(r * dim, r * dim + dim),
            ),
        y.shape == shape2(n, dim),
        y.data.len() == n * dim,
{
    let t = choose|t: ExpertSteps| expert_steps(ex, x, weights, t, y);
    let (d, w) = (dim as int, wide as int);
    let s = shape2(n, wide);
    lemma_grid(n, dim);
    lemma_grid(n, wide);
    assert(x.shape.drop_last().push(wide) =~= s);
    assert(t.gate.shape =~= s && t.up.shape =~= s);
    let limit = ex.swiglu_limit;
    let (lo, hi) = (r * w, r * w + w);
    assert(0 <= r * w && r * w + w <= n * w) by (nonlinear_arith)
        requires
            0 <= r < n,
            w > 0,
    ;
    assert(0 <= r * d && r * d + d <= n * d) by (nonlinear_arith)
        requires
            0 <= r < n,
            d > 0,
    ;
    if let Some(v) = weights {
        assert(shape2(n, 1) =~= s.update(1, 1));
        crate::shape::lemma_broadcast_keepdim(s, 1);
    }
    assert(t.scaled.shape == s && t.scaled.data.len() == n * w);
    let u = HiddenRow {
        gate: t.gate.data.subrange(lo, hi),
        up: t.up.data.subrange(lo, hi),
        gate_held: t.gate_held.data.subrange(lo, hi),
        up_held: t.up_held.data.subrange(lo, hi),
        lit: t.lit.data.subrange(lo, hi),
        hidden: t.hidden.data.subrange(lo, hi),
        scaled: t.scaled.data.subrange(lo, hi),
    };
    let row = x.data.subrange(r * d, r * d + d);
    let weight = weight_of(weights, r);
    assert forall|j: int| 0 <= j < w implies #[trigger] hidden_at(ex, row, weight, d, u, j) by {
        let i = r * w + j;
        lemma_linear_at(x, ex.w1@, t.gate, r, j);
        lemma_linear_at(x, ex.w3@, t.up, r, j);
        let (a, b, c, e) = (t.gate_held.data[i], t.up_held.data[i], t.lit.data[i], t.hidden.data[i]);
        if double_less(DOUBLE_ZERO, limit) {
            assert(unary_gives(Unary::Clamp(double_negated(limit), limit), t.up.data[i], b));
            assert(unary_gives(Unary::Minimum(limit), t.gate.data[i], a));
            lemma_clamp(t.up.data[i], double_negated(limit), limit, b);
            lemma_cap(t.gate.data[i], limit, a);
        }
        if let Some(v) = weights {
            lemma_flat(r, j, n as int, w);
            lemma_source2(s, s, r, j);
            lemma_source2(shape2(n, 1), s, r, j);
            let z = t.scaled.data[i];
            assert(r * 1 + 0 == r);
        }
    }
    assert(y.shape =~= shape2(n, dim)) by {
        assert(s.drop_last().push(dim) =~= shape2(n, dim));
    }
    let out = y.data.subrange(r * d, r * d + d);
    assert forall|o: int| 0 <= o < d implies dot_gives(
        u.scaled,
        ex.w2@.data.subrange(o * w, o * w + w),
        #[trigger] out[o],
    ) by {
        lemma_linear_at(t.scaled, ex.w2@, y, r, o);
    }
    assert(u.scaled.len() == w);
    assert(out.len() == d);
    assert(expert_row(ex, row, weight, d, w, u, out));
}

// --- routing --------------------------------------------------------------------------------

/// `y = sqrt(max(x, 0) + ln(1 + e^-|x|))`.
pub open spec fn softplus_root(x: u32, y: u32) -> bool {
    exists|e: u32, d: u32, l: u32, p: u32, t: u32|
        {
            &&& #[trigger] exp_gives(negated(magnitude(x) as u32), e)
            &&& #[trigger] affine_gives(e, DOUBLE_ONE, DOUBLE_ONE, d)
            &&& #[trigger] log_gives(d, l)
            &&& #[trigger] relu_gives(x, p)
            &&& agrees(t, added(p, l))
            &&& agrees(y, #[trigger] fsqrt(t))
        }
}

/// The scores of a row of projections.
pub open spec fn scored(func: ScoreFunc, raw: Seq<u32>, scores: Seq<u32>) -> bool {
    &&& scores.len() == raw.len()
    &&& match func {
        ScoreFunc::Softmax => shares(raw, scores),
        ScoreFunc::Sigmoid => forall|i: int|
            0 <= i < raw.len() ==> logistic(raw[i], #[trigger] scores[i]),
        ScoreFunc::SqrtSoftplus => forall|i: int|
            0 <= i < raw.len() ==> softplus_root(raw[i], #[trigger] scores[i]),
    }
}

/// The routing of one token.
pub struct RoutedRow {
    pub raw: Seq<u32>,
    pub scores: Seq<u32>,
    pub biased: Seq<u32>,
    pub best: Seq<usize>,
    pub picked: Seq<u32>,
}

/// How one token is routed. Expert `e` is scored by `weight[e] · x`; the bias joins in for the choice of
/// the `k` highest only; slot `i` names the `i`-th of them and weighs it by its score before the bias,
/// divided by the sum of the chosen ones unless the scores are a softmax, times the route scale.
pub open spec fn routed_row(
    g: Gate,
    x: Seq<u32>,
    dim: int,
    count: int,
    k: int,
    u: RoutedRow,
    weights: Seq<u32>,
    indices: Seq<i64>,
) -> bool {
    &&& u.raw.len() == count
    &&& u.biased.len() == count
    &&& u.picked.len() == k
    &&& weights.len() == k
    &&& indices.len() == k
    &&& forall|e: int|
        0 <= e < count ==> dot_gives(
            x,
            g.weight@.data.subrange(e * dim, e * dim + dim),
            #[trigger] u.raw[e],
        )
    &&& scored(g.score_func, u.raw, u.scores)
    &&& forall|e: int|
        0 <= e < count ==> bias_joins(g, e, u.scores[e], #[trigger] u.biased[e])
    &&& top_k_of(u.biased, k, u.best)
    &&& forall|i: int| 0 <= i < k ==> #[trigger] indices[i] == u.best[i]
    &&& forall|i: int| 0 <= i < k ==> #[trigger] u.picked[i] == u.scores[u.best[i] as int]
    &&& if g.score_func == ScoreFunc::Softmax {
        forall|i: int|
            0 <= i < k ==> affine_gives(
                u.picked[i],
                g.route_scale,
                DOUBLE_ZERO,
                #[trigger] weights[i],
            )
    } else {
        exists|total: u32| #[trigger]
            sum_gives(u.picked, total) && shares_scaled(u.picked, total, g.route_scale, weights)
    }
}

/// The score of expert `e` with its bias, if there is one.
pub open spec fn bias_joins(g: Gate, e: int, score: u32, r: u32) -> bool {
    match g.bias {
        Some(b) => agrees(r, added(score, b@.data[e])),
        None => r == score,
    }
}

/// Each of the chosen scores over their sum, scaled.
pub open spec fn shares_scaled(picked: Seq<u32>, total: u32, scale: u64, weights: Seq<u32>) -> bool {
    forall|i: int|
        0 <= i < picked.len() ==> share_scaled(picked[i], total, scale, #[trigger] weights[i])
}

/// `w = p / total · scale`.
pub open spec fn share_scaled(p: u32, total: u32, scale: u64, w: u32) -> bool {
    exists|q: u32| agrees(q, fdiv(p, total)) && #[trigger] affine_gives(q, scale, DOUBLE_ZERO, w)
}

/// How many of `count` experts a token is routed to.
pub open spec fn slots_of(g: Gate, count: usize) -> int {
    if g.topk <= count {
        g.topk as int
    } else {
        count as int
    }
}

proof fn lemma_scores_of_row(func: ScoreFunc, raw: V, scores: V, n: usize, count: usize, r: int)
    requires
        score_gives(func, raw, scores),
        raw.wf(),
        raw.shape == shape2(n, count),
        count > 0,
        0 <= r < n,
    ensures
        scores.shape == raw.shape,
        scores.data.len() == raw.data.len(),
        scored(
            func,
            raw.data.subrange(r * count, r * count + count),
            scores.data.subrange(r * count, r * count + count),
        ),
{
    let e = count as int;
    let s = raw.shape;
    lemma_grid(n, count);
    assert(0 <= r * e && r * e + e <= n * e) by (nonlinear_arith)
        requires
            0 <= r < n,
            e > 0,
    ;
    let (row, out) = (raw.data.subrange(r * e, r * e + e), scores.data.subrange(r * e, r * e + e));
    match func {
        ScoreFunc::Softmax => {
            lemma_matrix_axes(s);
            law_softmax_gives_shares(1, raw, scores, r, 0);
            assert(lane(raw.data, e, 1, r, 0) =~= row);
            assert(lane(scores.data, e, 1, r, 0) =~= out);
        },
        ScoreFunc::Sigmoid => {
            law_sigmoid_is_logistic(raw, scores, r * e);
            assert forall|i: int| 0 <= i < e implies logistic(row[i], #[trigger] out[i]) by {
                law_sigmoid_is_logistic(raw, scores, r * e + i);
            }
        },
        ScoreFunc::SqrtSoftplus => {
            let t = choose|t: SoftplusSteps| sqrtsoftplus_steps(raw, t, scores);
            crate::shape::lemma_broadcast_self(s);
            assert forall|i: int| 0 <= i < e implies softplus_root(row[i], #[trigger] out[i]) by {
                let j = r * e + i;
                let x = raw.data[j];
                crate::tokens::lemma_source_self(s, j);
                let (a, b, c, d, l, p, v) = (
                    t.size.data[j],
                    t.negative.data[j],
                    t.power.data[j],
                    t.shifted.data[j],
                    t.log.data[j],
                    t.positive.data[j],
                    t.total.data[j],
                );
                let y = scores.data[j];
                assert(exp_gives(negated(magnitude(x) as u32), c));
                assert(affine_gives(c, DOUBLE_ONE, DOUBLE_ONE, d));
                assert(log_gives(d, l));
                assert(relu_gives(x, p));
                assert(agrees(v, added(p, l)));
                assert(agrees(y, fsqrt(v)));
            }
        },
    }
}

/// A token is routed by its formula.
pub proof fn law_routing_of_a_token(
    g: Gate,
    x: V,
    weights: V,
    indices: IndexView,
    n: usize,
    dim: usize,
    count: usize,
    r: int,
)
    requires
        gate_layout(g, dim, count),
        x.wf(),
        x.shape == shape2(n, dim),
        count <= i64::MAX,
        dim > 0,
        count > 0,
        route_gives(g, x, weights, indices),
        0 <= r < n,
    ensures
        ({
            let k = slots_of(g, count);
            exists|u: RoutedRow|
                #[trigger] routed_row(
                    g,
                    x.data.subrange(r * dim, r * dim + dim),
                    dim as int,
                    count as int,
                    k,
                    u,
                    weights.data.subrange(r * k, r * k + k),
                    indices.data.subrange(r * k, r * k + k),
                )
        }),
{
    let t = choose|t: RouteSteps| route_steps(g, x, t, weights, indices);
    let (d, e, k) = (dim as int, count as int, g.kept() as int);
    let s = shape2(n, count);
    lemma_grid(n, dim);
    lemma_grid(n, count);
    lemma_grid(n, g.kept());
    assert(x.shape.drop_last().push(count) =~= s);
    assert(t.raw.shape =~= s);
    assert(t.raw.wf());
    lemma_scores_of_row(g.score_func, t.raw, t.scores, n, count, r);
    assert(0 <= r * e && r * e + e <= n * e) by (nonlinear_arith)
        requires
            0 <= r < n,
            e > 0,
    ;
    assert(0 <= r * k && r * k + k <= n * k) by (nonlinear_arith)
        requires
            0 <= r < n,
            k >= 0,
    ;
    if let Some(b) = g.bias {
        lemma_with_vector(Binary::Add, t.scores, b@, t.biased, r, 0);
    }
    assert(token_routed(t.scores.data, t.biased.data, e, k, t.picked.data, indices.data, r));
    let best = choose|best: Seq<usize>|
        #[trigger] top_k_of(t.biased.data.subrange(r * e, r * e + e), k, best) && slots_hold(
            t.scores.data,
            e,
            k,
            t.picked.data,
            indices.data,
            r,
            best,
        );
    let u = RoutedRow {
        raw: t.raw.data.subrange(r * e, r * e + e),
        scores: t.scores.data.subrange(r * e, r * e + e),
        biased: t.biased.data.subrange(r * e, r * e + e),
        best,
        picked: t.picked.data.subrange(r * k, r * k + k),
    };
    let row = x.data.subrange(r * d, r * d + d);
    let (w, ids) = (weights.data.subrange(r * k, r * k + k), indices.data.subrange(r * k, r * k + k));
    assert forall|c: int| 0 <= c < e implies dot_gives(
        row,
        g.weight@.data.subrange(c * d, c * d + d),
        #[trigger] u.raw[c],
    ) by {
        lemma_linear_at(x, g.weight@, t.raw, r, c);
    }
    assert forall|c: int| 0 <= c < e implies bias_joins(
        g,
        c,
        u.scores[c],
        #[trigger] u.biased[c],
    ) by {
        if let Some(b) = g.bias {
            lemma_with_vector(Binary::Add, t.scores, b@, t.biased, r, c);
        }
    }
    assert forall|i: int| 0 <= i < k implies #[trigger] ids[i] == u.best[i] by {
        assert(best[i] < e);
        assert(indices.data[r * k + i] == best[i] as i64);
    }
    assert forall|i: int| 0 <= i < k implies #[trigger] u.picked[i] == u.scores[u.best[i] as int] by {
        assert(best[i] < e);
        assert(t.picked.data[r * k + i] == t.scores.data[r * e + best[i]]);
    }
    if g.score_func == ScoreFunc::Softmax {
        assert forall|i: int| 0 <= i < k implies affine_gives(
            u.picked[i],
            g.route_scale,
            DOUBLE_ZERO,
            #[trigger] w[i],
        ) by {
            let v = weights.data[r * k + i];
        }
    } else {
        let p = t.picked.shape;
        lemma_matrix_axes(p);
        crate::shape::lemma_broadcast_keepdim(p, 1);
        lemma_reduced_at(Reduce::Sum, 1, t.picked, t.total, r, 0);
        let total = t.total.data[r * 1 + 0];
        assert(lane(t.picked.data, k, 1, r, 0) =~= u.picked);
        assert(t.picked.wf()) by {
            crate::shape::lemma_product_le_span(p);
            lemma_picked_fits(t, p, n, g.kept());
        }
        assert forall|i: int| 0 <= i < k implies share_scaled(
            u.picked[i],
            total,
            g.route_scale,
            #[trigger] w[i],
        ) by {
            lemma_keepdim_at(Binary::Div, t.picked, t.total, t.shared, 1, r, i, 0);
            let j = (r * k + i) * 1 + 0;
            assert(j == r * k + i);
            let (q, v) = (t.shared.data[j], weights.data[j]);
            assert(affine_gives(q, g.route_scale, DOUBLE_ZERO, w[i]));
        }
        assert(sum_gives(u.picked, total) && shares_scaled(u.picked, total, g.route_scale, w));
    }
    assert(u.picked.len() == k && w.len() == k && ids.len() == k);
    assert(scored(g.score_func, u.raw, u.scores));
    assert(k == slots_of(g, count));
    assert(top_k_of(u.biased, k, u.best));
    assert(routed_row(g, row, d, e, k, u, w, ids));
}

proof fn lemma_picked_fits(t: RouteSteps, p: Seq<usize>, n: usize, k: usize)
    requires
        p == shape2(n, k),
        combined(Binary::Div, t.picked, t.total, t.shared),
        t.picked.shape == p,
        t.total.shape == p.update(1, 1),
    ensures
        crate::shape::fits(p),
{
    crate::shape::lemma_broadcast_keepdim(p, 1);
}

} // verus!
