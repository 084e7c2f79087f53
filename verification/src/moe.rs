//! Mixture of experts: the routing gate, the SwiGLU experts, and their combination.
//!
//! Each token is routed to the experts of its highest scores, plus one shared expert that sees every
//! token. A per-expert bias shifts the selection only: the routing weights are taken from the
//! scores without it.

use vstd::prelude::*;

use crate::bits::{double_lower, double_negate, DOUBLE_ONE, DOUBLE_ZERO, ZERO};
use crate::error::TensorError;
use crate::kernel;
use crate::nn::{sigmoid, softmax_dim};
use crate::ops;
use crate::shape::{axes2, count};
use crate::tensor::{Indices, Tensor};
use crate::topk::top_k;

#[allow(unused_imports)]
use crate::bits::{agrees, double_less, double_negated};
#[allow(unused_imports)]
use crate::kernel::fadd;
#[allow(unused_imports)]
use crate::nn::{shape_of, sigmoid_gives, softmax_gives, view_of};
#[allow(unused_imports)]
use crate::ops::{
    combined, combined_shape, linear_gives, linear_shape, mapped, paired, reduced, Binary, Reduce,
    Unary,
};
#[allow(unused_imports)]
use crate::shape::{
    lemma_broadcast_expands, lemma_broadcast_keepdim, lemma_broadcast_positive,
    lemma_broadcast_self, lemma_divide, lemma_expands_product, lemma_flat, lemma_grid, product,
    shape2,
};
#[allow(unused_imports)]
use crate::tensor::{rows_picked, IndexView, NdView, V};
#[allow(unused_imports)]
use crate::topk::top_k_of;

verus! {

/// How the router scores an expert. Only `Softmax` leaves the selected weights as they are; the others
/// are renormalised to sum one.
#[derive(Debug, Clone, Copy, PartialEq, Eq, Structural)]
pub enum ScoreFunc {
    SqrtSoftplus,
    Softmax,
    Sigmoid,
}

/// The tensors between input and output of `sqrt(softplus(x))`.
pub struct SoftplusSteps {
    pub size: V,
    pub negative: V,
    pub power: V,
    pub shifted: V,
    pub log: V,
    pub positive: V,
    pub total: V,
}

/// `y = sqrt(relu(x) + ln(1 + e^-|x|))`.
pub open spec fn sqrtsoftplus_steps(x: V, t: SoftplusSteps, y: V) -> bool {
    &&& mapped(Unary::Abs, x, t.size)
    &&& mapped(Unary::Neg, t.size, t.negative)
    &&& mapped(Unary::Exp, t.negative, t.power)
    &&& mapped(Unary::Affine(DOUBLE_ONE, DOUBLE_ONE), t.power, t.shifted)
    &&& mapped(Unary::Log, t.shifted, t.log)
    &&& mapped(Unary::Relu, x, t.positive)
    &&& combined(Binary::Add, t.positive, t.log, t.total)
    &&& mapped(Unary::Sqrt, t.total, y)
}

pub open spec fn sqrtsoftplus_gives(x: V, y: V) -> bool {
    exists|t: SoftplusSteps| sqrtsoftplus_steps(x, t, y)
}

/// `sqrt(softplus(x))` in the form that does not overflow.
fn sqrtsoftplus(x: &Tensor) -> (r: Result<Tensor, TensorError>)
    ensures
        r is Ok,
        r matches Ok(y) ==> y@.wf() && y@.shape == x@.shape && sqrtsoftplus_gives(x@, y@),
{
    let _ = x.rank();
    let size = ops::abs(x);
    let negative = ops::neg(&size);
    let power = ops::exp(&negative);
    let shifted = ops::affine(&power, DOUBLE_ONE, DOUBLE_ONE);
    let log = ops::log(&shifted);
    let positive = ops::relu(x);
    proof {
        lemma_broadcast_self(x@.shape);
    }
    let total = ops::broadcast_add(&positive, &log)?;
    let y = ops::sqrt(&total);
    assert(sqrtsoftplus_steps(
        x@,
        SoftplusSteps {
            size: size@,
            negative: negative@,
            power: power@,
            shifted: shifted@,
            log: log@,
            positive: positive@,
            total: total@,
        },
        y@,
    ));
    Ok(y)
}

/// The scores of a raw projection.
pub open spec fn score_gives(func: ScoreFunc, raw: V, scores: V) -> bool {
    match func {
        ScoreFunc::SqrtSoftplus => sqrtsoftplus_gives(raw, scores),
        ScoreFunc::Softmax => softmax_gives(raw.shape.len() - 1, raw, scores),
        ScoreFunc::Sigmoid => sigmoid_gives(raw, scores),
    }
}

/// The routing gate.
pub struct Gate {
    /// `[n_routed_experts, dim]`: the scoring projection.
    pub weight: Tensor,
    /// `[n_routed_experts]`: added to the scores for the selection only.
    pub bias: Option<Tensor>,
    /// How many experts each token keeps.
    pub topk: usize,
    pub route_scale: u64,
    pub score_func: ScoreFunc,
}

impl Gate {
    /// A bias is not empty while there are experts.
    pub open spec fn wf(self) -> bool {
        self.bias matches Some(b) ==> (self.weight@.shape.len() == 2 && self.weight@.shape[0] > 0
            ==> product(b@.shape) > 0)
    }

    /// The number of experts that the router scores.
    pub open spec fn experts(self) -> usize {
        self.weight@.shape[0]
    }

    /// How many experts are selected per token.
    pub open spec fn kept(self) -> usize {
        if self.topk <= self.experts() {
            self.topk
        } else {
            self.experts()
        }
    }
}

/// Whether a `[n, dim]` input can be routed.
pub open spec fn route_ok(g: Gate, x: Seq<usize>) -> bool {
    let scores = linear_shape(x, g.weight@.shape);
    &&& x.len() == 2
    &&& scores is Some
    &&& g.score_func == ScoreFunc::Softmax ==> product(scores.unwrap()) > 0
    &&& g.bias matches Some(b) ==> combined_shape(scores.unwrap(), b@.shape) is Some
    &&& g.experts() <= i64::MAX
}

/// Token `r` is routed to the experts of its `k` highest biased scores, each with its score before
/// the bias.
pub open spec fn token_routed(
    scores: Seq<u32>,
    biased: Seq<u32>,
    e: int,
    k: int,
    picked: Seq<u32>,
    indices: Seq<i64>,
    r: int,
) -> bool {
    exists|best: Seq<usize>|
        #[trigger] top_k_of(biased.subrange(r * e, r * e + e), k, best) && slots_hold(
            scores,
            e,
            k,
            picked,
            indices,
            r,
            best,
        )
}

/// The slots of token `r` hold the listed experts and their scores.
pub open spec fn slots_hold(
    scores: Seq<u32>,
    e: int,
    k: int,
    picked: Seq<u32>,
    indices: Seq<i64>,
    r: int,
    best: Seq<usize>,
) -> bool {
    forall|t: int|
        #![trigger indices[r * k + t]]
        #![trigger picked[r * k + t]]
        0 <= t < k ==> indices[r * k + t] == best[t] as i64 && picked[r * k + t] == scores[r * e
            + best[t]]
}

/// The tensors between input and output of the router.
pub struct RouteSteps {
    pub raw: V,
    pub scores: V,
    pub biased: V,
    pub picked: V,
    pub total: V,
    pub shared: V,
}

/// Scores, biased selection, and the selected scores without bias, renormalised unless they are a
/// softmax, times the route scale.
pub open spec fn route_steps(g: Gate, x: V, t: RouteSteps, weights: V, indices: IndexView) -> bool {
    let (n, e, k) = (x.shape[0], g.experts(), g.kept());
    &&& linear_gives(x, g.weight@, t.raw)
    &&& score_gives(g.score_func, t.raw, t.scores)
    &&& match g.bias {
        Some(b) => combined(Binary::Add, t.scores, b@, t.biased),
        None => t.biased == t.scores,
    }
    &&& t.biased.data.len() >= n * e
    &&& t.picked.shape == shape2(n, k)
    &&& t.picked.data.len() == n * k
    &&& indices.shape == shape2(n, k)
    &&& indices.data.len() == n * k
    &&& forall|r: int|
        0 <= r < n ==> #[trigger] token_routed(
            t.scores.data,
            t.biased.data,
            e as int,
            k as int,
            t.picked.data,
            indices.data,
            r,
        )
    &&& if g.score_func == ScoreFunc::Softmax {
        mapped(Unary::Affine(g.route_scale, DOUBLE_ZERO), t.picked, weights)
    } else {
        &&& reduced(Reduce::Sum, 1, t.picked, t.total)
        &&& combined(Binary::Div, t.picked, t.total, t.shared)
        &&& mapped(Unary::Affine(g.route_scale, DOUBLE_ZERO), t.shared, weights)
    }
}

pub open spec fn route_gives(g: Gate, x: V, weights: V, indices: IndexView) -> bool {
    exists|t: RouteSteps| route_steps(g, x, t, weights, indices)
}

/// Selects the experts of every token: for each of `n` rows of `e` biased scores, the `k` highest.
pub fn pick_experts(scores: &Vec<u32>, biased: &Vec<u32>, n: usize, e: usize, k: usize) -> (r: (
    Vec<u32>,
    Vec<i64>,
))
    requires
        k <= e <= i64::MAX,
        scores@.len() == n * e,
        biased@.len() >= n * e,
    ensures
        r.0@.len() == n * k,
        r.1@.len() == n * k,
        forall|i: int|
            0 <= i < n ==> #[trigger] token_routed(
                scores@,
                biased@,
                e as int,
                k as int,
                r.0@,
                r.1@,
                i,
            ),
{
    let (stored, offered): (usize, usize) = (scores.len(), biased.len());
    let mut wv: Vec<u32> = Vec::new();
    let mut iv: Vec<i64> = Vec::new();
    let mut i: usize = 0;
    while i < n
        invariant
            k <= e <= i64::MAX,
            scores@.len() == n * e,
            scores@.len() == stored,
            biased@.len() >= n * e,
            biased@.len() == offered,
            i <= n,
            wv@.len() == i * k,
            iv@.len() == i * k,
            forall|u: int|
                0 <= u < i ==> #[trigger] token_routed(
                    scores@,
                    biased@,
                    e as int,
                    k as int,
                    wv@,
                    iv@,
                    u,
                ),
        decreases n - i,
    {
        proof {
            assert(0 <= i * e && i * e + e <= n * e) by (nonlinear_arith)
                requires
                    i + 1 <= n,
                    e >= 0,
            ;
            assert(i * k + k == (i + 1) * k) by (nonlinear_arith);
        }
        let base: usize = i * e;
        let best = top_k(biased, base, e, k);
        let ghost (wv0, iv0) = (wv@, iv@);
        let mut t: usize = 0;
        while t < k
            invariant
                k <= e <= i64::MAX,
                best@.len() == k,
                forall|a: int| 0 <= a < k ==> #[trigger] best@[a] < e,
                base == i * e,
                base + e <= stored,
                scores@.len() == stored,
                t <= k,
                wv0.len() == i * k,
                iv0.len() == i * k,
                wv@.len() == i * k + t,
                iv@.len() == i * k + t,
                wv0 == wv@.take(i * k),
                iv0 == iv@.take(i * k),
                forall|u: int|
                    #![trigger iv@[i * k + u]]
                    #![trigger wv@[i * k + u]]
                    0 <= u < t ==> iv@[i * k + u] == best@[u] as i64 && wv@[i * k + u] == scores@[i
                        * e + best@[u]],
            decreases k - t,
        {
            let j: usize = best[t];
            let ghost (pw, pi) = (wv@, iv@);
            iv.push(j as i64);
            wv.push(scores[base + j]);
            t = t + 1;
            assert(wv@.take(i * k) =~= pw.take(i * k));
            assert(iv@.take(i * k) =~= pi.take(i * k));
        }
        proof {
            assert(slots_hold(scores@, e as int, k as int, wv@, iv@, i as int, best@));
            assert(top_k_of(biased@.subrange(i * e, i * e + e), k as int, best@));
            assert(token_routed(scores@, biased@, e as int, k as int, wv@, iv@, i as int));
            assert forall|u: int| 0 <= u < i implies #[trigger] token_routed(
                scores@,
                biased@,
                e as int,
                k as int,
                wv@,
                iv@,
                u,
            ) by {
                assert(token_routed(scores@, biased@, e as int, k as int, wv0, iv0, u));
                let b = choose|b: Seq<usize>|
                    #[trigger] top_k_of(biased@.subrange(u * e, u * e + e), k as int, b)
                        && slots_hold(scores@, e as int, k as int, wv0, iv0, u, b);
                assert forall|t: int|
                    #![trigger iv@[u * k + t]]
                    #![trigger wv@[u * k + t]]
                    0 <= t < k implies iv@[u * k + t] == b[t] as i64 && wv@[u * k + t] == scores@[u
                    * e + b[t]] by {
                    lemma_flat(u, t, i as int, k as int);
                    assert(iv0[u * k + t] == iv@[u * k + t]);
                    assert(wv0[u * k + t] == wv@[u * k + t]);
                }
                assert(slots_hold(scores@, e as int, k as int, wv@, iv@, u, b));
            }
        }
        i = i + 1;
    }
    (wv, iv)
}

impl Gate {
    /// `x` (`[n, dim]`) to the routing weights and the expert indices, `[n, min(topk, experts)]`
    /// each, ordered by descending biased score.
    pub fn route(&self, x: &Tensor) -> (r: Result<(Tensor, Indices), TensorError>)
        requires
            self.wf(),
            x@.shape.len() > 0,
        ensures
            r is Ok <==> route_ok(*self, x@.shape),
            r matches Ok(p) ==> {
                &&& p.0@.wf()
                &&& p.1@.wf()
                &&& p.0@.shape == shape2(x@.shape[0], self.kept())
                &&& p.1@.shape == shape2(x@.shape[0], self.kept())
                &&& route_gives(*self, x@, p.0@, p.1@)
            },
            r matches Err(e) ==> e == TensorError::Shape,
    {
        let raw = ops::linear(x, &self.weight)?;
        let rank: usize = raw.rank();
        let scores = match self.score_func {
            ScoreFunc::SqrtSoftplus => sqrtsoftplus(&raw)?,
            ScoreFunc::Softmax => softmax_dim(&raw, rank - 1)?,
            ScoreFunc::Sigmoid => sigmoid(&raw),
        };
        let biased = match &self.bias {
            Some(b) => ops::broadcast_add(&scores, b)?,
            None => scores.duplicate(),
        };
        let (n, e) = scores.dims2()?;
        if e as u64 > i64::MAX as u64 {
            return Err(TensorError::Shape);
        }
        let k: usize = if self.topk <= e {
            self.topk
        } else {
            e
        };
        proof {
            assert(raw@.shape[1] == self.weight@.shape[0]);
            lemma_grid(n, e);
            lemma_enough_biased(*self, scores@.shape, n, e);
            crate::shape::lemma_span_update(scores@.shape, 1, k);
            assert(scores@.shape.update(1, k) =~= shape2(n, k));
            lemma_grid(n, k);
        }
        let (wv, iv) = pick_experts(scores.data(), biased.data(), n, e, k);
        let picked = Tensor::new(axes2(n, k), wv)?;
        let indices = Indices::new(axes2(n, k), iv)?;
        let softmax: bool = match self.score_func {
            ScoreFunc::Softmax => true,
            _ => false,
        };
        if softmax {
            let weights = ops::affine(&picked, self.route_scale, DOUBLE_ZERO);
            proof {
                let t = RouteSteps {
                    raw: raw@,
                    scores: scores@,
                    biased: biased@,
                    picked: picked@,
                    total: picked@,
                    shared: picked@,
                };
                assert(route_steps(*self, x@, t, weights@, indices@));
            }
            Ok((weights, indices))
        } else {
            let total = ops::sum_keepdim(&picked, 1)?;
            proof {
                lemma_broadcast_keepdim(picked@.shape, 1);
            }
            let shared = ops::broadcast_div(&picked, &total)?;
            let weights = ops::affine(&shared, self.route_scale, DOUBLE_ZERO);
            proof {
                let t = RouteSteps {
                    raw: raw@,
                    scores: scores@,
                    biased: biased@,
                    picked: picked@,
                    total: total@,
                    shared: shared@,
                };
                assert(route_steps(*self, x@, t, weights@, indices@));
            }
            Ok((weights, indices))
        }
    }
}

/// A bias leaves at least one biased score per score.
proof fn lemma_enough_biased(g: Gate, scores: Seq<usize>, n: usize, e: usize)
    requires
        g.wf(),
        scores == shape2(n, e),
        g.weight@.shape.len() == 2,
        e == g.weight@.shape[0],
        g.bias matches Some(b) ==> combined_shape(scores, b@.shape) is Some,
    ensures
        g.bias matches Some(b) ==> product(combined_shape(scores, b@.shape).unwrap()) >= n * e,
{
    lemma_grid(n, e);
    match g.bias {
        Some(b) => {
            if n * e > 0 {
                assert(e > 0) by (nonlinear_arith)
                    requires
                        n * e > 0,
                        e >= 0,
                ;
                lemma_broadcast_positive(scores, b@.shape);
                lemma_broadcast_expands(scores, b@.shape);
                lemma_expands_product(scores, combined_shape(scores, b@.shape).unwrap());
            }
        },
        None => {},
    }
}

// --- experts --------------------------------------------------------------------------------

/// One expert, a SwiGLU network: `w2 · (silu(w1 · x) * (w3 · x))`. A positive `swiglu_limit` clamps
/// the up path on both sides and the gating path from above.
pub struct Expert {
    /// `[inter_dim, dim]`: the gating path.
    pub w1: Tensor,
    /// `[dim, inter_dim]`: the way down.
    pub w2: Tensor,
    /// `[inter_dim, dim]`: the up path.
    pub w3: Tensor,
    /// The clamp; zero disables it.
    pub swiglu_limit: u64,
}

/// The shape of an expert's output.
pub open spec fn expert_shape(ex: Expert, x: Seq<usize>, weights: Option<Seq<usize>>) -> Option<
    Seq<usize>,
> {
    let gate = linear_shape(x, ex.w1@.shape);
    let up = linear_shape(x, ex.w3@.shape);
    if gate is Some && up == gate {
        match weights {
            Some(w) => match combined_shape(gate.unwrap(), w) {
                Some(h) => linear_shape(h, ex.w2@.shape),
                None => None,
            },
            None => linear_shape(gate.unwrap(), ex.w2@.shape),
        }
    } else {
        None
    }
}

/// The tensors between input and output of an expert.
pub struct ExpertSteps {
    pub gate: V,
    pub up: V,
    pub gate_held: V,
    pub up_held: V,
    pub lit: V,
    pub hidden: V,
    pub scaled: V,
}

pub open spec fn expert_steps(
    ex: Expert,
    x: V,
    weights: Option<V>,
    t: ExpertSteps,
    y: V,
) -> bool {
    let l = ex.swiglu_limit;
    &&& linear_gives(x, ex.w1@, t.gate)
    &&& linear_gives(x, ex.w3@, t.up)
    &&& if double_less(DOUBLE_ZERO, l) {
        &&& mapped(Unary::Clamp(double_negated(l), l), t.up, t.up_held)
        &&& mapped(Unary::Minimum(l), t.gate, t.gate_held)
    } else {
        t.up_held == t.up && t.gate_held == t.gate
    }
    &&& mapped(Unary::Silu, t.gate_held, t.lit)
    &&& paired(Binary::Mul, t.lit, t.up_held, t.hidden)
    &&& match weights {
        Some(w) => combined(Binary::Mul, t.hidden, w, t.scaled),
        None => t.scaled == t.hidden,
    }
    &&& linear_gives(t.scaled, ex.w2@, y)
}

pub open spec fn expert_gives(ex: Expert, x: V, weights: Option<V>, y: V) -> bool {
    exists|t: ExpertSteps| expert_steps(ex, x, weights, t, y)
}

impl Expert {
    /// `x` (`[n, dim]`) to `[n, dim]`. `weights`, if given, is `[n, 1]` and scales each token's hidden
    /// activations before the way down.
    pub fn forward(&self, x: &Tensor, weights: Option<&Tensor>) -> (r: Result<Tensor, TensorError>)
        requires
            x@.shape.len() > 0,
        ensures
            r is Ok <==> expert_shape(*self, x@.shape, shape_of(view_of(weights))) is Some,
            r matches Ok(y) ==> y@.wf() && Some(y@.shape) == expert_shape(
                *self,
                x@.shape,
                shape_of(view_of(weights)),
            ) && expert_gives(*self, x@, view_of(weights), y@),
            r matches Err(e) ==> e == TensorError::Shape,
    {
        let gate = ops::linear(x, &self.w1)?;
        let up = ops::linear(x, &self.w3)?;
        let l: u64 = self.swiglu_limit;
        let limited: bool = double_lower(DOUBLE_ZERO, l);
        let up_held = if limited {
            ops::clamp(&up, double_negate(l), l)
        } else {
            up.duplicate()
        };
        let gate_held = if limited {
            ops::minimum(&gate, l)
        } else {
            gate.duplicate()
        };
        let lit = ops::silu(&gate_held);
        let hidden = ops::same_mul(&lit, &up_held)?;
        let scaled = match weights {
            Some(w) => {
                let h = ops::broadcast_mul(&hidden, w)?;
                proof {
                    crate::shape::lemma_broadcast_len(hidden@.shape, w@.shape);
                }
                h
            },
            None => hidden.duplicate(),
        };
        let y = ops::linear(&scaled, &self.w2)?;
        proof {
            let t = ExpertSteps {
                gate: gate@,
                up: up@,
                gate_held: gate_held@,
                up_held: up_held@,
                lit: lit@,
                hidden: hidden@,
                scaled: scaled@,
            };
            assert(expert_steps(*self, x@, view_of(weights), t, y@));
        }
        Ok(y)
    }
}

// --- the layer ------------------------------------------------------------------------------

/// A mixture-of-experts layer: a gate, the routed experts, and one shared expert.
pub struct Moe {
    pub gate: Gate,
    /// The routed experts, by the router's indices.
    pub experts: Vec<Expert>,
    /// The shared expert, which sees every token without a routing weight.
    pub shared: Expert,
}

impl Moe {
    /// The router selects no more experts than it scores.
    pub open spec fn wf(self) -> bool {
        &&& self.gate.wf()
        &&& self.gate.weight@.shape.len() == 2 ==> self.gate.topk <= self.gate.experts()
    }
}

/// The slots below `m` that are routed to expert `e`, in order.
pub open spec fn hits(indices: Seq<i64>, e: int, m: int) -> Seq<int>
    decreases m,
{
    if m <= 0 {
        Seq::empty()
    } else {
        let rest = hits(indices, e, m - 1);
        if indices[m - 1] == e {
            rest.push(m - 1)
        } else {
            rest
        }
    }
}

/// The tokens of a list of slots.
pub open spec fn tokens_of(slots: Seq<int>, topk: int) -> Seq<usize> {
    slots.map_values(|p: int| (p / topk) as usize)
}

/// The routing weights of a list of slots, as a column.
pub open spec fn column_of(slots: Seq<int>, weights: Seq<u32>) -> V {
    NdView {
        shape: shape2(slots.len() as usize, 1),
        data: slots.map_values(|p: int| weights[p]),
    }
}

/// Rows `rows` of a table gain the rows of `extra`; the others stay.
pub open spec fn rows_added(before: V, rows: Seq<usize>, extra: V, after: V) -> bool {
    let width = before.shape[1] as int;
    &&& after.shape == before.shape
    &&& after.data.len() == before.data.len()
    &&& forall|i: int|
        0 <= i < before.data.len() && !rows.contains((i / width) as usize) ==> #[trigger] after.data[i]
            == before.data[i]
    &&& forall|q: int, j: int|
        0 <= q < rows.len() && 0 <= j < width ==> agrees(
            after.data[rows[q] * width + j],
            #[trigger] fadd(before.data[rows[q] * width + j], extra.data[q * width + j]),
        )
}

/// The expert maps `r` weighted tokens of width `dim` to as many.
pub open spec fn expert_fits(ex: Expert, r: usize, dim: usize) -> bool {
    expert_shape(ex, shape2(r, dim), Some(shape2(r, 1))) == Some(shape2(r, dim))
}

/// Expert `e` runs on the tokens that are routed to it, weighted, and its output is added to their
/// rows.
pub open spec fn expert_adds(
    ex: Expert,
    x: V,
    weights: V,
    indices: IndexView,
    topk: int,
    e: int,
    before: V,
    after: V,
) -> bool {
    let slots = hits(indices.data, e, indices.data.len() as int);
    let rows = tokens_of(slots, topk);
    if slots.len() == 0 {
        after == before
    } else {
        &&& expert_fits(ex, slots.len() as usize, x.shape[1])
        &&& exists|y: V|
            #[trigger] expert_gives(
                ex,
                rows_picked(x, rows),
                Some(column_of(slots, weights.data)),
                y,
            ) && rows_added(before, rows, y, after)
    }
}

/// A table of zeros.
pub open spec fn zero_rows(n: usize, dim: usize) -> V {
    NdView { shape: shape2(n, dim), data: Seq::new((n * dim) as nat, |i: int| ZERO) }
}

/// What the layer computes between input and output: the routing, the partial sums after each
/// expert, and the shared expert's output.
pub struct MoeSteps {
    pub weights: V,
    pub indices: IndexView,
    pub sums: Seq<V>,
    pub shared: V,
}

pub open spec fn moe_steps(m: Moe, x: V, t: MoeSteps, y: V) -> bool {
    let count = m.experts@.len();
    &&& route_gives(m.gate, x, t.weights, t.indices)
    &&& t.sums.len() == count + 1
    &&& t.sums[0] == zero_rows(x.shape[0], x.shape[1])
    &&& forall|e: int|
        0 <= e < count ==> #[trigger] expert_adds(
            m.experts@[e],
            x,
            t.weights,
            t.indices,
            m.gate.topk as int,
            e,
            t.sums[e],
            t.sums[e + 1],
        )
    &&& expert_gives(m.shared, x, None, t.shared)
    &&& combined(Binary::Add, t.sums[count as int], t.shared, y)
}

pub open spec fn moe_gives(m: Moe, x: V, y: V) -> bool {
    exists|t: MoeSteps| moe_steps(m, x, t, y)
}

/// The shape of the layer's output, if the routing and the shared expert succeed.
pub open spec fn moe_shape(m: Moe, x: Seq<usize>) -> Option<Seq<usize>> {
    if x.len() == 2 && route_ok(m.gate, x) {
        match expert_shape(m.shared, x, None) {
            Some(s) => combined_shape(x, s),
            None => None,
        }
    } else {
        None
    }
}

/// Some routing sends tokens to an expert that cannot take them.
pub open spec fn moe_blocked(m: Moe, x: V) -> bool {
    exists|weights: V, indices: IndexView, e: int|
        #[trigger] route_gives(m.gate, x, weights, indices) && 0 <= e < m.experts@.len() && {
            let r = #[trigger] hits(indices.data, e, indices.data.len() as int).len();
            r > 0 && !expert_fits(m.experts@[e], r as usize, x.shape[1])
        }
}

/// Every listed slot is below the bound and routed to the expert; the slots ascend.
pub proof fn lemma_hits(indices: Seq<i64>, e: int, m: int)
    requires
        0 <= m <= indices.len(),
    ensures
        hits(indices, e, m).len() <= m,
        forall|i: int|
            0 <= i < hits(indices, e, m).len() ==> 0 <= #[trigger] hits(indices, e, m)[i] < m
                && indices[hits(indices, e, m)[i]] == e,
        forall|i: int, j: int|
            0 <= i < j < hits(indices, e, m).len() ==> #[trigger] hits(indices, e, m)[i]
                < #[trigger] hits(indices, e, m)[j],
    decreases m,
{
    if m > 0 {
        lemma_hits(indices, e, m - 1);
    }
}

/// Every slot of the routing is dispatched to exactly the expert that it names.
pub proof fn law_slots_are_dispatched_once(indices: Seq<i64>, e: int, m: int, p: int)
    requires
        0 <= m <= indices.len(),
    ensures
        hits(indices, e, m).contains(p) <==> 0 <= p < m && indices[p] == e,
    decreases m,
{
    if m > 0 {
        law_slots_are_dispatched_once(indices, e, m - 1, p);
        let rest = hits(indices, e, m - 1);
        let all = hits(indices, e, m);
        if all.contains(p) {
            let i = choose|i: int| 0 <= i < all.len() && all[i] == p;
            if i < rest.len() {
                assert(rest[i] == p);
            }
        }
        if rest.contains(p) {
            let i = choose|i: int| 0 <= i < rest.len() && rest[i] == p;
            assert(all[i] == p);
        }
        if p == m - 1 && indices[p] == e {
            assert(all[rest.len() as int] == p);
        }
    }
}

/// The experts of one token are distinct positions among the scored ones, and each routing weight is
/// taken from the score without the bias.
pub proof fn law_routing(
    g: Gate,
    x: V,
    t: RouteSteps,
    weights: V,
    indices: IndexView,
    r: int,
    i: int,
    j: int,
)
    requires
        route_steps(g, x, t, weights, indices),
        g.experts() <= i64::MAX,
        0 <= r < x.shape[0],
        0 <= i < g.kept(),
        0 <= j < g.kept(),
    ensures
        ({
            let k = g.kept() as int;
            let e = g.experts() as int;
            let a = indices.data[r * k + i];
            &&& 0 <= a < e
            &&& t.picked.data[r * k + i] == t.scores.data[r * e + a]
            &&& i != j ==> a != indices.data[r * k + j]
        }),
{
    let k = g.kept() as int;
    let e = g.experts() as int;
    let n = x.shape[0] as int;
    let (sc, bi, pk, ix) = (t.scores.data, t.biased.data, t.picked.data, indices.data);
    assert(token_routed(sc, bi, e, k, pk, ix, r));
    lemma_token(sc, bi, n, e, k, pk, ix, r, i, j);
}

/// Two slots of one token name different experts.
proof fn lemma_token(
    scores: Seq<u32>,
    biased: Seq<u32>,
    n: int,
    e: int,
    k: int,
    picked: Seq<u32>,
    indices: Seq<i64>,
    r: int,
    i: int,
    j: int,
)
    requires
        token_routed(scores, biased, e, k, picked, indices, r),
        0 <= k <= e <= i64::MAX,
        0 <= r < n,
        biased.len() >= n * e,
        0 <= i < k,
        0 <= j < k,
    ensures
        0 <= indices[r * k + i] < e,
        picked[r * k + i] == scores[r * e + indices[r * k + i]],
        i != j ==> indices[r * k + i] != indices[r * k + j],
{
    assert(0 <= r * e && r * e + e <= n * e) by (nonlinear_arith)
        requires
            0 <= r,
            r + 1 <= n,
            e >= 0,
    ;
    let sub = biased.subrange(r * e, r * e + e);
    let best = choose|best: Seq<usize>|
        #[trigger] top_k_of(sub, k, best) && slots_hold(
            scores,
            e,
            k,
            picked,
            indices,
            r,
            best,
        );
    assert(indices[r * k + i] == best[i] as i64);
    assert(indices[r * k + j] == best[j] as i64);
    if i < j {
        assert(best[i] != best[j]);
    } else if j < i {
        assert(best[j] != best[i]);
    }
}

/// The tokens of one expert are distinct.
pub proof fn lemma_tokens_distinct(g: Gate, x: V, weights: V, indices: IndexView, e: int, p: int, q: int)
    requires
        route_gives(g, x, weights, indices),
        g.experts() <= i64::MAX,
        g.topk == g.kept(),
        ({
            let slots = hits(indices.data, e, indices.data.len() as int);
            0 <= p < q < slots.len()
        }),
    ensures
        ({
            let slots = hits(indices.data, e, indices.data.len() as int);
            let rows = tokens_of(slots, g.topk as int);
            &&& rows[p] != rows[q]
            &&& rows[p] < x.shape[0]
            &&& rows[q] < x.shape[0]
        }),
{
    let t = choose|t: RouteSteps| route_steps(g, x, t, weights, indices);
    let slots = hits(indices.data, e, indices.data.len() as int);
    let rows = tokens_of(slots, g.topk as int);
    let k = g.topk as int;
    let n = x.shape[0] as int;
    lemma_hits(indices.data, e, indices.data.len() as int);
    let (a, b) = (slots[p], slots[q]);
    assert(a < b);
    lemma_divide(a, n, k);
    lemma_divide(b, n, k);
    assert(rows[p] == a / k);
    assert(rows[q] == b / k);
    if a / k == b / k {
        law_routing(g, x, t, weights, indices, a / k, a % k, b % k);
    }
}

/// The slots of expert `e`: their tokens and their weights.
fn gather(wv: &Vec<u32>, iv: &Vec<i64>, topk: usize, n: usize, e: usize) -> (r: (
    Vec<usize>,
    Vec<u32>,
))
    requires
        wv@.len() == n * topk,
        iv@.len() == n * topk,
        e <= i64::MAX,
    ensures
        r.0@ == tokens_of(hits(iv@, e as int, iv@.len() as int), topk as int),
        r.1@ == column_of(hits(iv@, e as int, iv@.len() as int), wv@).data,
{
    let total: usize = iv.len();
    let mut rows: Vec<usize> = Vec::new();
    let mut ws: Vec<u32> = Vec::new();
    let mut p: usize = 0;
    assert(rows@ =~= tokens_of(hits(iv@, e as int, 0), topk as int));
    assert(ws@ =~= column_of(hits(iv@, e as int, 0), wv@).data);
    while p < total
        invariant
            total == iv@.len(),
            wv@.len() == n * topk,
            iv@.len() == n * topk,
            e <= i64::MAX,
            p <= total,
            rows@ == tokens_of(hits(iv@, e as int, p as int), topk as int),
            ws@ == column_of(hits(iv@, e as int, p as int), wv@).data,
        decreases total - p,
    {
        proof {
            lemma_divide(p as int, n as int, topk as int);
        }
        let ghost before = hits(iv@, e as int, p as int);
        if iv[p] == e as i64 {
            rows.push(p / topk);
            ws.push(wv[p]);
            proof {
                let after = hits(iv@, e as int, p + 1);
                assert(after == before.push(p as int));
                assert(rows@ =~= tokens_of(after, topk as int));
                assert(ws@ =~= column_of(after, wv@).data);
            }
        }
        p = p + 1;
    }
    (rows, ws)
}

/// Runs one expert on its tokens and adds the result to their rows.
fn run_expert(
    ex: &Expert,
    x: &Tensor,
    rows: &Vec<usize>,
    ws: Vec<u32>,
    y: &Tensor,
) -> (r: Result<Tensor, TensorError>)
    requires
        x@.shape.len() == 2,
        y@.shape == x@.shape,
        rows@.len() > 0,
        rows@.len() == ws@.len(),
        forall|q: int| 0 <= q < rows@.len() ==> rows@[q] < x@.shape[0],
        forall|p: int, q: int| 0 <= p < q < rows@.len() ==> rows@[p] != rows@[q],
    ensures
        r is Ok <==> expert_fits(*ex, rows@.len() as usize, x@.shape[1]),
        r matches Ok(z) ==> {
            &&& z@.wf()
            &&& z@.shape == y@.shape
            &&& exists|out: V|
                #[trigger] expert_gives(
                    *ex,
                    rows_picked(x@, rows@),
                    Some(NdView { shape: shape2(rows@.len() as usize, 1), data: ws@ }),
                    out,
                ) && rows_added(y@, rows@, out, z@)
        },
        r matches Err(e) ==> e == TensorError::Shape,
{
    let (n, dim) = x.dims2()?;
    let _ = y.rank();
    let count: usize = rows.len();
    assert(crate::tensor::rows_inside(x@.shape, rows@));
    proof {
        assert(x@.shape.update(0, count) =~= shape2(count, dim));
        lemma_grid(count, 1);
    }
    let picked = x.pick_rows(rows)?;
    let column = Tensor::new(axes2(count, 1), ws)?;
    let out = ex.forward(&picked, Some(&column))?;
    let (out_rows, out_width) = out.dims2()?;
    if out_rows != count || out_width != dim {
        proof {
            assert(out@.shape[0] == out_rows && out@.shape[1] == out_width);
            assert(shape2(count, dim)[0] == count && shape2(count, dim)[1] == dim);
        }
        return Err(TensorError::Shape);
    }
    proof {
        lemma_grid(n, dim);
        lemma_grid(count, dim);
        assert(product(y@.shape) == n * dim);
    }
    if dim == 0 {
        assert(rows_added(y@, rows@, out@, y@));
        return Ok(y.duplicate());
    }
    let data = kernel::index_add(y.data(), n, dim, rows, out.data());
    let z = Tensor::new(axes2(n, dim), data)?;
    proof {
        assert(expert_gives(
            *ex,
            rows_picked(x@, rows@),
            Some(NdView { shape: shape2(rows@.len() as usize, 1), data: column@.data }),
            out@,
        ));
        assert(rows_added(y@, rows@, out@, z@));
    }
    Ok(z)
}

impl Moe {
    /// `x` (`[n, dim]`) to `[n, dim]`: every routed expert runs on its own tokens only, weighted by
    /// the router, and the shared expert on all of them.
    pub fn forward(&self, x: &Tensor) -> (r: Result<Tensor, TensorError>)
        requires
            self.wf(),
        ensures
            r matches Ok(y) ==> y@.wf() && Some(y@.shape) == moe_shape(*self, x@.shape)
                && moe_gives(*self, x@, y@),
            r matches Err(e) ==> e == TensorError::Shape && (moe_shape(*self, x@.shape) is None
                || moe_blocked(*self, x@)),
    {
        let (n, dim) = x.dims2()?;
        let (weights, indices) = self.gate.route(x)?;
        let topk: usize = self.gate.topk;
        proof {
            lemma_grid(n, dim);
            lemma_grid(n, topk);
            assert(self.gate.kept() == topk);
        }
        let zeros = Tensor::full(axes2(n, dim), ZERO)?;
        assert(zeros@.data =~= zero_rows(n, dim).data);
        let ghost mut sums: Seq<V> = seq![zeros@];
        let mut y = zeros;
        let mut e: usize = 0;
        while e < self.experts.len()
            invariant
                self.wf(),
                x@.shape == shape2(n, dim),
                route_ok(self.gate, x@.shape),
                route_gives(self.gate, x@, weights@, indices@),
                topk == self.gate.topk,
                topk == self.gate.kept(),
                weights@.data.len() == n * topk,
                indices@.data.len() == n * topk,
                e <= self.experts@.len(),
                y@.shape == x@.shape,
                sums.len() == e + 1,
                sums[0] == zero_rows(n, dim),
                sums[e as int] == y@,
                forall|i: int|
                    0 <= i < e ==> #[trigger] expert_adds(
                        self.experts@[i],
                        x@,
                        weights@,
                        indices@,
                        topk as int,
                        i,
                        sums[i],
                        sums[i + 1],
                    ),
            decreases self.experts@.len() - e,
        {
            let ghost before = sums;
            if e as u64 > i64::MAX as u64 {
                proof {
                    lemma_no_hits(self.gate, x@, weights@, indices@, e as int);
                    sums = sums.push(y@);
                }
            } else {
                let (rows, ws) = gather(weights.data(), indices.data(), topk, n, e);
                let ghost slots = hits(indices@.data, e as int, indices@.data.len() as int);
                if rows.len() > 0 {
                    proof {
                        assert forall|q: int| 0 <= q < rows@.len() implies rows@[q] < n by {
                            lemma_hits(indices@.data, e as int, indices@.data.len() as int);
                            lemma_divide(slots[q], n as int, topk as int);
                        }
                        assert forall|p: int, q: int| 0 <= p < q < rows@.len() implies rows@[p]
                            != rows@[q] by {
                            lemma_tokens_distinct(
                                self.gate,
                                x@,
                                weights@,
                                indices@,
                                e as int,
                                p,
                                q,
                            );
                        }
                    }
                    match run_expert(&self.experts[e], x, &rows, ws, &y) {
                        Ok(z) => {
                            y = z;
                        },
                        Err(err) => {
                            proof {
                                assert(route_gives(self.gate, x@, weights@, indices@));
                                assert(hits(
                                    indices@.data,
                                    e as int,
                                    indices@.data.len() as int,
                                ).len() > 0);
                            }
                            return Err(err);
                        },
                    }
                }
                proof {
                    assert(expert_adds(
                        self.experts@[e as int],
                        x@,
                        weights@,
                        indices@,
                        topk as int,
                        e as int,
                        sums[e as int],
                        y@,
                    ));
                    sums = sums.push(y@);
                }
            }
            e = e + 1;
            proof {
                assert forall|i: int| 0 <= i < e implies #[trigger] expert_adds(
                    self.experts@[i],
                    x@,
                    weights@,
                    indices@,
                    topk as int,
                    i,
                    sums[i],
                    sums[i + 1],
                ) by {
                    if i < e - 1 {
                        assert(sums[i] == before[i]);
                        assert(sums[i + 1] == before[i + 1]);
                    }
                }
            }
        }
        let shared = self.shared.forward(x, None)?;
        let out = ops::broadcast_add(&y, &shared)?;
        assert(moe_steps(
            *self,
            x@,
            MoeSteps { weights: weights@, indices: indices@, sums, shared: shared@ },
            out@,
        ));
        Ok(out)
    }
}

/// No slot names an expert that the router does not score.
proof fn lemma_no_hits(g: Gate, x: V, weights: V, indices: IndexView, e: int)
    requires
        route_gives(g, x, weights, indices),
        g.experts() <= i64::MAX,
        g.topk == g.kept(),
        e > i64::MAX,
    ensures
        hits(indices.data, e, indices.data.len() as int).len() == 0,
{
    let slots = hits(indices.data, e, indices.data.len() as int);
    lemma_hits(indices.data, e, indices.data.len() as int);
    if slots.len() > 0 {
        assert(indices.data[slots[0]] == e);
    }
}

} // verus!
