//! Manifold-constrained hyper-connections.
//!
//! In place of one residual stream there are `hc` of them, mixed per token by a matrix that Sinkhorn
//! iterations bring towards a doubly stochastic one: rows and columns are normalised in turn.

use vstd::prelude::*;

use crate::bits::{widen, DOUBLE_MINUS_HALF, DOUBLE_ONE, DOUBLE_TWO, DOUBLE_ZERO};
use crate::error::TensorError;
use crate::nn::{sigmoid, softmax};
use crate::ops;
use crate::shape::{axes2, axes3, axes4, axes5};
use crate::tensor::Tensor;

#[allow(unused_imports)]
use crate::bits::widens;
#[allow(unused_imports)]
use crate::nn::{sigmoid_gives, softmax_gives};
#[allow(unused_imports)]
use crate::ops::{
    combined, combined_shape, linear_gives, linear_shape, mapped, paired, reduced, Binary, Reduce,
    Unary,
};
#[allow(unused_imports)]
use crate::shape::{
    broadcast_shape, fits, lemma_broadcast_into, lemma_broadcast_keepdim, lemma_expands_axes,
    lemma_merged, merged, product, shape2, shape3, shape4, shape5,
};
#[allow(unused_imports)]
use crate::sparse::then_reshape;
#[allow(unused_imports)]
use crate::tensor::{narrow_ok, narrowed, reshaped, squeezed, V};

verus! {

/// Columns `start .. start + len` of the mixes and of the base can be added.
pub open spec fn logits_shape(mixes: Seq<usize>, base: Seq<usize>, start: int, len: int) -> Option<
    Seq<usize>,
> {
    if narrow_ok(mixes, 1, start, len) && narrow_ok(base, 0, start, len) {
        combined_shape(mixes.update(1, len as usize), base.update(0, len as usize))
    } else {
        None
    }
}

/// `y = mixes[:, start .. start + len] * w + base[start .. start + len]`.
pub open spec fn logits_steps(mixes: V, base: V, start: int, len: int, w: u64, scaled: V, y: V) -> bool {
    &&& mapped(Unary::Affine(w, DOUBLE_ZERO), narrowed(mixes, 1, start, len), scaled)
    &&& combined(Binary::Add, scaled, narrowed(base, 0, start, len), y)
}

pub open spec fn logits_give(mixes: V, base: V, start: int, len: int, w: u64, y: V) -> bool {
    exists|scaled: V| logits_steps(mixes, base, start, len, w, scaled, y)
}

/// Scales a range of columns and adds the base.
fn logits(mixes: &Tensor, base: &Tensor, start: usize, len: usize, w: u64) -> (r: Result<
    Tensor,
    TensorError,
>)
    ensures
        r is Ok <==> logits_shape(mixes@.shape, base@.shape, start as int, len as int) is Some,
        r matches Ok(y) ==> y@.wf() && Some(y@.shape) == logits_shape(
            mixes@.shape,
            base@.shape,
            start as int,
            len as int,
        ) && logits_give(mixes@, base@, start as int, len as int, w, y@),
        r matches Err(e) ==> e == TensorError::Shape,
{
    let columns = mixes.narrow(1, start, len)?;
    let scaled = ops::affine(&columns, w, DOUBLE_ZERO);
    let part = base.narrow(0, start, len)?;
    let y = ops::broadcast_add(&scaled, &part)?;
    assert(logits_steps(mixes@, base@, start as int, len as int, w, scaled@, y@));
    Ok(y)
}

/// `y = x / (Σ x + eps)` along one axis.
pub open spec fn normalized_steps(x: V, axis: int, eps: u64, total: V, below: V, y: V) -> bool {
    &&& reduced(Reduce::Sum, axis, x, total)
    &&& mapped(Unary::Affine(DOUBLE_ONE, eps), total, below)
    &&& combined(Binary::Div, x, below, y)
}

pub open spec fn normalized(x: V, axis: int, eps: u64, y: V) -> bool {
    exists|total: V, below: V| normalized_steps(x, axis, eps, total, below, y)
}

/// Divides by the sums along one axis.
fn normalize(x: &Tensor, axis: usize, eps: u64) -> (r: Result<Tensor, TensorError>)
    requires
        axis < x@.shape.len(),
    ensures
        r is Ok,
        r matches Ok(y) ==> y@.wf() && y@.shape == x@.shape && normalized(x@, axis as int, eps, y@),
{
    let _ = x.rank();
    let total = ops::sum_keepdim(x, axis)?;
    let below = ops::affine(&total, DOUBLE_ONE, eps);
    proof {
        lemma_broadcast_keepdim(x@.shape, axis as int);
    }
    let y = ops::broadcast_div(x, &below)?;
    assert(normalized_steps(x@, axis as int, eps, total@, below@, y@));
    Ok(y)
}

/// One Sinkhorn iteration: rows, then columns.
pub open spec fn sinkhorn_round(x: V, eps: u64, y: V) -> bool {
    exists|rows: V| #[trigger] normalized(x, 2, eps, rows) && normalized(rows, 1, eps, y)
}

/// `rounds` lists the matrix after each Sinkhorn iteration.
pub open spec fn sinkhorn_rounds(rounds: Seq<V>, eps: u64) -> bool {
    forall|i: int|
        0 <= i < rounds.len() - 1 ==> #[trigger] sinkhorn_round(rounds[i], eps, rounds[i + 1])
}

/// The number of Sinkhorn iterations that follow the first column normalisation.
pub open spec fn extra_rounds(iters: usize) -> int {
    if iters == 0 {
        0
    } else {
        iters - 1
    }
}

/// Whether a mixing vector can be split.
pub open spec fn split_ok(mixes: Seq<usize>, scale: Seq<usize>, base: Seq<usize>, hc: usize) -> bool {
    &&& scale.len() == 1
    &&& logits_shape(mixes, base, 0, hc as int) is Some
    &&& logits_shape(mixes, base, hc as int, hc as int) is Some
    &&& then_reshape(
        logits_shape(mixes, base, 2 * hc, hc * hc),
        shape3(mixes[0], hc, hc),
    ) is Some
    &&& product(shape3(mixes[0], hc, hc)) > 0
}

/// The tensors between input and output of a split.
pub struct SplitSteps {
    pub pre_logits: V,
    pub pre_gate: V,
    pub post_logits: V,
    pub post_gate: V,
    pub comb_logits: V,
    pub soft: V,
    pub lifted: V,
    pub rounds: Seq<V>,
}

/// `pre = sigmoid(..) + eps`, `post = 2 · sigmoid(..)`, and `comb` the softmax of its logits plus
/// `eps`, normalised by columns and then by Sinkhorn iterations. The three scales are widened to
/// double precision.
pub open spec fn split_steps(
    mixes: V,
    scale: V,
    base: V,
    hc: usize,
    iters: usize,
    eps: u64,
    t: SplitSteps,
    pre: V,
    post: V,
    comb: V,
) -> bool {
    let h = hc as int;
    &&& exists|w: u64|
        widens(scale.data[0], w) && #[trigger] logits_give(mixes, base, 0, h, w, t.pre_logits)
    &&& sigmoid_gives(t.pre_logits, t.pre_gate)
    &&& mapped(Unary::Affine(DOUBLE_ONE, eps), t.pre_gate, pre)
    &&& exists|w: u64|
        widens(scale.data[1], w) && #[trigger] logits_give(mixes, base, h, h, w, t.post_logits)
    &&& sigmoid_gives(t.post_logits, t.post_gate)
    &&& mapped(Unary::Affine(DOUBLE_TWO, DOUBLE_ZERO), t.post_gate, post)
    &&& exists|w: u64|
        widens(scale.data[2], w) && #[trigger] logits_give(
            mixes,
            base,
            2 * h,
            h * h,
            w,
            t.comb_logits,
        )
    &&& softmax_gives(2, reshaped(t.comb_logits, shape3(mixes.shape[0], hc, hc)), t.soft)
    &&& mapped(Unary::Affine(DOUBLE_ONE, eps), t.soft, t.lifted)
    &&& t.rounds.len() == extra_rounds(iters) + 1
    &&& normalized(t.lifted, 1, eps, t.rounds[0])
    &&& sinkhorn_rounds(t.rounds, eps)
    &&& comb == t.rounds.last()
}

pub open spec fn split_gives(
    mixes: V,
    scale: V,
    base: V,
    hc: usize,
    iters: usize,
    eps: u64,
    pre: V,
    post: V,
    comb: V,
) -> bool {
    exists|t: SplitSteps| split_steps(mixes, scale, base, hc, iters, eps, t, pre, post, comb)
}

/// The combination matrices: softmax of the rows, then alternating normalisation.
fn sinkhorn(logits: &Tensor, iters: usize, eps: u64) -> (r: Result<
    (Tensor, Ghost<(V, V, Seq<V>)>),
    TensorError,
>)
    requires
        logits@.shape.len() == 3,
    ensures
        r is Ok <==> product(logits@.shape) > 0,
        r matches Ok(p) ==> {
            let (soft, lifted, rounds) = p.1@;
            &&& p.0@.wf()
            &&& p.0@.shape == logits@.shape
            &&& softmax_gives(2, logits@, soft)
            &&& mapped(Unary::Affine(DOUBLE_ONE, eps), soft, lifted)
            &&& rounds.len() == extra_rounds(iters) + 1
            &&& normalized(lifted, 1, eps, rounds[0])
            &&& sinkhorn_rounds(rounds, eps)
            &&& p.0@ == rounds.last()
        },
        r matches Err(e) ==> e == TensorError::Shape,
{
    let soft = softmax(logits, 2)?;
    let lifted = ops::affine(&soft, DOUBLE_ONE, eps);
    let mut comb = normalize(&lifted, 1, eps)?;
    let ghost mut rounds: Seq<V> = seq![comb@];
    let extra: usize = if iters == 0 {
        0
    } else {
        iters - 1
    };
    let mut i: usize = 0;
    while i < extra
        invariant
            i <= extra,
            comb@.wf(),
            comb@.shape.len() == 3,
            comb@.shape == logits@.shape,
            product(logits@.shape) > 0,
            rounds.len() == i + 1,
            rounds[i as int] == comb@,
            normalized(lifted@, 1, eps, rounds[0]),
            sinkhorn_rounds(rounds, eps),
        decreases extra - i,
    {
        let rows = normalize(&comb, 2, eps)?;
        let next = normalize(&rows, 1, eps)?;
        proof {
            let before = rounds;
            assert(normalized(comb@, 2, eps, rows@));
            rounds = rounds.push(next@);
            assert forall|j: int| 0 <= j < rounds.len() - 1 implies #[trigger] sinkhorn_round(
                rounds[j],
                eps,
                rounds[j + 1],
            ) by {
                if j < before.len() - 1 {
                    assert(sinkhorn_round(before[j], eps, before[j + 1]));
                }
            }
        }
        comb = next;
        i = i + 1;
    }
    Ok((comb, Ghost((soft@, lifted@, rounds))))
}

/// Splits a mixing vector per token, `mixes` `[n, (2 + hc) * hc]`, into the gates `pre` and `post`
/// (`[n, hc]`) and the combination matrix `comb` (`[n, hc, hc]`).
pub fn hc_split_sinkhorn(
    mixes: &Tensor,
    hc_scale: &Tensor,
    hc_base: &Tensor,
    hc: usize,
    sinkhorn_iters: usize,
    eps: u64,
) -> (r: Result<(Tensor, Tensor, Tensor), TensorError>)
    requires
        hc_scale@.shape.len() == 1 ==> hc_scale@.shape[0] >= 3,
    ensures
        r is Ok <==> split_ok(mixes@.shape, hc_scale@.shape, hc_base@.shape, hc),
        r matches Ok(p) ==> {
            &&& p.0@.wf()
            &&& p.1@.wf()
            &&& p.2@.wf()
            &&& Some(p.0@.shape) == logits_shape(mixes@.shape, hc_base@.shape, 0, hc as int)
            &&& Some(p.1@.shape) == logits_shape(
                mixes@.shape,
                hc_base@.shape,
                hc as int,
                hc as int,
            )
            &&& p.2@.shape == shape3(mixes@.shape[0], hc, hc)
            &&& split_gives(
                mixes@,
                hc_scale@,
                hc_base@,
                hc,
                sinkhorn_iters,
                eps,
                p.0@,
                p.1@,
                p.2@,
            )
        },
        r matches Err(e) ==> e == TensorError::Shape,
{
    let n: usize = mixes.dim(0)?;
    if hc_scale.rank() != 1 {
        return Err(TensorError::Shape);
    }
    proof {
        let s = hc_scale@.shape;
        assert(s.drop_last() =~= Seq::<usize>::empty());
        reveal_with_fuel(product, 2);
        assert(1 * (s[0] as nat) == s[0] as nat);
    }
    let s0: u64 = widen(hc_scale.data()[0]);
    let s1: u64 = widen(hc_scale.data()[1]);
    let s2: u64 = widen(hc_scale.data()[2]);

    let pre_logits = logits(mixes, hc_base, 0, hc, s0)?;
    let pre_gate = sigmoid(&pre_logits);
    let pre = ops::affine(&pre_gate, DOUBLE_ONE, eps);

    let post_logits = logits(mixes, hc_base, hc, hc, s1)?;
    let post_gate = sigmoid(&post_logits);
    let post = ops::affine(&post_gate, DOUBLE_TWO, DOUBLE_ZERO);

    let square: usize = match hc.checked_mul(hc) {
        Some(v) => v,
        None => {
            return Err(TensorError::Shape);
        },
    };
    let comb_logits = logits(mixes, hc_base, 2 * hc, square, s2)?;
    let grid = comb_logits.reshape(axes3(n, hc, hc))?;
    let (comb, Ghost(inside)) = sinkhorn(&grid, sinkhorn_iters, eps)?;
    proof {
        let t = SplitSteps {
            pre_logits: pre_logits@,
            pre_gate: pre_gate@,
            post_logits: post_logits@,
            post_gate: post_gate@,
            comb_logits: comb_logits@,
            soft: inside.0,
            lifted: inside.1,
            rounds: inside.2,
        };
        assert(logits_give(mixes@, hc_base@, 0, hc as int, s0, t.pre_logits));
        assert(logits_give(mixes@, hc_base@, hc as int, hc as int, s1, t.post_logits));
        assert(logits_give(mixes@, hc_base@, 2 * hc as int, hc as int * hc as int, s2, t.comb_logits));
        assert(split_steps(
            mixes@,
            hc_scale@,
            hc_base@,
            hc,
            sinkhorn_iters,
            eps,
            t,
            pre@,
            post@,
            comb@,
        ));
    }
    Ok((pre, post, comb))
}

// --- the mixer ------------------------------------------------------------------------------

/// The parameters of one hyper-connection mixer.
pub struct Hc {
    /// `[mix_hc, hc * dim]`: projects the flattened streams to the mixing vector.
    pub hc_fn: Tensor,
    /// `[mix_hc]`
    pub hc_base: Tensor,
    /// `[3]`
    pub hc_scale: Tensor,
    pub hc: usize,
    pub sinkhorn_iters: usize,
    pub eps: u64,
    pub norm_eps: u64,
}

impl Hc {
    /// The scales are three.
    pub open spec fn wf(self) -> bool {
        self.hc_scale@.shape.len() == 1 ==> self.hc_scale@.shape[0] >= 3
    }
}

/// The tensors between input and output of [`rms_mix`].
pub struct MixSteps {
    pub squares: V,
    pub mean: V,
    pub shifted: V,
    pub rms: V,
    pub raw: V,
}

/// `y = (x · wᵀ) · (mean(x²) + eps)^-½`, row by row.
pub open spec fn mix_steps(x: V, w: V, eps: u64, t: MixSteps, y: V) -> bool {
    &&& mapped(Unary::Sqr, x, t.squares)
    &&& reduced(Reduce::Mean, 1, t.squares, t.mean)
    &&& mapped(Unary::Affine(DOUBLE_ONE, eps), t.mean, t.shifted)
    &&& mapped(Unary::Powf(DOUBLE_MINUS_HALF), t.shifted, t.rms)
    &&& linear_gives(x, w, t.raw)
    &&& combined(Binary::Mul, t.raw, t.rms, y)
}

pub open spec fn mix_gives(x: V, w: V, eps: u64, y: V) -> bool {
    exists|t: MixSteps| mix_steps(x, w, eps, t, y)
}

/// The RMS-scaled projection of the flattened streams.
pub fn rms_mix(x: &Tensor, w: &Tensor, eps: u64) -> (r: Result<Tensor, TensorError>)
    requires
        x@.shape.len() == 2,
    ensures
        r is Ok <==> linear_shape(x@.shape, w@.shape) is Some,
        r matches Ok(y) ==> y@.wf() && Some(y@.shape) == linear_shape(x@.shape, w@.shape)
            && mix_gives(x@, w@, eps, y@),
        r matches Err(e) ==> e == TensorError::Shape,
{
    let _ = x.rank();
    let squares = ops::sqr(x);
    let mean = ops::mean_keepdim(&squares, 1)?;
    let shifted = ops::affine(&mean, DOUBLE_ONE, eps);
    let rms = ops::powf(&shifted, DOUBLE_MINUS_HALF);
    let raw = ops::linear(x, w)?;
    proof {
        lemma_expands_axes(rms@.shape, raw@.shape);
        lemma_broadcast_into(rms@.shape, raw@.shape);
    }
    let y = ops::broadcast_mul(&raw, &rms)?;
    assert(mix_steps(
        x@,
        w@,
        eps,
        MixSteps { squares: squares@, mean: mean@, shifted: shifted@, rms: rms@, raw: raw@ },
        y@,
    ));
    Ok(y)
}

/// The streams of each token side by side.
pub open spec fn flat_streams(x: V) -> V {
    reshaped(x, flat_shape(x.shape))
}

/// `[b * s, hc * d]` for `[b, s, hc, d]`.
pub open spec fn flat_shape(x: Seq<usize>) -> Seq<usize> {
    shape2((x[0] * x[1]) as usize, (x[2] * x[3]) as usize)
}

/// Flattening tokens and streams keeps the element count and the bound in memory.
pub proof fn lemma_flat_streams(x: Seq<usize>)
    requires
        x.len() == 4,
        fits(x),
    ensures
        x[0] * x[1] <= usize::MAX,
        x[2] * x[3] <= usize::MAX,
        fits(flat_shape(x)),
        product(flat_shape(x)) == product(x),
{
    lemma_merged(x, 2);
    let y = merged(x, 2);
    assert(y =~= shape3(x[0], x[1], (x[2] * x[3]) as usize));
    lemma_merged(y, 0);
    assert(merged(y, 0) =~= flat_shape(x));
}

/// Flattens the streams of each token.
pub fn flatten_streams(x: &Tensor) -> (r: Result<Tensor, TensorError>)
    requires
        x@.shape.len() == 4,
    ensures
        r is Ok,
        r matches Ok(y) ==> y@.wf() && y@ == flat_streams(x@),
{
    let (b, s, hc, d) = x.dims4()?;
    proof {
        lemma_flat_streams(x@.shape);
    }
    x.reshape(axes2(b * s, hc * d))
}

/// `y = Σ_hc pre · x`: the streams collapsed by a gate per stream.
pub open spec fn collapse_steps(x: V, pre: V, weighted: V, total: V, y: V) -> bool {
    let (b, s, hc) = (x.shape[0], x.shape[1], x.shape[2]);
    &&& combined(Binary::Mul, reshaped(pre, shape4(b, s, hc, 1)), x, weighted)
    &&& reduced(Reduce::Sum, 2, weighted, total)
    &&& y == squeezed(total, 2)
}

pub open spec fn collapse_gives(x: V, pre: V, y: V) -> bool {
    exists|weighted: V, total: V| collapse_steps(x, pre, weighted, total, y)
}

/// Collapses the streams `[b, s, hc, d]` to `[b, s, d]` by a gate per stream.
pub fn collapse_streams(x: &Tensor, pre: &Tensor) -> (r: Result<Tensor, TensorError>)
    requires
        x@.shape.len() == 4,
    ensures
        r is Ok <==> then_reshape(
            Some(pre@.shape),
            shape4(x@.shape[0], x@.shape[1], x@.shape[2], 1),
        ) is Some,
        r matches Ok(y) ==> y@.wf() && y@.shape == shape3(x@.shape[0], x@.shape[1], x@.shape[3])
            && collapse_gives(x@, pre@, y@),
        r matches Err(e) ==> e == TensorError::Shape,
{
    let (b, s, hc, d) = x.dims4()?;
    let gate = pre.reshape(axes4(b, s, hc, 1))?;
    proof {
        lemma_expands_axes(gate@.shape, x@.shape);
        lemma_broadcast_into(gate@.shape, x@.shape);
    }
    let weighted = ops::broadcast_mul(&gate, x)?;
    let total = ops::sum_keepdim(&weighted, 2)?;
    let y = total.squeeze(2)?;
    assert(y@.shape =~= shape3(b, s, d));
    assert(collapse_steps(x@, pre@, weighted@, total@, y@));
    Ok(y)
}

/// Whether the mixer can collapse streams of a shape.
pub open spec fn pre_ok(h: Hc, x: Seq<usize>) -> bool {
    let mixes = linear_shape(flat_shape(x), h.hc_fn@.shape);
    let base = h.hc_base@.shape;
    let hc = h.hc as int;
    &&& x.len() == 4
    &&& mixes is Some
    &&& split_ok(mixes.unwrap(), h.hc_scale@.shape, base, h.hc)
    &&& then_reshape(
        logits_shape(mixes.unwrap(), base, 0, hc),
        shape4(x[0], x[1], x[2], 1),
    ) is Some
    &&& then_reshape(
        logits_shape(mixes.unwrap(), base, hc, hc),
        shape3(x[0], x[1], x[2]),
    ) is Some
    &&& then_reshape(
        Some(shape3((x[0] * x[1]) as usize, h.hc, h.hc)),
        shape4(x[0], x[1], x[2], x[2]),
    ) is Some
}

/// The tensors between the streams and the collapsed tensor with its gates.
pub struct PreSteps {
    pub mixes: V,
    pub pre: V,
    pub post: V,
    pub comb: V,
}

pub open spec fn pre_steps(h: Hc, x: V, t: PreSteps, y: V, post: V, comb: V) -> bool {
    let (b, s, hcn) = (x.shape[0], x.shape[1], x.shape[2]);
    &&& mix_gives(flat_streams(x), h.hc_fn@, h.norm_eps, t.mixes)
    &&& split_gives(
        t.mixes,
        h.hc_scale@,
        h.hc_base@,
        h.hc,
        h.sinkhorn_iters,
        h.eps,
        t.pre,
        t.post,
        t.comb,
    )
    &&& collapse_gives(x, t.pre, y)
    &&& post == reshaped(t.post, shape3(b, s, hcn))
    &&& comb == reshaped(t.comb, shape4(b, s, hcn, hcn))
}

pub open spec fn pre_gives(h: Hc, x: V, y: V, post: V, comb: V) -> bool {
    exists|t: PreSteps| pre_steps(h, x, t, y, post, comb)
}

/// Whether the mixer can re-expand a sublayer's output.
pub open spec fn post_ok(
    hc: usize,
    x: Seq<usize>,
    residual: Seq<usize>,
    post: Seq<usize>,
    comb: Seq<usize>,
) -> bool {
    let (b, s, d) = (x[0], x[1], x[2]);
    &&& x.len() == 3
    &&& then_reshape(Some(post), shape4(b, s, hc, 1)) is Some
    &&& fits(shape4(b, s, hc, d))
    &&& then_reshape(Some(comb), shape5(b, s, hc, hc, 1)) is Some
    &&& then_reshape(Some(residual), shape5(b, s, hc, 1, d)) is Some
    &&& fits(shape5(b, s, hc, hc, d))
}

/// The tensors between a sublayer's output and the streams.
pub struct PostSteps {
    pub direct: V,
    pub products: V,
    pub total: V,
}

/// `y[b,s,k,:] = post[b,s,k] · x[b,s,:] + Σ_j comb[b,s,j,k] · residual[b,s,j,:]`.
pub open spec fn post_steps(
    hc: usize,
    x: V,
    residual: V,
    post: V,
    comb: V,
    t: PostSteps,
    y: V,
) -> bool {
    let (b, s, d) = (x.shape[0], x.shape[1], x.shape[2]);
    &&& combined(
        Binary::Mul,
        reshaped(post, shape4(b, s, hc, 1)),
        reshaped(x, shape4(b, s, 1, d)),
        t.direct,
    )
    &&& combined(
        Binary::Mul,
        reshaped(comb, shape5(b, s, hc, hc, 1)),
        reshaped(residual, shape5(b, s, hc, 1, d)),
        t.products,
    )
    &&& reduced(Reduce::Sum, 2, t.products, t.total)
    &&& paired(Binary::Add, t.direct, squeezed(t.total, 2), y)
}

pub open spec fn post_gives(hc: usize, x: V, residual: V, post: V, comb: V, y: V) -> bool {
    exists|t: PostSteps| post_steps(hc, x, residual, post, comb, t, y)
}

impl Hc {
    /// Collapses the streams `x` (`[b, s, hc, dim]`) into one tensor for the sublayer, and returns
    /// the weights `post` (`[b, s, hc]`) and `comb` (`[b, s, hc, hc]`) that re-expand.
    pub fn pre(&self, x: &Tensor) -> (r: Result<(Tensor, Tensor, Tensor), TensorError>)
        requires
            self.wf(),
        ensures
            r is Ok <==> pre_ok(*self, x@.shape),
            r matches Ok(p) ==> {
                &&& p.0@.wf()
                &&& p.1@.wf()
                &&& p.2@.wf()
                &&& p.0@.shape == shape3(x@.shape[0], x@.shape[1], x@.shape[3])
                &&& p.1@.shape == shape3(x@.shape[0], x@.shape[1], x@.shape[2])
                &&& p.2@.shape == shape4(x@.shape[0], x@.shape[1], x@.shape[2], x@.shape[2])
                &&& pre_gives(*self, x@, p.0@, p.1@, p.2@)
            },
            r matches Err(e) ==> e == TensorError::Shape,
    {
        let (b, s, hcn, d) = x.dims4()?;
        proof {
            lemma_flat_streams(x@.shape);
        }
        let flat = flatten_streams(x)?;
        let mixes = rms_mix(&flat, &self.hc_fn, self.norm_eps)?;
        let (pre, post, comb) = hc_split_sinkhorn(
            &mixes,
            &self.hc_scale,
            &self.hc_base,
            self.hc,
            self.sinkhorn_iters,
            self.eps,
        )?;
        let y = collapse_streams(x, &pre)?;
        let post_out = post.reshape(axes3(b, s, hcn))?;
        let comb_out = comb.reshape(axes4(b, s, hcn, hcn))?;
        assert(pre_steps(
            *self,
            x@,
            PreSteps { mixes: mixes@, pre: pre@, post: post@, comb: comb@ },
            y@,
            post_out@,
            comb_out@,
        ));
        Ok((y, post_out, comb_out))
    }

    /// Re-expands the sublayer output `x` (`[b, s, dim]`) into the streams:
    /// `y[b,s,k,:] = post[b,s,k] · x[b,s,:] + Σ_j comb[b,s,j,k] · residual[b,s,j,:]`.
    pub fn post(&self, x: &Tensor, residual: &Tensor, post: &Tensor, comb: &Tensor) -> (r: Result<
        Tensor,
        TensorError,
    >)
        ensures
            r is Ok <==> post_ok(self.hc, x@.shape, residual@.shape, post@.shape, comb@.shape),
            r matches Ok(y) ==> y@.wf() && y@.shape == shape4(
                x@.shape[0],
                x@.shape[1],
                self.hc,
                x@.shape[2],
            ) && post_gives(self.hc, x@, residual@, post@, comb@, y@),
            r matches Err(e) ==> e == TensorError::Shape,
    {
        let (b, s, d) = x.dims3()?;
        let hc: usize = self.hc;
        let gate = post.reshape(axes4(b, s, hc, 1))?;
        proof {
            crate::tensor::lemma_unit_axis(x@.shape, 2);
            assert(x@.shape.insert(2, 1) =~= shape4(b, s, 1, d));
            lemma_outer(b, s, hc, d);
        }
        let lane = x.reshape(axes4(b, s, 1, d))?;
        let direct = ops::broadcast_mul(&gate, &lane)?;
        let mix = comb.reshape(axes5(b, s, hc, hc, 1))?;
        let streams = residual.reshape(axes5(b, s, hc, 1, d))?;
        let products = ops::broadcast_mul(&mix, &streams)?;
        let total = ops::sum_keepdim(&products, 2)?;
        let mixed = total.squeeze(2)?;
        assert(mixed@.shape =~= shape4(b, s, hc, d));
        let y = ops::same_add(&direct, &mixed)?;
        assert(post_steps(
            hc,
            x@,
            residual@,
            post@,
            comb@,
            PostSteps { direct: direct@, products: products@, total: total@ },
            y@,
        ));
        Ok(y)
    }
}

/// The common shapes of the two outer products of the re-expansion.
proof fn lemma_outer(b: usize, s: usize, hc: usize, d: usize)
    ensures
        broadcast_shape(shape4(b, s, hc, 1), shape4(b, s, 1, d)) == Some(shape4(b, s, hc, d)),
        broadcast_shape(shape5(b, s, hc, hc, 1), shape5(b, s, hc, 1, d)) == Some(
            shape5(b, s, hc, hc, d),
        ),
{
    let lead = shape2(b, s);
    crate::shape::lemma_broadcast_self(lead);
    let (x, y) = (shape4(b, s, hc, 1), shape4(b, s, 1, d));
    assert(x.drop_last() =~= shape3(b, s, hc));
    assert(y.drop_last() =~= shape3(b, s, 1));
    assert(shape3(b, s, hc).drop_last() =~= lead);
    assert(shape3(b, s, 1).drop_last() =~= lead);
    reveal_with_fuel(broadcast_shape, 4);
    assert(lead.push(hc).push(d) =~= shape4(b, s, hc, d));
    let (u, v) = (shape5(b, s, hc, hc, 1), shape5(b, s, hc, 1, d));
    let third = shape3(b, s, hc);
    crate::shape::lemma_broadcast_self(third);
    assert(u.drop_last() =~= shape4(b, s, hc, hc));
    assert(v.drop_last() =~= shape4(b, s, hc, 1));
    assert(shape4(b, s, hc, hc).drop_last() =~= third);
    assert(shape4(b, s, hc, 1).drop_last() =~= third);
    assert(third.push(hc).push(d) =~= shape5(b, s, hc, hc, d));
    assert(third.push(hc).push(1) =~= shape5(b, s, hc, hc, 1));
    assert(lead.push(hc).push(1) =~= shape4(b, s, hc, 1));
}

} // verus!
