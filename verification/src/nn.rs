//! Normalisation and activation layers shared by the model's parts.

use vstd::prelude::*;

use crate::bits::DOUBLE_ONE;
use crate::error::TensorError;
use crate::ops;
use crate::tensor::Tensor;

#[allow(unused_imports)]
use crate::ops::{combined, combined_shape, mapped, reduced, Binary, Reduce, Unary};
#[allow(unused_imports)]
use crate::shape::{lemma_broadcast_keepdim, product};
#[allow(unused_imports)]
use crate::tensor::{NdView, V};

verus! {

/// The tensors between input and output of an RMS norm.
pub struct RmsSteps {
    pub squares: V,
    pub mean: V,
    pub shifted: V,
    pub root: V,
    pub normed: V,
}

/// The shape of an RMS norm over the last axis.
pub open spec fn rms_norm_shape(x: Seq<usize>, gamma: Option<Seq<usize>>) -> Option<Seq<usize>> {
    if x.len() == 0 {
        None
    } else {
        match gamma {
            Some(g) => combined_shape(x, g),
            None => Some(x),
        }
    }
}

/// `y = x / sqrt(mean(x²) + eps)` over the last axis, times `gamma`.
pub open spec fn rms_norm_steps(x: V, gamma: Option<V>, eps: u64, t: RmsSteps, y: V) -> bool {
    &&& mapped(Unary::Sqr, x, t.squares)
    &&& reduced(Reduce::Mean, x.shape.len() - 1, t.squares, t.mean)
    &&& mapped(Unary::Affine(DOUBLE_ONE, eps), t.mean, t.shifted)
    &&& mapped(Unary::Sqrt, t.shifted, t.root)
    &&& combined(Binary::Div, x, t.root, t.normed)
    &&& match gamma {
        Some(g) => combined(Binary::Mul, t.normed, g, y),
        None => y == t.normed,
    }
}

pub open spec fn rms_norm_gives(x: V, gamma: Option<V>, eps: u64, y: V) -> bool {
    exists|t: RmsSteps| rms_norm_steps(x, gamma, eps, t, y)
}

/// The shape of an optional tensor.
pub open spec fn shape_of(t: Option<V>) -> Option<Seq<usize>> {
    match t {
        Some(v) => Some(v.shape),
        None => None,
    }
}

/// The content of an optional tensor.
pub open spec fn view_of(t: Option<&Tensor>) -> Option<V> {
    match t {
        Some(v) => Some(v@),
        None => None,
    }
}

/// RMS norm over the last axis: `gamma · x / sqrt(mean(x²) + eps)`, without the factor if `gamma`
/// is `None`.
pub fn rms_norm(x: &Tensor, gamma: Option<&Tensor>, eps: u64) -> (r: Result<Tensor, TensorError>)
    ensures
        r is Ok <==> rms_norm_shape(x@.shape, shape_of(view_of(gamma))) is Some,
        r matches Ok(y) ==> y@.wf() && Some(y@.shape) == rms_norm_shape(
            x@.shape,
            shape_of(view_of(gamma)),
        ) && rms_norm_gives(x@, view_of(gamma), eps, y@),
        r matches Err(e) ==> e == TensorError::Shape,
{
    let rank: usize = x.rank();
    if rank == 0 {
        return Err(TensorError::Shape);
    }
    let squares = ops::sqr(x);
    let mean = ops::mean_keepdim(&squares, rank - 1)?;
    let shifted = ops::affine(&mean, DOUBLE_ONE, eps);
    let root = ops::sqrt(&shifted);
    proof {
        lemma_broadcast_keepdim(x@.shape, rank - 1);
    }
    let normed = ops::broadcast_div(x, &root)?;
    let ghost t = RmsSteps {
        squares: squares@,
        mean: mean@,
        shifted: shifted@,
        root: root@,
        normed: normed@,
    };
    match gamma {
        Some(g) => {
            let y = ops::broadcast_mul(&normed, g)?;
            assert(rms_norm_steps(x@, view_of(gamma), eps, t, y@));
            Ok(y)
        },
        None => {
            assert(rms_norm_steps(x@, view_of(gamma), eps, t, normed@));
            Ok(normed)
        },
    }
}

/// The tensors between input and output of a softmax.
pub struct SoftmaxSteps {
    pub top: V,
    pub shifted: V,
    pub powers: V,
    pub total: V,
}

/// `y = exp(x - max x) / Σ exp(x - max x)` along one axis.
pub open spec fn softmax_steps(axis: int, x: V, t: SoftmaxSteps, y: V) -> bool {
    &&& reduced(Reduce::Max, axis, x, t.top)
    &&& combined(Binary::Sub, x, t.top, t.shifted)
    &&& mapped(Unary::Exp, t.shifted, t.powers)
    &&& reduced(Reduce::Sum, axis, t.powers, t.total)
    &&& combined(Binary::Div, t.powers, t.total, y)
}

pub open spec fn softmax_gives(axis: int, x: V, y: V) -> bool {
    exists|t: SoftmaxSteps| softmax_steps(axis, x, t, y)
}

/// A softmax is defined along an axis of a tensor that is not empty.
pub open spec fn softmax_ok(axis: int, x: Seq<usize>) -> bool {
    0 <= axis < x.len() && product(x) > 0
}

/// Softmax along any axis, with the maximum subtracted first.
pub fn softmax_dim(x: &Tensor, axis: usize) -> (r: Result<Tensor, TensorError>)
    ensures
        r is Ok <==> softmax_ok(axis as int, x@.shape),
        r matches Ok(y) ==> y@.wf() && y@.shape == x@.shape && softmax_gives(axis as int, x@, y@),
        r matches Err(e) ==> e == TensorError::Shape,
{
    if axis >= x.rank() {
        return Err(TensorError::Shape);
    }
    let top = ops::max_keepdim(x, axis)?;
    proof {
        lemma_broadcast_keepdim(x@.shape, axis as int);
    }
    let shifted = ops::broadcast_sub(x, &top)?;
    let powers = ops::exp(&shifted);
    let total = ops::sum_keepdim(&powers, axis)?;
    let y = ops::broadcast_div(&powers, &total)?;
    let ghost t = SoftmaxSteps { top: top@, shifted: shifted@, powers: powers@, total: total@ };
    assert(softmax_steps(axis as int, x@, t, y@));
    Ok(y)
}

/// `candle_nn::ops::softmax` of a tensor that is not empty: the maximum along the axis is
/// subtracted, and the exponentials are divided by their sum.
#[verifier::external_body]
fn library_softmax(shape: &Vec<usize>, x: &Vec<u32>, axis: usize) -> (r: Vec<u32>)
    requires
        (NdView { shape: shape@, data: x@ }).wf(),
        softmax_ok(axis as int, shape@),
    ensures
        r@.len() == x@.len(),
        softmax_gives(
            axis as int,
            (NdView { shape: shape@, data: x@ }),
            (NdView { shape: shape@, data: r@ }),
        ),
{
    let bytes: Vec<u8> = x.iter().flat_map(|b| b.to_ne_bytes()).collect();
    let cpu = candle_core::Device::Cpu;
    let t = candle_core::Tensor::from_raw_buffer(&bytes, candle_core::DType::F32, shape, &cpu);
    let mut out: Vec<u8> = Vec::new();
    candle_nn::ops::softmax(&t.unwrap(), axis).unwrap().write_bytes(&mut out).unwrap();
    out.chunks_exact(4).map(|c| u32::from_le_bytes(c.try_into().unwrap())).collect()
}

/// Softmax along one axis.
pub fn softmax(x: &Tensor, axis: usize) -> (r: Result<Tensor, TensorError>)
    ensures
        r is Ok <==> softmax_ok(axis as int, x@.shape),
        r matches Ok(y) ==> y@.wf() && y@.shape == x@.shape && softmax_gives(axis as int, x@, y@),
        r matches Err(e) ==> e == TensorError::Shape,
{
    if axis >= x.rank() || x.data().len() == 0 {
        return Err(TensorError::Shape);
    }
    let data = library_softmax(x.dims(), x.data(), axis);
    let shape = crate::shape::prefix(x.dims(), x.rank());
    assert(shape@ =~= x@.shape);
    Tensor::new(shape, data)
}

/// The tensors between input and output of a sigmoid.
pub struct SigmoidSteps {
    pub negative: V,
    pub power: V,
    pub below: V,
}

/// `y = 1 / (1 + e^-x)`.
pub open spec fn sigmoid_steps(x: V, t: SigmoidSteps, y: V) -> bool {
    &&& mapped(Unary::Neg, x, t.negative)
    &&& mapped(Unary::Exp, t.negative, t.power)
    &&& mapped(Unary::Affine(DOUBLE_ONE, DOUBLE_ONE), t.power, t.below)
    &&& mapped(Unary::Recip, t.below, y)
}

pub open spec fn sigmoid_gives(x: V, y: V) -> bool {
    exists|t: SigmoidSteps| sigmoid_steps(x, t, y)
}

/// The logistic sigmoid `1 / (1 + e^-x)`.
pub fn sigmoid(x: &Tensor) -> (y: Tensor)
    ensures
        y@.wf(),
        y@.shape == x@.shape,
        sigmoid_gives(x@, y@),
{
    let negative = ops::neg(x);
    let power = ops::exp(&negative);
    let below = ops::affine(&power, DOUBLE_ONE, DOUBLE_ONE);
    let y = ops::recip(&below);
    assert(sigmoid_steps(
        x@,
        SigmoidSteps { negative: negative@, power: power@, below: below@ },
        y@,
    ));
    y
}

} // verus!
