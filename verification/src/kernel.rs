//! Floating-point kernels: calls into `candle` on bit patterns.
//!
//! Every function here hands plain patterns to one `candle` operation on the CPU and takes plain
//! patterns back. The four IEEE operations and the square root round correctly on every machine,
//! so their results are named by functions of the operands, up to the payload of a NaN. What is
//! left to the math library, or to the order in which a sum is taken, can differ between machines
//! and thread counts: those results are named by a relation between the operands and the values
//! that may come out.

use candle_core::DType::{F32, F64};
use candle_core::Device::Cpu;
use candle_core::Tensor;
use vstd::prelude::*;

#[allow(unused_imports)]
use crate::bits::{absorbed, agrees, is_zero, less, magnitude, negated, NEG_INFINITY, ONE, ZERO};
#[allow(unused_imports)]
use crate::shape::{inner, outer};
#[allow(unused_imports)]
use crate::tensor::NdView;

verus! {

/// The correctly rounded single-precision sum.
pub uninterp spec fn fadd(a: u32, b: u32) -> u32;

/// The correctly rounded single-precision difference.
pub uninterp spec fn fsub(a: u32, b: u32) -> u32;

/// The correctly rounded single-precision product.
pub uninterp spec fn fmul(a: u32, b: u32) -> u32;

/// The correctly rounded single-precision quotient.
pub uninterp spec fn fdiv(a: u32, b: u32) -> u32;

/// The correctly rounded single-precision square root.
pub uninterp spec fn fsqrt(a: u32) -> u32;

/// A double rounded to single precision.
pub uninterp spec fn single(d: u64) -> u32;

/// `r` is a value that the exponential of `x` may come out as.
pub uninterp spec fn exp_gives(x: u32, r: u32) -> bool;

/// `r` is a value that the natural logarithm of `x` may come out as.
pub uninterp spec fn log_gives(x: u32, r: u32) -> bool;

/// `r` is a value that `x` to the power `e` may come out as.
pub uninterp spec fn powf_gives(x: u32, e: u32, r: u32) -> bool;

/// `r` is a value that summing `s` may come out as.
pub uninterp spec fn sum_gives(s: Seq<u32>, r: u32) -> bool;

/// `r` is a value that the mean of `s` may come out as.
pub uninterp spec fn mean_gives(s: Seq<u32>, r: u32) -> bool;

/// `r` is a value that the inner product of `a` and `b` may come out as.
pub uninterp spec fn dot_gives(a: Seq<u32>, b: Seq<u32>, r: u32) -> bool;

/// `r` may come out of `x * mul + add` with both scalars rounded to single precision.
pub open spec fn affine_gives(x: u32, mul: u64, add: u64, r: u32) -> bool {
    exists|p: u32|
        agrees(p, fmul(x, single(mul))) && agrees(r, #[trigger] fadd(p, single(add)))
}

/// `r` may come out of `x / (1 + exp(-x))`.
pub open spec fn silu_gives(x: u32, r: u32) -> bool {
    exists|e: u32, d: u32|
        #[trigger] exp_gives(negated(x), e) && agrees(d, fadd(ONE, e)) && agrees(
            r,
            #[trigger] fdiv(x, d),
        )
}

/// `r` is the larger of `x` and zero: zero for a NaN, and either zero for a zero.
pub open spec fn relu_gives(x: u32, r: u32) -> bool {
    if is_zero(x) {
        is_zero(r)
    } else if less(ZERO, x) {
        r == x
    } else {
        r == ZERO
    }
}

/// The smaller of the two, the first if they do not compare.
pub open spec fn lesser(a: u32, b: u32) -> u32 {
    if less(b, a) {
        b
    } else {
        a
    }
}

/// The larger of the two, the first if they do not compare.
pub open spec fn greater(a: u32, b: u32) -> u32 {
    if less(a, b) {
        b
    } else {
        a
    }
}

/// `r` is the smaller of `x` and the rounded bound.
pub open spec fn minimum_gives(x: u32, hi: u64, r: u32) -> bool {
    exists|h: u32| agrees(h, single(hi)) && r == #[trigger] lesser(x, h)
}

/// `r` is `x` held between the rounded bounds.
pub open spec fn clamp_gives(x: u32, lo: u64, hi: u64, r: u32) -> bool {
    exists|l: u32, h: u32|
        agrees(l, single(lo)) && agrees(h, single(hi)) && r == #[trigger] lesser(greater(x, l), h)
}

/// The running maximum of a non-empty list, started from its first element.
pub open spec fn maximum(s: Seq<u32>) -> u32
    decreases s.len(),
{
    if s.len() <= 1 {
        s[0]
    } else {
        greater(maximum(s.drop_last()), s.last())
    }
}

/// `Tensor::exp`: `e^x` of each element, as the math library gives it.
#[verifier::external_body]
pub(crate) fn exp(x: &Vec<u32>) -> (r: Vec<u32>)
    ensures
        r@.len() == x@.len(),
        forall|i: int| 0 <= i < x@.len() ==> exp_gives(x@[i], #[trigger] r@[i]),
{
    let bytes: Vec<u8> = x.iter().flat_map(|b| b.to_ne_bytes()).collect();
    let t = Tensor::from_raw_buffer(&bytes, F32, &[x.len()], &Cpu).unwrap();
    let mut out: Vec<u8> = Vec::new();
    t.exp().unwrap().write_bytes(&mut out).unwrap();
    out.chunks_exact(4).map(|c| u32::from_le_bytes(c.try_into().unwrap())).collect()
}

/// `Tensor::log`: the natural logarithm of each element, as the math library gives it.
#[verifier::external_body]
pub(crate) fn log(x: &Vec<u32>) -> (r: Vec<u32>)
    ensures
        r@.len() == x@.len(),
        forall|i: int| 0 <= i < x@.len() ==> log_gives(x@[i], #[trigger] r@[i]),
{
    let bytes: Vec<u8> = x.iter().flat_map(|b| b.to_ne_bytes()).collect();
    let t = Tensor::from_raw_buffer(&bytes, F32, &[x.len()], &Cpu).unwrap();
    let mut out: Vec<u8> = Vec::new();
    t.log().unwrap().write_bytes(&mut out).unwrap();
    out.chunks_exact(4).map(|c| u32::from_le_bytes(c.try_into().unwrap())).collect()
}

/// `Tensor::sqrt`: the correctly rounded square root of each element.
#[verifier::external_body]
pub(crate) fn sqrt(x: &Vec<u32>) -> (r: Vec<u32>)
    ensures
        r@.len() == x@.len(),
        forall|i: int| 0 <= i < x@.len() ==> agrees(#[trigger] r@[i], fsqrt(x@[i])),
{
    let bytes: Vec<u8> = x.iter().flat_map(|b| b.to_ne_bytes()).collect();
    let t = Tensor::from_raw_buffer(&bytes, F32, &[x.len()], &Cpu).unwrap();
    let mut out: Vec<u8> = Vec::new();
    t.sqrt().unwrap().write_bytes(&mut out).unwrap();
    out.chunks_exact(4).map(|c| u32::from_le_bytes(c.try_into().unwrap())).collect()
}

/// `Tensor::sqr`: each element times itself.
#[verifier::external_body]
pub(crate) fn sqr(x: &Vec<u32>) -> (r: Vec<u32>)
    ensures
        r@.len() == x@.len(),
        forall|i: int| 0 <= i < x@.len() ==> agrees(#[trigger] r@[i], fmul(x@[i], x@[i])),
{
    let bytes: Vec<u8> = x.iter().flat_map(|b| b.to_ne_bytes()).collect();
    let t = Tensor::from_raw_buffer(&bytes, F32, &[x.len()], &Cpu).unwrap();
    let mut out: Vec<u8> = Vec::new();
    t.sqr().unwrap().write_bytes(&mut out).unwrap();
    out.chunks_exact(4).map(|c| u32::from_le_bytes(c.try_into().unwrap())).collect()
}

/// `Tensor::recip`: one divided by each element.
#[verifier::external_body]
pub(crate) fn recip(x: &Vec<u32>) -> (r: Vec<u32>)
    ensures
        r@.len() == x@.len(),
        forall|i: int| 0 <= i < x@.len() ==> agrees(#[trigger] r@[i], fdiv(ONE, x@[i])),
{
    let bytes: Vec<u8> = x.iter().flat_map(|b| b.to_ne_bytes()).collect();
    let t = Tensor::from_raw_buffer(&bytes, F32, &[x.len()], &Cpu).unwrap();
    let mut out: Vec<u8> = Vec::new();
    t.recip().unwrap().write_bytes(&mut out).unwrap();
    out.chunks_exact(4).map(|c| u32::from_le_bytes(c.try_into().unwrap())).collect()
}

/// `Tensor::silu`: `x / (1 + exp(-x))` of each element.
#[verifier::external_body]
pub(crate) fn silu(x: &Vec<u32>) -> (r: Vec<u32>)
    ensures
        r@.len() == x@.len(),
        forall|i: int| 0 <= i < x@.len() ==> silu_gives(x@[i], #[trigger] r@[i]),
{
    let bytes: Vec<u8> = x.iter().flat_map(|b| b.to_ne_bytes()).collect();
    let t = Tensor::from_raw_buffer(&bytes, F32, &[x.len()], &Cpu).unwrap();
    let mut out: Vec<u8> = Vec::new();
    t.silu().unwrap().write_bytes(&mut out).unwrap();
    out.chunks_exact(4).map(|c| u32::from_le_bytes(c.try_into().unwrap())).collect()
}

/// `Tensor::neg`: flips the sign bit of each element.
#[verifier::external_body]
pub(crate) fn neg(x: &Vec<u32>) -> (r: Vec<u32>)
    ensures
        r@.len() == x@.len(),
        forall|i: int| 0 <= i < x@.len() ==> #[trigger] r@[i] == negated(x@[i]),
{
    let bytes: Vec<u8> = x.iter().flat_map(|b| b.to_ne_bytes()).collect();
    let t = Tensor::from_raw_buffer(&bytes, F32, &[x.len()], &Cpu).unwrap();
    let mut out: Vec<u8> = Vec::new();
    t.neg().unwrap().write_bytes(&mut out).unwrap();
    out.chunks_exact(4).map(|c| u32::from_le_bytes(c.try_into().unwrap())).collect()
}

/// `Tensor::abs`: clears the sign bit of each element.
#[verifier::external_body]
pub(crate) fn abs(x: &Vec<u32>) -> (r: Vec<u32>)
    ensures
        r@.len() == x@.len(),
        forall|i: int| 0 <= i < x@.len() ==> #[trigger] r@[i] == magnitude(x@[i]),
{
    let bytes: Vec<u8> = x.iter().flat_map(|b| b.to_ne_bytes()).collect();
    let t = Tensor::from_raw_buffer(&bytes, F32, &[x.len()], &Cpu).unwrap();
    let mut out: Vec<u8> = Vec::new();
    t.abs().unwrap().write_bytes(&mut out).unwrap();
    out.chunks_exact(4).map(|c| u32::from_le_bytes(c.try_into().unwrap())).collect()
}

/// `Tensor::relu`: the larger of each element and zero.
#[verifier::external_body]
pub(crate) fn relu(x: &Vec<u32>) -> (r: Vec<u32>)
    ensures
        r@.len() == x@.len(),
        forall|i: int| 0 <= i < x@.len() ==> relu_gives(x@[i], #[trigger] r@[i]),
{
    let bytes: Vec<u8> = x.iter().flat_map(|b| b.to_ne_bytes()).collect();
    let t = Tensor::from_raw_buffer(&bytes, F32, &[x.len()], &Cpu).unwrap();
    let mut out: Vec<u8> = Vec::new();
    t.relu().unwrap().write_bytes(&mut out).unwrap();
    out.chunks_exact(4).map(|c| u32::from_le_bytes(c.try_into().unwrap())).collect()
}

/// `Tensor::affine`: `x * mul + add`, both scalars rounded to single precision first.
#[verifier::external_body]
pub(crate) fn affine(x: &Vec<u32>, mul: u64, add: u64) -> (r: Vec<u32>)
    ensures
        r@.len() == x@.len(),
        forall|i: int| 0 <= i < x@.len() ==> affine_gives(x@[i], mul, add, #[trigger] r@[i]),
{
    let bytes: Vec<u8> = x.iter().flat_map(|b| b.to_ne_bytes()).collect();
    let t = Tensor::from_raw_buffer(&bytes, F32, &[x.len()], &Cpu).unwrap();
    let [mul, add] = [mul, add].map(|v| {
        let v = Tensor::from_raw_buffer(&v.to_ne_bytes(), F64, &[], &Cpu).unwrap();
        v.to_scalar().unwrap()
    });
    let mut out: Vec<u8> = Vec::new();
    t.affine(mul, add).unwrap().write_bytes(&mut out).unwrap();
    out.chunks_exact(4).map(|c| u32::from_le_bytes(c.try_into().unwrap())).collect()
}

/// `Tensor::powf`: `x` to the power `e`, the exponent rounded to single precision first.
#[verifier::external_body]
pub(crate) fn powf(x: &Vec<u32>, e: u64) -> (r: Vec<u32>)
    ensures
        r@.len() == x@.len(),
        forall|i: int| 0 <= i < x@.len() ==> powf_gives(x@[i], single(e), #[trigger] r@[i]),
{
    let bytes: Vec<u8> = x.iter().flat_map(|b| b.to_ne_bytes()).collect();
    let t = Tensor::from_raw_buffer(&bytes, F32, &[x.len()], &Cpu).unwrap();
    let e = Tensor::from_raw_buffer(&e.to_ne_bytes(), F64, &[], &Cpu).unwrap();
    let mut out: Vec<u8> = Vec::new();
    t.powf(e.to_scalar().unwrap()).unwrap().write_bytes(&mut out).unwrap();
    out.chunks_exact(4).map(|c| u32::from_le_bytes(c.try_into().unwrap())).collect()
}

/// `Tensor::minimum` with a scalar, which is rounded to single precision first: the smaller of the
/// two, the element if they do not compare.
#[verifier::external_body]
pub(crate) fn minimum(x: &Vec<u32>, hi: u64) -> (r: Vec<u32>)
    ensures
        r@.len() == x@.len(),
        forall|i: int| 0 <= i < x@.len() ==> minimum_gives(x@[i], hi, #[trigger] r@[i]),
{
    let bytes: Vec<u8> = x.iter().flat_map(|b| b.to_ne_bytes()).collect();
    let t = Tensor::from_raw_buffer(&bytes, F32, &[x.len()], &Cpu).unwrap();
    let hi = Tensor::from_raw_buffer(&hi.to_ne_bytes(), F64, &[], &Cpu).unwrap();
    let hi = hi.to_dtype(F32).unwrap().broadcast_as(x.len()).unwrap();
    let mut out: Vec<u8> = Vec::new();
    t.minimum(&hi).unwrap().write_bytes(&mut out).unwrap();
    out.chunks_exact(4).map(|c| u32::from_le_bytes(c.try_into().unwrap())).collect()
}

/// `Tensor::clamp` with scalar bounds, which are rounded to single precision first: the larger of
/// the element and the lower bound, then the smaller of that and the upper bound.
#[verifier::external_body]
pub(crate) fn clamp(x: &Vec<u32>, lo: u64, hi: u64) -> (r: Vec<u32>)
    ensures
        r@.len() == x@.len(),
        forall|i: int| 0 <= i < x@.len() ==> clamp_gives(x@[i], lo, hi, #[trigger] r@[i]),
{
    let bytes: Vec<u8> = x.iter().flat_map(|b| b.to_ne_bytes()).collect();
    let t = Tensor::from_raw_buffer(&bytes, F32, &[x.len()], &Cpu).unwrap();
    let [lo, hi] = [lo, hi].map(|v| {
        let end = Tensor::from_raw_buffer(&v.to_ne_bytes(), F64, &[], &Cpu);
        end.unwrap().to_dtype(F32).unwrap().broadcast_as(x.len()).unwrap()
    });
    let mut out = Vec::new();
    t.clamp(&lo, &hi).unwrap().write_bytes(&mut out).unwrap();
    out.chunks_exact(4).map(|c| u32::from_le_bytes(c.try_into().unwrap())).collect()
}

/// `Tensor::add` on two lists of one length: the correctly rounded sum of each pair, which is minus
/// infinity if the second is and takes the first in.
#[verifier::external_body]
pub(crate) fn plus(a: &Vec<u32>, b: &Vec<u32>) -> (r: Vec<u32>)
    requires
        a@.len() == b@.len(),
    ensures
        r@.len() == a@.len(),
        forall|i: int| 0 <= i < a@.len() ==> agrees(#[trigger] r@[i], fadd(a@[i], b@[i])),
        forall|i: int|
            0 <= i < a@.len() && b@[i] == NEG_INFINITY && absorbed(a@[i]) ==> #[trigger] r@[i]
                == NEG_INFINITY,
{
    let left: Vec<u8> = a.iter().flat_map(|v| v.to_ne_bytes()).collect();
    let left = Tensor::from_raw_buffer(&left, F32, &[a.len()], &Cpu).unwrap();
    let right: Vec<u8> = b.iter().flat_map(|v| v.to_ne_bytes()).collect();
    let right = Tensor::from_raw_buffer(&right, F32, &[b.len()], &Cpu).unwrap();
    let mut out: Vec<u8> = Vec::new();
    left.add(&right).unwrap().write_bytes(&mut out).unwrap();
    out.chunks_exact(4).map(|c| u32::from_le_bytes(c.try_into().unwrap())).collect()
}

/// `Tensor::sub` on two lists of one length: the correctly rounded difference of each pair.
#[verifier::external_body]
pub(crate) fn minus(a: &Vec<u32>, b: &Vec<u32>) -> (r: Vec<u32>)
    requires
        a@.len() == b@.len(),
    ensures
        r@.len() == a@.len(),
        forall|i: int| 0 <= i < a@.len() ==> agrees(#[trigger] r@[i], fsub(a@[i], b@[i])),
{
    let left: Vec<u8> = a.iter().flat_map(|v| v.to_ne_bytes()).collect();
    let left = Tensor::from_raw_buffer(&left, F32, &[a.len()], &Cpu).unwrap();
    let right: Vec<u8> = b.iter().flat_map(|v| v.to_ne_bytes()).collect();
    let right = Tensor::from_raw_buffer(&right, F32, &[b.len()], &Cpu).unwrap();
    let mut out: Vec<u8> = Vec::new();
    left.sub(&right).unwrap().write_bytes(&mut out).unwrap();
    out.chunks_exact(4).map(|c| u32::from_le_bytes(c.try_into().unwrap())).collect()
}

/// `Tensor::mul` on two lists of one length: the correctly rounded product of each pair.
#[verifier::external_body]
pub(crate) fn times(a: &Vec<u32>, b: &Vec<u32>) -> (r: Vec<u32>)
    requires
        a@.len() == b@.len(),
    ensures
        r@.len() == a@.len(),
        forall|i: int| 0 <= i < a@.len() ==> agrees(#[trigger] r@[i], fmul(a@[i], b@[i])),
{
    let left: Vec<u8> = a.iter().flat_map(|v| v.to_ne_bytes()).collect();
    let left = Tensor::from_raw_buffer(&left, F32, &[a.len()], &Cpu).unwrap();
    let right: Vec<u8> = b.iter().flat_map(|v| v.to_ne_bytes()).collect();
    let right = Tensor::from_raw_buffer(&right, F32, &[b.len()], &Cpu).unwrap();
    let mut out: Vec<u8> = Vec::new();
    left.mul(&right).unwrap().write_bytes(&mut out).unwrap();
    out.chunks_exact(4).map(|c| u32::from_le_bytes(c.try_into().unwrap())).collect()
}

/// `Tensor::div` on two lists of one length: the correctly rounded quotient of each pair.
#[verifier::external_body]
pub(crate) fn over(a: &Vec<u32>, b: &Vec<u32>) -> (r: Vec<u32>)
    requires
        a@.len() == b@.len(),
    ensures
        r@.len() == a@.len(),
        forall|i: int| 0 <= i < a@.len() ==> agrees(#[trigger] r@[i], fdiv(a@[i], b@[i])),
{
    let left: Vec<u8> = a.iter().flat_map(|v| v.to_ne_bytes()).collect();
    let left = Tensor::from_raw_buffer(&left, F32, &[a.len()], &Cpu).unwrap();
    let right: Vec<u8> = b.iter().flat_map(|v| v.to_ne_bytes()).collect();
    let right = Tensor::from_raw_buffer(&right, F32, &[b.len()], &Cpu).unwrap();
    let mut out: Vec<u8> = Vec::new();
    left.div(&right).unwrap().write_bytes(&mut out).unwrap();
    out.chunks_exact(4).map(|c| u32::from_le_bytes(c.try_into().unwrap())).collect()
}

/// `Tensor::sum_keepdim`: the sum along one axis, added in an order that
/// depends on the axis and the machine.
#[verifier::external_body]
pub(crate) fn sum_keepdim(shape: &Vec<usize>, x: &Vec<u32>, axis: usize) -> (r: Vec<u32>)
    requires
        axis < shape@.len(),
        (NdView { shape: shape@, data: x@ }).wf(),
    ensures
        r@.len() == outer(shape@, axis as int) * inner(shape@, axis as int),
        forall|i: int|
            0 <= i < r@.len() ==> sum_gives(
                (NdView { shape: shape@, data: x@ }).along(axis as int, i),
                #[trigger] r@[i],
            ),
{
    let bytes: Vec<u8> = x.iter().flat_map(|b| b.to_ne_bytes()).collect();
    let t = Tensor::from_raw_buffer(&bytes, F32, shape, &Cpu).unwrap();
    let mut out: Vec<u8> = Vec::new();
    t.sum_keepdim(axis).unwrap().write_bytes(&mut out).unwrap();
    out.chunks_exact(4).map(|c| u32::from_le_bytes(c.try_into().unwrap())).collect()
}

/// `Tensor::mean_keepdim`: the sum along one axis times the reciprocal of its
/// length.
#[verifier::external_body]
pub(crate) fn mean_keepdim(shape: &Vec<usize>, x: &Vec<u32>, axis: usize) -> (r: Vec<u32>)
    requires
        axis < shape@.len(),
        (NdView { shape: shape@, data: x@ }).wf(),
    ensures
        r@.len() == outer(shape@, axis as int) * inner(shape@, axis as int),
        forall|i: int|
            0 <= i < r@.len() ==> mean_gives(
                (NdView { shape: shape@, data: x@ }).along(axis as int, i),
                #[trigger] r@[i],
            ),
{
    let bytes: Vec<u8> = x.iter().flat_map(|b| b.to_ne_bytes()).collect();
    let t = Tensor::from_raw_buffer(&bytes, F32, shape, &Cpu).unwrap();
    let mut out: Vec<u8> = Vec::new();
    t.mean_keepdim(axis).unwrap().write_bytes(&mut out).unwrap();
    out.chunks_exact(4).map(|c| u32::from_le_bytes(c.try_into().unwrap())).collect()
}

/// `Tensor::max_keepdim`: the running maximum along one axis of a tensor that
/// is not empty.
#[verifier::external_body]
pub(crate) fn max_keepdim(shape: &Vec<usize>, x: &Vec<u32>, axis: usize) -> (r: Vec<u32>)
    requires
        axis < shape@.len(),
        (NdView { shape: shape@, data: x@ }).wf(),
        x@.len() > 0,
    ensures
        r@.len() == outer(shape@, axis as int) * inner(shape@, axis as int),
        forall|i: int|
            0 <= i < r@.len() ==> #[trigger] r@[i] == maximum(
                (NdView { shape: shape@, data: x@ }).along(axis as int, i),
            ),
{
    let bytes: Vec<u8> = x.iter().flat_map(|b| b.to_ne_bytes()).collect();
    let t = Tensor::from_raw_buffer(&bytes, F32, shape, &Cpu).unwrap();
    let mut out: Vec<u8> = Vec::new();
    t.max_keepdim(axis).unwrap().write_bytes(&mut out).unwrap();
    out.chunks_exact(4).map(|c| u32::from_le_bytes(c.try_into().unwrap())).collect()
}

/// Row `i` of the left operand of a matrix product, for the element `i` of the result.
pub open spec fn left_row(a: Seq<u32>, k: int, n: int, i: int) -> Seq<u32> {
    a.subrange((i / n) * k, (i / n) * k + k)
}

/// Column of the right operand of a batched matrix product, for the element `i` of the result.
pub open spec fn right_column(b: Seq<u32>, m: int, k: int, n: int, i: int) -> Seq<u32> {
    Seq::new(k as nat, |t: int| b[(((i / n) / m) * k + t) * n + i % n])
}

/// `Tensor::matmul` on two stacks of `batch` matrices, `[m, k]` and `[k, n]`: each element is an
/// inner product of a row and a column, accumulated in an order that depends on the machine and
/// on the number of threads.
#[verifier::external_body]
pub(crate) fn matmul(a: &Vec<u32>, b: &Vec<u32>, batch: usize, m: usize, k: usize, n: usize) -> (r: Vec<u32>)
    requires
        a@.len() == batch * m * k,
        b@.len() == batch * k * n,
        0 < batch * m * n <= usize::MAX,
        k > 0,
    ensures
        r@.len() == batch * m * n,
        forall|i: int|
            0 <= i < r@.len() ==> dot_gives(
                left_row(a@, k as int, n as int, i),
                right_column(b@, m as int, k as int, n as int, i),
                #[trigger] r@[i],
            ),
{
    let left: Vec<u8> = a.iter().flat_map(|v| v.to_ne_bytes()).collect();
    let left = Tensor::from_raw_buffer(&left, F32, &[batch, m, k], &Cpu).unwrap();
    let right: Vec<u8> = b.iter().flat_map(|v| v.to_ne_bytes()).collect();
    let right = Tensor::from_raw_buffer(&right, F32, &[batch, k, n], &Cpu).unwrap();
    let mut out: Vec<u8> = Vec::new();
    left.matmul(&right).unwrap().write_bytes(&mut out).unwrap();
    out.chunks_exact(4).map(|c| u32::from_le_bytes(c.try_into().unwrap())).collect()
}

/// `Tensor::index_add` along the first axis of an `[n, width]` table, with each target row named at
/// most once: row `rows[q]` gains row `q` of `source`, every other row stays as it is.
#[verifier::external_body]
pub(crate) fn index_add(x: &Vec<u32>, n: usize, width: usize, rows: &Vec<usize>, source: &Vec<u32>) -> (r: Vec<u32>)
    requires
        width > 0,
        x@.len() == n * width,
        source@.len() == rows@.len() * width,
        forall|q: int| 0 <= q < rows@.len() ==> rows@[q] < n,
        forall|p: int, q: int| 0 <= p < q < rows@.len() ==> rows@[p] != rows@[q],
    ensures
        r@.len() == x@.len(),
        forall|i: int|
            0 <= i < x@.len() && !rows@.contains((i / width as int) as usize) ==> #[trigger] r@[i]
                == x@[i],
        forall|q: int, j: int|
            0 <= q < rows@.len() && 0 <= j < width ==> agrees(
                r@[rows@[q] * width + j],
                #[trigger] fadd(x@[rows@[q] * width + j], source@[q * width + j]),
            ),
{
    let [table, extra] = [(x, n), (source, rows.len())].map(|(d, k)| {
        let bytes: Vec<u8> = d.iter().flat_map(|v| v.to_ne_bytes()).collect();
        Tensor::from_raw_buffer(&bytes, F32, &[k, width], &Cpu).unwrap()
    });
    let ids = Tensor::from_iter(rows.iter().map(|q| *q as i64), &Cpu).unwrap();
    let mut out: Vec<u8> = Vec::new();
    table.index_add(&ids, &extra, 0).unwrap().write_bytes(&mut out).unwrap();
    out.chunks_exact(4).map(|c| u32::from_le_bytes(c.try_into().unwrap())).collect()
}

} // verus!
