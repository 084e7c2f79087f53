//! Operations on tensors: elementwise maps, broadcast arithmetic, reductions and products.
//!
//! Each operation states exactly for which shapes it succeeds, the shape of its result, and the
//! relation of every result element to the operands.

use vstd::prelude::*;

use crate::error::TensorError;
use crate::kernel;
use crate::shape::{axes2, common_shape, count, same_shape};
use crate::tensor::Tensor;

#[allow(unused_imports)]
use crate::bits::{absorbed, agrees, magnitude, negated, NEG_INFINITY, ONE, ZERO};
#[allow(unused_imports)]
use crate::kernel::{
    affine_gives, clamp_gives, dot_gives, exp_gives, fadd, fdiv, fmul, fsqrt, fsub, left_row,
    log_gives, maximum, mean_gives, minimum_gives, powf_gives, relu_gives, right_column, silu_gives,
    single, sum_gives,
};
#[allow(unused_imports)]
use crate::shape::{
    broadcast_shape, fits, inner, lemma_axis, lemma_broadcast_expands, lemma_divide, lemma_flat,
    lemma_product_le_span, lemma_span_positive, lemma_span_update, outer, product, shape2,
    source_index, span,
};
#[allow(unused_imports)]
use crate::tensor::{expanded, swapped, V};

verus! {

/// The elementwise maps.
pub enum Unary {
    Exp,
    Log,
    Sqrt,
    Sqr,
    Recip,
    Silu,
    Neg,
    Abs,
    Relu,
    Affine(u64, u64),
    Powf(u64),
    Minimum(u64),
    Clamp(u64, u64),
}

/// The arithmetic of two tensors.
pub enum Binary {
    Add,
    Sub,
    Mul,
    Div,
}

/// The reductions along one axis.
pub enum Reduce {
    Sum,
    Mean,
    Max,
}

/// `r` may come out of the map on `x`.
pub open spec fn unary_gives(op: Unary, x: u32, r: u32) -> bool {
    match op {
        Unary::Exp => exp_gives(x, r),
        Unary::Log => log_gives(x, r),
        Unary::Sqrt => agrees(r, fsqrt(x)),
        Unary::Sqr => agrees(r, fmul(x, x)),
        Unary::Recip => agrees(r, fdiv(ONE, x)),
        Unary::Silu => silu_gives(x, r),
        Unary::Neg => r == negated(x),
        Unary::Abs => r == magnitude(x),
        Unary::Relu => relu_gives(x, r),
        Unary::Affine(mul, add) => affine_gives(x, mul, add, r),
        Unary::Powf(e) => powf_gives(x, single(e), r),
        Unary::Minimum(hi) => minimum_gives(x, hi, r),
        Unary::Clamp(lo, hi) => clamp_gives(x, lo, hi, r),
    }
}

/// The correctly rounded sum: minus infinity where the second operand is and takes the first in.
pub open spec fn added(a: u32, b: u32) -> u32 {
    if b == NEG_INFINITY && absorbed(a) {
        NEG_INFINITY
    } else {
        fadd(a, b)
    }
}

/// The correctly rounded result of the arithmetic.
pub open spec fn binary(op: Binary, a: u32, b: u32) -> u32 {
    match op {
        Binary::Add => added(a, b),
        Binary::Sub => fsub(a, b),
        Binary::Mul => fmul(a, b),
        Binary::Div => fdiv(a, b),
    }
}

/// `r` may come out of reducing the list.
pub open spec fn reduce_gives(op: Reduce, s: Seq<u32>, r: u32) -> bool {
    match op {
        Reduce::Sum => sum_gives(s, r),
        Reduce::Mean => mean_gives(s, r),
        Reduce::Max => r == maximum(s),
    }
}

/// `y` is the map of `x`.
pub open spec fn mapped(op: Unary, x: V, y: V) -> bool {
    &&& y.shape == x.shape
    &&& y.data.len() == x.data.len()
    &&& forall|i: int| 0 <= i < x.data.len() ==> unary_gives(op, x.data[i], #[trigger] y.data[i])
}

/// `y` combines two tensors of one shape.
pub open spec fn paired(op: Binary, a: V, b: V, y: V) -> bool {
    &&& a.shape == b.shape
    &&& y.shape == a.shape
    &&& y.data.len() == a.data.len()
    &&& forall|i: int|
        0 <= i < a.data.len() ==> agrees(#[trigger] y.data[i], binary(op, a.data[i], b.data[i]))
}

/// The shape of the combination of two tensors that are repeated to a common shape.
pub open spec fn combined_shape(a: Seq<usize>, b: Seq<usize>) -> Option<Seq<usize>> {
    match broadcast_shape(a, b) {
        Some(s) => if fits(s) {
            Some(s)
        } else {
            None
        },
        None => None,
    }
}

/// `y` combines two tensors that are repeated to a common shape.
pub open spec fn combined(op: Binary, a: V, b: V, y: V) -> bool {
    &&& combined_shape(a.shape, b.shape) == Some(y.shape)
    &&& y.data.len() == product(y.shape)
    &&& forall|i: int|
        0 <= i < y.data.len() ==> agrees(
            #[trigger] y.data[i],
            binary(
                op,
                a.data[source_index(a.shape, y.shape, i)],
                b.data[source_index(b.shape, y.shape, i)],
            ),
        )
}

/// `y` reduces one axis of `x` to size one.
pub open spec fn reduced(op: Reduce, axis: int, x: V, y: V) -> bool {
    &&& 0 <= axis < x.shape.len()
    &&& y.shape == x.shape.update(axis, 1)
    &&& y.data.len() == outer(x.shape, axis) * inner(x.shape, axis)
    &&& forall|i: int|
        0 <= i < y.data.len() ==> reduce_gives(op, x.along(axis, i), #[trigger] y.data[i])
}

/// The shape of a stack of matrix products. The number of matrices must agree, not the axes that
/// count them; an empty product needs no agreement at all.
pub open spec fn matmul_shape(a: Seq<usize>, b: Seq<usize>) -> Option<Seq<usize>> {
    let r = a.len() as int;
    if r >= 2 && b.len() == r {
        let c = a.drop_last().push(b[r - 1]);
        if fits(c) && (product(c) == 0 || a[r - 1] == 0 || (a[r - 1] == b[r - 2] && product(
            a.take(r - 2),
        ) == product(b.take(r - 2)))) {
            Some(c)
        } else {
            None
        }
    } else {
        None
    }
}

/// `y` is the stack of matrix products of `a` and `b`.
pub open spec fn multiplied(a: V, b: V, y: V) -> bool {
    let r = a.shape.len() as int;
    let m = a.shape[r - 2] as int;
    let k = a.shape[r - 1] as int;
    let n = b.shape[r - 1] as int;
    &&& matmul_shape(a.shape, b.shape) == Some(y.shape)
    &&& y.data.len() == product(y.shape)
    &&& forall|i: int|
        0 <= i < y.data.len() ==> if k == 0 {
            #[trigger] y.data[i] == ZERO
        } else {
            dot_gives(left_row(a.data, k, n, i), right_column(b.data, m, k, n, i), y.data[i])
        }
}

/// The shape of `x · wᵀ` for a `[out, in]` weight.
pub open spec fn linear_shape(x: Seq<usize>, w: Seq<usize>) -> Option<Seq<usize>> {
    if w.len() == 2 {
        let y = x.drop_last().push(w[0]);
        if fits(y) && (product(y) == 0 || x.last() == 0 || x.last() == w[1]) {
            Some(y)
        } else {
            None
        }
    } else {
        None
    }
}

/// `y = x · wᵀ`: every element is the inner product of a row of `x` and a row of `w`.
pub open spec fn linear_gives(x: V, w: V, y: V) -> bool {
    let k = x.shape.last() as int;
    let n = w.shape[0] as int;
    &&& linear_shape(x.shape, w.shape) == Some(y.shape)
    &&& y.data.len() == product(y.shape)
    &&& forall|i: int|
        0 <= i < y.data.len() ==> if k == 0 {
            #[trigger] y.data[i] == ZERO
        } else {
            dot_gives(x.row(k, i / n), w.row(k, i % n), y.data[i])
        }
}

/// A tensor of the same shape with other data of the same length.
fn same_layout(x: &Tensor, data: Vec<u32>) -> (y: Tensor)
    requires
        data@.len() == x@.data.len(),
    ensures
        y@.wf(),
        y@.shape == x@.shape,
        y@.data == data@,
{
    let shape = crate::shape::prefix(x.dims(), x.rank());
    assert(shape@ =~= x@.shape);
    match Tensor::new(shape, data) {
        Ok(y) => y,
        Err(_) => x.duplicate(),
    }
}

/// `e^x` of every element.
pub fn exp(x: &Tensor) -> (y: Tensor)
    ensures
        mapped(Unary::Exp, x@, y@),
        y@.wf(),
{
    same_layout(x, kernel::exp(x.data()))
}

/// The natural logarithm of every element.
pub fn log(x: &Tensor) -> (y: Tensor)
    ensures
        mapped(Unary::Log, x@, y@),
        y@.wf(),
{
    same_layout(x, kernel::log(x.data()))
}

/// The square root of every element.
pub fn sqrt(x: &Tensor) -> (y: Tensor)
    ensures
        mapped(Unary::Sqrt, x@, y@),
        y@.wf(),
{
    same_layout(x, kernel::sqrt(x.data()))
}

/// The square of every element.
pub fn sqr(x: &Tensor) -> (y: Tensor)
    ensures
        mapped(Unary::Sqr, x@, y@),
        y@.wf(),
{
    same_layout(x, kernel::sqr(x.data()))
}

/// The reciprocal of every element.
pub fn recip(x: &Tensor) -> (y: Tensor)
    ensures
        mapped(Unary::Recip, x@, y@),
        y@.wf(),
{
    same_layout(x, kernel::recip(x.data()))
}

/// `x / (1 + e^-x)` of every element.
pub fn silu(x: &Tensor) -> (y: Tensor)
    ensures
        mapped(Unary::Silu, x@, y@),
        y@.wf(),
{
    same_layout(x, kernel::silu(x.data()))
}

/// The negative of every element.
pub fn neg(x: &Tensor) -> (y: Tensor)
    ensures
        mapped(Unary::Neg, x@, y@),
        y@.wf(),
{
    same_layout(x, kernel::neg(x.data()))
}

/// The absolute value of every element.
pub fn abs(x: &Tensor) -> (y: Tensor)
    ensures
        mapped(Unary::Abs, x@, y@),
        y@.wf(),
{
    same_layout(x, kernel::abs(x.data()))
}

/// The positive part of every element.
pub fn relu(x: &Tensor) -> (y: Tensor)
    ensures
        mapped(Unary::Relu, x@, y@),
        y@.wf(),
{
    same_layout(x, kernel::relu(x.data()))
}

/// `x * mul + add` of every element; the scalars are double-precision patterns.
pub fn affine(x: &Tensor, mul: u64, add: u64) -> (y: Tensor)
    ensures
        mapped(Unary::Affine(mul, add), x@, y@),
        y@.wf(),
{
    same_layout(x, kernel::affine(x.data(), mul, add))
}

/// Every element to the power `e`.
pub fn powf(x: &Tensor, e: u64) -> (y: Tensor)
    ensures
        mapped(Unary::Powf(e), x@, y@),
        y@.wf(),
{
    same_layout(x, kernel::powf(x.data(), e))
}

/// Every element, at most `hi`.
pub fn minimum(x: &Tensor, hi: u64) -> (y: Tensor)
    ensures
        mapped(Unary::Minimum(hi), x@, y@),
        y@.wf(),
{
    same_layout(x, kernel::minimum(x.data(), hi))
}

/// Every element, held between `lo` and `hi`.
pub fn clamp(x: &Tensor, lo: u64, hi: u64) -> (y: Tensor)
    ensures
        mapped(Unary::Clamp(lo, hi), x@, y@),
        y@.wf(),
{
    same_layout(x, kernel::clamp(x.data(), lo, hi))
}

/// The sum of two tensors of one shape.
pub fn same_add(a: &Tensor, b: &Tensor) -> (r: Result<Tensor, TensorError>)
    ensures
        r is Ok <==> a@.shape == b@.shape,
        r matches Ok(y) ==> paired(Binary::Add, a@, b@, y@) && y@.wf(),
        r matches Err(e) ==> e == TensorError::Shape,
{
    if !same_shape(a.dims(), b.dims()) {
        return Err(TensorError::Shape);
    }
    Ok(same_layout(a, kernel::plus(a.data(), b.data())))
}

/// The sum of two tensors that are repeated to their common shape.
pub fn broadcast_add(a: &Tensor, b: &Tensor) -> (r: Result<Tensor, TensorError>)
    ensures
        r is Ok <==> combined_shape(a@.shape, b@.shape) is Some,
        r matches Ok(y) ==> combined(Binary::Add, a@, b@, y@) && y@.wf(),
        r matches Err(e) ==> e == TensorError::Shape,
{
    let (a, b) = align(a, b)?;
    Ok(same_layout(&a, kernel::plus(a.data(), b.data())))
}

/// The difference of two tensors that are repeated to their common shape.
pub fn broadcast_sub(a: &Tensor, b: &Tensor) -> (r: Result<Tensor, TensorError>)
    ensures
        r is Ok <==> combined_shape(a@.shape, b@.shape) is Some,
        r matches Ok(y) ==> combined(Binary::Sub, a@, b@, y@) && y@.wf(),
        r matches Err(e) ==> e == TensorError::Shape,
{
    let (a, b) = align(a, b)?;
    Ok(same_layout(&a, kernel::minus(a.data(), b.data())))
}

/// The product of two tensors of one shape.
pub fn same_mul(a: &Tensor, b: &Tensor) -> (r: Result<Tensor, TensorError>)
    ensures
        r is Ok <==> a@.shape == b@.shape,
        r matches Ok(y) ==> paired(Binary::Mul, a@, b@, y@) && y@.wf(),
        r matches Err(e) ==> e == TensorError::Shape,
{
    if !same_shape(a.dims(), b.dims()) {
        return Err(TensorError::Shape);
    }
    Ok(same_layout(a, kernel::times(a.data(), b.data())))
}

/// The product of two tensors that are repeated to their common shape.
pub fn broadcast_mul(a: &Tensor, b: &Tensor) -> (r: Result<Tensor, TensorError>)
    ensures
        r is Ok <==> combined_shape(a@.shape, b@.shape) is Some,
        r matches Ok(y) ==> combined(Binary::Mul, a@, b@, y@) && y@.wf(),
        r matches Err(e) ==> e == TensorError::Shape,
{
    let (a, b) = align(a, b)?;
    Ok(same_layout(&a, kernel::times(a.data(), b.data())))
}

/// The quotient of two tensors that are repeated to their common shape.
pub fn broadcast_div(a: &Tensor, b: &Tensor) -> (r: Result<Tensor, TensorError>)
    ensures
        r is Ok <==> combined_shape(a@.shape, b@.shape) is Some,
        r matches Ok(y) ==> combined(Binary::Div, a@, b@, y@) && y@.wf(),
        r matches Err(e) ==> e == TensorError::Shape,
{
    let (a, b) = align(a, b)?;
    Ok(same_layout(&a, kernel::over(a.data(), b.data())))
}

/// Repeats two tensors to their common shape.
fn align(a: &Tensor, b: &Tensor) -> (r: Result<(Tensor, Tensor), TensorError>)
    ensures
        r is Ok <==> combined_shape(a@.shape, b@.shape) is Some,
        r matches Ok(p) ==> ({
            let s = combined_shape(a@.shape, b@.shape).unwrap();
            p.0@ == expanded(a@, s) && p.1@ == expanded(b@, s) && p.0@.wf() && p.1@.wf()
        }),
        r matches Err(e) ==> e == TensorError::Shape,
{
    match common_shape(a.dims(), b.dims()) {
        None => Err(TensorError::Shape),
        Some(s) => {
            proof {
                lemma_broadcast_expands(a@.shape, b@.shape);
            }
            let t = crate::shape::prefix(&s, s.len());
            assert(t@ =~= s@);
            let a = a.broadcast_as(s)?;
            let b = b.broadcast_as(t)?;
            Ok((a, b))
        },
    }
}

/// The sum along one axis, which stays with size one.
pub fn sum_keepdim(x: &Tensor, axis: usize) -> (r: Result<Tensor, TensorError>)
    ensures
        r is Ok <==> axis < x@.shape.len(),
        r matches Ok(y) ==> reduced(Reduce::Sum, axis as int, x@, y@) && y@.wf(),
        r matches Err(e) ==> e == TensorError::Shape,
{
    if axis >= x.rank() {
        return Err(TensorError::Shape);
    }
    let data = kernel::sum_keepdim(x.dims(), x.data(), axis);
    let shape = flattened_axis(x, axis);
    Tensor::new(shape, data)
}

/// The mean along one axis, which stays with size one.
pub fn mean_keepdim(x: &Tensor, axis: usize) -> (r: Result<Tensor, TensorError>)
    ensures
        r is Ok <==> axis < x@.shape.len(),
        r matches Ok(y) ==> reduced(Reduce::Mean, axis as int, x@, y@) && y@.wf(),
        r matches Err(e) ==> e == TensorError::Shape,
{
    if axis >= x.rank() {
        return Err(TensorError::Shape);
    }
    let data = kernel::mean_keepdim(x.dims(), x.data(), axis);
    let shape = flattened_axis(x, axis);
    Tensor::new(shape, data)
}

/// The maximum along one axis, which stays with size one.
pub fn max_keepdim(x: &Tensor, axis: usize) -> (r: Result<Tensor, TensorError>)
    ensures
        r is Ok <==> axis < x@.shape.len() && x@.data.len() > 0,
        r matches Ok(y) ==> reduced(Reduce::Max, axis as int, x@, y@) && y@.wf(),
        r matches Err(e) ==> e == TensorError::Shape,
{
    if axis >= x.rank() || x.data().len() == 0 {
        return Err(TensorError::Shape);
    }
    let data = kernel::max_keepdim(x.dims(), x.data(), axis);
    let shape = flattened_axis(x, axis);
    Tensor::new(shape, data)
}

/// The shape of a tensor with one axis cut down to size one.
fn flattened_axis(x: &Tensor, axis: usize) -> (shape: Vec<usize>)
    requires
        axis < x@.shape.len(),
    ensures
        shape@ == x@.shape.update(axis as int, 1),
        fits(shape@),
        product(shape@) == outer(x@.shape, axis as int) * inner(x@.shape, axis as int),
{
    let mut shape = crate::shape::prefix(x.dims(), x.rank());
    assert(shape@ =~= x@.shape);
    shape.set(axis, 1);
    proof {
        lemma_span_update(x@.shape, axis as int, 1);
        lemma_axis(shape@, axis as int);
        let a: nat = outer(x@.shape, axis as int);
        let b: nat = inner(x@.shape, axis as int);
        assert(a * 1 * b == a * b) by (nonlinear_arith);
    }
    shape
}

/// The stack of matrix products of `a` (`[.., m, k]`) and `b` (`[.., k, n]`).
pub fn matmul(a: &Tensor, b: &Tensor) -> (r: Result<Tensor, TensorError>)
    ensures
        r is Ok <==> matmul_shape(a@.shape, b@.shape) is Some,
        r matches Ok(y) ==> multiplied(a@, b@, y@) && y@.wf(),
        r matches Err(e) ==> e == TensorError::Shape,
{
    let rank: usize = a.rank();
    if rank < 2 || b.rank() != rank {
        return Err(TensorError::Shape);
    }
    let m: usize = a.dims()[rank - 2];
    let k: usize = a.dims()[rank - 1];
    let k2: usize = b.dims()[rank - 2];
    let n: usize = b.dims()[rank - 1];
    let mut shape = crate::shape::prefix(a.dims(), rank - 1);
    shape.push(n);
    assert(shape@ =~= a@.shape.drop_last().push(n));
    if !crate::shape::check_fits(&shape) {
        return Err(TensorError::Shape);
    }
    let total: usize = count(&shape, 0, rank);
    assert(shape@.subrange(0, rank as int) =~= shape@);
    if total == 0 || k == 0 {
        return Tensor::full(shape, ZERO);
    }
    let batch: usize = count(a.dims(), 0, rank - 2);
    proof {
        assert(a@.shape.subrange(0, rank - 2) =~= a@.shape.take(rank - 2));
        assert(b@.shape.subrange(0, rank - 2) =~= b@.shape.take(rank - 2));
    }
    if k != k2 || batch != count(b.dims(), 0, rank - 2) {
        return Err(TensorError::Shape);
    }
    proof {
        lemma_matrix_count(a@.shape);
        lemma_matrix_count(b@.shape);
        lemma_matrix_count(shape@);
        assert(shape@.take(rank - 2) =~= a@.shape.take(rank - 2));
        lemma_product_le_span(shape@);
    }
    let data = kernel::matmul(a.data(), b.data(), batch, m, k, n);
    Tensor::new(shape, data)
}

/// The element count of a stack of matrices.
proof fn lemma_matrix_count(s: Seq<usize>)
    requires
        s.len() >= 2,
    ensures
        product(s) == product(s.take(s.len() - 2)) * (s[s.len() - 2] as nat) * (s[s.len() - 1] as nat),
{
    assert(s.drop_last().drop_last() =~= s.take(s.len() - 2));
    reveal_with_fuel(product, 3);
}

/// `x · wᵀ` for a weight `[out, in]`, on any `[.., in]` input.
pub fn linear(x: &Tensor, w: &Tensor) -> (r: Result<Tensor, TensorError>)
    requires
        x@.shape.len() > 0,
    ensures
        r is Ok <==> linear_shape(x@.shape, w@.shape) is Some,
        r matches Ok(y) ==> linear_gives(x@, w@, y@) && y@.wf(),
        r matches Err(e) ==> e == TensorError::Shape,
{
    let rank: usize = x.rank();
    let (out, _) = w.dims2()?;
    let width: usize = x.dims()[rank - 1];
    let rows: usize = count(x.dims(), 0, rank - 1);
    let ghost lead = x@.shape.drop_last();
    let mut shape = crate::shape::prefix(x.dims(), rank - 1);
    assert(shape@ =~= lead);
    shape.push(out);
    if !crate::shape::check_fits(&shape) {
        proof {
            assert(shape@ =~= lead.push(out));
        }
        return Err(TensorError::Shape);
    }
    proof {
        assert(x@.shape.subrange(0, rank - 1) =~= lead);
        assert(shape@.drop_last() =~= lead);
        assert(shape@ =~= lead.push(out));
        assert(lead.push(width) =~= x@.shape);
        lemma_flat_rows(lead, width);
        lemma_flat_rows(lead, out);
        assert(w@.shape[0] == out);
    }
    let flat = x.reshape(axes2(rows, width))?;
    let across = w.swap_axes(0)?;
    proof {
        assert(flat@.shape.drop_last().push(out) =~= shape2(rows, out));
        assert(flat@.shape.take(0) =~= across@.shape.take(0));
        assert(across@.shape =~= shape2(w@.shape[1], w@.shape[0]));
    }
    let y = matmul(&flat, &across)?;
    let r = y.reshape(shape)?;
    proof {
        let k = width as int;
        let n = out as int;
        assert forall|i: int| 0 <= i < r@.data.len() && k != 0 implies dot_gives(
            x@.row(k, i / n),
            w@.row(k, i % n),
            #[trigger] r@.data[i],
        ) by {
            lemma_linear_element(x@, w@, rows as int, k, n, i);
            assert(y@.data[i] == r@.data[i]);
        }
    }
    Ok(r)
}

/// Flattening the leading axes keeps a shape in memory.
proof fn lemma_flat_rows(lead: Seq<usize>, last: usize)
    requires
        fits(lead.push(last)),
    ensures
        product(lead) <= usize::MAX,
        fits(shape2(product(lead) as usize, last)),
        product(shape2(product(lead) as usize, last)) == product(lead.push(last)),
{
    let p = product(lead);
    let s = lead.push(last);
    assert(s.drop_last() =~= lead);
    lemma_product_le_span(lead);
    lemma_span_positive(lead);
    let d: nat = if last == 0 { 1 } else { last as nat };
    assert(span(lead) <= span(lead) * d) by (nonlinear_arith)
        requires
            d >= 1,
    ;
    let q = shape2(p as usize, last);
    assert(q.drop_last() =~= seq![p as usize]);
    assert(q.drop_last().drop_last() =~= Seq::<usize>::empty());
    reveal_with_fuel(product, 3);
    reveal_with_fuel(span, 3);
    let e: nat = if p == 0 { 1 } else { p };
    assert(1 * p == p && 1 * e == e);
    assert(e * d <= span(lead) * d) by (nonlinear_arith)
        requires
            e <= span(lead),
    ;
}

/// A column of the transposed weight is a row of the weight.
proof fn lemma_linear_element(x: V, w: V, rows: int, k: int, n: int, i: int)
    requires
        w.wf(),
        w.shape.len() == 2,
        w.shape[0] == n,
        w.shape[1] == k || rows * n == 0,
        k > 0,
        0 <= i < rows * n,
    ensures
        left_row(x.data, k, n, i) == x.row(k, i / n),
        right_column(swapped(w, 0).data, rows, k, n, i) == w.row(k, i % n),
{
    let s = w.shape;
    lemma_divide(i, rows, n);
    assert(s.skip(2) =~= Seq::<usize>::empty());
    assert(inner(s, 1) == 1);
    assert(s.drop_last().drop_last() =~= Seq::<usize>::empty());
    assert(product(s) == n * k) by {
        reveal_with_fuel(product, 3);
        assert(1 * n == n);
    }
    let t = swapped(w, 0).data;
    let q = i / n;
    assert(q / rows == 0) by {
        vstd::arithmetic::div_mod::lemma_basic_div(q, rows);
    }
    assert forall|j: int| 0 <= j < k implies #[trigger] t[((q / rows) * k + j) * n + i % n]
        == w.data[(i % n) * k + j] by {
        lemma_flat(j, i % n, k, n);
        assert(k * n == n * k) by (nonlinear_arith);
        assert(j / k == 0) by {
            vstd::arithmetic::div_mod::lemma_basic_div(j, k);
        }
        assert(j % k == j) by {
            vstd::arithmetic::div_mod::lemma_small_mod(j as nat, k as nat);
        }
        assert(0 * k == 0);
        let p = j * n + i % n;
        assert(p / 1 == p && p % 1 == 0);
        assert(0 * n == 0);
        assert(((i % n) * k + j) * 1 + 0 == (i % n) * k + j);
    }
    assert(right_column(t, rows, k, n, i) =~= w.row(k, i % n)) by {
        lemma_flat(i % n, k - 1, n, k);
    }
}

} // verus!
