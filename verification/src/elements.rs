//! Tensor operations read off element by element.
//!
//! What a contract says of whole tensors is said here of one element and the elements that it comes
//! from, by their coordinates.

use vstd::prelude::*;

#[allow(unused_imports)]
use crate::bits::{agrees, negated, DOUBLE_ONE, ONE};
#[allow(unused_imports)]
use crate::kernel::{
    affine_gives, dot_gives, exp_gives, fdiv, fmul, fsqrt, fsub, maximum, mean_gives, sum_gives,
};
#[allow(unused_imports)]
use crate::nn::{
    rms_norm_gives, rms_norm_steps, sigmoid_gives, sigmoid_steps, softmax_gives, softmax_steps,
    RmsSteps, SigmoidSteps, SoftmaxSteps,
};
#[allow(unused_imports)]
use crate::ops::{binary, combined, linear_gives, reduce_gives, reduced, Binary, Reduce};
#[allow(unused_imports)]
use crate::queries::coordinate;
#[allow(unused_imports)]
use crate::shape::{
    inner, lemma_axis, lemma_divide, lemma_flat, lemma_flat3, lemma_grid, outer, product, shape2,
    source_index,
};
#[allow(unused_imports)]
use crate::tensor::{joined, narrowed, rows_picked, swapped, NdView, V};
#[allow(unused_imports)]
use crate::tokens::lemma_source_self;
#[allow(unused_imports)]
use vstd::arithmetic::div_mod::lemma_fundamental_div_mod_converse;

verus! {

/// Row `r` and column `c` of a product with a transposed weight: the product of row `r` of the one and
/// row `c` of the other.
pub proof fn lemma_linear_at(x: V, w: V, y: V, r: int, c: int)
    requires
        linear_gives(x, w, y),
        x.shape.last() > 0,
        0 <= r,
        0 <= c < w.shape[0],
        r * w.shape[0] + c < y.data.len(),
    ensures
        dot_gives(
            x.data.subrange(r * x.shape.last(), r * x.shape.last() + x.shape.last()),
            w.data.subrange(c * x.shape.last(), c * x.shape.last() + x.shape.last()),
            y.data[r * w.shape[0] + c],
        ),
{
    let n = w.shape[0] as int;
    assert(0 <= r * n) by (nonlinear_arith)
        requires
            0 <= r,
            0 <= n,
    ;
    lemma_fundamental_div_mod_converse(r * n + c, n, r, c);
    let i = r * n + c;
    assert(0 <= i < y.data.len());
    let v = y.data[i];
}

/// The source of element `(r, c)` of a matrix.
pub proof fn lemma_source2(f: Seq<usize>, t: Seq<usize>, r: int, c: int)
    requires
        f.len() == 2,
        t.len() == 2,
        0 <= r < t[0],
        0 <= c < t[1],
    ensures
        source_index(f, t, r * t[1] + c) == coordinate(f[0], t[0], r) * f[1] + coordinate(
            f[1],
            t[1],
            c,
        ),
{
    let i = r * t[1] + c;
    lemma_fundamental_div_mod_converse(i, t[1] as int, r, c);
    reveal_with_fuel(source_index, 3);
    let (f1, t1) = (f.drop_last(), t.drop_last());
    assert(f1.last() == f[0] && t1.last() == t[0]);
    vstd::arithmetic::div_mod::lemma_small_mod(r as nat, t[0] as nat);
    assert(0 * f[0] == 0);
}

/// The source of element `(r, c)` of a matrix in a vector.
pub proof fn lemma_source_vector(f: Seq<usize>, t: Seq<usize>, r: int, c: int)
    requires
        f.len() == 1,
        t.len() == 2,
        f[0] == t[1],
        0 <= r,
        0 <= c < t[1],
    ensures
        source_index(f, t, r * t[1] + c) == c,
{
    let i = r * t[1] + c;
    lemma_fundamental_div_mod_converse(i, t[1] as int, r, c);
    reveal_with_fuel(source_index, 2);
    assert(source_index(f.drop_last(), t.drop_last(), i / (t.last() as int)) == 0);
    assert(0 * f[0] == 0);
}

/// The source of an element, by the last coordinate and those before.
pub proof fn lemma_source_step(f: Seq<usize>, t: Seq<usize>, i: int, c: int)
    requires
        f.len() > 0,
        t.len() > 0,
        0 <= c < t.last(),
    ensures
        source_index(f, t, i * t.last() + c) == source_index(f.drop_last(), t.drop_last(), i)
            * f.last() + coordinate(f.last(), t.last(), c),
{
    lemma_fundamental_div_mod_converse(i * t.last() + c, t.last() as int, i, c);
}

/// Columns `start .. start + len` of a matrix.
pub proof fn lemma_narrow_columns(x: V, start: int, len: int, r: int, c: int)
    requires
        x.wf(),
        x.shape.len() == 2,
        0 <= start,
        start + len <= x.shape[1],
        0 <= r < x.shape[0],
        0 <= c < len,
    ensures
        narrowed(x, 1, start, len).data[r * len + c] == x.data[r * x.shape[1] + start + c],
        0 <= r * len + c < narrowed(x, 1, start, len).data.len(),
        narrowed(x, 1, start, len).shape == shape2(x.shape[0], len as usize),
        narrowed(x, 1, start, len).data.len() == x.shape[0] * len,
{
    let s = x.shape;
    assert(s.skip(2) =~= Seq::<usize>::empty());
    assert(s.take(1).drop_last() =~= Seq::<usize>::empty());
    reveal_with_fuel(product, 2);
    assert(inner(s, 1) == 1);
    assert(outer(s, 1) == s[0]) by {
        assert(1 * (s[0] as nat) == s[0] as nat);
    }
    lemma_flat(r, c, s[0] as int, len);
    let i = r * len + c;
    assert(i / 1 == i && i % 1 == 0);
    assert((outer(s, 1) * len * 1) as nat == s[0] * len) by (nonlinear_arith)
        requires
            outer(s, 1) == s[0],
            len >= 0,
    ;
    assert((r * s[1] + start + c) * 1 + 0 == r * s[1] + start + c);
    assert(narrowed(x, 1, start, len).shape =~= shape2(s[0], len as usize));
}

/// Elements `start .. start + len` of a vector.
pub proof fn lemma_narrow_vector(x: V, start: int, len: int, c: int)
    requires
        x.wf(),
        x.shape.len() == 1,
        0 <= start,
        start + len <= x.shape[0],
        0 <= c < len,
    ensures
        narrowed(x, 0, start, len).data[c] == x.data[start + c],
        narrowed(x, 0, start, len).data.len() == len,
        narrowed(x, 0, start, len).shape == x.shape.update(0, len as usize),
{
    let s = x.shape;
    assert(s.skip(1) =~= Seq::<usize>::empty());
    assert(s.take(0) =~= Seq::<usize>::empty());
    reveal_with_fuel(product, 2);
    assert(inner(s, 0) == 1 && outer(s, 0) == 1);
    assert((outer(s, 0) * len * 1) as nat == len) by (nonlinear_arith)
        requires
            outer(s, 0) == 1,
            len >= 0,
    ;
    assert(c / 1 == c && c % 1 == 0);
    vstd::arithmetic::div_mod::lemma_small_mod(c as nat, len as nat);
    vstd::arithmetic::div_mod::lemma_basic_div(c, len);
    assert(0 * s[0] == 0);
    assert((0 + start + c) * 1 + 0 == start + c);
}

/// A vector added to each row, or multiplied with it: column `c` with element `c`.
pub proof fn lemma_with_vector(op: Binary, a: V, b: V, y: V, r: int, c: int)
    requires
        combined(op, a, b, y),
        a.data.len() == product(a.shape),
        a.shape.len() == 2,
        b.shape.len() == 1,
        b.shape[0] == a.shape[1],
        0 <= r < a.shape[0],
        0 <= c < a.shape[1],
    ensures
        y.shape == a.shape,
        y.data.len() == a.data.len(),
        0 <= r * a.shape[1] + c < a.data.len(),
        agrees(
            y.data[r * a.shape[1] + c],
            binary(op, a.data[r * a.shape[1] + c], b.data[c]),
        ),
{
    let s = a.shape;
    crate::shape::lemma_expands_self(Seq::<usize>::empty());
    assert(crate::shape::expands(b.shape, s)) by {
        reveal_with_fuel(crate::shape::expands, 2);
    }
    crate::shape::lemma_broadcast_into(b.shape, s);
    assert(s =~= shape2(s[0], s[1]));
    lemma_grid(s[0], s[1]);
    lemma_flat(r, c, s[0] as int, s[1] as int);
    lemma_source_vector(b.shape, s, r, c);
    lemma_source_self(s, r * s[1] + c);
    let v = y.data[r * s[1] + c];
}

// --- along an axis --------------------------------------------------------------------------

/// The elements along an axis of length `n` with `step` elements after it: those that have the place
/// `o` before the axis and `t` after it.
pub open spec fn lane<T>(data: Seq<T>, n: int, step: int, o: int, t: int) -> Seq<T> {
    Seq::new(n as nat, |k: int| data[(o * n + k) * step + t])
}

/// The columns of a matrix as an axis.
pub proof fn lemma_matrix_axes(s: Seq<usize>)
    requires
        s.len() == 2,
    ensures
        outer(s, 1) == s[0],
        inner(s, 1) == 1,
        s == shape2(s[0], s[1]),
{
    assert(s.take(1).drop_last() =~= Seq::<usize>::empty());
    assert(s.skip(2) =~= Seq::<usize>::empty());
    reveal_with_fuel(product, 2);
    assert(1 * (s[0] as nat) == s[0] as nat);
    assert(s =~= shape2(s[0], s[1]));
}

/// Where a kept axis of length one sends an element.
pub proof fn lemma_source_keepdim(s: Seq<usize>, axis: int, i: int)
    requires
        0 <= axis < s.len(),
        0 <= i < product(s),
    ensures
        inner(s, axis) > 0,
        s[axis] > 0,
        source_index(s.update(axis, 1), s, i) == ((i / inner(s, axis) as int) / s[axis] as int)
            * inner(s, axis) + i % inner(s, axis) as int,
    decreases s.len(),
{
    let f = s.update(axis, 1);
    let last = s.last() as int;
    let head = s.drop_last();
    lemma_divide(i, product(head) as int, last);
    if axis == s.len() - 1 {
        assert(s.skip(axis + 1) =~= Seq::<usize>::empty());
        assert(inner(s, axis) == 1);
        assert(f.drop_last() =~= head);
        lemma_source_self(head, i / last);
        assert(i / 1 == i && i % 1 == 0);
        assert(source_index(f, s, i) == (i / last) * 1 + 0);
    } else {
        let tail = s.skip(axis + 1);
        assert(tail.last() == s.last());
        assert(tail.drop_last() =~= head.skip(axis + 1));
        let step = inner(head, axis) as int;
        assert(inner(s, axis) == step * last);
        assert(f.drop_last() =~= head.update(axis, 1));
        lemma_source_keepdim(head, axis, i / last);
        let n = s[axis] as int;
        assert(step * last > 0) by (nonlinear_arith)
            requires
                step > 0,
                last > 0,
        ;
        vstd::arithmetic::div_mod::lemma_div_denominator(i, last, step);
        assert(i / (last * step) == (i / last) / step);
        assert(last * step == step * last) by (nonlinear_arith);
        vstd::arithmetic::div_mod::lemma_mod_breakdown(i, last, step);
        assert(i % (last * step) == last * ((i / last) % step) + i % last);
        let q = ((i / last) / step) / n;
        let m = (i / last) % step;
        assert((q * step + m) * last + i % last == q * (step * last) + (last * m + i % last))
            by (nonlinear_arith);
    }
}

/// A tensor combined with one that has a kept axis of length one.
pub proof fn lemma_keepdim_at(op: Binary, x: V, b: V, y: V, axis: int, o: int, k: int, t: int)
    requires
        combined(op, x, b, y),
        x.data.len() == product(x.shape),
        0 <= axis < x.shape.len(),
        b.shape == x.shape.update(axis, 1),
        0 <= o < outer(x.shape, axis),
        0 <= k < x.shape[axis],
        0 <= t < inner(x.shape, axis),
    ensures
        y.shape == x.shape,
        y.data.len() == x.data.len(),
        0 <= (o * x.shape[axis] + k) * inner(x.shape, axis) + t < x.data.len(),
        agrees(
            y.data[(o * x.shape[axis] + k) * inner(x.shape, axis) + t],
            binary(
                op,
                x.data[(o * x.shape[axis] + k) * inner(x.shape, axis) + t],
                b.data[o * inner(x.shape, axis) + t],
            ),
        ),
{
    let s = x.shape;
    let (n, step) = (s[axis] as int, inner(s, axis) as int);
    crate::shape::lemma_broadcast_keepdim(s, axis);
    lemma_axis(s, axis);
    lemma_flat3(o, k, t, outer(s, axis) as int, n, step);
    let i = (o * n + k) * step + t;
    lemma_fundamental_div_mod_converse(i, step, o * n + k, t);
    lemma_fundamental_div_mod_converse(o * n + k, n, o, k);
    lemma_source_keepdim(s, axis, i);
    lemma_source_self(s, i);
    let v = y.data[i];
}

/// A reduction reads the elements along the axis.
pub proof fn lemma_reduced_at(op: Reduce, axis: int, x: V, y: V, o: int, t: int)
    requires
        reduced(op, axis, x, y),
        0 <= o < outer(x.shape, axis),
        0 <= t < inner(x.shape, axis),
    ensures
        0 <= o * inner(x.shape, axis) + t < y.data.len(),
        reduce_gives(
            op,
            lane(x.data, x.shape[axis] as int, inner(x.shape, axis) as int, o, t),
            y.data[o * inner(x.shape, axis) + t],
        ),
{
    let (n, step) = (x.shape[axis] as int, inner(x.shape, axis) as int);
    lemma_flat(o, t, outer(x.shape, axis) as int, step);
    let i = o * step + t;
    lemma_fundamental_div_mod_converse(i, step, o, t);
    assert(x.along(axis, i) =~= lane(x.data, n, step, o, t));
    let v = y.data[i];
}

// --- moving elements ------------------------------------------------------------------------

/// Narrowing an axis keeps the elements from `start` on.
pub proof fn law_narrow_by_place<T>(x: NdView<T>, axis: int, start: int, len: int, o: int, k: int, t: int)
    requires
        0 <= axis < x.shape.len(),
        0 <= o < outer(x.shape, axis),
        0 <= k < len,
        0 <= t < inner(x.shape, axis),
    ensures
        narrowed(x, axis, start, len).data[(o * len + k) * inner(x.shape, axis) + t] == x.data[(o
            * x.shape[axis] + start + k) * inner(x.shape, axis) + t],
{
    let step = inner(x.shape, axis) as int;
    lemma_flat3(o, k, t, outer(x.shape, axis) as int, len, step);
    lemma_fundamental_div_mod_converse((o * len + k) * step + t, step, o * len + k, t);
    lemma_fundamental_div_mod_converse(o * len + k, len, o, k);
}

/// Joining along an axis puts the elements of the second tensor behind those of the first.
pub proof fn law_join_by_place<T>(a: NdView<T>, b: NdView<T>, axis: int, o: int, k: int, t: int)
    requires
        0 <= axis < a.shape.len(),
        axis < b.shape.len(),
        0 <= o < outer(a.shape, axis),
        0 <= k < a.shape[axis] + b.shape[axis],
        0 <= t < inner(a.shape, axis),
    ensures
        ({
            let (n, m, step) = (
                a.shape[axis] as int,
                b.shape[axis] as int,
                inner(a.shape, axis) as int,
            );
            joined(a, b, axis).data[(o * (n + m) + k) * step + t] == (if k < n {
                a.data[(o * n + k) * step + t]
            } else {
                b.data[(o * m + (k - n)) * step + t]
            })
        }),
{
    let (n, m, step) = (a.shape[axis] as int, b.shape[axis] as int, inner(a.shape, axis) as int);
    lemma_flat3(o, k, t, outer(a.shape, axis) as int, n + m, step);
    lemma_fundamental_div_mod_converse((o * (n + m) + k) * step + t, step, o * (n + m) + k, t);
    lemma_fundamental_div_mod_converse(o * (n + m) + k, n + m, o, k);
}

/// Exchanging an axis with the next exchanges the two coordinates.
pub proof fn law_swap_by_place<T>(x: NdView<T>, axis: int, o: int, i: int, j: int, t: int)
    requires
        0 <= axis,
        axis + 1 < x.shape.len(),
        x.data.len() == outer(x.shape, axis) * x.shape[axis + 1] * x.shape[axis] * inner(
            x.shape,
            axis + 1,
        ),
        0 <= o < outer(x.shape, axis),
        0 <= i < x.shape[axis],
        0 <= j < x.shape[axis + 1],
        0 <= t < inner(x.shape, axis + 1),
    ensures
        ({
            let (m, n, step) = (
                x.shape[axis] as int,
                x.shape[axis + 1] as int,
                inner(x.shape, axis + 1) as int,
            );
            swapped(x, axis).data[((o * n + j) * m + i) * step + t] == x.data[((o * m + i) * n + j) * step
                + t]
        }),
{
    let (m, n, step) = (
        x.shape[axis] as int,
        x.shape[axis + 1] as int,
        inner(x.shape, axis + 1) as int,
    );
    let rows = outer(x.shape, axis) as int;
    lemma_flat(o, j, rows, n);
    lemma_flat3(o * n + j, i, t, rows * n, m, step);
    let q = (o * n + j) * m + i;
    lemma_fundamental_div_mod_converse(q * step + t, step, q, t);
    lemma_fundamental_div_mod_converse(q, m, o * n + j, i);
    lemma_fundamental_div_mod_converse(o * n + j, n, o, j);
}

/// Picking rows: row `r` of the result is row `rows[r]`.
pub proof fn law_picked_by_place<T>(x: NdView<T>, rows: Seq<usize>, r: int, t: int)
    requires
        x.shape.len() > 0,
        0 <= r < rows.len(),
        0 <= t < inner(x.shape, 0),
    ensures
        rows_picked(x, rows).data[r * inner(x.shape, 0) + t] == x.data[rows[r] * inner(x.shape, 0) + t],
{
    let step = inner(x.shape, 0) as int;
    lemma_flat(r, t, rows.len() as int, step);
}

// --- the functions of a row -----------------------------------------------------------------

/// `g = 1 / (1 + e^-l)`.
pub open spec fn logistic(l: u32, g: u32) -> bool {
    exists|e: u32, d: u32|
        #[trigger] exp_gives(negated(l), e) && #[trigger] affine_gives(e, DOUBLE_ONE, DOUBLE_ONE, d)
            && agrees(g, fdiv(ONE, d))
}

/// `out[k] = e^(row[k] - max row) / Σ e^(row[j] - max row)`.
pub open spec fn shares(row: Seq<u32>, out: Seq<u32>) -> bool {
    exists|powers: Seq<u32>, total: u32| #[trigger] shares_by(row, powers, total, out)
}

/// The same, with the powers and their sum.
pub open spec fn shares_by(row: Seq<u32>, powers: Seq<u32>, total: u32, out: Seq<u32>) -> bool {
    &&& powers.len() == row.len()
    &&& out.len() == row.len()
    &&& forall|k: int|
        0 <= k < row.len() ==> #[trigger] power_of(row[k], maximum(row), powers[k])
    &&& sum_gives(powers, total)
    &&& forall|k: int|
        0 <= k < row.len() ==> agrees(#[trigger] out[k], fdiv(powers[k], total))
}

/// `p = e^(x - top)`.
pub open spec fn power_of(x: u32, top: u32, p: u32) -> bool {
    exists|d: u32| agrees(d, fsub(x, top)) && #[trigger] exp_gives(d, p)
}

/// `out[j]` is row `first + j` of a weight of width `k` times `x`.
pub open spec fn projected(x: Seq<u32>, w: Seq<u32>, first: int, k: int, out: Seq<u32>) -> bool {
    forall|j: int|
        0 <= j < out.len() ==> dot_gives(
            x,
            w.subrange((first + j) * k, (first + j) * k + k),
            #[trigger] out[j],
        )
}

/// `r = Σ a[k] · b[k]`, each product rounded.
pub open spec fn weighted_sum(a: Seq<u32>, b: Seq<u32>, r: u32) -> bool {
    exists|parts: Seq<u32>| #[trigger] products_of(a, b, parts) && sum_gives(parts, r)
}

/// `parts[k] = a[k] · b[k]`.
pub open spec fn products_of(a: Seq<u32>, b: Seq<u32>, parts: Seq<u32>) -> bool {
    &&& b.len() == a.len()
    &&& parts.len() == a.len()
    &&& forall|k: int| 0 <= k < a.len() ==> agrees(#[trigger] parts[k], fmul(a[k], b[k]))
}

/// `out[k] = row[k] / (Σ row + eps)`.
pub open spec fn evened(row: Seq<u32>, eps: u64, out: Seq<u32>) -> bool {
    out.len() == row.len() && exists|total: u32, below: u32|
        {
            &&& #[trigger] sum_gives(row, total)
            &&& #[trigger] affine_gives(total, DOUBLE_ONE, eps, below)
            &&& forall|k: int|
                0 <= k < row.len() ==> agrees(#[trigger] out[k], fdiv(row[k], below))
        }
}

/// `out[k] = row[k] / sqrt(mean row² + eps)`.
pub open spec fn levelled(row: Seq<u32>, eps: u64, out: Seq<u32>) -> bool {
    exists|squares: Seq<u32>, mean: u32, shifted: u32, root: u32|
        #[trigger] levelled_by(row, eps, squares, mean, shifted, root, out)
}

/// The same, with the values in between.
pub open spec fn levelled_by(
    row: Seq<u32>,
    eps: u64,
    squares: Seq<u32>,
    mean: u32,
    shifted: u32,
    root: u32,
    out: Seq<u32>,
) -> bool {
    &&& squares.len() == row.len()
    &&& out.len() == row.len()
    &&& forall|k: int|
        0 <= k < row.len() ==> agrees(#[trigger] squares[k], fmul(row[k], row[k]))
    &&& mean_gives(squares, mean)
    &&& affine_gives(mean, DOUBLE_ONE, eps, shifted)
    &&& agrees(root, fsqrt(shifted))
    &&& forall|k: int| 0 <= k < row.len() ==> agrees(#[trigger] out[k], fdiv(row[k], root))
}

/// A levelled row, times the gain of each column if there is one.
pub open spec fn gained(row: Seq<u32>, eps: u64, gain: Option<V>, out: Seq<u32>) -> bool {
    exists|r: Seq<u32>| #[trigger] levelled(row, eps, r) && gain_applied(r, gain, out)
}

/// `out[c] = r[c] · gain[c]`.
pub open spec fn gain_applied(r: Seq<u32>, gain: Option<V>, out: Seq<u32>) -> bool {
    &&& out.len() == r.len()
    &&& match gain {
        Some(g) => forall|c: int|
            0 <= c < r.len() ==> agrees(#[trigger] out[c], fmul(r[c], g.data[c])),
        None => out == r,
    }
}

/// The sigmoid of a tensor is the logistic function of each element.
pub proof fn law_sigmoid_is_logistic(x: V, y: V, i: int)
    requires
        sigmoid_gives(x, y),
        0 <= i < x.data.len(),
    ensures
        y.shape == x.shape,
        y.data.len() == x.data.len(),
        logistic(x.data[i], y.data[i]),
{
    let t = choose|t: SigmoidSteps| sigmoid_steps(x, t, y);
    let (a, e, d, g) = (t.negative.data[i], t.power.data[i], t.below.data[i], y.data[i]);
    assert(exp_gives(negated(x.data[i]), e));
    assert(affine_gives(e, DOUBLE_ONE, DOUBLE_ONE, d));
}

/// The softmax along an axis gives the elements along it their shares.
pub proof fn law_softmax_gives_shares(axis: int, x: V, y: V, o: int, t: int)
    requires
        softmax_gives(axis, x, y),
        x.data.len() == product(x.shape),
        0 <= axis < x.shape.len(),
        0 <= o < outer(x.shape, axis),
        0 <= t < inner(x.shape, axis),
    ensures
        y.shape == x.shape,
        y.data.len() == x.data.len(),
        shares(
            lane(x.data, x.shape[axis] as int, inner(x.shape, axis) as int, o, t),
            lane(y.data, x.shape[axis] as int, inner(x.shape, axis) as int, o, t),
        ),
{
    let u = choose|u: SoftmaxSteps| softmax_steps(axis, x, u, y);
    let (n, step) = (x.shape[axis] as int, inner(x.shape, axis) as int);
    let s = x.shape;
    crate::shape::lemma_broadcast_keepdim(s, axis);
    lemma_reduced_at(Reduce::Max, axis, x, u.top, o, t);
    lemma_reduced_at(Reduce::Sum, axis, u.powers, u.total, o, t);
    let (row, powers, out) = (
        lane(x.data, n, step, o, t),
        lane(u.powers.data, n, step, o, t),
        lane(y.data, n, step, o, t),
    );
    let total = u.total.data[o * step + t];
    assert forall|k: int| 0 <= k < row.len() implies #[trigger] power_of(
        row[k],
        maximum(row),
        powers[k],
    ) && agrees(out[k], fdiv(powers[k], total)) by {
        lemma_keepdim_at(Binary::Sub, x, u.top, u.shifted, axis, o, k, t);
        let i = (o * n + k) * step + t;
        let v = u.powers.data[i];
        assert(exp_gives(u.shifted.data[i], powers[k]));
        lemma_keepdim_at(Binary::Div, u.powers, u.total, y, axis, o, k, t);
    }
    assert forall|k: int| 0 <= k < row.len() implies agrees(
        #[trigger] out[k],
        fdiv(powers[k], total),
    ) by {
        assert(power_of(row[k], maximum(row), powers[k]));
    }
    assert(shares_by(row, powers, total, out));
}

/// The RMS norm levels each row, and scales column `c` with the gain `c`.
pub proof fn law_rms_norm_levels(x: V, gamma: Option<V>, eps: u64, y: V, r: int)
    requires
        x.data.len() == product(x.shape),
        x.shape.len() > 0,
        gamma matches Some(g) ==> g.shape.len() == 1 && g.shape[0] == x.shape.last(),
        rms_norm_gives(x, gamma, eps, y),
        0 <= r < product(x.shape.drop_last()),
    ensures
        y.shape == x.shape,
        y.data.len() == x.data.len(),
        gained(
            x.data.subrange(r * x.shape.last(), r * x.shape.last() + x.shape.last()),
            eps,
            gamma,
            y.data.subrange(r * x.shape.last(), r * x.shape.last() + x.shape.last()),
        ),
{
    let u = choose|u: RmsSteps| rms_norm_steps(x, gamma, eps, u, y);
    let s = x.shape;
    let axis = s.len() - 1;
    let d = s.last() as int;
    crate::shape::lemma_broadcast_keepdim(s, axis);
    assert(s.skip(axis + 1) =~= Seq::<usize>::empty());
    assert(s.take(axis) =~= s.drop_last());
    assert(inner(s, axis) == 1);
    lemma_reduced_at(Reduce::Mean, axis, u.squares, u.mean, r, 0);
    let whole = x.data.subrange(r * d, r * d + d);
    lemma_axis(s, axis);
    assert(0 <= r * d && r * d + d <= x.data.len()) by (nonlinear_arith)
        requires
            0 <= r < outer(s, axis),
            d >= 0,
            x.data.len() == outer(s, axis) * d * 1,
    ;
    let squares = lane(u.squares.data, d, 1, r, 0);
    let row = u.normed.data.subrange(r * d, r * d + d);
    let (mean, shifted, root) = (u.mean.data[r * 1 + 0], u.shifted.data[r * 1 + 0], u.root.data[r * 1
        + 0]);
    assert(u.normed.shape == s && u.normed.data.len() == x.data.len()) by {
        crate::shape::lemma_product_le_span(s);
    }
    assert forall|c: int| 0 <= c < d implies agrees(#[trigger] squares[c], fmul(whole[c], whole[c]))
        && agrees(row[c], fdiv(whole[c], root)) by {
        let i = (r * d + c) * 1 + 0;
        assert(i == r * d + c);
        let v = u.squares.data[i];
        lemma_keepdim_at(Binary::Div, x, u.root, u.normed, axis, r, c, 0);
    }
    assert forall|c: int| 0 <= c < d implies agrees(#[trigger] row[c], fdiv(whole[c], root)) by {
        let v = squares[c];
    }
    assert(mean_gives(squares, mean));
    assert(affine_gives(mean, DOUBLE_ONE, eps, shifted));
    assert(agrees(root, fsqrt(shifted)));
    assert(levelled_by(whole, eps, squares, mean, shifted, root, row));
    assert(levelled(whole, eps, row));
    if let Some(g) = gamma {
        assert(crate::shape::expands(g.shape, s)) by {
            reveal_with_fuel(crate::shape::expands, 2);
        }
        crate::shape::lemma_broadcast_into(g.shape, s);
        let out = y.data.subrange(r * d, r * d + d);
        assert forall|c: int| 0 <= c < d implies agrees(#[trigger] out[c], fmul(row[c], g.data[c])) by {
            let i = r * d + c;
            lemma_source_self(s, i);
            lemma_fundamental_div_mod_converse(i, d, r, c);
            reveal_with_fuel(source_index, 2);
            assert(source_index(g.shape.drop_last(), s.drop_last(), i / d) == 0);
            assert(0 * g.shape[0] == 0);
            assert(source_index(g.shape, s, i) == c);
            let v = y.data[i];
        }
        assert(gain_applied(row, gamma, out));
    } else {
        assert(gain_applied(row, gamma, y.data.subrange(r * d, r * d + d)));
    }
}

} // verus!
