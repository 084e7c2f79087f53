//! Runs of two inputs put together: a position may take what it has from either run.
//!
//! A layer that works on each position by itself cannot tell two runs apart that are put together
//! position by position. [`mixed`] takes the elements of some positions from one tensor and the rest
//! from another; each lemma says that an operation on two mixed inputs gives the mixed results.

use vstd::prelude::*;

#[allow(unused_imports)]
use crate::layout::{lemma_gain, vector};
#[allow(unused_imports)]
use crate::nn::{rms_norm_gives, rms_norm_steps, softmax_steps, RmsSteps, SoftmaxSteps};
#[allow(unused_imports)]
use crate::ops::{binary, combined, linear_gives, mapped, paired, reduced, Binary, Reduce, Unary};
#[allow(unused_imports)]
use crate::queries::{coordinate, lemma_rows4, lemma_source4};
#[allow(unused_imports)]
use crate::rope::{pair_turned, rotated, tail_rotated};
#[allow(unused_imports)]
use crate::shape::{
    inner, lemma_axis, lemma_broadcast_keepdim, lemma_cube4, lemma_divide, lemma_flat, outer,
    product, shape3, shape4, source_index,
};
#[allow(unused_imports)]
use crate::sparse::{overlap_of, pool_gives, pool_steps, PoolSteps};
#[allow(unused_imports)]
use crate::tensor::{joined, narrowed, reshaped, NdView, V};
#[allow(unused_imports)]
use crate::tokens::lemma_source_self;

verus! {

/// The elements that `f` names from `x`, all others from `y`.
pub open spec fn mixed<T>(x: NdView<T>, y: NdView<T>, f: spec_fn(int) -> bool) -> NdView<T> {
    NdView {
        shape: y.shape,
        data: Seq::new(
            y.data.len(),
            |e: int|
                if f(e) {
                    x.data[e]
                } else {
                    y.data[e]
                },
        ),
    }
}

/// The elements of the positions that `f` names, where each position has `k` elements.
pub open spec fn at(f: spec_fn(int) -> bool, k: int) -> spec_fn(int) -> bool {
    |e: int| f(e / k)
}

/// The position of an element, by rows of `k` elements of which each position has `r`.
pub proof fn lemma_quotients(q: int, c: int, k: int, r: int)
    requires
        0 <= q,
        0 <= c < k,
        r > 0,
    ensures
        (q * k + c) / (r * k) == q / r,
        (q * k + c) / k == q,
        (q * k + c) % k == c,
{
    lemma_flat(q, c, q + 1, k);
    assert(q * k >= 0) by (nonlinear_arith)
        requires
            q >= 0,
            k > 0,
    ;
    vstd::arithmetic::div_mod::lemma_div_denominator(q * k + c, k, r);
    assert(k * r == r * k) by (nonlinear_arith);
}

/// The same for an element that is not split into row and column yet.
pub proof fn lemma_position(e: int, k: int, r: int)
    requires
        0 <= e,
        k > 0,
        r > 0,
    ensures
        e / (r * k) == (e / k) / r,
        0 <= e / k,
        0 <= e % k < k,
        e == (e / k) * k + e % k,
{
    vstd::arithmetic::div_mod::lemma_div_denominator(e, k, r);
    assert(k * r == r * k) by (nonlinear_arith);
    vstd::arithmetic::div_mod::lemma_fundamental_div_mod(e, k);
    assert(k * (e / k) == (e / k) * k) by (nonlinear_arith);
    vstd::arithmetic::div_mod::lemma_div_pos_is_pos(e, k);
}

/// Runs that agree where they are mixed are one.
pub proof fn lemma_mix_same<T>(x: NdView<T>, y: NdView<T>, f: spec_fn(int) -> bool)
    requires
        forall|e: int| 0 <= e < y.data.len() && f(e) ==> #[trigger] x.data[e] == y.data[e],
    ensures
        mixed(x, y, f) == y,
{
    assert(mixed(x, y, f).data =~= y.data);
}

pub proof fn lemma_mix_mapped(op: Unary, x: V, x2: V, y: V, y2: V, g: spec_fn(int) -> bool)
    requires
        mapped(op, x, y),
        mapped(op, x2, y2),
        x.shape == x2.shape,
        x.wf(),
        x2.wf(),
    ensures
        y2.wf(),
        y.wf(),
        mapped(op, mixed(x, x2, g), mixed(y, y2, g)),
{
}

pub proof fn lemma_mix_paired(
    op: Binary,
    a: V,
    a2: V,
    b: V,
    b2: V,
    y: V,
    y2: V,
    g: spec_fn(int) -> bool,
)
    requires
        paired(op, a, b, y),
        paired(op, a2, b2, y2),
        a.shape == a2.shape,
        a.wf(),
        a2.wf(),
        b.wf(),
        b2.wf(),
    ensures
        y.wf(),
        y2.wf(),
        paired(op, mixed(a, a2, g), mixed(b, b2, g), mixed(y, y2, g)),
{
}

/// One operand is the same in both runs and repeats to the shape of the other.
pub proof fn lemma_mix_gain(
    op: Binary,
    a: V,
    a2: V,
    b: V,
    y: V,
    y2: V,
    g: spec_fn(int) -> bool,
)
    requires
        combined(op, a, b, y),
        combined(op, a2, b, y2),
        a.wf(),
        a2.wf(),
        a.shape == a2.shape,
        y.shape == a.shape,
    ensures
        y.wf(),
        y2.wf(),
        y2.shape == a.shape,
        combined(op, mixed(a, a2, g), b, mixed(y, y2, g)),
{
    let (u, v) = (mixed(a, a2, g), mixed(y, y2, g));
    assert forall|i: int| 0 <= i < v.data.len() implies crate::bits::agrees(
        #[trigger] v.data[i],
        binary(
            op,
            u.data[source_index(u.shape, v.shape, i)],
            b.data[source_index(b.shape, v.shape, i)],
        ),
    ) by {
        lemma_source_self(a.shape, i);
        assert(crate::bits::agrees(
            y.data[i],
            binary(op, a.data[i], b.data[source_index(b.shape, y.shape, i)]),
        ));
        assert(crate::bits::agrees(
            y2.data[i],
            binary(op, a2.data[i], b.data[source_index(b.shape, y2.shape, i)]),
        ));
    }
}

/// One operand has a single column.
pub proof fn lemma_mix_column(
    op: Binary,
    a: V,
    a2: V,
    b: V,
    b2: V,
    y: V,
    y2: V,
    f: spec_fn(int) -> bool,
    r: int,
)
    requires
        combined(op, a, b, y),
        combined(op, a2, b2, y2),
        a.wf(),
        a2.wf(),
        b.wf(),
        b2.wf(),
        a.shape.len() > 0,
        a.shape == a2.shape,
        b.shape == a.shape.update(a.shape.len() - 1, 1),
        b2.shape == b.shape,
        r > 0,
    ensures
        y.wf(),
        y2.wf(),
        y.shape == a.shape,
        y2.shape == a.shape,
        combined(
            op,
            mixed(a, a2, at(f, r * a.shape.last())),
            mixed(b, b2, at(f, r)),
            mixed(y, y2, at(f, r * a.shape.last())),
        ),
{
    let s = a.shape;
    let d = s.last() as int;
    lemma_broadcast_keepdim(s, s.len() - 1);
    let (u, w, v) = (
        mixed(a, a2, at(f, r * d)),
        mixed(b, b2, at(f, r)),
        mixed(y, y2, at(f, r * d)),
    );
    let p = s.drop_last();
    assert(b.shape.drop_last() =~= p);
    assert(b.shape.last() == 1);
    lemma_axis(s, s.len() - 1);
    assert forall|i: int| 0 <= i < v.data.len() implies crate::bits::agrees(
        #[trigger] v.data[i],
        binary(
            op,
            u.data[source_index(u.shape, v.shape, i)],
            w.data[source_index(w.shape, v.shape, i)],
        ),
    ) by {
        lemma_source_self(s, i);
        lemma_divide(i, product(p) as int, d);
        lemma_source_self(p, i / d);
        lemma_position(i, d, r);
        assert(source_index(b.shape, s, i) == i / d);
        assert(product(b.shape) == product(p) * 1);
        assert(crate::bits::agrees(y.data[i], binary(op, a.data[i], b.data[i / d])));
        assert(crate::bits::agrees(y2.data[i], binary(op, a2.data[i], b2.data[i / d])));
    }
}

pub proof fn lemma_mix_reduced(
    op: Reduce,
    axis: int,
    x: V,
    x2: V,
    y: V,
    y2: V,
    f: spec_fn(int) -> bool,
    r: int,
)
    requires
        reduced(op, axis, x, y),
        reduced(op, axis, x2, y2),
        x.wf(),
        x2.wf(),
        x.shape == x2.shape,
        r > 0,
    ensures
        y.wf(),
        y2.wf(),
        y2.shape == y.shape,
        reduced(
            op,
            axis,
            mixed(x, x2, at(f, r * (x.shape[axis] * inner(x.shape, axis)))),
            mixed(y, y2, at(f, r * inner(x.shape, axis))),
        ),
{
    let s = x.shape;
    let (n, step) = (s[axis] as int, inner(s, axis) as int);
    let (gx, gy) = (at(f, r * (n * step)), at(f, r * step));
    let (u, v) = (mixed(x, x2, gx), mixed(y, y2, gy));
    crate::shape::lemma_span_update(s, axis, 1);
    lemma_axis(s, axis);
    lemma_axis(s.update(axis, 1), axis);
    assert(outer(s, axis) * 1 * inner(s, axis) == outer(s, axis) * inner(s, axis))
        by (nonlinear_arith);
    assert forall|i: int| 0 <= i < v.data.len() implies crate::ops::reduce_gives(
        op,
        u.along(axis, i),
        #[trigger] v.data[i],
    ) by {
        lemma_divide(i, outer(s, axis) as int, step);
        lemma_position(i, step, r);
        let q = i / step;
        let (l, l1, l2) = (u.along(axis, i), x.along(axis, i), x2.along(axis, i));
        assert forall|j: int| 0 <= j < n implies l[j] == (if gy(i) {
            l1[j]
        } else {
            l2[j]
        }) by {
            let e = (q * n + j) * step + i % step;
            lemma_flat(q, j, outer(s, axis) as int, n);
            lemma_flat(q * n + j, i % step, outer(s, axis) * n, step);
            assert(j * step + i % step < n * step && 0 <= j * step + i % step) by (nonlinear_arith)
                requires
                    0 <= j < n,
                    0 <= i % step < step,
            ;
            assert(e == q * (n * step) + (j * step + i % step)) by (nonlinear_arith)
                requires
                    e == (q * n + j) * step + i % step,
            ;
            lemma_quotients(q, j * step + i % step, n * step, r);
            assert(gx(e) == f(q / r));
        }
        assert(gy(i) ==> l =~= l1);
        assert(!gy(i) ==> l =~= l2);
    }
}

pub proof fn lemma_mix_linear(
    x: V,
    x2: V,
    w: V,
    y: V,
    y2: V,
    f: spec_fn(int) -> bool,
    r: int,
)
    requires
        linear_gives(x, w, y),
        linear_gives(x2, w, y2),
        x.wf(),
        x2.wf(),
        x.shape.len() > 0,
        x.shape == x2.shape,
        r > 0,
    ensures
        y.wf(),
        y2.wf(),
        y2.shape == y.shape,
        linear_gives(
            mixed(x, x2, at(f, r * x.shape.last())),
            w,
            mixed(y, y2, at(f, r * w.shape[0])),
        ),
{
    let (k, n) = (x.shape.last() as int, w.shape[0] as int);
    let (gx, gy) = (at(f, r * k), at(f, r * n));
    let (u, v) = (mixed(x, x2, gx), mixed(y, y2, gy));
    let p = product(x.shape.drop_last()) as int;
    assert(y.shape.drop_last() =~= x.shape.drop_last());
    assert(x.data.len() == p * k);
    assert forall|i: int| 0 <= i < v.data.len() implies if k == 0 {
        #[trigger] v.data[i] == crate::bits::ZERO
    } else {
        crate::kernel::dot_gives(u.row(k, i / n), w.row(k, i % n), v.data[i])
    } by {
        lemma_divide(i, p, n);
        lemma_position(i, n, r);
        let q = i / n;
        if k > 0 {
            let (l, l1, l2) = (u.row(k, q), x.row(k, q), x2.row(k, q));
            lemma_flat(q, k - 1, p, k);
            assert(q * k >= 0) by (nonlinear_arith)
                requires
                    q >= 0,
                    k > 0,
            ;
            assert forall|j: int| 0 <= j < k implies l[j] == (if gy(i) {
                l1[j]
            } else {
                l2[j]
            }) by {
                lemma_quotients(q, j, k, r);
                assert(gx(q * k + j) == f(q / r));
            }
            assert(gy(i) ==> l =~= l1);
            assert(!gy(i) ==> l =~= l2);
        }
    }
}

pub proof fn lemma_mix_rms_norm(
    x: V,
    x2: V,
    gamma: Option<V>,
    eps: u64,
    y: V,
    y2: V,
    f: spec_fn(int) -> bool,
    r: int,
)
    requires
        rms_norm_gives(x, gamma, eps, y),
        rms_norm_gives(x2, gamma, eps, y2),
        x.wf(),
        x2.wf(),
        x.shape.len() > 0,
        x.shape == x2.shape,
        gamma matches Some(g) ==> vector(g.shape, x.shape.last()),
        r > 0,
    ensures
        y.wf(),
        y2.wf(),
        y.shape == x.shape,
        y2.shape == x.shape,
        rms_norm_gives(
            mixed(x, x2, at(f, r * x.shape.last())),
            gamma,
            eps,
            mixed(y, y2, at(f, r * x.shape.last())),
        ),
{
    let u = choose|u: RmsSteps| rms_norm_steps(x, gamma, eps, u, y);
    let u2 = choose|u2: RmsSteps| rms_norm_steps(x2, gamma, eps, u2, y2);
    let (axis, d) = (x.shape.len() - 1, x.shape.last() as int);
    let g = at(f, r * d);
    assert(x.shape.skip(axis + 1) =~= Seq::<usize>::empty());
    assert(inner(x.shape, axis) == 1);
    assert(r * (d * 1) == r * d && r * 1 == r);
    lemma_mix_mapped(Unary::Sqr, x, x2, u.squares, u2.squares, g);
    lemma_mix_reduced(Reduce::Mean, axis, u.squares, u2.squares, u.mean, u2.mean, f, r);
    let a = Unary::Affine(crate::bits::DOUBLE_ONE, eps);
    lemma_mix_mapped(a, u.mean, u2.mean, u.shifted, u2.shifted, at(f, r));
    lemma_mix_mapped(Unary::Sqrt, u.shifted, u2.shifted, u.root, u2.root, at(f, r));
    lemma_mix_column(Binary::Div, x, x2, u.root, u2.root, u.normed, u2.normed, f, r);
    if let Some(gm) = gamma {
        lemma_gain(x.shape, gm.shape);
        lemma_mix_gain(Binary::Mul, u.normed, u2.normed, gm, y, y2, g);
    }
    let v = RmsSteps {
        squares: mixed(u.squares, u2.squares, g),
        mean: mixed(u.mean, u2.mean, at(f, r)),
        shifted: mixed(u.shifted, u2.shifted, at(f, r)),
        root: mixed(u.root, u2.root, at(f, r)),
        normed: mixed(u.normed, u2.normed, g),
    };
    assert(rms_norm_steps(mixed(x, x2, g), gamma, eps, v, mixed(y, y2, g)));
}

/// The pairs of a rotation belong to one position.
pub proof fn lemma_mix_rotated(
    x: V,
    x2: V,
    cos: Seq<u32>,
    sin: Seq<u32>,
    inverse: bool,
    y: V,
    y2: V,
    f: spec_fn(int) -> bool,
    k: int,
)
    requires
        rotated(x, cos, sin, inverse, y),
        rotated(x2, cos, sin, inverse, y2),
        x.shape == x2.shape,
        x.wf(),
        x2.wf(),
        k > 0,
        k % 2 == 0,
    ensures
        y.wf(),
        y2.wf(),
        rotated(mixed(x, x2, at(f, k)), cos, sin, inverse, mixed(y, y2, at(f, k))),
{
    let g = at(f, k);
    let (u, v) = (mixed(x, x2, g), mixed(y, y2, g));
    assert forall|q: int| 0 <= q < u.data.len() / 2 implies #[trigger] pair_turned(
        u,
        cos,
        sin,
        inverse,
        v,
        q,
    ) by {
        lemma_position(2 * q, 2, k / 2);
        lemma_position(2 * q + 1, 2, k / 2);
        assert((k / 2) * 2 == k);
        assert((2 * q) / 2 == q && (2 * q + 1) / 2 == q);
        assert(g(2 * q) == g(2 * q + 1));
        assert(pair_turned(x, cos, sin, inverse, y, q));
        assert(pair_turned(x2, cos, sin, inverse, y2, q));
    }
}

/// Columns of mixed runs are mixed.
pub proof fn lemma_mix_columns(x: V, x2: V, start: int, len: int, f: spec_fn(int) -> bool, r: int)
    requires
        x.wf(),
        x2.wf(),
        x.shape.len() > 0,
        x.shape == x2.shape,
        0 <= start,
        0 <= len,
        start + len <= x.shape.last(),
        r > 0,
    ensures
        ({
            let axis = x.shape.len() - 1;
            let (p, p2) = (narrowed(x, axis, start, len), narrowed(x2, axis, start, len));
            &&& p.wf()
            &&& p2.wf()
            &&& p.shape == x.shape.update(axis, len as usize)
            &&& p2.shape == p.shape
            &&& narrowed(mixed(x, x2, at(f, r * x.shape.last())), axis, start, len) == mixed(
                p,
                p2,
                at(f, r * len),
            )
        }),
{
    let axis = x.shape.len() - 1;
    let d = x.shape.last() as int;
    let u = mixed(x, x2, at(f, r * d));
    let (p, p2) = (narrowed(x, axis, start, len), narrowed(x2, axis, start, len));
    let (n, w) = (narrowed(u, axis, start, len), mixed(p, p2, at(f, r * len)));
    let o = outer(x.shape, axis) as int;
    assert(x.shape.skip(axis + 1) =~= Seq::<usize>::empty());
    assert(inner(x.shape, axis) == 1);
    lemma_axis(x.shape, axis);
    crate::shape::lemma_span_update(x.shape, axis, len as usize);
    lemma_axis(x.shape.update(axis, len as usize), axis);
    assert(o * d * 1 == o * d && o * len * 1 == o * len) by (nonlinear_arith);
    assert forall|i: int| 0 <= i < n.data.len() implies n.data[i] == #[trigger] w.data[i] by {
        lemma_divide(i, o, len);
        lemma_position(i, len, r);
        let (q, c) = (i / len, start + i % len);
        assert(i / 1 == i && i % 1 == 0);
        lemma_quotients(q, c, d, r);
        lemma_flat(q, c, o, d);
        let e = q * d + c;
        assert((q * d + start + i % len) * 1 + 0 == e);
        assert(n.data[i] == u.data[e]);
        assert(p.data[i] == x.data[e]);
        assert(p2.data[i] == x2.data[e]);
    }
    assert(n.data =~= w.data);
}

/// Columns side by side are mixed side by side.
pub proof fn lemma_mix_joined(
    a: V,
    a2: V,
    b: V,
    b2: V,
    f: spec_fn(int) -> bool,
    r: int,
)
    requires
        a.wf(),
        a2.wf(),
        b.wf(),
        b2.wf(),
        a.shape.len() > 0,
        a2.shape == a.shape,
        b2.shape == b.shape,
        b.shape.len() == a.shape.len(),
        b.shape == a.shape.update(a.shape.len() - 1, b.shape.last()),
        a.shape.last() + b.shape.last() <= usize::MAX,
        r > 0,
    ensures
        ({
            let axis = a.shape.len() - 1;
            let (n, m) = (a.shape.last() as int, b.shape.last() as int);
            joined(mixed(a, a2, at(f, r * n)), mixed(b, b2, at(f, r * m)), axis) == mixed(
                joined(a, b, axis),
                joined(a2, b2, axis),
                at(f, r * (n + m)),
            )
        }),
{
    let axis = a.shape.len() - 1;
    let (n, m) = (a.shape.last() as int, b.shape.last() as int);
    let (ga, gb, gj) = (at(f, r * n), at(f, r * m), at(f, r * (n + m)));
    let (u, w) = (mixed(a, a2, ga), mixed(b, b2, gb));
    let (j, j1, j2) = (joined(u, w, axis), joined(a, b, axis), joined(a2, b2, axis));
    let v = mixed(j1, j2, gj);
    let o = outer(a.shape, axis) as int;
    assert(a.shape.skip(axis + 1) =~= Seq::<usize>::empty());
    assert(inner(a.shape, axis) == 1);
    lemma_axis(a.shape, axis);
    lemma_axis(b.shape, axis);
    assert(b.shape.take(axis) =~= a.shape.take(axis));
    assert(b.shape.skip(axis + 1) =~= Seq::<usize>::empty());
    assert(o * n * 1 == o * n && o * m * 1 == o * m && o * (n + m) * 1 == o * (n + m))
        by (nonlinear_arith);
    assert forall|i: int| 0 <= i < j.data.len() implies j.data[i] == #[trigger] v.data[i] by {
        lemma_divide(i, o, n + m);
        lemma_position(i, n + m, r);
        assert(i / 1 == i && i % 1 == 0);
        let (q, k) = (i / (n + m), i % (n + m));
        if k < n {
            lemma_quotients(q, k, n, r);
            lemma_flat(q, k, o, n);
            assert((q * n + k) * 1 + 0 == q * n + k);
        } else {
            lemma_quotients(q, k - n, m, r);
            lemma_flat(q, k - n, o, m);
            assert((q * m + (k - n)) * 1 + 0 == q * m + (k - n));
        }
    }
    assert(j.data =~= v.data);
}

/// The rotated tail of mixed runs is mixed.
pub proof fn lemma_mix_tail(
    x: V,
    x2: V,
    cos: Seq<u32>,
    sin: Seq<u32>,
    rd: int,
    inverse: bool,
    y: V,
    y2: V,
    f: spec_fn(int) -> bool,
    r: int,
)
    requires
        tail_rotated(x, cos, sin, rd, inverse, y),
        tail_rotated(x2, cos, sin, rd, inverse, y2),
        x.wf(),
        x2.wf(),
        x.shape.len() > 0,
        x.shape == x2.shape,
        0 <= rd <= x.shape.last(),
        rd % 2 == 0,
        r > 0,
    ensures
        y.wf(),
        y2.wf(),
        y.shape == x.shape,
        y2.shape == x.shape,
        tail_rotated(
            mixed(x, x2, at(f, r * x.shape.last())),
            cos,
            sin,
            rd,
            inverse,
            mixed(y, y2, at(f, r * x.shape.last())),
        ),
{
    let axis = x.shape.len() - 1;
    let d = x.shape.last() as int;
    let keep = d - rd;
    let g = at(f, r * d);
    let u = mixed(x, x2, g);
    let (h, h2) = (narrowed(x, axis, 0, keep), narrowed(x2, axis, 0, keep));
    let (n, n2) = (narrowed(x, axis, keep, rd), narrowed(x2, axis, keep, rd));
    let t = choose|t: V|
        #[trigger] rotated(n, cos, sin, inverse, t) && y == joined(h, t, axis);
    let t2 = choose|t: V|
        #[trigger] rotated(n2, cos, sin, inverse, t) && y2 == joined(h2, t, axis);
    lemma_mix_columns(x, x2, 0, keep, f, r);
    lemma_mix_columns(x, x2, keep, rd, f, r);
    if rd > 0 {
        assert(r * rd > 0) by (nonlinear_arith)
            requires
                r > 0,
                rd > 0,
        ;
        assert((r * rd) % 2 == 0) by {
            vstd::arithmetic::mul::lemma_mul_is_associative(r, rd / 2, 2);
            assert(r * rd == (r * (rd / 2)) * 2);
        }
        lemma_mix_rotated(n, n2, cos, sin, inverse, t, t2, f, r * rd);
    } else {
        lemma_axis(n.shape, axis);
        assert(n.shape.skip(axis + 1) =~= Seq::<usize>::empty());
        assert(n.data.len() == 0 && n2.data.len() == 0) by {
            assert(outer(n.shape, axis) * 0 * 1 == 0) by (nonlinear_arith);
        }
    }
    assert(t.shape =~= h.shape.update(axis, t.shape.last()));
    lemma_mix_joined(h, h2, t, t2, f, r);
    let tv = mixed(t, t2, at(f, r * rd));
    assert(rotated(narrowed(u, axis, keep, rd), cos, sin, inverse, tv));
    assert(keep + rd == d);
    assert(y.shape =~= x.shape && y2.shape =~= x.shape);
    let o = outer(x.shape, axis) as int;
    assert(x.shape.skip(axis + 1) =~= Seq::<usize>::empty());
    assert(h.shape.skip(axis + 1) =~= Seq::<usize>::empty());
    assert(h.shape.take(axis) =~= x.shape.take(axis));
    lemma_axis(x.shape, axis);
    assert(y.wf() && y2.wf());
}

/// One operand has a single entry in the third of four axes.
pub proof fn lemma_mix_middle(
    op: Binary,
    a: V,
    a2: V,
    b: V,
    b2: V,
    y: V,
    y2: V,
    f: spec_fn(int) -> bool,
)
    requires
        combined(op, a, b, y),
        combined(op, a2, b2, y2),
        a.wf(),
        a2.wf(),
        b.wf(),
        b2.wf(),
        a.shape.len() == 4,
        a.shape == a2.shape,
        b.shape == a.shape.update(2, 1),
        b2.shape == b.shape,
    ensures
        y.wf(),
        y2.wf(),
        y.shape == a.shape,
        y2.shape == a.shape,
        combined(
            op,
            mixed(a, a2, at(f, a.shape[2] * a.shape[3])),
            mixed(b, b2, at(f, a.shape[3] as int)),
            mixed(y, y2, at(f, a.shape[2] * a.shape[3])),
        ),
{
    let s = a.shape;
    let (s0, s1, t, d) = (s[0] as int, s[1] as int, s[2] as int, s[3] as int);
    assert(s =~= shape4(s[0], s[1], s[2], s[3]));
    lemma_broadcast_keepdim(s, 2);
    lemma_cube4(s[0], s[1], s[2], s[3]);
    let (ga, gb) = (at(f, t * d), at(f, d));
    let (u, w, v) = (mixed(a, a2, ga), mixed(b, b2, gb), mixed(y, y2, ga));
    assert forall|i: int| 0 <= i < v.data.len() implies crate::bits::agrees(
        #[trigger] v.data[i],
        binary(
            op,
            u.data[source_index(u.shape, v.shape, i)],
            w.data[source_index(w.shape, v.shape, i)],
        ),
    ) by {
        lemma_source_self(s, i);
        lemma_divide(i, s0 * s1 * t, d);
        lemma_divide(i / d, s0 * s1, t);
        let (m, j, x) = ((i / d) / t, (i / d) % t, i % d);
        lemma_divide(m, s0, s1);
        lemma_source4(b.shape, s, m / s1, m % s1, j, x);
        assert(i == ((m / s1 * s1 + m % s1) * t + j) * d + x);
        let e = m * d + x;
        assert((m * 1 + 0) * d + x == e);
        assert(source_index(b.shape, s, i) == e) by {
            assert(coordinate(b.shape[2], s[2], j) == 0);
            assert(((m / s1 * s1 + m % s1) * 1 + 0) * d + x == e);
        }
        lemma_position(i, d, t);
        lemma_quotients(m, x, d, 1);
        assert(ga(i) == gb(e));
        lemma_flat(m, x, s0 * s1, d);
        lemma_cube4(s[0], s[1], 1, s[3]);
        assert(b.shape =~= shape4(s[0], s[1], 1, s[3]));
        assert(s0 * s1 * 1 * d == s0 * s1 * d) by (nonlinear_arith);
        assert(crate::bits::agrees(y.data[i], binary(op, a.data[i], b.data[e])));
        assert(crate::bits::agrees(y2.data[i], binary(op, a2.data[i], b2.data[e])));
    }
}

/// A gated pool of mixed windows gives mixed blocks.
pub proof fn lemma_mix_pool(
    values: V,
    values2: V,
    gates: V,
    gates2: V,
    y: V,
    y2: V,
    f: spec_fn(int) -> bool,
)
    requires
        pool_gives(values, gates, y),
        pool_gives(values2, gates2, y2),
        values.wf(),
        values2.wf(),
        gates.wf(),
        gates2.wf(),
        gates.shape.len() == 4,
        values.shape == gates.shape,
        values2.shape == gates.shape,
        gates2.shape == gates.shape,
    ensures
        y.wf(),
        y2.wf(),
        y.shape == shape3(gates.shape[0], gates.shape[1], gates.shape[3]),
        y2.shape == y.shape,
        pool_gives(
            mixed(values, values2, at(f, gates.shape[2] * gates.shape[3])),
            mixed(gates, gates2, at(f, gates.shape[2] * gates.shape[3])),
            mixed(y, y2, at(f, gates.shape[3] as int)),
        ),
{
    let s = gates.shape;
    let (t, d) = (s[2] as int, s[3] as int);
    assert(s =~= shape4(s[0], s[1], s[2], s[3]));
    lemma_rows4(s, s[0], s[1], s[2], s[3]);
    let (g, h) = (at(f, t * d), at(f, d));
    assert(1 * (t * d) == t * d && 1 * d == d);
    let u = choose|u: PoolSteps| pool_steps(values, gates, u, y);
    let u2 = choose|u2: PoolSteps| pool_steps(values2, gates2, u2, y2);
    let w = choose|w: SoftmaxSteps| softmax_steps(2, gates, w, u.weights);
    let w2 = choose|w2: SoftmaxSteps| softmax_steps(2, gates2, w2, u2.weights);
    lemma_mix_reduced(Reduce::Max, 2, gates, gates2, w.top, w2.top, f, 1);
    lemma_mix_middle(Binary::Sub, gates, gates2, w.top, w2.top, w.shifted, w2.shifted, f);
    lemma_mix_mapped(Unary::Exp, w.shifted, w2.shifted, w.powers, w2.powers, g);
    lemma_mix_reduced(Reduce::Sum, 2, w.powers, w2.powers, w.total, w2.total, f, 1);
    lemma_mix_middle(Binary::Div, w.powers, w2.powers, w.total, w2.total, u.weights, u2.weights, f);
    let weights = mixed(u.weights, u2.weights, g);
    assert(softmax_steps(
        2,
        mixed(gates, gates2, g),
        SoftmaxSteps {
            top: mixed(w.top, w2.top, h),
            shifted: mixed(w.shifted, w2.shifted, g),
            powers: mixed(w.powers, w2.powers, g),
            total: mixed(w.total, w2.total, h),
        },
        weights,
    ));
    lemma_mix_paired(
        Binary::Mul,
        values,
        values2,
        u.weights,
        u2.weights,
        u.weighted,
        u2.weighted,
        g,
    );
    lemma_mix_reduced(Reduce::Sum, 2, u.weighted, u2.weighted, u.total, u2.total, f, 1);
    assert(y.shape =~= shape3(s[0], s[1], s[3]));
    assert(y2.shape =~= shape3(s[0], s[1], s[3]));
    let flat = shape3(s[0], s[1], s[3]);
    crate::tensor::lemma_unit_axis(flat, 2);
    assert(flat.insert(2, 1) =~= u.total.shape);
    assert(pool_steps(
        mixed(values, values2, g),
        mixed(gates, gates2, g),
        PoolSteps {
            weights,
            weighted: mixed(u.weighted, u2.weighted, g),
            total: mixed(u.total, u2.total, h),
        },
        mixed(y, y2, h),
    ));
}

/// Row `q` of `k` elements is the same in both.
pub open spec fn same_row(x: V, x2: V, k: int, q: int) -> bool {
    forall|e: int| q * k <= e < q * k + k ==> #[trigger] x.data[e] == x2.data[e]
}

/// Where both inputs have the same row, either result is a result of either input.
pub proof fn lemma_linear_same(
    x: V,
    x2: V,
    w: V,
    y: V,
    y2: V,
    g: spec_fn(int) -> bool,
)
    requires
        linear_gives(x, w, y),
        linear_gives(x2, w, y2),
        x.wf(),
        x2.wf(),
        x.shape.len() > 0,
        x.shape == x2.shape,
        forall|i: int|
            0 <= i < y.data.len() && g(i) ==> same_row(
                x,
                x2,
                x.shape.last() as int,
                #[trigger] row_at(i, w.shape[0] as int),
            ),
    ensures
        y.wf(),
        y2.wf(),
        y2.shape == y.shape,
        linear_gives(x2, w, mixed(y, y2, g)),
{
    let (k, n) = (x.shape.last() as int, w.shape[0] as int);
    let v = mixed(y, y2, g);
    let p = product(x.shape.drop_last()) as int;
    assert(y.shape.drop_last() =~= x.shape.drop_last());
    assert(x.data.len() == p * k);
    assert forall|i: int| 0 <= i < v.data.len() implies if k == 0 {
        #[trigger] v.data[i] == crate::bits::ZERO
    } else {
        crate::kernel::dot_gives(x2.row(k, i / n), w.row(k, i % n), v.data[i])
    } by {
        lemma_divide(i, p, n);
        let q = row_at(i, n);
        if k > 0 && g(i) {
            lemma_flat(q, k - 1, p, k);
            assert(q * k >= 0) by (nonlinear_arith)
                requires
                    q >= 0,
                    k > 0,
            ;
            assert(same_row(x, x2, k, q));
            assert(x.row(k, q) =~= x2.row(k, q)) by {
                assert forall|j: int| 0 <= j < k implies x.row(k, q)[j] == x2.row(k, q)[j] by {
                    assert(x.data[q * k + j] == x2.data[q * k + j]);
                }
            }
        }
    }
}

/// The row of an element.
pub open spec fn row_at(i: int, n: int) -> int {
    i / n
}

/// Another shape does not matter to what is mixed.
pub proof fn lemma_mix_reshaped<T>(x: NdView<T>, y: NdView<T>, to: Seq<usize>, g: spec_fn(int) -> bool)
    ensures
        mixed(reshaped(x, to), reshaped(y, to), g) == reshaped(mixed(x, y, g), to),
{
    assert(mixed(reshaped(x, to), reshaped(y, to), g).data =~= reshaped(
        mixed(x, y, g),
        to,
    ).data);
}

/// The elements of `[b, blocks, ratio, 2d]` that go into the overlapping windows of the blocks that
/// `f` names: the second half of their own tokens and the first half of the tokens before them.
pub open spec fn windowed(
    f: spec_fn(int) -> bool,
    nb: int,
    ratio: int,
    d: int,
) -> spec_fn(int) -> bool {
    |e: int|
        {
            let blk = e / (ratio * (2 * d));
            if e % (2 * d) < d {
                (blk + 1) % nb != 0 && f(blk + 1)
            } else {
                f(blk)
            }
        }
}

/// Mixed tokens give mixed windows.
pub proof fn lemma_mix_overlap(t: V, t2: V, d: usize, fill: u32, f: spec_fn(int) -> bool)
    requires
        t.wf(),
        t2.wf(),
        t.shape.len() == 4,
        t2.shape == t.shape,
        t.shape[1] > 0,
        t.shape[3] == 2 * d,
        2 * t.shape[2] <= usize::MAX,
        d > 0,
    ensures
        overlap_of(
            mixed(t, t2, windowed(f, t.shape[1] as int, t.shape[2] as int, d as int)),
            d,
            fill,
        ) == mixed(
            overlap_of(t, d, fill),
            overlap_of(t2, d, fill),
            at(f, (2 * t.shape[2]) * d),
        ),
{
    let (b, nb, ratio, w, di) = (
        t.shape[0] as int,
        t.shape[1] as int,
        t.shape[2] as int,
        t.shape[3] as int,
        d as int,
    );
    let g = windowed(f, nb, ratio, di);
    let h = at(f, (2 * ratio) * di);
    let u = mixed(t, t2, g);
    let (o, o1, o2) = (overlap_of(u, d, fill), overlap_of(t, d, fill), overlap_of(t2, d, fill));
    let v = mixed(o1, o2, h);
    let wide = (2 * t.shape[2]) as usize;
    assert(t.shape =~= shape4(t.shape[0], t.shape[1], t.shape[2], t.shape[3]));
    lemma_cube4(t.shape[0], t.shape[1], wide, d);
    lemma_cube4(t.shape[0], t.shape[1], t.shape[2], t.shape[3]);
    assert forall|p: int| 0 <= p < o.data.len() implies o.data[p] == #[trigger] v.data[p] by {
        lemma_divide(p, b * nb * (2 * ratio), di);
        lemma_divide(p / di, b * nb, 2 * ratio);
        lemma_position(p, di, 2 * ratio);
        let (c, tok, blk) = (p % di, (p / di) % (2 * ratio), (p / di) / (2 * ratio));
        assert(h(p) == f(blk));
        if tok >= ratio {
            let e = (blk * ratio + (tok - ratio)) * w + (di + c);
            lemma_flat(blk, tok - ratio, b * nb, ratio);
            lemma_flat(blk * ratio + (tok - ratio), di + c, b * nb * ratio, w);
            lemma_quotients(blk * ratio + (tok - ratio), di + c, w, ratio);
            assert(g(e) == f(blk));
            assert(o.data[p] == u.data[e]);
            assert(o1.data[p] == t.data[e]);
            assert(o2.data[p] == t2.data[e]);
        } else if blk % nb != 0 {
            let e = ((blk - 1) * ratio + tok) * w + c;
            assert(blk >= 1) by {
                if blk == 0 {
                    vstd::arithmetic::div_mod::lemma_small_mod(0, nb as nat);
                }
            }
            lemma_flat(blk - 1, tok, b * nb, ratio);
            lemma_flat((blk - 1) * ratio + tok, c, b * nb * ratio, w);
            lemma_quotients((blk - 1) * ratio + tok, c, w, ratio);
            assert(g(e) == f(blk));
            assert(o.data[p] == u.data[e]);
            assert(o1.data[p] == t.data[e]);
            assert(o2.data[p] == t2.data[e]);
        }
    }
    assert(o.data =~= v.data);
}

} // verus!
