//! Laws of locality: what a layer gives for one token is what it gives for that token alone.
//!
//! A tensor over tokens has one or two leading axes that count them. [`piece`] cuts out what belongs
//! to one token and keeps the rank, so that a piece is again an input or output of the layer, with a
//! single token in it.

use vstd::prelude::*;

#[allow(unused_imports)]
use crate::bits::{
    agrees, double_less, double_negated, widens, DOUBLE_MINUS_HALF, DOUBLE_ONE, DOUBLE_TWO,
    DOUBLE_ZERO,
};
#[allow(unused_imports)]
use crate::kernel::fadd;
#[allow(unused_imports)]
use crate::layout::{
    expert_layout, gate_layout, head_layout, law_expert_layout, lemma_gain, lemma_pigeons,
    moe_layout, vector, Sizes,
};
#[allow(unused_imports)]
use crate::mhc::{
    collapse_gives, collapse_steps, flat_shape, flat_streams, lemma_flat_streams, logits_give,
    logits_steps, mix_gives, mix_steps, normalized, normalized_steps, post_gives, post_ok,
    post_steps, pre_gives, pre_ok, pre_steps, sinkhorn_round, sinkhorn_rounds, split_gives,
    split_steps, Hc, MixSteps, PostSteps, PreSteps, SplitSteps,
};
#[allow(unused_imports)]
use crate::model::{
    head_collapse_steps, head_gives, head_shape, head_steps, last_position, CollapseSteps, Head,
};
#[allow(unused_imports)]
use crate::moe::{
    column_of, expert_adds, expert_gives, expert_steps, hits, law_routing,
    law_slots_are_dispatched_once, lemma_hits, lemma_tokens_distinct, moe_gives, moe_steps,
    route_gives, route_steps, rows_added, score_gives, slots_hold, sqrtsoftplus_steps, token_routed,
    tokens_of, zero_rows, Expert, ExpertSteps, Gate, Moe, MoeSteps, RouteSteps, ScoreFunc,
    SoftplusSteps,
};
#[allow(unused_imports)]
use crate::nn::{
    rms_norm_gives, rms_norm_steps, sigmoid_gives, sigmoid_steps, softmax_gives, softmax_steps,
    RmsSteps, SigmoidSteps, SoftmaxSteps,
};
#[allow(unused_imports)]
use crate::ops::{
    binary, combined, combined_shape, linear_gives, linear_shape, mapped, paired, reduced,
    unary_gives, Binary, Reduce, Unary,
};
#[allow(unused_imports)]
use crate::shape::{
    broadcast_shape, fits, inner, lemma_broadcast_into, lemma_broadcast_keepdim, lemma_divide,
    lemma_expands_axes, lemma_flat, lemma_product_concat, lemma_span_concat, lemma_span_positive,
    lemma_span_update, outer, product, shape2, shape3, shape4, shape5, source_index, span,
};
#[allow(unused_imports)]
use crate::tensor::{narrowed, reshaped, rows_picked, squeezed, IndexView, NdView, V};
#[allow(unused_imports)]
use crate::topk::top_k_of;

verus! {

/// `m` axes of size one.
pub open spec fn ones(m: int) -> Seq<usize> {
    Seq::new(m as nat, |i: int| 1usize)
}

/// What belongs to position `t` of the first `m` axes, taken together.
pub open spec fn piece<T>(x: NdView<T>, m: int, t: int) -> NdView<T> {
    let a = x.shape.skip(m);
    let k = product(a) as int;
    NdView { shape: ones(m) + a, data: x.data.subrange(t * k, t * k + k) }
}

/// How many positions the first `m` axes have.
pub open spec fn positions(s: Seq<usize>, m: int) -> int {
    product(s.take(m)) as int
}

pub proof fn lemma_ones(m: int)
    requires
        m >= 0,
    ensures
        product(ones(m)) == 1,
        span(ones(m)) == 1,
    decreases m,
{
    if m > 0 {
        assert(ones(m).drop_last() =~= ones(m - 1));
        lemma_ones(m - 1);
        assert(ones(m).last() == 1);
    }
}

/// A piece is a tensor; its elements stand in a row.
pub proof fn lemma_piece<T>(x: NdView<T>, m: int, t: int)
    requires
        x.wf(),
        0 <= m <= x.shape.len(),
        0 <= t < positions(x.shape, m),
    ensures
        piece(x, m, t).wf(),
        piece(x, m, t).data.len() == product(x.shape.skip(m)),
        x.data.len() == positions(x.shape, m) * product(x.shape.skip(m)),
        0 <= t * product(x.shape.skip(m)),
        t * product(x.shape.skip(m)) + product(x.shape.skip(m)) <= x.data.len(),
        forall|i: int|
            0 <= i < product(x.shape.skip(m)) ==> #[trigger] piece(x, m, t).data[i] == x.data[t
                * product(x.shape.skip(m)) + i],
{
    let (p, a) = (x.shape.take(m), x.shape.skip(m));
    assert(x.shape =~= p + a);
    lemma_product_concat(p, a);
    lemma_span_concat(p, a);
    lemma_ones(m);
    lemma_product_concat(ones(m), a);
    lemma_span_concat(ones(m), a);
    lemma_span_positive(p);
    let (n, k): (int, int) = (product(p) as int, product(a) as int);
    let (u, v): (nat, nat) = (span(p), span(a));
    assert(0 <= t * k && t * k + k <= n * k) by (nonlinear_arith)
        requires
            0 <= t < n,
            k >= 0,
    ;
    assert(v <= u * v) by (nonlinear_arith)
        requires
            u >= 1,
    ;
    assert(1 * v == v && 1 * product(a) == product(a));
}

/// Elementwise maps act on each piece.
pub proof fn lemma_mapped(op: Unary, x: V, y: V, m: int, t: int)
    requires
        mapped(op, x, y),
        x.wf(),
        0 <= m <= x.shape.len(),
        0 <= t < positions(x.shape, m),
    ensures
        y.wf(),
        mapped(op, piece(x, m, t), piece(y, m, t)),
{
    lemma_piece(x, m, t);
    lemma_piece(y, m, t);
    let k = product(x.shape.skip(m)) as int;
    assert forall|i: int| 0 <= i < k implies unary_gives(
        op,
        piece(x, m, t).data[i],
        #[trigger] piece(y, m, t).data[i],
    ) by {
        assert(unary_gives(op, x.data[t * k + i], y.data[t * k + i]));
    }
}

/// Elementwise pairs act on each piece.
pub proof fn lemma_paired(op: Binary, a: V, b: V, y: V, m: int, t: int)
    requires
        paired(op, a, b, y),
        a.wf(),
        b.wf(),
        0 <= m <= a.shape.len(),
        0 <= t < positions(a.shape, m),
    ensures
        y.wf(),
        paired(op, piece(a, m, t), piece(b, m, t), piece(y, m, t)),
{
    lemma_piece(a, m, t);
    lemma_piece(b, m, t);
    lemma_piece(y, m, t);
    let k = product(a.shape.skip(m)) as int;
    assert forall|i: int| 0 <= i < k implies crate::bits::agrees(
        #[trigger] piece(y, m, t).data[i],
        binary(op, piece(a, m, t).data[i], piece(b, m, t).data[i]),
    ) by {
        assert(crate::bits::agrees(
            y.data[t * k + i],
            binary(op, a.data[t * k + i], b.data[t * k + i]),
        ));
    }
}

/// Broadcasting leaves common leading axes as they are.
proof fn lemma_broadcast_prefix(p: Seq<usize>, a: Seq<usize>, b: Seq<usize>)
    requires
        a.len() == b.len(),
    ensures
        broadcast_shape(p + a, p + b) == (match broadcast_shape(a, b) {
            Some(h) => Some(p + h),
            None => None,
        }),
        broadcast_shape(a, b) matches Some(h) ==> h.len() == a.len(),
    decreases a.len(),
{
    if a.len() == 0 {
        assert(p + a =~= p);
        assert(p + b =~= p);
        assert(b =~= Seq::<usize>::empty());
        crate::shape::lemma_broadcast_self(p);
    } else {
        assert((p + a).drop_last() =~= p + a.drop_last());
        assert((p + b).drop_last() =~= p + b.drop_last());
        lemma_broadcast_prefix(p, a.drop_last(), b.drop_last());
        if let Some(h) = broadcast_shape(a.drop_last(), b.drop_last()) {
            assert((p + h).push(a.last()) =~= p + h.push(a.last()));
            assert((p + h).push(b.last()) =~= p + h.push(b.last()));
        }
    }
}

/// The same with an operand that has no leading axes.
proof fn lemma_broadcast_gain(p: Seq<usize>, a: Seq<usize>, b: Seq<usize>)
    requires
        b.len() <= a.len(),
    ensures
        broadcast_shape(p + a, b) == (match broadcast_shape(a, b) {
            Some(h) => Some(p + h),
            None => None,
        }),
        broadcast_shape(a, b) matches Some(h) ==> h.len() == a.len(),
    decreases b.len(),
{
    if b.len() == 0 {
        if a.len() == 0 {
            assert(b =~= a);
        }
        if (p + a).len() == 0 {
            assert(p + a =~= b);
        }
        assert(broadcast_shape(a, b) == Some(a));
        assert(broadcast_shape(p + a, b) == Some(p + a));
    } else {
        assert((p + a).drop_last() =~= p + a.drop_last());
        lemma_broadcast_gain(p, a.drop_last(), b.drop_last());
        if let Some(h) = broadcast_shape(a.drop_last(), b.drop_last()) {
            assert((p + h).push(a.last()) =~= p + h.push(a.last()));
            assert((p + h).push(b.last()) =~= p + h.push(b.last()));
        }
    }
}

pub proof fn lemma_source_self(p: Seq<usize>, t: int)
    requires
        0 <= t < product(p),
    ensures
        source_index(p, p, t) == t,
    decreases p.len(),
{
    if p.len() > 0 {
        let q = p.drop_last();
        lemma_divide(t, product(q) as int, p.last() as int);
        lemma_source_self(q, t / p.last() as int);
    }
}

/// Where an element of a piece comes from.
proof fn lemma_source_prefix(p: Seq<usize>, a: Seq<usize>, y: Seq<usize>, t: int, i: int)
    requires
        a.len() == y.len(),
        0 <= t < product(p),
        0 <= i < product(y),
    ensures
        source_index(p + a, p + y, t * product(y) + i) == t * product(a) + source_index(a, y, i),
    decreases a.len(),
{
    if a.len() == 0 {
        assert(p + a =~= p);
        assert(p + y =~= p);
        assert(i == 0);
        assert(t * 1 == t);
        lemma_source_self(p, t);
    } else {
        let (a1, y1) = (a.drop_last(), y.drop_last());
        let (f, d) = (a.last() as int, y.last() as int);
        let (ka, ky) = (product(a1) as int, product(y1) as int);
        assert((p + a).drop_last() =~= p + a1);
        assert((p + y).drop_last() =~= p + y1);
        lemma_divide(i, ky, d);
        lemma_source_prefix(p, a1, y1, t, i / d);
        assert((t * ky + i / d) * d + i % d == t * (ky * d) + i) by (nonlinear_arith)
            requires
                i == (i / d) * d + i % d,
        ;
        vstd::arithmetic::div_mod::lemma_fundamental_div_mod_converse(
            t * (ky * d) + i,
            d,
            t * ky + i / d,
            i % d,
        );
        let inner_at = source_index(a1, y1, i / d);
        assert((t * ka + inner_at) * f == t * (ka * f) + inner_at * f) by (nonlinear_arith);
    }
}

/// The same for an operand without leading axes.
proof fn lemma_source_gain(p: Seq<usize>, b: Seq<usize>, y: Seq<usize>, t: int, i: int)
    requires
        b.len() <= y.len(),
        0 <= t < product(p),
        0 <= i < product(y),
    ensures
        source_index(b, p + y, t * product(y) + i) == source_index(b, y, i),
    decreases b.len(),
{
    if b.len() > 0 {
        let y1 = y.drop_last();
        let d = y.last() as int;
        let ky = product(y1) as int;
        assert((p + y).drop_last() =~= p + y1);
        lemma_divide(i, ky, d);
        lemma_source_gain(p, b.drop_last(), y1, t, i / d);
        assert((t * ky + i / d) * d + i % d == t * (ky * d) + i) by (nonlinear_arith)
            requires
                i == (i / d) * d + i % d,
        ;
        vstd::arithmetic::div_mod::lemma_fundamental_div_mod_converse(
            t * (ky * d) + i,
            d,
            t * ky + i / d,
            i % d,
        );
    }
}

/// Combining two tensors over the same positions acts on each piece.
pub proof fn lemma_combined(op: Binary, a: V, b: V, y: V, m: int, t: int)
    requires
        combined(op, a, b, y),
        a.wf(),
        b.wf(),
        a.shape.len() == b.shape.len(),
        0 <= m <= a.shape.len(),
        a.shape.take(m) == b.shape.take(m),
        0 <= t < positions(a.shape, m),
    ensures
        y.wf(),
        y.shape.len() == a.shape.len(),
        y.shape.take(m) == a.shape.take(m),
        combined(op, piece(a, m, t), piece(b, m, t), piece(y, m, t)),
{
    let p = a.shape.take(m);
    let (sa, sb) = (a.shape.skip(m), b.shape.skip(m));
    assert(a.shape =~= p + sa);
    assert(b.shape =~= p + sb);
    lemma_broadcast_prefix(p, sa, sb);
    lemma_broadcast_prefix(ones(m), sa, sb);
    let sy = broadcast_shape(sa, sb).unwrap();
    assert(y.shape == p + sy);
    assert(y.shape.take(m) =~= p);
    assert(y.shape.skip(m) =~= sy);
    lemma_piece(a, m, t);
    lemma_piece(b, m, t);
    lemma_piece(y, m, t);
    let (pa, pb, py) = (piece(a, m, t), piece(b, m, t), piece(y, m, t));
    assert(combined_shape(pa.shape, pb.shape) == Some(py.shape));
    lemma_ones(m);
    lemma_product_concat(ones(m), sy);
    let (ka, kb, ky) = (product(sa) as int, product(sb) as int, product(sy) as int);
    crate::shape::lemma_broadcast_expands(sa, sb);
    assert forall|i: int| 0 <= i < py.data.len() implies crate::bits::agrees(
        #[trigger] py.data[i],
        binary(
            op,
            pa.data[source_index(pa.shape, py.shape, i)],
            pb.data[source_index(pb.shape, py.shape, i)],
        ),
    ) by {
        lemma_source_prefix(p, sa, sy, t, i);
        lemma_source_prefix(p, sb, sy, t, i);
        lemma_source_prefix(ones(m), sa, sy, 0, i);
        lemma_source_prefix(ones(m), sb, sy, 0, i);
        assert(0 * ky == 0 && 0 * ka == 0 && 0 * kb == 0);
        crate::shape::lemma_source_index(sa, sy, i);
        crate::shape::lemma_source_index(sb, sy, i);
        let full = t * ky + i;
        assert(crate::bits::agrees(
            y.data[full],
            binary(
                op,
                a.data[source_index(a.shape, y.shape, full)],
                b.data[source_index(b.shape, y.shape, full)],
            ),
        ));
    }
}

/// Combining with a tensor that all positions share acts on each piece.
proof fn lemma_combined_gain(op: Binary, a: V, b: V, y: V, m: int, t: int)
    requires
        combined(op, a, b, y),
        a.wf(),
        b.wf(),
        0 <= m,
        m + b.shape.len() <= a.shape.len(),
        0 <= t < positions(a.shape, m),
    ensures
        y.wf(),
        y.shape.len() == a.shape.len(),
        y.shape.take(m) == a.shape.take(m),
        combined(op, piece(a, m, t), b, piece(y, m, t)),
{
    let p = a.shape.take(m);
    let (sa, sb) = (a.shape.skip(m), b.shape);
    assert(a.shape =~= p + sa);
    lemma_broadcast_gain(p, sa, sb);
    lemma_broadcast_gain(ones(m), sa, sb);
    let sy = broadcast_shape(sa, sb).unwrap();
    assert(y.shape == p + sy);
    assert(y.shape.take(m) =~= p);
    assert(y.shape.skip(m) =~= sy);
    lemma_piece(a, m, t);
    lemma_piece(y, m, t);
    let (pa, py) = (piece(a, m, t), piece(y, m, t));
    assert(combined_shape(pa.shape, sb) == Some(py.shape));
    lemma_ones(m);
    lemma_product_concat(ones(m), sy);
    let (ka, ky) = (product(sa) as int, product(sy) as int);
    crate::shape::lemma_broadcast_expands(sa, sb);
    assert forall|i: int| 0 <= i < py.data.len() implies crate::bits::agrees(
        #[trigger] py.data[i],
        binary(
            op,
            pa.data[source_index(pa.shape, py.shape, i)],
            b.data[source_index(sb, py.shape, i)],
        ),
    ) by {
        lemma_source_prefix(p, sa, sy, t, i);
        lemma_source_gain(p, sb, sy, t, i);
        lemma_source_prefix(ones(m), sa, sy, 0, i);
        lemma_source_gain(ones(m), sb, sy, 0, i);
        assert(0 * ky == 0 && 0 * ka == 0);
        crate::shape::lemma_source_index(sa, sy, i);
        let full = t * ky + i;
        assert(crate::bits::agrees(
            y.data[full],
            binary(
                op,
                a.data[source_index(a.shape, y.shape, full)],
                b.data[source_index(sb, y.shape, full)],
            ),
        ));
    }
}

/// Reducing an axis behind the positions acts on each piece.
pub proof fn lemma_reduced(op: Reduce, axis: int, x: V, y: V, m: int, t: int)
    requires
        reduced(op, axis, x, y),
        x.wf(),
        0 <= m <= axis,
        0 <= t < positions(x.shape, m),
    ensures
        y.wf(),
        y.shape.take(m) == x.shape.take(m),
        reduced(op, axis, piece(x, m, t), piece(y, m, t)),
{
    let (p, a) = (x.shape.take(m), x.shape.skip(m));
    let c = axis - m;
    assert(x.shape =~= p + a);
    crate::shape::lemma_axis(x.shape, axis);
    lemma_span_update(x.shape, axis, 1);
    crate::shape::lemma_axis(y.shape, axis);
    assert(y.shape.take(m) =~= p);
    let b = y.shape.skip(m);
    assert(b =~= a.update(c, 1));
    let (o, n, k) = (
        outer(x.shape, axis) as int,
        x.shape[axis] as int,
        inner(x.shape, axis) as int,
    );
    assert(o * 1 * k == o * k) by (nonlinear_arith);
    assert(y.wf());
    lemma_piece(x, m, t);
    lemma_piece(y, m, t);
    let (px, py) = (piece(x, m, t), piece(y, m, t));
    // The counts around the axis inside a piece.
    let q = outer(a, c) as int;
    crate::shape::lemma_axis(a, c);
    crate::shape::lemma_axis(b, c);
    assert(a.take(c) =~= b.take(c));
    assert(a.skip(c + 1) =~= b.skip(c + 1));
    assert(x.shape.skip(axis + 1) =~= a.skip(c + 1));
    assert(px.shape.skip(axis + 1) =~= a.skip(c + 1));
    assert(px.shape.take(axis) =~= ones(m) + a.take(c));
    lemma_ones(m);
    lemma_product_concat(ones(m), a.take(c));
    assert(px.shape[axis] == n);
    assert(q * 1 * k == q * k) by (nonlinear_arith);
    assert(1 * outer(a, c) == outer(a, c));
    assert(px.shape.update(axis, 1) =~= py.shape);
    let (kx, ky) = (product(a) as int, product(b) as int);
    assert(kx == q * n * k && ky == q * k);
    assert forall|i: int| 0 <= i < py.data.len() implies crate::ops::reduce_gives(
        op,
        px.along(axis, i),
        #[trigger] py.data[i],
    ) by {
        lemma_divide(i, q, k);
        let full = t * ky + i;
        assert((t * q + i / k) * k + i % k == t * (q * k) + i) by (nonlinear_arith)
            requires
                i == (i / k) * k + i % k,
        ;
        vstd::arithmetic::div_mod::lemma_fundamental_div_mod_converse(
            full,
            k,
            t * q + i / k,
            i % k,
        );
        assert(crate::ops::reduce_gives(op, x.along(axis, full), y.data[full]));
        assert forall|j: int| 0 <= j < n implies px.along(axis, i)[j] == x.along(axis, full)[j] by {
            let at = ((i / k) * n + j) * k + i % k;
            lemma_flat(i / k, j, q, n);
            lemma_flat((i / k) * n + j, i % k, q * n, k);
            assert(((t * q + i / k) * n + j) * k + i % k == t * (q * n * k) + at) by (nonlinear_arith)
                requires
                    at == ((i / k) * n + j) * k + i % k,
            ;
        }
        assert(px.along(axis, i) =~= x.along(axis, full));
    }
}

/// A projection acts on each row.
proof fn lemma_linear(x: V, w: V, y: V, t: int)
    requires
        linear_gives(x, w, y),
        x.wf(),
        x.shape.len() == 2,
        0 <= t < x.shape[0],
    ensures
        y.wf(),
        y.shape == shape2(x.shape[0], w.shape[0]),
        linear_gives(piece(x, 1, t), w, piece(y, 1, t)),
{
    let (n, k, o) = (x.shape[0], x.shape[1], w.shape[0]);
    assert(x.shape =~= shape2(n, k));
    assert(y.shape =~= shape2(n, o));
    lemma_columns(x, t);
    lemma_columns(y, t);
    lemma_piece(x, 1, t);
    lemma_piece(y, 1, t);
    let (px, py) = (piece(x, 1, t), piece(y, 1, t));
    assert(px.shape =~= shape2(1, k));
    assert(py.shape =~= shape2(1, o));
    assert(px.shape.drop_last().push(o) =~= py.shape);
    crate::shape::lemma_grid(1, o);
    crate::shape::lemma_grid(n, o);
    if product(y.shape) == 0 && o != 0 {
        assert(n * o > 0) by (nonlinear_arith)
            requires
                n > 0,
                o > 0,
        ;
    }
    assert(linear_shape(px.shape, w.shape) == Some(py.shape));
    assert forall|i: int| 0 <= i < py.data.len() implies (if k == 0 {
        #[trigger] py.data[i] == crate::bits::ZERO
    } else {
        crate::kernel::dot_gives(
            px.row(k as int, i / o as int),
            w.row(k as int, i % o as int),
            py.data[i],
        )
    }) by {
        lemma_flat(t, i, n as int, o as int);
        vstd::arithmetic::div_mod::lemma_basic_div(i, o as int);
        vstd::arithmetic::div_mod::lemma_small_mod(i as nat, o as nat);
        let full = t * o + i;
        assert(py.data[i] == y.data[full]);
        assert(px.row(k as int, 0) =~= x.row(k as int, t));
    }
}

/// The rows of a matrix.
pub proof fn lemma_columns<T>(x: NdView<T>, t: int)
    requires
        x.wf(),
        x.shape.len() == 2,
        0 <= t < x.shape[0],
    ensures
        positions(x.shape, 1) == x.shape[0],
        product(x.shape.skip(1)) == x.shape[1],
        piece(x, 1, t).shape == shape2(1, x.shape[1]),
{
    let s = x.shape;
    assert(s.take(1).drop_last() =~= Seq::<usize>::empty());
    assert(s.skip(1).drop_last() =~= Seq::<usize>::empty());
    reveal_with_fuel(product, 2);
    assert(1 * (s[0] as nat) == s[0] as nat && 1 * (s[1] as nat) == s[1] as nat);
    assert(s.take(1).last() == s[0] && s.skip(1).last() == s[1]);
    assert(piece(x, 1, t).shape =~= shape2(1, s[1]));
}

/// Taking columns acts on each row.
proof fn lemma_narrowed(x: V, start: int, len: int, t: int)
    requires
        x.wf(),
        x.shape.len() == 2,
        0 <= t < x.shape[0],
        0 <= start,
        0 <= len,
        start + len <= x.shape[1],
    ensures
        narrowed(x, 1, start, len).wf(),
        narrowed(x, 1, start, len).shape == shape2(x.shape[0], len as usize),
        piece(narrowed(x, 1, start, len), 1, t) == narrowed(piece(x, 1, t), 1, start, len),
{
    let (n, w) = (x.shape[0] as int, x.shape[1] as int);
    let y = narrowed(x, 1, start, len);
    let px = piece(x, 1, t);
    lemma_columns(x, t);
    lemma_piece(x, 1, t);
    assert(x.shape.skip(2) =~= Seq::<usize>::empty());
    assert(px.shape.skip(2) =~= Seq::<usize>::empty());
    assert(inner(x.shape, 1) == 1 && inner(px.shape, 1) == 1);
    lemma_span_update(x.shape, 1, len as usize);
    assert(y.shape =~= shape2(x.shape[0], len as usize));
    crate::shape::lemma_grid(x.shape[0], len as usize);
    assert(n * len * 1 == n * len) by (nonlinear_arith);
    assert(y.wf());
    lemma_columns(y, t);
    lemma_piece(y, 1, t);
    let z = narrowed(px, 1, start, len);
    assert(px.shape.take(1) =~= ones(1));
    lemma_ones(1);
    assert(1 * len * 1 == len);
    assert(piece(y, 1, t).shape =~= z.shape);
    assert forall|i: int| 0 <= i < len implies piece(y, 1, t).data[i] == #[trigger] z.data[i] by {
        lemma_flat(t, i, n, len);
        vstd::arithmetic::div_mod::lemma_basic_div(i, len);
        vstd::arithmetic::div_mod::lemma_small_mod(i as nat, len as nat);
        let full = t * len + i;
        assert(full / 1 == full && full % 1 == 0 && i / 1 == i && i % 1 == 0);
        assert(y.data[full] == x.data[(t * w + start + i) * 1 + 0]);
        assert(z.data[i] == px.data[(0 * w + start + i) * 1 + 0]);
        assert(px.data[start + i] == x.data[t * w + (start + i)]);
    }
    assert(piece(y, 1, t).data =~= z.data);
}

// --- gates and norms ------------------------------------------------------------------------

proof fn lemma_sigmoid(x: V, y: V, m: int, t: int)
    requires
        sigmoid_gives(x, y),
        x.wf(),
        0 <= m <= x.shape.len(),
        0 <= t < positions(x.shape, m),
    ensures
        y.wf(),
        y.shape == x.shape,
        sigmoid_gives(piece(x, m, t), piece(y, m, t)),
{
    let u = choose|u: SigmoidSteps| sigmoid_steps(x, u, y);
    lemma_mapped(Unary::Neg, x, u.negative, m, t);
    lemma_mapped(Unary::Exp, u.negative, u.power, m, t);
    lemma_mapped(Unary::Affine(DOUBLE_ONE, DOUBLE_ONE), u.power, u.below, m, t);
    lemma_mapped(Unary::Recip, u.below, y, m, t);
    let v = SigmoidSteps {
        negative: piece(u.negative, m, t),
        power: piece(u.power, m, t),
        below: piece(u.below, m, t),
    };
    assert(sigmoid_steps(piece(x, m, t), v, piece(y, m, t)));
}

proof fn lemma_softmax(axis: int, x: V, y: V, m: int, t: int)
    requires
        softmax_gives(axis, x, y),
        x.wf(),
        0 <= m <= axis,
        0 <= t < positions(x.shape, m),
    ensures
        y.wf(),
        y.shape == x.shape,
        softmax_gives(axis, piece(x, m, t), piece(y, m, t)),
{
    let u = choose|u: SoftmaxSteps| softmax_steps(axis, x, u, y);
    lemma_broadcast_keepdim(x.shape, axis);
    lemma_reduced(Reduce::Max, axis, x, u.top, m, t);
    lemma_combined(Binary::Sub, x, u.top, u.shifted, m, t);
    lemma_mapped(Unary::Exp, u.shifted, u.powers, m, t);
    lemma_reduced(Reduce::Sum, axis, u.powers, u.total, m, t);
    lemma_combined(Binary::Div, u.powers, u.total, y, m, t);
    let v = SoftmaxSteps {
        top: piece(u.top, m, t),
        shifted: piece(u.shifted, m, t),
        powers: piece(u.powers, m, t),
        total: piece(u.total, m, t),
    };
    assert(softmax_steps(axis, piece(x, m, t), v, piece(y, m, t)));
}

proof fn lemma_normalized(x: V, axis: int, eps: u64, y: V, m: int, t: int)
    requires
        normalized(x, axis, eps, y),
        x.wf(),
        0 <= m <= axis < x.shape.len(),
        0 <= t < positions(x.shape, m),
    ensures
        y.wf(),
        y.shape == x.shape,
        normalized(piece(x, m, t), axis, eps, piece(y, m, t)),
{
    let (total, below) = choose|total: V, below: V|
        normalized_steps(x, axis, eps, total, below, y);
    lemma_broadcast_keepdim(x.shape, axis);
    lemma_reduced(Reduce::Sum, axis, x, total, m, t);
    lemma_mapped(Unary::Affine(DOUBLE_ONE, eps), total, below, m, t);
    lemma_combined(Binary::Div, x, below, y, m, t);
    assert(normalized_steps(
        piece(x, m, t),
        axis,
        eps,
        piece(total, m, t),
        piece(below, m, t),
        piece(y, m, t),
    ));
}

/// The Sinkhorn iterations act on each matrix.
proof fn lemma_rounds(rounds: Seq<V>, eps: u64, t: int, i: int)
    requires
        sinkhorn_rounds(rounds, eps),
        rounds.len() > 0,
        rounds[0].wf(),
        rounds[0].shape.len() == 3,
        0 <= t < positions(rounds[0].shape, 1),
        0 <= i < rounds.len(),
    ensures
        rounds[i].wf(),
        rounds[i].shape == rounds[0].shape,
        i > 0 ==> sinkhorn_round(piece(rounds[i - 1], 1, t), eps, piece(rounds[i], 1, t)),
    decreases i,
{
    if i > 0 {
        lemma_rounds(rounds, eps, t, i - 1);
        let (x, y) = (rounds[i - 1], rounds[i - 1 + 1]);
        assert(sinkhorn_round(rounds[i - 1], eps, rounds[i - 1 + 1]));
        let rows = choose|rows: V| #[trigger] normalized(x, 2, eps, rows) && normalized(rows, 1, eps, y);
        lemma_normalized(x, 2, eps, rows, 1, t);
        lemma_normalized(rows, 1, eps, y, 1, t);
        assert(normalized(piece(x, 1, t), 2, eps, piece(rows, 1, t)));
    }
}

/// The part of a vector is a vector.
proof fn lemma_part_of_vector(base: V, start: int, len: int)
    requires
        base.wf(),
        base.shape.len() == 1,
        0 <= start,
        0 <= len,
        start + len <= base.shape[0],
    ensures
        narrowed(base, 0, start, len).wf(),
        vector(narrowed(base, 0, start, len).shape, len as usize),
{
    let s = base.shape;
    assert(s.take(0) =~= Seq::<usize>::empty());
    assert(s.skip(1) =~= Seq::<usize>::empty());
    lemma_span_update(s, 0, len as usize);
    let r = s.update(0, len as usize);
    assert(r.drop_last() =~= Seq::<usize>::empty());
    reveal_with_fuel(product, 2);
    assert(r.last() == len);
    assert(product(r) == 1 * (len as nat));
    assert(1 * len * 1 == len);
}

proof fn lemma_logits(mixes: V, base: V, start: int, len: int, w: u64, y: V, t: int)
    requires
        logits_give(mixes, base, start, len, w, y),
        mixes.wf(),
        base.wf(),
        mixes.shape.len() == 2,
        base.shape.len() == 1,
        0 <= t < mixes.shape[0],
        0 <= start,
        0 <= len,
        start + len <= mixes.shape[1],
        start + len <= base.shape[0],
    ensures
        y.wf(),
        y.shape == shape2(mixes.shape[0], len as usize),
        logits_give(piece(mixes, 1, t), base, start, len, w, piece(y, 1, t)),
{
    let scaled = choose|scaled: V| logits_steps(mixes, base, start, len, w, scaled, y);
    let cut = narrowed(mixes, 1, start, len);
    let part = narrowed(base, 0, start, len);
    lemma_narrowed(mixes, start, len, t);
    lemma_part_of_vector(base, start, len);
    lemma_columns(mixes, t);
    lemma_columns(cut, t);
    lemma_mapped(Unary::Affine(w, DOUBLE_ZERO), cut, scaled, 1, t);
    lemma_gain(scaled.shape, part.shape);
    lemma_combined_gain(Binary::Add, scaled, part, y, 1, t);
    assert(logits_steps(
        piece(mixes, 1, t),
        base,
        start,
        len,
        w,
        piece(scaled, 1, t),
        piece(y, 1, t),
    ));
}

// --- hyper-connections ----------------------------------------------------------------------

/// A reshape that keeps what belongs to a position keeps the piece.
pub proof fn lemma_reshaped(x: V, m: int, to: Seq<usize>, n: int, t: int)
    requires
        0 <= m <= x.shape.len(),
        0 <= n <= to.len(),
        product(x.shape.skip(m)) == product(to.skip(n)),
    ensures
        piece(reshaped(x, to), n, t) == reshaped(piece(x, m, t), ones(n) + to.skip(n)),
{
}

/// Splitting acts on each mixing vector.
proof fn lemma_split(
    mixes: V,
    scale: V,
    base: V,
    hc: usize,
    iters: usize,
    eps: u64,
    pre: V,
    post: V,
    comb: V,
    t: int,
)
    requires
        split_gives(mixes, scale, base, hc, iters, eps, pre, post, comb),
        mixes.wf(),
        base.wf(),
        mixes.shape.len() == 2,
        base.shape.len() == 1,
        0 <= t < mixes.shape[0],
        2 * hc + hc * hc <= mixes.shape[1],
        2 * hc + hc * hc <= base.shape[0],
        fits(shape3(mixes.shape[0], hc, hc)),
    ensures
        pre.wf(),
        post.wf(),
        comb.wf(),
        pre.shape == shape2(mixes.shape[0], hc),
        post.shape == shape2(mixes.shape[0], hc),
        comb.shape == shape3(mixes.shape[0], hc, hc),
        split_gives(
            piece(mixes, 1, t),
            scale,
            base,
            hc,
            iters,
            eps,
            piece(pre, 1, t),
            piece(post, 1, t),
            piece(comb, 1, t),
        ),
{
    let h = hc as int;
    let n = mixes.shape[0];
    let u = choose|u: SplitSteps|
        split_steps(mixes, scale, base, hc, iters, eps, u, pre, post, comb);
    assert(h * h >= 0) by (nonlinear_arith);
    let sq = (h * h) as usize;
    lemma_columns(mixes, t);
    let pm = piece(mixes, 1, t);
    let w0 = choose|w: u64|
        widens(scale.data[0], w) && #[trigger] logits_give(mixes, base, 0, h, w, u.pre_logits);
    lemma_logits(mixes, base, 0, h, w0, u.pre_logits, t);
    lemma_columns(u.pre_logits, t);
    lemma_sigmoid(u.pre_logits, u.pre_gate, 1, t);
    lemma_mapped(Unary::Affine(DOUBLE_ONE, eps), u.pre_gate, pre, 1, t);
    let w1 = choose|w: u64|
        widens(scale.data[1], w) && #[trigger] logits_give(mixes, base, h, h, w, u.post_logits);
    lemma_logits(mixes, base, h, h, w1, u.post_logits, t);
    lemma_columns(u.post_logits, t);
    lemma_sigmoid(u.post_logits, u.post_gate, 1, t);
    lemma_mapped(Unary::Affine(DOUBLE_TWO, DOUBLE_ZERO), u.post_gate, post, 1, t);
    let w2 = choose|w: u64|
        widens(scale.data[2], w) && #[trigger] logits_give(
            mixes,
            base,
            2 * h,
            h * h,
            w,
            u.comb_logits,
        );
    lemma_logits(mixes, base, 2 * h, h * h, w2, u.comb_logits, t);
    lemma_columns(u.comb_logits, t);
    let cube = shape3(n, hc, hc);
    let square = reshaped(u.comb_logits, cube);
    crate::shape::lemma_grid(n, sq);
    crate::shape::lemma_cube(n, hc, hc);
    assert(n * sq == n * hc * hc) by (nonlinear_arith)
        requires
            sq == hc * hc,
    ;
    assert(square.wf());
    assert(cube.skip(1) =~= shape2(hc, hc));
    crate::shape::lemma_grid(hc, hc);
    lemma_reshaped(u.comb_logits, 1, cube, 1, t);
    assert(ones(1) + cube.skip(1) =~= shape3(1, hc, hc));
    assert(cube.take(1) =~= mixes.shape.take(1));
    lemma_softmax(2, square, u.soft, 1, t);
    lemma_mapped(Unary::Affine(DOUBLE_ONE, eps), u.soft, u.lifted, 1, t);
    lemma_normalized(u.lifted, 1, eps, u.rounds[0], 1, t);
    let cut = Seq::new(u.rounds.len(), |i: int| piece(u.rounds[i], 1, t));
    assert forall|i: int| 0 <= i < cut.len() - 1 implies #[trigger] sinkhorn_round(
        cut[i],
        eps,
        cut[i + 1],
    ) by {
        lemma_rounds(u.rounds, eps, t, i + 1);
    }
    lemma_rounds(u.rounds, eps, t, u.rounds.len() - 1);
    let v = SplitSteps {
        pre_logits: piece(u.pre_logits, 1, t),
        pre_gate: piece(u.pre_gate, 1, t),
        post_logits: piece(u.post_logits, 1, t),
        post_gate: piece(u.post_gate, 1, t),
        comb_logits: piece(u.comb_logits, 1, t),
        soft: piece(u.soft, 1, t),
        lifted: piece(u.lifted, 1, t),
        rounds: cut,
    };
    assert(logits_give(pm, base, 0, h, w0, v.pre_logits));
    assert(logits_give(pm, base, h, h, w1, v.post_logits));
    assert(logits_give(pm, base, 2 * h, h * h, w2, v.comb_logits));
    assert(pm.shape[0] == 1);
    assert(split_steps(
        pm,
        scale,
        base,
        hc,
        iters,
        eps,
        v,
        piece(pre, 1, t),
        piece(post, 1, t),
        piece(comb, 1, t),
    ));
}

/// The mixing vector of a token.
proof fn lemma_mix(x: V, w: V, eps: u64, y: V, t: int)
    requires
        mix_gives(x, w, eps, y),
        x.wf(),
        x.shape.len() == 2,
        0 <= t < x.shape[0],
    ensures
        y.wf(),
        y.shape == shape2(x.shape[0], w.shape[0]),
        mix_gives(piece(x, 1, t), w, eps, piece(y, 1, t)),
{
    let u = choose|u: MixSteps| mix_steps(x, w, eps, u, y);
    lemma_columns(x, t);
    lemma_mapped(Unary::Sqr, x, u.squares, 1, t);
    lemma_reduced(Reduce::Mean, 1, u.squares, u.mean, 1, t);
    lemma_mapped(Unary::Affine(DOUBLE_ONE, eps), u.mean, u.shifted, 1, t);
    lemma_mapped(Unary::Powf(DOUBLE_MINUS_HALF), u.shifted, u.rms, 1, t);
    lemma_linear(x, w, u.raw, t);
    assert(u.rms.shape =~= shape2(x.shape[0], 1));
    assert(u.raw.shape.take(1) =~= u.rms.shape.take(1));
    assert(u.raw.shape.take(1) =~= x.shape.take(1));
    lemma_expands_axes(u.rms.shape, u.raw.shape);
    lemma_broadcast_into(u.rms.shape, u.raw.shape);
    lemma_combined(Binary::Mul, u.raw, u.rms, y, 1, t);
    let v = MixSteps {
        squares: piece(u.squares, 1, t),
        mean: piece(u.mean, 1, t),
        shifted: piece(u.shifted, 1, t),
        rms: piece(u.rms, 1, t),
        raw: piece(u.raw, 1, t),
    };
    assert(mix_steps(piece(x, 1, t), w, eps, v, piece(y, 1, t)));
}

/// The tokens of a four-axis tensor.
pub proof fn lemma_tokens4(s: Seq<usize>, b: usize, n: usize, c: usize, d: usize)
    requires
        s == shape4(b, n, c, d),
    ensures
        positions(s, 2) == b * n,
        s.skip(2) == shape2(c, d),
        product(s.skip(2)) == c * d,
        ones(2) + s.skip(2) == shape4(1, 1, c, d),
{
    assert(s.take(2) =~= shape2(b, n));
    assert(s.skip(2) =~= shape2(c, d));
    crate::shape::lemma_grid(b, n);
    crate::shape::lemma_grid(c, d);
    assert(ones(2) + s.skip(2) =~= shape4(1, 1, c, d));
}

/// The tokens of a three-axis tensor.
pub proof fn lemma_tokens3(s: Seq<usize>, b: usize, n: usize, c: usize)
    requires
        s == shape3(b, n, c),
    ensures
        positions(s, 2) == b * n,
        product(s.skip(2)) == c,
        ones(2) + s.skip(2) == shape3(1, 1, c),
{
    assert(s.take(2) =~= shape2(b, n));
    crate::shape::lemma_grid(b, n);
    let r = s.skip(2);
    assert(r.drop_last() =~= Seq::<usize>::empty());
    assert(r.last() == c);
    reveal_with_fuel(product, 2);
    assert(product(r) == 1 * (c as nat));
    assert(ones(2) + r =~= shape3(1, 1, c));
}

/// Collapsing acts on each token.
proof fn lemma_collapse(x: V, pre: V, y: V, t: int)
    requires
        collapse_gives(x, pre, y),
        x.wf(),
        pre.wf(),
        x.shape.len() == 4,
        pre.shape == shape2((x.shape[0] * x.shape[1]) as usize, x.shape[2]),
        x.shape[0] * x.shape[1] <= usize::MAX,
        fits(shape4(x.shape[0], x.shape[1], x.shape[2], 1)),
        0 <= t < x.shape[0] * x.shape[1],
    ensures
        y.wf(),
        y.shape == shape3(x.shape[0], x.shape[1], x.shape[3]),
        collapse_gives(piece(x, 2, t), piece(pre, 1, t), piece(y, 2, t)),
{
    let (b, s, hc, d) = (x.shape[0], x.shape[1], x.shape[2], x.shape[3]);
    assert(x.shape =~= shape4(b, s, hc, d));
    let (weighted, total) = choose|weighted: V, total: V|
        collapse_steps(x, pre, weighted, total, y);
    let lane = shape4(b, s, hc, 1);
    let gate = reshaped(pre, lane);
    lemma_tokens4(x.shape, b, s, hc, d);
    lemma_tokens4(lane, b, s, hc, 1);
    lemma_columns(pre, t);
    let bs = (b * s) as usize;
    crate::shape::lemma_grid(bs, hc);
    crate::shape::lemma_cube4(b, s, hc, 1);
    assert(b * s * hc * 1 == b * s * hc && bs * hc == b * s * hc) by (nonlinear_arith)
        requires
            bs == b * s,
    ;
    assert(gate.wf());
    assert(hc * 1 == hc);
    lemma_reshaped(pre, 1, lane, 2, t);
    assert(gate.shape.take(2) =~= x.shape.take(2));
    lemma_expands_axes(lane, x.shape);
    lemma_broadcast_into(lane, x.shape);
    lemma_combined(Binary::Mul, gate, x, weighted, 2, t);
    assert(weighted.shape == x.shape);
    lemma_reduced(Reduce::Sum, 2, weighted, total, 2, t);
    assert(total.shape =~= shape4(b, s, 1, d));
    lemma_tokens4(total.shape, b, s, 1, d);
    assert(y.shape =~= shape3(b, s, d));
    lemma_tokens3(y.shape, b, s, d);
    crate::tensor::lemma_unit_axis(shape3(b, s, d), 2);
    assert(shape3(b, s, d).insert(2, 1) =~= shape4(b, s, 1, d));
    assert(1 * d == d);
    let (pt, py) = (piece(total, 2, t), piece(y, 2, t));
    assert(pt.shape.remove(2) =~= py.shape);
    assert(py == squeezed(pt, 2));
    assert(collapse_steps(piece(x, 2, t), piece(pre, 1, t), piece(weighted, 2, t), pt, py));
}

/// Collapsing the residual streams mixes within a token and never across tokens: the collapsed
/// vector and the gates of a token are those that its streams alone give.
pub proof fn law_pre_is_per_token(h: Hc, x: V, y: V, post: V, comb: V, t: int)
    requires
        x.wf(),
        h.hc_base@.wf(),
        h.hc_base@.shape.len() == 1,
        pre_ok(h, x.shape),
        h.hc == x.shape[2],
        pre_gives(h, x, y, post, comb),
        0 <= t < x.shape[0] * x.shape[1],
    ensures
        pre_gives(h, piece(x, 2, t), piece(y, 2, t), piece(post, 2, t), piece(comb, 2, t)),
        y.wf(),
        post.wf(),
        comb.wf(),
        y.shape == shape3(x.shape[0], x.shape[1], x.shape[3]),
        post.shape == shape3(x.shape[0], x.shape[1], x.shape[2]),
        comb.shape == shape4(x.shape[0], x.shape[1], x.shape[2], x.shape[2]),
{
    let (b, s, hc, d) = (x.shape[0], x.shape[1], x.shape[2], x.shape[3]);
    let u = choose|u: PreSteps| pre_steps(h, x, u, y, post, comb);
    assert(x.shape =~= shape4(b, s, hc, d));
    lemma_flat_streams(x.shape);
    let bs = (b * s) as usize;
    let flat = flat_streams(x);
    let px = piece(x, 2, t);
    lemma_tokens4(x.shape, b, s, hc, d);
    lemma_columns(flat, t);
    lemma_reshaped(x, 2, flat.shape, 1, t);
    assert(ones(1) + flat.shape.skip(1) =~= shape2(1, (hc * d) as usize));
    assert(px.shape[0] == 1 && px.shape[1] == 1 && px.shape[2] == hc && px.shape[3] == d);
    assert(px.shape[0] * px.shape[1] == 1) by (nonlinear_arith)
        requires
            px.shape[0] == 1,
            px.shape[1] == 1,
    ;
    assert(flat_shape(px.shape) =~= shape2(1, (hc * d) as usize));
    assert(piece(flat, 1, t) == flat_streams(px));
    lemma_mix(flat, h.hc_fn@, h.norm_eps, u.mixes, t);
    lemma_split(
        u.mixes,
        h.hc_scale@,
        h.hc_base@,
        h.hc,
        h.sinkhorn_iters,
        h.eps,
        u.pre,
        u.post,
        u.comb,
        t,
    );
    lemma_collapse(x, u.pre, y, t);
    let (ps, cs) = (shape3(b, s, hc), shape4(b, s, hc, hc));
    lemma_tokens3(ps, b, s, hc);
    lemma_tokens4(cs, b, s, hc, hc);
    lemma_columns(u.post, t);
    lemma_reshaped(u.post, 1, ps, 2, t);
    assert(u.comb.shape.skip(1) =~= shape2(hc, hc));
    lemma_reshaped(u.comb, 1, cs, 2, t);
    let v = PreSteps {
        mixes: piece(u.mixes, 1, t),
        pre: piece(u.pre, 1, t),
        post: piece(u.post, 1, t),
        comb: piece(u.comb, 1, t),
    };
    assert(pre_steps(h, px, v, piece(y, 2, t), piece(post, 2, t), piece(comb, 2, t)));
}

/// Expanding a sublayer's output mixes within a token and never across tokens.
pub proof fn law_post_is_per_token(
    hc: usize,
    x: V,
    residual: V,
    post: V,
    comb: V,
    y: V,
    t: int,
)
    requires
        x.wf(),
        residual.wf(),
        post.wf(),
        comb.wf(),
        x.shape.len() == 3,
        residual.shape == shape4(x.shape[0], x.shape[1], hc, x.shape[2]),
        post.shape == shape3(x.shape[0], x.shape[1], hc),
        comb.shape == shape4(x.shape[0], x.shape[1], hc, hc),
        post_ok(hc, x.shape, residual.shape, post.shape, comb.shape),
        post_gives(hc, x, residual, post, comb, y),
        0 <= t < x.shape[0] * x.shape[1],
    ensures
        post_gives(
            hc,
            piece(x, 2, t),
            piece(residual, 2, t),
            piece(post, 2, t),
            piece(comb, 2, t),
            piece(y, 2, t),
        ),
        y.wf(),
        y.shape == residual.shape,
{
    let (b, s, d) = (x.shape[0], x.shape[1], x.shape[2]);
    assert(x.shape =~= shape3(b, s, d));
    let u = choose|u: PostSteps| post_steps(hc, x, residual, post, comb, u, y);
    let px = piece(x, 2, t);
    lemma_tokens3(x.shape, b, s, d);
    lemma_tokens4(residual.shape, b, s, hc, d);
    lemma_tokens3(post.shape, b, s, hc);
    lemma_tokens4(comb.shape, b, s, hc, hc);
    assert(px.shape == shape3(1, 1, d));
    // The direct part.
    let (gs, xs) = (shape4(b, s, hc, 1), shape4(b, s, 1, d));
    let (gate, lane) = (reshaped(post, gs), reshaped(x, xs));
    lemma_tokens4(gs, b, s, hc, 1);
    lemma_tokens4(xs, b, s, 1, d);
    assert(hc * 1 == hc && 1 * d == d);
    crate::tensor::lemma_unit_axis(shape3(b, s, d), 2);
    assert(shape3(b, s, d).insert(2, 1) =~= xs);
    assert(lane.wf());
    assert(gate.wf());
    lemma_reshaped(post, 2, gs, 2, t);
    lemma_reshaped(x, 2, xs, 2, t);
    assert(gs.take(2) =~= xs.take(2));
    lemma_combined(Binary::Mul, gate, lane, u.direct, 2, t);
    lemma_pair_shape(b, s, hc, d);
    assert(u.direct.shape == shape4(b, s, hc, d));
    // The mixed residual.
    let (cs, rs) = (shape5(b, s, hc, hc, 1), shape5(b, s, hc, 1, d));
    let (mixer, streams) = (reshaped(comb, cs), reshaped(residual, rs));
    lemma_tokens5(cs, b, s, hc, hc, 1);
    lemma_tokens5(rs, b, s, hc, 1, d);
    assert(hc * hc * 1 == hc * hc && hc * 1 * d == hc * d);
    assert(mixer.wf());
    assert(streams.wf());
    lemma_reshaped(comb, 2, cs, 2, t);
    lemma_reshaped(residual, 2, rs, 2, t);
    assert(cs.take(2) =~= rs.take(2));
    lemma_combined(Binary::Mul, mixer, streams, u.products, 2, t);
    lemma_square_shape(b, s, hc, d);
    let full = shape5(b, s, hc, hc, d);
    assert(u.products.shape == full);
    lemma_reduced(Reduce::Sum, 2, u.products, u.total, 2, t);
    let ts = shape5(b, s, 1, hc, d);
    assert(u.total.shape =~= ts);
    lemma_tokens5(full, b, s, hc, hc, d);
    lemma_tokens5(ts, b, s, 1, hc, d);
    assert(1 * hc * d == hc * d);
    let sum = squeezed(u.total, 2);
    assert(sum.shape =~= shape4(b, s, hc, d));
    crate::tensor::lemma_unit_axis(shape4(b, s, hc, d), 2);
    assert(shape4(b, s, hc, d).insert(2, 1) =~= ts);
    assert(sum.wf());
    let (pt, ps) = (piece(u.total, 2, t), piece(sum, 2, t));
    lemma_tokens4(sum.shape, b, s, hc, d);
    assert(pt.shape.remove(2) =~= ps.shape);
    assert(ps == squeezed(pt, 2));
    lemma_paired(Binary::Add, u.direct, sum, y, 2, t);
    let v = PostSteps {
        direct: piece(u.direct, 2, t),
        products: piece(u.products, 2, t),
        total: pt,
    };
    assert(post_steps(
        hc,
        px,
        piece(residual, 2, t),
        piece(post, 2, t),
        piece(comb, 2, t),
        v,
        piece(y, 2, t),
    ));
}

/// The tokens of a five-axis tensor.
proof fn lemma_tokens5(s: Seq<usize>, b: usize, n: usize, c: usize, d: usize, e: usize)
    requires
        s == shape5(b, n, c, d, e),
    ensures
        positions(s, 2) == b * n,
        product(s.skip(2)) == c * d * e,
        ones(2) + s.skip(2) == shape5(1, 1, c, d, e),
{
    assert(s.take(2) =~= shape2(b, n));
    assert(s.skip(2) =~= shape3(c, d, e));
    crate::shape::lemma_grid(b, n);
    crate::shape::lemma_cube(c, d, e);
    assert(ones(2) + s.skip(2) =~= shape5(1, 1, c, d, e));
}

/// A gate per stream and a vector per token give a vector per stream.
pub proof fn lemma_pair_shape(b: usize, s: usize, hc: usize, d: usize)
    ensures
        broadcast_shape(shape4(b, s, hc, 1), shape4(b, s, 1, d)) == Some(shape4(b, s, hc, d)),
{
    let (x, y) = (shape4(b, s, hc, 1), shape4(b, s, 1, d));
    let p = shape2(b, s);
    lemma_broadcast_prefix(p, shape2(hc, 1), shape2(1, d));
    assert(p + shape2(hc, 1) =~= x);
    assert(p + shape2(1, d) =~= y);
    lemma_cross(hc, d);
    assert(p + shape2(hc, d) =~= shape4(b, s, hc, d));
}

/// A column and a row span a matrix.
proof fn lemma_cross(c: usize, d: usize)
    ensures
        broadcast_shape(shape2(c, 1), shape2(1, d)) == Some(shape2(c, d)),
{
    let (x, y) = (shape2(c, 1), shape2(1, d));
    assert(x.drop_last() =~= seq![c]);
    assert(y.drop_last() =~= seq![1usize]);
    assert(x.drop_last().drop_last() =~= Seq::<usize>::empty());
    assert(y.drop_last().drop_last() =~= Seq::<usize>::empty());
    reveal_with_fuel(broadcast_shape, 4);
    assert(Seq::<usize>::empty().push(c) =~= seq![c]);
    assert(seq![c].push(d) =~= shape2(c, d));
    assert(seq![c].push(1usize) =~= shape2(c, 1));
}

/// A matrix and a vector per stream give a vector per pair of streams.
pub proof fn lemma_square_shape(b: usize, s: usize, hc: usize, d: usize)
    ensures
        broadcast_shape(shape5(b, s, hc, hc, 1), shape5(b, s, hc, 1, d)) == Some(
            shape5(b, s, hc, hc, d),
        ),
{
    let p = shape3(b, s, hc);
    lemma_broadcast_prefix(p, shape2(hc, 1), shape2(1, d));
    assert(p + shape2(hc, 1) =~= shape5(b, s, hc, hc, 1));
    assert(p + shape2(1, d) =~= shape5(b, s, hc, 1, d));
    lemma_cross(hc, d);
    assert(p + shape2(hc, d) =~= shape5(b, s, hc, hc, d));
}

// --- the head -------------------------------------------------------------------------------

/// A norm over the last axis acts on each piece.
pub proof fn lemma_rms_norm(x: V, gamma: Option<V>, eps: u64, y: V, m: int, t: int)
    requires
        rms_norm_gives(x, gamma, eps, y),
        x.wf(),
        gamma matches Some(g) ==> g.wf() && m + g.shape.len() <= x.shape.len(),
        0 <= m < x.shape.len(),
        0 <= t < positions(x.shape, m),
    ensures
        y.wf(),
        y.shape.take(m) == x.shape.take(m),
        rms_norm_gives(piece(x, m, t), gamma, eps, piece(y, m, t)),
{
    let axis = x.shape.len() - 1;
    let u = choose|u: RmsSteps| rms_norm_steps(x, gamma, eps, u, y);
    lemma_mapped(Unary::Sqr, x, u.squares, m, t);
    lemma_reduced(Reduce::Mean, axis, u.squares, u.mean, m, t);
    lemma_mapped(Unary::Affine(DOUBLE_ONE, eps), u.mean, u.shifted, m, t);
    lemma_mapped(Unary::Sqrt, u.shifted, u.root, m, t);
    lemma_broadcast_keepdim(x.shape, axis);
    lemma_combined(Binary::Div, x, u.root, u.normed, m, t);
    if let Some(g) = gamma {
        lemma_combined_gain(Binary::Mul, u.normed, g, y, m, t);
    }
    let v = RmsSteps {
        squares: piece(u.squares, m, t),
        mean: piece(u.mean, m, t),
        shifted: piece(u.shifted, m, t),
        root: piece(u.root, m, t),
        normed: piece(u.normed, m, t),
    };
    assert(piece(x, m, t).shape.len() == x.shape.len());
    assert(rms_norm_steps(piece(x, m, t), gamma, eps, v, piece(y, m, t)));
}

/// The last position of one sequence.
proof fn lemma_last_position(n: V, b: usize, s: usize, d: usize, r: int)
    requires
        n.wf(),
        n.shape == shape3(b, s, d),
        s > 0,
        fits(shape2(b, d)),
        0 <= r < b,
    ensures
        last_position(n).wf(),
        0 <= r * s + s - 1 < b * s,
        piece(last_position(n), 1, r) == last_position(piece(n, 2, r * s + s - 1)),
{
    let t = r * s + s - 1;
    let (bi, si, di) = (b as int, s as int, d as int);
    assert(0 <= t < b * s) by (nonlinear_arith)
        requires
            t == r * s + s - 1,
            0 <= r < b,
            s > 0,
    ;
    lemma_tokens3(n.shape, b, s, d);
    lemma_piece(n, 2, t);
    let last = last_position(n);
    assert(n.shape.take(1).drop_last() =~= Seq::<usize>::empty());
    assert(n.shape.take(1).last() == b);
    assert(n.shape.skip(2).drop_last() =~= Seq::<usize>::empty());
    assert(n.shape.skip(2).last() == d);
    reveal_with_fuel(product, 2);
    assert(outer(n.shape, 1) == 1 * (b as nat));
    assert(inner(n.shape, 1) == 1 * (d as nat));
    crate::shape::lemma_grid(b, d);
    assert(bi * 1 * di == bi * di) by (nonlinear_arith);
    assert(last.wf());
    lemma_columns(last, r);
    lemma_piece(last, 1, r);
    let pn = piece(n, 2, t);
    assert(pn.shape == shape3(1, 1, d));
    assert(pn.shape.take(1).drop_last() =~= Seq::<usize>::empty());
    assert(pn.shape.take(1).last() == 1);
    assert(pn.shape.skip(2) =~= n.shape.skip(2));
    assert(outer(pn.shape, 1) == 1);
    assert(1 * 1 * di == di);
    let z = last_position(pn);
    assert(piece(last, 1, r).shape =~= z.shape);
    assert forall|i: int| 0 <= i < d implies piece(last, 1, r).data[i] == #[trigger] z.data[i] by {
        let full = r * d + i;
        lemma_flat(r, i, bi, di);
        vstd::arithmetic::div_mod::lemma_basic_div(i, di);
        vstd::arithmetic::div_mod::lemma_small_mod(i as nat, d as nat);
        assert((full / di) / 1 == r && (full / di) % 1 == 0);
        assert(r * s + (s - 1) + 0 == t);
        assert(last.data[full] == n.data[t * d + i]);
        assert((i / di) / 1 == 0 && (i / di) % 1 == 0);
        assert((0 * 1 + 0 + 0) * di + i == i) by (nonlinear_arith);
        assert(z.data[i] == pn.data[i]);
        assert(pn.data[i] == n.data[t * d + i]);
    }
    assert(piece(last, 1, r).data =~= z.data);
}

/// The head reads nothing but the last token of each sequence: the logits of a sequence are those
/// that its last token alone gives.
pub proof fn law_head_reads_the_last_token(h: Head, x: V, y: V, z: Sizes, hc: usize, r: int)
    requires
        head_layout(h, z, hc),
        h.hc_base@.wf(),
        h.norm@.wf(),
        x.wf(),
        x.shape.len() == 4,
        x.shape[2] == hc,
        x.shape[3] == z.dim,
        x.shape[1] > 0,
        head_shape(h, x.shape) is Some,
        head_gives(h, x, y),
        0 <= r < x.shape[0],
    ensures
        head_gives(h, piece(x, 2, r * x.shape[1] + x.shape[1] - 1), piece(y, 1, r)),
{
    let (b, s, d) = (x.shape[0], x.shape[1], x.shape[3]);
    assert(x.shape =~= shape4(b, s, hc, d));
    let t = r * s + s - 1;
    let (collapsed, normed) = choose|collapsed: V, normed: V|
        head_steps(h, x, collapsed, normed, y);
    assert(0 <= t < b * s) by (nonlinear_arith)
        requires
            t == r * s + s - 1,
            0 <= r < b,
            s > 0,
    ;
    let u = choose|u: CollapseSteps| head_collapse_steps(h, x, u, collapsed);
    lemma_flat_streams(x.shape);
    let bs = (b * s) as usize;
    let flat = flat_streams(x);
    let px = piece(x, 2, t);
    lemma_tokens4(x.shape, b, s, hc, d);
    lemma_columns(flat, t);
    lemma_reshaped(x, 2, flat.shape, 1, t);
    assert(ones(1) + flat.shape.skip(1) =~= shape2(1, (hc * d) as usize));
    assert(px.shape == shape4(1, 1, hc, d));
    assert(px.shape[0] == 1 && px.shape[1] == 1 && px.shape[2] == hc && px.shape[3] == d);
    assert(px.shape[0] * px.shape[1] == 1) by (nonlinear_arith)
        requires
            px.shape[0] == 1,
            px.shape[1] == 1,
    ;
    assert(flat_shape(px.shape) =~= shape2(1, (hc * d) as usize));
    assert(piece(flat, 1, t) == flat_streams(px));
    lemma_mix(flat, h.hc_fn@, h.eps, u.mixes, t);
    lemma_columns(u.mixes, t);
    lemma_mapped(Unary::Affine(u.scale, DOUBLE_ZERO), u.mixes, u.scaled, 1, t);
    lemma_gain(u.scaled.shape, h.hc_base@.shape);
    lemma_combined_gain(Binary::Add, u.scaled, h.hc_base@, u.logits, 1, t);
    lemma_sigmoid(u.logits, u.gate, 1, t);
    lemma_mapped(Unary::Affine(DOUBLE_ONE, h.hc_eps), u.gate, u.pre, 1, t);
    lemma_collapse(x, u.pre, collapsed, t);
    let v = CollapseSteps {
        mixes: piece(u.mixes, 1, t),
        scale: u.scale,
        scaled: piece(u.scaled, 1, t),
        logits: piece(u.logits, 1, t),
        gate: piece(u.gate, 1, t),
        pre: piece(u.pre, 1, t),
    };
    let pc = piece(collapsed, 2, t);
    assert(head_collapse_steps(h, px, v, pc));
    lemma_tokens3(collapsed.shape, b, s, d);
    lemma_rms_norm(collapsed, Some(h.norm@), h.eps, normed, 2, t);
    let pn = piece(normed, 2, t);
    lemma_norm_shape(collapsed, h.norm@, h.eps, normed);
    lemma_last_fits(b, s, d);
    lemma_last_position(normed, b, s, d, r);
    lemma_linear(last_position(normed), h.weight@, y, r);
    assert(head_steps(h, px, pc, pn, piece(y, 1, r)));
}

/// A norm with a gain of the width keeps the shape.
pub proof fn lemma_norm_shape(x: V, g: V, eps: u64, y: V)
    requires
        rms_norm_gives(x, Some(g), eps, y),
        x.wf(),
        x.shape.len() > 0,
        vector(g.shape, x.shape.last()),
    ensures
        y.shape == x.shape,
{
    let u = choose|u: RmsSteps| rms_norm_steps(x, Some(g), eps, u, y);
    lemma_broadcast_keepdim(x.shape, x.shape.len() - 1);
    lemma_gain(x.shape, g.shape);
}

/// One position per sequence fits where all do.
proof fn lemma_last_fits(b: usize, s: usize, d: usize)
    ensures
        fits(shape3(b, s, d)) ==> fits(shape2(b, d)),
{
    let x = shape3(b, s, d);
    lemma_span_update(x, 1, 1);
    let y = x.update(1, 1);
    assert(y =~= shape2(b, d).insert(1, 1));
    crate::tensor::lemma_unit_axis(shape2(b, d), 1);
}

// --- experts --------------------------------------------------------------------------------

/// An optional column of weights, at one position.
pub open spec fn piece_of(w: Option<V>, t: int) -> Option<V> {
    match w {
        Some(v) => Some(piece(v, 1, t)),
        None => None,
    }
}

/// An expert acts on each row.
proof fn lemma_expert(
    ex: Expert,
    x: V,
    weights: Option<V>,
    y: V,
    n: usize,
    dim: usize,
    inter: usize,
    t: int,
)
    requires
        expert_layout(ex, dim, inter),
        expert_gives(ex, x, weights, y),
        x.wf(),
        x.shape == shape2(n, dim),
        weights matches Some(w) ==> w.wf() && w.shape == shape2(n, 1),
        0 <= t < n,
    ensures
        y.wf(),
        y.shape == shape2(n, dim),
        expert_gives(ex, piece(x, 1, t), piece_of(weights, t), piece(y, 1, t)),
{
    let l = ex.swiglu_limit;
    let u = choose|u: ExpertSteps| expert_steps(ex, x, weights, u, y);
    lemma_linear(x, ex.w1@, u.gate, t);
    lemma_linear(x, ex.w3@, u.up, t);
    lemma_columns(u.gate, t);
    if double_less(DOUBLE_ZERO, l) {
        lemma_mapped(Unary::Clamp(double_negated(l), l), u.up, u.up_held, 1, t);
        lemma_mapped(Unary::Minimum(l), u.gate, u.gate_held, 1, t);
    }
    lemma_mapped(Unary::Silu, u.gate_held, u.lit, 1, t);
    lemma_paired(Binary::Mul, u.lit, u.up_held, u.hidden, 1, t);
    if let Some(w) = weights {
        let h = shape2(n, inter);
        assert(u.hidden.shape == h);
        lemma_expands_axes(w.shape, h);
        lemma_broadcast_into(w.shape, h);
        assert(w.shape.take(1) =~= h.take(1));
        lemma_combined(Binary::Mul, u.hidden, w, u.scaled, 1, t);
    }
    lemma_linear(u.scaled, ex.w2@, y, t);
    let v = ExpertSteps {
        gate: piece(u.gate, 1, t),
        up: piece(u.up, 1, t),
        gate_held: piece(u.gate_held, 1, t),
        up_held: piece(u.up_held, 1, t),
        lit: piece(u.lit, 1, t),
        hidden: piece(u.hidden, 1, t),
        scaled: piece(u.scaled, 1, t),
    };
    assert(expert_steps(ex, piece(x, 1, t), piece_of(weights, t), v, piece(y, 1, t)));
}

/// The scores of a row.
proof fn lemma_scores(func: ScoreFunc, raw: V, scores: V, t: int)
    requires
        score_gives(func, raw, scores),
        raw.wf(),
        raw.shape.len() == 2,
        0 <= t < raw.shape[0],
    ensures
        scores.wf(),
        scores.shape == raw.shape,
        score_gives(func, piece(raw, 1, t), piece(scores, 1, t)),
{
    lemma_columns(raw, t);
    match func {
        ScoreFunc::SqrtSoftplus => {
            let u = choose|u: SoftplusSteps| sqrtsoftplus_steps(raw, u, scores);
            lemma_mapped(Unary::Abs, raw, u.size, 1, t);
            lemma_mapped(Unary::Neg, u.size, u.negative, 1, t);
            lemma_mapped(Unary::Exp, u.negative, u.power, 1, t);
            lemma_mapped(Unary::Affine(DOUBLE_ONE, DOUBLE_ONE), u.power, u.shifted, 1, t);
            lemma_mapped(Unary::Log, u.shifted, u.log, 1, t);
            lemma_mapped(Unary::Relu, raw, u.positive, 1, t);
            crate::shape::lemma_broadcast_self(raw.shape);
            lemma_combined(Binary::Add, u.positive, u.log, u.total, 1, t);
            lemma_mapped(Unary::Sqrt, u.total, scores, 1, t);
            let v = SoftplusSteps {
                size: piece(u.size, 1, t),
                negative: piece(u.negative, 1, t),
                power: piece(u.power, 1, t),
                shifted: piece(u.shifted, 1, t),
                log: piece(u.log, 1, t),
                positive: piece(u.positive, 1, t),
                total: piece(u.total, 1, t),
            };
            assert(sqrtsoftplus_steps(piece(raw, 1, t), v, piece(scores, 1, t)));
        },
        ScoreFunc::Softmax => {
            lemma_softmax(1, raw, scores, 1, t);
        },
        ScoreFunc::Sigmoid => {
            lemma_sigmoid(raw, scores, 1, t);
        },
    }
}

/// Routing acts on each token.
pub proof fn lemma_route(
    g: Gate,
    x: V,
    weights: V,
    indices: IndexView,
    n: usize,
    dim: usize,
    count: usize,
    t: int,
)
    requires
        gate_layout(g, dim, count),
        g.bias matches Some(b) ==> b@.wf(),
        route_gives(g, x, weights, indices),
        x.wf(),
        x.shape == shape2(n, dim),
        0 <= t < n,
    ensures
        weights.wf(),
        indices.wf(),
        weights.shape == shape2(n, g.kept()),
        indices.shape == shape2(n, g.kept()),
        route_gives(g, piece(x, 1, t), piece(weights, 1, t), piece(indices, 1, t)),
{
    let u = choose|u: RouteSteps| route_steps(g, x, u, weights, indices);
    let (e, k) = (count as int, g.kept() as int);
    lemma_linear(x, g.weight@, u.raw, t);
    lemma_scores(g.score_func, u.raw, u.scores, t);
    lemma_columns(u.scores, t);
    if let Some(b) = g.bias {
        lemma_gain(u.scores.shape, b@.shape);
        lemma_combined_gain(Binary::Add, u.scores, b@, u.biased, 1, t);
    }
    assert(u.biased.wf() && u.biased.shape == shape2(n, count));
    lemma_columns(u.biased, t);
    lemma_span_update(shape2(n, count), 1, g.kept());
    assert(shape2(n, count).update(1, g.kept()) =~= shape2(n, g.kept()));
    crate::shape::lemma_grid(n, g.kept());
    crate::shape::lemma_grid(n, count);
    assert(u.picked.wf());
    assert(indices.wf());
    lemma_columns(u.picked, t);
    lemma_columns(indices, t);
    lemma_piece(u.scores, 1, t);
    lemma_piece(u.biased, 1, t);
    lemma_piece(u.picked, 1, t);
    lemma_piece(indices, 1, t);
    if g.score_func == ScoreFunc::Softmax {
        lemma_mapped(Unary::Affine(g.route_scale, DOUBLE_ZERO), u.picked, weights, 1, t);
    } else {
        lemma_reduced(Reduce::Sum, 1, u.picked, u.total, 1, t);
        lemma_broadcast_keepdim(u.picked.shape, 1);
        lemma_combined(Binary::Div, u.picked, u.total, u.shared, 1, t);
        lemma_mapped(Unary::Affine(g.route_scale, DOUBLE_ZERO), u.shared, weights, 1, t);
    }
    let v = RouteSteps {
        raw: piece(u.raw, 1, t),
        scores: piece(u.scores, 1, t),
        biased: piece(u.biased, 1, t),
        picked: piece(u.picked, 1, t),
        total: piece(u.total, 1, t),
        shared: piece(u.shared, 1, t),
    };
    let (px, pw, pi) = (piece(x, 1, t), piece(weights, 1, t), piece(indices, 1, t));
    lemma_columns(x, t);
    assert(px.shape[0] == 1);
    assert forall|r: int| 0 <= r < 1 implies #[trigger] token_routed(
        v.scores.data,
        v.biased.data,
        e,
        k,
        v.picked.data,
        pi.data,
        r,
    ) by {
        assert(token_routed(u.scores.data, u.biased.data, e, k, u.picked.data, indices.data, t));
        let best = choose|best: Seq<usize>|
            #[trigger] top_k_of(u.biased.data.subrange(t * e, t * e + e), k, best) && slots_hold(
                u.scores.data,
                e,
                k,
                u.picked.data,
                indices.data,
                t,
                best,
            );
        assert(0 * e == 0 && 0 * k == 0);
        assert(v.biased.data.subrange(0, e) =~= u.biased.data.subrange(t * e, t * e + e));
        assert forall|j: int|
            #![trigger pi.data[0 * k + j]]
            #![trigger v.picked.data[0 * k + j]]
            0 <= j < k implies pi.data[0 * k + j] == best[j] as i64 && v.picked.data[0 * k + j]
            == v.scores.data[0 * e + best[j]] by {
            assert(indices.data[t * k + j] == best[j] as i64);
            assert(pi.data[j] == indices.data[t * k + j]);
            assert(v.picked.data[j] == u.picked.data[t * k + j]);
            assert(v.scores.data[best[j] as int] == u.scores.data[t * e + best[j]]);
        }
        assert(slots_hold(v.scores.data, e, k, v.picked.data, pi.data, 0, best));
        assert(r == 0);
        assert(top_k_of(v.biased.data.subrange(0 * e, 0 * e + e), k, best));
        assert(token_routed(v.scores.data, v.biased.data, e, k, v.picked.data, pi.data, 0));
    }
    assert(v.biased.data.len() >= 1 * e);
    assert(route_steps(g, px, v, pw, pi));
}

/// A token names an expert in at most one of its slots, and no more than its slots are routed to it.
proof fn lemma_token_slots(
    g: Gate,
    x: V,
    weights: V,
    indices: IndexView,
    n: usize,
    e: int,
    t: int,
)
    requires
        route_gives(g, x, weights, indices),
        g.experts() <= i64::MAX,
        g.topk == g.kept(),
        x.shape[0] == n,
        indices.wf(),
        indices.shape == shape2(n, g.topk),
        0 <= t < n,
    ensures
        ({
            let k = g.topk as int;
            let slots = hits(indices.data, e, indices.data.len() as int);
            let own = hits(piece(indices, 1, t).data, e, piece(indices, 1, t).data.len() as int);
            &&& indices.data.len() == n * k
            &&& piece(indices, 1, t).data.len() == k
            &&& own.len() <= 1
            &&& own.len() == 1 ==> 0 <= own[0] < k && slots.contains(t * k + own[0])
            &&& own.len() == 0 ==> !tokens_of(slots, k).contains(t as usize)
            &&& forall|q: int|
                0 <= q < slots.len() ==> 0 <= (#[trigger] slots[q]) / k < n && tokens_of(slots, k)[q]
                    == slots[q] / k
        }),
{
    let k = g.topk as int;
    let len = indices.data.len() as int;
    lemma_columns(indices, t);
    lemma_piece(indices, 1, t);
    crate::shape::lemma_grid(n, g.topk);
    let pi = piece(indices, 1, t).data;
    let slots = hits(indices.data, e, len);
    let own = hits(pi, e, k);
    lemma_hits(indices.data, e, len);
    lemma_hits(pi, e, k);
    let u = choose|u: RouteSteps| route_steps(g, x, u, weights, indices);
    if own.len() >= 2 {
        let (a, b) = (own[0], own[1]);
        assert(a < b);
        assert(pi[a] == indices.data[t * k + a] && pi[b] == indices.data[t * k + b]);
        law_routing(g, x, u, weights, indices, t, a, b);
    }
    if own.len() == 1 {
        let j = own[0];
        assert(pi[j] == indices.data[t * k + j]);
        lemma_flat(t, j, n as int, k);
        law_slots_are_dispatched_once(indices.data, e, len, t * k + j);
    }
    assert forall|q: int| 0 <= q < slots.len() implies 0 <= (#[trigger] slots[q]) / k < n && tokens_of(
        slots,
        k,
    )[q] == slots[q] / k by {
        lemma_divide(slots[q], n as int, k);
    }
    if own.len() == 0 && tokens_of(slots, k).contains(t as usize) {
        let rows = tokens_of(slots, k);
        let q = choose|q: int| 0 <= q < rows.len() && rows[q] == t as usize;
        let p = slots[q];
        lemma_divide(p, n as int, k);
        let j = p % k;
        assert(p == t * k + j);
        assert(pi[j] == indices.data[t * k + j]);
        law_slots_are_dispatched_once(pi, e, k, j);
        assert(own.contains(j));
    }
}

/// What an expert adds to a token is what it adds to that token alone.
proof fn lemma_adds(
    ex: Expert,
    g: Gate,
    x: V,
    weights: V,
    indices: IndexView,
    e: int,
    before: V,
    after: V,
    n: usize,
    dim: usize,
    inter: usize,
    t: int,
)
    requires
        expert_layout(ex, dim, inter),
        route_gives(g, x, weights, indices),
        g.experts() <= i64::MAX,
        g.topk == g.kept(),
        expert_adds(ex, x, weights, indices, g.topk as int, e, before, after),
        x.wf(),
        before.wf(),
        weights.wf(),
        indices.wf(),
        x.shape == shape2(n, dim),
        before.shape == shape2(n, dim),
        weights.shape == shape2(n, g.topk),
        indices.shape == shape2(n, g.topk),
        0 <= t < n,
    ensures
        after.wf(),
        after.shape == shape2(n, dim),
        expert_adds(
            ex,
            piece(x, 1, t),
            piece(weights, 1, t),
            piece(indices, 1, t),
            g.topk as int,
            e,
            piece(before, 1, t),
            piece(after, 1, t),
        ),
{
    let k = g.topk as int;
    let d = dim as int;
    let slots = hits(indices.data, e, indices.data.len() as int);
    let rows = tokens_of(slots, k);
    let (px, pw, pi) = (piece(x, 1, t), piece(weights, 1, t), piece(indices, 1, t));
    let own = hits(pi.data, e, pi.data.len() as int);
    lemma_token_slots(g, x, weights, indices, n, e, t);
    lemma_hits(indices.data, e, indices.data.len() as int);
    lemma_columns(x, t);
    lemma_columns(before, t);
    lemma_columns(weights, t);
    lemma_piece(x, 1, t);
    lemma_piece(before, 1, t);
    lemma_piece(weights, 1, t);
    assert(after.wf() && after.shape == before.shape);
    lemma_columns(after, t);
    lemma_piece(after, 1, t);
    let (pb, pa) = (piece(before, 1, t), piece(after, 1, t));
    crate::shape::lemma_grid(n, dim);
    if own.len() == 0 {
        if slots.len() > 0 {
            let yv = choose|yv: V|
                #[trigger] expert_gives(
                    ex,
                    rows_picked(x, rows),
                    Some(column_of(slots, weights.data)),
                    yv,
                ) && rows_added(before, rows, yv, after);
            assert forall|i: int| 0 <= i < d implies pa.data[i] == #[trigger] pb.data[i] by {
                lemma_flat(t, i, n as int, d);
                assert(after.data[t * d + i] == before.data[t * d + i]);
            }
        }
        assert(pa.data =~= pb.data);
        assert(pa == pb);
    } else {
        let j0 = own[0];
        let p0 = t * k + j0;
        let q = choose|q: int| 0 <= q < slots.len() && slots[q] == p0;
        lemma_flat(t, j0, n as int, k);
        assert(rows[q] == t);
        let r = slots.len() as usize;
        crate::shape::lemma_grid(n, g.topk);
        assert(slots.len() == r);
        let picked = rows_picked(x, rows);
        let col = column_of(slots, weights.data);
        let yv = choose|yv: V|
            #[trigger] expert_gives(ex, picked, Some(col), yv) && rows_added(
                before,
                rows,
                yv,
                after,
            );
        assert forall|p: int| 0 <= p < rows.len() implies (#[trigger] rows[p]) < n by {
            assert(0 <= slots[p] / k < n);
        }
        assert forall|a: int, b: int| 0 <= a < b < rows.len() implies rows[a] != rows[b] by {
            lemma_tokens_distinct(g, x, weights, indices, e, a, b);
        }
        lemma_pigeons(rows, n);
        lemma_span_update(shape2(n, dim), 0, r);
        assert(shape2(n, dim).update(0, r) =~= shape2(r, dim));
        crate::shape::lemma_grid(r, dim);
        crate::shape::lemma_grid(r, 1);
        assert(x.shape.skip(1) =~= seq![dim]);
        assert(inner(x.shape, 0) == dim);
        assert(picked.wf());
        assert(col.wf());
        lemma_expert(ex, picked, Some(col), yv, r, dim, inter, q);
        lemma_columns(picked, q);
        lemma_piece(picked, 1, q);
        lemma_columns(col, q);
        lemma_piece(col, 1, q);
        lemma_columns(yv, q);
        lemma_piece(yv, 1, q);
        let py = piece(yv, 1, q);
        assert forall|i: int| 0 <= i < d implies piece(picked, 1, q).data[i] == #[trigger] px.data[i] by {
            lemma_flat(q, i, r as int, d);
            assert(picked.data[q * d + i] == x.data[rows[q] * d + i]);
        }
        assert(piece(picked, 1, q).data =~= px.data);
        assert(piece(picked, 1, q) == px);
        let own_rows = tokens_of(own, k);
        assert(own =~= seq![j0]);
        assert(j0 / k == 0) by {
            vstd::arithmetic::div_mod::lemma_basic_div(j0, k);
        }
        assert(own_rows =~= seq![0usize]);
        let one = rows_picked(px, own_rows);
        assert(px.shape.skip(1) =~= x.shape.skip(1));
        assert(inner(px.shape, 0) == dim);
        assert(one.shape =~= px.shape);
        assert(1 * d == d);
        assert forall|i: int| 0 <= i < d implies one.data[i] == #[trigger] px.data[i] by {
            vstd::arithmetic::div_mod::lemma_basic_div(i, d);
            vstd::arithmetic::div_mod::lemma_small_mod(i as nat, dim as nat);
            assert(0 * d == 0);
        }
        assert(one.data =~= px.data);
        assert(one == px);
        let own_col = column_of(own, pw.data);
        assert(piece(col, 1, q).shape =~= own_col.shape);
        assert(piece(col, 1, q).data =~= own_col.data) by {
            assert(q * 1 == q);
            assert(piece(col, 1, q).data[0] == col.data[q * 1 + 0]);
            assert(pw.data[j0] == weights.data[t * k + j0]);
        }
        assert(piece(col, 1, q) == own_col);
        assert(expert_gives(ex, one, Some(own_col), py));
        crate::shape::lemma_grid(1, dim);
        crate::shape::lemma_grid(1, inter);
        law_expert_layout(ex, 1, dim, inter, Some(shape2(1, 1)));
        assert(rows_added(pb, own_rows, py, pa)) by {
            assert forall|i: int| 0 <= i < pb.data.len() && !own_rows.contains((i / d) as usize)
                implies #[trigger] pa.data[i] == pb.data[i] by {
                vstd::arithmetic::div_mod::lemma_basic_div(i, d);
                assert(own_rows[0] == (i / d) as usize);
            }
            assert forall|a: int, j: int| 0 <= a < own_rows.len() && 0 <= j < d implies crate::bits::agrees(
                pa.data[own_rows[a] * d + j],
                #[trigger] fadd(
                    pb.data[own_rows[a] * d + j],
                    py.data[a * d + j],
                ),
            ) by {
                assert(a == 0);
                assert(own_rows[a] * d == 0 && a * d == 0) by (nonlinear_arith)
                    requires
                        own_rows[a] == 0,
                        a == 0,
                ;
                assert(crate::bits::agrees(
                    after.data[rows[q] * d + j],
                    fadd(before.data[rows[q] * d + j], yv.data[q * d + j]),
                ));
            }
        }
    }
}

/// The partial sums keep their shape.
proof fn lemma_sums(m: Moe, x: V, u: MoeSteps, n: usize, dim: usize, inter: usize, wide: usize, e: int)
    requires
        moe_layout(m, dim, inter, wide),
        m.gate.bias matches Some(b) ==> b@.wf(),
        moe_routed(m, x, u),
        x.wf(),
        x.shape == shape2(n, dim),
        n > 0,
        0 <= e <= m.experts@.len(),
        m.experts@.len() <= usize::MAX,
    ensures
        u.sums[e].wf(),
        u.sums[e].shape == shape2(n, dim),
    decreases e,
{
    crate::shape::lemma_grid(n, dim);
    if e > 0 {
        lemma_sums(m, x, u, n, dim, inter, wide, e - 1);
        let count = m.experts@.len() as usize;
        lemma_route(m.gate, x, u.weights, u.indices, n, dim, count, 0);
        assert(expert_adds(
            m.experts@[e - 1],
            x,
            u.weights,
            u.indices,
            m.gate.topk as int,
            e - 1,
            u.sums[e - 1],
            u.sums[e - 1 + 1],
        ));
        lemma_adds(
            m.experts@[e - 1],
            m.gate,
            x,
            u.weights,
            u.indices,
            e - 1,
            u.sums[e - 1],
            u.sums[e - 1 + 1],
            n,
            dim,
            inter,
            0,
        );
    }
}

/// The routing of a mixture and what its experts add, one after the other.
spec fn moe_routed(m: Moe, x: V, u: MoeSteps) -> bool {
    let count = m.experts@.len();
    &&& route_gives(m.gate, x, u.weights, u.indices)
    &&& u.sums.len() == count + 1
    &&& u.sums[0] == zero_rows(x.shape[0], x.shape[1])
    &&& forall|e: int|
        0 <= e < count ==> #[trigger] expert_adds(
            m.experts@[e],
            x,
            u.weights,
            u.indices,
            m.gate.topk as int,
            e,
            u.sums[e],
            u.sums[e + 1],
        )
}

/// A mixture acts on each token: what it gives for a token is what it gives for that token alone.
pub proof fn law_moe_is_per_token(
    m: Moe,
    x: V,
    y: V,
    n: usize,
    dim: usize,
    inter: usize,
    wide: usize,
    t: int,
)
    requires
        moe_layout(m, dim, inter, wide),
        m.experts@.len() <= usize::MAX,
        m.gate.bias matches Some(b) ==> b@.wf(),
        x.wf(),
        x.shape == shape2(n, dim),
        moe_gives(m, x, y),
        0 <= t < n,
    ensures
        moe_gives(m, piece(x, 1, t), piece(y, 1, t)),
        y.wf(),
        y.shape == x.shape,
{
    let u = choose|u: MoeSteps| moe_steps(m, x, u, y);
    let count = m.experts@.len() as usize;
    let (px, py) = (piece(x, 1, t), piece(y, 1, t));
    assert(moe_routed(m, x, u));
    lemma_route(m.gate, x, u.weights, u.indices, n, dim, count, t);
    lemma_columns(x, t);
    let cut = Seq::new(u.sums.len(), |i: int| piece(u.sums[i], 1, t));
    let zeros = u.sums[0];
    lemma_sums(m, x, u, n, dim, inter, wide, 0);
    lemma_columns(zeros, t);
    lemma_piece(zeros, 1, t);
    assert(1 * dim == dim);
    assert(cut[0].shape =~= zero_rows(1, dim).shape);
    assert(cut[0].data =~= zero_rows(1, dim).data);
    assert(cut[0] == zero_rows(px.shape[0], px.shape[1]));
    let (pw, pi) = (piece(u.weights, 1, t), piece(u.indices, 1, t));
    assert forall|e: int| 0 <= e < count implies #[trigger] expert_adds(
        m.experts@[e],
        px,
        pw,
        pi,
        m.gate.topk as int,
        e,
        cut[e],
        cut[e + 1],
    ) by {
        lemma_sums(m, x, u, n, dim, inter, wide, e);
        assert(expert_adds(
            m.experts@[e],
            x,
            u.weights,
            u.indices,
            m.gate.topk as int,
            e,
            u.sums[e],
            u.sums[e + 1],
        ));
        lemma_adds(
            m.experts@[e],
            m.gate,
            x,
            u.weights,
            u.indices,
            e,
            u.sums[e],
            u.sums[e + 1],
            n,
            dim,
            inter,
            t,
        );
    }
    lemma_expert(m.shared, x, None, u.shared, n, dim, wide, t);
    lemma_sums(m, x, u, n, dim, inter, wide, count as int);
    lemma_combined(Binary::Add, u.sums[count as int], u.shared, y, 1, t);
    let v = MoeSteps { weights: pw, indices: pi, sums: cut, shared: piece(u.shared, 1, t) };
    assert(moe_steps(m, px, v, py));
}

/// The weight of one token for one expert.
pub open spec fn one_weight(w: u32) -> V {
    NdView { shape: shape2(1, 1), data: seq![w] }
}

/// `c` is the elementwise sum of `a` and `b`.
pub open spec fn summed(a: V, b: V, c: V) -> bool {
    &&& c.shape == a.shape
    &&& b.data.len() == a.data.len()
    &&& c.data.len() == a.data.len()
    &&& forall|i: int|
        0 <= i < a.data.len() ==> agrees(#[trigger] c.data[i], fadd(a.data[i], b.data[i]))
}

/// The token `x` gains what expert `ex` gives for it alone, with the weight of slot `j`.
pub open spec fn slot_adds(ex: Expert, x: V, w: V, j: int, before: V, after: V) -> bool {
    exists|y: V|
        #[trigger] expert_gives(ex, x, Some(one_weight(w.data[j])), y) && summed(before, y, after)
}

/// Expert `e` has its turn with a single token: it adds to the token if one of the token's slots names
/// it, and leaves it alone otherwise.
pub open spec fn turn_of(
    ex: Expert,
    x: V,
    w: V,
    indices: IndexView,
    e: int,
    before: V,
    after: V,
) -> bool {
    if indices.data.contains(e as i64) {
        exists|j: int|
            0 <= j < indices.data.len() && indices.data[j] == e && #[trigger] slot_adds(
                ex,
                x,
                w,
                j,
                before,
                after,
            )
    } else {
        after == before
    }
}

/// What a mixture gives one token: starting from zero, each expert that the token is routed to adds
/// what it gives for the token alone with its weight, in the order of the experts, and last the shared
/// expert adds what it gives.
pub open spec fn token_sum(m: Moe, x: V, u: MoeSteps, y: V) -> bool {
    let count = m.experts@.len();
    &&& route_gives(m.gate, x, u.weights, u.indices)
    &&& u.sums.len() == count + 1
    &&& u.sums[0] == zero_rows(x.shape[0], x.shape[1])
    &&& forall|e: int|
        0 <= e < count ==> #[trigger] turn_of(
            m.experts@[e],
            x,
            u.weights,
            u.indices,
            e,
            u.sums[e],
            u.sums[e + 1],
        )
    &&& expert_gives(m.shared, x, None, u.shared)
    &&& combined(Binary::Add, u.sums[count as int], u.shared, y)
}

/// With a single token an expert adds what it gives for that token.
proof fn lemma_turn(
    ex: Expert,
    g: Gate,
    x: V,
    weights: V,
    indices: IndexView,
    e: int,
    before: V,
    after: V,
    dim: usize,
    inter: usize,
)
    requires
        expert_layout(ex, dim, inter),
        route_gives(g, x, weights, indices),
        g.experts() <= i64::MAX,
        g.topk == g.kept(),
        expert_adds(ex, x, weights, indices, g.topk as int, e, before, after),
        x.wf(),
        before.wf(),
        weights.wf(),
        indices.wf(),
        x.shape == shape2(1, dim),
        before.shape == shape2(1, dim),
        weights.shape == shape2(1, g.topk),
        indices.shape == shape2(1, g.topk),
        0 <= e <= i64::MAX,
    ensures
        turn_of(ex, x, weights, indices, e, before, after),
{
    let k = g.topk as int;
    let d = dim as int;
    let slots = hits(indices.data, e, indices.data.len() as int);
    let rows = tokens_of(slots, k);
    crate::shape::lemma_grid(1, dim);
    crate::shape::lemma_grid(1, g.topk);
    assert(1 * d == d && 1 * k == k);
    lemma_columns(indices, 0);
    lemma_piece(indices, 1, 0);
    assert(piece(indices, 1, 0).data =~= indices.data) by {
        assert(0 * k == 0);
    }
    lemma_token_slots(g, x, weights, indices, 1, e, 0);
    lemma_hits(indices.data, e, indices.data.len() as int);
    if indices.data.contains(e as i64) {
        let i = choose|i: int| 0 <= i < indices.data.len() && indices.data[i] == e as i64;
        law_slots_are_dispatched_once(indices.data, e, indices.data.len() as int, i);
        assert(slots.contains(i));
        assert(slots.len() == 1);
        let j = slots[0];
        assert(0 * k + j == j);
        let yv = choose|yv: V|
            #[trigger] expert_gives(
                ex,
                rows_picked(x, rows),
                Some(column_of(slots, weights.data)),
                yv,
            ) && rows_added(before, rows, yv, after);
        assert(j / k == 0) by {
            vstd::arithmetic::div_mod::lemma_basic_div(j, k);
        }
        assert(rows =~= seq![0usize]);
        let one = rows_picked(x, rows);
        assert(x.shape.skip(1).drop_last() =~= Seq::<usize>::empty());
        assert(x.shape.skip(1).last() == dim);
        reveal_with_fuel(product, 2);
        assert(inner(x.shape, 0) == 1 * (dim as nat));
        assert(one.shape =~= x.shape);
        assert forall|z: int| 0 <= z < d implies one.data[z] == #[trigger] x.data[z] by {
            vstd::arithmetic::div_mod::lemma_basic_div(z, d);
            vstd::arithmetic::div_mod::lemma_small_mod(z as nat, dim as nat);
            assert(0 * d == 0);
        }
        assert(one.data =~= x.data);
        assert(one == x);
        assert(column_of(slots, weights.data).data =~= one_weight(weights.data[j]).data);
        assert(column_of(slots, weights.data) == one_weight(weights.data[j]));
        crate::shape::lemma_grid(1, 1);
        assert(one_weight(weights.data[j]).wf());
        lemma_expert(ex, x, Some(one_weight(weights.data[j])), yv, 1, dim, inter, 0);
        assert(summed(before, yv, after)) by {
            assert forall|z: int| 0 <= z < before.data.len() implies agrees(
                #[trigger] after.data[z],
                fadd(before.data[z], yv.data[z]),
            ) by {
                assert(rows[0] * d == 0 && 0 * d == 0);
                assert(agrees(
                    after.data[rows[0] * d + z],
                    fadd(before.data[rows[0] * d + z], yv.data[0 * d + z]),
                ));
            }
        }
        assert(slot_adds(ex, x, weights, j, before, after));
    } else {
        if slots.len() > 0 {
            assert(indices.data[slots[0]] == e);
        }
    }
}

/// What a mixture gives a token is the sum of what the experts that the token is routed to give for
/// that token alone, each with its weight, and of what the shared expert gives for it: no other token
/// and no other expert has a part in it.
pub proof fn law_moe_sums_its_experts(
    m: Moe,
    x: V,
    y: V,
    n: usize,
    dim: usize,
    inter: usize,
    wide: usize,
    t: int,
)
    requires
        moe_layout(m, dim, inter, wide),
        m.experts@.len() <= usize::MAX,
        m.gate.bias matches Some(b) ==> b@.wf(),
        x.wf(),
        x.shape == shape2(n, dim),
        moe_gives(m, x, y),
        0 <= t < n,
    ensures
        exists|u: MoeSteps| token_sum(m, piece(x, 1, t), u, piece(y, 1, t)),
{
    law_moe_is_per_token(m, x, y, n, dim, inter, wide, t);
    lemma_columns(x, t);
    lemma_piece(x, 1, t);
    let (px, py) = (piece(x, 1, t), piece(y, 1, t));
    let u = choose|u: MoeSteps| moe_steps(m, px, u, py);
    let count = m.experts@.len() as usize;
    lemma_route(m.gate, px, u.weights, u.indices, 1, dim, count, 0);
    assert(moe_routed(m, px, u));
    assert forall|e: int| 0 <= e < count implies #[trigger] turn_of(
        m.experts@[e],
        px,
        u.weights,
        u.indices,
        e,
        u.sums[e],
        u.sums[e + 1],
    ) by {
        lemma_sums(m, px, u, 1, dim, inter, wide, e);
        assert(expert_adds(
            m.experts@[e],
            px,
            u.weights,
            u.indices,
            m.gate.topk as int,
            e,
            u.sums[e],
            u.sums[e + 1],
        ));
        lemma_turn(
            m.experts@[e],
            m.gate,
            px,
            u.weights,
            u.indices,
            e,
            u.sums[e],
            u.sums[e + 1],
            dim,
            inter,
        );
    }
    assert(token_sum(m, px, u, py));
}

} // verus!
