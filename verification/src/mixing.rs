//! What hyper-connections hold, element by element.

use vstd::prelude::*;

#[allow(unused_imports)]
use crate::bits::{agrees, widens, DOUBLE_MINUS_HALF, DOUBLE_ONE, DOUBLE_TWO, DOUBLE_ZERO};
#[allow(unused_imports)]
use crate::elements::{
    evened, lane, law_sigmoid_is_logistic, law_softmax_gives_shares, lemma_keepdim_at,
    lemma_linear_at, lemma_narrow_columns, lemma_narrow_vector, lemma_reduced_at, lemma_source_step,
    lemma_with_vector, logistic, products_of, shares, weighted_sum,
};
#[allow(unused_imports)]
use crate::kernel::{affine_gives, dot_gives, fdiv, fmul, mean_gives, powf_gives, single, sum_gives};
#[allow(unused_imports)]
use crate::mhc::{
    collapse_gives, collapse_steps, flat_streams, logits_give, logits_steps, mix_gives, mix_steps,
    normalized, normalized_steps, post_gives, post_steps, pre_gives, pre_steps, sinkhorn_round,
    sinkhorn_rounds, split_gives, split_steps, Hc, MixSteps, PostSteps, PreSteps, SplitSteps,
};
#[allow(unused_imports)]
use crate::ops::{added, Binary, Reduce};
#[allow(unused_imports)]
use crate::shape::{
    fits, inner, lemma_cube, lemma_cube4, lemma_flat, lemma_flat3, lemma_grid, outer, product,
    shape2, shape3, shape4, shape5, source_index,
};
#[allow(unused_imports)]
use crate::tensor::{narrowed, reshaped, NdView, V};

verus! {

/// Each part of a split follows its own scale: the first gates the first one, the second gates the
/// second, the matrix the third. In a run with other scales, a part may come out as before where its
/// own scale is the same, whatever the two others are.
pub proof fn law_parts_follow_their_scales(
    mixes: V,
    base: V,
    hc: usize,
    iters: usize,
    eps: u64,
    scale: V,
    pre: V,
    post: V,
    comb: V,
    scale2: V,
    pre2: V,
    post2: V,
    comb2: V,
)
    requires
        split_gives(mixes, scale, base, hc, iters, eps, pre, post, comb),
        split_gives(mixes, scale2, base, hc, iters, eps, pre2, post2, comb2),
    ensures
        scale.data[0] == scale2.data[0] ==> split_gives(
            mixes,
            scale2,
            base,
            hc,
            iters,
            eps,
            pre,
            post2,
            comb2,
        ),
        scale.data[1] == scale2.data[1] ==> split_gives(
            mixes,
            scale2,
            base,
            hc,
            iters,
            eps,
            pre2,
            post,
            comb2,
        ),
        scale.data[2] == scale2.data[2] ==> split_gives(
            mixes,
            scale2,
            base,
            hc,
            iters,
            eps,
            pre2,
            post2,
            comb,
        ),
{
    let t = choose|t: SplitSteps| split_steps(mixes, scale, base, hc, iters, eps, t, pre, post, comb);
    let t2 = choose|t: SplitSteps|
        split_steps(mixes, scale2, base, hc, iters, eps, t, pre2, post2, comb2);
    let h = hc as int;
    let v2 = choose|w: u64|
        widens(scale2.data[0], w) && #[trigger] logits_give(mixes, base, 0, h, w, t2.pre_logits);
    let w2 = choose|w: u64|
        widens(scale2.data[1], w) && #[trigger] logits_give(mixes, base, h, h, w, t2.post_logits);
    let z2 = choose|w: u64|
        widens(scale2.data[2], w) && #[trigger] logits_give(
            mixes,
            base,
            2 * h,
            h * h,
            w,
            t2.comb_logits,
        );
    if scale.data[0] == scale2.data[0] {
        let v = choose|w: u64|
            widens(scale.data[0], w) && #[trigger] logits_give(mixes, base, 0, h, w, t.pre_logits);
        let u = SplitSteps { pre_logits: t.pre_logits, pre_gate: t.pre_gate, ..t2 };
        assert(logits_give(mixes, base, 0, h, v, u.pre_logits));
        assert(logits_give(mixes, base, h, h, w2, u.post_logits));
        assert(logits_give(mixes, base, 2 * h, h * h, z2, u.comb_logits));
        assert(split_steps(mixes, scale2, base, hc, iters, eps, u, pre, post2, comb2));
    }
    if scale.data[1] == scale2.data[1] {
        let w = choose|w: u64|
            widens(scale.data[1], w) && #[trigger] logits_give(mixes, base, h, h, w, t.post_logits);
        let u = SplitSteps { post_logits: t.post_logits, post_gate: t.post_gate, ..t2 };
        assert(logits_give(mixes, base, 0, h, v2, u.pre_logits));
        assert(logits_give(mixes, base, h, h, w, u.post_logits));
        assert(logits_give(mixes, base, 2 * h, h * h, z2, u.comb_logits));
        assert(split_steps(mixes, scale2, base, hc, iters, eps, u, pre2, post, comb2));
    }
    if scale.data[2] == scale2.data[2] {
        let z = choose|w: u64|
            widens(scale.data[2], w) && #[trigger] logits_give(
                mixes,
                base,
                2 * h,
                h * h,
                w,
                t.comb_logits,
            );
        let u = SplitSteps {
            comb_logits: t.comb_logits,
            soft: t.soft,
            lifted: t.lifted,
            rounds: t.rounds,
            ..t2
        };
        assert(logits_give(mixes, base, 0, h, v2, u.pre_logits));
        assert(logits_give(mixes, base, h, h, w2, u.post_logits));
        assert(logits_give(mixes, base, 2 * h, h * h, z, u.comb_logits));
        assert(split_steps(mixes, scale2, base, hc, iters, eps, u, pre2, post2, comb));
    }
}

/// `l = mix · scale + base`, with the scale widened.
pub open spec fn logit_of(mix: u32, scale: u32, base: u32, l: u32) -> bool {
    exists|w: u64, p: u32|
        #[trigger] widens(scale, w) && #[trigger] affine_gives(mix, w, DOUBLE_ZERO, p) && agrees(
            l,
            added(p, base),
        )
}

/// The shapes of a split: `mixes` `[n, m]` and a base of at least `(2 + hc) · hc` columns.
pub open spec fn split_room(mixes: V, base: V, hc: usize) -> bool {
    &&& mixes.wf()
    &&& base.wf()
    &&& mixes.shape.len() == 2
    &&& base.shape.len() == 1
    &&& 2 * hc + hc * hc <= mixes.shape[1]
    &&& 2 * hc + hc * hc <= base.shape[0]
}

/// Column `c` of a range of logits is column `start + c` of the mixes, scaled, plus element
/// `start + c` of the base.
proof fn lemma_logits_at(mixes: V, base: V, start: int, len: int, w: u64, y: V, t: int, c: int)
    requires
        logits_give(mixes, base, start, len, w, y),
        mixes.wf(),
        base.wf(),
        mixes.shape.len() == 2,
        base.shape.len() == 1,
        0 <= start,
        start + len <= mixes.shape[1],
        start + len <= base.shape[0],
        0 <= t < mixes.shape[0],
        0 <= c < len,
    ensures
        y.shape == shape2(mixes.shape[0], len as usize),
        y.data.len() == mixes.shape[0] * len,
        0 <= t * len + c < y.data.len(),
        exists|p: u32|
            #[trigger] affine_gives(
                mixes.data[t * mixes.shape[1] + start + c],
                w,
                DOUBLE_ZERO,
                p,
            ) && agrees(y.data[t * len + c], added(p, base.data[start + c])),
{
    let scaled = choose|scaled: V| logits_steps(mixes, base, start, len, w, scaled, y);
    lemma_narrow_columns(mixes, start, len, t, c);
    lemma_narrow_vector(base, start, len, c);
    crate::shape::lemma_span_update(mixes.shape, 1, len as usize);
    lemma_grid(mixes.shape[0], len as usize);
    assert(narrowed(mixes, 1, start, len).shape =~= mixes.shape.update(1, len as usize));
    assert(scaled.wf());
    lemma_with_vector(Binary::Add, scaled, narrowed(base, 0, start, len), y, t, c);
    let p = scaled.data[t * len + c];
    assert(affine_gives(mixes.data[t * mixes.shape[1] + start + c], w, DOUBLE_ZERO, p));
}

/// The gates of token `t` and stream `k`. The first is the logistic function of column `k`, scaled by
/// the first scale, plus `eps`. The second is twice that of column `hc + k`, scaled by the second.
pub proof fn law_gates_of_a_stream(
    mixes: V,
    scale: V,
    base: V,
    hc: usize,
    iters: usize,
    eps: u64,
    pre: V,
    post: V,
    comb: V,
    t: int,
    k: int,
)
    requires
        split_gives(mixes, scale, base, hc, iters, eps, pre, post, comb),
        split_room(mixes, base, hc),
        0 <= t < mixes.shape[0],
        0 <= k < hc,
    ensures
        0 <= t * hc + k < pre.data.len(),
        pre.data.len() == mixes.shape[0] * hc,
        post.data.len() == mixes.shape[0] * hc,
        exists|l: u32, g: u32|
            #[trigger] logit_of(
                mixes.data[t * mixes.shape[1] + k],
                scale.data[0],
                base.data[k],
                l,
            ) && #[trigger] logistic(l, g) && affine_gives(g, DOUBLE_ONE, eps, pre.data[t * hc + k]),
        exists|l: u32, g: u32|
            #[trigger] logit_of(
                mixes.data[t * mixes.shape[1] + hc + k],
                scale.data[1],
                base.data[hc + k],
                l,
            ) && #[trigger] logistic(l, g) && affine_gives(
                g,
                DOUBLE_TWO,
                DOUBLE_ZERO,
                post.data[t * hc + k],
            ),
{
    let u = choose|u: SplitSteps| split_steps(mixes, scale, base, hc, iters, eps, u, pre, post, comb);
    let h = hc as int;
    assert(h * h >= 0) by (nonlinear_arith);
    let w0 = choose|w: u64|
        widens(scale.data[0], w) && #[trigger] logits_give(mixes, base, 0, h, w, u.pre_logits);
    let w1 = choose|w: u64|
        widens(scale.data[1], w) && #[trigger] logits_give(mixes, base, h, h, w, u.post_logits);
    lemma_logits_at(mixes, base, 0, h, w0, u.pre_logits, t, k);
    lemma_logits_at(mixes, base, h, h, w1, u.post_logits, t, k);
    let i = t * h + k;
    law_sigmoid_is_logistic(u.pre_logits, u.pre_gate, i);
    law_sigmoid_is_logistic(u.post_logits, u.post_gate, i);
    let (l0, g0, l1, g1) = (
        u.pre_logits.data[i],
        u.pre_gate.data[i],
        u.post_logits.data[i],
        u.post_gate.data[i],
    );
    let (a, b) = (pre.data[i], post.data[i]);
    assert(logit_of(mixes.data[t * mixes.shape[1] + k], scale.data[0], base.data[k], l0));
    assert(logit_of(mixes.data[t * mixes.shape[1] + hc + k], scale.data[1], base.data[hc + k], l1));
    assert(logistic(l0, g0) && logistic(l1, g1));
}

/// Dividing by the sums along an axis evens the elements along it.
pub proof fn law_normalized_is_evened(x: V, axis: int, eps: u64, y: V, o: int, t: int)
    requires
        normalized(x, axis, eps, y),
        x.wf(),
        0 <= axis < x.shape.len(),
        0 <= o < outer(x.shape, axis),
        0 <= t < inner(x.shape, axis),
    ensures
        y.shape == x.shape,
        y.data.len() == x.data.len(),
        evened(
            lane(x.data, x.shape[axis] as int, inner(x.shape, axis) as int, o, t),
            eps,
            lane(y.data, x.shape[axis] as int, inner(x.shape, axis) as int, o, t),
        ),
{
    let (total, below) = choose|total: V, below: V| normalized_steps(x, axis, eps, total, below, y);
    let (n, step) = (x.shape[axis] as int, inner(x.shape, axis) as int);
    crate::shape::lemma_broadcast_keepdim(x.shape, axis);
    lemma_reduced_at(Reduce::Sum, axis, x, total, o, t);
    let (row, out) = (lane(x.data, n, step, o, t), lane(y.data, n, step, o, t));
    let (a, b) = (total.data[o * step + t], below.data[o * step + t]);
    assert forall|k: int| 0 <= k < row.len() implies agrees(#[trigger] out[k], fdiv(row[k], b)) by {
        lemma_keepdim_at(Binary::Div, x, below, y, axis, o, k, t);
    }
    assert(sum_gives(row, a));
    assert(affine_gives(a, DOUBLE_ONE, eps, b));
}

/// The rows of `n` matrices of `hc` rows and columns are evened.
pub open spec fn rows_evened(x: Seq<u32>, n: int, hc: int, eps: u64, y: Seq<u32>) -> bool {
    forall|t: int, j: int|
        #![trigger lane(y, hc, 1, t * hc + j, 0)]
        0 <= t < n && 0 <= j < hc ==> evened(
            lane(x, hc, 1, t * hc + j, 0),
            eps,
            lane(y, hc, 1, t * hc + j, 0),
        )
}

/// The columns of `n` matrices of `hc` rows and columns are evened.
pub open spec fn columns_evened(x: Seq<u32>, n: int, hc: int, eps: u64, y: Seq<u32>) -> bool {
    forall|t: int, k: int|
        0 <= t < n && 0 <= k < hc ==> evened(
            lane(x, hc, hc, t, k),
            eps,
            #[trigger] lane(y, hc, hc, t, k),
        )
}

/// The rows are evened, and then the columns.
pub open spec fn swept(x: Seq<u32>, n: int, hc: int, eps: u64, y: Seq<u32>) -> bool {
    exists|rows: Seq<u32>|
        rows.len() == x.len() && y.len() == x.len() && #[trigger] rows_evened(x, n, hc, eps, rows)
            && columns_evened(rows, n, hc, eps, y)
}

/// What comes before the sweeps: the logits, the shares of each row, and these plus `eps`.
pub struct Mixing {
    pub logits: Seq<u32>,
    pub soft: Seq<u32>,
    pub lifted: Seq<u32>,
    pub rounds: Seq<Seq<u32>>,
}

/// The matrices of `n` tokens. Row `j` and column `k` start from column `2 hc + j hc + k` of the mixes,
/// scaled by the third scale. Each row becomes its shares plus `eps`; the columns are evened; then rows
/// and columns are swept `iters - 1` times.
pub open spec fn mixing_of(
    mixes: V,
    scale: V,
    base: V,
    hc: int,
    iters: int,
    eps: u64,
    u: Mixing,
    comb: Seq<u32>,
) -> bool {
    let (n, m) = (mixes.shape[0] as int, mixes.shape[1] as int);
    &&& u.logits.len() == n * hc * hc
    &&& u.soft.len() == n * hc * hc
    &&& u.lifted.len() == n * hc * hc
    &&& forall|t: int, j: int, k: int|
        0 <= t < n && 0 <= j < hc && 0 <= k < hc ==> logit_of(
            mixes.data[t * m + 2 * hc + j * hc + k],
            scale.data[2],
            base.data[2 * hc + j * hc + k],
            #[trigger] u.logits[(t * hc + j) * hc + k],
        )
    &&& forall|t: int, j: int|
        #![trigger lane(u.soft, hc, 1, t * hc + j, 0)]
        0 <= t < n && 0 <= j < hc ==> shares(
            lane(u.logits, hc, 1, t * hc + j, 0),
            lane(u.soft, hc, 1, t * hc + j, 0),
        )
    &&& forall|i: int|
        0 <= i < n * hc * hc ==> affine_gives(u.soft[i], DOUBLE_ONE, eps, #[trigger] u.lifted[i])
    &&& u.rounds.len() == (if iters <= 1 {
        1
    } else {
        iters
    })
    &&& columns_evened(u.lifted, n, hc, eps, u.rounds[0])
    &&& forall|r: int|
        0 <= r < u.rounds.len() - 1 ==> #[trigger] swept(u.rounds[r], n, hc, eps, u.rounds[r + 1])
    &&& comb == u.rounds.last()
}

proof fn lemma_square_axes(n: usize, hc: usize)
    ensures
        outer(shape3(n, hc, hc), 2) == n * hc,
        inner(shape3(n, hc, hc), 2) == 1,
        outer(shape3(n, hc, hc), 1) == n,
        inner(shape3(n, hc, hc), 1) == hc,
        product(shape3(n, hc, hc)) == n * hc * hc,
{
    let s = shape3(n, hc, hc);
    lemma_cube(n, hc, hc);
    lemma_grid(n, hc);
    assert(s.take(2) =~= shape2(n, hc));
    assert(s.skip(3) =~= Seq::<usize>::empty());
    assert(s.take(1).drop_last() =~= Seq::<usize>::empty());
    assert(s.skip(2).drop_last() =~= Seq::<usize>::empty());
    reveal_with_fuel(product, 2);
    assert(1 * (n as nat) == n && 1 * (hc as nat) == hc);
}

/// A normalisation of the rows, or of the columns, of every matrix.
proof fn lemma_square_evened(x: V, eps: u64, y: V, n: usize, hc: usize)
    requires
        x.wf(),
        x.shape == shape3(n, hc, hc),
    ensures
        normalized(x, 2, eps, y) ==> y.data.len() == x.data.len() && y.shape == x.shape && rows_evened(
            x.data,
            n as int,
            hc as int,
            eps,
            y.data,
        ),
        normalized(x, 1, eps, y) ==> y.data.len() == x.data.len() && y.shape == x.shape
            && columns_evened(x.data, n as int, hc as int, eps, y.data),
{
    lemma_square_axes(n, hc);
    let h = hc as int;
    if normalized(x, 2, eps, y) {
        let (total, below) = choose|total: V, below: V| normalized_steps(x, 2, eps, total, below, y);
        crate::shape::lemma_broadcast_keepdim(x.shape, 2);
        assert forall|t: int, j: int|
            #![trigger lane(y.data, h, 1, t * h + j, 0)]
            0 <= t < n && 0 <= j < h implies evened(
            lane(x.data, h, 1, t * h + j, 0),
            eps,
            lane(y.data, h, 1, t * h + j, 0),
        ) by {
            lemma_flat(t, j, n as int, h);
            law_normalized_is_evened(x, 2, eps, y, t * h + j, 0);
        }
    }
    if normalized(x, 1, eps, y) {
        let (total, below) = choose|total: V, below: V| normalized_steps(x, 1, eps, total, below, y);
        crate::shape::lemma_broadcast_keepdim(x.shape, 1);
        assert forall|t: int, k: int| 0 <= t < n && 0 <= k < h implies evened(
            lane(x.data, h, h, t, k),
            eps,
            #[trigger] lane(y.data, h, h, t, k),
        ) by {
            law_normalized_is_evened(x, 1, eps, y, t, k);
        }
    }
}

/// The matrix after a number of rounds keeps its shape.
proof fn lemma_round_shape(rounds: Seq<V>, eps: u64, n: usize, hc: usize, i: int)
    requires
        sinkhorn_rounds(rounds, eps),
        rounds.len() > 0,
        rounds[0].wf(),
        rounds[0].shape == shape3(n, hc, hc),
        0 <= i < rounds.len(),
    ensures
        rounds[i].wf(),
        rounds[i].shape == shape3(n, hc, hc),
        i + 1 < rounds.len() ==> swept(rounds[i].data, n as int, hc as int, eps, rounds[i + 1].data),
    decreases i,
{
    if i > 0 {
        lemma_round_shape(rounds, eps, n, hc, i - 1);
        lemma_one_round(rounds[i - 1], eps, rounds[i], n, hc);
    }
    if i + 1 < rounds.len() {
        lemma_one_round(rounds[i], eps, rounds[i + 1], n, hc);
    }
}

proof fn lemma_one_round(x: V, eps: u64, y: V, n: usize, hc: usize)
    requires
        sinkhorn_round(x, eps, y),
        x.wf(),
        x.shape == shape3(n, hc, hc),
    ensures
        y.wf(),
        y.shape == x.shape,
        swept(x.data, n as int, hc as int, eps, y.data),
{
    let rows = choose|rows: V| #[trigger] normalized(x, 2, eps, rows) && normalized(rows, 1, eps, y);
    lemma_square_evened(x, eps, rows, n, hc);
    lemma_square_evened(rows, eps, y, n, hc);
    assert(rows_evened(x.data, n as int, hc as int, eps, rows.data));
}

/// The matrix of a split is the mixing that its own columns and its own scale give.
pub proof fn law_matrix_of_a_split(
    mixes: V,
    scale: V,
    base: V,
    hc: usize,
    iters: usize,
    eps: u64,
    pre: V,
    post: V,
    comb: V,
)
    requires
        split_gives(mixes, scale, base, hc, iters, eps, pre, post, comb),
        split_room(mixes, base, hc),
        fits(shape3(mixes.shape[0], hc, hc)),
        mixes.shape[0] > 0,
        hc > 0,
    ensures
        exists|u: Mixing|
            #[trigger] mixing_of(
                mixes,
                scale,
                base,
                hc as int,
                iters as int,
                eps,
                u,
                comb.data,
            ),
{
    let v = choose|v: SplitSteps| split_steps(mixes, scale, base, hc, iters, eps, v, pre, post, comb);
    let (h, n, m) = (hc as int, mixes.shape[0] as int, mixes.shape[1] as int);
    let hh = h * h;
    assert(hh > 0) by (nonlinear_arith)
        requires
            h > 0,
            hh == h * h,
    ;
    let w = choose|w: u64|
        widens(scale.data[2], w) && #[trigger] logits_give(mixes, base, 2 * h, hh, w, v.comb_logits);
    lemma_square_axes(mixes.shape[0], hc);
    lemma_logits_at(mixes, base, 2 * h, hh, w, v.comb_logits, 0, 0);
    let grid = reshaped(v.comb_logits, shape3(mixes.shape[0], hc, hc));
    assert(n * h * h == n * hh) by (nonlinear_arith)
        requires
            hh == h * h,
    ;
    assert(grid.wf());
    assert forall|t: int, j: int, k: int| 0 <= t < n && 0 <= j < h && 0 <= k < h implies logit_of(
        mixes.data[t * m + 2 * h + j * h + k],
        scale.data[2],
        base.data[2 * h + j * h + k],
        #[trigger] v.comb_logits.data[(t * h + j) * h + k],
    ) by {
        lemma_flat(j, k, h, h);
        lemma_logits_at(mixes, base, 2 * h, hh, w, v.comb_logits, t, j * h + k);
        assert((t * h + j) * h + k == t * hh + (j * h + k)) by (nonlinear_arith)
            requires
                hh == h * h,
        ;
        assert(t * m + 2 * h + (j * h + k) == t * m + 2 * h + j * h + k);
        assert(2 * h + (j * h + k) == 2 * h + j * h + k);
    }
    lemma_flat(0, 0, n, h);
    law_softmax_gives_shares(2, grid, v.soft, 0, 0);
    assert forall|t: int, j: int|
        #![trigger lane(v.soft.data, h, 1, t * h + j, 0)]
        0 <= t < n && 0 <= j < h implies shares(
        lane(v.comb_logits.data, h, 1, t * h + j, 0),
        lane(v.soft.data, h, 1, t * h + j, 0),
    ) by {
        lemma_flat(t, j, n, h);
        law_softmax_gives_shares(2, grid, v.soft, t * h + j, 0);
    }
    lemma_square_evened(v.lifted, eps, v.rounds[0], mixes.shape[0], hc);
    let u = Mixing {
        logits: v.comb_logits.data,
        soft: v.soft.data,
        lifted: v.lifted.data,
        rounds: Seq::new(v.rounds.len(), |i: int| v.rounds[i].data),
    };
    assert forall|r: int| 0 <= r < u.rounds.len() - 1 implies #[trigger] swept(
        u.rounds[r],
        n,
        h,
        eps,
        u.rounds[r + 1],
    ) by {
        lemma_round_shape(v.rounds, eps, mixes.shape[0], hc, r);
    }
    assert(mixing_of(mixes, scale, base, h, iters as int, eps, u, comb.data));
}

// --- the mixer ------------------------------------------------------------------------------

/// Where the elements of stream `k` and column `c` of token `t` come from, in tensors that lack one of
/// the last two axes.
proof fn lemma_token_sources(b: usize, s: usize, hc: usize, d: usize, t: int, k: int, c: int)
    requires
        0 <= t < b * s,
        0 <= k < hc,
        0 <= c < d,
    ensures
        source_index(shape4(b, s, hc, 1), shape4(b, s, hc, d), (t * hc + k) * d + c) == t * hc + k,
        source_index(shape4(b, s, 1, d), shape4(b, s, hc, d), (t * hc + k) * d + c) == t * d + c,
        source_index(shape4(b, s, hc, d), shape4(b, s, hc, d), (t * hc + k) * d + c) == (t * hc + k) * d
            + c,
        0 <= (t * hc + k) * d + c < b * s * hc * d,
        product(shape4(b, s, hc, d)) == b * s * hc * d,
{
    let full = shape4(b, s, hc, d);
    lemma_flat3(t, k, c, b * s, hc as int, d as int);
    lemma_cube4(b, s, hc, d);
    lemma_cube(b, s, hc);
    lemma_grid(b, s);
    lemma_flat(t, k, b * s, hc as int);
    assert(full.drop_last() =~= shape3(b, s, hc));
    assert(shape4(b, s, hc, 1).drop_last() =~= shape3(b, s, hc));
    assert(shape4(b, s, 1, d).drop_last() =~= shape3(b, s, 1));
    assert(shape3(b, s, hc).drop_last() =~= shape2(b, s));
    assert(shape3(b, s, 1).drop_last() =~= shape2(b, s));
    lemma_source_step(shape4(b, s, hc, 1), full, t * hc + k, c);
    crate::tokens::lemma_source_self(shape3(b, s, hc), t * hc + k);
    lemma_source_step(shape4(b, s, 1, d), full, t * hc + k, c);
    lemma_source_step(shape3(b, s, 1), shape3(b, s, hc), t, k);
    crate::tokens::lemma_source_self(shape2(b, s), t);
    crate::tokens::lemma_source_self(full, (t * hc + k) * d + c);
    assert((t * hc + k) * 1 + 0 == t * hc + k);
    assert(t * 1 + 0 == t);
}

/// The same for the products of a matrix and the residual streams.
proof fn lemma_matrix_sources(b: usize, s: usize, hc: usize, d: usize, t: int, j: int, k: int, c: int)
    requires
        0 <= t < b * s,
        0 <= j < hc,
        0 <= k < hc,
        0 <= c < d,
    ensures
        ({
            let i = ((t * hc + j) * hc + k) * d + c;
            &&& source_index(shape5(b, s, hc, hc, 1), shape5(b, s, hc, hc, d), i) == (t * hc + j) * hc + k
            &&& source_index(shape5(b, s, hc, 1, d), shape5(b, s, hc, hc, d), i) == (t * hc + j) * d + c
            &&& 0 <= i < product(shape5(b, s, hc, hc, d))
            &&& product(shape5(b, s, hc, hc, d)) == b * s * hc * hc * d
        }),
{
    let full = shape5(b, s, hc, hc, d);
    let (o, h) = (t * hc + j, hc as int);
    lemma_cube4(b, s, hc, hc);
    lemma_cube(b, s, hc);
    assert(full.drop_last() =~= shape4(b, s, hc, hc));
    assert(product(full) == b * s * hc * hc * d);
    lemma_flat(t, j, b * s, h);
    lemma_flat3(o, k, c, b * s * hc, h, d as int);
    assert(shape5(b, s, hc, hc, 1).drop_last() =~= shape4(b, s, hc, hc));
    assert(shape5(b, s, hc, 1, d).drop_last() =~= shape4(b, s, hc, 1));
    assert(shape4(b, s, hc, hc).drop_last() =~= shape3(b, s, hc));
    assert(shape4(b, s, hc, 1).drop_last() =~= shape3(b, s, hc));
    lemma_source_step(shape5(b, s, hc, hc, 1), full, o * hc + k, c);
    lemma_flat(o, k, b * s * hc, h);
    crate::tokens::lemma_source_self(shape4(b, s, hc, hc), o * hc + k);
    lemma_source_step(shape5(b, s, hc, 1, d), full, o * hc + k, c);
    lemma_source_step(shape4(b, s, hc, 1), shape4(b, s, hc, hc), o, k);
    crate::tokens::lemma_source_self(shape3(b, s, hc), o);
    assert((o * hc + k) * 1 + 0 == o * hc + k);
    assert(o * 1 + 0 == o);
}

/// Stream `k` of token `t` after a sublayer, column by column: the sublayer's output times the second
/// gate of the stream, plus the sum over the residual streams `j`, each times the matrix's element in
/// row `j` and column `k`.
pub proof fn law_streams_after_a_sublayer(
    hc: usize,
    x: V,
    residual: V,
    post: V,
    comb: V,
    y: V,
    t: int,
    k: int,
    c: int,
)
    requires
        post_gives(hc, x, residual, post, comb, y),
        x.shape.len() == 3,
        0 <= t < x.shape[0] * x.shape[1],
        0 <= k < hc,
        0 <= c < x.shape[2],
    ensures
        ({
            let d = x.shape[2] as int;
            exists|own: u32, total: u32|
                {
                    &&& agrees(own, fmul(post.data[t * hc + k], x.data[t * d + c]))
                    &&& weighted_sum(
                        lane(comb.data, hc as int, hc as int, t, k),
                        lane(residual.data, hc as int, d, t, c),
                        total,
                    )
                    &&& agrees(y.data[(t * hc + k) * d + c], #[trigger] added(own, total))
                }
        }),
{
    let (b, s, d) = (x.shape[0], x.shape[1], x.shape[2]);
    let u = choose|u: PostSteps| post_steps(hc, x, residual, post, comb, u, y);
    crate::shape::lemma_expands_axes(shape4(b, s, hc, 1), shape4(b, s, hc, d));
    lemma_token_sources(b, s, hc, d, t, k, c);
    assert(crate::shape::broadcast_shape(shape4(b, s, hc, 1), shape4(b, s, 1, d)) == Some(
        shape4(b, s, hc, d),
    )) by {
        crate::tokens::lemma_pair_shape(b, s, hc, d);
    }
    assert(crate::shape::broadcast_shape(shape5(b, s, hc, hc, 1), shape5(b, s, hc, 1, d)) == Some(
        shape5(b, s, hc, hc, d),
    )) by {
        crate::tokens::lemma_square_shape(b, s, hc, d);
    }
    let i = (t * hc + k) * d + c;
    let own = u.direct.data[i];
    let full = shape5(b, s, hc, hc, d);
    assert(u.products.shape == full);
    assert(full.take(2) =~= shape2(b, s));
    assert(full.skip(3) =~= shape2(hc, d));
    lemma_grid(b, s);
    lemma_grid(hc, d);
    let step = hc * d;
    assert(inner(full, 2) == step && outer(full, 2) == b * s);
    lemma_flat(k, c, hc as int, d as int);
    lemma_reduced_at(Reduce::Sum, 2, u.products, u.total, t, k * d + c);
    assert(t * step + (k * d + c) == i) by (nonlinear_arith)
        requires
            step == hc * d,
            i == (t * hc + k) * d + c,
    ;
    let parts = lane(u.products.data, hc as int, step, t, k * d + c);
    let (column, streams) = (
        lane(comb.data, hc as int, hc as int, t, k),
        lane(residual.data, hc as int, d as int, t, c),
    );
    assert forall|j: int| 0 <= j < hc implies agrees(
        #[trigger] parts[j],
        fmul(column[j], streams[j]),
    ) by {
        lemma_matrix_sources(b, s, hc, d, t, j, k, c);
        let e = ((t * hc + j) * hc + k) * d + c;
        let o = t * hc + j;
        assert(o * step + (k * d + c) == (o * hc + k) * d + c) by (nonlinear_arith)
            requires
                step == hc * d,
        ;
        let v = u.products.data[e];
    }
    let total = u.total.data[i];
    assert(products_of(column, streams, parts));
    let v = y.data[i];
    assert(agrees(y.data[i], added(own, total)));
}

/// The mixing vector of a token: its flattened streams times the rows of the weight, divided by their
/// root mean square.
pub proof fn law_mixing_vector(x: V, w: V, eps: u64, y: V, t: int, o: int)
    requires
        mix_gives(x, w, eps, y),
        x.wf(),
        x.shape.len() == 2,
        w.shape.len() == 2,
        0 < x.shape[1],
        0 <= t < x.shape[0],
        0 <= o < w.shape[0],
    ensures
        ({
            let k = x.shape[1] as int;
            let row = x.data.subrange(t * k, t * k + k);
            exists|squares: Seq<u32>, mean: u32, shifted: u32, root: u32, raw: u32|
                {
                    &&& squares.len() == k
                    &&& forall|c: int|
                        0 <= c < k ==> agrees(#[trigger] squares[c], fmul(row[c], row[c]))
                    &&& #[trigger] mean_gives(squares, mean)
                    &&& #[trigger] affine_gives(mean, DOUBLE_ONE, eps, shifted)
                    &&& #[trigger] powf_gives(shifted, single(DOUBLE_MINUS_HALF), root)
                    &&& #[trigger] dot_gives(row, w.data.subrange(o * k, o * k + k), raw)
                    &&& agrees(y.data[t * w.shape[0] + o], fmul(raw, root))
                }
        }),
{
    let u = choose|u: MixSteps| mix_steps(x, w, eps, u, y);
    let (n, k, m) = (x.shape[0] as int, x.shape[1] as int, w.shape[0] as int);
    let s = x.shape;
    lemma_grid(s[0], s[1]);
    lemma_grid(s[0], w.shape[0]);
    assert(s =~= shape2(s[0], s[1]));
    assert(s.take(1).drop_last() =~= Seq::<usize>::empty());
    assert(s.skip(2) =~= Seq::<usize>::empty());
    reveal_with_fuel(product, 2);
    assert(outer(s, 1) == n && inner(s, 1) == 1);
    lemma_reduced_at(Reduce::Mean, 1, u.squares, u.mean, t, 0);
    let squares = lane(u.squares.data, k, 1, t, 0);
    let row = x.data.subrange(t * k, t * k + k);
    assert(0 <= t * k && t * k + k <= n * k) by (nonlinear_arith)
        requires
            0 <= t < n,
            k > 0,
    ;
    assert forall|c: int| 0 <= c < k implies agrees(#[trigger] squares[c], fmul(row[c], row[c])) by {
        let i = (t * k + c) * 1 + 0;
        assert(i == t * k + c);
        let v = u.squares.data[i];
    }
    let (mean, shifted, root) = (u.mean.data[t * 1 + 0], u.shifted.data[t * 1 + 0], u.rms.data[t * 1
        + 0]);
    assert(mean_gives(squares, mean));
    assert(affine_gives(mean, DOUBLE_ONE, eps, shifted));
    assert(powf_gives(shifted, single(DOUBLE_MINUS_HALF), root));
    let r = u.raw.shape;
    assert(r =~= shape2(s[0], w.shape[0]));
    lemma_flat(t, o, n, m);
    lemma_linear_at(x, w, u.raw, t, o);
    let raw = u.raw.data[t * m + o];
    assert(u.raw.wf());
    assert(r.update(1, 1) =~= s.update(1, 1));
    assert(r.take(1) =~= s.take(1));
    assert(r.skip(2) =~= Seq::<usize>::empty());
    lemma_keepdim_at(Binary::Mul, u.raw, u.rms, y, 1, t, o, 0);
    assert((t * m + o) * 1 + 0 == t * m + o);
}

/// The collapsed stream of a token, column by column: the sum over the streams, each times its first
/// gate.
pub proof fn law_streams_collapse(x: V, pre: V, y: V, t: int, c: int)
    requires
        collapse_gives(x, pre, y),
        x.wf(),
        x.shape.len() == 4,
        0 <= t < x.shape[0] * x.shape[1],
        0 <= c < x.shape[3],
        x.shape[2] > 0,
    ensures
        ({
            let (hc, d) = (x.shape[2] as int, x.shape[3] as int);
            weighted_sum(
                lane(pre.data, hc, 1, t, 0),
                lane(x.data, hc, d, t, c),
                y.data[t * d + c],
            )
        }),
{
    let (b, s, hc, d) = (x.shape[0], x.shape[1], x.shape[2], x.shape[3]);
    let full = shape4(b, s, hc, d);
    assert(x.shape =~= full);
    let (weighted, total) = choose|weighted: V, total: V| collapse_steps(x, pre, weighted, total, y);
    crate::shape::lemma_expands_axes(shape4(b, s, hc, 1), full);
    crate::shape::lemma_broadcast_into(shape4(b, s, hc, 1), full);
    assert(full.take(2) =~= shape2(b, s));
    assert(full.skip(3).drop_last() =~= Seq::<usize>::empty());
    reveal_with_fuel(product, 2);
    lemma_grid(b, s);
    assert(inner(full, 2) == d && outer(full, 2) == b * s);
    lemma_reduced_at(Reduce::Sum, 2, weighted, total, t, c);
    let parts = lane(weighted.data, hc as int, d as int, t, c);
    let (gates, column) = (
        lane(pre.data, hc as int, 1, t, 0),
        lane(x.data, hc as int, d as int, t, c),
    );
    assert forall|k: int| 0 <= k < hc implies agrees(
        #[trigger] parts[k],
        fmul(gates[k], column[k]),
    ) by {
        lemma_token_sources(b, s, hc, d, t, k, c);
        let i = (t * hc + k) * d + c;
        assert((t * hc + k) * 1 + 0 == t * hc + k);
        let v = weighted.data[i];
    }
    assert(products_of(gates, column, parts));
}

/// The mixer in front of a sublayer: the mixing vectors of the flattened streams, split by the mixer's
/// own scales and base, and the streams collapsed by the first gates.
pub proof fn law_mixer_parts(h: Hc, x: V, y: V, post: V, comb: V)
    requires
        pre_gives(h, x, y, post, comb),
    ensures
        exists|mixes: V, pre: V, post_flat: V, comb_flat: V|
            {
                &&& #[trigger] mix_gives(
                    NdView {
                        shape: shape2(
                            (x.shape[0] * x.shape[1]) as usize,
                            (x.shape[2] * x.shape[3]) as usize,
                        ),
                        data: x.data,
                    },
                    h.hc_fn@,
                    h.norm_eps,
                    mixes,
                )
                &&& #[trigger] split_gives(
                    mixes,
                    h.hc_scale@,
                    h.hc_base@,
                    h.hc,
                    h.sinkhorn_iters,
                    h.eps,
                    pre,
                    post_flat,
                    comb_flat,
                )
                &&& collapse_gives(x, pre, y)
                &&& post.data == post_flat.data
                &&& comb.data == comb_flat.data
            },
{
    let u = choose|u: PreSteps| pre_steps(h, x, u, y, post, comb);
    assert(mix_gives(flat_streams(x), h.hc_fn@, h.norm_eps, u.mixes));
}

} // verus!
