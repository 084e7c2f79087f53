//! Laws on calls of the building blocks: what one value of a result is of the values given.

use vstd::prelude::*;

use crate::error::TensorError;
use crate::tensor::{Indices, Tensor};

#[allow(unused_imports)]
use crate::bits::{agrees, is_nan, less, DOUBLE_MINUS_HALF, DOUBLE_ONE};
#[allow(unused_imports)]
use crate::blocks::law_pool_weighs_by_gates;
#[allow(unused_imports)]
use crate::elements::{
    gained, lane, law_join_by_place, law_narrow_by_place, law_picked_by_place, law_rms_norm_levels,
    law_sigmoid_is_logistic, law_softmax_gives_shares, law_swap_by_place, lemma_linear_at, logistic,
    shares, weighted_sum,
};
#[allow(unused_imports)]
use crate::kernel::{affine_gives, dot_gives, fmul, mean_gives, powf_gives, single};
#[allow(unused_imports)]
use crate::mhc::{collapse_streams, flatten_streams, rms_mix};
#[allow(unused_imports)]
use crate::mixing::{law_mixing_vector, law_streams_collapse};
#[allow(unused_imports)]
use crate::nn::{rms_norm, sigmoid, softmax, softmax_dim, view_of};
#[allow(unused_imports)]
use crate::ops::{linear, matmul};
#[allow(unused_imports)]
use crate::shape::{
    fits, inner, lemma_cube, lemma_cube4, lemma_flat, lemma_flat3, lemma_grid, outer, product,
    shape2, shape3, shape4,
};
#[allow(unused_imports)]
use crate::sparse::{
    compress_topk_idxs, gated_pool, law_compressed_slots, law_window_slots, overlap_windows,
    pick_blocks, window_topk_idxs,
};
#[allow(unused_imports)]
use crate::topk::{law_top_k_takes_as_many, law_top_k_takes_the_highest, no_nan, top_k, top_k_of};
#[allow(unused_imports)]
use vstd::arithmetic::div_mod::lemma_fundamental_div_mod_converse;

verus! {

// --- rows -----------------------------------------------------------------------------------

/// The RMS norm levels row `r`, and scales column `c` with the gain `c`.
pub proof fn law_rms_norm_call(
    x: Tensor,
    gamma: Option<&Tensor>,
    eps: u64,
    y: Tensor,
    r: int,
)
    requires
        call_ensures(rms_norm, (&x, gamma, eps), Ok::<Tensor, TensorError>(y)),
        x@.wf(),
        x@.shape.len() > 0,
        gamma matches Some(g) ==> g@.shape.len() == 1 && g@.shape[0] == x@.shape.last(),
        0 <= r < product(x@.shape.drop_last()),
    ensures
        y@.shape == x@.shape,
        gained(
            x@.data.subrange(r * x@.shape.last(), r * x@.shape.last() + x@.shape.last()),
            eps,
            view_of(gamma),
            y@.data.subrange(r * x@.shape.last(), r * x@.shape.last() + x@.shape.last()),
        ),
{
    law_rms_norm_levels(x@, view_of(gamma), eps, y@, r);
}

/// Both ways to a softmax give the elements along the axis their shares.
pub proof fn law_softmax_calls(x: Tensor, axis: usize, y: Tensor, z: Tensor, o: int, t: int)
    requires
        call_ensures(softmax, (&x, axis), Ok::<Tensor, TensorError>(y)),
        call_ensures(softmax_dim, (&x, axis), Ok::<Tensor, TensorError>(z)),
        x@.wf(),
        axis < x@.shape.len(),
        0 <= o < outer(x@.shape, axis as int),
        0 <= t < inner(x@.shape, axis as int),
    ensures
        ({
            let (n, step) = (x@.shape[axis as int] as int, inner(x@.shape, axis as int) as int);
            &&& shares(lane(x@.data, n, step, o, t), lane(y@.data, n, step, o, t))
            &&& shares(lane(x@.data, n, step, o, t), lane(z@.data, n, step, o, t))
        }),
{
    law_softmax_gives_shares(axis as int, x@, y@, o, t);
    law_softmax_gives_shares(axis as int, x@, z@, o, t);
}

/// The sigmoid is the logistic function of each element.
pub proof fn law_sigmoid_call(x: Tensor, y: Tensor, i: int)
    requires
        call_ensures(sigmoid, (&x,), y),
        0 <= i < x@.data.len(),
    ensures
        logistic(x@.data[i], y@.data[i]),
{
    law_sigmoid_is_logistic(x@, y@, i);
}

/// A linear map: element `(r, c)` is row `r` of the input times row `c` of the weight.
pub proof fn law_linear_map_call(x: Tensor, w: Tensor, y: Tensor, r: int, c: int)
    requires
        call_ensures(linear, (&x, &w), Ok::<Tensor, TensorError>(y)),
        x@.shape.len() > 0,
        x@.shape.last() > 0,
        0 <= r,
        0 <= c < w@.shape[0],
        r * w@.shape[0] + c < y@.data.len(),
    ensures
        y@.shape == x@.shape.drop_last().push(w@.shape[0]),
        dot_gives(
            x@.data.subrange(r * x@.shape.last(), r * x@.shape.last() + x@.shape.last()),
            w@.data.subrange(c * x@.shape.last(), c * x@.shape.last() + x@.shape.last()),
            y@.data[r * w@.shape[0] + c],
        ),
{
    lemma_linear_at(x@, w@, y@, r, c);
}

/// A matrix product: element `(i, j)` of matrix `a` is row `i` of the left one times column `j` of the
/// right one.
pub proof fn law_matmul_call(
    x: Tensor,
    z: Tensor,
    y: Tensor,
    b: usize,
    m: usize,
    k: usize,
    n: usize,
    a: int,
    i: int,
    j: int,
)
    requires
        call_ensures(matmul, (&x, &z), Ok::<Tensor, TensorError>(y)),
        x@.wf(),
        x@.shape == shape3(b, m, k),
        z@.shape == shape3(b, k, n),
        k > 0,
        0 <= a < b,
        0 <= i < m,
        0 <= j < n,
    ensures
        y@.shape == shape3(b, m, n),
        dot_gives(
            x@.data.subrange((a * m + i) * k, (a * m + i) * k + k),
            lane(z@.data, k as int, n as int, a, j),
            y@.data[(a * m + i) * n + j],
        ),
{
    assert(y@.shape =~= shape3(b, m, n));
    lemma_cube(b, m, n);
    lemma_flat3(a, i, j, b as int, m as int, n as int);
    lemma_flat(a, i, b as int, m as int);
    let p = (a * m + i) * n + j;
    lemma_fundamental_div_mod_converse(p, n as int, a * m + i, j);
    lemma_fundamental_div_mod_converse(a * m + i, m as int, a, i);
    assert(crate::kernel::right_column(z@.data, m as int, k as int, n as int, p) =~= lane(
        z@.data,
        k as int,
        n as int,
        a,
        j,
    ));
    let v = y@.data[p];
}

/// The mixing vector of a token: its streams times the rows of the weight, by their root mean square.
pub proof fn law_rms_mix_call(x: Tensor, w: Tensor, eps: u64, y: Tensor, t: int, o: int)
    requires
        call_ensures(rms_mix, (&x, &w, eps), Ok::<Tensor, TensorError>(y)),
        x@.wf(),
        x@.shape.len() == 2,
        w@.shape.len() == 2,
        0 < x@.shape[1],
        0 <= t < x@.shape[0],
        0 <= o < w@.shape[0],
    ensures
        ({
            let k = x@.shape[1] as int;
            let row = x@.data.subrange(t * k, t * k + k);
            exists|squares: Seq<u32>, mean: u32, shifted: u32, root: u32, raw: u32|
                {
                    &&& squares.len() == k
                    &&& forall|c: int|
                        0 <= c < k ==> agrees(#[trigger] squares[c], fmul(row[c], row[c]))
                    &&& #[trigger] mean_gives(squares, mean)
                    &&& #[trigger] affine_gives(mean, DOUBLE_ONE, eps, shifted)
                    &&& #[trigger] powf_gives(shifted, single(DOUBLE_MINUS_HALF), root)
                    &&& #[trigger] dot_gives(row, w@.data.subrange(o * k, o * k + k), raw)
                    &&& agrees(y@.data[t * w@.shape[0] + o], fmul(raw, root))
                }
        }),
{
    law_mixing_vector(x@, w@, eps, y@, t, o);
}

/// Flattened streams stand side by side, a token to a row; collapsed ones are summed by their gates.
pub proof fn law_stream_calls(x: Tensor, pre: Tensor, flat: Tensor, y: Tensor, t: int, k: int, c: int)
    requires
        call_ensures(flatten_streams, (&x,), Ok::<Tensor, TensorError>(flat)),
        call_ensures(collapse_streams, (&x, &pre), Ok::<Tensor, TensorError>(y)),
        x@.wf(),
        x@.shape.len() == 4,
        0 <= t < x@.shape[0] * x@.shape[1],
        0 <= k < x@.shape[2],
        0 <= c < x@.shape[3],
    ensures
        ({
            let (hc, d) = (x@.shape[2] as int, x@.shape[3] as int);
            &&& flat@.shape[1] == hc * d
            &&& flat@.data[t * (hc * d) + k * d + c] == x@.data[(t * hc + k) * d + c]
            &&& weighted_sum(
                lane(pre@.data, hc, 1, t, 0),
                lane(x@.data, hc, d, t, c),
                y@.data[t * d + c],
            )
        }),
{
    let (hc, d) = (x@.shape[2] as int, x@.shape[3] as int);
    crate::mhc::lemma_flat_streams(x@.shape);
    law_streams_collapse(x@, pre@, y@, t, c);
    assert(t * (hc * d) + k * d + c == (t * hc + k) * d + c) by (nonlinear_arith);
}

// --- choices --------------------------------------------------------------------------------

/// The choice of the highest scores of a stretch: as many as are asked for or as there are, none twice,
/// none outside, the higher before the lower, equal ones in their order, and no other one higher.
pub proof fn law_top_k_call(
    scores: Vec<u32>,
    start: usize,
    n: usize,
    k: usize,
    r: Vec<usize>,
    a: int,
    b: int,
    j: int,
)
    requires
        call_ensures(top_k, (&scores, start, n, k), r),
        start + n <= scores@.len(),
        forall|i: int| start <= i < start + n ==> !is_nan(#[trigger] scores@[i]),
        0 <= a < b < r@.len(),
        0 <= j < n,
        forall|i: int| 0 <= i < r@.len() ==> #[trigger] r@[i] != j,
    ensures
        r@.len() <= k,
        r@.len() == k || r@.len() == n,
        r@[a] < n,
        r@[a] != r@[b],
        !less(scores@[start + r@[a]], scores@[start + r@[b]]),
        less(scores@[start + r@[b]], scores@[start + r@[a]]) || r@[a] < r@[b],
        !less(scores@[start + r@[b]], scores@[start + j]),
        less(scores@[start + j], scores@[start + r@[b]]) || r@[b] < j,
{
    let s = scores@.subrange(start as int, start + n);
    assert(no_nan(s));
    law_top_k_takes_as_many(s, k as int, r@);
    law_top_k_takes_the_highest(s, k as int, r@, a, b, j);
}

/// The blocks of a query: the highest scores among the blocks that it sees, counted behind the tokens,
/// and nothing in the slots that are left.
pub proof fn law_pick_blocks_call(
    score: Vec<u32>,
    b: usize,
    s: usize,
    nb: usize,
    ratio: usize,
    k: usize,
    out: Indices,
    a: int,
    i: int,
)
    requires
        call_ensures(
            pick_blocks,
            (&score, b, s, nb, ratio, k),
            Ok::<Indices, TensorError>(out),
        ),
        ratio > 0,
        nb == s as int / ratio as int,
        s + nb <= i64::MAX,
        0 <= a < b,
        0 <= i < s,
    ensures
        ({
            let p = a * s + i;
            exists|best: Seq<usize>|
                {
                    &&& #[trigger] top_k_of(
                        score@.subrange(p * nb, p * nb + (i + 1) / ratio as int),
                        k as int,
                        best,
                    )
                    &&& forall|j: int|
                        0 <= j < k && j < best.len() ==> #[trigger] out@.data[p * k + j] == s + best[j]
                    &&& forall|j: int|
                        best.len() <= j < k ==> #[trigger] out@.data[p * k + j] == -1
                }
        }),
{
    crate::selector::law_selected_blocks(score@, b, s, nb, ratio, k, out@, a, i);
}

/// The window of a query: its last keys up to itself, in their order.
pub proof fn law_window_call(
    window: usize,
    seqlen: usize,
    r: Result<Indices, TensorError>,
    i: int,
    u: int,
)
    requires
        call_ensures(window_topk_idxs, (window, seqlen), r),
        seqlen <= i64::MAX,
        fits(shape2(seqlen, if window <= seqlen { window } else { seqlen })),
        0 <= i < seqlen,
        0 <= u < window,
        u < seqlen,
    ensures
        r is Ok,
        ({
            let k = if window <= seqlen {
                window as int
            } else {
                seqlen as int
            };
            let first = if i < window {
                0
            } else {
                i - window + 1
            };
            r.unwrap()@.data[i * k + u] == (if first + u <= i {
                first + u
            } else {
                -1
            })
        }),
{
    law_window_slots(window, seqlen, i, u);
}

/// The compressed keys of a query: the blocks whose last token it has reached.
pub proof fn law_compressed_call(
    ratio: usize,
    seqlen: usize,
    offset: usize,
    r: Result<Indices, TensorError>,
    i: int,
    c: int,
)
    requires
        call_ensures(compress_topk_idxs, (ratio, seqlen, offset), r),
        ratio > 0,
        seqlen as int / ratio as int + offset <= i64::MAX,
        fits(shape2(seqlen, seqlen / ratio)),
        0 <= i < seqlen,
        0 <= c < seqlen as int / ratio as int,
    ensures
        r is Ok,
        r.unwrap()@.data[i * (seqlen as int / ratio as int) + c] == (if c * ratio + ratio - 1 <= i {
            c + offset
        } else {
            -1
        }),
{
    law_compressed_slots(ratio, seqlen, offset, i, c);
}

/// A gated pool: the sum of the values of a block, each times the share of its gate.
pub proof fn law_pool_call(values: Tensor, gates: Tensor, y: Tensor, o: int, c: int)
    requires
        call_ensures(gated_pool, (&values, &gates), Ok::<Tensor, TensorError>(y)),
        values@.wf(),
        gates@.wf(),
        gates@.shape.len() == 4,
        0 <= o < gates@.shape[0] * gates@.shape[1],
        0 <= c < gates@.shape[3],
    ensures
        ({
            let (m, d) = (gates@.shape[2] as int, gates@.shape[3] as int);
            exists|w: Seq<u32>| #[trigger]
                shares(lane(gates@.data, m, d, o, c), w) && weighted_sum(
                    lane(values@.data, m, d, o, c),
                    w,
                    y@.data[o * d + c],
                )
        }),
{
    law_pool_weighs_by_gates(values@, gates@, y@, o, c);
}

/// Overlapping windows: behind the upper half of its own tokens' channels, a block has the lower half of
/// its predecessor's, which the first block of a sequence has not.
pub proof fn law_overlap_call(
    t: Tensor,
    d: usize,
    fill: u32,
    y: Tensor,
    a: int,
    blk: int,
    tok: int,
    c: int,
)
    requires
        call_ensures(overlap_windows, (&t, d, fill), Ok::<Tensor, TensorError>(y)),
        t@.wf(),
        t@.shape.len() == 4,
        0 <= a < t@.shape[0],
        0 <= blk < t@.shape[1],
        0 <= tok < t@.shape[2],
        0 <= c < d,
    ensures
        ({
            let (nb, n, w) = (t@.shape[1] as int, t@.shape[2] as int, t@.shape[3] as int);
            let p = a * nb + blk;
            &&& y@.shape == shape4(t@.shape[0], t@.shape[1], (2 * n) as usize, d)
            &&& y@.data[(p * (2 * n) + n + tok) * d + c] == t@.data[(p * n + tok) * w + d + c]
            &&& y@.data[(p * (2 * n) + tok) * d + c] == (if blk == 0 {
                fill
            } else {
                t@.data[((p - 1) * n + tok) * w + c]
            })
        }),
{
    let (b, nb, n) = (t@.shape[0] as int, t@.shape[1] as int, t@.shape[2] as int);
    let p = a * nb + blk;
    lemma_flat(a, blk, b, nb);
    lemma_fundamental_div_mod_converse(p, nb, a, blk);
    lemma_cube4(t@.shape[0], t@.shape[1], (2 * n) as usize, d);
    lemma_overlap_place(t, d, fill, y, b * nb, p, n + tok, c);
    lemma_overlap_place(t, d, fill, y, b * nb, p, tok, c);
}

proof fn lemma_overlap_place(
    t: Tensor,
    d: usize,
    fill: u32,
    y: Tensor,
    rows: int,
    p: int,
    tok: int,
    c: int,
)
    requires
        y@ == crate::sparse::overlap_of(t@, d, fill),
        y@.data.len() == rows * (2 * t@.shape[2]) * d,
        0 <= p < rows,
        0 <= tok < 2 * t@.shape[2],
        0 <= c < d,
    ensures
        ({
            let i = (p * (2 * t@.shape[2]) + tok) * d + c;
            &&& i % d as int == c
            &&& (i / d as int) % (2 * t@.shape[2]) == tok
            &&& (i / d as int) / (2 * t@.shape[2]) == p
            &&& y@.data[i] == crate::sparse::overlap_element(t@, d as int, fill, i)
        }),
{
    let m = 2 * t@.shape[2];
    lemma_flat3(p, tok, c, rows, m, d as int);
    lemma_fundamental_div_mod_converse((p * m + tok) * d + c, d as int, p * m + tok, c);
    lemma_fundamental_div_mod_converse(p * m + tok, m, p, tok);
}

// --- moving elements ------------------------------------------------------------------------

/// Narrowing an axis keeps the elements from `start` on.
pub proof fn law_narrow_call(
    x: Tensor,
    axis: usize,
    start: usize,
    len: usize,
    y: Tensor,
    o: int,
    k: int,
    t: int,
)
    requires
        call_ensures(Tensor::narrow, (&x, axis, start, len), Ok::<Tensor, TensorError>(y)),
        axis < x@.shape.len(),
        0 <= o < outer(x@.shape, axis as int),
        0 <= k < len,
        0 <= t < inner(x@.shape, axis as int),
    ensures
        ({
            let (n, step) = (x@.shape[axis as int] as int, inner(x@.shape, axis as int) as int);
            &&& y@.shape == x@.shape.update(axis as int, len)
            &&& y@.data[(o * len + k) * step + t] == x@.data[(o * n + start + k) * step + t]
        }),
{
    law_narrow_by_place(x@, axis as int, start as int, len as int, o, k, t);
}

/// Joining along an axis puts the elements of the second tensor behind those of the first.
pub proof fn law_join_call(a: Tensor, b: Tensor, axis: usize, y: Tensor, o: int, k: int, t: int)
    requires
        call_ensures(Tensor::join, (&a, &b, axis), Ok::<Tensor, TensorError>(y)),
        axis < a@.shape.len(),
        axis < b@.shape.len(),
        0 <= o < outer(a@.shape, axis as int),
        0 <= k < a@.shape[axis as int] + b@.shape[axis as int],
        0 <= t < inner(a@.shape, axis as int),
    ensures
        ({
            let (n, m, step) = (
                a@.shape[axis as int] as int,
                b@.shape[axis as int] as int,
                inner(a@.shape, axis as int) as int,
            );
            y@.data[(o * (n + m) + k) * step + t] == (if k < n {
                a@.data[(o * n + k) * step + t]
            } else {
                b@.data[(o * m + (k - n)) * step + t]
            })
        }),
{
    law_join_by_place(a@, b@, axis as int, o, k, t);
}

/// Picking rows: row `r` of the result is row `rows[r]`.
pub proof fn law_pick_rows_call(x: Tensor, rows: Vec<usize>, y: Tensor, r: int, t: int)
    requires
        call_ensures(Tensor::pick_rows, (&x, &rows), Ok::<Tensor, TensorError>(y)),
        x@.shape.len() > 0,
        0 <= r < rows@.len(),
        0 <= t < inner(x@.shape, 0),
    ensures
        y@.data[r * inner(x@.shape, 0) + t] == x@.data[rows@[r] * inner(x@.shape, 0) + t],
{
    law_picked_by_place(x@, rows@, r, t);
}

/// Exchanging the axes of a matrix exchanges row and column.
pub proof fn law_swap_call(x: Tensor, y: Tensor, m: usize, n: usize, i: int, j: int)
    requires
        call_ensures(Tensor::swap_axes, (&x, 0), Ok::<Tensor, TensorError>(y)),
        x@.wf(),
        x@.shape == shape2(m, n),
        0 <= i < m,
        0 <= j < n,
    ensures
        y@.shape == shape2(n, m),
        y@.data[j * m + i] == x@.data[i * n + j],
{
    let s = x@.shape;
    lemma_grid(m, n);
    assert(s.take(0) =~= Seq::<usize>::empty());
    assert(s.skip(2) =~= Seq::<usize>::empty());
    reveal_with_fuel(product, 2);
    assert(outer(s, 0) == 1 && inner(s, 1) == 1);
    assert(1 * n * m * 1 == m * n) by (nonlinear_arith);
    law_swap_by_place(x@, 0, 0, i, j, 0);
    assert(((0 * n + j) * m + i) * 1 + 0 == j * m + i) by (nonlinear_arith);
    assert(((0 * m + i) * n + j) * 1 + 0 == i * n + j) by (nonlinear_arith);
    assert(y@.shape =~= shape2(n, m));
}

} // verus!
