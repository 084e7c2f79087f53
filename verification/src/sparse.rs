//! Sparse key selection: which keys each query attends to.
//!
//! A layer attends to a sliding window of past keys and, if it compresses, to blocks of pooled keys
//! that are appended after them. The selection is a tensor of key indices, `-1` for an empty slot,
//! which [`crate::attention::sparse_attn`] consumes.

use vstd::prelude::*;

use crate::bits::{DOUBLE_MINUS_HALF, DOUBLE_ZERO, NEG_INFINITY, ZERO};
use crate::double;
use crate::error::TensorError;
use crate::nn::{rms_norm, softmax_dim};
use crate::ops;
use crate::rope::{product_of, rope_tail_at, whole_of, Rope};
use crate::shape::{axes2, axes3, axes4, check_fits, count};
use crate::tensor::{Indices, Tensor};
use crate::topk::top_k;

#[allow(unused_imports)]
use crate::bits::double_agrees;
#[allow(unused_imports)]
use crate::double::{dint, dmul, dpow_gives};
#[allow(unused_imports)]
use crate::nn::{rms_norm_gives, rms_norm_shape, softmax_gives, softmax_ok};
#[allow(unused_imports)]
use crate::ops::{
    combined, combined_shape, linear_gives, linear_shape, mapped, matmul_shape, multiplied, paired,
    reduced, Binary, Reduce, Unary,
};
#[allow(unused_imports)]
use crate::rope::{tail_at_ok, tail_rotated, RopeView};
#[allow(unused_imports)]
use crate::shape::{
    fits, lemma_broadcast_into, lemma_cube, lemma_cube4, lemma_divide, lemma_expands_axes,
    lemma_flat, lemma_grid, product, shape2, shape3, shape4,
};
#[allow(unused_imports)]
use crate::tensor::{reshaped, rows_looked_up, squeezed, swapped, unsqueezed, IndexView, NdView, V};
#[allow(unused_imports)]
use crate::topk::top_k_of;

verus! {

/// Marks an empty slot of an index set.
pub const EMPTY: i64 = -1;

pub open spec fn min(a: int, b: int) -> int {
    if a <= b {
        a
    } else {
        b
    }
}

/// The first key that query `i` sees through a window.
pub open spec fn window_start(window: int, i: int) -> int {
    if i + 1 >= window {
        i + 1 - window
    } else {
        0
    }
}

/// The sliding-window index set: row `i` lists `max(i - window + 1, 0) ..= i`, right-padded with
/// `-1`.
pub open spec fn window_idxs_of(window: usize, seqlen: usize) -> IndexView {
    let k = if window <= seqlen {
        window
    } else {
        seqlen
    };
    NdView {
        shape: shape2(seqlen, k),
        data: Seq::new(
            (seqlen * k) as nat,
            |p: int|
                {
                    let key = window_start(window as int, p / k as int) + p % k as int;
                    if key <= p / k as int {
                        key as i64
                    } else {
                        EMPTY
                    }
                },
        ),
    }
}

/// The compressed index set: row `i` lists, at `c + offset`, the blocks `c` that are wholly past, and
/// `-1` in the remaining slots.
pub open spec fn compress_idxs_of(ratio: usize, seqlen: usize, offset: usize) -> IndexView {
    let cols = (seqlen as int / ratio as int) as usize;
    NdView {
        shape: shape2(seqlen, cols),
        data: Seq::new(
            (seqlen * cols) as nat,
            |p: int|
                if (p % (cols as int)) < (p / (cols as int) + 1) / (ratio as int) {
                    (p % cols as int + offset) as i64
                } else {
                    EMPTY
                },
        ),
    }
}

/// Index `j` stands in row `i` of a two-axis index set.
pub open spec fn row_lists(t: IndexView, i: int, j: int) -> bool {
    exists|u: int| 0 <= u < t.shape[1] && #[trigger] t.data[i * t.shape[1] + u] == j
}

/// Sliding-window key indices for a prefill of `seqlen` tokens, `[seqlen, min(seqlen, window)]`.
pub fn window_topk_idxs(window: usize, seqlen: usize) -> (r: Result<Indices, TensorError>)
    ensures
        r is Ok <==> fits(window_idxs_of(window, seqlen).shape) && seqlen <= i64::MAX,
        r matches Ok(t) ==> t@ == window_idxs_of(window, seqlen) && t@.wf(),
        r matches Err(e) ==> e == TensorError::Shape,
{
    let k: usize = if window <= seqlen {
        window
    } else {
        seqlen
    };
    let shape = axes2(seqlen, k);
    if !check_fits(&shape) || seqlen as u64 > i64::MAX as u64 {
        return Err(TensorError::Shape);
    }
    let total: usize = count(&shape, 0, 2);
    proof {
        assert(shape@.subrange(0, 2) =~= shape@);
        lemma_grid(seqlen, k);
    }
    let ghost want = window_idxs_of(window, seqlen).data;
    let mut data: Vec<i64> = Vec::new();
    let mut p: usize = 0;
    while p < total
        invariant
            k == min(window as int, seqlen as int),
            seqlen <= i64::MAX,
            total == seqlen * k,
            p <= total,
            want == window_idxs_of(window, seqlen).data,
            want.len() == total,
            data@ == want.take(p as int),
        decreases total - p,
    {
        proof {
            lemma_divide(p as int, seqlen as int, k as int);
        }
        let i: usize = p / k;
        let lo: usize = if i + 1 >= window {
            i + 1 - window
        } else {
            0
        };
        let j: usize = p % k;
        let v: i64 = if j <= i && lo <= i - j {
            (lo + j) as i64
        } else {
            EMPTY
        };
        data.push(v);
        p = p + 1;
        assert(want.take(p as int) =~= want.take(p - 1).push(want[p - 1]));
    }
    assert(want.take(p as int) =~= want);
    Indices::new(shape, data)
}

/// Compressed key indices for a prefill of `seqlen` tokens, `[seqlen, seqlen / ratio]`: block `c`
/// pools the tokens `c * ratio .. (c + 1) * ratio` and is visible once they are all past.
pub fn compress_topk_idxs(ratio: usize, seqlen: usize, offset: usize) -> (r: Result<Indices, TensorError>)
    requires
        ratio > 0,
    ensures
        r is Ok <==> fits(compress_idxs_of(ratio, seqlen, offset).shape) && seqlen / ratio + offset
            <= i64::MAX,
        r matches Ok(t) ==> t@ == compress_idxs_of(ratio, seqlen, offset) && t@.wf(),
        r matches Err(e) ==> e == TensorError::Shape,
{
    let cols: usize = seqlen / ratio;
    let shape = axes2(seqlen, cols);
    if !check_fits(&shape) || cols as u64 > i64::MAX as u64 || offset as u64 > i64::MAX as u64
        - cols as u64 {
        return Err(TensorError::Shape);
    }
    let total: usize = count(&shape, 0, 2);
    proof {
        assert(shape@.subrange(0, 2) =~= shape@);
        lemma_grid(seqlen, cols);
    }
    let ghost want = compress_idxs_of(ratio, seqlen, offset).data;
    let mut data: Vec<i64> = Vec::new();
    let mut p: usize = 0;
    while p < total
        invariant
            ratio > 0,
            cols == seqlen / ratio,
            cols + offset <= i64::MAX,
            total == seqlen * cols,
            p <= total,
            want == compress_idxs_of(ratio, seqlen, offset).data,
            want.len() == total,
            data@ == want.take(p as int),
        decreases total - p,
    {
        proof {
            lemma_divide(p as int, seqlen as int, cols as int);
        }
        let i: usize = p / cols;
        let c: usize = p % cols;
        let v: i64 = if c < (i + 1) / ratio {
            (c as u64 + offset as u64) as i64
        } else {
            EMPTY
        };
        data.push(v);
        p = p + 1;
        assert(want.take(p as int) =~= want.take(p - 1).push(want[p - 1]));
    }
    assert(want.take(p as int) =~= want);
    Indices::new(shape, data)
}

/// A query attends through the window to exactly the keys `max(i - window + 1, 0) ..= i`: nothing in
/// the future, and itself unless the window is empty.
pub proof fn law_window_keys(window: usize, seqlen: usize, i: int, j: int)
    requires
        seqlen <= i64::MAX,
        0 <= i < seqlen,
        j >= 0,
    ensures
        row_lists(window_idxs_of(window, seqlen), i, j) <==> window_start(window as int, i) <= j <= i,
{
    let t = window_idxs_of(window, seqlen);
    let k = min(window as int, seqlen as int);
    assert(t.shape[1] == k);
    let lo = window_start(window as int, i);
    if row_lists(t, i, j) {
        let u = choose|u: int| 0 <= u < t.shape[1] && #[trigger] t.data[i * t.shape[1] + u] == j;
        lemma_flat(i, u, seqlen as int, k);
    }
    if lo <= j <= i {
        let u = j - lo;
        assert(0 <= u < k);
        lemma_flat(i, u, seqlen as int, k);
        assert(t.data[i * t.shape[1] + u] == j);
    }
}

/// A compressed block is listed if and only if all of its tokens are at or before the query.
pub proof fn law_compressed_keys(ratio: usize, seqlen: usize, offset: usize, i: int, c: int)
    requires
        ratio > 0,
        seqlen as int / ratio as int + offset <= i64::MAX,
        0 <= i < seqlen,
        c >= 0,
    ensures
        row_lists(compress_idxs_of(ratio, seqlen, offset), i, c + offset) <==> (c + 1) * ratio <= i
            + 1,
{
    let t = compress_idxs_of(ratio, seqlen, offset);
    let r = ratio as int;
    let cols = seqlen as int / r;
    assert(0 <= cols <= seqlen) by (nonlinear_arith)
        requires
            r >= 1,
            seqlen >= 0,
            cols == seqlen as int / r,
    ;
    assert(t.shape[1] == cols);
    if row_lists(t, i, c + offset) {
        let u = choose|u: int|
            0 <= u < t.shape[1] && #[trigger] t.data[i * t.shape[1] + u] == c + offset;
        lemma_flat(i, u, seqlen as int, cols);
        assert((c + 1) * r <= i + 1) by (nonlinear_arith)
            requires
                c < (i + 1) / r,
                r > 0,
        ;
    }
    if (c + 1) * ratio <= i + 1 {
        assert(c < (i + 1) / r) by (nonlinear_arith)
            requires
                (c + 1) * r <= i + 1,
                r > 0,
        ;
        assert((i + 1) / r <= cols) by {
            vstd::arithmetic::div_mod::lemma_div_is_ordered(i + 1, seqlen as int, r);
        }
        lemma_flat(i, c, seqlen as int, cols);
        assert(t.data[i * t.shape[1] + c] == c + offset);
    }
}

// --- pooling --------------------------------------------------------------------------------

/// The tensors between input and output of a gated pool.
pub struct PoolSteps {
    pub weights: V,
    pub weighted: V,
    pub total: V,
}

/// `y = Σ_tok softmax_tok(gates) · values` over axis 2.
pub open spec fn pool_steps(values: V, gates: V, t: PoolSteps, y: V) -> bool {
    &&& softmax_gives(2, gates, t.weights)
    &&& paired(Binary::Mul, values, t.weights, t.weighted)
    &&& reduced(Reduce::Sum, 2, t.weighted, t.total)
    &&& y == squeezed(t.total, 2)
}

pub open spec fn pool_gives(values: V, gates: V, y: V) -> bool {
    exists|t: PoolSteps| pool_steps(values, gates, t, y)
}

/// Gated mean over the tokens of a block: both inputs are `[b, blocks, tokens, d]`, the gates are
/// softmaxed over the tokens per dimension, and the result is `[b, blocks, d]`.
pub fn gated_pool(values: &Tensor, gates: &Tensor) -> (r: Result<Tensor, TensorError>)
    ensures
        r is Ok <==> values@.shape == gates@.shape && softmax_ok(2, gates@.shape),
        r matches Ok(y) ==> y@.wf() && y@.shape == gates@.shape.remove(2) && pool_gives(
            values@,
            gates@,
            y@,
        ),
        r matches Err(e) ==> e == TensorError::Shape,
{
    let weights = softmax_dim(gates, 2)?;
    let weighted = ops::same_mul(values, &weights)?;
    let total = ops::sum_keepdim(&weighted, 2)?;
    let y = total.squeeze(2)?;
    assert(y@.shape =~= gates@.shape.remove(2));
    assert(pool_steps(
        values@,
        gates@,
        PoolSteps { weights: weights@, weighted: weighted@, total: total@ },
        y@,
    ));
    Ok(y)
}

/// The overlapping windows of `[b, blocks, ratio, 2d]`: each block keeps the second half of its own
/// tokens and prepends the first half of the previous block's; block 0 prepends `fill`.
pub open spec fn overlap_of(t: V, d: usize, fill: u32) -> V {
    let (b, nb, ratio, w) = (t.shape[0], t.shape[1], t.shape[2], t.shape[3]);
    NdView {
        shape: shape4(b, nb, (2 * ratio) as usize, d),
        data: Seq::new(
            product(shape4(b, nb, (2 * ratio) as usize, d)),
            |p: int| overlap_element(t, d as int, fill, p),
        ),
    }
}

/// Element `p` of the overlapping windows.
pub open spec fn overlap_element(t: V, d: int, fill: u32, p: int) -> u32 {
    let nb = t.shape[1] as int;
    let ratio = t.shape[2] as int;
    let w = t.shape[3] as int;
    let c = p % d;
    let tok = (p / d) % (2 * ratio);
    let blk = (p / d) / (2 * ratio);
    if tok >= ratio {
        t.data[(blk * ratio + (tok - ratio)) * w + d + c]
    } else if blk % nb == 0 {
        fill
    } else {
        t.data[((blk - 1) * ratio + tok) * w + c]
    }
}

pub open spec fn overlap_ok(t: Seq<usize>, d: usize) -> bool {
    &&& t.len() == 4
    &&& 2 * d <= t[3]
    &&& t[1] >= 1
    &&& 2 * t[2] <= usize::MAX
    &&& fits(shape4(t[0], t[1], (2 * t[2]) as usize, d))
}

/// Builds the overlapping windows.
pub fn overlap_windows(t: &Tensor, d: usize, fill: u32) -> (r: Result<Tensor, TensorError>)
    ensures
        r is Ok <==> overlap_ok(t@.shape, d),
        r matches Ok(y) ==> y@.wf() && y@ == overlap_of(t@, d, fill),
        r matches Err(e) ==> e == TensorError::Shape,
{
    let (b, nb, ratio, w) = t.dims4()?;
    if d > w || d > w - d || nb == 0 {
        return Err(TensorError::Shape);
    }
    let wide: usize = match ratio.checked_mul(2) {
        Some(v) => v,
        None => {
            return Err(TensorError::Shape);
        },
    };
    let shape = axes4(b, nb, wide, d);
    if !check_fits(&shape) {
        return Err(TensorError::Shape);
    }
    let total: usize = count(&shape, 0, 4);
    let stored: usize = t.data().len();
    proof {
        assert(shape@.subrange(0, 4) =~= shape@);
        lemma_cube4(b, nb, wide, d);
        lemma_cube4(b, nb, ratio, w);
    }
    let ghost want = overlap_of(t@, d, fill).data;
    let mut data: Vec<u32> = Vec::new();
    let mut p: usize = 0;
    while p < total
        invariant
            t@.shape == shape4(b, nb, ratio, w),
            t@.data.len() == b * nb * ratio * w,
            t@.data.len() == stored,
            2 * d <= w,
            wide == 2 * ratio,
            total == b * nb * wide * d,
            p <= total,
            want == overlap_of(t@, d, fill).data,
            want.len() == total,
            data@ == want.take(p as int),
        decreases total - p,
    {
        proof {
            lemma_divide(p as int, b * nb * wide, d as int);
            lemma_divide(p as int / d as int, b * nb, wide as int);
            lemma_divide((p as int / d as int) / wide as int, b as int, nb as int);
        }
        let c: usize = p % d;
        let tok: usize = (p / d) % wide;
        let blk: usize = (p / d) / wide;
        let v: u32 = if tok >= ratio {
            proof {
                lemma_overlap_bound(b * nb, ratio as int, w as int, blk as int, tok - ratio, d + c, stored as int);
            }
            t.data()[(blk * ratio + (tok - ratio)) * w + d + c]
        } else if blk % nb == 0 {
            fill
        } else {
            proof {
                assert(blk >= 1);
                lemma_overlap_bound(b * nb, ratio as int, w as int, blk - 1, tok as int, c as int, stored as int);
            }
            t.data()[((blk - 1) * ratio + tok) * w + c]
        };
        data.push(v);
        p = p + 1;
        assert(want.take(p as int) =~= want.take(p - 1).push(want[p - 1]));
    }
    assert(want.take(p as int) =~= want);
    Tensor::new(shape, data)
}

/// Slot `u` of query `i` in a window of the last `window` keys: key `max(i - window + 1, 0) + u`, or
/// nothing where that key follows the query.
pub proof fn law_window_slots(window: usize, seqlen: usize, i: int, u: int)
    requires
        seqlen <= i64::MAX,
        0 <= i < seqlen,
        0 <= u < window,
        u < seqlen,
    ensures
        ({
            let k = if window <= seqlen {
                window as int
            } else {
                seqlen as int
            };
            let first = if i < window {
                0
            } else {
                i - window + 1
            };
            &&& window_idxs_of(window, seqlen).shape == shape2(seqlen, k as usize)
            &&& window_idxs_of(window, seqlen).data[i * k + u] == (if first + u <= i {
                first + u
            } else {
                -1
            })
        }),
{
    let k = if window <= seqlen {
        window as int
    } else {
        seqlen as int
    };
    lemma_flat(i, u, seqlen as int, k);
}

/// Slot `c` of query `i` among the blocks of `ratio` tokens: block `c`, counted from `offset`, or nothing
/// where its last token follows the query.
pub proof fn law_compressed_slots(ratio: usize, seqlen: usize, offset: usize, i: int, c: int)
    requires
        ratio > 0,
        seqlen as int / ratio as int + offset <= i64::MAX,
        0 <= i < seqlen,
        0 <= c < seqlen as int / ratio as int,
        seqlen as int / ratio as int <= usize::MAX,
    ensures
        compress_idxs_of(ratio, seqlen, offset).data[i * (seqlen as int / ratio as int) + c] == (if c
            * ratio + ratio - 1 <= i {
            c + offset
        } else {
            -1
        }),
{
    let n = seqlen as int / ratio as int;
    let r = ratio as int;
    lemma_flat(i, c, seqlen as int, n);
    vstd::arithmetic::div_mod::lemma_fundamental_div_mod(i + 1, r);
    let (q, m) = ((i + 1) / r, (i + 1) % r);
    assert(c < q <==> c * r + r <= i + 1) by (nonlinear_arith)
        requires
            i + 1 == r * q + m,
            0 <= m < r,
    ;
}

/// A block, a token and a column inside their ranges give an index inside the data.
proof fn lemma_overlap_bound(blocks: int, ratio: int, w: int, blk: int, tok: int, c: int, n: int)
    requires
        0 <= blk < blocks,
        0 <= tok < ratio,
        0 <= c < w,
        n == blocks * ratio * w,
    ensures
        0 <= blk * ratio <= n,
        0 <= blk * ratio + tok <= n,
        0 <= (blk * ratio + tok) * w <= n,
        0 <= (blk * ratio + tok) * w + c < n,
{
    lemma_flat(blk, tok, blocks, ratio);
    lemma_flat(blk * ratio + tok, c, blocks * ratio, w);
    assert(blk * ratio >= 0) by (nonlinear_arith)
        requires
            blk >= 0,
            ratio >= 0,
    ;
    assert((blk * ratio + tok) * w >= blk * ratio + tok) by (nonlinear_arith)
        requires
            blk * ratio + tok >= 0,
            w >= 1,
    ;
}

/// The first window of a sequence has no predecessor: its prepended half is all `fill`.
pub proof fn law_first_block_is_filled(t: V, d: usize, fill: u32, tok: int, c: int)
    requires
        t.wf(),
        overlap_ok(t.shape, d),
        t.shape[0] > 0,
        0 <= tok < t.shape[2],
        0 <= c < d,
    ensures
        overlap_of(t, d, fill).data[tok * d + c] == fill,
{
    let ratio = t.shape[2];
    let wide = (2 * ratio) as usize;
    let (b, nb) = (t.shape[0], t.shape[1]);
    lemma_cube4(b, nb, wide, d);
    let p = tok * d + c;
    lemma_flat(tok, c, wide as int, d as int);
    vstd::arithmetic::div_mod::lemma_small_mod(tok as nat, wide as nat);
    vstd::arithmetic::div_mod::lemma_basic_div(tok, wide as int);
    assert(wide * d <= b * nb * wide * d) by (nonlinear_arith)
        requires
            b >= 1,
            nb >= 1,
            wide >= 0,
            d >= 0,
    ;
    vstd::arithmetic::div_mod::lemma_small_mod(0, nb as nat);
}

// --- compression ----------------------------------------------------------------------------

/// The learned compressor: pools each block of `compress_ratio` tokens into one key by a gated
/// softmax, RMS-norms it and rotates its tail at the block's first position. At ratio 4 the blocks
/// overlap: the projections are twice as wide and each block also pools its predecessor's tokens.
pub struct Compressor {
    /// `[coff * head_dim, dim]`, where `coff` is 2 if the blocks overlap and 1 otherwise.
    pub wkv: Tensor,
    /// `[coff * head_dim, dim]`: the gates.
    pub wgate: Tensor,
    /// `[ratio, coff * head_dim]`: position embedding within a block, added to the gates.
    pub ape: Tensor,
    /// `[head_dim]`: the gain of the RMS norm.
    pub norm: Tensor,
    pub compress_ratio: usize,
    pub head_dim: usize,
    pub rope_head_dim: usize,
    pub eps: u64,
}

impl Compressor {
    /// A block holds at least one token, and the rotated tail is part of the head.
    pub open spec fn wf(self) -> bool {
        self.compress_ratio > 0 && self.rope_head_dim <= self.head_dim
    }

    /// Ratio 4 selects the overlapping form.
    pub open spec fn overlaps(self) -> bool {
        self.compress_ratio == 4
    }

    /// The width of the projections.
    pub open spec fn width(self) -> int {
        if self.overlaps() {
            2 * self.head_dim
        } else {
            self.head_dim as int
        }
    }
}

/// The shape `to`, if a tensor of the first shape can be reshaped to it.
pub open spec fn then_reshape(from: Option<Seq<usize>>, to: Seq<usize>) -> Option<Seq<usize>> {
    match from {
        Some(s) => if fits(to) && product(to) == product(s) {
            Some(to)
        } else {
            None
        },
        None => None,
    }
}

/// The number of whole blocks in a sequence.
pub open spec fn block_count(s: usize, ratio: usize) -> usize {
    (s as int / ratio as int) as usize
}

/// The first positions of the blocks: `0, ratio, 2 · ratio, ..`.
pub open spec fn block_positions(nb: usize, ratio: usize) -> Seq<usize> {
    Seq::new(nb as nat, |i: int| (i * ratio) as usize)
}

/// The shape of the pooled and normed blocks, if every step up to there succeeds.
pub open spec fn pooled_shape(c: Compressor, x: Seq<usize>) -> Option<Seq<usize>> {
    let (b, nb, ratio, d) = (
        x[0],
        block_count(x[1], c.compress_ratio),
        c.compress_ratio,
        c.head_dim,
    );
    let width = c.width() as usize;
    let wide = shape4(b, nb, ratio, width);
    let windows = if c.overlaps() {
        shape4(b, nb, 8, d)
    } else {
        wide
    };
    if x.len() == 3 && c.width() <= usize::MAX && then_reshape(
        linear_shape(x, c.wkv@.shape),
        wide,
    ) is Some && then_reshape(Some(c.ape@.shape), shape4(1, 1, ratio, width)) is Some
        && then_reshape(linear_shape(x, c.wgate@.shape), wide) is Some && (c.overlaps() ==> nb >= 1)
        && fits(windows) && product(windows) > 0 {
        rms_norm_shape(shape3(b, nb, d), Some(c.norm@.shape))
    } else {
        None
    }
}

/// The shape of the compressed keys, if every step succeeds.
pub open spec fn compress_shape(c: Compressor, x: Seq<usize>, table: Seq<usize>) -> Option<
    Seq<usize>,
> {
    let (b, nb, d) = (x[0], block_count(x[1], c.compress_ratio), c.head_dim);
    match pooled_shape(c, x) {
        Some(p) => if c.rope_head_dim == 0 {
            Some(p)
        } else if then_reshape(Some(p), shape4(b, nb, 1, d)) is Some && tail_at_ok(
            shape4(b, nb, 1, d),
            table,
            block_positions(nb, c.compress_ratio),
            c.rope_head_dim,
        ) {
            then_reshape(Some(shape4(b, nb, 1, d)), shape3(b, nb, d))
        } else {
            None
        },
        None => None,
    }
}

/// The tensors between input and output of the compressor.
pub struct CompressSteps {
    pub kv_flat: V,
    pub kv: V,
    pub gate_flat: V,
    pub gates: V,
    pub pooled: V,
    pub normed: V,
    pub turned: V,
}

/// Projection, gated pooling of each block, RMS norm, and rotation at the block's first position.
pub open spec fn compress_steps(
    c: Compressor,
    x: V,
    rope: RopeView,
    t: CompressSteps,
    y: V,
) -> bool {
    let (b, nb, ratio, d) = (
        x.shape[0],
        block_count(x.shape[1], c.compress_ratio),
        c.compress_ratio,
        c.head_dim,
    );
    let width = c.width() as usize;
    let wide = shape4(b, nb, ratio, width);
    let positions = block_positions(nb, ratio);
    &&& linear_gives(x, c.wkv@, t.kv_flat)
    &&& t.kv == reshaped(t.kv_flat, wide)
    &&& linear_gives(x, c.wgate@, t.gate_flat)
    &&& combined(
        Binary::Add,
        reshaped(t.gate_flat, wide),
        reshaped(c.ape@, shape4(1, 1, ratio, width)),
        t.gates,
    )
    &&& if c.overlaps() {
        pool_gives(overlap_of(t.kv, d, ZERO), overlap_of(t.gates, d, NEG_INFINITY), t.pooled)
    } else {
        pool_gives(t.kv, t.gates, t.pooled)
    }
    &&& rms_norm_gives(t.pooled, Some(c.norm@), c.eps, t.normed)
    &&& if c.rope_head_dim == 0 {
        y == t.normed
    } else {
        &&& tail_rotated(
            reshaped(t.normed, shape4(b, nb, 1, d)),
            rows_looked_up(rope.cos, positions).data,
            rows_looked_up(rope.sin, positions).data,
            c.rope_head_dim as int,
            false,
            t.turned,
        )
        &&& y == reshaped(t.turned, shape3(b, nb, d))
    }
}

#[verifier::opaque]
pub open spec fn compress_gives(c: Compressor, x: V, rope: RopeView, y: V) -> bool {
    exists|t: CompressSteps| compress_steps(c, x, rope, t, y)
}

/// The positions `0, ratio, 2 · ratio, ..` of `nb` blocks.
fn strided(nb: usize, ratio: usize) -> (r: Vec<usize>)
    requires
        nb * ratio <= usize::MAX,
    ensures
        r@ == block_positions(nb, ratio),
{
    let ghost want = block_positions(nb, ratio);
    let mut r: Vec<usize> = Vec::new();
    let mut i: usize = 0;
    while i < nb
        invariant
            i <= nb,
            nb * ratio <= usize::MAX,
            want == block_positions(nb, ratio),
            r@ == want.take(i as int),
        decreases nb - i,
    {
        assert(0 <= i * ratio <= nb * ratio) by (nonlinear_arith)
            requires
                i <= nb,
        ;
        r.push(i * ratio);
        i = i + 1;
        assert(want.take(i as int) =~= want.take(i - 1).push(want[i - 1]));
    }
    assert(want.take(i as int) =~= want);
    r
}

impl Compressor {
    /// `x` (`[b, s, dim]`) to compressed keys `[b, s / ratio, head_dim]`.
    pub fn compress(&self, x: &Tensor, rope: &Rope) -> (r: Result<Tensor, TensorError>)
        requires
            self.wf(),
        ensures
            rope@.wf(),
            r is Ok <==> compress_shape(*self, x@.shape, rope@.cos.shape) is Some,
            r matches Ok(y) ==> y@.wf() && Some(y@.shape) == compress_shape(
                *self,
                x@.shape,
                rope@.cos.shape,
            ) && compress_gives(*self, x@, rope@, y@),
            r matches Err(e) ==> e == TensorError::Shape,
    {
        let _ = rope.cos();
        let (b, s, _) = x.dims3()?;
        let (ratio, d, rd): (usize, usize, usize) = (
            self.compress_ratio,
            self.head_dim,
            self.rope_head_dim,
        );
        let nb: usize = s / ratio;
        let overlap: bool = ratio == 4;
        let width: usize = if overlap {
            match d.checked_mul(2) {
                Some(v) => v,
                None => {
                    return Err(TensorError::Shape);
                },
            }
        } else {
            d
        };
        let ghost wide = shape4(b, nb, ratio, width);
        let ghost row = shape4(1, 1, ratio, width);
        let kv_flat = ops::linear(x, &self.wkv)?;
        let kv = kv_flat.reshape(axes4(b, nb, ratio, width))?;
        let ape = self.ape.reshape(axes4(1, 1, ratio, width))?;
        let gate_flat = ops::linear(x, &self.wgate)?;
        let gate = gate_flat.reshape(axes4(b, nb, ratio, width))?;
        proof {
            lemma_expands_axes(row, wide);
            lemma_broadcast_into(row, wide);
        }
        let gates = ops::broadcast_add(&gate, &ape)?;
        let pooled = if overlap {
            let values = overlap_windows(&kv, d, ZERO)?;
            let scores = overlap_windows(&gates, d, NEG_INFINITY)?;
            gated_pool(&values, &scores)?
        } else {
            gated_pool(&kv, &gates)?
        };
        proof {
            assert(shape4(b, nb, 8, d).remove(2) =~= shape3(b, nb, d));
            assert(shape4(b, nb, ratio, d).remove(2) =~= shape3(b, nb, d));
        }
        let normed = rms_norm(&pooled, Some(&self.norm), self.eps)?;
        if rd == 0 {
            proof {
                let t = CompressSteps {
                    kv_flat: kv_flat@,
                    kv: kv@,
                    gate_flat: gate_flat@,
                    gates: gates@,
                    pooled: pooled@,
                    normed: normed@,
                    turned: normed@,
                };
                reveal(compress_gives);
                assert(compress_steps(*self, x@, rope@, t, normed@));
            }
            return Ok(normed);
        }
        let lanes = normed.reshape(axes4(b, nb, 1, d))?;
        assert(nb * ratio <= s) by (nonlinear_arith)
            requires
                nb == s / ratio,
                ratio > 0,
        ;
        let positions = strided(nb, ratio);
        let turned = rope_tail_at(rope, &lanes, &positions, rd)?;
        let y = turned.reshape(axes3(b, nb, d))?;
        proof {
            let t = CompressSteps {
                kv_flat: kv_flat@,
                kv: kv@,
                gate_flat: gate_flat@,
                gates: gates@,
                pooled: pooled@,
                normed: normed@,
                turned: turned@,
            };
            reveal(compress_gives);
            assert(compress_steps(*self, x@, rope@, t, y@));
        }
        Ok(y)
    }
}

// --- learned selection ----------------------------------------------------------------------

/// The learned block selector: scores every compressed block against each query through a small
/// attention of its own and keeps the `index_topk` highest of the visible ones. The score of block
/// `t` for query `i` is `Σ_h relu(q[i,h] · kv[t]) · weight[i,h]`.
pub struct Indexer {
    /// `[n_heads * head_dim, q_lora_rank]`: the queries, from the low-rank query.
    pub wq_b: Tensor,
    /// `[n_heads, dim]`: the weight of each head, from the input.
    pub weights_proj: Tensor,
    /// The selector's own compressor.
    pub compressor: Compressor,
    pub n_heads: usize,
    pub head_dim: usize,
    pub rope_head_dim: usize,
    /// How many blocks to keep per query.
    pub index_topk: usize,
    pub compress_ratio: usize,
    /// `head_dim^-0.5`; the head weights are further scaled by `n_heads^-0.5`.
    pub scale: u64,
}

impl Indexer {
    pub open spec fn wf(self) -> bool {
        &&& self.compressor.wf()
        &&& self.compress_ratio > 0
        &&& self.rope_head_dim <= self.head_dim
        &&& self.n_heads <= i64::MAX
    }
}

/// How many blocks lie wholly at or before query `i`.
pub open spec fn visible_blocks(i: int, ratio: int) -> int {
    (i + 1) / ratio
}

/// Slots `0 .. k` of row `p` hold the listed blocks at their place behind the `offset` window keys,
/// then empty slots.
pub open spec fn row_holds(out: Seq<i64>, p: int, k: int, offset: int, r: Seq<usize>) -> bool {
    forall|j: int|
        0 <= j < k ==> #[trigger] out[p * k + j] == (if j < r.len() {
            (r[j] + offset) as i64
        } else {
            EMPTY
        })
}

/// Row `p` of the selection keeps the `k` best of the visible blocks' scores.
pub open spec fn row_selected(
    score: Seq<u32>,
    s: int,
    nb: int,
    ratio: int,
    k: int,
    out: Seq<i64>,
    p: int,
) -> bool {
    exists|r: Seq<usize>|
        #[trigger] top_k_of(
            score.subrange(p * nb, p * nb + visible_blocks(p % s, ratio)),
            k,
            r,
        ) && row_holds(out, p, k, s, r)
}

/// Every query's row is selected by its scores.
pub open spec fn selected(
    score: Seq<u32>,
    b: usize,
    s: usize,
    nb: usize,
    ratio: usize,
    k: usize,
    out: IndexView,
) -> bool {
    &&& score.len() == b * s * nb
    &&& out.shape == shape3(b, s, k)
    &&& out.data.len() == b * s * k
    &&& forall|p: int|
        0 <= p < b * s ==> #[trigger] row_selected(
            score,
            s as int,
            nb as int,
            ratio as int,
            k as int,
            out.data,
            p,
        )
}

/// Whether every step of the selection succeeds.
pub open spec fn select_ok(ix: Indexer, x: Seq<usize>, qr: Seq<usize>, table: Seq<usize>) -> bool {
    let (b, s, h, hd) = (x[0], x[1], ix.n_heads, ix.head_dim);
    let nb = block_count(s, ix.compress_ratio);
    let heads = shape4(b, s, h, hd);
    let kv = compress_shape(ix.compressor, x, table);
    let w = linear_shape(x, ix.weights_proj@.shape);
    &&& x.len() == 3
    &&& then_reshape(linear_shape(qr, ix.wq_b@.shape), heads) is Some
    &&& ix.rope_head_dim > 0 ==> tail_at_ok(heads, table, block_positions(s, 1), ix.rope_head_dim)
    &&& kv is Some
    &&& kv.unwrap().len() >= 3
    &&& w is Some
    &&& then_reshape(
        matmul_shape(shape3(b, (s * h) as usize, hd), swap_shape(kv.unwrap(), 1)),
        shape4(b, s, h, nb),
    ) is Some
    &&& combined_shape(shape4(b, s, h, nb), w.unwrap().push(1)) is Some
    &&& fits(shape3(b, s, kept_blocks(ix, s)))
    &&& s + nb <= i64::MAX
}

/// How many slots each row of the selection has.
pub open spec fn kept_blocks(ix: Indexer, s: usize) -> usize {
    let nb = block_count(s, ix.compress_ratio);
    if ix.index_topk <= nb {
        ix.index_topk
    } else {
        nb
    }
}

/// A shape with two neighbouring axes exchanged.
pub open spec fn swap_shape(s: Seq<usize>, axis: int) -> Seq<usize> {
    s.update(axis, s[axis + 1]).update(axis + 1, s[axis])
}

/// What the selection computes before it picks.
pub struct SelectSteps {
    pub q_flat: V,
    pub q: V,
    pub compressed: V,
    pub root: u64,
    pub factor: u64,
    pub weights_flat: V,
    pub weights: V,
    pub products: V,
    pub scores: V,
    pub weighted: V,
    pub total: V,
    pub score: V,
}

/// The rotated queries, the compressed keys and the weight of every head.
#[verifier::opaque]
pub open spec fn select_inputs(ix: Indexer, x: V, qr: V, rope: RopeView, t: SelectSteps) -> bool {
    let (b, s, h, hd) = (x.shape[0], x.shape[1], ix.n_heads, ix.head_dim);
    let heads = shape4(b, s, h, hd);
    let positions = block_positions(s, 1);
    &&& linear_gives(qr, ix.wq_b@, t.q_flat)
    &&& if ix.rope_head_dim > 0 {
        tail_rotated(
            reshaped(t.q_flat, heads),
            rows_looked_up(rope.cos, positions).data,
            rows_looked_up(rope.sin, positions).data,
            ix.rope_head_dim as int,
            false,
            t.q,
        )
    } else {
        t.q == reshaped(t.q_flat, heads)
    }
    &&& compress_gives(ix.compressor, x, rope, t.compressed)
    &&& dpow_gives(dint(h as i64), DOUBLE_MINUS_HALF, t.root)
    &&& double_agrees(t.factor, dmul(ix.scale, t.root))
    &&& linear_gives(x, ix.weights_proj@, t.weights_flat)
    &&& mapped(Unary::Affine(t.factor, DOUBLE_ZERO), t.weights_flat, t.weights)
}

/// The score of every block for every query: the weighted sum over the heads of what is positive in
/// the products of query and key.
pub open spec fn select_steps(ix: Indexer, x: V, qr: V, rope: RopeView, t: SelectSteps) -> bool {
    let (b, s, h, hd) = (x.shape[0], x.shape[1], ix.n_heads, ix.head_dim);
    let nb = block_count(s, ix.compress_ratio);
    &&& select_inputs(ix, x, qr, rope, t)
    &&& multiplied(
        reshaped(t.q, shape3(b, (s * h) as usize, hd)),
        swapped(t.compressed, 1),
        t.products,
    )
    &&& mapped(Unary::Relu, reshaped(t.products, shape4(b, s, h, nb)), t.scores)
    &&& combined(Binary::Mul, t.scores, unsqueezed(t.weights, 3), t.weighted)
    &&& reduced(Reduce::Sum, 2, t.weighted, t.total)
    &&& t.score == squeezed(t.total, 2)
}

/// The scores of every block, and for each query the best of the visible ones.
pub open spec fn select_gives(ix: Indexer, x: V, qr: V, rope: RopeView, out: IndexView) -> bool {
    exists|t: SelectSteps|
        #[trigger] select_steps(ix, x, qr, rope, t) && selected(
            t.score.data,
            x.shape[0],
            x.shape[1],
            block_count(x.shape[1], ix.compress_ratio),
            ix.compress_ratio,
            kept_blocks(ix, x.shape[1]),
            out,
        )
}

/// Writes the selected blocks of every query as cache indices.
pub fn pick_blocks(score: &Vec<u32>, b: usize, s: usize, nb: usize, ratio: usize, k: usize) -> (r: Result<
    Indices,
    TensorError,
>)
    requires
        ratio > 0,
        nb == s / ratio,
        score@.len() == b * s * nb,
        s + nb <= i64::MAX,
    ensures
        r is Ok <==> fits(shape3(b, s, k)),
        r matches Ok(out) ==> out@.wf() && selected(score@, b, s, nb, ratio, k, out@),
        r matches Err(e) ==> e == TensorError::Shape,
{
    let shape = axes3(b, s, k);
    if !check_fits(&shape) {
        return Err(TensorError::Shape);
    }
    let total: usize = count(&shape, 0, 3);
    let stored: usize = score.len();
    let rows: usize = count(&shape, 0, 2);
    proof {
        assert(shape@.subrange(0, 3) =~= shape@);
        assert(shape@.subrange(0, 2) =~= shape2(b, s));
        lemma_cube(b, s, k);
        lemma_grid(b, s);
    }
    let mut data: Vec<i64> = Vec::new();
    let mut p: usize = 0;
    while p < rows
        invariant
            ratio > 0,
            nb == s / ratio,
            s + nb <= i64::MAX,
            rows == b * s,
            score@.len() == rows * nb,
            score@.len() == stored,
            total == rows * k,
            p <= rows,
            data@.len() == p * k,
            forall|u: int|
                0 <= u < p ==> #[trigger] row_selected(
                    score@,
                    s as int,
                    nb as int,
                    ratio as int,
                    k as int,
                    data@,
                    u,
                ),
        decreases rows - p,
    {
        proof {
            lemma_divide(p as int, b as int, s as int);
        }
        let visible: usize = (p % s + 1) / ratio;
        proof {
            vstd::arithmetic::div_mod::lemma_div_is_ordered(
                p as int % s as int + 1,
                s as int,
                ratio as int,
            );
            assert(p * nb + nb <= rows * nb) by (nonlinear_arith)
                requires
                    p + 1 <= rows,
                    nb >= 0,
            ;
            assert(p * nb >= 0) by (nonlinear_arith);
            assert(p * k + k == (p + 1) * k) by (nonlinear_arith);
            assert((p + 1) * k <= rows * k) by (nonlinear_arith)
                requires
                    p + 1 <= rows,
            ;
        }
        let best = top_k(score, p * nb, visible, k);
        let ghost before = data@;
        assert(visible == visible_blocks(p as int % s as int, ratio as int));
        let mut j: usize = 0;
        while j < k
            invariant
                s + nb <= i64::MAX,
                best@.len() <= visible <= nb,
                forall|a: int| 0 <= a < best@.len() ==> #[trigger] best@[a] < visible,
                j <= k,
                before.len() == p * k,
                data@.len() == p * k + j,
                before == data@.take(p * k),
                forall|i: int|
                    0 <= i < j ==> #[trigger] data@[p * k + i] == (if i < best@.len() {
                        (best@[i] + s) as i64
                    } else {
                        EMPTY
                    }),
            decreases k - j,
        {
            let v: i64 = if j < best.len() {
                (best[j] as u64 + s as u64) as i64
            } else {
                EMPTY
            };
            let ghost prior = data@;
            data.push(v);
            j = j + 1;
            assert(data@.take(p * k) =~= prior.take(p * k));
        }
        proof {
            assert(row_holds(data@, p as int, k as int, s as int, best@));
            assert(top_k_of(
                score@.subrange(
                    p * nb,
                    p * nb + visible_blocks(p as int % s as int, ratio as int),
                ),
                k as int,
                best@,
            ));
            assert(row_selected(
                score@,
                s as int,
                nb as int,
                ratio as int,
                k as int,
                data@,
                p as int,
            ));
            assert forall|u: int| 0 <= u < p implies #[trigger] row_selected(
                score@,
                s as int,
                nb as int,
                ratio as int,
                k as int,
                data@,
                u,
            ) by {
                assert(row_selected(
                    score@,
                    s as int,
                    nb as int,
                    ratio as int,
                    k as int,
                    before,
                    u,
                ));
                let r = choose|r: Seq<usize>|
                    #[trigger] top_k_of(
                        score@.subrange(
                            u * nb,
                            u * nb + visible_blocks(u % s as int, ratio as int),
                        ),
                        k as int,
                        r,
                    ) && row_holds(before, u, k as int, s as int, r);
                assert forall|i: int| 0 <= i < k implies #[trigger] data@[u * k + i] == (if i
                    < r.len() {
                    (r[i] + s) as i64
                } else {
                    EMPTY
                }) by {
                    lemma_flat(u, i, p as int, k as int);
                    assert(before[u * k + i] == data@[u * k + i]);
                }
                assert(row_holds(data@, u, k as int, s as int, r));
            }
        }
        p = p + 1;
    }
    Indices::new(shape, data)
}

/// Head scores times head weights have one entry per query, head and block.
proof fn lemma_score_count(b: usize, s: usize, h: usize, nb: usize, heads: usize)
    requires
        combined_shape(shape4(b, s, h, nb), shape4(b, s, heads, 1)) is Some,
    ensures
        ({
            let z = combined_shape(shape4(b, s, h, nb), shape4(b, s, heads, 1)).unwrap();
            z.len() == 4 && crate::shape::outer(z, 2) * crate::shape::inner(z, 2) == b * s * nb
        }),
{
    let x = shape4(b, s, h, nb);
    let y = shape4(b, s, heads, 1);
    let z = combined_shape(x, y).unwrap();
    assert(x.drop_last() =~= shape3(b, s, h));
    assert(y.drop_last() =~= shape3(b, s, heads));
    assert(x.drop_last().drop_last() =~= shape2(b, s));
    assert(y.drop_last().drop_last() =~= shape2(b, s));
    crate::shape::lemma_broadcast_self(shape2(b, s));
    reveal_with_fuel(crate::shape::broadcast_shape, 3);
    assert(z.take(2) =~= shape2(b, s));
    assert(z.skip(3) =~= seq![nb]);
    lemma_grid(b, s);
    assert(seq![nb].drop_last() =~= Seq::<usize>::empty());
    reveal_with_fuel(product, 2);
    assert(1 * (nb as nat) == nb as nat);
}

impl Indexer {
    /// `x` (`[b, s, dim]`) and the low-rank query `qr` (`[b, s, q_lora_rank]`) to the selected blocks
    /// `[b, s, min(index_topk, s / ratio)]`, each as the cache index `block + s`, or `-1`.
    pub fn select(&self, x: &Tensor, qr: &Tensor, rope: &Rope) -> (r: Result<Indices, TensorError>)
        requires
            self.wf(),
            qr@.shape.len() > 0,
        ensures
            rope@.wf(),
            r is Ok <==> select_ok(*self, x@.shape, qr@.shape, rope@.cos.shape),
            r matches Ok(out) ==> out@.wf() && out@.shape == shape3(
                x@.shape[0],
                x@.shape[1],
                kept_blocks(*self, x@.shape[1]),
            ) && select_gives(*self, x@, qr@, rope@, out@),
            r matches Err(e) ==> e == TensorError::Shape,
    {
        let _ = rope.cos();
        let (b, s, _) = x.dims3()?;
        let (h, hd, rd, ratio): (usize, usize, usize, usize) = (
            self.n_heads,
            self.head_dim,
            self.rope_head_dim,
            self.compress_ratio,
        );
        let nb: usize = s / ratio;
        let k: usize = if self.index_topk <= nb {
            self.index_topk
        } else {
            nb
        };
        let ghost heads = shape4(b, s, h, hd);
        let q_flat = ops::linear(qr, &self.wq_b)?;
        let q_heads = q_flat.reshape(axes4(b, s, h, hd))?;
        let q = if rd > 0 {
            let positions = strided(s, 1);
            rope_tail_at(rope, &q_heads, &positions, rd)?
        } else {
            q_heads.duplicate()
        };
        let compressed = self.compressor.compress(x, rope)?;
        let root: u64 = double::powf(whole_of(h as i64), DOUBLE_MINUS_HALF);
        let factor: u64 = product_of(self.scale, root);
        let weights_flat = ops::linear(x, &self.weights_proj)?;
        let weights = ops::affine(&weights_flat, factor, DOUBLE_ZERO);
        proof {
            crate::shape::lemma_merged(heads, 1);
            assert(crate::shape::merged(heads, 1) =~= shape3(b, (s * h) as usize, hd));
        }
        let lanes = q.reshape(axes3(b, s * h, hd))?;
        let across = compressed.swap_axes(1)?;
        let products = ops::matmul(&lanes, &across)?;
        let grid = products.reshape(axes4(b, s, h, nb))?;
        let scores = ops::relu(&grid);
        let column = weights.unsqueeze(3)?;
        proof {
            let w = weights@.shape;
            assert(w =~= shape3(b, s, w[2]));
            assert(column@.shape =~= shape4(b, s, w[2], 1));
            assert(w.push(1) =~= column@.shape);
        }
        let weighted = ops::broadcast_mul(&scores, &column)?;
        proof {
            lemma_score_count(b, s, h, nb, weights@.shape[2]);
        }
        let total = ops::sum_keepdim(&weighted, 2)?;
        let score = total.squeeze(2)?;
        if s as u64 > i64::MAX as u64 || nb as u64 > i64::MAX as u64 - s as u64 {
            return Err(TensorError::Shape);
        }
        let out = pick_blocks(score.data(), b, s, nb, ratio, k)?;
        proof {
            let t = SelectSteps {
                q_flat: q_flat@,
                q: q@,
                compressed: compressed@,
                root,
                factor,
                weights_flat: weights_flat@,
                weights: weights@,
                products: products@,
                scores: scores@,
                weighted: weighted@,
                total: total@,
                score: score@,
            };
            reveal(select_inputs);
            assert(select_steps(*self, x@, qr@, rope@, t));
        }
        Ok(out)
    }
}

/// A selection names only blocks that lie wholly at or before the query, none twice, and fills as
/// many slots as it can.
pub proof fn law_selection_is_causal(
    score: Seq<u32>,
    b: usize,
    s: usize,
    nb: usize,
    ratio: usize,
    k: usize,
    out: IndexView,
    p: int,
    j: int,
)
    requires
        ratio > 0,
        nb == s as int / ratio as int,
        s + nb <= i64::MAX,
        selected(score, b, s, nb, ratio, k, out),
        0 <= p < b * s,
        0 <= j < k,
    ensures
        out.data[p * k + j] == EMPTY <==> j >= visible_blocks(p % s as int, ratio as int),
        out.data[p * k + j] != EMPTY ==> {
            let block = out.data[p * k + j] - s;
            &&& 0 <= block < nb
            &&& (block + 1) * ratio <= p % s as int + 1
        },
        forall|i: int|
            0 <= i < j && out.data[p * k + j] != EMPTY ==> #[trigger] out.data[p * k + i]
                != out.data[p * k + j],
{
    assert(row_selected(score, s as int, nb as int, ratio as int, k as int, out.data, p));
    let vis = visible_blocks(p % s as int, ratio as int);
    let sub = score.subrange(p * nb, p * nb + vis);
    let r = choose|r: Seq<usize>|
        #[trigger] top_k_of(sub, k as int, r) && row_holds(
            out.data,
            p,
            k as int,
            s as int,
            r,
        );
    lemma_divide(p, b as int, s as int);
    let i0 = p % s as int;
    vstd::arithmetic::div_mod::lemma_div_is_ordered(i0 + 1, s as int, ratio as int);
    vstd::arithmetic::div_mod::lemma_div_pos_is_pos(i0 + 1, ratio as int);
    assert(0 <= p * nb && p * nb + nb <= score.len()) by (nonlinear_arith)
        requires
            0 <= p,
            p + 1 <= b * s,
            score.len() == b * s * nb,
            nb >= 0,
    ;
    assert(sub.len() == vis);
    assert(out.data[p * k + j] == (if j < r.len() {
        (r[j] + s) as i64
    } else {
        EMPTY
    }));
    if j < r.len() {
        let block = r[j] as int;
        assert((block + 1) * ratio <= i0 + 1) by (nonlinear_arith)
            requires
                block < (i0 + 1) / (ratio as int),
                ratio > 0,
        ;
        assert forall|i: int| 0 <= i < j implies #[trigger] out.data[p * k + i]
            != out.data[p * k + j] by {
            assert(r[i] != r[j]);
            assert(out.data[p * k + i] == (r[i] + s) as i64);
        }
    }
}

/// The scores of blocks that reach beyond a query do not matter to its selection: what they hold can
/// change without changing any choice.
pub proof fn law_selection_ignores_the_future(
    one: Seq<u32>,
    two: Seq<u32>,
    b: usize,
    s: usize,
    nb: usize,
    ratio: usize,
    k: usize,
    out: IndexView,
)
    requires
        ratio > 0,
        nb == s as int / ratio as int,
        one.len() == two.len(),
        forall|p: int, c: int|
            0 <= p < b * s && 0 <= c < visible_blocks(p % s as int, ratio as int)
                ==> #[trigger] block_score(one, nb as int, p, c) == block_score(
                two,
                nb as int,
                p,
                c,
            ),
    ensures
        selected(one, b, s, nb, ratio, k, out) <==> selected(two, b, s, nb, ratio, k, out),
{
    if one.len() == b * s * nb {
        assert forall|p: int|
            #![trigger row_selected(one, s as int, nb as int, ratio as int, k as int, out.data, p)]
            #![trigger row_selected(two, s as int, nb as int, ratio as int, k as int, out.data, p)]
            0 <= p < b * s implies row_selected(
            one,
            s as int,
            nb as int,
            ratio as int,
            k as int,
            out.data,
            p,
        ) == row_selected(two, s as int, nb as int, ratio as int, k as int, out.data, p) by {
            let vis = visible_blocks(p % s as int, ratio as int);
            lemma_divide(p, b as int, s as int);
            vstd::arithmetic::div_mod::lemma_div_is_ordered(
                p % s as int + 1,
                s as int,
                ratio as int,
            );
            vstd::arithmetic::div_mod::lemma_div_pos_is_pos(p % s as int + 1, ratio as int);
            assert(0 <= p * nb && p * nb + nb <= one.len()) by (nonlinear_arith)
                requires
                    0 <= p,
                    p + 1 <= b * s,
                    one.len() == b * s * nb,
                    nb >= 0,
            ;
            let (x, y) = (
                one.subrange(p * nb, p * nb + vis),
                two.subrange(p * nb, p * nb + vis),
            );
            assert forall|c: int| 0 <= c < vis implies x[c] == y[c] by {
                assert(block_score(one, nb as int, p, c) == block_score(two, nb as int, p, c));
            }
            assert(x =~= y);
        }
    }
}

/// The score of block `c` for query row `p`.
pub open spec fn block_score(score: Seq<u32>, nb: int, p: int, c: int) -> u32 {
    score[p * nb + c]
}

} // verus!
