//! Multi-head Latent Attention with a learnable softmax sink.
//!
//! ```text
//! o[b,i,h,:] = Σ_j  w[b,h,i,j] · kv[b,j,:]
//! w[b,h,i,j] = exp(s_ij - m) / ( Σ_k exp(s_ik - m) + exp(sink[h] - m) )
//! s_ij       = scale · (q[b,i,h,:] · kv[b,j,:])
//! ```
//!
//! The sink stands in the denominator only, so a query can attend to nothing. Key and value are the
//! same single latent `kv`, shared by all query heads.

use vstd::prelude::*;

use crate::bits::{DOUBLE_ZERO, NEG_INFINITY, ZERO};
use crate::error::TensorError;
use crate::nn::rms_norm;
use crate::ops;
use crate::rope::{rope_tail, Rope};
use crate::shape::{axes3, axes4, check_fits, count};
use crate::sparse::{compress_topk_idxs, window_topk_idxs, Compressor, Indexer};
use crate::tensor::{Indices, Tensor};

#[allow(unused_imports)]
use crate::nn::{rms_norm_gives, rms_norm_shape};
#[allow(unused_imports)]
use crate::ops::{
    combined, linear_gives, linear_shape, mapped, multiplied, paired, reduced, Binary, Reduce,
    Unary,
};
#[allow(unused_imports)]
use crate::rope::{rows_from, tail_ok, tail_rotated, RopeView};
#[allow(unused_imports)]
use crate::shape::{
    broadcast_shape, expands, fits, inner, lemma_broadcast_into, lemma_broadcast_keepdim,
    lemma_cube4, lemma_divide, lemma_expands_axes, lemma_flat, product, shape2, shape3, shape4,
    source_index, span,
};
#[allow(unused_imports)]
use crate::sparse::{
    block_count, compress_gives, compress_idxs_of, compress_shape, kept_blocks, law_compressed_keys,
    law_selection_is_causal, law_window_keys, row_lists, select_gives, select_ok, select_steps,
    selected, then_reshape, window_idxs_of, window_start, SelectSteps,
};
#[allow(unused_imports)]
use crate::tensor::{cat_ok, expanded, joined, reshaped, swapped, unsqueezed, IndexView, NdView, V};

verus! {

/// The additive causal mask of `s` queries that align to the last of `n` keys: zero where query
/// `i` attends to key `j <= i + (n - s)`, minus infinity elsewhere.
pub open spec fn causal_mask_of(s: usize, n: usize) -> V {
    NdView {
        shape: shape4(1, 1, s, n),
        data: Seq::new(
            (s * n) as nat,
            |p: int|
                if p % n as int > p / n as int + (n - s) {
                    NEG_INFINITY
                } else {
                    ZERO
                },
        ),
    }
}

/// Key `j` is listed for query row `row`.
pub open spec fn listed(idxs: IndexView, row: int, j: int) -> bool {
    exists|t: int|
        0 <= t < idxs.shape[2] && #[trigger] idxs.data[row * idxs.shape[2] + t] == j
}

/// The additive mask of an index set: zero at the listed keys, minus infinity elsewhere.
pub open spec fn sparse_mask_of(b: usize, s: usize, n: usize, idxs: IndexView) -> V {
    NdView {
        shape: shape4(b, 1, s, n),
        data: Seq::new(
            (b * s * n) as nat,
            |p: int|
                if listed(idxs, p / n as int, p % n as int) {
                    ZERO
                } else {
                    NEG_INFINITY
                },
        ),
    }
}

/// Sink attention is defined for a `[b, s, h, d]` query, a latent that repeats to `[b, h, n, d]`, a
/// sink per head, and at least one score.
pub open spec fn attn_ok(q: Seq<usize>, kv: Seq<usize>, sink: Seq<usize>) -> bool {
    &&& q.len() == 4
    &&& kv.len() >= 2
    &&& fits(shape4(q[0], q[2], kv[1], q[3]))
    &&& expands(kv.insert(1, 1), shape4(q[0], q[2], kv[1], q[3]))
    &&& fits(shape4(q[0], q[2], q[1], kv[1]))
    &&& product(shape4(q[0], q[2], q[1], kv[1])) > 0
    &&& product(sink) == q[2]
}

/// The tensors between input and output of sink attention.
pub struct AttnSteps {
    pub heads: V,
    pub keys: V,
    pub products: V,
    pub scaled: V,
    pub scores: V,
    pub top: V,
    pub shifted: V,
    pub powers: V,
    pub total: V,
    pub sink_shifted: V,
    pub sink_power: V,
    pub below: V,
    pub weights: V,
    pub mixed: V,
}

/// The weights of every query for every key, under an additive mask that is repeated over the heads.
#[verifier::opaque]
pub open spec fn weight_steps(
    q: V,
    kv: V,
    sink: V,
    scale: u64,
    mask: Option<V>,
    t: AttnSteps,
) -> bool {
    let h = q.shape[2];
    &&& t.heads == swapped(q, 1)
    &&& t.keys == expanded(unsqueezed(kv, 1), shape4(q.shape[0], h, kv.shape[1], q.shape[3]))
    &&& multiplied(t.heads, swapped(t.keys, 2), t.products)
    &&& mapped(Unary::Affine(scale, DOUBLE_ZERO), t.products, t.scaled)
    &&& match mask {
        Some(m) => combined(Binary::Add, t.scaled, m, t.scores),
        None => t.scores == t.scaled,
    }
    &&& reduced(Reduce::Max, 3, t.scores, t.top)
    &&& combined(Binary::Sub, t.scores, t.top, t.shifted)
    &&& mapped(Unary::Exp, t.shifted, t.powers)
    &&& reduced(Reduce::Sum, 3, t.powers, t.total)
    &&& combined(Binary::Sub, reshaped(sink, shape4(1, h, 1, 1)), t.top, t.sink_shifted)
    &&& mapped(Unary::Exp, t.sink_shifted, t.sink_power)
    &&& paired(Binary::Add, t.total, t.sink_power, t.below)
    &&& combined(Binary::Div, t.powers, t.below, t.weights)
}

/// Sink attention: each query gets the keys, weighted.
pub open spec fn attn_steps(
    q: V,
    kv: V,
    sink: V,
    scale: u64,
    mask: Option<V>,
    t: AttnSteps,
    o: V,
) -> bool {
    &&& weight_steps(q, kv, sink, scale, mask, t)
    &&& multiplied(t.weights, t.keys, t.mixed)
    &&& o == swapped(t.mixed, 1)
}

pub open spec fn attn_gives(q: V, kv: V, sink: V, scale: u64, mask: Option<V>, o: V) -> bool {
    exists|t: AttnSteps| attn_steps(q, kv, sink, scale, mask, t, o)
}

/// Builds the causal mask.
fn causal_mask(s: usize, n: usize) -> (r: Result<Tensor, TensorError>)
    requires
        s <= n,
    ensures
        r is Ok <==> fits(shape4(1, 1, s, n)),
        r matches Ok(m) ==> m@ == causal_mask_of(s, n) && m@.wf(),
        r matches Err(e) ==> e == TensorError::Shape,
{
    let shape = axes4(1, 1, s, n);
    if !check_fits(&shape) {
        return Err(TensorError::Shape);
    }
    let total: usize = count(&shape, 0, 4);
    proof {
        assert(shape@.subrange(0, 4) =~= shape@);
        lemma_cube4(1, 1, s, n);
        assert(1 * 1 * s * n == s * n) by (nonlinear_arith);
    }
    let offset: usize = n - s;
    let ghost want = causal_mask_of(s, n).data;
    let mut data: Vec<u32> = Vec::new();
    let mut p: usize = 0;
    while p < total
        invariant
            s <= n,
            offset == n - s,
            total == s * n,
            p <= total,
            want == causal_mask_of(s, n).data,
            want.len() == total,
            data@ == want.take(p as int),
        decreases total - p,
    {
        proof {
            lemma_divide(p as int, s as int, n as int);
        }
        let v: u32 = if p % n > p / n + offset {
            NEG_INFINITY
        } else {
            ZERO
        };
        data.push(v);
        p = p + 1;
        assert(want.take(p as int) =~= want.take(p - 1).push(want[p - 1]));
    }
    assert(want.take(p as int) =~= want);
    Tensor::new(shape, data)
}

/// One of the first `t` slots of query row `row` lists key `j`.
spec fn listed_before(idxs: IndexView, row: int, j: int, t: int) -> bool {
    exists|u: int| 0 <= u < t && #[trigger] idxs.data[row * idxs.shape[2] + u] == j
}

/// Builds the mask of an index set: every listed key of every query is opened.
fn sparse_mask(b: usize, s: usize, n: usize, idxs: &Indices) -> (r: Result<Tensor, TensorError>)
    requires
        idxs@.shape.len() == 3,
        b * s * idxs@.shape[2] <= idxs@.data.len(),
    ensures
        r is Ok <==> fits(shape4(b, 1, s, n)),
        r matches Ok(m) ==> m@ == sparse_mask_of(b, s, n, idxs@) && m@.wf(),
        r matches Err(e) ==> e == TensorError::Shape,
{
    let shape = axes4(b, 1, s, n);
    if !check_fits(&shape) {
        return Err(TensorError::Shape);
    }
    let total: usize = count(&shape, 0, 4);
    proof {
        assert(shape@.subrange(0, 4) =~= shape@);
        lemma_cube4(b, 1, s, n);
        assert(b * 1 * s * n == b * s * n) by (nonlinear_arith);
    }
    let mut data: Vec<u32> = vec![NEG_INFINITY; total];
    let ghost rows: int = b * s;
    if total > 0 {
        proof {
            lemma_divide(0, rows, n as int);
            assert(rows <= rows * n) by (nonlinear_arith)
                requires
                    n >= 1,
                    rows >= 0,
            ;
        }
        open_listed(&mut data, b * s, n, idxs);
    }
    let ghost want = sparse_mask_of(b, s, n, idxs@).data;
    assert(data@ =~= want);
    Tensor::new(shape, data)
}

/// Opens the listed keys of every query row of a closed mask.
fn open_listed(data: &mut Vec<u32>, rows: usize, n: usize, idxs: &Indices)
    requires
        n > 0,
        idxs@.shape.len() == 3,
        rows * idxs@.shape[2] <= idxs@.data.len(),
        old(data)@.len() == rows * n,
        forall|p: int| 0 <= p < rows * n ==> #[trigger] old(data)@[p] == NEG_INFINITY,
    ensures
        final(data)@.len() == rows * n,
        forall|p: int|
            0 <= p < rows * n ==> #[trigger] final(data)@[p] == (if listed(
                idxs@,
                p / n as int,
                p % n as int,
            ) {
                ZERO
            } else {
                NEG_INFINITY
            }),
{
    let topk: usize = idxs.dims()[2];
    let stored: usize = idxs.data().len();
    let cells: usize = data.len();
    let mut row: usize = 0;
    while row < rows
        invariant
            n > 0,
            idxs@.shape.len() == 3,
            topk == idxs@.shape[2],
            rows * topk <= idxs@.data.len() == stored,
            rows * n == cells,
            data@.len() == cells,
            row <= rows,
            forall|p: int|
                0 <= p < rows * n ==> #[trigger] data@[p] == (if p / n as int <= row - 1 && listed(
                    idxs@,
                    p / n as int,
                    p % n as int,
                ) {
                    ZERO
                } else {
                    NEG_INFINITY
                }),
        decreases rows - row,
    {
        let mut t: usize = 0;
        while t < topk
            invariant
                n > 0,
                idxs@.shape.len() == 3,
                topk == idxs@.shape[2],
                rows * topk <= idxs@.data.len() == stored,
                rows * n == cells,
                data@.len() == cells,
                row < rows,
                t <= topk,
                forall|p: int|
                    0 <= p < rows * n ==> #[trigger] data@[p] == (if (p / n as int <= row - 1
                        && listed(idxs@, p / n as int, p % n as int)) || (p / n as int == row
                        && listed_before(idxs@, row as int, p % n as int, t as int)) {
                        ZERO
                    } else {
                        NEG_INFINITY
                    }),
            decreases topk - t,
        {
            proof {
                lemma_flat(row as int, t as int, rows as int, topk as int);
                assert(row * topk >= 0) by (nonlinear_arith);
            }
            let idx: i64 = idxs.data()[row * topk + t];
            let ghost before = data@;
            let inside: bool = idx >= 0 && (idx as u64) < n as u64;
            if inside {
                let j: usize = idx as usize;
                proof {
                    lemma_flat(row as int, j as int, rows as int, n as int);
                    assert(row * n >= 0) by (nonlinear_arith);
                }
                data.set(row * n + j, ZERO);
            }
            proof {
                assert forall|p: int| 0 <= p < rows * n implies #[trigger] data@[p] == (if (p
                    / n as int <= row - 1 && listed(idxs@, p / n as int, p % n as int)) || (p
                    / n as int == row && listed_before(idxs@, row as int, p % n as int, t + 1)) {
                    ZERO
                } else {
                    NEG_INFINITY
                }) by {
                    lemma_divide(p, rows as int, n as int);
                    let (q, k) = (p / n as int, p % n as int);
                    assert(before[p] == data@[p] || (inside && p == row * n + idx));
                    assert(idxs@.data[row * idxs@.shape[2] + t] == idx);
                    if q == row {
                        if listed_before(idxs@, row as int, k, t as int) {
                            let u = choose|u: int|
                                0 <= u < t && #[trigger] idxs@.data[row * idxs@.shape[2] + u] == k;
                            assert(listed_before(idxs@, row as int, k, t + 1));
                        } else if listed_before(idxs@, row as int, k, t + 1) {
                            let u = choose|u: int|
                                0 <= u < t + 1 && #[trigger] idxs@.data[row * idxs@.shape[2] + u]
                                    == k;
                            assert(u == t);
                        }
                    }
                }
            }
            t = t + 1;
        }
        row = row + 1;
    }
    proof {
        assert forall|p: int| 0 <= p < rows * n implies #[trigger] data@[p] == (if listed(
            idxs@,
            p / n as int,
            p % n as int,
        ) {
            ZERO
        } else {
            NEG_INFINITY
        }) by {
            lemma_divide(p, rows as int, n as int);
        }
    }
}

/// Sink attention shared by the dense and the index-gathered form. The mask is either absent or one
/// per query, for all heads, with one row of keys each.
fn attn_core(q: &Tensor, kv: &Tensor, sink: &Tensor, scale: u64, mask: Option<&Tensor>) -> (r: Result<
    Tensor,
    TensorError,
>)
    requires
        mask matches Some(m) ==> q@.shape.len() == 4 && kv@.shape.len() >= 2 && (m@.shape == shape4(
            1,
            1,
            q@.shape[1],
            kv@.shape[1],
        ) || m@.shape == shape4(q@.shape[0], 1, q@.shape[1], kv@.shape[1])),
    ensures
        r is Ok <==> attn_ok(q@.shape, kv@.shape, sink@.shape),
        r matches Ok(o) ==> o@.wf() && o@.shape == q@.shape && attn_gives(
            q@,
            kv@,
            sink@,
            scale,
            crate::nn::view_of(mask),
            o@,
        ),
        r matches Err(e) ==> e == TensorError::Shape,
{
    let (b, s, h, d) = q.dims4()?;
    let n: usize = kv.dim(1)?;
    let ghost full = shape4(b, h, s, n);
    let heads = q.swap_axes(1)?;
    let lifted = kv.unsqueeze(1)?;
    let keys = lifted.broadcast_as(axes4(b, h, n, d))?;
    let across = keys.swap_axes(2)?;
    proof {
        assert(heads@.shape =~= shape4(b, h, s, d));
        assert(across@.shape =~= shape4(b, h, d, n));
        assert(heads@.shape.drop_last().push(n) =~= full);
        assert(heads@.shape.take(2) =~= across@.shape.take(2));
    }
    let products = ops::matmul(&heads, &across)?;
    let scaled = ops::affine(&products, scale, DOUBLE_ZERO);
    let scores = match mask {
        Some(m) => {
            proof {
                lemma_expands_axes(m@.shape, full);
                lemma_broadcast_into(m@.shape, full);
            }
            ops::broadcast_add(&scaled, m)?
        },
        None => scaled.duplicate(),
    };
    let top = ops::max_keepdim(&scores, 3)?;
    proof {
        lemma_broadcast_keepdim(full, 3);
        assert(full.update(3, 1) =~= shape4(b, h, s, 1));
    }
    let shifted = ops::broadcast_sub(&scores, &top)?;
    let powers = ops::exp(&shifted);
    let total = ops::sum_keepdim(&powers, 3)?;
    proof {
        lemma_cube4(1, h, 1, 1);
        lemma_sink_shape(h, b, s);
    }
    let lane = sink.reshape(axes4(1, h, 1, 1))?;
    let sink_shifted = ops::broadcast_sub(&lane, &top)?;
    let sink_power = ops::exp(&sink_shifted);
    let below = ops::same_add(&total, &sink_power)?;
    let weights = ops::broadcast_div(&powers, &below)?;
    proof {
        assert(weights@.shape.drop_last().push(d) =~= shape4(b, h, s, d));
        assert(weights@.shape.take(2) =~= keys@.shape.take(2));
    }
    let mixed = ops::matmul(&weights, &keys)?;
    let o = mixed.swap_axes(1)?;
    proof {
        assert(o@.shape =~= shape4(b, s, h, d));
        let t = AttnSteps {
            heads: heads@,
            keys: keys@,
            products: products@,
            scaled: scaled@,
            scores: scores@,
            top: top@,
            shifted: shifted@,
            powers: powers@,
            total: total@,
            sink_shifted: sink_shifted@,
            sink_power: sink_power@,
            below: below@,
            weights: weights@,
            mixed: mixed@,
        };
        reveal(weight_steps);
        assert(attn_steps(q@, kv@, sink@, scale, crate::nn::view_of(mask), t, o@));
    }
    Ok(o)
}

/// One sink value per head repeats to the shape of the maxima.
proof fn lemma_sink_shape(h: usize, b: usize, s: usize)
    ensures
        product(shape4(1, h, 1, 1)) == h,
        fits(shape4(1, h, 1, 1)),
        broadcast_shape(shape4(1, h, 1, 1), shape4(b, h, s, 1)) == Some(shape4(b, h, s, 1)),
{
    lemma_cube4(1, h, 1, 1);
    assert(1 * h * 1 * 1 == h) by (nonlinear_arith);
    lemma_expands_axes(shape4(1, h, 1, 1), shape4(b, h, s, 1));
    lemma_broadcast_into(shape4(1, h, 1, 1), shape4(b, h, s, 1));
    let t = shape4(1, h, 1, 1);
    crate::shape::lemma_axis(t, 1);
    assert(t.take(1) =~= seq![1usize]);
    assert(t.skip(2) =~= seq![1usize, 1usize]);
    assert(t.take(1).drop_last() =~= Seq::<usize>::empty());
    assert(t.skip(2).drop_last() =~= seq![1usize]);
    assert(t.skip(2).drop_last().drop_last() =~= Seq::<usize>::empty());
    reveal_with_fuel(span, 4);
}

/// Scaled-dot-product attention with a per-head softmax sink.
///
/// `q` is `[b, s, h, d]`, `kv` is `[b, n, d]` and `sink` is `[h]`. If `causal`, query `i` stands at
/// position `n - s + i` and attends to the keys up to it.
pub fn sdpa_with_sink(q: &Tensor, kv: &Tensor, sink: &Tensor, scale: u64, causal: bool) -> (r: Result<
    Tensor,
    TensorError,
>)
    requires
        causal && q@.shape.len() >= 2 && kv@.shape.len() >= 2 ==> q@.shape[1] <= kv@.shape[1],
    ensures
        r is Ok <==> attn_ok(q@.shape, kv@.shape, sink@.shape),
        r matches Ok(o) ==> o@.wf() && o@.shape == q@.shape && attn_gives(
            q@,
            kv@,
            sink@,
            scale,
            if causal {
                Some(causal_mask_of(q@.shape[1], kv@.shape[1]))
            } else {
                None
            },
            o@,
        ),
        r matches Err(e) ==> e == TensorError::Shape,
{
    if !causal {
        return attn_core(q, kv, sink, scale, None);
    }
    let (b, s, h, d) = q.dims4()?;
    let n: usize = kv.dim(1)?;
    proof {
        lemma_mask_fits(b, h, s, n);
    }
    let mask = causal_mask(s, n)?;
    attn_core(q, kv, sink, scale, Some(&mask))
}

/// A mask without heads fits where the scores do.
proof fn lemma_mask_fits(b: usize, h: usize, s: usize, n: usize)
    ensures
        fits(shape4(b, h, s, n)) ==> fits(shape4(b, 1, s, n)),
        fits(shape4(b, h, s, n)) ==> fits(shape4(1, 1, s, n)),
{
    let full = shape4(b, h, s, n);
    crate::shape::lemma_span_update(full, 1, 1);
    assert(full.update(1, 1) =~= shape4(b, 1, s, n));
    crate::shape::lemma_span_update(shape4(b, 1, s, n), 0, 1);
    assert(shape4(b, 1, s, n).update(0, 1) =~= shape4(1, 1, s, n));
}

/// Index-gathered sink attention.
///
/// For query `(b, i)`, `topk_idxs[b, i, :]` lists the keys it attends to; `-1` and any index outside
/// `0 .. n` marks an empty slot. Otherwise as [`sdpa_with_sink`].
pub fn sparse_attn(q: &Tensor, kv: &Tensor, sink: &Tensor, topk_idxs: &Indices, scale: u64) -> (r: Result<
    Tensor,
    TensorError,
>)
    requires
        q@.shape.len() == 4 && topk_idxs@.shape.len() == 3 ==> q@.shape[0] * q@.shape[1]
            * topk_idxs@.shape[2] <= topk_idxs@.data.len(),
    ensures
        r is Ok <==> topk_idxs@.shape.len() == 3 && attn_ok(q@.shape, kv@.shape, sink@.shape),
        r matches Ok(o) ==> o@.wf() && o@.shape == q@.shape && attn_gives(
            q@,
            kv@,
            sink@,
            scale,
            Some(sparse_mask_of(q@.shape[0], q@.shape[1], kv@.shape[1], topk_idxs@)),
            o@,
        ),
        r matches Err(e) ==> e == TensorError::Shape,
{
    let (b, s, h, d) = q.dims4()?;
    let n: usize = kv.dim(1)?;
    let _ = topk_idxs.dims3()?;
    proof {
        lemma_mask_fits(b, h, s, n);
    }
    let mask = sparse_mask(b, s, n, topk_idxs)?;
    attn_core(q, kv, sink, scale, Some(&mask))
}

// --- the attention layer --------------------------------------------------------------------

/// Multi-head Latent Attention of one layer: low-rank queries, one latent key, rotary embedding of
/// the last columns, sparse keys, and a grouped low-rank output projection.
pub struct Mla {
    /// `[q_lora_rank, dim]`
    pub wq_a: Tensor,
    /// `[q_lora_rank]`: the gain of the query norm.
    pub q_norm: Tensor,
    /// `[n_heads * head_dim, q_lora_rank]`
    pub wq_b: Tensor,
    /// `[head_dim, dim]`
    pub wkv: Tensor,
    /// `[head_dim]`: the gain of the key norm.
    pub kv_norm: Tensor,
    /// `[n_groups * o_lora_rank, n_heads * head_dim / n_groups]`
    pub wo_a: Tensor,
    /// `[dim, n_groups * o_lora_rank]`
    pub wo_b: Tensor,
    /// `[n_heads]`
    pub attn_sink: Tensor,
    pub n_heads: usize,
    pub head_dim: usize,
    pub rope_head_dim: usize,
    pub n_groups: usize,
    pub o_lora_rank: usize,
    /// Query `i` sees the keys `max(i - window_size + 1, 0) ..= i`.
    pub window_size: usize,
    /// `0` for a pure sliding window, otherwise the number of tokens per compressed block.
    pub compress_ratio: usize,
    /// Present if the layer compresses: its blocks are appended to the keys.
    pub compressor: Option<Compressor>,
    /// Present if the layer selects blocks by learned scores instead of taking all visible ones.
    pub indexer: Option<Indexer>,
    pub eps: u64,
    pub scale: u64,
}

impl Mla {
    /// The output groups exist, the rotated columns are part of the head, and a layer that takes all
    /// visible blocks has a block size.
    pub open spec fn wf(self) -> bool {
        &&& self.n_groups > 0
        &&& self.rope_head_dim <= self.head_dim
        &&& self.compressor matches Some(c) ==> c.wf()
        &&& self.indexer matches Some(ix) ==> ix.wf()
        &&& self.compressor is Some && self.indexer is None ==> self.compress_ratio > 0
    }
}

/// An index set per query, repeated for every batch.
pub open spec fn batched(t: IndexView, b: usize) -> IndexView {
    expanded(unsqueezed(t, 0), shape3(b, t.shape[0], t.shape[1]))
}

/// Repeats an index set for every batch.
fn for_batch(t: &Indices, b: usize) -> (r: Result<Indices, TensorError>)
    requires
        t@.shape.len() == 2,
    ensures
        r is Ok <==> fits(shape3(b, t@.shape[0], t@.shape[1])),
        r matches Ok(y) ==> y@.wf() && y@ == batched(t@, b) && y@.shape == shape3(
            b,
            t@.shape[0],
            t@.shape[1],
        ),
        r matches Err(e) ==> e == TensorError::Shape,
{
    let (s, k) = t.dims2()?;
    let lifted = t.unsqueeze(0)?;
    proof {
        assert(lifted@.shape =~= shape3(1, s, k));
        lemma_expands_axes(shape3(1, s, k), shape3(b, s, k));
    }
    lifted.broadcast_as(axes3(b, s, k))
}

/// The shape of an RMS norm of what may not exist.
pub open spec fn then_norm(x: Option<Seq<usize>>, gamma: Seq<usize>) -> Option<Seq<usize>> {
    match x {
        Some(s) => rms_norm_shape(s, Some(gamma)),
        None => None,
    }
}

/// The shape of a projection of what may not exist.
pub open spec fn then_linear(x: Option<Seq<usize>>, w: Seq<usize>) -> Option<Seq<usize>> {
    match x {
        Some(s) => linear_shape(s, w),
        None => None,
    }
}

/// The width of the compressed part of the index set, if it can be built.
pub open spec fn chosen_width(m: Mla, x: Seq<usize>, qr: Seq<usize>, table: Seq<usize>) -> Option<
    usize,
> {
    let (b, s) = (x[0], x[1]);
    match m.indexer {
        Some(ix) => if select_ok(ix, x, qr, table) {
            Some(kept_blocks(ix, s))
        } else {
            None
        },
        None => {
            let c = compress_idxs_of(m.compress_ratio, s, s).shape;
            if fits(c) && s as int / m.compress_ratio as int + s <= i64::MAX && fits(
                shape3(b, s, c[1]),
            ) {
                Some(c[1])
            } else {
                None
            }
        },
    }
}

/// The number of slots of the window part of the index set.
pub open spec fn window_width(m: Mla, s: usize) -> usize {
    window_idxs_of(m.window_size, s).shape[1]
}

/// The shape of the keys that the queries attend to, if keys and index set can be built.
pub open spec fn keys_shape(m: Mla, x: Seq<usize>, qr: Seq<usize>, table: Seq<usize>) -> Option<
    Seq<usize>,
> {
    let (b, s, hd) = (x[0], x[1], m.head_dim);
    let latent = shape3(b, s, hd);
    match m.compressor {
        None => Some(latent),
        Some(c) => match (compress_shape(c, x, table), chosen_width(m, x, qr, table)) {
            (Some(blocks), Some(width)) => if cat_ok(latent, blocks, 1) && cat_ok(
                shape3(b, s, window_width(m, s)),
                shape3(b, s, width),
                2,
            ) {
                Some(latent.update(1, (s + blocks[1]) as usize))
            } else {
                None
            },
            _ => None,
        },
    }
}

/// Whether the queries can be built.
pub open spec fn query_ok(m: Mla, x: Seq<usize>, table: Seq<usize>, start: int) -> bool {
    let heads = shape4(x[0], x[1], m.n_heads, m.head_dim);
    &&& then_reshape(then_linear(low_query_shape(m, x), m.wq_b@.shape), heads) is Some
    &&& tail_ok(heads, table, start, m.rope_head_dim)
}

/// The shape of the low-rank query.
pub open spec fn low_query_shape(m: Mla, x: Seq<usize>) -> Option<Seq<usize>> {
    then_norm(linear_shape(x, m.wq_a@.shape), m.q_norm@.shape)
}

/// Whether the latent keys can be built.
pub open spec fn latent_ok(m: Mla, x: Seq<usize>, table: Seq<usize>, start: int) -> bool {
    let lane = shape4(x[0], x[1], 1, m.head_dim);
    &&& then_reshape(then_norm(linear_shape(x, m.wkv@.shape), m.kv_norm@.shape), lane) is Some
    &&& tail_ok(lane, table, start, m.rope_head_dim)
}

/// Whether the window part of the index set can be built.
pub open spec fn window_ok(m: Mla, x: Seq<usize>) -> bool {
    let window = window_idxs_of(m.window_size, x[1]).shape;
    fits(window) && x[1] <= i64::MAX && fits(shape3(x[0], x[1], window[1]))
}

/// The width of one output group.
pub open spec fn group_width(m: Mla) -> usize {
    ((m.n_heads * m.head_dim) / m.n_groups as int) as usize
}

/// The shape of the output projection of `[b, s, n_heads, head_dim]`.
pub open spec fn output_shape(m: Mla, b: usize, s: usize) -> Option<Seq<usize>> {
    let (g, r, din) = (m.n_groups, m.o_lora_rank, group_width(m));
    let joint = shape3(b, s, (g * r) as usize);
    if then_reshape(
        Some(shape4(b, s, m.n_heads, m.head_dim)),
        shape4(b, s, g, din),
    ) is Some && then_reshape(Some(m.wo_a@.shape), shape3(g, r, din)) is Some && fits(
        shape3(g, (b * s) as usize, r),
    ) && fits(joint) {
        linear_shape(joint, m.wo_b@.shape)
    } else {
        None
    }
}

/// The shape of the layer's output, if every step succeeds.
pub open spec fn mla_shape(m: Mla, x: Seq<usize>, table: Seq<usize>, start: int) -> Option<
    Seq<usize>,
> {
    if x.len() == 3 && query_ok(m, x, table, start) && latent_ok(m, x, table, start) && window_ok(
        m,
        x,
    ) {
        match keys_shape(m, x, low_query_shape(m, x).unwrap(), table) {
            Some(keys) => if attn_ok(
                shape4(x[0], x[1], m.n_heads, m.head_dim),
                keys,
                m.attn_sink@.shape,
            ) {
                output_shape(m, x[0], x[1])
            } else {
                None
            },
            None => None,
        }
    } else {
        None
    }
}

/// The tensors between input and queries.
pub struct QuerySteps {
    pub low: V,
    pub flat: V,
    pub normed: V,
}

/// The low-rank query `qr` and the rotated per-head queries `q`: project down, norm, project up, norm
/// per head, rotate.
pub open spec fn query_steps(
    m: Mla,
    x: V,
    rope: RopeView,
    start: int,
    t: QuerySteps,
    qr: V,
    q: V,
) -> bool {
    let (b, s) = (x.shape[0], x.shape[1]);
    &&& linear_gives(x, m.wq_a@, t.low)
    &&& rms_norm_gives(t.low, Some(m.q_norm@), m.eps, qr)
    &&& linear_gives(qr, m.wq_b@, t.flat)
    &&& rms_norm_gives(
        reshaped(t.flat, shape4(b, s, m.n_heads, m.head_dim)),
        None,
        m.eps,
        t.normed,
    )
    &&& tail_rotated(
        t.normed,
        rows_from(rope.cos, start, s as int),
        rows_from(rope.sin, start, s as int),
        m.rope_head_dim as int,
        false,
        q,
    )
}

#[verifier::opaque]
pub open spec fn query_gives(m: Mla, x: V, rope: RopeView, start: int, qr: V, q: V) -> bool {
    exists|t: QuerySteps| query_steps(m, x, rope, start, t, qr, q)
}

/// The tensors between input and latent keys.
pub struct LatentSteps {
    pub low: V,
    pub normed: V,
    pub turned: V,
}

/// The latent keys: project, norm, rotate.
pub open spec fn latent_steps(
    m: Mla,
    x: V,
    rope: RopeView,
    start: int,
    t: LatentSteps,
    kv: V,
) -> bool {
    let (b, s, hd) = (x.shape[0], x.shape[1], m.head_dim);
    &&& linear_gives(x, m.wkv@, t.low)
    &&& rms_norm_gives(t.low, Some(m.kv_norm@), m.eps, t.normed)
    &&& tail_rotated(
        reshaped(t.normed, shape4(b, s, 1, hd)),
        rows_from(rope.cos, start, s as int),
        rows_from(rope.sin, start, s as int),
        m.rope_head_dim as int,
        false,
        t.turned,
    )
    &&& kv == reshaped(t.turned, shape3(b, s, hd))
}

#[verifier::opaque]
pub open spec fn latent_gives(m: Mla, x: V, rope: RopeView, start: int, kv: V) -> bool {
    exists|t: LatentSteps| latent_steps(m, x, rope, start, t, kv)
}

/// The blocks that each query attends to, as cache indices behind the latent keys.
pub open spec fn chosen_gives(m: Mla, x: V, qr: V, rope: RopeView, chosen: IndexView) -> bool {
    match m.indexer {
        Some(ix) => select_gives(ix, x, qr, rope, chosen),
        None => chosen == batched(
            compress_idxs_of(m.compress_ratio, x.shape[1], x.shape[1]),
            x.shape[0],
        ),
    }
}

/// The keys and the index set of the layer: the window over the latent keys and, if the layer
/// compresses, the chosen blocks behind them.
pub open spec fn keys_give(
    m: Mla,
    x: V,
    qr: V,
    rope: RopeView,
    latent: V,
    keys: V,
    idxs: IndexView,
) -> bool {
    let window = batched(window_idxs_of(m.window_size, x.shape[1]), x.shape[0]);
    match m.compressor {
        None => keys == latent && idxs == window,
        Some(c) => exists|blocks: V, chosen: IndexView|
            {
                &&& #[trigger] compress_gives(c, x, rope, blocks)
                &&& #[trigger] chosen_gives(m, x, qr, rope, chosen)
                &&& cat_ok(latent.shape, blocks.shape, 1)
                &&& keys == joined(latent, blocks, 1)
                &&& cat_ok(window.shape, chosen.shape, 2)
                &&& idxs == joined(window, chosen, 2)
            },
    }
}

/// The grouped low-rank output projection.
pub open spec fn output_gives(m: Mla, o: V, grouped: V, y: V) -> bool {
    let (b, s, g, r, din) = (
        o.shape[0],
        o.shape[1],
        m.n_groups,
        m.o_lora_rank,
        group_width(m),
    );
    &&& multiplied(
        swapped(reshaped(o, shape3((b * s) as usize, g, din)), 0),
        swapped(reshaped(m.wo_a@, shape3(g, r, din)), 1),
        grouped,
    )
    &&& linear_gives(
        reshaped(swapped(grouped, 0), shape3(b, s, (g * r) as usize)),
        m.wo_b@,
        y,
    )
}

/// The tensors between input and output of the layer.
pub struct MlaSteps {
    pub qr: V,
    pub q: V,
    pub latent: V,
    pub keys: V,
    pub idxs: IndexView,
    pub attended: V,
    pub turned: V,
    pub grouped: V,
}

pub open spec fn mla_steps(m: Mla, x: V, rope: RopeView, start: int, t: MlaSteps, y: V) -> bool {
    let (b, s) = (x.shape[0], x.shape[1]);
    &&& query_gives(m, x, rope, start, t.qr, t.q)
    &&& latent_gives(m, x, rope, start, t.latent)
    &&& keys_give(m, x, t.qr, rope, t.latent, t.keys, t.idxs)
    &&& attn_gives(
        t.q,
        t.keys,
        m.attn_sink@,
        m.scale,
        Some(sparse_mask_of(b, s, t.keys.shape[1], t.idxs)),
        t.attended,
    )
    &&& tail_rotated(
        t.attended,
        rows_from(rope.cos, start, s as int),
        rows_from(rope.sin, start, s as int),
        m.rope_head_dim as int,
        true,
        t.turned,
    )
    &&& output_gives(m, t.turned, t.grouped, y)
}

#[verifier::opaque]
pub open spec fn mla_gives(m: Mla, x: V, rope: RopeView, start: int, y: V) -> bool {
    exists|t: MlaSteps| mla_steps(m, x, rope, start, t, y)
}

/// The keys and the index set of the layer.
fn build_keys(m: &Mla, x: &Tensor, qr: &Tensor, kv: &Tensor, rope: &Rope) -> (r: Result<
    (Tensor, Indices),
    TensorError,
>)
    requires
        m.wf(),
        x@.shape.len() == 3,
        qr@.shape.len() > 0,
        kv@.shape == shape3(x@.shape[0], x@.shape[1], m.head_dim),
    ensures
        rope@.wf(),
        r is Ok <==> window_ok(*m, x@.shape) && keys_shape(
            *m,
            x@.shape,
            qr@.shape,
            rope@.cos.shape,
        ) is Some,
        r matches Ok(p) ==> {
            &&& p.0@.wf()
            &&& p.1@.wf()
            &&& Some(p.0@.shape) == keys_shape(*m, x@.shape, qr@.shape, rope@.cos.shape)
            &&& p.1@.shape.len() == 3
            &&& p.1@.shape[0] == x@.shape[0]
            &&& p.1@.shape[1] == x@.shape[1]
            &&& keys_give(*m, x@, qr@, rope@, kv@, p.0@, p.1@)
        },
        r matches Err(e) ==> e == TensorError::Shape,
{
    let _ = rope.cos();
    let (b, s, _) = x.dims3()?;
    let rows = window_topk_idxs(m.window_size, s)?;
    let window = for_batch(&rows, b)?;
    match &m.compressor {
        Some(c) => {
            let blocks = c.compress(x, rope)?;
            let chosen = match &m.indexer {
                Some(ix) => ix.select(x, qr, rope)?,
                None => {
                    let rows = compress_topk_idxs(m.compress_ratio, s, s)?;
                    for_batch(&rows, b)?
                },
            };
            let keys = kv.join(&blocks, 1)?;
            let idxs = window.join(&chosen, 2)?;
            proof {
                assert(compress_gives(*c, x@, rope@, blocks@));
                assert(chosen_gives(*m, x@, qr@, rope@, chosen@));
            }
            Ok((keys, idxs))
        },
        None => Ok((kv.duplicate(), window)),
    }
}

/// The low-rank query and the rotated per-head queries.
fn build_queries(m: &Mla, x: &Tensor, rope: &Rope, start_pos: usize) -> (r: Result<
    (Tensor, Tensor),
    TensorError,
>)
    requires
        m.wf(),
        x@.shape.len() == 3,
    ensures
        rope@.wf(),
        r is Ok <==> query_ok(*m, x@.shape, rope@.cos.shape, start_pos as int),
        r matches Ok(p) ==> {
            &&& p.0@.wf()
            &&& p.1@.wf()
            &&& Some(p.0@.shape) == low_query_shape(*m, x@.shape)
            &&& p.0@.shape.len() > 0
            &&& p.1@.shape == shape4(x@.shape[0], x@.shape[1], m.n_heads, m.head_dim)
            &&& query_gives(*m, x@, rope@, start_pos as int, p.0@, p.1@)
        },
        r matches Err(e) ==> e == TensorError::Shape,
{
    let _ = rope.cos();
    let (b, s, _) = x.dims3()?;
    let low = ops::linear(x, &m.wq_a)?;
    let qr = rms_norm(&low, Some(&m.q_norm), m.eps)?;
    proof {
        crate::shape::lemma_broadcast_len(low@.shape, m.q_norm@.shape);
    }
    let flat = ops::linear(&qr, &m.wq_b)?;
    let heads = flat.reshape(axes4(b, s, m.n_heads, m.head_dim))?;
    let normed = rms_norm(&heads, None, m.eps)?;
    let q = rope_tail(rope, &normed, start_pos, m.rope_head_dim, false)?;
    proof {
        reveal(query_gives);
    }
    assert(query_steps(
        *m,
        x@,
        rope@,
        start_pos as int,
        QuerySteps { low: low@, flat: flat@, normed: normed@ },
        qr@,
        q@,
    ));
    Ok((qr, q))
}

/// The rotated latent keys.
fn build_latent(m: &Mla, x: &Tensor, rope: &Rope, start_pos: usize) -> (r: Result<Tensor, TensorError>)
    requires
        m.wf(),
        x@.shape.len() == 3,
    ensures
        rope@.wf(),
        r is Ok <==> latent_ok(*m, x@.shape, rope@.cos.shape, start_pos as int),
        r matches Ok(kv) ==> kv@.wf() && kv@.shape == shape3(
            x@.shape[0],
            x@.shape[1],
            m.head_dim,
        ) && latent_gives(*m, x@, rope@, start_pos as int, kv@),
        r matches Err(e) ==> e == TensorError::Shape,
{
    let _ = rope.cos();
    let (b, s, _) = x.dims3()?;
    let hd: usize = m.head_dim;
    let low = ops::linear(x, &m.wkv)?;
    let normed = rms_norm(&low, Some(&m.kv_norm), m.eps)?;
    let lane = normed.reshape(axes4(b, s, 1, hd))?;
    let turned = rope_tail(rope, &lane, start_pos, m.rope_head_dim, false)?;
    proof {
        crate::tensor::lemma_unit_axis(shape3(b, s, hd), 2);
        assert(shape3(b, s, hd).insert(2, 1) =~= shape4(b, s, 1, hd));
    }
    let kv = turned.reshape(axes3(b, s, hd))?;
    proof {
        reveal(latent_gives);
    }
    assert(latent_steps(
        *m,
        x@,
        rope@,
        start_pos as int,
        LatentSteps { low: low@, normed: normed@, turned: turned@ },
        kv@,
    ));
    Ok(kv)
}

/// The grouped low-rank output projection of `[b, s, h, hd]`.
fn project_out(m: &Mla, o: &Tensor, b: usize, s: usize) -> (r: Result<(Tensor, Tensor), TensorError>)
    requires
        m.n_groups > 0,
        o@.shape == shape4(b, s, m.n_heads, m.head_dim),
    ensures
        r is Ok <==> output_shape(*m, b, s) is Some,
        r matches Ok(p) ==> p.1@.wf() && Some(p.1@.shape) == output_shape(*m, b, s)
            && output_gives(*m, o@, p.0@, p.1@),
        r matches Err(e) ==> e == TensorError::Shape,
{
    let (g, r): (usize, usize) = (m.n_groups, m.o_lora_rank);
    let (h, hd): (usize, usize) = (m.n_heads, m.head_dim);
    let _ = o.rank();
    proof {
        crate::shape::lemma_merged(o@.shape, 2);
    }
    let din: usize = (h * hd) / g;
    let split = o.reshape(axes4(b, s, g, din))?;
    proof {
        crate::shape::lemma_merged(split@.shape, 0);
        assert(crate::shape::merged(split@.shape, 0) =~= shape3((b * s) as usize, g, din));
    }
    let bs: usize = b * s;
    let rows = split.reshape(axes3(bs, g, din))?;
    let lanes = rows.swap_axes(0)?;
    let wa = m.wo_a.reshape(axes3(g, r, din))?;
    let across = wa.swap_axes(1)?;
    proof {
        assert(lanes@.shape =~= shape3(g, bs, din));
        assert(across@.shape =~= shape3(g, din, r));
        assert(lanes@.shape.drop_last().push(r) =~= shape3(g, bs, r));
        assert(lanes@.shape.take(1) =~= across@.shape.take(1));
    }
    let grouped = ops::matmul(&lanes, &across)?;
    let back = grouped.swap_axes(0)?;
    proof {
        assert(back@.shape =~= shape3(bs, g, r));
        crate::shape::lemma_merged(back@.shape, 1);
        crate::shape::lemma_cube(bs, g, r);
        crate::shape::lemma_cube(b, s, (g * r) as usize);
        assert(b * s * (g * r) == (b * s) * g * r) by (nonlinear_arith);
    }
    let gr: usize = g * r;
    let og = back.reshape(axes3(b, s, gr))?;
    let y = ops::linear(&og, &m.wo_b)?;
    assert(rows@ == reshaped(o@, shape3(bs, g, din)));
    Ok((grouped, y))
}

impl Mla {
    /// `x` (`[b, s, dim]`) to `[b, s, dim]`; the first query stands at position `start_pos`.
    pub fn forward(&self, x: &Tensor, rope: &Rope, start_pos: usize) -> (r: Result<Tensor, TensorError>)
        requires
            self.wf(),
        ensures
            rope@.wf(),
            r is Ok <==> mla_shape(*self, x@.shape, rope@.cos.shape, start_pos as int) is Some,
            r matches Ok(y) ==> y@.wf() && Some(y@.shape) == mla_shape(
                *self,
                x@.shape,
                rope@.cos.shape,
                start_pos as int,
            ) && mla_gives(*self, x@, rope@, start_pos as int, y@),
            r matches Err(e) ==> e == TensorError::Shape,
    {
        let _ = rope.cos();
        let (b, s, _) = x.dims3()?;
        let (qr, q) = build_queries(self, x, rope, start_pos)?;
        let latent = build_latent(self, x, rope, start_pos)?;
        let (keys, idxs) = build_keys(self, x, &qr, &latent, rope)?;
        proof {
            let k = idxs@.shape[2];
            assert(idxs@.shape =~= shape3(b, s, k));
            crate::shape::lemma_cube(b, s, k);
        }
        let attended = sparse_attn(&q, &keys, &self.attn_sink, &idxs, self.scale)?;
        let turned = rope_tail(rope, &attended, start_pos, self.rope_head_dim, true)?;
        let (grouped, y) = project_out(self, &turned, b, s)?;
        proof {
            reveal(mla_gives);
        }
        assert(mla_steps(
            *self,
            x@,
            rope@,
            start_pos as int,
            MlaSteps {
                qr: qr@,
                q: q@,
                latent: latent@,
                keys: keys@,
                idxs: idxs@,
                attended: attended@,
                turned: turned@,
                grouped: grouped@,
            },
            y@,
        ));
        Ok(y)
    }
}

// --- laws -----------------------------------------------------------------------------------

/// Only which keys are listed for a query matters: order, repetition and empty slots of an index set
/// do not change the mask, and so not the attention.
pub proof fn law_mask_depends_on_key_sets(b: usize, s: usize, n: usize, x: IndexView, y: IndexView)
    requires
        forall|row: int, j: int|
            0 <= row < b * s && 0 <= j < n ==> #[trigger] listed(x, row, j) == listed(y, row, j),
    ensures
        sparse_mask_of(b, s, n, x) == sparse_mask_of(b, s, n, y),
{
    let mx = sparse_mask_of(b, s, n, x).data;
    let my = sparse_mask_of(b, s, n, y).data;
    assert forall|p: int| 0 <= p < b * s * n implies mx[p] == my[p] by {
        lemma_divide(p, b * s, n as int);
        assert(listed(x, p / n as int, p % n as int) == listed(y, p / n as int, p % n as int));
    }
    assert(mx =~= my);
}

/// With every key up to the query's own position listed, and no other, index-gathered attention is
/// causal attention.
pub proof fn law_sparse_with_causal_sets_is_dense(
    q: V,
    kv: V,
    sink: V,
    scale: u64,
    idxs: IndexView,
    o: V,
)
    requires
        q.wf(),
        q.shape.len() == 4,
        kv.shape.len() >= 2,
        q.shape[1] <= kv.shape[1],
        forall|row: int, j: int|
            0 <= row < q.shape[0] * q.shape[1] && 0 <= j < kv.shape[1] ==> (#[trigger] listed(
                idxs,
                row,
                j,
            ) <==> j <= row % q.shape[1] as int + (kv.shape[1] - q.shape[1])),
    ensures
        attn_gives(
            q,
            kv,
            sink,
            scale,
            Some(sparse_mask_of(q.shape[0], q.shape[1], kv.shape[1], idxs)),
            o,
        ) <==> attn_gives(
            q,
            kv,
            sink,
            scale,
            Some(causal_mask_of(q.shape[1], kv.shape[1])),
            o,
        ),
{
    reveal(weight_steps);
    let (b, s, h, n) = (q.shape[0], q.shape[1], q.shape[2], kv.shape[1]);
    let x = sparse_mask_of(b, s, n, idxs);
    let y = causal_mask_of(s, n);
    lemma_same_mask(b, h, s, n, x, y, idxs);
    if attn_gives(q, kv, sink, scale, Some(x), o) {
        let t = choose|t: AttnSteps| attn_steps(q, kv, sink, scale, Some(x), t, o);
        lemma_scaled_shape(q, kv, t.heads, t.keys, t.products, t.scaled);
        lemma_mask_swap(shape4(b, h, s, n), t.scaled, x, y, t.scores);
        assert(attn_steps(q, kv, sink, scale, Some(y), t, o));
    }
    if attn_gives(q, kv, sink, scale, Some(y), o) {
        let t = choose|t: AttnSteps| attn_steps(q, kv, sink, scale, Some(y), t, o);
        lemma_scaled_shape(q, kv, t.heads, t.keys, t.products, t.scaled);
        lemma_mask_swap(shape4(b, h, s, n), t.scaled, y, x, t.scores);
        assert(attn_steps(q, kv, sink, scale, Some(x), t, o));
    }
}

/// The scores have one entry per batch, head, query and key.
proof fn lemma_scaled_shape(q: V, kv: V, heads: V, keys: V, products: V, scaled: V)
    requires
        q.shape.len() == 4,
        kv.shape.len() >= 2,
        heads == swapped(q, 1),
        keys.shape == shape4(q.shape[0], q.shape[2], kv.shape[1], q.shape[3]),
        multiplied(heads, swapped(keys, 2), products),
        scaled.shape == products.shape,
    ensures
        scaled.shape == shape4(q.shape[0], q.shape[2], q.shape[1], kv.shape[1]),
{
    assert(heads.shape.drop_last().push(kv.shape[1]) =~= shape4(
        q.shape[0],
        q.shape[2],
        q.shape[1],
        kv.shape[1],
    ));
}

/// Masks that repeat to the same tensor add up to the same scores.
proof fn lemma_mask_swap(full: Seq<usize>, scaled: V, x: V, y: V, scores: V)
    requires
        scaled.shape == full,
        expands(x.shape, full),
        expands(y.shape, full),
        expanded(x, full).data == expanded(y, full).data,
        combined(Binary::Add, scaled, x, scores),
    ensures
        combined(Binary::Add, scaled, y, scores),
{
    lemma_broadcast_into(x.shape, full);
    lemma_broadcast_into(y.shape, full);
    assert(scores.shape == full);
    assert(scores.data.len() == product(full));
    assert forall|i: int| 0 <= i < scores.data.len() implies x.data[source_index(
        x.shape,
        full,
        i,
    )] == y.data[source_index(y.shape, full, i)] by {
        let (ex, ey) = (expanded(x, full).data, expanded(y, full).data);
        assert(ex[i] == x.data[source_index(x.shape, full, i)]);
        assert(ey[i] == y.data[source_index(y.shape, full, i)]);
    }
    assert forall|i: int| 0 <= i < scores.data.len() implies crate::bits::agrees(
        #[trigger] scores.data[i],
        crate::ops::binary(
            Binary::Add,
            scaled.data[source_index(full, full, i)],
            y.data[source_index(y.shape, full, i)],
        ),
    ) by {
        assert(x.data[source_index(x.shape, full, i)] == y.data[source_index(y.shape, full, i)]);
    }
}

/// The mask of causal key sets repeats to the causal mask's repetition.
proof fn lemma_same_mask(
    b: usize,
    h: usize,
    s: usize,
    n: usize,
    x: V,
    y: V,
    idxs: IndexView,
)
    requires
        s <= n,
        x == sparse_mask_of(b, s, n, idxs),
        y == causal_mask_of(s, n),
        forall|row: int, j: int|
            0 <= row < b * s && 0 <= j < n ==> (#[trigger] listed(idxs, row, j) <==> j <= row
                % s as int + (n - s)),
    ensures
        expands(x.shape, shape4(b, h, s, n)),
        expands(y.shape, shape4(b, h, s, n)),
        expanded(x, shape4(b, h, s, n)).data == expanded(y, shape4(b, h, s, n)).data,
{
    let full = shape4(b, h, s, n);
    lemma_expands_axes(x.shape, full);
    lemma_expands_axes(y.shape, full);
    let ex = expanded(x, full).data;
    let ey = expanded(y, full).data;
    lemma_cube4(b, h, s, n);
    assert forall|i: int| 0 <= i < product(full) implies ex[i] == ey[i] by {
        lemma_divide(i, b * h * s, n as int);
        lemma_divide(i / n as int, b * h, s as int);
        lemma_divide((i / n as int) / s as int, b as int, h as int);
        let j = i % n as int;
        let row = (i / n as int) % s as int;
        let head = ((i / n as int) / s as int) % h as int;
        let batch = ((i / n as int) / s as int) / h as int;
        lemma_mask_source(b, h, s, n, 1, i);
        lemma_mask_source(b, h, s, n, b, i);
        lemma_flat(batch, row, b as int, s as int);
        lemma_flat(batch * s + row, j, b * s, n as int);
        lemma_flat(row, j, s as int, n as int);
        assert(listed(idxs, batch * s + row, j) <==> j <= (batch * s + row) % s as int + (n - s));
        let px = (batch * s + row) * n + j;
        let py = row * n + j;
        assert(b == 1 ==> batch == 0);
        assert(0 * s == 0);
        assert(ex[i] == x.data[px]);
        assert(ey[i] == y.data[py]);
        assert(px / n as int == batch * s + row && px % n as int == j);
        assert(py / n as int == row && py % n as int == j);
    }
    assert(ex =~= ey);
}

/// Where element `i` of `[b, h, s, n]` comes from in a mask `[b or 1, 1, s, n]`.
proof fn lemma_mask_source(b: usize, h: usize, s: usize, n: usize, first: usize, i: int)
    requires
        first == b || first == 1,
        0 <= i < b * h * s * n,
    ensures
        source_index(shape4(first, 1, s, n), shape4(b, h, s, n), i) == ((if first == b {
            ((i / n as int) / s as int) / h as int
        } else {
            0
        }) * s + (i / n as int) % s as int) * n + i % n as int,
{
    let from = shape4(first, 1, s, n);
    let to = shape4(b, h, s, n);
    lemma_divide(i, b * h * s, n as int);
    let i1 = i / n as int;
    lemma_divide(i1, b * h, s as int);
    let i2 = i1 / s as int;
    lemma_divide(i2, b as int, h as int);
    let i3 = i2 / h as int;
    assert(from.drop_last() =~= shape3(first, 1, s));
    assert(to.drop_last() =~= shape3(b, h, s));
    assert(from.drop_last().drop_last() =~= shape2(first, 1));
    assert(to.drop_last().drop_last() =~= shape2(b, h));
    assert(shape2(first, 1).drop_last() =~= seq![first]);
    assert(shape2(b, h).drop_last() =~= seq![b]);
    assert(seq![first].drop_last() =~= Seq::<usize>::empty());
    assert(seq![b].drop_last() =~= Seq::<usize>::empty());
    reveal_with_fuel(source_index, 5);
    let lead = source_index(seq![first], seq![b], i3);
    assert(lead == (if first == b {
        i3
    } else {
        0
    })) by {
        assert(0 * first == 0);
        if first == b {
            vstd::arithmetic::div_mod::lemma_small_mod(i3 as nat, b as nat);
        }
    }
    let second = source_index(shape2(first, 1), shape2(b, h), i2);
    assert(second == lead) by {
        assert(lead * 1 == lead);
        if h == 1 {
            assert(i2 % 1 == 0);
        }
    }
}

/// Slot `u` of row `p` of a batched index set is slot `u` of the query's row.
pub proof fn lemma_batched_slot(t: IndexView, b: usize, p: int, u: int)
    requires
        t.shape.len() == 2,
        0 <= p < b * t.shape[0],
        0 <= u < t.shape[1],
    ensures
        batched(t, b).data[p * t.shape[1] + u] == t.data[(p % t.shape[0] as int) * t.shape[1] + u],
{
    let (s, k) = (t.shape[0], t.shape[1]);
    let from = shape3(1, s, k);
    let to = shape3(b, s, k);
    let i = p * k + u;
    assert(t.shape.insert(0, 1) =~= from);
    crate::shape::lemma_cube(b, s, k);
    lemma_flat(p, u, b * s, k as int);
    lemma_divide(p, b as int, s as int);
    assert(from.drop_last() =~= shape2(1, s));
    assert(to.drop_last() =~= shape2(b, s));
    assert(shape2(1, s).drop_last() =~= seq![1usize]);
    assert(shape2(b, s).drop_last() =~= seq![b]);
    assert(seq![1usize].drop_last() =~= Seq::<usize>::empty());
    assert(seq![b].drop_last() =~= Seq::<usize>::empty());
    reveal_with_fuel(source_index, 4);
    let lead = source_index(seq![1usize], seq![b], p / s as int);
    assert(lead == 0) by {
        if b == 1 {
            assert((p / s as int) % 1 == 0);
        }
    }
    assert(lead * s == 0);
}

/// A key is listed in a batched index set if and only if it stands in the query's row.
pub proof fn lemma_batched_lists(t: IndexView, b: usize, p: int, j: int)
    requires
        t.shape.len() == 2,
        0 <= p < b * t.shape[0],
    ensures
        listed(batched(t, b), p, j) <==> row_lists(t, p % t.shape[0] as int, j),
{
    let y = batched(t, b);
    let k = t.shape[1];
    assert(y.shape[2] == k);
    if listed(y, p, j) {
        let u = choose|u: int| 0 <= u < k && #[trigger] y.data[p * y.shape[2] + u] == j;
        lemma_batched_slot(t, b, p, u);
        assert(t.data[(p % t.shape[0] as int) * t.shape[1] + u] == j);
    }
    if row_lists(t, p % t.shape[0] as int, j) {
        let u = choose|u: int|
            0 <= u < t.shape[1] && #[trigger] t.data[(p % t.shape[0] as int) * t.shape[1] + u]
                == j;
        lemma_batched_slot(t, b, p, u);
        assert(y.data[p * y.shape[2] + u] == j);
    }
}

/// A key is listed in two joined index sets if and only if one of them lists it.
pub proof fn lemma_joined_lists(x: IndexView, y: IndexView, b: usize, s: usize, p: int, j: int)
    requires
        x.shape.len() == 3,
        y.shape.len() == 3,
        x.shape[0] == b,
        x.shape[1] == s,
        x.shape[2] + y.shape[2] <= usize::MAX,
        0 <= p < b * s,
    ensures
        listed(joined(x, y, 2), p, j) <==> listed(x, p, j) || listed(y, p, j),
{
    let z = joined(x, y, 2);
    let (n, m) = (x.shape[2] as int, y.shape[2] as int);
    let k = n + m;
    assert(x.shape.skip(3) =~= Seq::<usize>::empty());
    assert(inner(x.shape, 2) == 1);
    assert(x.shape.take(2) =~= shape2(b, s));
    crate::shape::lemma_grid(b, s);
    assert(z.shape[2] == k);
    assert forall|u: int| 0 <= u < k implies #[trigger] z.data[p * k + u] == (if u < n {
        x.data[p * n + u]
    } else {
        y.data[p * m + (u - n)]
    }) by {
        let i = p * k + u;
        lemma_flat(p, u, b * s, k);
        assert(i / 1 == i && i % 1 == 0);
        let rows: int = b * s;
        assert(rows * k * 1 == rows * k) by (nonlinear_arith);
        assert(z.data.len() == rows * k);
        assert((p * n + u) * 1 + 0 == p * n + u);
        assert((p * m + (u - n)) * 1 + 0 == p * m + (u - n));
    }
    if listed(z, p, j) {
        let u = choose|u: int| 0 <= u < z.shape[2] && #[trigger] z.data[p * z.shape[2] + u] == j;
        assert(z.data[p * k + u] == j);
        if u < n {
            assert(x.data[p * x.shape[2] + u] == j);
        } else {
            assert(y.data[p * y.shape[2] + (u - n)] == j);
        }
    }
    if listed(x, p, j) {
        let u = choose|u: int| 0 <= u < x.shape[2] && #[trigger] x.data[p * x.shape[2] + u] == j;
        assert(z.data[p * k + u] == j);
        assert(z.data[p * z.shape[2] + u] == j);
    }
    if listed(y, p, j) {
        let u = choose|u: int| 0 <= u < y.shape[2] && #[trigger] y.data[p * y.shape[2] + u] == j;
        assert(z.data[p * k + (n + u)] == j);
        assert(z.data[p * z.shape[2] + (n + u)] == j);
    }
}

/// The block size by which a layer's blocks become visible.
pub open spec fn block_size(m: Mla) -> int {
    match m.indexer {
        Some(ix) => ix.compress_ratio as int,
        None => m.compress_ratio as int,
    }
}

/// The chosen blocks stand behind the latent keys and lie in the past.
proof fn lemma_chosen_are_past(m: Mla, x: V, qr: V, rope: RopeView, chosen: IndexView, p: int, j: int)
    requires
        m.wf(),
        m.compressor is Some,
        x.shape.len() == 3,
        2 * x.shape[1] <= i64::MAX,
        chosen_gives(m, x, qr, rope, chosen),
        0 <= p < x.shape[0] * x.shape[1],
        j >= 0,
    ensures
        ({
            let s = x.shape[1] as int;
            let past = (j - s + 1) * block_size(m) <= p % s + 1;
            &&& listed(chosen, p, j) ==> j >= s && past
            &&& j >= s && m.indexer is None && past ==> listed(chosen, p, j)
        }),
{
    let (b, s) = (x.shape[0], x.shape[1]);
    lemma_divide(p, b as int, s as int);
    match m.indexer {
        Some(ix) => {
            let t = choose|t: SelectSteps|
                #[trigger] select_steps(ix, x, qr, rope, t) && selected(
                    t.score.data,
                    b,
                    s,
                    block_count(s, ix.compress_ratio),
                    ix.compress_ratio,
                    kept_blocks(ix, s),
                    chosen,
                );
            let nb = block_count(s, ix.compress_ratio);
            let k = kept_blocks(ix, s);
            lemma_quotient(s as int, ix.compress_ratio as int);
            if listed(chosen, p, j) {
                let u = choose|u: int|
                    0 <= u < chosen.shape[2] && #[trigger] chosen.data[p * chosen.shape[2] + u]
                        == j;
                law_selection_is_causal(
                    t.score.data,
                    b,
                    s,
                    nb,
                    ix.compress_ratio,
                    k,
                    chosen,
                    p,
                    u,
                );
            }
        },
        None => {
            let rows = compress_idxs_of(m.compress_ratio, s, s);
            lemma_quotient(s as int, m.compress_ratio as int);
            lemma_batched_lists(rows, b, p, j);
            let i = p % s as int;
            if j >= s {
                law_compressed_keys(m.compress_ratio, s, s, i, j - s);
            } else if row_lists(rows, i, j) {
                let u = choose|u: int|
                    0 <= u < rows.shape[1] && #[trigger] rows.data[i * rows.shape[1] + u] == j;
                lemma_flat(i, u, s as int, rows.shape[1] as int);
            }
        },
    }
}

proof fn lemma_quotient(a: int, b: int)
    requires
        a >= 0,
        b > 0,
    ensures
        0 <= a / b <= a,
{
    assert(0 <= a / b <= a) by (nonlinear_arith)
        requires
            a >= 0,
            b > 0,
    ;
}

/// A query attends to nothing that lies after it. Of the latent keys it attends to exactly its
/// window; of the compressed blocks only to those whose tokens all lie at or before it, and to all
/// of them unless the layer selects.
pub proof fn law_attended_keys_are_past(
    m: Mla,
    x: V,
    qr: V,
    rope: RopeView,
    latent: V,
    keys: V,
    idxs: IndexView,
    p: int,
    j: int,
)
    requires
        m.wf(),
        x.shape.len() == 3,
        2 * x.shape[1] <= i64::MAX,
        keys_give(m, x, qr, rope, latent, keys, idxs),
        0 <= p < x.shape[0] * x.shape[1],
        j >= 0,
    ensures
        ({
            let s = x.shape[1] as int;
            let i = p % s;
            let past = (j - s + 1) * block_size(m) <= i + 1;
            &&& j < s ==> (listed(idxs, p, j) <==> window_start(m.window_size as int, i) <= j <= i)
            &&& j >= s && listed(idxs, p, j) ==> m.compressor is Some && past
            &&& j >= s && m.compressor is Some && m.indexer is None && past ==> listed(idxs, p, j)
        }),
{
    let (b, s) = (x.shape[0], x.shape[1]);
    let i = p % s as int;
    lemma_divide(p, b as int, s as int);
    let w = window_idxs_of(m.window_size, s);
    let window = batched(w, b);
    lemma_batched_lists(w, b, p, j);
    law_window_keys(m.window_size, s, i, j);
    match m.compressor {
        None => {},
        Some(c) => {
            let (blocks, chosen) = choose|blocks: V, chosen: IndexView|
                {
                    &&& #[trigger] compress_gives(c, x, rope, blocks)
                    &&& #[trigger] chosen_gives(m, x, qr, rope, chosen)
                    &&& cat_ok(latent.shape, blocks.shape, 1)
                    &&& keys == joined(latent, blocks, 1)
                    &&& cat_ok(window.shape, chosen.shape, 2)
                    &&& idxs == joined(window, chosen, 2)
                };
            lemma_chosen_are_past(m, x, qr, rope, chosen, p, j);
            lemma_joined_lists(window, chosen, b, s, p, j);
        },
    }
}

} // verus!
