//! Laws on calls: which inputs are taken, and what shape comes back.

use vstd::prelude::*;

use crate::error::TensorError;
use crate::model::TokenIds;
use crate::tensor::{Indices, Tensor};

#[allow(unused_imports)]
use crate::attention::{sdpa_with_sink, sparse_attn, Mla};
#[allow(unused_imports)]
use crate::block::Block;
#[allow(unused_imports)]
use crate::config::mix_width;
#[allow(unused_imports)]
use crate::layout::{
    block_layout, block_room, compressor_layout, hc_layout, indexer_layout, indexer_room,
    law_block_layout, law_compressor_layout, law_hc_layout, law_indexer_layout, law_mla_layout,
    law_model_layout, law_moe_layout, mla_layout, mla_ready, mla_room, model_layout, model_room,
    moe_layout, table_layout, Sizes,
};
#[allow(unused_imports)]
use crate::mhc::Hc;
#[allow(unused_imports)]
use crate::model::Transformer;
#[allow(unused_imports)]
use crate::moe::Moe;
#[allow(unused_imports)]
use crate::rope::Rope;
#[allow(unused_imports)]
use crate::shape::{fits, lemma_cube4, lemma_span_update, product, shape2, shape3, shape4, shape5};
#[allow(unused_imports)]
use crate::sparse::{Compressor, Indexer};

verus! {

/// Tables are built whenever they fit in memory, a row for each position and a column for each pair.
pub proof fn law_new_accepts(
    dim: usize,
    max_seq: usize,
    original: usize,
    base: u64,
    factor: u64,
    fast: u64,
    slow: u64,
    r: Result<Rope, TensorError>,
)
    requires
        call_ensures(Rope::new, (dim, max_seq, original, base, factor, fast, slow), r),
    ensures
        r is Ok <==> fits(shape2(max_seq, dim / 2)),
        r matches Ok(rope) ==> rope@.cos.shape == shape2(max_seq, dim / 2),
{
}

/// A rotation takes heads of twice the tables' width whose positions the tables reach, and refuses those
/// that they do not reach.
pub proof fn law_apply_accepts(
    rope: Rope,
    x: Tensor,
    start: usize,
    inverse: bool,
    r: Result<Tensor, TensorError>,
)
    requires
        call_ensures(Rope::apply, (&rope, &x, start, inverse), r),
        x@.shape.len() == 4,
        2 * rope@.cos.shape[1] == x@.shape[3],
    ensures
        r is Ok <==> start + x@.shape[1] <= rope@.cos.shape[0],
        r matches Ok(y) ==> y@.shape == x@.shape,
{
}

/// A rotation at listed positions takes heads of twice the tables' width, a position for each token, all
/// of them in the tables.
pub proof fn law_apply_at_accepts(
    rope: Rope,
    x: Tensor,
    positions: Vec<usize>,
    inverse: bool,
    r: Result<Tensor, TensorError>,
)
    requires
        call_ensures(Rope::apply_at, (&rope, &x, &positions, inverse), r),
        x@.shape.len() == 4,
        2 * rope@.cos.shape[1] == x@.shape[3],
        positions@.len() == x@.shape[1],
        x@.shape[1] <= rope@.cos.shape[0],
        forall|i: int|
            0 <= i < positions@.len() ==> (#[trigger] positions@[i]) < rope@.cos.shape[0],
    ensures
        r is Ok,
        r.unwrap()@.shape == x@.shape,
{
    let t = rope@.cos.shape;
    lemma_span_update(t, 0, x@.shape[1]);
}

/// Dense attention takes keys of the queries' width and a sink for each head.
pub proof fn law_dense_accepts(
    q: Tensor,
    kv: Tensor,
    sink: Tensor,
    scale: u64,
    causal: bool,
    idxs: Indices,
    r: Result<Tensor, TensorError>,
    l: Result<Tensor, TensorError>,
    b: usize,
    s: usize,
    h: usize,
    d: usize,
    n: usize,
)
    requires
        call_ensures(sdpa_with_sink, (&q, &kv, &sink, scale, causal), r),
        call_ensures(sparse_attn, (&q, &kv, &sink, &idxs, scale), l),
        q@.shape == shape4(b, s, h, d),
        kv@.shape == shape3(b, n, d),
        sink@.shape == seq![h],
        idxs@.shape.len() == 3,
        b > 0,
        s > 0,
        h > 0,
        n > 0,
        fits(shape4(b, h, n, d)),
        fits(shape4(b, h, s, n)),
    ensures
        r is Ok,
        r.unwrap()@.shape == shape4(b, s, h, d),
        l is Ok,
        l.unwrap()@.shape == shape4(b, s, h, d),
{
    assert(kv@.shape.insert(1, 1) =~= shape4(b, 1, n, d));
    crate::shape::lemma_expands_axes(shape4(b, 1, n, d), shape4(b, h, n, d));
    lemma_cube4(b, h, s, n);
    assert(b * h * s * n > 0) by (nonlinear_arith)
        requires
            b > 0,
            h > 0,
            s > 0,
            n > 0,
    ;
    assert(sink@.shape.drop_last() =~= Seq::<usize>::empty());
    reveal_with_fuel(product, 2);
    assert(1 * (h as nat) == h as nat);
}

/// A mixer collapses the streams of a documented shape, and expands a sublayer's output back to it.
pub proof fn law_mixer_accepts(
    h: Hc,
    x: Tensor,
    r: Result<(Tensor, Tensor, Tensor), TensorError>,
    z: Tensor,
    post: Tensor,
    comb: Tensor,
    y: Result<Tensor, TensorError>,
    b: usize,
    s: usize,
    dim: usize,
)
    requires
        call_ensures(Hc::pre, (&h, &x), r),
        call_ensures(Hc::post, (&h, &z, &x, &post, &comb), y),
        hc_layout(h, dim),
        x@.shape == shape4(b, s, h.hc, dim),
        z@.shape == shape3(b, s, dim),
        post@.shape == shape3(b, s, h.hc),
        comb@.shape == shape4(b, s, h.hc, h.hc),
        b > 0,
        s > 0,
        h.hc > 0,
        dim > 0,
        fits(shape5(b, s, h.hc, h.hc, dim)),
        b * s * mix_width(h.hc as int) <= usize::MAX,
    ensures
        r is Ok,
        r.unwrap().0@.shape == shape3(b, s, dim),
        r.unwrap().1@.shape == shape3(b, s, h.hc),
        r.unwrap().2@.shape == shape4(b, s, h.hc, h.hc),
        y is Ok,
        y.unwrap()@.shape == shape4(b, s, h.hc, dim),
{
    law_hc_layout(h, b, s, dim);
}

/// A mixture of the documented shapes gives back a row for each token.
pub proof fn law_moe_accepts(
    m: Moe,
    x: Tensor,
    r: Result<Tensor, TensorError>,
    n: usize,
    dim: usize,
    inter: usize,
    wide: usize,
)
    requires
        call_ensures(Moe::forward, (&m, &x), r),
        moe_layout(m, dim, inter, wide),
        x@.shape == shape2(n, dim),
        n > 0,
        0 < m.experts@.len() <= usize::MAX,
        fits(shape2(n, dim)),
        fits(shape2(n, inter)),
        fits(shape2(n, wide)),
        fits(shape2(n, m.experts@.len() as usize)),
    ensures
        r is Ok,
        r.unwrap()@.shape == shape2(n, dim),
{
    law_moe_layout(m, x@, n, dim, inter, wide);
}

/// A compressor of the documented shapes gives back a key for each block.
pub proof fn law_compress_accepts(
    c: Compressor,
    x: Tensor,
    rope: Rope,
    r: Result<Tensor, TensorError>,
    b: usize,
    s: usize,
    dim: usize,
)
    requires
        call_ensures(Compressor::compress, (&c, &x, &rope), r),
        compressor_layout(c, dim),
        x@.shape == shape3(b, s, dim),
        b > 0,
        s > 0,
        s % c.compress_ratio == 0,
        c.rope_head_dim > 0 ==> table_layout(rope@.cos.shape, c.rope_head_dim, s as int),
        fits(shape3(b, s, c.width() as usize)),
    ensures
        r is Ok,
        r.unwrap()@.shape == shape3(b, s / c.compress_ratio, c.head_dim),
{
    law_compressor_layout(c, b, s, dim, rope@.cos.shape);
}

/// A selector of the documented shapes gives back, for each query, `index_topk` slots or as many as there
/// are blocks.
pub proof fn law_select_accepts(
    ix: Indexer,
    x: Tensor,
    qr: Tensor,
    rope: Rope,
    r: Result<Indices, TensorError>,
    b: usize,
    s: usize,
    dim: usize,
    qlr: usize,
)
    requires
        call_ensures(Indexer::select, (&ix, &x, &qr, &rope), r),
        indexer_layout(ix, dim, qlr),
        indexer_room(ix, b, s),
        x@.shape == shape3(b, s, dim),
        qr@.shape == shape3(b, s, qlr),
        b > 0,
        s > 0,
        s % ix.compress_ratio == 0,
        ix.rope_head_dim > 0 ==> table_layout(rope@.cos.shape, ix.rope_head_dim, s as int),
        ix.compressor.rope_head_dim > 0 ==> table_layout(
            rope@.cos.shape,
            ix.compressor.rope_head_dim,
            s as int,
        ),
    ensures
        r is Ok,
        r.unwrap()@.shape[0] == b,
        r.unwrap()@.shape[1] == s,
        r.unwrap()@.shape[2] == (if ix.index_topk <= s / ix.compress_ratio {
            ix.index_topk
        } else {
            s / ix.compress_ratio
        }),
{
    law_indexer_layout(ix, b, s, dim, qlr, rope@.cos.shape);
}

/// An attention layer of the documented shapes gives back a row for each token.
pub proof fn law_mla_accepts(
    m: Mla,
    x: Tensor,
    rope: Rope,
    start: usize,
    r: Result<Tensor, TensorError>,
    b: usize,
    s: usize,
    dim: usize,
    qlr: usize,
)
    requires
        call_ensures(Mla::forward, (&m, &x, &rope, start), r),
        mla_layout(m, dim, qlr),
        mla_room(m, b, s, dim, qlr),
        mla_ready(m, s, rope@.cos.shape, start as int),
        x@.shape == shape3(b, s, dim),
        b > 0,
        s > 0,
    ensures
        r is Ok,
        r.unwrap()@.shape == shape3(b, s, dim),
{
    law_mla_layout(m, b, s, dim, qlr, rope@.cos.shape, start as int);
}

/// A decoder layer of the documented shapes gives back streams of the shape that it was given.
pub proof fn law_block_accepts(
    k: Block,
    x: Tensor,
    rope: Rope,
    start: usize,
    r: Result<Tensor, TensorError>,
    b: usize,
    s: usize,
    z: Sizes,
    hc: usize,
)
    requires
        call_ensures(Block::forward, (&k, &x, &rope, start), r),
        block_layout(k, z, hc),
        block_room(k, b, s, z, hc),
        mla_ready(k.attn, s, rope@.cos.shape, start as int),
        x@.shape == shape4(b, s, hc, z.dim),
        b > 0,
        s > 0,
        hc > 0,
        z.dim > 0,
    ensures
        r is Ok,
        r.unwrap()@.shape == x@.shape,
{
    law_block_layout(k, x@, rope@, start as int, b, s, z, hc);
}

/// A model of the documented shapes gives back a row of logits for each sequence of known tokens.
pub proof fn law_model_accepts(
    m: Transformer,
    ids: TokenIds,
    start: usize,
    r: Result<Tensor, TensorError>,
    b: usize,
    s: usize,
    z: Sizes,
)
    requires
        call_ensures(Transformer::forward, (&m, &ids, start), r),
        model_layout(m, z),
        model_room(m, b, s, z, start as int),
        ids@.shape == shape2(b, s),
        ids@.wf(),
        forall|i: int| 0 <= i < ids@.data.len() ==> (#[trigger] ids@.data[i]) < z.vocab,
        b > 0,
        s > 0,
        m.hc > 0,
        z.dim > 0,
    ensures
        r is Ok,
        r.unwrap()@.shape == shape2(b, z.vocab),
{
    law_model_layout(m, ids@, b, s, z, start as int);
}

} // verus!
