//! Laws of the attention layer: what a query gets is settled by the tokens up to it, and without
//! compression by the tokens of its window.

use vstd::prelude::*;

#[allow(unused_imports)]
use crate::attention::{
    attn_steps, batched, chosen_gives, keys_give, latent_gives, latent_steps,
    law_attended_keys_are_past, lemma_batched_lists, lemma_joined_lists, listed, mla_gives,
    mla_steps, output_gives, query_gives, query_steps, sparse_mask_of, weight_steps, AttnSteps,
    LatentSteps, Mla, MlaSteps, QuerySteps,
};
#[allow(unused_imports)]
use crate::bits::{absorbed, NEG_INFINITY, ZERO};
#[allow(unused_imports)]
use crate::causal::{
    blocks_agree, law_blocks_are_local, law_latents_are_per_token, law_queries_are_per_token,
    law_selection_of_a_query, law_selector_inputs_are_local, mixed_inputs, of_row, same_block,
    same_sources, selector_shapes,
};
#[allow(unused_imports)]
use crate::kernel::{left_row, right_column};
#[allow(unused_imports)]
use crate::layout::{indexer_layout, lemma_blocks, lemma_pigeons, lemma_positive, mla_layout};
#[allow(unused_imports)]
use crate::mix::{
    at, lemma_mix_linear, lemma_mix_reshaped, lemma_mix_same, lemma_mix_tail, lemma_position,
    lemma_quotients, mixed, same_row,
};
#[allow(unused_imports)]
use crate::ops::{linear_gives, multiplied};
#[allow(unused_imports)]
use crate::queries::{
    law_listed_row, law_weights_follow_the_open_keys, lemma_attended_shape, lemma_rows4, mask_of,
    query_of, row_of, same_key, score_of, sink_of, weights_give,
};
#[allow(unused_imports)]
use crate::rope::{rows_from, tail_rotated, RopeView};
#[allow(unused_imports)]
use crate::shape::{
    fits, inner, lemma_cube, lemma_cube4, lemma_divide, lemma_flat, outer, product, shape3, shape4,
};
#[allow(unused_imports)]
use crate::sparse::{
    block_count, compress_gives, compress_idxs_of, kept_blocks, law_compressed_keys, row_holds,
    row_lists, row_selected, select_gives, select_inputs, select_steps, selected, visible_blocks,
    window_idxs_of, window_start, Compressor, Indexer, SelectSteps,
};
#[allow(unused_imports)]
use crate::tensor::{cat_ok, joined, reshaped, swapped, IndexView, V};
#[allow(unused_imports)]
use crate::tokens::{lemma_piece, piece};
#[allow(unused_imports)]
use crate::topk::top_k_of;

verus! {

/// What the layer computes up to the weights of its queries.
pub struct LayerRun {
    pub qr: V,
    pub q: V,
    pub latent: V,
    pub blocks: V,
    pub select: SelectSteps,
    pub chosen: IndexView,
    pub keys: V,
    pub idxs: IndexView,
    pub attn: AttnSteps,
}

/// The compressed blocks of a run and the ones that its queries choose.
pub open spec fn run_chooses(m: Mla, c: Compressor, x: V, rope: RopeView, l: LayerRun) -> bool {
    &&& compress_gives(c, x, rope, l.blocks)
    &&& match m.indexer {
        Some(ix) => select_steps(ix, x, l.qr, rope, l.select) && selected(
            l.select.score.data,
            x.shape[0],
            x.shape[1],
            block_count(x.shape[1], ix.compress_ratio),
            ix.compress_ratio,
            kept_blocks(ix, x.shape[1]),
            l.chosen,
        ),
        None => l.chosen == batched(
            compress_idxs_of(m.compress_ratio, x.shape[1], x.shape[1]),
            x.shape[0],
        ),
    }
}

/// The keys and the index set of a run.
pub open spec fn run_keys(m: Mla, x: V, rope: RopeView, l: LayerRun) -> bool {
    let window = batched(window_idxs_of(m.window_size, x.shape[1]), x.shape[0]);
    match m.compressor {
        None => l.keys == l.latent && l.idxs == window,
        Some(c) => {
            &&& run_chooses(m, c, x, rope, l)
            &&& cat_ok(l.latent.shape, l.blocks.shape, 1)
            &&& l.keys == joined(l.latent, l.blocks, 1)
            &&& cat_ok(window.shape, l.chosen.shape, 2)
            &&& l.idxs == joined(window, l.chosen, 2)
        },
    }
}

/// `l` is a run of the layer on `x`, up to the weights of its queries.
pub open spec fn layer_run(m: Mla, x: V, rope: RopeView, start: int, l: LayerRun) -> bool {
    &&& query_gives(m, x, rope, start, l.qr, l.q)
    &&& latent_gives(m, x, rope, start, l.latent)
    &&& run_keys(m, x, rope, l)
    &&& weight_steps(
        l.q,
        l.keys,
        m.attn_sink@,
        m.scale,
        Some(sparse_mask_of(x.shape[0], x.shape[1], l.keys.shape[1], l.idxs)),
        l.attn,
    )
}

/// Whatever the layer gives comes out of a run.
pub proof fn law_layer_runs(m: Mla, x: V, rope: RopeView, start: int, y: V)
    requires
        mla_gives(m, x, rope, start, y),
    ensures
        exists|l: LayerRun| layer_run(m, x, rope, start, l),
{
    reveal(mla_gives);
    let t = choose|t: MlaSteps| mla_steps(m, x, rope, start, t, y);
    let (b, s) = (x.shape[0], x.shape[1]);
    let mask = sparse_mask_of(b, s, t.keys.shape[1], t.idxs);
    let attn = choose|u: AttnSteps|
        attn_steps(t.q, t.keys, m.attn_sink@, m.scale, Some(mask), u, t.attended);
    let base = LayerRun {
        qr: t.qr,
        q: t.q,
        latent: t.latent,
        blocks: t.latent,
        select: arbitrary(),
        chosen: t.idxs,
        keys: t.keys,
        idxs: t.idxs,
        attn,
    };
    match m.compressor {
        None => {
            assert(layer_run(m, x, rope, start, base));
        },
        Some(c) => {
            let window = batched(window_idxs_of(m.window_size, s), b);
            let (blocks, chosen) = choose|blocks: V, chosen: IndexView|
                {
                    &&& #[trigger] compress_gives(c, x, rope, blocks)
                    &&& #[trigger] chosen_gives(m, x, t.qr, rope, chosen)
                    &&& cat_ok(t.latent.shape, blocks.shape, 1)
                    &&& t.keys == joined(t.latent, blocks, 1)
                    &&& cat_ok(window.shape, chosen.shape, 2)
                    &&& t.idxs == joined(window, chosen, 2)
                };
            match m.indexer {
                Some(ix) => {
                    let select = choose|u: SelectSteps|
                        #[trigger] select_steps(ix, x, t.qr, rope, u) && selected(
                            u.score.data,
                            b,
                            s,
                            block_count(s, ix.compress_ratio),
                            ix.compress_ratio,
                            kept_blocks(ix, s),
                            chosen,
                        );
                    assert(layer_run(
                        m,
                        x,
                        rope,
                        start,
                        LayerRun { blocks, chosen, select, ..base },
                    ));
                },
                None => {
                    assert(layer_run(m, x, rope, start, LayerRun { blocks, chosen, ..base }));
                },
            }
        },
    }
}

/// The tokens that `f` names are the same in both.
pub open spec fn tokens_agree(x: V, x2: V, f: spec_fn(int) -> bool) -> bool {
    forall|p: int|
        0 <= p < x.shape[0] * x.shape[1] && f(p) ==> #[trigger] same_row(
            x,
            x2,
            x.shape[2] as int,
            p,
        )
}

/// What goes into the blocks that `g` names is the same in both, for the layer's compressor and for
/// that of its selector.
pub open spec fn sources_agree(m: Mla, x: V, x2: V, g: spec_fn(int) -> bool) -> bool {
    &&& m.compressor matches Some(c) ==> blocks_agree(c, x, x2, g)
    &&& m.indexer matches Some(ix) ==> blocks_agree(ix.compressor, x, x2, g)
}

/// Inputs of the documented shapes, with whole blocks, and rotated tails of even width.
pub open spec fn layer_inputs(m: Mla, x: V, x2: V, qlr: usize) -> bool {
    &&& x.shape.len() == 3
    &&& x2.shape == x.shape
    &&& x.wf()
    &&& x2.wf()
    &&& mla_layout(m, x.shape[2], qlr)
    &&& x.shape[0] > 0
    &&& x.shape[1] > 0
    &&& qlr > 0
    &&& 2 * x.shape[1] <= i64::MAX
    &&& m.rope_head_dim % 2 == 0
    &&& m.compressor matches Some(c) ==> c.rope_head_dim % 2 == 0 && x.shape[1] as int
        % c.compress_ratio as int == 0
    &&& m.indexer matches Some(ix) ==> ix.rope_head_dim % 2 == 0 && ix.compressor.rope_head_dim % 2
        == 0
}

/// Both runs scale the selector's head weights by the same constant.
pub open spec fn same_scaling(m: Mla, l: LayerRun, l2: LayerRun) -> bool {
    m.indexer is Some ==> l.select.factor == l2.select.factor
}

/// The tokens that `f` names and the blocks that `g` names have their queries, keys, and what the
/// selector starts from, out of the run `l`, and all others out of the run `l2`.
pub open spec fn put_together(
    m: Mla,
    qlr: usize,
    l: LayerRun,
    l2: LayerRun,
    f: spec_fn(int) -> bool,
    g: spec_fn(int) -> bool,
    l3: LayerRun,
) -> bool {
    &&& l3.qr == mixed(l.qr, l2.qr, at(f, qlr as int))
    &&& l3.q == mixed(l.q, l2.q, at(f, m.n_heads * m.head_dim))
    &&& l3.latent == mixed(l.latent, l2.latent, at(f, m.head_dim as int))
    &&& m.compressor is Some ==> l3.blocks == mixed(l.blocks, l2.blocks, at(g, m.head_dim as int))
    &&& m.indexer matches Some(ix) ==> {
        let u = mixed_inputs(ix, l.select, l2.select, f, g);
        &&& l3.select.q == u.q
        &&& l3.select.compressed == u.compressed
        &&& l3.select.weights == u.weights
    }
}

/// Two runs put together are outcomes on the second input: its queries, its keys and what its
/// selector starts from.
pub open spec fn carries_over(
    m: Mla,
    x2: V,
    rope: RopeView,
    start: int,
    qlr: usize,
    l: LayerRun,
    l2: LayerRun,
    f: spec_fn(int) -> bool,
    g: spec_fn(int) -> bool,
) -> bool {
    let qr = mixed(l.qr, l2.qr, at(f, qlr as int));
    &&& query_gives(m, x2, rope, start, qr, mixed(l.q, l2.q, at(f, m.n_heads * m.head_dim)))
    &&& latent_gives(m, x2, rope, start, mixed(l.latent, l2.latent, at(f, m.head_dim as int)))
    &&& m.compressor matches Some(c) ==> compress_gives(
        c,
        x2,
        rope,
        mixed(l.blocks, l2.blocks, at(g, m.head_dim as int)),
    )
    &&& m.indexer matches Some(ix) ==> select_inputs(
        ix,
        x2,
        qr,
        rope,
        mixed_inputs(ix, l.select, l2.select, f, g),
    )
}

/// The same elements, so the same bound in memory, in two shapes without empty axes.
proof fn lemma_same_span(s: Seq<usize>, t: Seq<usize>)
    requires
        forall|i: int| 0 <= i < s.len() ==> (#[trigger] s[i]) > 0,
        forall|i: int| 0 <= i < t.len() ==> (#[trigger] t[i]) > 0,
        product(s) == product(t),
        fits(s),
    ensures
        fits(t),
{
    lemma_positive(s);
    lemma_positive(t);
}

/// Inputs that agree on the tokens that `f` names are one where they are mixed.
proof fn lemma_tokens_mixed(x: V, x2: V, f: spec_fn(int) -> bool)
    requires
        x.shape.len() == 3,
        x2.shape == x.shape,
        x.wf(),
        x2.wf(),
        tokens_agree(x, x2, f),
    ensures
        mixed(x, x2, at(f, x.shape[2] as int)) == x2,
{
    let (b, s, k) = (x.shape[0], x.shape[1], x.shape[2] as int);
    let g = at(f, k);
    assert(x.shape =~= shape3(b, s, x.shape[2]));
    lemma_cube(b, s, x.shape[2]);
    assert forall|e: int| 0 <= e < x2.data.len() && g(e) implies #[trigger] x.data[e]
        == x2.data[e] by {
        lemma_divide(e, b * s, k);
        assert(same_row(x, x2, k, e / k));
    }
    lemma_mix_same(x, x2, g);
}

/// The queries of all heads fit in memory side by side as they do head by head.
pub proof fn lemma_query_fits(m: Mla, x: V, rope: RopeView, start: int, qr: V, q: V, qlr: usize)
    requires
        x.shape.len() == 3,
        x.wf(),
        mla_layout(m, x.shape[2], qlr),
        x.shape[0] > 0,
        x.shape[1] > 0,
        query_gives(m, x, rope, start, qr, q),
    ensures
        fits(shape4(x.shape[0], x.shape[1], m.n_heads, m.head_dim)),
{
    reveal(query_gives);
    let (b, s) = (x.shape[0], x.shape[1]);
    let (h, hd) = (m.n_heads, m.head_dim);
    let t = choose|t: QuerySteps| query_steps(m, x, rope, start, t, qr, q);
    assert(x.shape.drop_last().push(qlr) =~= shape3(b, s, qlr));
    crate::tokens::lemma_norm_shape(t.low, m.q_norm@, m.eps, qr);
    lemma_head_span(qr, m.wq_b@, t.flat, b, s, h, hd);
}

/// The same of the selector's queries.
proof fn lemma_select_fits(ix: Indexer, x: V, qr: V, rope: RopeView, t: SelectSteps)
    requires
        x.shape.len() == 3,
        qr.shape == shape3(x.shape[0], x.shape[1], qr.shape[2]),
        indexer_layout(ix, x.shape[2], qr.shape[2]),
        x.shape[0] > 0,
        x.shape[1] > 0,
        select_inputs(ix, x, qr, rope, t),
    ensures
        fits(shape4(x.shape[0], x.shape[1], ix.n_heads, ix.head_dim)),
{
    reveal(select_inputs);
    lemma_head_span(qr, ix.wq_b@, t.q_flat, x.shape[0], x.shape[1], ix.n_heads, ix.head_dim);
}

/// What fits for all heads together fits head by head.
proof fn lemma_head_span(qr: V, w: V, flat: V, b: usize, s: usize, h: usize, hd: usize)
    requires
        linear_gives(qr, w, flat),
        qr.shape == shape3(b, s, qr.shape[2]),
        h * hd <= usize::MAX,
        w.shape[0] == h * hd,
        b > 0,
        s > 0,
        h > 0,
        hd > 0,
    ensures
        fits(shape4(b, s, h, hd)),
{
    let wide = (h * hd) as usize;
    assert(h * hd > 0) by (nonlinear_arith)
        requires
            h > 0,
            hd > 0,
    ;
    assert(qr.shape.drop_last().push(wide) =~= shape3(b, s, wide));
    lemma_cube(b, s, wide);
    lemma_cube4(b, s, h, hd);
    assert(b * s * h * hd == b * s * wide) by (nonlinear_arith)
        requires
            wide == h * hd,
    ;
    lemma_same_span(shape3(b, s, wide), shape4(b, s, h, hd));
}

/// The parts of two runs have the documented shapes, and put together they are outcomes.
proof fn lemma_carries_over(
    m: Mla,
    x: V,
    x2: V,
    rope: RopeView,
    start: int,
    qlr: usize,
    l: LayerRun,
    l2: LayerRun,
    f: spec_fn(int) -> bool,
    g: spec_fn(int) -> bool,
)
    requires
        layer_inputs(m, x, x2, qlr),
        layer_run(m, x, rope, start, l),
        layer_run(m, x2, rope, start, l2),
        same_scaling(m, l, l2),
        tokens_agree(x, x2, f),
        sources_agree(m, x, x2, g),
    ensures
        carries_over(m, x2, rope, start, qlr, l, l2, f, g),
        l.q.wf(),
        l.latent.wf(),
        l2.q.wf(),
        l2.latent.wf(),
        l.q.shape == shape4(x.shape[0], x.shape[1], m.n_heads, m.head_dim),
        l2.q.shape == l.q.shape,
        l.latent.shape == shape3(x.shape[0], x.shape[1], m.head_dim),
        l2.latent.shape == l.latent.shape,
        m.compressor matches Some(c) ==> l.blocks.wf() && l2.blocks.wf() && l.blocks.shape == shape3(
            x.shape[0],
            block_count(x.shape[1], m.compress_ratio),
            m.head_dim,
        ) && l2.blocks.shape == l.blocks.shape,
        m.indexer matches Some(ix) ==> selector_shapes(ix, x.shape, l.select) && selector_shapes(
            ix,
            x.shape,
            l2.select,
        ),
{
    let (b, s, dim) = (x.shape[0], x.shape[1], x.shape[2]);
    let (h, hd) = (m.n_heads, m.head_dim);
    lemma_tokens_mixed(x, x2, f);
    lemma_query_fits(m, x, rope, start, l.qr, l.q, qlr);
    law_queries_are_per_token(m, x, x2, rope, start, l.qr, l.q, l2.qr, l2.q, qlr, f);
    law_latents_are_per_token(m, x, x2, rope, start, l.latent, l2.latent, qlr, f);
    if let Some(c) = m.compressor {
        law_blocks_are_local(c, x, x2, rope, l.blocks, l2.blocks, g);
    }
    if let Some(ix) = m.indexer {
        lemma_select_fits(ix, x, l.qr, rope, l.select);
        law_selector_inputs_are_local(
            ix,
            x,
            x2,
            l.qr,
            l2.qr,
            rope,
            l.select,
            l2.select,
            f,
            g,
        );
    }
}

/// The keys of a layer that compresses: the latent keys of a sequence, then its blocks.
pub proof fn lemma_joined_keys(lat: V, blk: V, b: usize, s: usize, nb: usize, hd: usize)
    requires
        lat.wf(),
        blk.wf(),
        lat.shape == shape3(b, s, hd),
        blk.shape == shape3(b, nb, hd),
        cat_ok(lat.shape, blk.shape, 1),
    ensures
        joined(lat, blk, 1).wf(),
        s + nb <= usize::MAX,
        joined(lat, blk, 1).shape == shape3(b, (s + nb) as usize, hd),
        forall|a: int, j: int, x: int|
            0 <= a < b && 0 <= j < s + nb && 0 <= x < hd ==> #[trigger] joined(
                lat,
                blk,
                1,
            ).data[(a * (s + nb) + j) * hd + x] == (if j < s {
                lat.data[(a * s + j) * hd + x]
            } else {
                blk.data[(a * nb + (j - s)) * hd + x]
            }),
{
    let t = joined(lat, blk, 1);
    let n = s + nb;
    assert(t.shape =~= shape3(b, n as usize, hd));
    lemma_cube(b, n as usize, hd);
    let p = lat.shape;
    assert(p.take(1).drop_last() =~= Seq::<usize>::empty());
    assert(p.take(1).last() == b);
    assert(p.skip(2).drop_last() =~= Seq::<usize>::empty());
    assert(p.skip(2).last() == hd);
    reveal_with_fuel(product, 2);
    assert(outer(p, 1) == 1 * (b as nat) && inner(p, 1) == 1 * (hd as nat));
    assert forall|a: int, j: int, x: int|
        0 <= a < b && 0 <= j < n && 0 <= x < hd implies #[trigger] t.data[(a * n + j) * hd + x] == (if j
        < s {
        lat.data[(a * s + j) * hd + x]
    } else {
        blk.data[(a * nb + (j - s)) * hd + x]
    }) by {
        lemma_flat(a, j, b as int, n);
        lemma_flat(a * n + j, x, b * n, hd as int);
    }
}

/// The shapes of the keys of a run.
pub open spec fn keys_shaped(m: Mla, b: usize, s: usize, l: LayerRun) -> bool {
    &&& l.keys.wf()
    &&& l.keys.shape == shape3(b, l.keys.shape[1], m.head_dim)
    &&& l.keys.shape[1] == s + (if m.compressor is Some {
        block_count(s, m.compress_ratio) as int
    } else {
        0
    })
}

proof fn lemma_keys_shaped(m: Mla, x: V, rope: RopeView, l: LayerRun)
    requires
        x.shape.len() == 3,
        run_keys(m, x, rope, l),
        l.latent.wf(),
        l.latent.shape == shape3(x.shape[0], x.shape[1], m.head_dim),
        m.compressor is Some ==> l.blocks.wf() && l.blocks.shape == shape3(
            x.shape[0],
            block_count(x.shape[1], m.compress_ratio),
            m.head_dim,
        ),
    ensures
        keys_shaped(m, x.shape[0], x.shape[1], l),
{
    if m.compressor is Some {
        lemma_joined_keys(
            l.latent,
            l.blocks,
            x.shape[0],
            x.shape[1],
            block_count(x.shape[1], m.compress_ratio),
            m.head_dim,
        );
    }
}

/// A key that both sets name is taken over.
proof fn lemma_key_taken(
    m: Mla,
    qlr: usize,
    b: usize,
    s: usize,
    l: LayerRun,
    l2: LayerRun,
    l3: LayerRun,
    f: spec_fn(int) -> bool,
    g: spec_fn(int) -> bool,
    a: int,
    j: int,
)
    requires
        put_together(m, qlr, l, l2, f, g, l3),
        l.latent.wf(),
        l2.latent.wf(),
        l.latent.shape == shape3(b, s, m.head_dim),
        l2.latent.shape == l.latent.shape,
        match m.compressor {
            None => l.keys == l.latent && l3.keys == l3.latent,
            Some(c) => {
                &&& l.blocks.wf()
                &&& l2.blocks.wf()
                &&& l.blocks.shape == shape3(b, block_count(s, m.compress_ratio), m.head_dim)
                &&& l2.blocks.shape == l.blocks.shape
                &&& cat_ok(l.latent.shape, l.blocks.shape, 1)
                &&& l.keys == joined(l.latent, l.blocks, 1)
                &&& l3.keys == joined(l3.latent, l3.blocks, 1)
            },
        },
        m.head_dim > 0,
        0 <= a < b,
        0 <= j < l.keys.shape[1],
        j < s ==> f(a * s + j),
        j >= s ==> g(a * block_count(s, m.compress_ratio) + (j - s)),
    ensures
        same_key(l.keys, l3.keys, a, j),
{
    let hd = m.head_dim as int;
    let nb = block_count(s, m.compress_ratio);
    lemma_cube(b, s, m.head_dim);
    lemma_cube(b, nb, m.head_dim);
    let n = l.keys.shape[1] as int;
    match m.compressor {
        None => {},
        Some(c) => {
            lemma_joined_keys(l.latent, l.blocks, b, s, nb, m.head_dim);
            lemma_joined_keys(l3.latent, l3.blocks, b, s, nb, m.head_dim);
        },
    }
    let from = (a * n + j) * hd;
    lemma_cube(b, n as usize, m.head_dim);
    lemma_flat(a, j, b as int, n);
    lemma_flat(a * n + j, hd - 1, b * n, hd);
    assert(from >= 0) by (nonlinear_arith)
        requires
            from == (a * n + j) * hd,
            a * n + j >= 0,
            hd > 0,
    ;
    let (k, k3) = (l.keys.data.subrange(from, from + hd), l3.keys.data.subrange(from, from + hd));
    assert forall|x: int| 0 <= x < hd implies k[x] == k3[x] by {
        if j < s {
            lemma_flat(a, j, b as int, s as int);
            lemma_flat(a * s + j, x, b * s, hd);
            lemma_quotients(a * s + j, x, hd, 1);
            let e = (a * s + j) * hd + x;
            assert(l3.latent.data[e] == l.latent.data[e]);
        } else {
            let q = a * nb + (j - s);
            lemma_flat(a, j - s, b as int, nb as int);
            lemma_flat(q, x, b * nb, hd);
            lemma_quotients(q, x, hd, 1);
            let e = q * hd + x;
            assert(l3.blocks.data[e] == l.blocks.data[e]);
        }
        assert(l.keys.data[from + x] == l3.keys.data[from + x]);
    }
    assert(k =~= k3);
}

/// The query of a named token is taken over.
proof fn lemma_query_taken(
    q: V,
    q2: V,
    f: spec_fn(int) -> bool,
    b: usize,
    s: usize,
    h: usize,
    hd: usize,
    a: int,
    i: int,
    c: int,
)
    requires
        q.wf(),
        q2.wf(),
        q.shape == shape4(b, s, h, hd),
        q2.shape == q.shape,
        0 <= a < b,
        0 <= i < s,
        0 <= c < h,
        f(a * s + i),
    ensures
        query_of(mixed(q, q2, at(f, h * hd)), a, i, c) == query_of(q, a, i, c),
{
    let u = mixed(q, q2, at(f, h * hd));
    let p = (a * s + i) * h + c;
    lemma_rows4(q.shape, b, s, h, hd);
    lemma_flat(a, i, b as int, s as int);
    lemma_flat(a * s + i, c, b * s, h as int);
    lemma_piece(q, 3, p);
    lemma_piece(u, 3, p);
    let (l, l1) = (query_of(u, a, i, c), query_of(q, a, i, c));
    assert forall|x: int| 0 <= x < hd implies l.data[x] == l1.data[x] by {
        let e = p * hd + x;
        lemma_quotients(p, x, hd as int, h as int);
        lemma_quotients(a * s + i, c, h as int, 1);
        lemma_flat(p, x, b * s * h, hd as int);
        assert(e / (h * hd) == a * s + i);
        assert(u.data[e] == q.data[e]);
    }
    assert(l.data =~= l1.data);
}

/// The mask of a run, with room for its rows.
pub proof fn lemma_mask_fits(q: V, keys: V, sink: V, scale: u64, mask: V, t: AttnSteps)
    requires
        weight_steps(q, keys, sink, scale, Some(mask), t),
        q.shape.len() == 4,
        keys.shape == shape3(q.shape[0], keys.shape[1], q.shape[3]),
        q.shape[2] > 0,
    ensures
        fits(shape4(q.shape[0], 1, q.shape[1], keys.shape[1])),
{
    reveal(weight_steps);
    let (b, s, h, n) = (q.shape[0], q.shape[1], q.shape[2], keys.shape[1]);
    let full = shape4(b, h, s, n);
    let across = swapped(t.keys, 2);
    assert(across.shape =~= shape4(b, h, q.shape[3], n));
    assert(t.heads.shape =~= shape4(b, h, s, q.shape[3]));
    assert(t.heads.shape.drop_last().push(n) =~= full);
    crate::shape::lemma_span_update(full, 1, 1);
    assert(full.update(1, 1) =~= shape4(b, 1, s, n));
}

/// The shape of what the layer gives.
pub proof fn lemma_layer_shape(m: Mla, x: V, rope: RopeView, start: int, y: V, qlr: usize)
    requires
        layer_inputs(m, x, x, qlr),
        mla_gives(m, x, rope, start, y),
    ensures
        y.wf(),
        y.shape == x.shape,
{
    reveal(mla_gives);
    let (b, s, dim, hd) = (x.shape[0], x.shape[1], x.shape[2], m.head_dim);
    let t = choose|t: MlaSteps| mla_steps(m, x, rope, start, t, y);
    let f = |p: int| false;
    lemma_query_fits(m, x, rope, start, t.qr, t.q, qlr);
    law_queries_are_per_token(m, x, x, rope, start, t.qr, t.q, t.qr, t.q, qlr, f);
    law_latents_are_per_token(m, x, x, rope, start, t.latent, t.latent, qlr, f);
    if let Some(c) = m.compressor {
        let window = batched(window_idxs_of(m.window_size, s), b);
        let (blocks, chosen) = choose|blocks: V, chosen: IndexView|
            {
                &&& #[trigger] compress_gives(c, x, rope, blocks)
                &&& #[trigger] chosen_gives(m, x, t.qr, rope, chosen)
                &&& cat_ok(t.latent.shape, blocks.shape, 1)
                &&& t.keys == joined(t.latent, blocks, 1)
                &&& cat_ok(window.shape, chosen.shape, 2)
                &&& t.idxs == joined(window, chosen, 2)
            };
        law_blocks_are_local(c, x, x, rope, blocks, blocks, f);
        lemma_joined_keys(t.latent, blocks, b, s, block_count(s, m.compress_ratio), hd);
    }
    let n = t.keys.shape[1];
    let mask = sparse_mask_of(b, s, n, t.idxs);
    let u = choose|u: AttnSteps|
        attn_steps(t.q, t.keys, m.attn_sink@, m.scale, Some(mask), u, t.attended);
    lemma_mask_fits(t.q, t.keys, m.attn_sink@, m.scale, mask, u);
    lemma_cube4(b, 1, s, n);
    assert(b * 1 * s * n == b * s * n) by (nonlinear_arith);
    lemma_attended_shape(t.q, t.keys, m.attn_sink@, m.scale, Some(mask), t.attended);
    law_layer_end_is_per_token(
        m,
        t.attended,
        t.attended,
        rope,
        start,
        t.turned,
        t.turned,
        t.grouped,
        t.grouped,
        y,
        y,
        dim,
        qlr,
        f,
    );
    assert(x.shape =~= shape3(b, s, dim));
}

/// Keys that one index set lists for a query are listed by the other.
pub open spec fn same_listed(x: IndexView, y: IndexView, row: int, n: int) -> bool {
    forall|j: int| 0 <= j < n ==> #[trigger] listed(x, row, j) == listed(y, row, j)
}

/// The keys that are not listed for query `i` of head `c` in sequence `a` have scores that the mask
/// closes: neither positive infinity nor a NaN.
pub open spec fn unlisted_closed(l: LayerRun, s: int, a: int, i: int, c: int) -> bool {
    forall|j: int|
        0 <= j < l.keys.shape[1] && !listed(l.idxs, a * s + i, j) ==> absorbed(
            #[trigger] score_of(l.attn, a, i, c, j),
        )
}

/// The keys that are listed for query `i` in sequence `a` are among the named tokens and blocks.
pub open spec fn listed_named(
    m: Mla,
    l: LayerRun,
    s: usize,
    a: int,
    i: int,
    f: spec_fn(int) -> bool,
    g: spec_fn(int) -> bool,
) -> bool {
    forall|j: int|
        0 <= j < l.keys.shape[1] && #[trigger] listed(l.idxs, a * s + i, j) ==> if j < s {
            f(a * s + j)
        } else {
            g(a * block_count(s, m.compress_ratio) + (j - s))
        }
}

/// `w` are weights that query `i` of head `c` in sequence `a` of the run may come to.
pub open spec fn row_outcome(m: Mla, s: usize, l: LayerRun, a: int, i: int, c: int, w: V) -> bool {
    weights_give(
        query_of(l.q, a, i, c),
        piece(l.keys, 1, a),
        sink_of(m.attn_sink@, c),
        m.scale,
        Some(
            mask_of(
                sparse_mask_of(l.keys.shape[0], s, l.keys.shape[1], l.idxs),
                a,
                i,
            ),
        ),
        w,
    )
}

/// A query whose token and whose keys are among the named ones keeps its weights when two runs are
/// put together.
proof fn lemma_row_carries_over(
    m: Mla,
    x: V,
    x2: V,
    rope: RopeView,
    start: int,
    qlr: usize,
    l: LayerRun,
    l2: LayerRun,
    l3: LayerRun,
    f: spec_fn(int) -> bool,
    g: spec_fn(int) -> bool,
    a: int,
    i: int,
    c: int,
)
    requires
        layer_inputs(m, x, x2, qlr),
        layer_run(m, x, rope, start, l),
        layer_run(m, x2, rope, start, l2),
        layer_run(m, x2, rope, start, l3),
        same_scaling(m, l, l2),
        tokens_agree(x, x2, f),
        sources_agree(m, x, x2, g),
        put_together(m, qlr, l, l2, f, g, l3),
        0 <= a < x.shape[0],
        0 <= i < x.shape[1],
        0 <= c < m.n_heads,
        f(a * x.shape[1] + i),
        listed_named(m, l, x.shape[1], a, i, f, g),
        same_listed(l.idxs, l3.idxs, a * x.shape[1] + i, l.keys.shape[1] as int),
        unlisted_closed(l, x.shape[1] as int, a, i, c),
        unlisted_closed(l3, x.shape[1] as int, a, i, c),
    ensures
        row_outcome(m, x.shape[1], l3, a, i, c, row_of(l.attn.weights, a, i, c)),
{
    let (b, s, h, hd) = (x.shape[0], x.shape[1], m.n_heads, m.head_dim);
    lemma_carries_over(m, x, x2, rope, start, qlr, l, l2, f, g);
    lemma_keys_shaped(m, x, rope, l);
    lemma_keys_shaped(m, x2, rope, l3);
    let n = l.keys.shape[1];
    let (k, k3) = (sparse_mask_of(b, s, n, l.idxs), sparse_mask_of(b, s, n, l3.idxs));
    assert(l3.keys.shape[1] == n);
    lemma_query_taken(l.q, l2.q, f, b, s, h, hd, a, i, c);
    lemma_mask_fits(l.q, l.keys, m.attn_sink@, m.scale, k, l.attn);
    lemma_cube4(b, 1, s, n);
    assert(b * 1 * s * n == b * s * n) by (nonlinear_arith);
    assert(k.wf() && k3.wf());
    lemma_rows4(k.shape, b, 1, s, n);
    let o: int = if b == 1 {
        0
    } else {
        a
    };
    assert(o == a);
    lemma_flat(a, i, b as int, s as int);
    assert(b * 1 * s == b * s) by (nonlinear_arith);
    lemma_piece(k, 3, a * s + i);
    lemma_piece(k3, 3, a * s + i);
    let (r, r3) = (mask_of(k, a, i), mask_of(k3, a, i));
    assert forall|j: int| 0 <= j < n implies #[trigger] r.data[j] == r3.data[j] && (r.data[j]
        == NEG_INFINITY <==> !listed(l.idxs, a * s + i, j)) by {
        law_listed_row(b, s, n, l.idxs, a, i, j);
        law_listed_row(b, s, n, l3.idxs, a, i, j);
        assert(listed(l.idxs, a * s + i, j) == listed(l3.idxs, a * s + i, j));
        assert(NEG_INFINITY != ZERO);
    }
    assert(r.data =~= r3.data);
    assert forall|j: int| 0 <= j < n && r.data[j] != NEG_INFINITY implies #[trigger] same_key(
        l.keys,
        l3.keys,
        a,
        j,
    ) by {
        assert(listed(l.idxs, a * s + i, j));
        lemma_key_taken(m, qlr, b, s, l, l2, l3, f, g, a, j);
    }
    assert forall|j: int| 0 <= j < n && r.data[j] == NEG_INFINITY implies absorbed(
        #[trigger] score_of(l.attn, a, i, c, j),
    ) by {
        assert(!listed(l.idxs, a * s + i, j));
    }
    assert forall|j: int| 0 <= j < n && r.data[j] == NEG_INFINITY implies absorbed(
        #[trigger] score_of(l3.attn, a, i, c, j),
    ) by {
        assert(listed(l.idxs, a * s + i, j) == listed(l3.idxs, a * s + i, j));
    }
    law_weights_follow_the_open_keys(
        l.q,
        l.keys,
        l.attn,
        l3.q,
        l3.keys,
        l3.attn,
        m.attn_sink@,
        m.scale,
        k,
        k3,
        a,
        i,
        c,
    );
}

/// The tokens up to place `i` of their sequence.
pub open spec fn up_to(s: int, i: int) -> spec_fn(int) -> bool {
    |p: int| p % s <= i
}

/// The blocks of which every token lies up to place `i` of its sequence.
pub open spec fn whole_up_to(nb: int, ratio: int, i: int) -> spec_fn(int) -> bool {
    |q: int| (q % nb + 1) * ratio <= i + 1
}

/// The tokens of the window of place `i` of their sequence.
pub open spec fn inside_window(s: int, w: int, i: int) -> spec_fn(int) -> bool {
    |p: int| window_start(w, i) <= p % s <= i
}

/// Blocks whose tokens all lie up to a place have their tokens in common where the tokens up to it
/// are.
proof fn lemma_past_sources(c: Compressor, x: V, x2: V, i: int)
    requires
        x.shape.len() == 3,
        x.shape[1] > 0,
        c.compress_ratio > 0,
        x.shape[1] as int % c.compress_ratio as int == 0,
        tokens_agree(x, x2, up_to(x.shape[1] as int, i)),
    ensures
        blocks_agree(
            c,
            x,
            x2,
            whole_up_to(
                block_count(x.shape[1], c.compress_ratio) as int,
                c.compress_ratio as int,
                i,
            ),
        ),
{
    let (b, s, k, r) = (
        x.shape[0] as int,
        x.shape[1] as int,
        x.shape[2] as int,
        c.compress_ratio as int,
    );
    lemma_blocks(x.shape[1], c.compress_ratio);
    let nb = block_count(x.shape[1], c.compress_ratio) as int;
    let g = whole_up_to(nb, r, i);
    assert forall|q: int| 0 <= q < b * nb && g(q) implies #[trigger] same_sources(c, x, x2, q) by {
        lemma_divide(q, b, nb);
        let (a, u) = (q / nb, q % nb);
        lemma_block_tokens(x, x2, b, nb, r, i, q);
        if c.overlaps() && u != 0 {
            assert((q - 1) / nb == a && (q - 1) % nb == u - 1) by {
                lemma_flat(a, u - 1, b, nb);
            }
            assert((u - 1 + 1) * r <= (u + 1) * r) by (nonlinear_arith)
                requires
                    r > 0,
            ;
            lemma_block_tokens(x, x2, b, nb, r, i, q - 1);
        }
    }
}

/// The tokens of one block that lies up to a place.
proof fn lemma_block_tokens(x: V, x2: V, b: int, nb: int, r: int, i: int, q: int)
    requires
        x.shape.len() == 3,
        b == x.shape[0],
        nb * r == x.shape[1],
        nb > 0,
        r > 0,
        0 <= q < b * nb,
        (q % nb + 1) * r <= i + 1,
        tokens_agree(x, x2, up_to(x.shape[1] as int, i)),
    ensures
        same_block(x, x2, x.shape[2] as int, r, q),
{
    let (s, k) = (nb * r, x.shape[2] as int);
    let f = up_to(s, i);
    lemma_divide(q, b, nb);
    let (a, u) = (q / nb, q % nb);
    assert forall|p: int| q * r <= p < q * r + r implies #[trigger] same_row(x, x2, k, p) by {
        let v = u * r + (p - q * r);
        assert(p == a * s + v && 0 <= v < s && v <= i) by (nonlinear_arith)
            requires
                s == nb * r,
                q == a * nb + u,
                v == u * r + (p - q * r),
                q * r <= p < q * r + r,
                0 <= u < nb,
                (u + 1) * r <= i + 1,
                r > 0,
        ;
        lemma_flat(a, v, b, s);
        assert(f(p));
    }
}

/// The keys and the index set of a run are those of the layer.
proof fn lemma_run_gives_keys(m: Mla, x: V, rope: RopeView, l: LayerRun)
    requires
        run_keys(m, x, rope, l),
    ensures
        keys_give(m, x, l.qr, rope, l.latent, l.keys, l.idxs),
{
    if let Some(c) = m.compressor {
        if let Some(ix) = m.indexer {
            assert(select_gives(ix, x, l.qr, rope, l.chosen));
        }
        assert(chosen_gives(m, x, l.qr, rope, l.chosen));
        assert(compress_gives(c, x, rope, l.blocks));
    }
}

/// A named row is taken over.
proof fn lemma_row_taken(x: V, x2: V, f: spec_fn(int) -> bool, k: int, p: int, n: int)
    requires
        x2.data.len() == n * k,
        x.data.len() == n * k,
        0 <= p < n,
        k > 0,
        f(p),
    ensures
        same_row(x, mixed(x, x2, at(f, k)), k, p),
{
    let u = mixed(x, x2, at(f, k));
    assert forall|e: int| p * k <= e < p * k + k implies #[trigger] x.data[e] == u.data[e] by {
        lemma_quotients(p, e - p * k, k, 1);
        lemma_flat(p, e - p * k, n, k);
        assert(p * k + (e - p * k) == e);
        assert(e / k == p);
    }
}

/// What the scores of the selector need fits in memory.
proof fn lemma_scores_fit(ix: Indexer, x: V, qr: V, rope: RopeView, t: SelectSteps)
    requires
        x.shape.len() == 3,
        indexer_layout(ix, x.shape[2], qr.shape[2]),
        selector_shapes(ix, x.shape, t),
        select_steps(ix, x, qr, rope, t),
        x.shape[0] > 0,
        x.shape[1] > 0,
        x.shape[1] as int % ix.compress_ratio as int == 0,
    ensures
        fits(
            shape4(
                x.shape[0],
                x.shape[1],
                ix.n_heads,
                block_count(x.shape[1], ix.compress_ratio),
            ),
        ),
{
    let (b, s, h, hd) = (x.shape[0], x.shape[1], ix.n_heads, ix.head_dim);
    let nb = block_count(s, ix.compress_ratio);
    lemma_blocks(s, ix.compress_ratio);
    crate::shape::lemma_merged(t.q.shape, 1);
    let rows = (s * h) as usize;
    assert(rows > 0) by (nonlinear_arith)
        requires
            rows == s * h,
            s > 0,
            h > 0,
    ;
    let flat = shape3(b, rows, nb);
    let across = swapped(t.compressed, 1);
    assert(across.shape =~= shape3(b, hd, nb));
    assert(shape3(b, rows, hd).drop_last().push(nb) =~= flat);
    lemma_cube(b, rows, nb);
    lemma_cube4(b, s, h, nb);
    assert(b * rows * nb == b * s * h * nb) by (nonlinear_arith)
        requires
            rows == s * h,
    ;
    lemma_same_span(flat, shape4(b, s, h, nb));
}

/// The selection of a query up to the place is one that the runs put together may come to.
proof fn lemma_selection_carries_over(
    m: Mla,
    ix: Indexer,
    x: V,
    x2: V,
    rope: RopeView,
    start: int,
    qlr: usize,
    l: LayerRun,
    l2: LayerRun,
    l3: LayerRun,
    a: int,
    i: int,
)
    requires
        layer_inputs(m, x, x2, qlr),
        m.indexer == Some(ix),
        layer_run(m, x, rope, start, l),
        layer_run(m, x2, rope, start, l3),
        selector_shapes(ix, x.shape, l.select),
        selector_shapes(ix, x.shape, l2.select),
        qlr == l.qr.shape[2],
        put_together(
            m,
            qlr,
            l,
            l2,
            up_to(x.shape[1] as int, i),
            whole_up_to(
                block_count(x.shape[1], m.compress_ratio) as int,
                m.compress_ratio as int,
                i,
            ),
            l3,
        ),
        0 <= a < x.shape[0],
        0 <= i < x.shape[1],
    ensures
        select_gives(
            ix,
            x2,
            l3.qr,
            rope,
            mixed(
                l.chosen,
                l3.chosen,
                of_row(a * x.shape[1] + i, kept_blocks(ix, x.shape[1]) as int),
            ),
        ),
{
    let (b, s, h, hd) = (x.shape[0], x.shape[1], ix.n_heads, ix.head_dim);
    let ratio = ix.compress_ratio as int;
    let nb = block_count(s, ix.compress_ratio);
    let f = up_to(s as int, i);
    let g = whole_up_to(nb as int, ratio, i);
    lemma_blocks(s, ix.compress_ratio);
    let p = a * s + i;
    lemma_flat(a, i, b as int, s as int);
    lemma_scores_fit(ix, x, l.qr, rope, l.select);
    assert(selector_shapes(ix, x.shape, l3.select));
    lemma_cube4(b, s, h, hd);
    lemma_cube(b, s, h);
    lemma_cube(b, nb, hd);
    let (t, t2) = (l.select, l2.select);
    assert(h * hd > 0) by (nonlinear_arith)
        requires
            h > 0,
            hd > 0,
    ;
    assert(b * s * h * hd == (b * s) * (h * hd)) by (nonlinear_arith);
    lemma_row_taken(t.q, t2.q, f, h * hd, p, b * s);
    lemma_row_taken(t.weights, t2.weights, f, h as int, p, b * s);
    assert forall|c: int| 0 <= c < visible_blocks(p % s as int, ratio) implies #[trigger] same_row(
        t.compressed,
        l3.select.compressed,
        hd as int,
        (p / s as int) * nb + c,
    ) by {
        assert((c + 1) * ratio <= i + 1) by (nonlinear_arith)
            requires
                c < (i + 1) / ratio,
                ratio > 0,
        ;
        assert(c < nb) by (nonlinear_arith)
            requires
                (c + 1) * ratio <= i + 1,
                i + 1 <= s,
                nb * ratio == s,
                ratio > 0,
        ;
        lemma_flat(a, c, b as int, nb as int);
        assert(g(a * nb + c));
        lemma_row_taken(t.compressed, t2.compressed, g, hd as int, a * nb + c, b * nb);
    }
    law_selection_of_a_query(
        ix,
        x,
        l.qr,
        rope,
        l.select,
        l.chosen,
        x2,
        l3.qr,
        l3.select,
        l3.chosen,
        p,
    );
}

/// What the run `l` has up to place `i` is an outcome on the input `x2`, on which `l2` and `l3` are
/// runs: queries and keys, what the selector starts from, the selection of query `i` in sequence `a`,
/// and the weights of its head `c`.
pub open spec fn settled(
    m: Mla,
    x2: V,
    rope: RopeView,
    start: int,
    qlr: usize,
    l: LayerRun,
    l2: LayerRun,
    l3: LayerRun,
    a: int,
    i: int,
    c: int,
) -> bool {
    let s = x2.shape[1];
    let f = up_to(s as int, i);
    let g = whole_up_to(block_count(s, m.compress_ratio) as int, m.compress_ratio as int, i);
    let joint = layer_run(m, x2, rope, start, l3) && put_together(m, qlr, l, l2, f, g, l3);
    &&& carries_over(m, x2, rope, start, qlr, l, l2, f, g)
    &&& m.indexer matches Some(ix) ==> joint ==> select_gives(
        ix,
        x2,
        l3.qr,
        rope,
        mixed(l.chosen, l3.chosen, of_row(a * s + i, kept_blocks(ix, s) as int)),
    )
    &&& joint && same_listed(l.idxs, l3.idxs, a * s + i, l.keys.shape[1] as int)
        && unlisted_closed(l, s as int, a, i, c) && unlisted_closed(l3, s as int, a, i, c)
        ==> row_outcome(m, s, l3, a, i, c, row_of(l.attn.weights, a, i, c))
}

/// The layer is causal, up to its weights. Take two inputs that have the tokens up to place `i` in
/// common, and a run on each. The first run's queries and keys up to the place, its blocks that end
/// there, and what its selector starts from are outcomes on the second input; so is the selection of
/// query `i`; and in a run on the second input that has them, with the same keys listed for query
/// `i`, the first run's weights of query `i` are outcomes too.
pub proof fn law_layer_weights_are_causal(
    m: Mla,
    x: V,
    x2: V,
    rope: RopeView,
    start: int,
    qlr: usize,
    l: LayerRun,
    l2: LayerRun,
    l3: LayerRun,
    a: int,
    i: int,
    c: int,
)
    requires
        layer_inputs(m, x, x2, qlr),
        m.window_size > 0,
        layer_run(m, x, rope, start, l),
        layer_run(m, x2, rope, start, l2),
        same_scaling(m, l, l2),
        tokens_agree(x, x2, up_to(x.shape[1] as int, i)),
        0 <= a < x.shape[0],
        0 <= i < x.shape[1],
        0 <= c < m.n_heads,
    ensures
        settled(m, x2, rope, start, qlr, l, l2, l3, a, i, c),
{
    let (b, s) = (x.shape[0], x.shape[1]);
    let ratio = m.compress_ratio as int;
    let nb = block_count(s, m.compress_ratio) as int;
    let f = up_to(s as int, i);
    let g = whole_up_to(nb, ratio, i);
    if let Some(k) = m.compressor {
        lemma_past_sources(k, x, x2, i);
        lemma_blocks(s, m.compress_ratio);
    }
    if let Some(ix) = m.indexer {
        lemma_past_sources(ix.compressor, x, x2, i);
    }
    lemma_carries_over(m, x, x2, rope, start, qlr, l, l2, f, g);
    let p = a * s + i;
    lemma_flat(a, i, b as int, s as int);
    if layer_run(m, x2, rope, start, l3) && put_together(m, qlr, l, l2, f, g, l3) {
        if let Some(ix) = m.indexer {
            lemma_low_query(m, x, rope, start, l.qr, l.q, qlr);
            lemma_selection_carries_over(m, ix, x, x2, rope, start, qlr, l, l2, l3, a, i);
        }
        if same_listed(l.idxs, l3.idxs, p, l.keys.shape[1] as int) && unlisted_closed(
            l,
            s as int,
            a,
            i,
            c,
        ) && unlisted_closed(l3, s as int, a, i, c) {
            lemma_run_gives_keys(m, x, rope, l);
            lemma_keys_shaped(m, x, rope, l);
            assert forall|j: int| 0 <= j < l.keys.shape[1] && #[trigger] listed(
                l.idxs,
                p,
                j,
            ) implies if j < s {
                f(a * s + j)
            } else {
                g(a * nb + (j - s))
            } by {
                law_attended_keys_are_past(m, x, l.qr, rope, l.latent, l.keys, l.idxs, p, j);
                if j < s {
                    lemma_flat(a, j, b as int, s as int);
                } else {
                    lemma_flat(a, j - s, b as int, nb);
                }
            }
            lemma_row_carries_over(m, x, x2, rope, start, qlr, l, l2, l3, f, g, a, i, c);
        }
    }
}

/// The width of the low-rank query.
proof fn lemma_low_query(m: Mla, x: V, rope: RopeView, start: int, qr: V, q: V, qlr: usize)
    requires
        x.shape.len() == 3,
        mla_layout(m, x.shape[2], qlr),
        query_gives(m, x, rope, start, qr, q),
    ensures
        qr.shape == shape3(x.shape[0], x.shape[1], qlr),
{
    reveal(query_gives);
    let t = choose|t: QuerySteps| query_steps(m, x, rope, start, t, qr, q);
    assert(x.shape.drop_last().push(qlr) =~= shape3(x.shape[0], x.shape[1], qlr));
    crate::tokens::lemma_norm_shape(t.low, m.q_norm@, m.eps, qr);
}

/// Without compression the weights of a query depend on the tokens of its window alone. Take two
/// inputs that have the tokens `max(i - window + 1, 0) ..= i` in common, and a run on each. The first
/// run's queries and keys there are outcomes on the second input; and in a run on the second input
/// that has them, the first run's weights of query `i` are outcomes too.
pub proof fn law_window_weights_are_local(
    m: Mla,
    x: V,
    x2: V,
    rope: RopeView,
    start: int,
    qlr: usize,
    l: LayerRun,
    l2: LayerRun,
    l3: LayerRun,
    a: int,
    i: int,
    c: int,
)
    requires
        layer_inputs(m, x, x2, qlr),
        m.compressor is None,
        m.window_size > 0,
        layer_run(m, x, rope, start, l),
        layer_run(m, x2, rope, start, l2),
        tokens_agree(x, x2, inside_window(x.shape[1] as int, m.window_size as int, i)),
        0 <= a < x.shape[0],
        0 <= i < x.shape[1],
        0 <= c < m.n_heads,
    ensures
        ({
            let s = x.shape[1];
            let f = inside_window(s as int, m.window_size as int, i);
            let joint = layer_run(m, x2, rope, start, l3) && put_together(m, qlr, l, l2, f, f, l3);
            &&& carries_over(m, x2, rope, start, qlr, l, l2, f, f)
            &&& joint ==> l3.idxs == l.idxs
            &&& joint && unlisted_closed(l, s as int, a, i, c) && unlisted_closed(
                l3,
                s as int,
                a,
                i,
                c,
            ) ==> row_outcome(m, s, l3, a, i, c, row_of(l.attn.weights, a, i, c))
        }),
{
    let (b, s) = (x.shape[0], x.shape[1]);
    let f = inside_window(s as int, m.window_size as int, i);
    lemma_carries_over(m, x, x2, rope, start, qlr, l, l2, f, f);
    let p = a * s + i;
    lemma_flat(a, i, b as int, s as int);
    if layer_run(m, x2, rope, start, l3) && put_together(m, qlr, l, l2, f, f, l3)
        && unlisted_closed(l, s as int, a, i, c) && unlisted_closed(l3, s as int, a, i, c) {
        lemma_run_gives_keys(m, x, rope, l);
        lemma_keys_shaped(m, x, rope, l);
        assert forall|j: int| 0 <= j < l.keys.shape[1] && #[trigger] listed(l.idxs, p, j) implies if j
            < s {
            f(a * s + j)
        } else {
            f(a * block_count(s, m.compress_ratio) + (j - s))
        } by {
            law_attended_keys_are_past(m, x, l.qr, rope, l.latent, l.keys, l.idxs, p, j);
            lemma_flat(a, j, b as int, s as int);
        }
        lemma_row_carries_over(m, x, x2, rope, start, qlr, l, l2, l3, f, f, a, i, c);
    }
}

/// The same layer without its selector.
pub open spec fn without_selector(m: Mla) -> Mla {
    Mla { indexer: None, ..m }
}

/// A selection with room for every block lists every block that a query sees.
proof fn lemma_full_row(
    score: Seq<u32>,
    b: usize,
    s: usize,
    nb: usize,
    ratio: usize,
    out: IndexView,
    p: int,
    j: int,
)
    requires
        ratio > 0,
        nb == s as int / ratio as int,
        s + nb <= i64::MAX,
        selected(score, b, s, nb, ratio, nb, out),
        0 <= p < b * s,
    ensures
        listed(out, p, j) <==> s <= j < s + visible_blocks(p % s as int, ratio as int)
            || j == crate::sparse::EMPTY && visible_blocks(p % s as int, ratio as int) < nb,
{
    let (si, ni, ri) = (s as int, nb as int, ratio as int);
    assert(row_selected(score, si, ni, ri, ni, out.data, p));
    lemma_divide(p, b as int, si);
    let vis = visible_blocks(p % si, ri);
    vstd::arithmetic::div_mod::lemma_div_is_ordered(p % si + 1, si, ri);
    vstd::arithmetic::div_mod::lemma_div_pos_is_pos(p % si + 1, ri);
    let sub = score.subrange(p * ni, p * ni + vis);
    assert(0 <= p * ni && p * ni + ni <= score.len()) by (nonlinear_arith)
        requires
            0 <= p,
            p + 1 <= b * s,
            score.len() == b * s * ni,
            ni >= 0,
    ;
    let r = choose|r: Seq<usize>|
        #[trigger] top_k_of(sub, ni, r) && row_holds(out.data, p, ni, si, r);
    assert(r.len() == vis);
    if listed(out, p, j) {
        let u = choose|u: int|
            0 <= u < out.shape[2] && #[trigger] out.data[p * out.shape[2] + u] == j;
        assert(out.data[p * ni + u] == j);
        if u < r.len() {
            assert(r[u] < vis);
        }
    }
    if s <= j < s + vis {
        let c = (j - s) as usize;
        if !r.contains(c) {
            let more = r.push(c);
            assert forall|u: int| 0 <= u < more.len() implies (#[trigger] more[u]) < vis as usize by {
                if u < r.len() {
                    assert(more[u] == r[u]);
                }
            }
            assert forall|u: int, w: int| 0 <= u < w < more.len() implies more[u] != more[w] by {
                if w < r.len() {
                    assert(r[u] != r[w]);
                } else {
                    assert(r.contains(r[u]));
                }
            }
            lemma_pigeons(more, vis as usize);
        }
        let u = choose|u: int| 0 <= u < r.len() && r[u] == c;
        assert(out.data[p * ni + u] == j);
        assert(out.data[p * out.shape[2] + u] == j);
    }
    if j == crate::sparse::EMPTY && vis < nb {
        assert(out.data[p * ni + vis] == j);
        assert(out.data[p * out.shape[2] + vis] == j);
    }
}

/// A selector with room for every block changes no mask: the keys of the layer are those of the layer
/// without it, and the same of them are open to every query.
pub proof fn law_full_selection_lists_all(
    m: Mla,
    ix: Indexer,
    x: V,
    qr: V,
    rope: RopeView,
    latent: V,
    keys: V,
    idxs: IndexView,
)
    requires
        m.wf(),
        m.indexer == Some(ix),
        m.compressor is Some,
        m.compress_ratio == ix.compress_ratio,
        x.shape.len() == 3,
        2 * x.shape[1] <= i64::MAX,
        ix.index_topk >= block_count(x.shape[1], ix.compress_ratio),
        keys_give(m, x, qr, rope, latent, keys, idxs),
    ensures
        ({
            let (b, s) = (x.shape[0], x.shape[1]);
            let all = joined(
                batched(window_idxs_of(m.window_size, s), b),
                batched(compress_idxs_of(m.compress_ratio, s, s), b),
                2,
            );
            &&& keys_give(without_selector(m), x, qr, rope, latent, keys, all)
            &&& sparse_mask_of(b, s, keys.shape[1], idxs) == sparse_mask_of(
                b,
                s,
                keys.shape[1],
                all,
            )
        }),
{
    let (b, s, ratio) = (x.shape[0], x.shape[1], m.compress_ratio);
    let c = m.compressor->Some_0;
    let window = batched(window_idxs_of(m.window_size, s), b);
    let rows = compress_idxs_of(ratio, s, s);
    let every = batched(rows, b);
    let nb = block_count(s, ratio);
    assert(0 <= s as int / ratio as int <= s) by (nonlinear_arith)
        requires
            ratio > 0,
    ;
    let (blocks, chosen) = choose|blocks: V, chosen: IndexView|
        {
            &&& #[trigger] compress_gives(c, x, rope, blocks)
            &&& #[trigger] chosen_gives(m, x, qr, rope, chosen)
            &&& cat_ok(latent.shape, blocks.shape, 1)
            &&& keys == joined(latent, blocks, 1)
            &&& cat_ok(window.shape, chosen.shape, 2)
            &&& idxs == joined(window, chosen, 2)
        };
    let t = choose|t: SelectSteps|
        #[trigger] select_steps(ix, x, qr, rope, t) && selected(
            t.score.data,
            b,
            s,
            block_count(s, ix.compress_ratio),
            ix.compress_ratio,
            kept_blocks(ix, s),
            chosen,
        );
    let all = joined(window, every, 2);
    assert(every.shape == chosen.shape);
    assert(chosen_gives(without_selector(m), x, qr, rope, every));
    assert(compress_gives(c, x, rope, blocks));
    let n = keys.shape[1];
    assert forall|p: int, j: int| 0 <= p < b * s && 0 <= j < n implies #[trigger] listed(idxs, p, j)
        == listed(all, p, j) by {
        lemma_divide(p, b as int, s as int);
        lemma_joined_lists(window, chosen, b, s, p, j);
        lemma_joined_lists(window, every, b, s, p, j);
        lemma_full_row(t.score.data, b, s, nb, ratio, chosen, p, j);
        lemma_batched_lists(rows, b, p, j);
        let i = p % s as int;
        let (r, vis) = (ratio as int, (i + 1) / ratio as int);
        if j >= s {
            law_compressed_keys(ratio, s, s, i, j - s);
            assert((j - s + 1) * r <= i + 1 <==> j - s < vis) by (nonlinear_arith)
                requires
                    vis == (i + 1) / r,
                    r > 0,
            ;
        } else if row_lists(rows, i, j) {
            let u = choose|u: int|
                0 <= u < rows.shape[1] && #[trigger] rows.data[i * rows.shape[1] + u] == j;
            lemma_flat(i, u, s as int, rows.shape[1] as int);
        }
    }
    crate::attention::law_mask_depends_on_key_sets(b, s, n, idxs, all);
}

/// With room for every block, the learned selection attends as the layer does that takes all visible
/// blocks: whatever the layer gives, the layer without its selector may give.
pub proof fn law_full_selection_is_no_selection(
    m: Mla,
    ix: Indexer,
    x: V,
    rope: RopeView,
    start: int,
    y: V,
)
    requires
        m.wf(),
        m.indexer == Some(ix),
        m.compressor is Some,
        m.compress_ratio == ix.compress_ratio,
        x.shape.len() == 3,
        2 * x.shape[1] <= i64::MAX,
        ix.index_topk >= block_count(x.shape[1], ix.compress_ratio),
        mla_gives(m, x, rope, start, y),
    ensures
        mla_gives(without_selector(m), x, rope, start, y),
{
    reveal(mla_gives);
    reveal(query_gives);
    reveal(latent_gives);
    let t = choose|t: MlaSteps| mla_steps(m, x, rope, start, t, y);
    let (b, s) = (x.shape[0], x.shape[1]);
    law_full_selection_lists_all(m, ix, x, t.qr, rope, t.latent, t.keys, t.idxs);
    let all = joined(
        batched(window_idxs_of(m.window_size, s), b),
        batched(compress_idxs_of(m.compress_ratio, s, s), b),
        2,
    );
    let k = without_selector(m);
    let q = choose|q: QuerySteps| query_steps(m, x, rope, start, q, t.qr, t.q);
    assert(query_steps(k, x, rope, start, q, t.qr, t.q));
    let w = choose|w: LatentSteps| latent_steps(m, x, rope, start, w, t.latent);
    assert(latent_steps(k, x, rope, start, w, t.latent));
    assert(mla_steps(k, x, rope, start, MlaSteps { idxs: all, ..t }, y));
}

// --- after the attention --------------------------------------------------------------------

/// What follows the attention: rotation back and the output projection.
pub open spec fn end_steps(
    m: Mla,
    att: V,
    rope: RopeView,
    start: int,
    turned: V,
    grouped: V,
    y: V,
) -> bool {
    let s = att.shape[1] as int;
    &&& tail_rotated(
        att,
        rows_from(rope.cos, start, s),
        rows_from(rope.sin, start, s),
        m.rope_head_dim as int,
        true,
        turned,
    )
    &&& output_gives(m, turned, grouped, y)
}

/// Two axes exchanged: an element by its place.
pub proof fn lemma_lanes(x: V, p: usize, q: usize, k: usize)
    requires
        x.data.len() == p * q * k,
        x.shape == shape3(p, q, k),
    ensures
        swapped(x, 0).shape == shape3(q, p, k),
        swapped(x, 0).data.len() == x.data.len(),
        forall|u: int, v: int, c: int|
            0 <= u < p && 0 <= v < q && 0 <= c < k ==> #[trigger] swapped(x, 0).data[(v * p + u) * k
                + c] == x.data[(u * q + v) * k + c],
{
    let t = swapped(x, 0);
    assert(t.shape =~= shape3(q, p, k));
    assert(x.shape.skip(2).drop_last() =~= Seq::<usize>::empty());
    assert(x.shape.skip(2).last() == k);
    reveal_with_fuel(product, 2);
    assert(inner(x.shape, 1) == 1 * (k as nat));
    let (pi, qi, ki) = (p as int, q as int, k as int);
    assert forall|u: int, v: int, c: int|
        0 <= u < p && 0 <= v < q && 0 <= c < k implies #[trigger] t.data[(v * p + u) * k + c]
        == x.data[(u * q + v) * k + c] by {
        lemma_flat(v, u, qi, pi);
        lemma_flat(v * pi + u, c, qi * pi, ki);
        assert(qi * pi * ki == pi * qi * ki) by (nonlinear_arith);
        vstd::arithmetic::div_mod::lemma_basic_div(v, qi);
        vstd::arithmetic::div_mod::lemma_small_mod(v as nat, q as nat);
        assert(0 * pi == 0);
    }
}

/// The elements of `[groups, tokens, width]` that belong to the tokens that `f` names.
pub open spec fn in_lanes(f: spec_fn(int) -> bool, n: int, r: int) -> spec_fn(int) -> bool {
    |e: int| f((e / r) % n)
}

/// What follows the attention acts on each token: mixed attention gives mixed outputs.
pub proof fn law_layer_end_is_per_token(
    m: Mla,
    att: V,
    att2: V,
    rope: RopeView,
    start: int,
    turned: V,
    turned2: V,
    grouped: V,
    grouped2: V,
    y: V,
    y2: V,
    dim: usize,
    qlr: usize,
    f: spec_fn(int) -> bool,
)
    requires
        mla_layout(m, dim, qlr),
        m.rope_head_dim % 2 == 0,
        att.wf(),
        att2.wf(),
        att.shape.len() == 4,
        att.shape == shape4(att.shape[0], att.shape[1], m.n_heads, m.head_dim),
        att2.shape == att.shape,
        att.shape[0] > 0,
        att.shape[1] > 0,
        end_steps(m, att, rope, start, turned, grouped, y),
        end_steps(m, att2, rope, start, turned2, grouped2, y2),
    ensures
        y.wf(),
        y2.wf(),
        y.shape == shape3(att.shape[0], att.shape[1], dim),
        y2.shape == y.shape,
        end_steps(
            m,
            mixed(att, att2, at(f, m.n_heads * m.head_dim)),
            rope,
            start,
            mixed(turned, turned2, at(f, m.n_heads * m.head_dim)),
            mixed(
                grouped,
                grouped2,
                in_lanes(f, att.shape[0] * att.shape[1], m.o_lora_rank as int),
            ),
            mixed(y, y2, at(f, dim as int)),
        ),
{
    let (b, s, h, hd) = (att.shape[0], att.shape[1], m.n_heads, m.head_dim);
    let (g, r, din) = (m.n_groups, m.o_lora_rank, crate::attention::group_width(m));
    let wide = h * hd;
    lemma_mix_tail(
        att,
        att2,
        rows_from(rope.cos, start, s as int),
        rows_from(rope.sin, start, s as int),
        m.rope_head_dim as int,
        true,
        turned,
        turned2,
        f,
        h as int,
    );
    lemma_cube4(b, s, h, hd);
    let bs = (b * s) as usize;
    crate::shape::lemma_merged(turned.shape, 0);
    assert(b * s == bs);
    assert(bs > 0) by (nonlinear_arith)
        requires
            bs == b * s,
            b > 0,
            s > 0,
    ;
    vstd::arithmetic::div_mod::lemma_fundamental_div_mod(wide, g as int);
    assert(wide > 0) by (nonlinear_arith)
        requires
            wide == h * hd,
            h > 0,
            hd > 0,
    ;
    let dq = wide / (g as int);
    assert(0 < dq <= wide && dq * g == wide) by (nonlinear_arith)
        requires
            wide == g * dq,
            wide > 0,
            g > 0,
    ;
    assert(din == dq);
    assert(b * s * h * hd == bs * g * din) by (nonlinear_arith)
        requires
            bs == b * s,
            din * g == h * hd,
    ;
    let tall = shape3(bs, g, din);
    let (o, o2) = (reshaped(turned, tall), reshaped(turned2, tall));
    let u = mixed(turned, turned2, at(f, wide));
    let ou = reshaped(u, tall);
    lemma_lanes(o, bs, g, din);
    lemma_lanes(o2, bs, g, din);
    lemma_lanes(ou, bs, g, din);
    let (a, a2, au) = (swapped(o, 0), swapped(o2, 0), swapped(ou, 0));
    let wa = swapped(reshaped(m.wo_a@, shape3(g, r, din)), 1);
    assert(wa.shape =~= shape3(g, din, r));
    assert(a.shape.drop_last().push(r) =~= shape3(g, bs, r));
    assert(a.shape.take(1) =~= wa.shape.take(1));
    lemma_cube(g, bs, r);
    let k = in_lanes(f, bs as int, r as int);
    let v = mixed(grouped, grouped2, k);
    let (ri, di, bi, gi) = (r as int, din as int, bs as int, g as int);
    assert forall|e: int| 0 <= e < v.data.len() implies crate::kernel::dot_gives(
        left_row(au.data, di, ri, e),
        right_column(wa.data, bi, di, ri, e),
        #[trigger] v.data[e],
    ) by {
        lemma_divide(e, g * bs, ri);
        let row = e / ri;
        lemma_divide(row, gi, bi);
        let (q, t) = (row / bi, row % bi);
        let (l, l1, l2) = (
            left_row(au.data, di, ri, e),
            left_row(a.data, di, ri, e),
            left_row(a2.data, di, ri, e),
        );
        assert(g * bs * din == bs * g * din) by (nonlinear_arith);
        lemma_flat(row, di - 1, g * bs, di);
        assert(row * di >= 0) by (nonlinear_arith)
            requires
                row >= 0,
                di > 0,
        ;
        assert forall|x: int| 0 <= x < di implies l[x] == (if k(e) {
            l1[x]
        } else {
            l2[x]
        }) by {
            assert(row == q * bs + t);
            let z = (t * g + q) * din + x;
            assert(au.data[(q * bs + t) * din + x] == ou.data[z]);
            assert(a.data[(q * bs + t) * din + x] == o.data[z]);
            assert(a2.data[(q * bs + t) * din + x] == o2.data[z]);
            lemma_flat(t, q, bi, gi);
            lemma_flat(t * gi + q, x, bi * gi, di);
            lemma_quotients(t * gi + q, x, di, gi);
            lemma_quotients(t, q, gi, 1);
            assert(gi * di == wide) by (nonlinear_arith)
                requires
                    di * gi == wide,
            ;
            assert(z / wide == t);
        }
        assert(k(e) ==> l =~= l1);
        assert(!k(e) ==> l =~= l2);
    }
    assert(multiplied(au, wa, v));
    lemma_lanes(grouped, g, bs, r);
    lemma_lanes(grouped2, g, bs, r);
    lemma_lanes(v, g, bs, r);
    let joint = shape3(b, s, (g * r) as usize);
    let gr = g * r;
    let (w, w2, wv) = (swapped(grouped, 0), swapped(grouped2, 0), swapped(v, 0));
    let mw = mixed(w, w2, at(f, gr));
    assert forall|e: int| 0 <= e < wv.data.len() implies wv.data[e] == #[trigger] mw.data[e] by {
        assert(g * bs * r == bs * g * r) by (nonlinear_arith);
        lemma_divide(e, bs * g, ri);
        lemma_divide(e / ri, bi, gi);
        let (t, q, c) = ((e / ri) / gi, (e / ri) % gi, e % ri);
        assert(e == (t * g + q) * r + c);
        lemma_position(e, ri, gi);
        assert(gr == gi * ri);
        let z = (q * bs + t) * r + c;
        lemma_flat(q, t, gi, bi);
        lemma_flat(q * bi + t, c, gi * bi, ri);
        assert(k(z) == f(t));
        assert(wv.data[(t * g + q) * r + c] == v.data[z]);
        assert(w.data[(t * g + q) * r + c] == grouped.data[z]);
        assert(w2.data[(t * g + q) * r + c] == grouped2.data[z]);
    }
    assert(wv.data =~= mw.data);
    let (j, j2) = (reshaped(w, joint), reshaped(w2, joint));
    lemma_cube(b, s, gr as usize);
    assert(b * s * gr == g * bs * r) by (nonlinear_arith)
        requires
            gr == g * r,
            bs == b * s,
    ;
    assert(gr > 0) by (nonlinear_arith)
        requires
            gr == g * r,
            g > 0,
            r > 0,
    ;
    lemma_same_span(shape3(g, bs, r), joint);
    lemma_mix_reshaped(w, w2, joint, at(f, gr));
    assert(1 * gr == gr && 1 * dim == dim);
    assert(joint.drop_last().push(dim) =~= shape3(b, s, dim));
    lemma_mix_linear(j, j2, m.wo_b@, y, y2, f, 1);
    assert(reshaped(swapped(v, 0), joint) == mixed(j, j2, at(f, gr)));
}

} // verus!
