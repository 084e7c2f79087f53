//! What the attention layer holds, token by token.

use vstd::prelude::*;

#[allow(unused_imports)]
use crate::angles::{head_turned, law_heads_stand_at_positions, lemma_table_row};
#[allow(unused_imports)]
use crate::attention::{
    attn_gives, attn_steps, group_width, keys_give, latent_gives, latent_steps, mla_gives,
    mla_steps, output_gives, query_gives, query_steps, sparse_mask_of, chosen_gives, AttnSteps,
    LatentSteps, Mla, MlaSteps, QuerySteps,
};
#[allow(unused_imports)]
use crate::causal::{
    law_blocks_are_local, law_latents_are_per_token, law_queries_are_per_token, lemma_swapped_keys,
};
#[allow(unused_imports)]
use crate::elements::{gained, law_rms_norm_levels, lemma_linear_at, projected};
#[allow(unused_imports)]
use crate::kernel::{dot_gives, left_row, right_column};
#[allow(unused_imports)]
use crate::layer::{layer_inputs, lemma_joined_keys, lemma_lanes, lemma_mask_fits};
#[allow(unused_imports)]
use crate::layout::mla_layout;
#[allow(unused_imports)]
use crate::ops::{linear_gives, multiplied};
#[allow(unused_imports)]
use crate::rope::{rows_from, RopeView};
#[allow(unused_imports)]
use crate::shape::{
    lemma_cube, lemma_cube4, lemma_flat, lemma_flat3, lemma_grid, product, shape2, shape3, shape4,
};
#[allow(unused_imports)]
use crate::sparse::{block_count, compress_gives, Compressor};
#[allow(unused_imports)]
use crate::tensor::{cat_ok, joined, reshaped, swapped, IndexView, V};
#[allow(unused_imports)]
use vstd::arithmetic::div_mod::lemma_fundamental_div_mod_converse;

verus! {

/// Row `p` of a table of width `k`.
pub open spec fn row_of(data: Seq<u32>, p: int, k: int) -> Seq<u32> {
    data.subrange(p * k, p * k + k)
}

/// A row lies inside its table.
pub proof fn lemma_row_inside(p: int, n: int, k: int)
    requires
        0 <= p < n,
        k >= 0,
    ensures
        0 <= p * k,
        p * k + k <= n * k,
{
    assert(0 <= p * k && p * k + k <= n * k) by (nonlinear_arith)
        requires
            0 <= p < n,
            k >= 0,
    ;
}

/// A linear map of `n` rows acts on each of them.
pub proof fn lemma_projected_row(x: V, w: V, y: V, n: int, k: int, m: int, p: int)
    requires
        linear_gives(x, w, y),
        x.shape.len() > 0,
        x.shape.last() == k,
        w.shape.len() == 2,
        w.shape[0] == m,
        k > 0,
        y.data.len() == n * m,
        0 <= p < n,
    ensures
        projected(row_of(x.data, p, k), w.data, 0, k, row_of(y.data, p, m)),
        row_of(y.data, p, m).len() == m,
{
    lemma_row_inside(p, n, m);
    let out = row_of(y.data, p, m);
    assert forall|j: int| 0 <= j < out.len() implies dot_gives(
        row_of(x.data, p, k),
        w.data.subrange((0 + j) * k, (0 + j) * k + k),
        #[trigger] out[j],
    ) by {
        lemma_linear_at(x, w, y, p, j);
    }
}

/// The input and the tables that a layer takes.
pub open spec fn layer_input(m: Mla, x: V, rope: RopeView, start: int, qlr: usize) -> bool {
    &&& x.wf()
    &&& x.shape.len() == 3
    &&& x.shape[0] > 0
    &&& x.shape[1] > 0
    &&& x.shape[2] > 0
    &&& qlr > 0
    &&& mla_layout(m, x.shape[2], qlr)
    &&& rope.wf()
    &&& 2 * rope.cos.shape[1] == m.rope_head_dim
    &&& 0 <= start
    &&& start + x.shape[1] <= rope.cos.shape[0]
}

/// The query of token `p` in head `c`, from the layer's input: `low` is the first projection, levelled
/// and scaled to the low-rank query; `flat` the head's rows of the second, levelled to `level`; the head
/// then stands at the token's position.
pub open spec fn query_head(
    m: Mla,
    x: V,
    rope: RopeView,
    position: int,
    qr: V,
    q: V,
    qlr: int,
    p: int,
    c: int,
    low: Seq<u32>,
    flat: Seq<u32>,
    level: Seq<u32>,
) -> bool {
    let (hd, dim) = (m.head_dim as int, x.shape[2] as int);
    &&& low.len() == qlr
    &&& projected(row_of(x.data, p, dim), m.wq_a@.data, 0, dim, low)
    &&& gained(low, m.eps, Some(m.q_norm@), row_of(qr.data, p, qlr))
    &&& flat.len() == hd
    &&& projected(row_of(qr.data, p, qlr), m.wq_b@.data, c * hd, qlr, flat)
    &&& gained(flat, m.eps, None, level)
    &&& head_turned(
        level,
        rope,
        m.rope_head_dim as int,
        position,
        false,
        row_of(q.data, p * m.n_heads + c, hd),
    )
}

/// The query of token `i` of sequence `a` in head `c` stands at position `start + i`.
pub proof fn law_query_of_a_head(
    m: Mla,
    x: V,
    rope: RopeView,
    start: int,
    qr: V,
    q: V,
    qlr: usize,
    a: int,
    i: int,
    c: int,
)
    requires
        layer_input(m, x, rope, start, qlr),
        query_gives(m, x, rope, start, qr, q),
        0 <= a < x.shape[0],
        0 <= i < x.shape[1],
        0 <= c < m.n_heads,
    ensures
        exists|low: Seq<u32>, flat: Seq<u32>, level: Seq<u32>|
            #[trigger] query_head(
                m,
                x,
                rope,
                start + i,
                qr,
                q,
                qlr as int,
                a * x.shape[1] + i,
                c,
                low,
                flat,
                level,
            ),
{
    crate::layer::lemma_query_fits(m, x, rope, start, qr, q, qlr);
    reveal(query_gives);
    let t = choose|t: QuerySteps| query_steps(m, x, rope, start, t, qr, q);
    let (bu, su, hu, hdu) = (x.shape[0], x.shape[1], m.n_heads, m.head_dim);
    let (b, s, h, hd, k, dim) = (
        bu as int,
        su as int,
        hu as int,
        hdu as int,
        qlr as int,
        x.shape[2] as int,
    );
    let n = b * s;
    let p = a * s + i;
    lemma_flat(a, i, b, s);
    // the low-rank query
    let ls = shape3(bu, su, qlr);
    assert(x.shape.drop_last().push(qlr) =~= ls);
    lemma_cube(bu, su, qlr);
    lemma_projected_row(x, m.wq_a@, t.low, n, dim, k, p);
    assert(ls.drop_last() =~= shape2(bu, su));
    lemma_grid(bu, su);
    law_rms_norm_levels(t.low, Some(m.q_norm@), m.eps, qr, p);
    // the head
    let mu = (hu * hdu) as usize;
    let mi = mu as int;
    let fs = shape3(bu, su, mu);
    assert(qr.shape.drop_last().push(mu) =~= fs);
    lemma_cube(bu, su, mu);
    lemma_cube4(bu, su, hu, hdu);
    assert(n * mi == b * s * h * hd) by (nonlinear_arith)
        requires
            n == b * s,
            mi == h * hd,
    ;
    lemma_row_inside(p, n, mi);
    let r = p * h + c;
    lemma_flat(p, c, n, h);
    lemma_row_inside(r, n * h, hd);
    assert(n * h * hd == b * s * h * hd) by (nonlinear_arith)
        requires
            n == b * s,
    ;
    let flat = row_of(t.flat.data, r, hd);
    assert forall|j: int| 0 <= j < hd implies dot_gives(
        row_of(qr.data, p, k),
        m.wq_b@.data.subrange((c * hd + j) * k, (c * hd + j) * k + k),
        #[trigger] flat[j],
    ) by {
        lemma_flat(c, j, h, hd);
        assert(r * hd + j == p * mi + (c * hd + j)) by (nonlinear_arith)
            requires
                r == p * h + c,
                mi == h * hd,
        ;
        lemma_flat(p, c * hd + j, n, mi);
        lemma_linear_at(qr, m.wq_b@, t.flat, p, c * hd + j);
    }
    assert(projected(row_of(qr.data, p, k), m.wq_b@.data, c * hd, k, flat));
    let heads = reshaped(t.flat, shape4(bu, su, hu, hdu));
    assert(heads.shape.drop_last() =~= shape3(bu, su, hu));
    lemma_cube(bu, su, hu);
    law_rms_norm_levels(heads, None, m.eps, t.normed, r);
    let level = row_of(t.normed.data, r, hd);
    lemma_table_row(rope.cos, start, s, Seq::<usize>::empty(), i);
    lemma_table_row(rope.sin, start, s, Seq::<usize>::empty(), i);
    law_heads_stand_at_positions(
        t.normed,
        rope,
        rows_from(rope.cos, start, s),
        rows_from(rope.sin, start, s),
        m.rope_head_dim,
        false,
        q,
        a,
        i,
        c,
        start + i,
    );
    let low = row_of(t.low.data, p, k);
    assert(query_head(m, x, rope, start + i, qr, q, k, p, c, low, flat, level));
}

/// The key of token `p`: its projection, levelled and scaled, standing at the token's position.
pub open spec fn key_of_token(
    m: Mla,
    x: V,
    rope: RopeView,
    position: int,
    kv: V,
    p: int,
    low: Seq<u32>,
    level: Seq<u32>,
) -> bool {
    let (hd, dim) = (m.head_dim as int, x.shape[2] as int);
    &&& low.len() == hd
    &&& projected(row_of(x.data, p, dim), m.wkv@.data, 0, dim, low)
    &&& gained(low, m.eps, Some(m.kv_norm@), level)
    &&& head_turned(
        level,
        rope,
        m.rope_head_dim as int,
        position,
        false,
        row_of(kv.data, p, hd),
    )
}

/// The key of token `i` of sequence `a` stands at position `start + i`.
pub proof fn law_key_of_a_token(
    m: Mla,
    x: V,
    rope: RopeView,
    start: int,
    kv: V,
    qlr: usize,
    a: int,
    i: int,
)
    requires
        layer_input(m, x, rope, start, qlr),
        latent_gives(m, x, rope, start, kv),
        0 <= a < x.shape[0],
        0 <= i < x.shape[1],
    ensures
        exists|low: Seq<u32>, level: Seq<u32>|
            #[trigger] key_of_token(
                m,
                x,
                rope,
                start + i,
                kv,
                a * x.shape[1] + i,
                low,
                level,
            ),
{
    reveal(latent_gives);
    let t = choose|t: LatentSteps| latent_steps(m, x, rope, start, t, kv);
    let (bu, su, hdu) = (x.shape[0], x.shape[1], m.head_dim);
    let (b, s, hd, dim) = (bu as int, su as int, hdu as int, x.shape[2] as int);
    let n = b * s;
    let p = a * s + i;
    lemma_flat(a, i, b, s);
    let ls = shape3(bu, su, hdu);
    assert(x.shape.drop_last().push(hdu) =~= ls);
    lemma_cube(bu, su, hdu);
    lemma_projected_row(x, m.wkv@, t.low, n, dim, hd, p);
    assert(ls.drop_last() =~= shape2(bu, su));
    lemma_grid(bu, su);
    law_rms_norm_levels(t.low, Some(m.kv_norm@), m.eps, t.normed, p);
    let lane = reshaped(t.normed, shape4(bu, su, 1, hdu));
    lemma_cube4(bu, su, 1, hdu);
    assert(b * s * 1 * hd == b * s * hd) by (nonlinear_arith);
    assert(lane.wf()) by {
        assert(shape4(bu, su, 1, hdu) =~= t.normed.shape.insert(2, 1));
        crate::tensor::lemma_unit_axis(t.normed.shape, 2);
    }
    lemma_table_row(rope.cos, start, s, Seq::<usize>::empty(), i);
    lemma_table_row(rope.sin, start, s, Seq::<usize>::empty(), i);
    law_heads_stand_at_positions(
        lane,
        rope,
        rows_from(rope.cos, start, s),
        rows_from(rope.sin, start, s),
        m.rope_head_dim,
        false,
        t.turned,
        a,
        i,
        0,
        start + i,
    );
    assert((a * s + i) * 1 + 0 == p);
    let (low, level) = (row_of(t.low.data, p, hd), row_of(t.normed.data, p, hd));
    assert(key_of_token(m, x, rope, start + i, kv, p, low, level));
}

/// The keys of a layer: key `j` of a sequence is its token `j`, and after the tokens come the blocks.
pub proof fn law_keys_of_the_layer(
    m: Mla,
    x: V,
    qr: V,
    rope: RopeView,
    latent: V,
    keys: V,
    idxs: IndexView,
    a: int,
    j: int,
    c: int,
)
    requires
        keys_give(m, x, qr, rope, latent, keys, idxs),
        x.shape.len() == 3,
        latent.wf(),
        latent.shape == shape3(x.shape[0], x.shape[1], m.head_dim),
        0 <= a < x.shape[0],
        0 <= c < m.head_dim,
        forall|co: Compressor, blocks: V|
            m.compressor == Some(co) && #[trigger] compress_gives(co, x, rope, blocks) ==> blocks.wf()
                && blocks.shape == shape3(
                x.shape[0],
                block_count(x.shape[1], co.compress_ratio),
                m.head_dim,
            ),
    ensures
        ({
            let (s, hd) = (x.shape[1] as int, m.head_dim as int);
            match m.compressor {
                None => {
                    &&& keys.shape == latent.shape
                    &&& 0 <= j < s ==> keys.data[(a * s + j) * hd + c] == latent.data[(a * s + j) * hd + c]
                },
                Some(co) => {
                    let nb = block_count(x.shape[1], co.compress_ratio) as int;
                    exists|blocks: V|
                        {
                            &&& #[trigger] compress_gives(co, x, rope, blocks)
                            &&& keys.shape[1] == s + nb
                            &&& 0 <= j < s ==> keys.data[(a * (s + nb) + j) * hd + c]
                                == latent.data[(a * s + j) * hd + c]
                            &&& s <= j < s + nb ==> keys.data[(a * (s + nb) + j) * hd + c]
                                == blocks.data[(a * nb + (j - s)) * hd + c]
                        }
                },
            }
        }),
{
    if let Some(co) = m.compressor {
        let window = crate::attention::batched(
            crate::sparse::window_idxs_of(m.window_size, x.shape[1]),
            x.shape[0],
        );
        let (blocks, chosen) = choose|blocks: V, chosen: IndexView|
            {
                &&& #[trigger] compress_gives(co, x, rope, blocks)
                &&& #[trigger] chosen_gives(m, x, qr, rope, chosen)
                &&& cat_ok(latent.shape, blocks.shape, 1)
                &&& keys == joined(latent, blocks, 1)
                &&& cat_ok(window.shape, chosen.shape, 2)
                &&& idxs == joined(window, chosen, 2)
            };
        let nb = block_count(x.shape[1], co.compress_ratio);
        lemma_joined_keys(latent, blocks, x.shape[0], x.shape[1], nb, m.head_dim);
        assert(compress_gives(co, x, rope, blocks));
    }
}

/// The output of token `p`: group `g` takes its share of the token's heads through its own rows of the
/// first weight, and all groups together go through the second.
pub open spec fn output_of_token(m: Mla, o: V, p: int, dim: int, joint: Seq<u32>, y: Seq<u32>) -> bool {
    let (g, r) = (m.n_groups as int, m.o_lora_rank as int);
    let width = m.n_heads * m.head_dim;
    let din = width / g;
    &&& joint.len() == g * r
    &&& forall|v: int, u: int|
        0 <= v < g && 0 <= u < r ==> dot_gives(
            o.data.subrange(p * width + v * din, p * width + v * din + din),
            m.wo_a@.data.subrange((v * r + u) * din, (v * r + u) * din + din),
            #[trigger] joint[v * r + u],
        )
    &&& y.len() == dim
    &&& projected(joint, m.wo_b@.data, 0, g * r, y)
}

/// The grouped output projection, token by token.
pub proof fn law_output_of_a_token(
    m: Mla,
    o: V,
    grouped: V,
    y: V,
    dim: usize,
    qlr: usize,
    p: int,
)
    requires
        mla_layout(m, dim, qlr),
        m.wo_a@.wf(),
        o.wf(),
        o.shape.len() == 4,
        o.shape[2] == m.n_heads,
        o.shape[3] == m.head_dim,
        o.shape[0] > 0,
        o.shape[1] > 0,
        dim > 0,
        output_gives(m, o, grouped, y),
        0 <= p < o.shape[0] * o.shape[1],
    ensures
        exists|joint: Seq<u32>|
            #[trigger] output_of_token(m, o, p, dim as int, joint, row_of(y.data, p, dim as int)),
{
    let (bu, su) = (o.shape[0], o.shape[1]);
    let (gu, ru, du) = (m.n_groups, m.o_lora_rank, group_width(m));
    let (b, s, g, r) = (bu as int, su as int, gu as int, ru as int);
    let width = m.n_heads * m.head_dim;
    let din = width / g;
    assert(width > 0) by (nonlinear_arith)
        requires
            width == m.n_heads * m.head_dim,
            m.n_heads > 0,
            m.head_dim > 0,
    ;
    vstd::arithmetic::div_mod::lemma_fundamental_div_mod(width, g);
    assert(width == g * din) by {
        assert(g * (width / g) + width % g == width);
    }
    assert(0 < din <= width) by (nonlinear_arith)
        requires
            width == g * din,
            width > 0,
            g > 0,
    ;
    let n = b * s;
    assert(o.shape =~= shape4(bu, su, m.n_heads, m.head_dim));
    crate::shape::lemma_merged(o.shape, 0);
    let nu = (bu * su) as usize;
    lemma_cube4(bu, su, m.n_heads, m.head_dim);
    assert(o.data.len() == n * width) by (nonlinear_arith)
        requires
            o.data.len() == b * s * m.n_heads * m.head_dim,
            n == b * s,
            width == m.n_heads * m.head_dim,
    ;
    assert(n * width == n * g * din) by (nonlinear_arith)
        requires
            width == g * din,
    ;
    let o3 = reshaped(o, shape3(nu, gu, du));
    lemma_lanes(o3, nu, gu, du);
    let left = swapped(o3, 0);
    let w3 = reshaped(m.wo_a@, shape3(gu, ru, du));
    lemma_cube(gu, ru, du);
    lemma_grid((gu * ru) as usize, du);
    assert(w3.data.len() == g * r * din);
    let right = swapped(w3, 1);
    assert(right.shape =~= shape3(gu, du, ru));
    let gs = shape3(gu, nu, ru);
    assert(left.shape.drop_last().push(ru) =~= gs);
    lemma_cube(gu, nu, ru);
    assert(grouped.shape == gs && grouped.data.len() == g * n * r);
    lemma_lanes(grouped, gu, nu, ru);
    let js = shape3(bu, su, (gu * ru) as usize);
    let jv = reshaped(swapped(grouped, 0), js);
    let gr = g * r;
    assert(gr > 0) by (nonlinear_arith)
        requires
            gr == g * r,
            g > 0,
            r > 0,
    ;
    assert(g * n * r == n * gr) by (nonlinear_arith)
        requires
            gr == g * r,
    ;
    lemma_row_inside(p, n, gr);
    let joint = row_of(jv.data, p, gr);
    assert forall|v: int, u: int| 0 <= v < g && 0 <= u < r implies dot_gives(
        o.data.subrange(p * width + v * din, p * width + v * din + din),
        m.wo_a@.data.subrange((v * r + u) * din, (v * r + u) * din + din),
        #[trigger] joint[v * r + u],
    ) by {
        lemma_group_product(m, o, o3, w3, grouped, nu, gu, ru, du, p, v, u);
        lemma_flat(v, u, g, r);
        assert(p * gr + (v * r + u) == (p * g + v) * r + u) by (nonlinear_arith)
            requires
                gr == g * r,
        ;
        assert(swapped(grouped, 0).data[(p * g + v) * r + u] == grouped.data[(v * n + p) * r + u]);
        assert((p * g + v) * din == p * width + v * din) by (nonlinear_arith)
            requires
                width == g * din,
        ;
    }
    assert(js.drop_last().push(dim) =~= shape3(bu, su, dim));
    lemma_cube(bu, su, dim);
    lemma_projected_row(jv, m.wo_b@, y, n, gr, dim as int, p);
    assert(output_of_token(m, o, p, dim as int, joint, row_of(y.data, p, dim as int)));
}

proof fn lemma_group_product(
    m: Mla,
    o: V,
    o3: V,
    w3: V,
    grouped: V,
    nu: usize,
    gu: usize,
    ru: usize,
    du: usize,
    p: int,
    v: int,
    u: int,
)
    requires
        o3.shape == shape3(nu, gu, du),
        o3.data.len() == nu * gu * du,
        o3.data == o.data,
        w3.data.len() == product(w3.shape),
        w3.shape == shape3(gu, ru, du),
        w3.data == m.wo_a@.data,
        multiplied(swapped(o3, 0), swapped(w3, 1), grouped),
        grouped.data.len() == gu * nu * ru,
        du > 0,
        0 <= p < nu,
        0 <= v < gu,
        0 <= u < ru,
    ensures
        ({
            let (n, g, r, d) = (nu as int, gu as int, ru as int, du as int);
            dot_gives(
                o.data.subrange((p * g + v) * d, (p * g + v) * d + d),
                m.wo_a@.data.subrange((v * r + u) * d, (v * r + u) * d + d),
                grouped.data[(v * n + p) * r + u],
            )
        }),
{
    let (n, g, r, d) = (nu as int, gu as int, ru as int, du as int);
    lemma_lanes(o3, nu, gu, du);
    let (left, right) = (swapped(o3, 0), swapped(w3, 1));
    assert(right.shape =~= shape3(gu, du, ru));
    lemma_flat3(v, p, u, g, n, r);
    let e = (v * n + p) * r + u;
    lemma_fundamental_div_mod_converse(e, r, v * n + p, u);
    lemma_fundamental_div_mod_converse(v * n + p, n, v, p);
    let (l, c) = (left_row(left.data, d, r, e), right_column(right.data, n, d, r, e));
    lemma_flat(v, p, g, n);
    lemma_row_inside(v * n + p, g * n, d);
    assert(g * n * d == n * g * d) by (nonlinear_arith);
    lemma_flat(p, v, n, g);
    lemma_row_inside(p * g + v, n * g, d);
    let a = o.data.subrange((p * g + v) * d, (p * g + v) * d + d);
    assert forall|x: int| 0 <= x < d implies #[trigger] l[x] == a[x] by {
        assert(left.data[(v * n + p) * d + x] == o3.data[(p * g + v) * d + x]);
    }
    assert(l =~= a);
    lemma_cube(gu, ru, du);
    lemma_flat(v, u, g, r);
    lemma_row_inside(v * r + u, g * r, d);
    let b = m.wo_a@.data.subrange((v * r + u) * d, (v * r + u) * d + d);
    assert forall|x: int| 0 <= x < d implies #[trigger] c[x] == b[x] by {
        lemma_swapped_keys(w3, gu, ru, du, v, u, x);
    }
    assert(c =~= b);
    let z = grouped.data[e];
}

/// A layer, from its input to its output: queries and keys, the keys that each query may see, the
/// attention with the layer's own sink and scale, the heads turned back to position zero, and the output
/// projection.
pub proof fn law_layer_from_end_to_end(
    m: Mla,
    x: V,
    rope: RopeView,
    start: int,
    y: V,
    qlr: usize,
)
    requires
        layer_input(m, x, rope, start, qlr),
        layer_inputs(m, x, x, qlr),
        mla_gives(m, x, rope, start, y),
    ensures
        exists|t: MlaSteps|
            {
                &&& query_gives(m, x, rope, start, t.qr, t.q)
                &&& latent_gives(m, x, rope, start, t.latent)
                &&& keys_give(m, x, t.qr, rope, t.latent, t.keys, t.idxs)
                &&& attn_gives(
                    t.q,
                    t.keys,
                    m.attn_sink@,
                    m.scale,
                    Some(sparse_mask_of(x.shape[0], x.shape[1], t.keys.shape[1], t.idxs)),
                    t.attended,
                )
                &&& #[trigger] turned_back(m, x, rope, start, t.attended, t.turned)
                &&& output_gives(m, t.turned, t.grouped, y)
            },
{
    lemma_attended(m, x, rope, start, y, qlr);
    reveal(mla_gives);
    let t = choose|t: MlaSteps|
        #[trigger] mla_steps(m, x, rope, start, t, y) && t.attended.wf() && t.attended.shape == shape4(
            x.shape[0],
            x.shape[1],
            m.n_heads,
            m.head_dim,
        );
    let (s, h, hd) = (x.shape[1] as int, m.n_heads as int, m.head_dim as int);
    assert forall|a: int, i: int, c: int| 0 <= a < x.shape[0] && 0 <= i < s && 0 <= c < h implies head_turned(
        #[trigger] row_of(t.attended.data, (a * s + i) * h + c, hd),
        rope,
        m.rope_head_dim as int,
        start + i,
        true,
        row_of(t.turned.data, (a * s + i) * h + c, hd),
    ) by {
        lemma_table_row(rope.cos, start, s, Seq::<usize>::empty(), i);
        lemma_table_row(rope.sin, start, s, Seq::<usize>::empty(), i);
        law_heads_stand_at_positions(
            t.attended,
            rope,
            rows_from(rope.cos, start, s),
            rows_from(rope.sin, start, s),
            m.rope_head_dim,
            true,
            t.turned,
            a,
            i,
            c,
            start + i,
        );
    }
    assert(turned_back(m, x, rope, start, t.attended, t.turned));
}

/// The shape of what the layer attends to.
proof fn lemma_attended(m: Mla, x: V, rope: RopeView, start: int, y: V, qlr: usize)
    requires
        layer_inputs(m, x, x, qlr),
        mla_gives(m, x, rope, start, y),
    ensures
        exists|t: MlaSteps| #[trigger]
            mla_steps(m, x, rope, start, t, y) && t.attended.wf() && t.attended.shape == shape4(
                x.shape[0],
                x.shape[1],
                m.n_heads,
                m.head_dim,
            ),
{
    reveal(mla_gives);
    let (b, s, hd) = (x.shape[0], x.shape[1], m.head_dim);
    let t = choose|t: MlaSteps| mla_steps(m, x, rope, start, t, y);
    let f = |p: int| false;
    crate::layer::lemma_query_fits(m, x, rope, start, t.qr, t.q, qlr);
    law_queries_are_per_token(m, x, x, rope, start, t.qr, t.q, t.qr, t.q, qlr, f);
    law_latents_are_per_token(m, x, x, rope, start, t.latent, t.latent, qlr, f);
    if let Some(c) = m.compressor {
        let window = crate::attention::batched(crate::sparse::window_idxs_of(m.window_size, s), b);
        let (blocks, chosen) = choose|blocks: V, chosen: IndexView|
            {
                &&& #[trigger] compress_gives(c, x, rope, blocks)
                &&& #[trigger] chosen_gives(m, x, t.qr, rope, chosen)
                &&& cat_ok(t.latent.shape, blocks.shape, 1)
                &&& t.keys == joined(t.latent, blocks, 1)
                &&& cat_ok(window.shape, chosen.shape, 2)
                &&& t.idxs == joined(window, chosen, 2)
            };
        law_blocks_are_local(c, x, x, rope, blocks, blocks, f);
        lemma_joined_keys(t.latent, blocks, b, s, block_count(s, m.compress_ratio), hd);
    }
    let n = t.keys.shape[1];
    let mask = sparse_mask_of(b, s, n, t.idxs);
    let u = choose|u: AttnSteps|
        attn_steps(t.q, t.keys, m.attn_sink@, m.scale, Some(mask), u, t.attended);
    lemma_mask_fits(t.q, t.keys, m.attn_sink@, m.scale, mask, u);
    lemma_cube4(b, 1, s, n);
    assert(b * 1 * s * n == b * s * n) by (nonlinear_arith);
    crate::queries::lemma_attended_shape(t.q, t.keys, m.attn_sink@, m.scale, Some(mask), t.attended);
    assert(mla_steps(m, x, rope, start, t, y));
}

/// Each head is turned back by the angles of its token's position.
pub open spec fn turned_back(m: Mla, x: V, rope: RopeView, start: int, from: V, to: V) -> bool {
    let (s, h, hd) = (x.shape[1] as int, m.n_heads as int, m.head_dim as int);
    forall|a: int, i: int, c: int|
        0 <= a < x.shape[0] && 0 <= i < s && 0 <= c < h ==> head_turned(
            #[trigger] row_of(from.data, (a * s + i) * h + c, hd),
            rope,
            m.rope_head_dim as int,
            start + i,
            true,
            row_of(to.data, (a * s + i) * h + c, hd),
        )
}

} // verus!
