//! What the learned selection of blocks holds, element by element.

use vstd::prelude::*;

#[allow(unused_imports)]
use crate::angles::{head_turned, law_heads_stand_at_positions, lemma_table_row};
#[allow(unused_imports)]
use crate::bits::{agrees, double_agrees, DOUBLE_MINUS_HALF, DOUBLE_ZERO};
#[allow(unused_imports)]
use crate::causal::{lemma_column_source, lemma_swapped_keys};
#[allow(unused_imports)]
use crate::double::{dint, dmul, dpow_gives};
#[allow(unused_imports)]
use crate::elements::{
    lane, lemma_linear_at, lemma_reduced_at, products_of, projected, weighted_sum,
};
#[allow(unused_imports)]
use crate::kernel::{affine_gives, dot_gives, fmul, left_row, relu_gives, right_column};
#[allow(unused_imports)]
use crate::layout::indexer_layout;
#[allow(unused_imports)]
use crate::ops::{multiplied, Reduce};
#[allow(unused_imports)]
use crate::rope::RopeView;
#[allow(unused_imports)]
use crate::shape::{
    fits, inner, lemma_cube, lemma_cube4, lemma_divide, lemma_flat, lemma_flat3, lemma_grid, outer,
    product, shape2, shape3, shape4,
};
#[allow(unused_imports)]
use crate::sparse::{
    block_count, block_positions, compress_gives, row_holds, row_selected, select_inputs,
    select_steps, selected, Indexer, SelectSteps,
};
#[allow(unused_imports)]
use crate::tensor::{reshaped, rows_looked_up, swapped, unsqueezed, IndexView, BLANK_ROW, V};
#[allow(unused_imports)]
use crate::topk::top_k_of;
#[allow(unused_imports)]
use vstd::arithmetic::div_mod::lemma_fundamental_div_mod_converse;

verus! {

/// The inputs and the tables that a selector takes.
pub open spec fn selector_input(ix: Indexer, x: V, qr: V, rope: RopeView) -> bool {
    &&& x.wf()
    &&& qr.wf()
    &&& x.shape.len() == 3
    &&& qr.shape.len() == 3
    &&& qr.shape[0] == x.shape[0]
    &&& qr.shape[1] == x.shape[1]
    &&& x.shape[2] > 0
    &&& qr.shape[2] > 0
    &&& indexer_layout(ix, x.shape[2], qr.shape[2])
    &&& fits(shape4(x.shape[0], x.shape[1], ix.n_heads, ix.head_dim))
    &&& rope.wf()
    &&& ix.rope_head_dim > 0 ==> 2 * rope.cos.shape[1] == ix.rope_head_dim
    &&& ix.rope_head_dim > 0 ==> x.shape[1] <= rope.cos.shape[0]
    &&& x.shape[1] <= BLANK_ROW
}

/// The query of token `i` of sequence `a` in head `c`: its projection `flat`, rotated to position `i`.
pub open spec fn selector_head(
    ix: Indexer,
    qr: V,
    rope: RopeView,
    q: V,
    a: int,
    i: int,
    c: int,
    flat: Seq<u32>,
) -> bool {
    let (s, k, hd) = (qr.shape[1] as int, qr.shape[2] as int, ix.head_dim as int);
    let token = a * s + i;
    let start = (token * ix.n_heads + c) * hd;
    &&& flat.len() == hd
    &&& projected(qr.data.subrange(token * k, token * k + k), ix.wq_b@.data, c * hd, k, flat)
    &&& head_turned(
        flat,
        rope,
        ix.rope_head_dim as int,
        i,
        false,
        q.data.subrange(start, start + hd),
    )
}

/// The query of token `i` in head `c` stands at the token's position. Column `j` of its projection is row
/// `c · head_dim + j` of the query weight times the token's low-rank query. The columns before the last
/// `rope_head_dim` are the projection; pair `p` of the last ones is turned by entry `p` of the table rows
/// of position `i`.
pub proof fn law_selector_query(
    ix: Indexer,
    x: V,
    qr: V,
    rope: RopeView,
    t: SelectSteps,
    a: int,
    i: int,
    c: int,
)
    requires
        selector_input(ix, x, qr, rope),
        select_inputs(ix, x, qr, rope, t),
        0 <= a < x.shape[0],
        0 <= i < x.shape[1],
        0 <= c < ix.n_heads,
    ensures
        exists|flat: Seq<u32>| #[trigger] selector_head(ix, qr, rope, t.q, a, i, c, flat),
{
    reveal(select_inputs);
    let (b, s, k) = (x.shape[0] as int, x.shape[1] as int, qr.shape[2] as int);
    let (h, hd, rd) = (ix.n_heads as int, ix.head_dim as int, ix.rope_head_dim as int);
    let token = a * s + i;
    let row = token * h + c;
    let start = row * hd;
    let keep = hd - rd;
    let heads = shape4(x.shape[0], x.shape[1], ix.n_heads, ix.head_dim);
    let m = (ix.n_heads * ix.head_dim) as usize;
    lemma_cube4(x.shape[0], x.shape[1], ix.n_heads, ix.head_dim);
    lemma_cube(x.shape[0], x.shape[1], m);
    assert(qr.shape.drop_last().push(m) =~= shape3(x.shape[0], x.shape[1], m));
    assert(b * s * h * hd == b * s * (h * hd)) by (nonlinear_arith);
    assert(t.q_flat.data.len() == b * s * h * hd);
    lemma_flat(a, i, b, s);
    lemma_flat(token, c, b * s, h);
    assert(0 <= start && start + hd <= b * s * h * hd) by (nonlinear_arith)
        requires
            0 <= row < b * s * h,
            hd > 0,
            start == row * hd,
    ;
    let flat = t.q_flat.data.subrange(start, start + hd);
    assert forall|j: int| 0 <= j < hd implies dot_gives(
        qr.data.subrange(token * k, token * k + k),
        ix.wq_b@.data.subrange((c * hd + j) * k, (c * hd + j) * k + k),
        #[trigger] flat[j],
    ) by {
        lemma_flat(c, j, h, hd);
        assert(row * hd + j == token * (h * hd) + (c * hd + j)) by (nonlinear_arith)
            requires
                row == token * h + c,
        ;
        lemma_flat(row, j, b * s * h, hd);
        lemma_linear_at(qr, ix.wq_b@, t.q_flat, token, c * hd + j);
    }
    let q = reshaped(t.q_flat, heads);
    if rd > 0 {
        let positions = block_positions(x.shape[1], 1);
        assert(positions[i] == i);
        let (cos, sin) = (
            rows_looked_up(rope.cos, positions).data,
            rows_looked_up(rope.sin, positions).data,
        );
        lemma_table_row(rope.cos, 0, 0, positions, i);
        lemma_table_row(rope.sin, 0, 0, positions, i);
        law_heads_stand_at_positions(
            q,
            rope,
            cos,
            sin,
            ix.rope_head_dim,
            false,
            t.q,
            a,
            i,
            c,
            i,
        );
    }
    assert(head_turned(flat, rope, rd, i, false, t.q.data.subrange(start, start + hd)));
    assert(flat.len() == hd);
    assert(projected(qr.data.subrange(token * k, token * k + k), ix.wq_b@.data, c * hd, k, flat));
    assert(selector_head(ix, qr, rope, t.q, a, i, c, flat));
}

/// The values behind the score of one query and one block.
pub struct ScoreValues {
    pub root: u64,
    pub factor: u64,
    pub products: Seq<u32>,
    pub lifted: Seq<u32>,
    pub raw: Seq<u32>,
    pub weights: Seq<u32>,
}

/// The part of head `c` in the score of a block.
pub open spec fn head_of_score(
    ix: Indexer,
    x: V,
    q: Seq<u32>,
    key: Seq<u32>,
    p: int,
    v: ScoreValues,
    c: int,
) -> bool {
    let (h, hd, d) = (ix.n_heads as int, ix.head_dim as int, x.shape[2] as int);
    &&& dot_gives(q.subrange((p * h + c) * hd, (p * h + c) * hd + hd), key, v.products[c])
    &&& relu_gives(v.products[c], v.lifted[c])
    &&& dot_gives(
        x.data.subrange(p * d, p * d + d),
        ix.weights_proj@.data.subrange(c * d, c * d + d),
        v.raw[c],
    )
    &&& affine_gives(v.raw[c], v.factor, DOUBLE_ZERO, v.weights[c])
}

/// The score of block `k` for query `p`: over the heads, the product of the query and the block's key,
/// nothing where it is negative, times the weight of the head. That weight is the head's row of the
/// projection times the token, times `scale · n_heads^-½`.
pub open spec fn score_of_block(
    ix: Indexer,
    x: V,
    q: Seq<u32>,
    key: Seq<u32>,
    p: int,
    v: ScoreValues,
    score: u32,
) -> bool {
    let h = ix.n_heads as int;
    &&& v.lifted.len() == h
    &&& v.weights.len() == h
    &&& dpow_gives(dint(ix.n_heads as i64), DOUBLE_MINUS_HALF, v.root)
    &&& double_agrees(v.factor, dmul(ix.scale, v.root))
    &&& forall|c: int| 0 <= c < h ==> #[trigger] head_of_score(ix, x, q, key, p, v, c)
    &&& weighted_sum(v.lifted, v.weights, score)
}

/// The scores that the selection goes by, with the queries and the compressed keys that enter them.
pub proof fn law_selector_score(
    ix: Indexer,
    x: V,
    qr: V,
    rope: RopeView,
    t: SelectSteps,
    p: int,
    k: int,
)
    requires
        selector_input(ix, x, qr, rope),
        select_steps(ix, x, qr, rope, t),
        t.q.shape == shape4(x.shape[0], x.shape[1], ix.n_heads, ix.head_dim),
        t.q.wf(),
        t.compressed.wf(),
        t.compressed.shape == shape3(
            x.shape[0],
            block_count(x.shape[1], ix.compress_ratio),
            ix.head_dim,
        ),
        fits(
            shape4(
                x.shape[0],
                x.shape[1],
                ix.n_heads,
                block_count(x.shape[1], ix.compress_ratio),
            ),
        ),
        0 <= p < x.shape[0] * x.shape[1],
        0 <= k < block_count(x.shape[1], ix.compress_ratio),
    ensures
        compress_gives(ix.compressor, x, rope, t.compressed),
        ({
            let nb = block_count(x.shape[1], ix.compress_ratio) as int;
            let hd = ix.head_dim as int;
            let row = (p / x.shape[1] as int) * nb + k;
            exists|v: ScoreValues|
                #[trigger] score_of_block(
                    ix,
                    x,
                    t.q.data,
                    t.compressed.data.subrange(row * hd, row * hd + hd),
                    p,
                    v,
                    t.score.data[p * nb + k],
                )
        }),
{
    reveal(select_inputs);
    let (bu, su, hu, du) = (x.shape[0], x.shape[1], ix.n_heads, ix.head_dim);
    let nbu = block_count(su, ix.compress_ratio);
    let (b, s, h, hd, nb) = (bu as int, su as int, hu as int, du as int, nbu as int);
    let d = x.shape[2] as int;
    lemma_cube4(bu, su, hu, nbu);
    lemma_cube4(bu, su, hu, du);
    lemma_divide(p, b, s);
    let a = p / s;
    let row = a * nb + k;
    lemma_flat(a, k, b, nb);
    lemma_cube(bu, nbu, du);
    assert(0 <= row * hd && row * hd + hd <= b * nb * hd) by (nonlinear_arith)
        requires
            0 <= row < b * nb,
            hd > 0,
    ;
    let key = t.compressed.data.subrange(row * hd, row * hd + hd);
    // the weights of the heads
    lemma_cube(bu, su, hu);
    assert(x.shape.drop_last().push(hu) =~= shape3(bu, su, hu));
    assert(t.weights.data.len() == b * s * h);
    // the products
    let left = reshaped(t.q, shape3(bu, (su * hu) as usize, du));
    let right = swapped(t.compressed, 1);
    assert(s * h <= usize::MAX) by {
        crate::shape::lemma_merged(shape4(bu, su, hu, du), 1);
    }
    assert(right.shape =~= shape3(bu, du, nbu));
    assert(left.shape.drop_last().push(nbu) =~= shape3(bu, (su * hu) as usize, nbu));
    lemma_cube(bu, (su * hu) as usize, nbu);
    assert(b * (s * h) * nb == b * s * h * nb) by (nonlinear_arith);
    assert(t.products.data.len() == b * s * h * nb);
    let full = shape4(bu, su, hu, nbu);
    let column = shape4(bu, su, hu, 1);
    assert(unsqueezed(t.weights, 3).shape =~= column);
    crate::shape::lemma_expands_axes(column, full);
    crate::shape::lemma_broadcast_into(column, full);
    assert(full.take(2) =~= shape2(bu, su));
    lemma_grid(bu, su);
    assert(full.skip(3).drop_last() =~= Seq::<usize>::empty());
    reveal_with_fuel(product, 2);
    assert(1 * (nbu as nat) == nbu as nat);
    assert(outer(full, 2) == b * s && inner(full, 2) == nb);
    lemma_reduced_at(Reduce::Sum, 2, t.weighted, t.total, p, k);
    let v = ScoreValues {
        root: t.root,
        factor: t.factor,
        products: lane(t.products.data, h, nb, p, k),
        lifted: lane(t.scores.data, h, nb, p, k),
        raw: t.weights_flat.data.subrange(p * h, p * h + h),
        weights: t.weights.data.subrange(p * h, p * h + h),
    };
    assert(0 <= p * h && p * h + h <= b * s * h) by (nonlinear_arith)
        requires
            0 <= p < b * s,
            h > 0,
    ;
    let parts = lane(t.weighted.data, h, nb, p, k);
    assert forall|c: int| 0 <= c < h implies #[trigger] head_of_score(
        ix,
        x,
        t.q.data,
        key,
        p,
        v,
        c,
    ) by {
        lemma_flat3(p, c, k, b * s, h, nb);
        let e = (p * h + c) * nb + k;
        lemma_product_at(t.q, t.compressed, t.products, bu, su, hu, du, nbu, p, c, k);
        lemma_flat(p, c, b * s, h);
        lemma_linear_at(x, ix.weights_proj@, t.weights_flat, p, c);
        let (y, z) = (t.scores.data[e], t.weights.data[p * h + c]);
    }
    assert forall|c: int| 0 <= c < h implies agrees(
        #[trigger] parts[c],
        fmul(v.lifted[c], v.weights[c]),
    ) by {
        lemma_flat3(p, c, k, b * s, h, nb);
        let e = (p * h + c) * nb + k;
        lemma_fundamental_div_mod_converse(e, nb, p * h + c, k);
        lemma_column_source(bu, su, hu, nbu, e);
        crate::tokens::lemma_source_self(full, e);
        let z = t.weighted.data[e];
    }
    assert(products_of(v.lifted, v.weights, parts));
    assert(score_of_block(ix, x, t.q.data, key, p, v, t.score.data[p * nb + k]));
}

/// One product of a query and a key.
proof fn lemma_product_at(
    q: V,
    keys: V,
    y: V,
    bu: usize,
    su: usize,
    hu: usize,
    du: usize,
    nbu: usize,
    p: int,
    c: int,
    k: int,
)
    requires
        multiplied(reshaped(q, shape3(bu, (su * hu) as usize, du)), swapped(keys, 1), y),
        q.wf(),
        q.shape == shape4(bu, su, hu, du),
        keys.wf(),
        keys.shape == shape3(bu, nbu, du),
        su * hu <= usize::MAX,
        du > 0,
        y.data.len() == bu * su * hu * nbu,
        0 <= p < bu * su,
        0 <= c < hu,
        0 <= k < nbu,
    ensures
        ({
            let (h, hd, nb) = (hu as int, du as int, nbu as int);
            let row = (p / su as int) * nb + k;
            dot_gives(
                q.data.subrange((p * h + c) * hd, (p * h + c) * hd + hd),
                keys.data.subrange(row * hd, row * hd + hd),
                y.data[(p * h + c) * nb + k],
            )
        }),
{
    let (b, s, h, hd, nb) = (bu as int, su as int, hu as int, du as int, nbu as int);
    let left = reshaped(q, shape3(bu, (su * hu) as usize, du));
    let right = swapped(keys, 1);
    assert(right.shape =~= shape3(bu, du, nbu));
    lemma_divide(p, b, s);
    let (a, i) = (p / s, p % s);
    let row = a * nb + k;
    lemma_flat3(p, c, k, b * s, h, nb);
    let e = (p * h + c) * nb + k;
    lemma_fundamental_div_mod_converse(e, nb, p * h + c, k);
    lemma_flat(i, c, s, h);
    assert(p * h + c == a * (s * h) + (i * h + c)) by (nonlinear_arith)
        requires
            p == a * s + i,
    ;
    lemma_fundamental_div_mod_converse(p * h + c, s * h, a, i * h + c);
    let (l, r) = (left_row(left.data, hd, nb, e), right_column(right.data, s * h, hd, nb, e));
    lemma_flat(a, k, b, nb);
    lemma_cube(bu, nbu, du);
    assert(0 <= row * hd && row * hd + hd <= b * nb * hd) by (nonlinear_arith)
        requires
            0 <= row < b * nb,
            hd > 0,
    ;
    let key = keys.data.subrange(row * hd, row * hd + hd);
    assert forall|j: int| 0 <= j < hd implies #[trigger] r[j] == key[j] by {
        lemma_swapped_keys(keys, bu, nbu, du, a, k, j);
    }
    assert(r =~= key);
    let z = y.data[e];
    assert(dot_gives(l, r, y.data[e]));
}

/// A query lists the blocks of its highest scores among those that end at or before it, highest first:
/// block `k` as `seqlen + k`. What is left of its slots is empty.
pub proof fn law_selected_blocks(
    score: Seq<u32>,
    b: usize,
    s: usize,
    nb: usize,
    ratio: usize,
    k: usize,
    out: IndexView,
    a: int,
    i: int,
)
    requires
        selected(score, b, s, nb, ratio, k, out),
        ratio > 0,
        nb == s as int / ratio as int,
        s + nb <= i64::MAX,
        0 <= a < b,
        0 <= i < s,
    ensures
        ({
            let p = a * s + i;
            exists|best: Seq<usize>|
                {
                    &&& #[trigger] top_k_of(
                        score.subrange(p * nb, p * nb + (i + 1) / ratio as int),
                        k as int,
                        best,
                    )
                    &&& forall|j: int|
                        0 <= j < k && j < best.len() ==> #[trigger] out.data[p * k + j] == s + best[j]
                    &&& forall|j: int|
                        best.len() <= j < k ==> #[trigger] out.data[p * k + j] == -1
                }
        }),
{
    let p = a * s + i;
    lemma_flat(a, i, b as int, s as int);
    assert(row_selected(score, s as int, nb as int, ratio as int, k as int, out.data, p));
    let seen = crate::sparse::visible_blocks(p % s as int, ratio as int);
    let best = choose|r: Seq<usize>|
        #[trigger] top_k_of(score.subrange(p * nb, p * nb + seen), k as int, r) && row_holds(
            out.data,
            p,
            k as int,
            s as int,
            r,
        );
    vstd::arithmetic::div_mod::lemma_div_is_ordered(i + 1, s as int, ratio as int);
    vstd::arithmetic::div_mod::lemma_div_pos_is_pos(i + 1, ratio as int);
    assert(0 <= p * nb && p * nb + nb <= b * s * nb) by (nonlinear_arith)
        requires
            0 <= p < b * s,
            nb >= 0,
    ;
    assert forall|j: int| 0 <= j < k && j < best.len() implies #[trigger] out.data[p * k + j] == s
        + best[j] by {
        assert(best[j] < seen);
    }
    assert(top_k_of(score.subrange(p * nb, p * nb + (i + 1) / ratio as int), k as int, best));
}

} // verus!
