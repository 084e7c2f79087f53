//! What the attention holds, element by element.

use vstd::prelude::*;

#[allow(unused_imports)]
use crate::attention::{attn_gives, attn_steps, weight_steps, AttnSteps};
#[allow(unused_imports)]
use crate::bits::{agrees, DOUBLE_ZERO};
#[allow(unused_imports)]
use crate::elements::{lane, lemma_reduced_at, power_of};
#[allow(unused_imports)]
use crate::kernel::{
    affine_gives, dot_gives, exp_gives, fdiv, fsub, left_row, maximum, right_column, sum_gives,
};
#[allow(unused_imports)]
use crate::ops::{added, Reduce};
#[allow(unused_imports)]
use crate::queries::{
    law_attention_is_per_query, lemma_across, lemma_heads, lemma_keys, lemma_latent, lemma_rows4,
    lemma_source4, lemma_unit_inner, mask_of, mask_row, query_of, sink_of,
};
#[allow(unused_imports)]
use crate::shape::{
    inner, lemma_cube, lemma_cube4, lemma_grid, outer, product, shape2, shape3, shape4,
};
#[allow(unused_imports)]
use crate::tensor::{swapped, V};
#[allow(unused_imports)]
use crate::tokens::piece;
#[allow(unused_imports)]
use vstd::arithmetic::div_mod::lemma_fundamental_div_mod_converse;

verus! {

/// The values of one query's attention.
pub struct QueryValues {
    pub products: Seq<u32>,
    pub scaled: Seq<u32>,
    pub scores: Seq<u32>,
    pub powers: Seq<u32>,
    pub total: u32,
    pub sink_power: u32,
    pub below: u32,
    pub weights: Seq<u32>,
}

/// Key `j` of a query: the product of the two, times the scale, plus the mask; then
/// `e^(score - the highest score)`, over the sum of all of them and of the sink's.
pub open spec fn key_weighed(
    q: Seq<u32>,
    kv: Seq<u32>,
    scale: u64,
    mask: Option<Seq<u32>>,
    d: int,
    u: QueryValues,
    j: int,
) -> bool {
    &&& dot_gives(q, kv.subrange(j * d, j * d + d), u.products[j])
    &&& affine_gives(u.products[j], scale, DOUBLE_ZERO, u.scaled[j])
    &&& match mask {
        Some(m) => agrees(u.scores[j], added(u.scaled[j], m[j])),
        None => u.scores[j] == u.scaled[j],
    }
    &&& power_of(u.scores[j], maximum(u.scores), u.powers[j])
    &&& agrees(u.weights[j], fdiv(u.powers[j], u.below))
}

/// The attention of one query over `n` keys of width `d`, which are the values too. The sink has a part
/// in the sum below and no value.
pub open spec fn query_attends(
    q: Seq<u32>,
    kv: Seq<u32>,
    sink: u32,
    scale: u64,
    mask: Option<Seq<u32>>,
    n: int,
    d: int,
    u: QueryValues,
    o: Seq<u32>,
) -> bool {
    &&& u.scores.len() == n
    &&& u.powers.len() == n
    &&& u.weights.len() == n
    &&& forall|j: int| 0 <= j < n ==> #[trigger] key_weighed(q, kv, scale, mask, d, u, j)
    &&& sum_gives(u.powers, u.total)
    &&& power_of(sink, maximum(u.scores), u.sink_power)
    &&& agrees(u.below, added(u.total, u.sink_power))
    &&& o.len() == d
    &&& forall|c: int|
        0 <= c < d ==> dot_gives(u.weights, lane(kv, n, d, 0, c), #[trigger] o[c])
}

/// The mask's row, if there is a mask.
pub open spec fn row_data(mask: Option<V>) -> Option<Seq<u32>> {
    match mask {
        Some(m) => Some(m.data),
        None => None,
    }
}

proof fn lemma_unit4(n: usize)
    ensures
        product(shape4(1, 1, 1, n)) == n,
        outer(shape4(1, 1, 1, n), 3) == 1,
        inner(shape4(1, 1, 1, n), 3) == 1,
{
    let s = shape4(1, 1, 1, n);
    lemma_cube4(1, 1, 1, n);
    lemma_unit_inner(s);
    assert(s.take(3) =~= shape3(1, 1, 1));
    lemma_cube(1, 1, 1);
    assert(1 * 1 * 1 * n == n) by (nonlinear_arith);
}

/// A query alone attends by its formula.
proof fn lemma_lone_query(
    q: V,
    kv: V,
    sink: V,
    scale: u64,
    mask: Option<V>,
    o: V,
    n: usize,
    d: usize,
)
    requires
        q.wf(),
        kv.wf(),
        q.shape == shape4(1, 1, 1, d),
        kv.shape == shape3(1, n, d),
        mask matches Some(m) ==> m.shape == shape4(1, 1, 1, n),
        attn_gives(q, kv, sink, scale, mask, o),
        n > 0,
        d > 0,
    ensures
        exists|u: QueryValues|
            #[trigger] query_attends(
                q.data,
                kv.data,
                sink.data[0],
                scale,
                row_data(mask),
                n as int,
                d as int,
                u,
                o.data,
            ),
{
    reveal(weight_steps);
    let t = choose|t: AttnSteps| attn_steps(q, kv, sink, scale, mask, t, o);
    let (ni, di) = (n as int, d as int);
    let row = shape4(1, 1, 1, n);
    let one = shape4(1, 1, 1, 1);
    lemma_unit4(n);
    lemma_unit4(d);
    lemma_unit4(1);
    lemma_heads(q, 1, 1, 1, d, 0, 0, 0);
    lemma_rows4(q.shape, 1, 1, 1, d);
    assert(query_of(q, 0, 0, 0) == q) by {
        assert((0 * 1 + 0) * 1 + 0 == 0);
        assert(query_of(q, 0, 0, 0).data =~= q.data);
    }
    assert(t.heads == q);
    let keys = t.keys;
    assert(keys.shape == shape4(1, 1, n, d));
    assert(kv.data.len() == ni * di) by {
        lemma_cube(1, n, d);
        assert(1 * ni * di == ni * di) by (nonlinear_arith);
    }
    lemma_keys(kv, 1, 1, n, d, 0, 0, 0, 0);
    let across = swapped(keys, 2);
    assert(1 * 1 * ni * di == ni * di) by (nonlinear_arith);
    lemma_across(keys, 1, 1, n, d, 0, 0, 0);
    assert(t.products.shape =~= row) by {
        assert(q.shape.drop_last().push(n) =~= row);
    }
    crate::shape::lemma_broadcast_self(row);
    crate::shape::lemma_broadcast_keepdim(row, 3);
    assert(row.update(3, 1) =~= one);
    crate::shape::lemma_broadcast_self(one);
    assert(t.scores.shape == row && t.scores.data.len() == n);
    lemma_reduced_at(Reduce::Max, 3, t.scores, t.top, 0, 0);
    lemma_reduced_at(Reduce::Sum, 3, t.powers, t.total, 0, 0);
    assert(0 * 1 + 0 == 0);
    assert(lane(t.scores.data, ni, 1, 0, 0) =~= t.scores.data) by {
        assert(0 * ni == 0);
    }
    assert(lane(t.powers.data, ni, 1, 0, 0) =~= t.powers.data) by {
        assert(0 * ni == 0);
    }
    let u = QueryValues {
        products: t.products.data,
        scaled: t.scaled.data,
        scores: t.scores.data,
        powers: t.powers.data,
        total: t.total.data[0],
        sink_power: t.sink_power.data[0],
        below: t.below.data[0],
        weights: t.weights.data,
    };
    let top = t.top.data[0];
    assert(top == maximum(u.scores));
    lemma_source4(one, one, 0, 0, 0, 0);
    assert(((0 * 1 + 0) * 1 + 0) * 1 + 0 == 0);
    let s0 = t.sink_shifted.data[0];
    assert(t.sink_shifted.shape == one);
    assert(agrees(s0, fsub(sink.data[0], top)));
    assert(exp_gives(s0, t.sink_power.data[0]));
    let b0 = t.below.data[0];
    assert(agrees(u.below, added(u.total, u.sink_power)));
    assert forall|j: int| 0 <= j < ni implies #[trigger] key_weighed(
        q.data,
        kv.data,
        scale,
        row_data(mask),
        di,
        u,
        j,
    ) by {
        assert(((0 * 1 + 0) * 1 + 0) * ni + j == j) by (nonlinear_arith);
        lemma_source4(row, row, 0, 0, 0, j);
        lemma_source4(one, row, 0, 0, 0, j);
        // the product
        lemma_fundamental_div_mod_converse(j, ni, 0, j);
        let (l, r) = (left_row(q.data, di, ni, j), right_column(across.data, 1, di, ni, j));
        assert(0 * di == 0);
        assert(l =~= q.data);
        assert(0 <= j * di && j * di + di <= ni * di) by (nonlinear_arith)
            requires
                0 <= j < ni,
                di > 0,
        ;
        let key = kv.data.subrange(j * di, j * di + di);
        assert forall|x: int| 0 <= x < di implies #[trigger] r[x] == key[x] by {
            lemma_across(keys, 1, 1, n, d, 0, j, x);
            lemma_keys(kv, 1, 1, n, d, 0, 0, j, x);
            assert(((0 * 1 + 0) * n + j) * d + x == (0 * n + j) * d + x);
            assert(0 * n == 0);
        }
        assert(r =~= key);
        let p0 = t.products.data[j];
        assert(dot_gives(q.data, key, p0));
        let z0 = t.scaled.data[j];
        if let Some(m) = mask {
            let c0 = t.scores.data[j];
        }
        let d0 = t.shifted.data[j];
        assert(agrees(d0, fsub(u.scores[j], top)));
        let e0 = t.powers.data[j];
        assert(exp_gives(d0, e0));
        let w0 = t.weights.data[j];
    }
    // the values
    let out = shape4(1, 1, 1, d);
    assert(t.mixed.shape =~= out) by {
        assert(row.drop_last().push(d) =~= out);
    }
    lemma_heads(t.mixed, 1, 1, 1, d, 0, 0, 0);
    lemma_rows4(t.mixed.shape, 1, 1, 1, d);
    assert(query_of(t.mixed, 0, 0, 0) == t.mixed) by {
        assert((0 * 1 + 0) * 1 + 0 == 0);
        assert(query_of(t.mixed, 0, 0, 0).data =~= t.mixed.data);
    }
    assert(o == t.mixed);
    assert forall|c: int| 0 <= c < di implies dot_gives(
        u.weights,
        lane(kv.data, ni, di, 0, c),
        #[trigger] o.data[c],
    ) by {
        lemma_fundamental_div_mod_converse(c, di, 0, c);
        let (l, r) = (left_row(t.weights.data, ni, di, c), right_column(keys.data, 1, ni, di, c));
        assert(0 * ni == 0);
        assert(l =~= u.weights);
        assert forall|j: int| 0 <= j < ni implies #[trigger] r[j] == lane(kv.data, ni, di, 0, c)[j] by {
            lemma_keys(kv, 1, 1, n, d, 0, 0, j, c);
            assert(((0 * 1 + 0) * n + j) * d + c == (0 * n + j) * d + c);
        }
        assert(r =~= lane(kv.data, ni, di, 0, c));
        let v = t.mixed.data[c];
    }
    assert(query_attends(
        q.data,
        kv.data,
        sink.data[0],
        scale,
        row_data(mask),
        ni,
        di,
        u,
        o.data,
    ));
}

/// Query `i` of head `c` in sequence `a` attends by its formula: its own head's sink, the keys of its own
/// sequence, its own row of the mask.
pub proof fn law_attention_of_a_query(
    q: V,
    kv: V,
    sink: V,
    scale: u64,
    mask: Option<V>,
    o: V,
    a: int,
    i: int,
    c: int,
)
    requires
        q.wf(),
        kv.wf(),
        q.shape.len() == 4,
        kv.shape == shape3(q.shape[0], kv.shape[1], q.shape[3]),
        kv.shape[1] > 0,
        q.shape[3] > 0,
        mask matches Some(m) ==> m.wf() && (m.shape == shape4(1, 1, q.shape[1], kv.shape[1])
            || m.shape == shape4(q.shape[0], 1, q.shape[1], kv.shape[1])),
        attn_gives(q, kv, sink, scale, mask, o),
        0 <= a < q.shape[0],
        0 <= i < q.shape[1],
        0 <= c < q.shape[2],
    ensures
        exists|u: QueryValues| #[trigger] attends_at(q, kv, sink, scale, mask, o, a, i, c, u),
{
    let (b, s, h, d) = (q.shape[0], q.shape[1], q.shape[2], q.shape[3]);
    let n = kv.shape[1];
    law_attention_is_per_query(q, kv, sink, scale, mask, o, a, i, c);
    crate::queries::lemma_attended_shape(q, kv, sink, scale, mask, o);
    assert(q.shape =~= shape4(b, s, h, d));
    lemma_heads(q, b, s, h, d, a, i, c);
    lemma_latent(kv, b, n, d, a);
    lemma_rows4(q.shape, b, s, h, d);
    let one = query_of(q, a, i, c);
    let keys = piece(kv, 1, a);
    let row = mask_row(mask, a, i);
    if let Some(m) = mask {
        lemma_mask_shape(m, b, s, n, a, i);
    }
    lemma_lone_query(
        one,
        keys,
        sink_of(sink, c),
        scale,
        row,
        query_of(o, a, i, c),
        n,
        d,
    );
    let u = choose|u: QueryValues|
        #[trigger] query_attends(
            one.data,
            keys.data,
            sink_of(sink, c).data[0],
            scale,
            row_data(row),
            n as int,
            d as int,
            u,
            query_of(o, a, i, c).data,
        );
    assert(sink_of(sink, c).data[0] == sink.data[c]);
    assert(kv.shape.skip(1) =~= shape2(n, d));
    lemma_grid(n, d);
    assert(a * (n * d) == a * n * d) by (nonlinear_arith);
    assert(attends_at(q, kv, sink, scale, mask, o, a, i, c, u));
}

proof fn lemma_mask_shape(m: V, b: usize, s: usize, n: usize, a: int, i: int)
    requires
        m.wf(),
        m.shape == shape4(1, 1, s, n) || m.shape == shape4(b, 1, s, n),
        0 <= a < b,
        0 <= i < s,
    ensures
        mask_of(m, a, i).shape == shape4(1, 1, 1, n),
        ({
            let p = (if m.shape[0] == 1 {
                0
            } else {
                a
            }) * s + i;
            mask_of(m, a, i).data == m.data.subrange(p * n, p * n + n)
        }),
{
    if m.shape == shape4(1, 1, s, n) {
        lemma_rows4(m.shape, 1, 1, s, n);
    } else {
        lemma_rows4(m.shape, b, 1, s, n);
    }
}

/// The row of an additive mask that query `i` of sequence `a` takes.
pub open spec fn mask_values(mask: Option<V>, a: int, i: int) -> Option<Seq<u32>> {
    match mask {
        Some(m) => {
            let (s, n) = (m.shape[2] as int, m.shape[3] as int);
            let p = (if m.shape[0] == 1 {
                0
            } else {
                a
            }) * s + i;
            Some(m.data.subrange(p * n, p * n + n))
        },
        None => None,
    }
}

/// The same, by the places of the query, its keys, its sink and its mask in their tensors.
pub open spec fn attends_at(
    q: V,
    kv: V,
    sink: V,
    scale: u64,
    mask: Option<V>,
    o: V,
    a: int,
    i: int,
    c: int,
    u: QueryValues,
) -> bool {
    let (s, h, d) = (q.shape[1] as int, q.shape[2] as int, q.shape[3] as int);
    let n = kv.shape[1] as int;
    let start = ((a * s + i) * h + c) * d;
    query_attends(
        q.data.subrange(start, start + d),
        kv.data.subrange(a * n * d, a * n * d + n * d),
        sink.data[c],
        scale,
        mask_values(mask, a, i),
        n,
        d,
        u,
        o.data.subrange(start, start + d),
    )
}

} // verus!
