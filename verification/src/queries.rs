//! Laws of attention: the weights of a query are its own, and a key that its mask closes has no part
//! in them.

use vstd::prelude::*;

#[allow(unused_imports)]
use crate::attention::{
    attn_gives, attn_steps, causal_mask_of, listed, sparse_mask_of, weight_steps, AttnSteps,
};
#[allow(unused_imports)]
use crate::bits::{absorbed, agrees, DOUBLE_ZERO, NEG_INFINITY, ZERO};
#[allow(unused_imports)]
use crate::kernel::{left_row, right_column};
#[allow(unused_imports)]
use crate::ops::{binary, combined, mapped, multiplied, Binary, Reduce, Unary};
#[allow(unused_imports)]
use crate::shape::{
    fits, inner, lemma_broadcast_into, lemma_broadcast_keepdim, lemma_cube, lemma_cube4,
    lemma_expands_axes, lemma_flat, lemma_flat3, product, shape2, shape3, shape4, source_index,
};
#[allow(unused_imports)]
use crate::tensor::{expanded, reshaped, swapped, unsqueezed, IndexView, NdView, V};
#[allow(unused_imports)]
use crate::tokens::{
    lemma_combined, lemma_mapped, lemma_paired, lemma_piece, lemma_reduced, lemma_source_self, ones,
    piece, positions,
};

verus! {

/// Query `i` of head `c` in sequence `a` of a `[b, s, h, d]` tensor of queries.
pub open spec fn query_of(q: V, a: int, i: int, c: int) -> V {
    piece(q, 3, (a * q.shape[1] + i) * q.shape[2] + c)
}

/// The row of query `i` of head `c` in sequence `a` of a `[b, h, s, n]` tensor of scores or weights.
pub open spec fn row_of(w: V, a: int, i: int, c: int) -> V {
    piece(w, 3, (a * w.shape[1] + c) * w.shape[2] + i)
}

/// The sink of head `c`.
pub open spec fn sink_of(sink: V, c: int) -> V {
    NdView { shape: ones(1), data: seq![sink.data[c]] }
}

/// The row of query `i` in sequence `a` of a mask for all heads, that is for all sequences or one
/// for each.
pub open spec fn mask_of(mask: V, a: int, i: int) -> V {
    piece(
        mask,
        3,
        (if mask.shape[0] == 1 {
            0
        } else {
            a
        }) * mask.shape[2] + i,
    )
}

/// `w` are weights that attention may give.
pub open spec fn weights_give(q: V, kv: V, sink: V, scale: u64, mask: Option<V>, w: V) -> bool {
    exists|t: AttnSteps| #[trigger] weight_steps(q, kv, sink, scale, mask, t) && t.weights == w
}

/// The rows of a four-axis tensor.
pub proof fn lemma_rows4(s: Seq<usize>, b: usize, h: usize, n: usize, d: usize)
    requires
        s == shape4(b, h, n, d),
    ensures
        positions(s, 3) == b * h * n,
        inner(s, 2) == d,
        product(s.skip(3)) == d,
        ones(3) + s.skip(3) == shape4(1, 1, 1, d),
{
    assert(s.take(3) =~= shape3(b, h, n));
    lemma_cube(b, h, n);
    let r = s.skip(3);
    assert(r.drop_last() =~= Seq::<usize>::empty());
    assert(r.last() == d);
    reveal_with_fuel(product, 2);
    assert(product(r) == 1 * (d as nat));
    assert(ones(3) + r =~= shape4(1, 1, 1, d));
}

/// The place of a query among the rows of its tensor.
proof fn lemma_place(a: int, c: int, i: int, b: int, h: int, s: int)
    requires
        0 <= a < b,
        0 <= c < h,
        0 <= i < s,
    ensures
        ({
            let p = (a * h + c) * s + i;
            &&& 0 <= p < b * h * s
            &&& p / s == a * h + c
            &&& p % s == i
            &&& (p / s) / h == a
            &&& (p / s) % h == c
            &&& 0 <= a * h + c < b * h
        }),
{
    lemma_flat(a, c, b, h);
    lemma_flat(a * h + c, i, b * h, s);
}

/// An array of no inner elements is exchanged elementwise.
pub proof fn lemma_unit_inner(s: Seq<usize>)
    requires
        s.len() == 4,
    ensures
        inner(s, 3) == 1,
{
    assert(s.skip(4) =~= Seq::<usize>::empty());
}

/// The queries of one head, side by side, are the queries.
pub proof fn lemma_heads(
    q: V,
    b: usize,
    s: usize,
    h: usize,
    d: usize,
    a: int,
    i: int,
    c: int,
)
    requires
        q.wf(),
        q.shape == shape4(b, s, h, d),
        0 <= a < b,
        0 <= i < s,
        0 <= c < h,
    ensures
        swapped(q, 1).shape == shape4(b, h, s, d),
        swapped(q, 1).data.len() == b * h * s * d,
        query_of(q, a, i, c).wf(),
        query_of(q, a, i, c).shape == shape4(1, 1, 1, d),
        swapped(query_of(q, a, i, c), 1) == query_of(q, a, i, c),
        forall|x: int|
            0 <= x < d ==> #[trigger] query_of(q, a, i, c).data[x] == swapped(q, 1).data[((a * h
                + c) * s + i) * d + x],
{
    let t = swapped(q, 1);
    let u = query_of(q, a, i, c);
    let p = (a * h + c) * s + i;
    let di = d as int;
    lemma_rows4(q.shape, b, s, h, d);
    lemma_cube4(b, s, h, d);
    lemma_place(a, i, c, b as int, s as int, h as int);
    lemma_place(a, c, i, b as int, h as int, s as int);
    lemma_piece(q, 3, (a * s + i) * h + c);
    assert(t.shape =~= shape4(b, h, s, d));
    assert(b * h * s * d == b * s * h * d) by (nonlinear_arith);
    lemma_rows4(u.shape, 1, 1, 1, d);
    assert(swapped(u, 1).shape =~= u.shape);
    assert forall|x: int| 0 <= x < d implies #[trigger] u.data[x] == t.data[p * d + x] by {
        lemma_flat(p, x, b * h * s, di);
        assert((p * di + x) / di == p && (p * di + x) % di == x);
    }
    assert forall|x: int| 0 <= x < d implies swapped(u, 1).data[x] == #[trigger] u.data[x] by {
        lemma_flat(0, x, 1, di);
        assert(0 * di + x == x);
        assert(x / di == 0 && x % di == x);
        assert(((0int * 1 + 0) * 1 + 0) * di + x == x);
    }
    assert(swapped(u, 1).data =~= u.data);
}

/// A coordinate in an axis that may be repeated.
pub open spec fn coordinate(from: usize, to: usize, i: int) -> int {
    if from == to {
        i
    } else {
        0
    }
}

/// Where an element of a repeated four-axis tensor comes from.
pub proof fn lemma_source4(f: Seq<usize>, t: Seq<usize>, a: int, c: int, i: int, x: int)
    requires
        f.len() == 4,
        t.len() == 4,
        0 <= a < t[0],
        0 <= c < t[1],
        0 <= i < t[2],
        0 <= x < t[3],
    ensures
        source_index(f, t, ((a * t[1] + c) * t[2] + i) * t[3] + x) == ((coordinate(f[0], t[0], a)
            * f[1] + coordinate(f[1], t[1], c)) * f[2] + coordinate(f[2], t[2], i)) * f[3]
            + coordinate(f[3], t[3], x),
{
    let (t0, t1, t2, t3) = (t[0] as int, t[1] as int, t[2] as int, t[3] as int);
    let p3 = ((a * t1 + c) * t2 + i) * t3 + x;
    lemma_place(a, c, i, t0, t1, t2);
    lemma_flat((a * t1 + c) * t2 + i, x, t0 * t1 * t2, t3);
    lemma_flat(0, a, 1, t0);
    assert(0 * t0 + a == a);
    let (f3, g3) = (f.drop_last(), t.drop_last());
    let (f2, g2) = (f3.drop_last(), g3.drop_last());
    let (f1, g1) = (f2.drop_last(), g2.drop_last());
    let (f0, g0) = (f1.drop_last(), g1.drop_last());
    assert(f0.len() == 0);
    assert(f1.last() == f[0] && f2.last() == f[1] && f3.last() == f[2]);
    assert(g1.last() == t[0] && g2.last() == t[1] && g3.last() == t[2]);
    assert(source_index(f0, g0, a / t0) == 0);
    assert(0 * f[0] == 0);
    assert(source_index(f1, g1, a) == coordinate(f[0], t[0], a));
    assert(source_index(f2, g2, a * t1 + c) == coordinate(f[0], t[0], a) * f[1] + coordinate(
        f[1],
        t[1],
        c,
    ));
    assert(source_index(f3, g3, (a * t1 + c) * t2 + i) == (coordinate(f[0], t[0], a) * f[1]
        + coordinate(f[1], t[1], c)) * f[2] + coordinate(f[2], t[2], i));
}

/// The keys of every head are the latent.
pub proof fn lemma_keys(
    kv: V,
    b: usize,
    h: usize,
    n: usize,
    d: usize,
    a: int,
    c: int,
    j: int,
    x: int,
)
    requires
        kv.wf(),
        kv.shape == shape3(b, n, d),
        0 <= a < b,
        0 <= c < h,
        0 <= j < n,
        0 <= x < d,
    ensures
        0 <= (a * n + j) * d + x < kv.data.len(),
        0 <= ((a * h + c) * n + j) * d + x < b * h * n * d,
        expanded(unsqueezed(kv, 1), shape4(b, h, n, d)).data.len() == b * h * n * d,
        expanded(unsqueezed(kv, 1), shape4(b, h, n, d)).data[((a * h + c) * n + j) * d + x]
            == kv.data[(a * n + j) * d + x],
{
    let f = kv.shape.insert(1, 1);
    let t = shape4(b, h, n, d);
    assert(f =~= shape4(b, 1, n, d));
    lemma_cube(b, n, d);
    lemma_cube4(b, h, n, d);
    lemma_flat3(a, j, x, b as int, n as int, d as int);
    lemma_place(a, c, j, b as int, h as int, n as int);
    lemma_flat((a * h + c) * n + j, x, b * h * n, d as int);
    lemma_source4(f, t, a, c, j, x);
    assert(coordinate(f[1], t[1], c) == 0 || (h == 1 && c == 0));
    assert(a * 1 + 0 == a);
}

/// The latent of one sequence.
pub proof fn lemma_latent(kv: V, b: usize, n: usize, d: usize, a: int)
    requires
        kv.wf(),
        kv.shape == shape3(b, n, d),
        0 <= a < b,
    ensures
        piece(kv, 1, a).wf(),
        piece(kv, 1, a).shape == shape3(1, n, d),
        forall|j: int, x: int|
            0 <= j < n && 0 <= x < d ==> #[trigger] piece(kv, 1, a).data[j * d + x]
                == kv.data[(a * n + j) * d + x],
{
    let s = kv.shape;
    assert(s.take(1).drop_last() =~= Seq::<usize>::empty());
    reveal_with_fuel(product, 2);
    assert(s.take(1).last() == b);
    assert(product(s.take(1)) == 1 * (b as nat));
    assert(s.skip(1) =~= shape2(n, d));
    crate::shape::lemma_grid(n, d);
    lemma_piece(kv, 1, a);
    assert(ones(1) + s.skip(1) =~= shape3(1, n, d));
    assert forall|j: int, x: int| 0 <= j < n && 0 <= x < d implies #[trigger] piece(
        kv,
        1,
        a,
    ).data[j * d + x] == kv.data[(a * n + j) * d + x] by {
        lemma_flat(j, x, n as int, d as int);
        assert(a * (n * d) + (j * d + x) == (a * n + j) * d + x) by (nonlinear_arith);
    }
}

/// An element of the keys with their last two axes exchanged.
pub proof fn lemma_across(keys: V, b: usize, h: usize, n: usize, d: usize, g: int, j: int, x: int)
    requires
        keys.shape == shape4(b, h, n, d),
        keys.data.len() == b * h * n * d,
        0 <= g < b * h,
        0 <= j < n,
        0 <= x < d,
    ensures
        swapped(keys, 2).shape == shape4(b, h, d, n),
        0 <= (g * d + x) * n + j < swapped(keys, 2).data.len(),
        swapped(keys, 2).data[(g * d + x) * n + j] == keys.data[(g * n + j) * d + x],
{
    let t = swapped(keys, 2);
    assert(t.shape =~= shape4(b, h, d, n));
    lemma_unit_inner(keys.shape);
    let (ni, di, gs) = (n as int, d as int, b * h);
    lemma_place(g, x, j, gs, di, ni);
    let p = (g * di + x) * ni + j;
    assert(b * h * d * n == b * h * n * d) by (nonlinear_arith);
    assert(p / 1 == p && p % 1 == 0);
    assert(((g * ni + j) * di + x) * 1 + 0 == (g * ni + j) * di + x);
}

/// The products of a query are those that it has with the latent of its sequence.
proof fn lemma_products(
    q: V,
    kv: V,
    y: V,
    b: usize,
    s: usize,
    h: usize,
    n: usize,
    d: usize,
    a: int,
    i: int,
    c: int,
)
    requires
        q.wf(),
        kv.wf(),
        q.shape == shape4(b, s, h, d),
        kv.shape == shape3(b, n, d),
        0 <= a < b,
        0 <= i < s,
        0 <= c < h,
        multiplied(
            swapped(q, 1),
            swapped(expanded(unsqueezed(kv, 1), shape4(b, h, n, d)), 2),
            y,
        ),
    ensures
        y.wf(),
        y.shape == shape4(b, h, s, n),
        row_of(y, a, i, c).wf(),
        row_of(y, a, i, c).shape == shape4(1, 1, 1, n),
        multiplied(
            swapped(query_of(q, a, i, c), 1),
            swapped(expanded(unsqueezed(piece(kv, 1, a), 1), shape4(1, 1, n, d)), 2),
            row_of(y, a, i, c),
        ),
{
    let full = shape4(b, h, n, d);
    let heads = swapped(q, 1);
    let keys = expanded(unsqueezed(kv, 1), full);
    let across = swapped(keys, 2);
    let u = query_of(q, a, i, c);
    let own = piece(kv, 1, a);
    let k1 = expanded(unsqueezed(own, 1), shape4(1, 1, n, d));
    let across1 = swapped(k1, 2);
    let z = row_of(y, a, i, c);
    let g = a * h + c;
    let p = g * s + i;
    lemma_heads(q, b, s, h, d, a, i, c);
    lemma_latent(kv, b, n, d, a);
    lemma_place(a, c, i, b as int, h as int, s as int);
    assert(across.shape =~= shape4(b, h, d, n));
    assert(across1.shape =~= shape4(1, 1, d, n));
    assert(heads.shape.drop_last().push(n) =~= shape4(b, h, s, n));
    assert(y.shape == shape4(b, h, s, n));
    assert(y.wf());
    lemma_rows4(y.shape, b, h, s, n);
    lemma_piece(y, 3, p);
    assert(z.shape == shape4(1, 1, 1, n));
    assert(u.shape.drop_last().push(n) =~= shape4(1, 1, 1, n));
    assert(u.shape.take(2) =~= across1.shape.take(2));
    lemma_cube4(b, h, n, d);
    lemma_cube4(1, 1, n, d);
    lemma_cube4(1, 1, 1, d);
    let (ni, di) = (n as int, d as int);
    assert(1 * 1 * 1 * d == d) by (nonlinear_arith);
    assert(u.data.len() == product(u.shape));
    assert(u.data.len() == d);
    assert forall|j: int| 0 <= j < z.data.len() implies if d == 0 {
        #[trigger] z.data[j] == ZERO
    } else {
        crate::kernel::dot_gives(
            left_row(u.data, di, ni, j),
            right_column(across1.data, 1, di, ni, j),
            z.data[j],
        )
    } by {
        lemma_flat(p, j, b * h * s, ni);
        lemma_flat(0, j, 1, ni);
        assert(0 * ni + j == j);
        assert(z.data[j] == y.data[p * ni + j]);
        let e = p * ni + j;
        if d > 0 {
            let (l, l1) = (left_row(heads.data, di, ni, e), left_row(u.data, di, ni, j));
            lemma_flat(p, di - 1, b * h * s, di);
            assert(0 <= p * di) by (nonlinear_arith)
                requires
                    p >= 0,
                    di > 0,
            ;
            assert(l =~= l1) by {
                assert(0 * di == 0);
                assert forall|x: int| 0 <= x < di implies l[x] == #[trigger] l1[x] by {
                    assert(u.data[x] == heads.data[p * d + x]);
                    assert(l[x] == heads.data[p * di + x]);
                }
            }
            let (r, r1) = (
                right_column(across.data, s as int, di, ni, e),
                right_column(across1.data, 1, di, ni, j),
            );
            assert(r =~= r1) by {
                assert forall|x: int| 0 <= x < di implies r[x] == #[trigger] r1[x] by {
                    lemma_keys(kv, b, h, n, d, a, c, j, x);
                    lemma_across(keys, b, h, n, d, g, j, x);
                    lemma_keys(own, 1, 1, n, d, 0, 0, j, x);
                    lemma_across(k1, 1, 1, n, d, 0, j, x);
                    assert((j / ni) / 1 == 0 && j % ni == j);
                    assert((0 * 1 + 0) * ni + j == j);
                    assert((0 * ni + j) * di + x == j * di + x);
                    assert((0 * di + x) * ni + j == x * ni + j);
                    assert(own.data[j * d + x] == kv.data[(a * n + j) * d + x]);
                }
            }
        }
    }
}

/// A row is combined with a row of its own shape element by element.
proof fn lemma_combined_rows(op: Binary, x: V, m: V, y: V, n: usize)
    requires
        x.shape == shape4(1, 1, 1, n),
        m.shape == shape4(1, 1, 1, n),
        y.shape == shape4(1, 1, 1, n),
        y.wf(),
        forall|j: int|
            0 <= j < n ==> agrees(#[trigger] y.data[j], binary(op, x.data[j], m.data[j])),
    ensures
        combined(op, x, m, y),
{
    let t = shape4(1, 1, 1, n);
    crate::shape::lemma_broadcast_self(t);
    lemma_cube4(1, 1, 1, n);
    assert(1 * 1 * 1 * n == n) by (nonlinear_arith);
    assert forall|j: int| 0 <= j < y.data.len() implies agrees(
        #[trigger] y.data[j],
        binary(
            op,
            x.data[source_index(x.shape, y.shape, j)],
            m.data[source_index(m.shape, y.shape, j)],
        ),
    ) by {
        lemma_source_self(t, j);
    }
}

/// A mask is added to the row of a query from the row of that query.
proof fn lemma_masked(
    x: V,
    mask: V,
    y: V,
    b: usize,
    s: usize,
    h: usize,
    n: usize,
    a: int,
    i: int,
    c: int,
)
    requires
        x.wf(),
        mask.wf(),
        x.shape == shape4(b, h, s, n),
        mask.shape == shape4(1, 1, s, n) || mask.shape == shape4(b, 1, s, n),
        0 <= a < b,
        0 <= i < s,
        0 <= c < h,
        combined(Binary::Add, x, mask, y),
    ensures
        y.wf(),
        y.shape == shape4(b, h, s, n),
        mask_of(mask, a, i).wf(),
        mask_of(mask, a, i).shape == shape4(1, 1, 1, n),
        combined(Binary::Add, row_of(x, a, i, c), mask_of(mask, a, i), row_of(y, a, i, c)),
{
    let t = shape4(b, h, s, n);
    let k = mask.shape[0];
    let f = shape4(k, 1, s, n);
    assert(mask.shape == f);
    lemma_expands_axes(f, t);
    lemma_broadcast_into(f, t);
    assert(y.shape == t);
    let p = (a * h + c) * s + i;
    let o: int = if k == 1 {
        0
    } else {
        a
    };
    lemma_place(a, c, i, b as int, h as int, s as int);
    lemma_rows4(t, b, h, s, n);
    lemma_rows4(f, k, 1, s, n);
    lemma_piece(x, 3, p);
    lemma_piece(y, 3, p);
    lemma_place(o, 0, i, k as int, 1, s as int);
    assert((o * 1 + 0) * s + i == o * s + i);
    lemma_piece(mask, 3, o * s + i);
    let (x1, m1, y1) = (row_of(x, a, i, c), mask_of(mask, a, i), row_of(y, a, i, c));
    assert forall|j: int| 0 <= j < n implies agrees(
        #[trigger] y1.data[j],
        binary(Binary::Add, x1.data[j], m1.data[j]),
    ) by {
        let e = p * n + j;
        lemma_flat(p, j, b * h * s, n as int);
        lemma_cube4(b, h, s, n);
        lemma_source_self(t, e);
        lemma_source4(f, t, a, c, i, j);
        assert(coordinate(f[0], t[0], a) == o);
        assert(coordinate(f[1], t[1], c) == 0);
        assert(y1.data[j] == y.data[e]);
        assert(x1.data[j] == x.data[e]);
        assert(m1.data[j] == mask.data[(o * s + i) * n + j]);
    }
    lemma_combined_rows(Binary::Add, x1, m1, y1, n);
}

/// The sink of a head stands against the maximum of each of its queries.
proof fn lemma_sinks(
    sink: V,
    top: V,
    y: V,
    b: usize,
    s: usize,
    h: usize,
    a: int,
    i: int,
    c: int,
)
    requires
        top.wf(),
        top.shape == shape4(b, h, s, 1),
        0 <= a < b,
        0 <= i < s,
        0 <= c < h,
        combined(Binary::Sub, reshaped(sink, shape4(1, h, 1, 1)), top, y),
    ensures
        y.wf(),
        y.shape == shape4(b, h, s, 1),
        combined(
            Binary::Sub,
            reshaped(sink_of(sink, c), shape4(1, 1, 1, 1)),
            row_of(top, a, i, c),
            row_of(y, a, i, c),
        ),
{
    let t = shape4(b, h, s, 1);
    let f = shape4(1, h, 1, 1);
    let lane = reshaped(sink_of(sink, c), shape4(1, 1, 1, 1));
    lemma_expands_axes(f, t);
    lemma_broadcast_into(f, t);
    assert(y.shape == t);
    let p = (a * h + c) * s + i;
    lemma_place(a, c, i, b as int, h as int, s as int);
    lemma_rows4(t, b, h, s, 1);
    lemma_piece(top, 3, p);
    lemma_piece(y, 3, p);
    let (x1, y1) = (row_of(top, a, i, c), row_of(y, a, i, c));
    assert forall|j: int| 0 <= j < 1 implies agrees(
        #[trigger] y1.data[j],
        binary(Binary::Sub, lane.data[j], x1.data[j]),
    ) by {
        lemma_flat(p, 0, b * h * s, 1);
        lemma_cube4(b, h, s, 1);
        lemma_source_self(t, p);
        lemma_source4(f, t, a, c, i, 0);
        assert(coordinate(f[0], t[0], a) == 0);
        assert(coordinate(f[1], t[1], c) == c);
        assert(coordinate(f[2], t[2], i) == 0);
        assert(((0 * h + c) * 1 + 0) * 1 + 0 == c);
        assert(p * 1 + 0 == p);
        assert(y1.data[0] == y.data[p]);
        assert(x1.data[0] == top.data[p]);
    }
    lemma_combined_rows(Binary::Sub, lane, x1, y1, 1);
}

/// The mask of the query alone.
pub open spec fn mask_row(mask: Option<V>, a: int, i: int) -> Option<V> {
    match mask {
        Some(m) => Some(mask_of(m, a, i)),
        None => None,
    }
}

/// What stands between input and weights of one query.
pub open spec fn steps_of(q: V, kv: V, t: AttnSteps, a: int, i: int, c: int) -> AttnSteps {
    AttnSteps {
        heads: swapped(query_of(q, a, i, c), 1),
        keys: expanded(
            unsqueezed(piece(kv, 1, a), 1),
            shape4(1, 1, kv.shape[1], q.shape[3]),
        ),
        products: row_of(t.products, a, i, c),
        scaled: row_of(t.scaled, a, i, c),
        scores: row_of(t.scores, a, i, c),
        top: row_of(t.top, a, i, c),
        shifted: row_of(t.shifted, a, i, c),
        powers: row_of(t.powers, a, i, c),
        total: row_of(t.total, a, i, c),
        sink_shifted: row_of(t.sink_shifted, a, i, c),
        sink_power: row_of(t.sink_power, a, i, c),
        below: row_of(t.below, a, i, c),
        weights: row_of(t.weights, a, i, c),
        mixed: row_of(t.mixed, a, i, c),
    }
}

/// Every step of attention up to the weights acts on each query.
proof fn lemma_weight_steps(
    q: V,
    kv: V,
    sink: V,
    scale: u64,
    mask: Option<V>,
    t: AttnSteps,
    a: int,
    i: int,
    c: int,
)
    requires
        q.wf(),
        kv.wf(),
        q.shape.len() == 4,
        kv.shape == shape3(q.shape[0], kv.shape[1], q.shape[3]),
        mask matches Some(m) ==> m.wf() && (m.shape == shape4(1, 1, q.shape[1], kv.shape[1])
            || m.shape == shape4(q.shape[0], 1, q.shape[1], kv.shape[1])),
        weight_steps(q, kv, sink, scale, mask, t),
        0 <= a < q.shape[0],
        0 <= i < q.shape[1],
        0 <= c < q.shape[2],
    ensures
        weight_steps(
            query_of(q, a, i, c),
            piece(kv, 1, a),
            sink_of(sink, c),
            scale,
            mask_row(mask, a, i),
            steps_of(q, kv, t, a, i, c),
        ),
        row_of(t.products, a, i, c).shape == shape4(1, 1, 1, kv.shape[1]),
        row_of(t.scores, a, i, c).wf(),
        row_of(t.scores, a, i, c).shape == shape4(1, 1, 1, kv.shape[1]),
        mask matches Some(m) ==> mask_of(m, a, i).shape == shape4(1, 1, 1, kv.shape[1]),
        t.weights.wf(),
        t.weights.shape == shape4(q.shape[0], q.shape[2], q.shape[1], kv.shape[1]),
{
    reveal(weight_steps);
    let (b, s, h, d) = (q.shape[0], q.shape[1], q.shape[2], q.shape[3]);
    let n = kv.shape[1];
    assert(q.shape =~= shape4(b, s, h, d));
    let full = shape4(b, h, s, n);
    let tops = shape4(b, h, s, 1);
    let p = (a * h + c) * s + i;
    lemma_place(a, c, i, b as int, h as int, s as int);
    lemma_rows4(full, b, h, s, n);
    lemma_rows4(tops, b, h, s, 1);
    lemma_heads(q, b, s, h, d, a, i, c);
    lemma_latent(kv, b, n, d, a);
    lemma_products(q, kv, t.products, b, s, h, n, d, a, i, c);
    lemma_mapped(Unary::Affine(scale, DOUBLE_ZERO), t.products, t.scaled, 3, p);
    if let Some(m) = mask {
        lemma_masked(t.scaled, m, t.scores, b, s, h, n, a, i, c);
    }
    assert(t.scores.wf() && t.scores.shape == full);
    lemma_piece(t.scores, 3, p);
    lemma_reduced(Reduce::Max, 3, t.scores, t.top, 3, p);
    assert(t.top.shape =~= tops);
    assert(full.take(3) =~= tops.take(3));
    lemma_broadcast_keepdim(full, 3);
    assert(full.update(3, 1) =~= tops);
    lemma_combined(Binary::Sub, t.scores, t.top, t.shifted, 3, p);
    lemma_mapped(Unary::Exp, t.shifted, t.powers, 3, p);
    lemma_reduced(Reduce::Sum, 3, t.powers, t.total, 3, p);
    assert(t.total.shape =~= tops);
    lemma_sinks(sink, t.top, t.sink_shifted, b, s, h, a, i, c);
    lemma_mapped(Unary::Exp, t.sink_shifted, t.sink_power, 3, p);
    lemma_paired(Binary::Add, t.total, t.sink_power, t.below, 3, p);
    lemma_combined(Binary::Div, t.powers, t.below, t.weights, 3, p);
}

/// A weighted sum of the keys is taken for each query from its own weights.
proof fn lemma_mixed(
    w: V,
    kv: V,
    y: V,
    b: usize,
    s: usize,
    h: usize,
    n: usize,
    d: usize,
    a: int,
    i: int,
    c: int,
)
    requires
        w.wf(),
        kv.wf(),
        w.shape == shape4(b, h, s, n),
        kv.shape == shape3(b, n, d),
        0 <= a < b,
        0 <= i < s,
        0 <= c < h,
        multiplied(w, expanded(unsqueezed(kv, 1), shape4(b, h, n, d)), y),
    ensures
        y.wf(),
        y.shape == shape4(b, h, s, d),
        multiplied(
            row_of(w, a, i, c),
            expanded(unsqueezed(piece(kv, 1, a), 1), shape4(1, 1, n, d)),
            row_of(y, a, i, c),
        ),
{
    let keys = expanded(unsqueezed(kv, 1), shape4(b, h, n, d));
    let own = piece(kv, 1, a);
    let k1 = expanded(unsqueezed(own, 1), shape4(1, 1, n, d));
    let (u, z) = (row_of(w, a, i, c), row_of(y, a, i, c));
    let g = a * h + c;
    let p = g * s + i;
    lemma_latent(kv, b, n, d, a);
    lemma_place(a, c, i, b as int, h as int, s as int);
    assert(w.shape.drop_last().push(d) =~= shape4(b, h, s, d));
    assert(y.wf());
    lemma_rows4(w.shape, b, h, s, n);
    lemma_rows4(y.shape, b, h, s, d);
    lemma_piece(w, 3, p);
    lemma_piece(y, 3, p);
    assert(u.shape.drop_last().push(d) =~= z.shape);
    assert(u.shape.take(2) =~= k1.shape.take(2));
    let (ni, di) = (n as int, d as int);
    assert forall|x: int| 0 <= x < z.data.len() implies if n == 0 {
        #[trigger] z.data[x] == ZERO
    } else {
        crate::kernel::dot_gives(
            left_row(u.data, ni, di, x),
            right_column(k1.data, 1, ni, di, x),
            z.data[x],
        )
    } by {
        lemma_flat(p, x, b * h * s, di);
        lemma_flat(0, x, 1, di);
        assert(0 * di + x == x);
        let e = p * di + x;
        assert(z.data[x] == y.data[e]);
        if n > 0 {
            let (l, l1) = (left_row(w.data, ni, di, e), left_row(u.data, ni, di, x));
            assert(l =~= l1) by {
                assert(0 * ni == 0);
                assert forall|j: int| 0 <= j < ni implies l[j] == #[trigger] l1[j] by {
                    assert(u.data[j] == w.data[p * ni + j]);
                }
            }
            let (r, r1) = (
                right_column(keys.data, s as int, ni, di, e),
                right_column(k1.data, 1, ni, di, x),
            );
            assert(r =~= r1) by {
                assert forall|j: int| 0 <= j < ni implies r[j] == #[trigger] r1[j] by {
                    lemma_keys(kv, b, h, n, d, a, c, j, x);
                    lemma_keys(own, 1, 1, n, d, 0, 0, j, x);
                    assert((x / di) / 1 == 0 && x % di == x);
                    assert(((0 * 1 + 0) * ni + j) * di + x == j * di + x);
                    assert((0 * ni + j) * di + x == j * di + x);
                    assert(own.data[j * d + x] == kv.data[(a * n + j) * d + x]);
                }
            }
        }
    }
}

/// A query attends by itself: what it gets is what it gets alone, from the latent of its own
/// sequence, the sink of its head and its row of the mask.
pub proof fn law_attention_is_per_query(
    q: V,
    kv: V,
    sink: V,
    scale: u64,
    mask: Option<V>,
    o: V,
    a: int,
    i: int,
    c: int,
)
    requires
        q.wf(),
        kv.wf(),
        q.shape.len() == 4,
        kv.shape == shape3(q.shape[0], kv.shape[1], q.shape[3]),
        mask matches Some(m) ==> m.wf() && (m.shape == shape4(1, 1, q.shape[1], kv.shape[1])
            || m.shape == shape4(q.shape[0], 1, q.shape[1], kv.shape[1])),
        attn_gives(q, kv, sink, scale, mask, o),
        0 <= a < q.shape[0],
        0 <= i < q.shape[1],
        0 <= c < q.shape[2],
    ensures
        attn_gives(
            query_of(q, a, i, c),
            piece(kv, 1, a),
            sink_of(sink, c),
            scale,
            mask_row(mask, a, i),
            query_of(o, a, i, c),
        ),
{
    reveal(weight_steps);
    let (b, s, h, d) = (q.shape[0], q.shape[1], q.shape[2], q.shape[3]);
    let n = kv.shape[1];
    assert(q.shape =~= shape4(b, s, h, d));
    let t = choose|t: AttnSteps| attn_steps(q, kv, sink, scale, mask, t, o);
    lemma_weight_steps(q, kv, sink, scale, mask, t, a, i, c);
    lemma_mixed(t.weights, kv, t.mixed, b, s, h, n, d, a, i, c);
    lemma_heads(t.mixed, b, h, s, d, a, c, i);
    let z = row_of(t.mixed, a, i, c);
    assert(z == query_of(t.mixed, a, c, i));
    let u = query_of(o, a, i, c);
    let p = (a * s + i) * h + c;
    lemma_place(a, i, c, b as int, s as int, h as int);
    lemma_rows4(o.shape, b, s, h, d);
    lemma_cube4(1, 1, 1, d);
    assert(1 * 1 * 1 * d == d) by (nonlinear_arith);
    assert(0 <= p * d && p * d + d <= o.data.len()) by (nonlinear_arith)
        requires
            0 <= p < b * s * h,
            o.data.len() == b * s * h * d,
            d >= 0,
    ;
    assert(u.data =~= z.data);
    assert(u.shape == z.shape);
    assert(attn_steps(
        query_of(q, a, i, c),
        piece(kv, 1, a),
        sink_of(sink, c),
        scale,
        mask_row(mask, a, i),
        steps_of(q, kv, t, a, i, c),
        u,
    ));
}

/// Attention keeps the shape of the queries.
pub proof fn lemma_attended_shape(q: V, kv: V, sink: V, scale: u64, mask: Option<V>, o: V)
    requires
        q.wf(),
        kv.wf(),
        q.shape.len() == 4,
        q.shape[0] > 0,
        q.shape[1] > 0,
        q.shape[2] > 0,
        kv.shape == shape3(q.shape[0], kv.shape[1], q.shape[3]),
        mask matches Some(m) ==> m.wf() && (m.shape == shape4(1, 1, q.shape[1], kv.shape[1])
            || m.shape == shape4(q.shape[0], 1, q.shape[1], kv.shape[1])),
        attn_gives(q, kv, sink, scale, mask, o),
    ensures
        o.wf(),
        o.shape == q.shape,
{
    let (b, s, h, d) = (q.shape[0], q.shape[1], q.shape[2], q.shape[3]);
    let t = choose|t: AttnSteps| attn_steps(q, kv, sink, scale, mask, t, o);
    lemma_weight_steps(q, kv, sink, scale, mask, t, 0, 0, 0);
    reveal(weight_steps);
    lemma_mixed(t.weights, kv, t.mixed, b, s, h, kv.shape[1], d, 0, 0, 0);
    lemma_heads(t.mixed, b, h, s, d, 0, 0, 0);
    assert(o.shape =~= q.shape);
    lemma_cube4(b, s, h, d);
    assert(b * h * s * d == b * s * h * d) by (nonlinear_arith);
}

/// Key `j` of sequence `a` is the same in both latents.
pub open spec fn same_key(x: V, y: V, a: int, j: int) -> bool {
    let (n, d) = (x.shape[1] as int, x.shape[2] as int);
    x.data.subrange((a * n + j) * d, (a * n + j) * d + d) == y.data.subrange(
        (a * n + j) * d,
        (a * n + j) * d + d,
    )
}

/// The score of query `i` of head `c` in sequence `a` for key `j`, before the mask.
pub open spec fn score_of(t: AttnSteps, a: int, i: int, c: int, j: int) -> u32 {
    row_of(t.scaled, a, i, c).data[j]
}

/// Weights of a query do not depend on the keys that its mask closes: what one latent gives is what
/// any other gives that has the same row of the mask and the same open keys. The scores of the closed
/// keys are neither positive infinity nor a NaN, which a mask cannot close.
pub proof fn law_weights_follow_the_open_keys(
    q: V,
    kv: V,
    t: AttnSteps,
    q2: V,
    kv2: V,
    t2: AttnSteps,
    sink: V,
    scale: u64,
    mask: V,
    mask2: V,
    a: int,
    i: int,
    c: int,
)
    requires
        q.wf(),
        q2.wf(),
        kv.wf(),
        kv2.wf(),
        mask.wf(),
        mask2.wf(),
        mask2.shape == mask.shape,
        mask_of(mask2, a, i) == mask_of(mask, a, i),
        q.shape.len() == 4,
        q2.shape == q.shape,
        kv.shape == shape3(q.shape[0], kv.shape[1], q.shape[3]),
        kv2.shape == kv.shape,
        mask.shape == shape4(1, 1, q.shape[1], kv.shape[1]) || mask.shape == shape4(
            q.shape[0],
            1,
            q.shape[1],
            kv.shape[1],
        ),
        weight_steps(q, kv, sink, scale, Some(mask), t),
        weight_steps(q2, kv2, sink, scale, Some(mask2), t2),
        0 <= a < q.shape[0],
        0 <= i < q.shape[1],
        0 <= c < q.shape[2],
        query_of(q, a, i, c) == query_of(q2, a, i, c),
        forall|j: int|
            0 <= j < kv.shape[1] && mask_of(mask, a, i).data[j] == NEG_INFINITY
                ==> absorbed(#[trigger] score_of(t, a, i, c, j)),
        forall|j: int|
            0 <= j < kv.shape[1] && mask_of(mask, a, i).data[j] == NEG_INFINITY
                ==> absorbed(#[trigger] score_of(t2, a, i, c, j)),
        forall|j: int|
            0 <= j < kv.shape[1] && mask_of(mask, a, i).data[j] != NEG_INFINITY
                ==> #[trigger] same_key(kv, kv2, a, j),
    ensures
        weights_give(
            query_of(q2, a, i, c),
            piece(kv2, 1, a),
            sink_of(sink, c),
            scale,
            Some(mask_of(mask, a, i)),
            row_of(t.weights, a, i, c),
        ),
{
    reveal(weight_steps);
    let (b, h, d) = (q.shape[0], q.shape[2], q.shape[3]);
    let n = kv.shape[1];
    let (ni, di) = (n as int, d as int);
    assert(q.shape =~= shape4(b, q.shape[1], h, d));
    assert(kv.shape[2] == d);
    lemma_weight_steps(q, kv, sink, scale, Some(mask), t, a, i, c);
    lemma_weight_steps(q2, kv2, sink, scale, Some(mask2), t2, a, i, c);
    let u = steps_of(q, kv, t, a, i, c);
    let u2 = steps_of(q2, kv2, t2, a, i, c);
    let m = mask_of(mask, a, i);
    let products = NdView {
        shape: u.products.shape,
        data: Seq::new(
            u.products.data.len(),
            |j: int|
                if m.data[j] == NEG_INFINITY {
                    u2.products.data[j]
                } else {
                    u.products.data[j]
                },
        ),
    };
    let scaled = NdView {
        shape: u.scaled.shape,
        data: Seq::new(
            u.scaled.data.len(),
            |j: int|
                if m.data[j] == NEG_INFINITY {
                    u2.scaled.data[j]
                } else {
                    u.scaled.data[j]
                },
        ),
    };
    let v = AttnSteps { heads: u2.heads, keys: u2.keys, products, scaled, ..u };
    let (own, own2) = (piece(kv, 1, a), piece(kv2, 1, a));
    lemma_latent(kv, b, n, d, a);
    lemma_latent(kv2, b, n, d, a);
    let (x1, x2) = (swapped(u.keys, 2), swapped(u2.keys, 2));
    assert(u.heads == u2.heads);
    assert(x1.shape =~= shape4(1, 1, d, n) && x2.shape =~= shape4(1, 1, d, n));
    lemma_heads(q, b, q.shape[1], h, d, a, i, c);
    lemma_cube4(1, 1, n, d);
    lemma_cube4(1, 1, 1, n);
    assert(1 * 1 * 1 * n == n) by (nonlinear_arith);
    assert(u.heads.shape.drop_last().push(n) =~= shape4(1, 1, 1, n));
    assert(u.products.data.len() == n && u2.products.data.len() == n);
    assert(multiplied(v.heads, x2, products)) by {
        assert forall|j: int| 0 <= j < products.data.len() implies if d == 0 {
            #[trigger] products.data[j] == ZERO
        } else {
            crate::kernel::dot_gives(
                left_row(v.heads.data, di, ni, j),
                right_column(x2.data, 1, di, ni, j),
                products.data[j],
            )
        } by {
            if m.data[j] == NEG_INFINITY {
                assert(products.data[j] == u2.products.data[j]);
            } else {
                assert(products.data[j] == u.products.data[j]);
                assert(same_key(kv, kv2, a, j));
                lemma_flat(0, j, 1, ni);
                assert(0 * ni + j == j);
                let (r1, r2) = (
                    right_column(x1.data, 1, di, ni, j),
                    right_column(x2.data, 1, di, ni, j),
                );
                assert forall|x: int| 0 <= x < di implies r1[x] == #[trigger] r2[x] by {
                    lemma_keys(kv, b, h, n, d, a, c, j, 0);
                    lemma_keys(kv, b, h, n, d, a, c, j, di - 1);
                    lemma_keys(kv2, b, h, n, d, a, c, j, di - 1);
                    lemma_keys(own, 1, 1, n, d, 0, 0, j, x);
                    lemma_keys(own2, 1, 1, n, d, 0, 0, j, x);
                    lemma_across(u.keys, 1, 1, n, d, 0, j, x);
                    lemma_across(u2.keys, 1, 1, n, d, 0, j, x);
                    assert((j / ni) / 1 == 0 && j % ni == j);
                    assert((0 * 1 + 0) * ni + j == j);
                    assert((0 * ni + j) * di + x == j * di + x);
                    assert((0 * di + x) * ni + j == x * ni + j);
                    let from = (a * n + j) * d;
                    assert(kv.data.subrange(from, from + d)[x] == kv2.data.subrange(
                        from,
                        from + d,
                    )[x]);
                    assert(own.data[j * d + x] == kv.data[from + x]);
                    assert(own2.data[j * d + x] == kv2.data[from + x]);
                }
                assert(r1 =~= r2);
            }
        }
    }
    assert(mapped(Unary::Affine(scale, DOUBLE_ZERO), products, scaled));
    assert(combined(Binary::Add, scaled, m, u.scores)) by {
        crate::shape::lemma_broadcast_self(shape4(1, 1, 1, n));
        assert forall|j: int| 0 <= j < n implies agrees(
            #[trigger] u.scores.data[j],
            binary(Binary::Add, scaled.data[j], m.data[j]),
        ) by {
            lemma_source_self(shape4(1, 1, 1, n), j);
            assert(score_of(t, a, i, c, j) == u.scaled.data[j]);
            assert(score_of(t2, a, i, c, j) == u2.scaled.data[j]);
            assert(agrees(
                u.scores.data[j],
                binary(Binary::Add, u.scaled.data[j], m.data[j]),
            ));
            assert(agrees(
                u2.scores.data[j],
                binary(Binary::Add, u2.scaled.data[j], m.data[j]),
            ));
        }
        lemma_combined_rows(Binary::Add, scaled, m, u.scores, n);
    }
    assert(weight_steps(
        query_of(q2, a, i, c),
        own2,
        sink_of(sink, c),
        scale,
        Some(m),
        v,
    ));
}

/// The causal mask closes the keys after a query, and no others. Queries stand at the last of the
/// keys.
pub proof fn law_causal_row(s: usize, n: usize, a: int, i: int, j: int)
    requires
        fits(shape4(1, 1, s, n)),
        0 <= i < s,
        0 <= j < n,
    ensures
        mask_of(causal_mask_of(s, n), a, i).data[j] == (if j > i + (n - s) {
            NEG_INFINITY
        } else {
            ZERO
        }),
{
    let m = causal_mask_of(s, n);
    lemma_rows4(m.shape, 1, 1, s, n);
    lemma_cube4(1, 1, s, n);
    assert(1 * 1 * s * n == s * n && 1 * 1 * s == s) by (nonlinear_arith);
    assert(m.wf());
    assert(0 * s + i == i);
    lemma_piece(m, 3, i);
    lemma_flat(i, j, s as int, n as int);
}

/// The mask of an index set opens the listed keys of a query, and no others.
pub proof fn law_listed_row(b: usize, s: usize, n: usize, idxs: IndexView, a: int, i: int, j: int)
    requires
        fits(shape4(b, 1, s, n)),
        0 <= a < b,
        0 <= i < s,
        0 <= j < n,
    ensures
        mask_of(sparse_mask_of(b, s, n, idxs), a, i).data[j] == (if listed(idxs, a * s + i, j) {
            ZERO
        } else {
            NEG_INFINITY
        }),
{
    let m = sparse_mask_of(b, s, n, idxs);
    lemma_rows4(m.shape, b, 1, s, n);
    lemma_cube4(b, 1, s, n);
    assert(b * 1 * s * n == b * s * n && b * 1 * s == b * s) by (nonlinear_arith);
    assert(m.wf());
    let p = a * s + i;
    lemma_flat(a, i, b as int, s as int);
    lemma_piece(m, 3, p);
    lemma_flat(p, j, b * s, n as int);
}

/// Dense attention is causal in its weights: the weights of a query are those that any other input
/// gives with the same query and the same keys up to it, whatever follows, as long as no score of a
/// key that follows is positive infinity or a NaN.
pub proof fn law_weights_are_causal(
    q: V,
    kv: V,
    t: AttnSteps,
    q2: V,
    kv2: V,
    t2: AttnSteps,
    sink: V,
    scale: u64,
    a: int,
    i: int,
    c: int,
)
    requires
        q.wf(),
        q2.wf(),
        kv.wf(),
        kv2.wf(),
        q.shape.len() == 4,
        q2.shape == q.shape,
        kv.shape == shape3(q.shape[0], kv.shape[1], q.shape[3]),
        kv2.shape == kv.shape,
        q.shape[1] <= kv.shape[1],
        fits(shape4(1, 1, q.shape[1], kv.shape[1])),
        weight_steps(q, kv, sink, scale, Some(causal_mask_of(q.shape[1], kv.shape[1])), t),
        weight_steps(q2, kv2, sink, scale, Some(causal_mask_of(q.shape[1], kv.shape[1])), t2),
        0 <= a < q.shape[0],
        0 <= i < q.shape[1],
        0 <= c < q.shape[2],
        query_of(q, a, i, c) == query_of(q2, a, i, c),
        forall|j: int|
            0 <= j <= i + (kv.shape[1] - q.shape[1]) ==> #[trigger] same_key(kv, kv2, a, j),
        forall|j: int|
            i + (kv.shape[1] - q.shape[1]) < j < kv.shape[1] ==> absorbed(
                #[trigger] score_of(t, a, i, c, j),
            ),
        forall|j: int|
            i + (kv.shape[1] - q.shape[1]) < j < kv.shape[1] ==> absorbed(
                #[trigger] score_of(t2, a, i, c, j),
            ),
    ensures
        weights_give(
            query_of(q2, a, i, c),
            piece(kv2, 1, a),
            sink_of(sink, c),
            scale,
            Some(mask_of(causal_mask_of(q.shape[1], kv.shape[1]), a, i)),
            row_of(t.weights, a, i, c),
        ),
{
    let (s, n) = (q.shape[1], kv.shape[1]);
    let mask = causal_mask_of(s, n);
    lemma_cube4(1, 1, s, n);
    assert(1 * 1 * s * n == s * n) by (nonlinear_arith);
    assert forall|j: int| 0 <= j < n implies (#[trigger] mask_of(mask, a, i).data[j] == NEG_INFINITY
        <==> j > i + (n - s)) by {
        law_causal_row(s, n, a, i, j);
        assert(NEG_INFINITY != ZERO);
    }
    law_weights_follow_the_open_keys(q, kv, t, q2, kv2, t2, sink, scale, mask, mask, a, i, c);
}

} // verus!
