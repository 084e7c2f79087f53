//! Shapes: element counts, the split of a shape at an axis, and broadcasting.

use vstd::prelude::*;

verus! {

/// The number of elements of a tensor of shape `s`.
pub open spec fn product(s: Seq<usize>) -> nat
    decreases s.len(),
{
    if s.len() == 0 {
        1
    } else {
        product(s.drop_last()) * (s.last() as nat)
    }
}

/// The element count with every empty axis counted as one: an upper bound of every partial count.
pub open spec fn span(s: Seq<usize>) -> nat
    decreases s.len(),
{
    if s.len() == 0 {
        1
    } else {
        span(s.drop_last()) * (if s.last() == 0 { 1 } else { s.last() as nat })
    }
}

/// A shape whose strides and element count fit in `usize`.
pub open spec fn fits(s: Seq<usize>) -> bool {
    span(s) <= usize::MAX
}

/// Number of positions before `axis`.
pub open spec fn outer(s: Seq<usize>, axis: int) -> nat {
    product(s.take(axis))
}

/// Number of positions after `axis`: the stride of `axis`.
pub open spec fn inner(s: Seq<usize>, axis: int) -> nat {
    product(s.skip(axis + 1))
}

/// A two-axis shape.
pub open spec fn shape2(a: usize, b: usize) -> Seq<usize> {
    seq![a, b]
}

/// A three-axis shape.
pub open spec fn shape3(a: usize, b: usize, c: usize) -> Seq<usize> {
    seq![a, b, c]
}

/// A four-axis shape.
pub open spec fn shape4(a: usize, b: usize, c: usize, d: usize) -> Seq<usize> {
    seq![a, b, c, d]
}

/// A five-axis shape.
pub open spec fn shape5(a: usize, b: usize, c: usize, d: usize, e: usize) -> Seq<usize> {
    seq![a, b, c, d, e]
}

pub proof fn lemma_span_positive(s: Seq<usize>)
    ensures
        span(s) >= 1,
    decreases s.len(),
{
    if s.len() > 0 {
        lemma_span_positive(s.drop_last());
        let a: nat = span(s.drop_last());
        let b: nat = if s.last() == 0 { 1 } else { s.last() as nat };
        assert(a * b >= 1) by (nonlinear_arith)
            requires
                a >= 1,
                b >= 1,
        ;
    }
}

pub proof fn lemma_product_le_span(s: Seq<usize>)
    ensures
        product(s) <= span(s),
    decreases s.len(),
{
    if s.len() > 0 {
        lemma_product_le_span(s.drop_last());
        let a: nat = product(s.drop_last());
        let b: nat = span(s.drop_last());
        let c: nat = s.last() as nat;
        let d: nat = if s.last() == 0 { 1 } else { s.last() as nat };
        assert(a * c <= b * d) by (nonlinear_arith)
            requires
                a <= b,
                c <= d,
        ;
    }
}

pub proof fn lemma_product_concat(a: Seq<usize>, b: Seq<usize>)
    ensures
        product(a + b) == product(a) * product(b),
    decreases b.len(),
{
    if b.len() == 0 {
        assert(a + b =~= a);
        assert(product(a) * 1 == product(a)) by (nonlinear_arith);
    } else {
        assert((a + b).drop_last() =~= a + b.drop_last());
        lemma_product_concat(a, b.drop_last());
        let x: nat = product(a);
        let y: nat = product(b.drop_last());
        let z: nat = b.last() as nat;
        assert((x * y) * z == x * (y * z)) by (nonlinear_arith);
    }
}

pub proof fn lemma_span_concat(a: Seq<usize>, b: Seq<usize>)
    ensures
        span(a + b) == span(a) * span(b),
    decreases b.len(),
{
    if b.len() == 0 {
        assert(a + b =~= a);
        assert(span(a) * 1 == span(a)) by (nonlinear_arith);
    } else {
        assert((a + b).drop_last() =~= a + b.drop_last());
        lemma_span_concat(a, b.drop_last());
        let x: nat = span(a);
        let y: nat = span(b.drop_last());
        let z: nat = if b.last() == 0 { 1 } else { b.last() as nat };
        assert((x * y) * z == x * (y * z)) by (nonlinear_arith);
    }
}

/// The counts before, at and after an axis, and their bounds.
pub proof fn lemma_axis(s: Seq<usize>, axis: int)
    requires
        0 <= axis < s.len(),
    ensures
        product(s) == outer(s, axis) * (s[axis] as nat) * inner(s, axis),
        outer(s, axis) <= span(s),
        inner(s, axis) <= span(s),
        outer(s, axis) * inner(s, axis) <= span(s),
        (s[axis] as nat) * inner(s, axis) <= span(s),
        span(s) == span(s.take(axis)) * (if s[axis] == 0 { 1 } else { s[axis] as nat }) * span(
            s.skip(axis + 1),
        ),
{
    let a = s.take(axis);
    let m = seq![s[axis]];
    let b = s.skip(axis + 1);
    assert(s =~= (a + m) + b);
    lemma_product_concat(a + m, b);
    lemma_product_concat(a, m);
    lemma_span_concat(a + m, b);
    lemma_span_concat(a, m);
    assert(m.drop_last() =~= Seq::<usize>::empty());
    assert(product(m) == s[axis] as nat) by {
        reveal_with_fuel(product, 2);
    }
    let d: nat = if s[axis] == 0 { 1 } else { s[axis] as nat };
    assert(span(m) == d) by {
        reveal_with_fuel(span, 2);
    }
    lemma_product_le_span(a);
    lemma_product_le_span(b);
    lemma_span_positive(a);
    lemma_span_positive(b);
    let pa: nat = product(a);
    let pb: nat = product(b);
    let sa: nat = span(a);
    let sb: nat = span(b);
    let c: nat = s[axis] as nat;
    assert(pa <= sa * d * sb) by (nonlinear_arith)
        requires
            pa <= sa,
            d >= 1,
            sb >= 1,
    ;
    assert(pb <= sa * d * sb) by (nonlinear_arith)
        requires
            pb <= sb,
            d >= 1,
            sa >= 1,
    ;
    assert(pa * pb <= sa * d * sb) by (nonlinear_arith)
        requires
            pa <= sa,
            pb <= sb,
            d >= 1,
            sa >= 1,
            sb >= 1,
    ;
    assert(c * pb <= sa * d * sb) by (nonlinear_arith)
        requires
            pb <= sb,
            c <= d,
            sa >= 1,
            sb >= 1,
    ;
}

/// Replacing one axis by a smaller one keeps a shape in memory.
pub proof fn lemma_span_update(s: Seq<usize>, axis: int, d: usize)
    requires
        0 <= axis < s.len(),
    ensures
        span(s.update(axis, d)) == span(s.take(axis)) * (if d == 0 { 1 } else { d as nat }) * span(
            s.skip(axis + 1),
        ),
        d <= s[axis] || d <= 1 ==> span(s.update(axis, d)) <= span(s),
        outer(s.update(axis, d), axis) == outer(s, axis),
        inner(s.update(axis, d), axis) == inner(s, axis),
{
    let t = s.update(axis, d);
    lemma_axis(s, axis);
    lemma_axis(t, axis);
    assert(t.take(axis) =~= s.take(axis));
    assert(t.skip(axis + 1) =~= s.skip(axis + 1));
    let sa: nat = span(s.take(axis));
    let sb: nat = span(s.skip(axis + 1));
    let x: nat = if s[axis] == 0 { 1 } else { s[axis] as nat };
    let y: nat = if d == 0 { 1 } else { d as nat };
    if d <= s[axis] || d <= 1 {
        assert(sa * y * sb <= sa * x * sb) by (nonlinear_arith)
            requires
                y <= x,
        ;
    }
}


/// The common shape of two broadcast operands: axes are aligned from the right, and an axis of
/// size one (or a missing axis) takes the size of the other.
pub open spec fn broadcast_shape(a: Seq<usize>, b: Seq<usize>) -> Option<Seq<usize>>
    decreases a.len(),
{
    if a.len() == 0 {
        Some(b)
    } else if b.len() == 0 {
        Some(a)
    } else {
        match broadcast_shape(a.drop_last(), b.drop_last()) {
            None => None,
            Some(h) => if a.last() == b.last() || b.last() == 1 {
                Some(h.push(a.last()))
            } else if a.last() == 1 {
                Some(h.push(b.last()))
            } else {
                None
            },
        }
    }
}

/// Whether a tensor of shape `from` can be repeated to shape `to`.
pub open spec fn expands(from: Seq<usize>, to: Seq<usize>) -> bool
    decreases from.len(),
{
    from.len() == 0 || (to.len() > 0 && (from.last() == to.last() || from.last() == 1) && expands(
        from.drop_last(),
        to.drop_last(),
    ))
}

/// Where element `i` of shape `to` comes from in a tensor of shape `from` that is repeated to it.
pub open spec fn source_index(from: Seq<usize>, to: Seq<usize>, i: int) -> int
    decreases from.len(),
{
    if from.len() == 0 {
        0
    } else {
        source_index(from.drop_last(), to.drop_last(), i / (to.last() as int)) * from.last() + (if from.last()
            == to.last() {
            i % (to.last() as int)
        } else {
            0
        })
    }
}

pub proof fn lemma_broadcast_expands(a: Seq<usize>, b: Seq<usize>)
    requires
        broadcast_shape(a, b) is Some,
    ensures
        expands(a, broadcast_shape(a, b).unwrap()),
        expands(b, broadcast_shape(a, b).unwrap()),
    decreases a.len(),
{
    if a.len() == 0 {
        lemma_expands_self(b);
    } else if b.len() == 0 {
        lemma_expands_self(a);
    } else {
        lemma_broadcast_expands(a.drop_last(), b.drop_last());
        let h = broadcast_shape(a.drop_last(), b.drop_last()).unwrap();
        let r = broadcast_shape(a, b).unwrap();
        assert(r.drop_last() =~= h);
    }
}

pub proof fn lemma_expands_self(a: Seq<usize>)
    ensures
        expands(a, a),
    decreases a.len(),
{
    if a.len() > 0 {
        lemma_expands_self(a.drop_last());
    }
}

pub proof fn lemma_broadcast_self(a: Seq<usize>)
    ensures
        broadcast_shape(a, a) == Some(a),
    decreases a.len(),
{
    if a.len() > 0 {
        lemma_broadcast_self(a.drop_last());
        assert(a.drop_last().push(a.last()) =~= a);
    }
}

/// A shape that can be repeated to another has the other as common shape with it.
pub proof fn lemma_broadcast_into(small: Seq<usize>, big: Seq<usize>)
    requires
        expands(small, big),
    ensures
        broadcast_shape(small, big) == Some(big),
        broadcast_shape(big, small) == Some(big),
    decreases small.len(),
{
    if small.len() > 0 {
        lemma_broadcast_into(small.drop_last(), big.drop_last());
        assert(big.drop_last().push(big.last()) =~= big);
    }
}

/// Shapes of one length expand axis by axis.
pub proof fn lemma_expands_axes(small: Seq<usize>, big: Seq<usize>)
    requires
        small.len() == big.len(),
        forall|i: int|
            0 <= i < small.len() ==> #[trigger] small[i] == big[i] || small[i] == 1,
    ensures
        expands(small, big),
    decreases small.len(),
{
    if small.len() > 0 {
        let a = small.drop_last();
        let b = big.drop_last();
        assert forall|i: int| 0 <= i < a.len() implies #[trigger] a[i] == b[i] || a[i] == 1 by {
            assert(a[i] == small[i] && b[i] == big[i]);
        }
        lemma_expands_axes(a, b);
    }
}

/// Repetition does not lose elements, unless it repeats to nothing.
pub proof fn lemma_expands_product(small: Seq<usize>, big: Seq<usize>)
    requires
        expands(small, big),
        product(big) > 0,
    ensures
        product(small) <= product(big),
    decreases small.len(),
{
    if small.len() > 0 {
        let a: nat = product(small.drop_last());
        let b: nat = product(big.drop_last());
        let c: nat = small.last() as nat;
        let d: nat = big.last() as nat;
        assert(b > 0 && d > 0) by (nonlinear_arith)
            requires
                b * d > 0,
        ;
        lemma_expands_product(small.drop_last(), big.drop_last());
        assert(a * c <= b * d) by (nonlinear_arith)
            requires
                a <= b,
                c == d || c == 1,
                d >= 1,
        ;
    }
}

/// Tensors that are not empty have a common shape that is not.
pub proof fn lemma_broadcast_positive(a: Seq<usize>, b: Seq<usize>)
    requires
        broadcast_shape(a, b) is Some,
        product(a) > 0,
        product(b) > 0,
    ensures
        product(broadcast_shape(a, b).unwrap()) > 0,
    decreases a.len(),
{
    if a.len() > 0 && b.len() > 0 {
        let x: nat = product(a.drop_last());
        let y: nat = product(b.drop_last());
        let c: nat = a.last() as nat;
        let d: nat = b.last() as nat;
        assert(x > 0 && c > 0) by (nonlinear_arith)
            requires
                x * c > 0,
        ;
        assert(y > 0 && d > 0) by (nonlinear_arith)
            requires
                y * d > 0,
        ;
        lemma_broadcast_positive(a.drop_last(), b.drop_last());
        let h = broadcast_shape(a.drop_last(), b.drop_last()).unwrap();
        let z = broadcast_shape(a, b).unwrap();
        assert(z.drop_last() =~= h);
        let p: nat = product(h);
        let q: nat = z.last() as nat;
        assert(p * q > 0) by (nonlinear_arith)
            requires
                p > 0,
                q > 0,
        ;
    }
}

/// A common shape has at least as many axes as each operand.
pub proof fn lemma_broadcast_len(a: Seq<usize>, b: Seq<usize>)
    requires
        broadcast_shape(a, b) is Some,
    ensures
        broadcast_shape(a, b).unwrap().len() >= a.len(),
        broadcast_shape(a, b).unwrap().len() >= b.len(),
    decreases a.len(),
{
    if a.len() > 0 && b.len() > 0 {
        lemma_broadcast_len(a.drop_last(), b.drop_last());
    }
}

/// A shape and the same shape with one axis cut down to one have the first as common shape.
pub proof fn lemma_broadcast_keepdim(a: Seq<usize>, axis: int)
    requires
        0 <= axis < a.len(),
    ensures
        broadcast_shape(a, a.update(axis, 1)) == Some(a),
    decreases a.len(),
{
    let b = a.update(axis, 1);
    if axis == a.len() - 1 {
        assert(b.drop_last() =~= a.drop_last());
        lemma_broadcast_self(a.drop_last());
    } else {
        assert(b.drop_last() =~= a.drop_last().update(axis, 1));
        lemma_broadcast_keepdim(a.drop_last(), axis);
    }
    assert(a.drop_last().push(a.last()) =~= a);
}

/// A source index stays inside the source.
pub proof fn lemma_source_index(from: Seq<usize>, to: Seq<usize>, i: int)
    requires
        expands(from, to),
        0 <= i < product(to),
    ensures
        0 <= source_index(from, to, i) < product(from),
    decreases from.len(),
{
    if from.len() > 0 {
        let d = to.last() as int;
        let hi = product(to.drop_last()) as int;
        assert(d > 0 && 0 <= i / d < hi && 0 <= i % d < d) by {
            lemma_divide(i, hi, d);
        }
        lemma_source_index(from.drop_last(), to.drop_last(), i / d);
        let q = source_index(from.drop_last(), to.drop_last(), i / d);
        let f = product(from.drop_last()) as int;
        let e = from.last() as int;
        let r = if from.last() == to.last() { i % d } else { 0 };
        assert(0 <= q * e + r < f * e) by (nonlinear_arith)
            requires
                0 <= q < f,
                0 <= r < e,
        ;
    }
}

/// The element count of a `[rows, cols]` shape.
pub proof fn lemma_grid(rows: usize, cols: usize)
    ensures
        product(shape2(rows, cols)) == rows * cols,
        rows * cols <= usize::MAX ==> fits(shape2(rows, cols)),
        fits(shape2(rows, cols)) ==> rows * cols <= usize::MAX,
{
    let s = shape2(rows, cols);
    assert(s.drop_last() =~= seq![rows]);
    assert(s.drop_last().drop_last() =~= Seq::<usize>::empty());
    reveal_with_fuel(product, 3);
    reveal_with_fuel(span, 3);
    lemma_product_le_span(s);
    let a: nat = if rows == 0 { 1 } else { rows as nat };
    let b: nat = if cols == 0 { 1 } else { cols as nat };
    assert(1 * a == a && 1 * (rows as nat) == rows as nat);
    if rows == 0 || cols == 0 {
        assert(a * b <= usize::MAX) by (nonlinear_arith)
            requires
                a == 1 || b == 1,
                a <= usize::MAX,
                b <= usize::MAX,
        ;
    }
}

/// The element count of a three-axis shape.
pub proof fn lemma_cube(a: usize, b: usize, c: usize)
    ensures
        product(shape3(a, b, c)) == a * b * c,
{
    let s = shape3(a, b, c);
    assert(s.drop_last() =~= shape2(a, b));
    lemma_grid(a, b);
}

/// The element count of a four-axis shape.
pub proof fn lemma_cube4(a: usize, b: usize, c: usize, d: usize)
    ensures
        product(shape4(a, b, c, d)) == a * b * c * d,
{
    let s = shape4(a, b, c, d);
    assert(s.drop_last() =~= shape3(a, b, c));
    lemma_cube(a, b, c);
}

/// A shape with two neighbouring axes merged into one.
pub open spec fn merged(s: Seq<usize>, axis: int) -> Seq<usize> {
    s.take(axis).push((s[axis] * s[axis + 1]) as usize) + s.skip(axis + 2)
}

/// Merging two axes keeps the element count and the bound in memory.
pub proof fn lemma_merged(s: Seq<usize>, axis: int)
    requires
        0 <= axis,
        axis + 1 < s.len(),
        fits(s),
    ensures
        s[axis] * s[axis + 1] <= usize::MAX,
        fits(merged(s, axis)),
        product(merged(s, axis)) == product(s),
{
    let a = s.take(axis);
    let m = shape2(s[axis], s[axis + 1]);
    let b = s.skip(axis + 2);
    assert(s =~= (a + m) + b);
    lemma_product_concat(a + m, b);
    lemma_product_concat(a, m);
    lemma_span_concat(a + m, b);
    lemma_span_concat(a, m);
    lemma_span_positive(a);
    lemma_span_positive(b);
    lemma_grid(s[axis], s[axis + 1]);
    lemma_product_le_span(m);
    let x: nat = span(a);
    let y: nat = span(m);
    let z: nat = span(b);
    assert(y <= x * y * z) by (nonlinear_arith)
        requires
            x >= 1,
            z >= 1,
    ;
    let k = (s[axis] * s[axis + 1]) as usize;
    assert(k == product(m));
    let c = a.push(k);
    assert(c.drop_last() =~= a);
    assert(merged(s, axis) =~= c + b);
    lemma_product_concat(c, b);
    lemma_span_concat(c, b);
    let d: nat = if k == 0 {
        1
    } else {
        k as nat
    };
    lemma_span_positive(m);
    assert((x * d) * z <= (x * y) * z) by (nonlinear_arith)
        requires
            d <= y,
    ;
}

/// Splitting a flat index of an `a * b` grid into its row and its column.
pub proof fn lemma_divide(i: int, a: int, b: int)
    requires
        0 <= i < a * b,
        b >= 0,
    ensures
        b > 0,
        0 <= i / b < a,
        0 <= i % b < b,
        i == (i / b) * b + i % b,
{
    assert(b > 0) by (nonlinear_arith)
        requires
            0 <= i < a * b,
            b >= 0,
    ;
    assert(0 <= i / b < a && i == (i / b) * b + i % b) by (nonlinear_arith)
        requires
            0 <= i < a * b,
            b > 0,
    ;
}

/// Splitting a flat index of an `a * b * c` grid.
pub proof fn lemma_divide3(i: int, a: int, b: int, c: int)
    requires
        0 <= i < a * b * c,
        b >= 0,
        c >= 0,
    ensures
        b > 0,
        c > 0,
        0 <= i / c < a * b,
        0 <= i % c < c,
        0 <= (i / c) / b < a,
        0 <= (i / c) % b < b,
        i == ((i / c) / b * b + (i / c) % b) * c + i % c,
{
    lemma_divide(i, a * b, c);
    lemma_divide(i / c, a, b);
}

/// A row and a column inside an `a * b` grid give a flat index inside it.
pub proof fn lemma_flat(q: int, r: int, a: int, b: int)
    requires
        0 <= q < a,
        0 <= r < b,
    ensures
        0 <= q * b + r < a * b,
        (q * b + r) / b == q,
        (q * b + r) % b == r,
{
    assert(0 <= q * b + r < a * b) by (nonlinear_arith)
        requires
            0 <= q < a,
            0 <= r < b,
    ;
    vstd::arithmetic::div_mod::lemma_fundamental_div_mod_converse(q * b + r, b, q, r);
}

/// The same with three axes.
pub proof fn lemma_flat3(o: int, k: int, t: int, a: int, b: int, c: int)
    requires
        0 <= o < a,
        0 <= k < b,
        0 <= t < c,
    ensures
        0 <= (o * b + k) * c + t < a * b * c,
        0 <= o * b + k < a * b,
{
    lemma_flat(o, k, a, b);
    lemma_flat(o * b + k, t, a * b, c);
}

/// A two-axis shape.
pub fn axes2(a: usize, b: usize) -> (r: Vec<usize>)
    ensures
        r@ == shape2(a, b),
{
    let r = vec![a, b];
    assert(r@ =~= shape2(a, b));
    r
}

/// A three-axis shape.
pub fn axes3(a: usize, b: usize, c: usize) -> (r: Vec<usize>)
    ensures
        r@ == shape3(a, b, c),
{
    let r = vec![a, b, c];
    assert(r@ =~= shape3(a, b, c));
    r
}

/// A four-axis shape.
pub fn axes4(a: usize, b: usize, c: usize, d: usize) -> (r: Vec<usize>)
    ensures
        r@ == shape4(a, b, c, d),
{
    let r = vec![a, b, c, d];
    assert(r@ =~= shape4(a, b, c, d));
    r
}

/// A five-axis shape.
pub fn axes5(a: usize, b: usize, c: usize, d: usize, e: usize) -> (r: Vec<usize>)
    ensures
        r@ == shape5(a, b, c, d, e),
{
    let r = vec![a, b, c, d, e];
    assert(r@ =~= shape5(a, b, c, d, e));
    r
}

/// Multiplies the sizes of the axes `from..to`.
pub fn count(shape: &Vec<usize>, from: usize, to: usize) -> (r: usize)
    requires
        fits(shape@),
        from <= to <= shape@.len(),
    ensures
        r == product(shape@.subrange(from as int, to as int)),
{
    let mut acc: usize = 1;
    let mut i: usize = from;
    while i < to
        invariant
            fits(shape@),
            from <= i <= to <= shape@.len(),
            acc == product(shape@.subrange(from as int, i as int)),
        decreases to - i,
    {
        let ghost next = shape@.subrange(from as int, i + 1);
        proof {
            assert(next.drop_last() =~= shape@.subrange(from as int, i as int));
            let a = shape@.take(from as int);
            let b = shape@.skip(i + 1);
            assert(shape@ =~= (a + next) + b);
            lemma_span_concat(a + next, b);
            lemma_span_concat(a, next);
            lemma_span_positive(a);
            lemma_span_positive(b);
            lemma_product_le_span(next);
            let x: nat = span(a);
            let y: nat = span(next);
            let z: nat = span(b);
            assert(y <= x * y * z) by (nonlinear_arith)
                requires
                    x >= 1,
                    z >= 1,
            ;
        }
        acc = acc * shape[i];
        i = i + 1;
    }
    acc
}

/// Whether the shape's element count and strides fit in `usize`.
pub fn check_fits(shape: &Vec<usize>) -> (r: bool)
    ensures
        r == fits(shape@),
{
    let mut acc: usize = 1;
    let mut i: usize = 0;
    while i < shape.len()
        invariant
            i <= shape@.len(),
            acc == span(shape@.take(i as int)),
        decreases shape@.len() - i,
    {
        let ghost next = shape@.take(i + 1);
        proof {
            assert(next.drop_last() =~= shape@.take(i as int));
            assert(shape@ =~= next + shape@.skip(i + 1));
            lemma_span_concat(next, shape@.skip(i + 1));
            lemma_span_positive(shape@.skip(i + 1));
            let x: nat = span(next);
            let y: nat = span(shape@.skip(i + 1));
            assert(x <= x * y) by (nonlinear_arith)
                requires
                    y >= 1,
            ;
        }
        let d: usize = if shape[i] == 0 {
            1
        } else {
            shape[i]
        };
        match acc.checked_mul(d) {
            Some(v) => {
                acc = v;
            },
            None => {
                return false;
            },
        }
        i = i + 1;
    }
    assert(shape@.take(i as int) =~= shape@);
    true
}

/// Whether two shapes are equal.
pub fn same_shape(a: &Vec<usize>, b: &Vec<usize>) -> (r: bool)
    ensures
        r == (a@ == b@),
{
    if a.len() != b.len() {
        return false;
    }
    let mut i: usize = 0;
    while i < a.len()
        invariant
            i <= a@.len() == b@.len(),
            forall|j: int| 0 <= j < i ==> a@[j] == b@[j],
        decreases a@.len() - i,
    {
        if a[i] != b[i] {
            return false;
        }
        i = i + 1;
    }
    assert(a@ =~= b@);
    true
}

fn common_prefix(a: &Vec<usize>, b: &Vec<usize>, na: usize, nb: usize) -> (r: Option<Vec<usize>>)
    requires
        na <= a@.len(),
        nb <= b@.len(),
    ensures
        r is Some <==> broadcast_shape(a@.take(na as int), b@.take(nb as int)) is Some,
        r is Some ==> r.unwrap()@ == broadcast_shape(
            a@.take(na as int),
            b@.take(nb as int),
        ).unwrap(),
    decreases na,
{
    let ghost x = a@.take(na as int);
    let ghost y = b@.take(nb as int);
    if na == 0 {
        return Some(prefix(b, nb));
    }
    if nb == 0 {
        return Some(prefix(a, na));
    }
    proof {
        assert(x.drop_last() =~= a@.take(na - 1));
        assert(y.drop_last() =~= b@.take(nb - 1));
    }
    let l: usize = a[na - 1];
    let m: usize = b[nb - 1];
    match common_prefix(a, b, na - 1, nb - 1) {
        None => None,
        Some(h) => {
            let mut h = h;
            if l == m || m == 1 {
                h.push(l);
                Some(h)
            } else if l == 1 {
                h.push(m);
                Some(h)
            } else {
                None
            }
        },
    }
}

/// The first `n` axes of a shape.
pub fn prefix(a: &Vec<usize>, n: usize) -> (r: Vec<usize>)
    requires
        n <= a@.len(),
    ensures
        r@ == a@.take(n as int),
{
    let mut r: Vec<usize> = Vec::new();
    let mut i: usize = 0;
    while i < n
        invariant
            i <= n <= a@.len(),
            r@ == a@.take(i as int),
        decreases n - i,
    {
        r.push(a[i]);
        i = i + 1;
        assert(a@.take(i as int) =~= a@.take(i - 1).push(a@[i - 1]));
    }
    r
}

/// The common shape of two broadcast operands, if they have one.
pub fn common_shape(a: &Vec<usize>, b: &Vec<usize>) -> (r: Option<Vec<usize>>)
    ensures
        r is Some <==> broadcast_shape(a@, b@) is Some,
        r is Some ==> r.unwrap()@ == broadcast_shape(a@, b@).unwrap(),
{
    assert(a@.take(a@.len() as int) =~= a@);
    assert(b@.take(b@.len() as int) =~= b@);
    common_prefix(a, b, a.len(), b.len())
}

/// Whether the first `nf` axes of `from` can be repeated to the first `nt` axes of `to`.
fn expands_prefix(from: &Vec<usize>, to: &Vec<usize>, nf: usize, nt: usize) -> (r: bool)
    requires
        nf <= from@.len(),
        nt <= to@.len(),
    ensures
        r == expands(from@.take(nf as int), to@.take(nt as int)),
    decreases nf,
{
    if nf == 0 {
        return true;
    }
    if nt == 0 {
        return false;
    }
    proof {
        assert(from@.take(nf as int).drop_last() =~= from@.take(nf - 1));
        assert(to@.take(nt as int).drop_last() =~= to@.take(nt - 1));
    }
    (from[nf - 1] == to[nt - 1] || from[nf - 1] == 1) && expands_prefix(from, to, nf - 1, nt - 1)
}

/// Whether a tensor of shape `from` can be repeated to shape `to`.
pub fn check_expands(from: &Vec<usize>, to: &Vec<usize>) -> (r: bool)
    ensures
        r == expands(from@, to@),
{
    assert(from@.take(from@.len() as int) =~= from@);
    assert(to@.take(to@.len() as int) =~= to@);
    expands_prefix(from, to, from.len(), to.len())
}

/// Where element `i` of the first `nt` axes of `to` comes from.
pub fn locate(from: &Vec<usize>, to: &Vec<usize>, nf: usize, nt: usize, i: usize) -> (r: usize)
    requires
        nf <= from@.len(),
        nt <= to@.len(),
        expands(from@.take(nf as int), to@.take(nt as int)),
        i < product(to@.take(nt as int)),
        product(from@.take(nf as int)) <= usize::MAX,
    ensures
        r == source_index(from@.take(nf as int), to@.take(nt as int), i as int),
        r < product(from@.take(nf as int)),
    decreases nf,
{
    let ghost f = from@.take(nf as int);
    let ghost t = to@.take(nt as int);
    proof {
        lemma_source_index(f, t, i as int);
    }
    if nf == 0 {
        return 0;
    }
    proof {
        assert(f.drop_last() =~= from@.take(nf - 1));
        assert(t.drop_last() =~= to@.take(nt - 1));
        lemma_divide(i as int, product(t.drop_last()) as int, t.last() as int);
        let x: nat = product(f.drop_last());
        let y: nat = f.last() as nat;
        lemma_source_index(f.drop_last(), t.drop_last(), i as int / t.last() as int);
        assert(product(f) >= 1);
        assert(x <= x * y) by (nonlinear_arith)
            requires
                x * y >= 1,
        ;
    }
    let d: usize = to[nt - 1];
    let e: usize = from[nf - 1];
    let hi: usize = locate(from, to, nf - 1, nt - 1, i / d);
    let lo: usize = if e == d {
        i % d
    } else {
        0
    };
    proof {
        assert(hi * e <= hi * e + lo);
        assert(hi * e >= 0) by (nonlinear_arith);
    }
    hi * e + lo
}

} // verus!
