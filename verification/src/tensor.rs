//! Dense row-major arrays and the operations that only move elements.
//!
//! A [`Tensor`] holds `f32` values by their IEEE bit patterns. Everything here is exact: reshaping,
//! slicing, joining, repeating and transposing pick elements and never compute on them.

use vstd::prelude::*;

use crate::bits::ZERO;
use crate::error::TensorError;
use crate::shape::{check_expands, check_fits, count, locate, same_shape};

#[allow(unused_imports)]
use crate::shape::{
    expands, fits, inner, lemma_axis, lemma_divide, lemma_divide3, lemma_flat, lemma_flat3,
    lemma_product_le_span, lemma_span_update, outer, product, shape2, shape3, shape4, source_index,
    span,
};

verus! {

/// The mathematical content of an array: its shape and its elements in row-major order.
pub struct NdView<T> {
    pub shape: Seq<usize>,
    pub data: Seq<T>,
}

impl<T> NdView<T> {
    /// The shape fits in memory and counts the elements.
    pub open spec fn wf(self) -> bool {
        fits(self.shape) && self.data.len() == product(self.shape)
    }

    /// The elements of the `n`-element slice along an axis of stride `inner` that belongs to
    /// position `i` of the array without that axis.
    pub open spec fn along(self, axis: int, i: int) -> Seq<T> {
        let n = self.shape[axis] as int;
        let step = inner(self.shape, axis) as int;
        Seq::new(n as nat, |k: int| self.data[((i / step) * n + k) * step + i % step])
    }

    /// Row `i` of length `n` in the row-major data.
    pub open spec fn row(self, n: int, i: int) -> Seq<T> {
        self.data.subrange(i * n, i * n + n)
    }
}

/// A dense row-major array.
pub struct NdArray<T> {
    shape: Vec<usize>,
    data: Vec<T>,
}

/// A tensor of `f32` values, each held by its bit pattern.
pub type Tensor = NdArray<u32>;

/// A tensor of key or expert indices (`-1` marks an empty slot).
pub type Indices = NdArray<i64>;

/// The content of a [`Tensor`].
pub type V = NdView<u32>;

/// The content of an [`Indices`].
pub type IndexView = NdView<i64>;

impl<T> View for NdArray<T> {
    type V = NdView<T>;

    closed spec fn view(&self) -> NdView<T> {
        NdView { shape: self.shape@, data: self.data@ }
    }
}

impl<T> NdArray<T> {
    #[verifier::type_invariant]
    spec fn inv(self) -> bool {
        fits(self.shape@) && self.data@.len() == product(self.shape@)
    }
}

// --- the results of the moving operations ---------------------------------------------------

pub open spec fn reshape_ok<T>(t: NdView<T>, shape: Seq<usize>) -> bool {
    fits(shape) && product(shape) == product(t.shape)
}

/// The same elements in another shape.
pub open spec fn reshaped<T>(t: NdView<T>, shape: Seq<usize>) -> NdView<T> {
    NdView { shape, data: t.data }
}

/// The same elements with a new axis of size one.
pub open spec fn unsqueezed<T>(t: NdView<T>, axis: int) -> NdView<T> {
    NdView { shape: t.shape.insert(axis, 1), data: t.data }
}

/// The same elements without one axis of size one.
pub open spec fn squeezed<T>(t: NdView<T>, axis: int) -> NdView<T> {
    NdView { shape: t.shape.remove(axis), data: t.data }
}

pub open spec fn narrow_ok(shape: Seq<usize>, axis: int, start: int, len: int) -> bool {
    0 <= axis < shape.len() && start + len <= shape[axis]
}

/// Positions `start .. start + len` of one axis.
pub open spec fn narrowed<T>(t: NdView<T>, axis: int, start: int, len: int) -> NdView<T> {
    let n = t.shape[axis] as int;
    let step = inner(t.shape, axis) as int;
    NdView {
        shape: t.shape.update(axis, len as usize),
        data: Seq::new(
            (outer(t.shape, axis) * len * step) as nat,
            |i: int|
                t.data[(((i / step) / len) * n + start + (i / step) % len) * step + i % step],
        ),
    }
}

pub open spec fn cat_ok(a: Seq<usize>, b: Seq<usize>, axis: int) -> bool {
    &&& a.len() == b.len()
    &&& 0 <= axis < a.len()
    &&& b == a.update(axis, b[axis])
    &&& a[axis] + b[axis] <= usize::MAX
    &&& fits(a.update(axis, (a[axis] + b[axis]) as usize))
}

/// Two arrays joined along one axis.
pub open spec fn joined<T>(a: NdView<T>, b: NdView<T>, axis: int) -> NdView<T> {
    let n = a.shape[axis] as int;
    let m = b.shape[axis] as int;
    let step = inner(a.shape, axis) as int;
    NdView {
        shape: a.shape.update(axis, (n + m) as usize),
        data: Seq::new(
            (outer(a.shape, axis) * (n + m) * step) as nat,
            |i: int|
                {
                    let k = (i / step) % (n + m);
                    let o = (i / step) / (n + m);
                    if k < n {
                        a.data[(o * n + k) * step + i % step]
                    } else {
                        b.data[(o * m + (k - n)) * step + i % step]
                    }
                },
        ),
    }
}

/// Repetition of an array to a larger shape.
pub open spec fn expanded<T>(t: NdView<T>, shape: Seq<usize>) -> NdView<T> {
    NdView {
        shape,
        data: Seq::new(product(shape), |i: int| t.data[source_index(t.shape, shape, i)]),
    }
}

/// The elements of an `[o, m, n, inner]` array read as `[o, n, m, inner]`.
pub open spec fn transposed<T>(data: Seq<T>, m: int, n: int, step: int) -> Seq<T> {
    Seq::new(
        data.len(),
        |i: int|
            {
                let q = i / step;
                data[(((q / m) / n * m + q % m) * n + (q / m) % n) * step + i % step]
            },
    )
}

/// An array with two neighbouring axes exchanged.
pub open spec fn swapped<T>(t: NdView<T>, axis: int) -> NdView<T> {
    NdView {
        shape: t.shape.update(axis, t.shape[axis + 1]).update(axis + 1, t.shape[axis]),
        data: transposed(
            t.data,
            t.shape[axis] as int,
            t.shape[axis + 1] as int,
            inner(t.shape, axis + 1) as int,
        ),
    }
}

/// The rows of a table that a list of row numbers names.
pub open spec fn rows_picked<T>(t: NdView<T>, rows: Seq<usize>) -> NdView<T> {
    let step = inner(t.shape, 0) as int;
    NdView {
        shape: t.shape.update(0, rows.len() as usize),
        data: Seq::new(
            (rows.len() * step) as nat,
            |i: int| t.data[rows[i / step] * step + i % step],
        ),
    }
}

/// Every selected row exists.
pub open spec fn rows_inside(shape: Seq<usize>, rows: Seq<usize>) -> bool {
    forall|k: int| 0 <= k < rows.len() ==> #[trigger] rows[k] < shape[0]
}

pub open spec fn pick_ok(shape: Seq<usize>, rows: Seq<usize>) -> bool {
    shape.len() > 0 && rows_inside(shape, rows) && fits(shape.update(0, rows.len() as usize))
}

/// The row number that names no row of a table but a row of zeros.
pub const BLANK_ROW: usize = 0xFFFF_FFFF;

/// The rows of a table that a list of row numbers names, and zeros for [`BLANK_ROW`].
pub open spec fn rows_looked_up(t: V, rows: Seq<usize>) -> V {
    let step = inner(t.shape, 0) as int;
    NdView {
        shape: t.shape.update(0, rows.len() as usize),
        data: Seq::new(
            (rows.len() * step) as nat,
            |i: int|
                if rows[i / step] == BLANK_ROW {
                    ZERO
                } else {
                    t.data[rows[i / step] * step + i % step]
                },
        ),
    }
}

/// Every row number names a row or zeros.
pub open spec fn rows_known(shape: Seq<usize>, rows: Seq<usize>) -> bool {
    forall|k: int| 0 <= k < rows.len() ==> (#[trigger] rows[k]) == BLANK_ROW || rows[k] < shape[0]
}

pub open spec fn look_up_ok(shape: Seq<usize>, rows: Seq<usize>) -> bool {
    shape.len() > 0 && rows_known(shape, rows) && fits(shape.update(0, rows.len() as usize))
}

impl<T: Copy> NdArray<T> {
    /// An array of the given shape, if the data counts its elements.
    pub fn new(shape: Vec<usize>, data: Vec<T>) -> (r: Result<NdArray<T>, TensorError>)
        ensures
            r is Ok <==> fits(shape@) && product(shape@) == data@.len(),
            r matches Ok(t) ==> t@.wf() && t@.shape == shape@ && t@.data == data@,
            r matches Err(e) ==> e == TensorError::Shape,
    {
        if !check_fits(&shape) {
            return Err(TensorError::Shape);
        }
        let n: usize = count(&shape, 0, shape.len());
        assert(shape@.subrange(0, shape@.len() as int) =~= shape@);
        if n != data.len() {
            return Err(TensorError::Shape);
        }
        Ok(NdArray { shape, data })
    }

    /// The sizes of the axes.
    pub fn dims(&self) -> (r: &Vec<usize>)
        ensures
            r@ == self@.shape,
            self@.wf(),
    {
        proof {
            use_type_invariant(self);
        }
        &self.shape
    }

    /// The elements in row-major order.
    pub fn data(&self) -> (r: &Vec<T>)
        ensures
            r@ == self@.data,
            self@.wf(),
    {
        proof {
            use_type_invariant(self);
        }
        &self.data
    }

    /// The number of axes.
    pub fn rank(&self) -> (r: usize)
        ensures
            r == self@.shape.len(),
            self@.wf(),
    {
        proof {
            use_type_invariant(self);
        }
        self.shape.len()
    }

    /// The same array again.
    pub fn duplicate(&self) -> (r: NdArray<T>)
        ensures
            r@ == self@,
            r@.wf(),
    {
        proof {
            use_type_invariant(self);
        }
        let shape = crate::shape::prefix(&self.shape, self.shape.len());
        let data = copied(&self.data);
        assert(shape@ =~= self.shape@);
        NdArray { shape, data }
    }

    /// The same elements in another shape.
    pub fn reshape(&self, shape: Vec<usize>) -> (r: Result<NdArray<T>, TensorError>)
        ensures
            r is Ok <==> reshape_ok(self@, shape@),
            r matches Ok(t) ==> t@ == reshaped(self@, shape@) && t@.wf(),
            r matches Err(e) ==> e == TensorError::Shape,
    {
        proof {
            use_type_invariant(self);
        }
        NdArray::new(shape, copied(&self.data))
    }

    /// The same elements with a new axis of size one.
    pub fn unsqueeze(&self, axis: usize) -> (r: Result<NdArray<T>, TensorError>)
        ensures
            r is Ok <==> axis <= self@.shape.len(),
            r matches Ok(t) ==> t@ == unsqueezed(self@, axis as int) && t@.wf(),
            r matches Err(e) ==> e == TensorError::Shape,
    {
        proof {
            use_type_invariant(self);
        }
        if axis > self.shape.len() {
            return Err(TensorError::Shape);
        }
        let mut shape = crate::shape::prefix(&self.shape, self.shape.len());
        assert(shape@ =~= self.shape@);
        shape.insert(axis, 1);
        proof {
            lemma_unit_axis(self.shape@, axis as int);
        }
        NdArray::new(shape, copied(&self.data))
    }

    /// The same elements without one axis of size one.
    pub fn squeeze(&self, axis: usize) -> (r: Result<NdArray<T>, TensorError>)
        ensures
            r is Ok <==> axis < self@.shape.len() && self@.shape[axis as int] == 1,
            r matches Ok(t) ==> t@ == squeezed(self@, axis as int) && t@.wf(),
            r matches Err(e) ==> e == TensorError::Shape,
    {
        proof {
            use_type_invariant(self);
        }
        if axis >= self.shape.len() || self.shape[axis] != 1 {
            return Err(TensorError::Shape);
        }
        let mut shape = crate::shape::prefix(&self.shape, self.shape.len());
        assert(shape@ =~= self.shape@);
        let _ = shape.remove(axis);
        proof {
            lemma_unit_axis(shape@, axis as int);
            assert(shape@.insert(axis as int, 1) =~= self.shape@);
        }
        NdArray::new(shape, copied(&self.data))
    }

    /// Positions `start .. start + len` of one axis.
    pub fn narrow(&self, axis: usize, start: usize, len: usize) -> (r: Result<NdArray<T>, TensorError>)
        ensures
            r is Ok <==> narrow_ok(self@.shape, axis as int, start as int, len as int),
            r matches Ok(t) ==> t@ == narrowed(self@, axis as int, start as int, len as int)
                && t@.wf(),
            r matches Err(e) ==> e == TensorError::Shape,
    {
        proof {
            use_type_invariant(self);
        }
        if axis >= self.shape.len() || start > self.shape[axis] || len > self.shape[axis] - start {
            return Err(TensorError::Shape);
        }
        let n: usize = self.shape[axis];
        let step: usize = count(&self.shape, axis + 1, self.shape.len());
        let before: usize = count(&self.shape, 0, axis);
        let ghost s = self.shape@;
        let mut shape = crate::shape::prefix(&self.shape, self.shape.len());
        assert(shape@ =~= s);
        shape.set(axis, len);
        let total: usize = {
            proof {
                lemma_span_update(s, axis as int, len);
                lemma_axis(shape@, axis as int);
                lemma_product_le_span(shape@);
                assert(s.subrange(0, axis as int) =~= s.take(axis as int));
                assert(s.subrange(axis + 1, s.len() as int) =~= s.skip(axis + 1));
            }
            count(&shape, 0, shape.len())
        };
        assert(shape@.subrange(0, shape@.len() as int) =~= shape@);
        let ghost want = narrowed(self@, axis as int, start as int, len as int);
        let mut data: Vec<T> = Vec::new();
        let mut i: usize = 0;
        while i < total
            invariant
                self.inv(),
                axis < s.len(),
                s == self.shape@,
                n == s[axis as int],
                step == inner(s, axis as int),
                before == outer(s, axis as int),
                start + len <= n,
                total == before * len * step,
                i <= total,
                want == narrowed(self@, axis as int, start as int, len as int),
                want.data.len() == total,
                data@ == want.data.take(i as int),
            decreases total - i,
        {
            proof {
                lemma_axis(s, axis as int);
                lemma_divide3(i as int, before as int, len as int, step as int);
                lemma_flat3(
                    (i as int / step as int) / len as int,
                    start + (i as int / step as int) % len as int,
                    i as int % step as int,
                    before as int,
                    n as int,
                    step as int,
                );
                lemma_product_le_span(s);
            }
            let q: usize = i / step;
            let o: usize = q / len;
            let k: usize = q % len;
            proof {
                lemma_bounded_row(o as int, n as int, (start + k) as int, step as int, (i % step) as int, usize::MAX as int);
            }
            data.push(self.data[(o * n + (start + k)) * step + i % step]);
            i = i + 1;
            assert(want.data.take(i as int) =~= want.data.take(i - 1).push(want.data[i - 1]));
        }
        assert(want.data.take(i as int) =~= want.data);
        Ok(NdArray { shape, data })
    }
}

impl<T: Copy> NdArray<T> {
    /// Every element equal to `value`.
    pub fn full(shape: Vec<usize>, value: T) -> (r: Result<NdArray<T>, TensorError>)
        ensures
            r is Ok <==> fits(shape@),
            r matches Ok(t) ==> t@.wf() && t@.shape == shape@ && t@.data == Seq::new(
                product(shape@),
                |i: int| value,
            ),
            r matches Err(e) ==> e == TensorError::Shape,
    {
        if !check_fits(&shape) {
            return Err(TensorError::Shape);
        }
        proof {
            lemma_product_le_span(shape@);
            assert(shape@.subrange(0, shape@.len() as int) =~= shape@);
        }
        let n: usize = count(&shape, 0, shape.len());
        let mut data: Vec<T> = Vec::new();
        while data.len() < n
            invariant
                data@.len() <= n,
                forall|i: int| 0 <= i < data@.len() ==> data@[i] == value,
            decreases n - data@.len(),
        {
            data.push(value);
        }
        assert(data@ =~= Seq::new(product(shape@), |i: int| value));
        Ok(NdArray { shape, data })
    }

    /// Joins two arrays along one axis.
    pub fn join(&self, other: &NdArray<T>, axis: usize) -> (r: Result<NdArray<T>, TensorError>)
        ensures
            r is Ok <==> cat_ok(self@.shape, other@.shape, axis as int),
            r matches Ok(t) ==> t@ == joined(self@, other@, axis as int) && t@.wf(),
            r matches Err(e) ==> e == TensorError::Shape,
    {
        proof {
            use_type_invariant(self);
            use_type_invariant(other);
        }
        let ghost s = self.shape@;
        let ghost q = other.shape@;
        if self.shape.len() != other.shape.len() || axis >= self.shape.len() {
            return Err(TensorError::Shape);
        }
        let n: usize = self.shape[axis];
        let m: usize = other.shape[axis];
        let mut shape = crate::shape::prefix(&self.shape, self.shape.len());
        assert(shape@ =~= s);
        shape.set(axis, m);
        if !same_shape(&shape, &other.shape) {
            return Err(TensorError::Shape);
        }
        let both: usize = match n.checked_add(m) {
            Some(v) => v,
            None => {
                return Err(TensorError::Shape);
            },
        };
        shape.set(axis, both);
        assert(shape@ =~= s.update(axis as int, both));
        if !check_fits(&shape) {
            return Err(TensorError::Shape);
        }
        let step: usize = count(&self.shape, axis + 1, self.shape.len());
        let total: usize = count(&shape, 0, shape.len());
        proof {
            lemma_span_update(s, axis as int, both);
            lemma_span_update(s, axis as int, m);
            lemma_axis(shape@, axis as int);
            lemma_axis(s, axis as int);
            lemma_axis(q, axis as int);
            lemma_product_le_span(s);
            lemma_product_le_span(q);
            assert(s.subrange(axis + 1, s.len() as int) =~= s.skip(axis + 1));
            assert(shape@.subrange(0, shape@.len() as int) =~= shape@);
        }
        let ghost want = joined(self@, other@, axis as int);
        let ghost before = outer(s, axis as int) as int;
        let mut data: Vec<T> = Vec::new();
        let mut i: usize = 0;
        while i < total
            invariant
                self.inv(),
                other.inv(),
                n == self@.shape[axis as int],
                m == other@.shape[axis as int],
                both == n + m,
                step == inner(self@.shape, axis as int),
                total == before * both * step,
                self.data@.len() == before * n * step,
                other.data@.len() == before * m * step,
                self.data@.len() <= usize::MAX,
                other.data@.len() <= usize::MAX,
                i <= total,
                want == joined(self@, other@, axis as int),
                want.data.len() == total,
                data@ == want.data.take(i as int),
            decreases total - i,
        {
            proof {
                lemma_divide3(i as int, before, both as int, step as int);
            }
            let u: usize = i / step;
            let o: usize = u / both;
            let k: usize = u % both;
            let t: usize = i % step;
            if k < n {
                proof {
                    lemma_flat3(o as int, k as int, t as int, before, n as int, step as int);
                    lemma_bounded_row(o as int, n as int, k as int, step as int, t as int, usize::MAX as int);
                }
                data.push(self.data[(o * n + k) * step + t]);
            } else {
                proof {
                    lemma_flat3(o as int, k - n, t as int, before, m as int, step as int);
                    lemma_bounded_row(o as int, m as int, k - n, step as int, t as int, usize::MAX as int);
                }
                data.push(other.data[(o * m + (k - n)) * step + t]);
            }
            i = i + 1;
            assert(want.data.take(i as int) =~= want.data.take(i - 1).push(want.data[i - 1]));
        }
        assert(want.data.take(i as int) =~= want.data);
        Ok(NdArray { shape, data })
    }

    /// Repeats an array to a larger shape.
    pub fn broadcast_as(&self, shape: Vec<usize>) -> (r: Result<NdArray<T>, TensorError>)
        ensures
            r is Ok <==> fits(shape@) && expands(self@.shape, shape@),
            r matches Ok(t) ==> t@ == expanded(self@, shape@) && t@.wf(),
            r matches Err(e) ==> e == TensorError::Shape,
    {
        proof {
            use_type_invariant(self);
        }
        if !check_fits(&shape) || !check_expands(&self.shape, &shape) {
            return Err(TensorError::Shape);
        }
        let total: usize = count(&shape, 0, shape.len());
        let ghost want = expanded(self@, shape@);
        proof {
            assert(shape@.subrange(0, shape@.len() as int) =~= shape@);
            assert(shape@.take(shape@.len() as int) =~= shape@);
            assert(self.shape@.take(self.shape@.len() as int) =~= self.shape@);
            lemma_product_le_span(self.shape@);
        }
        let mut data: Vec<T> = Vec::new();
        let mut i: usize = 0;
        while i < total
            invariant
                self.inv(),
                total == product(shape@),
                expands(self.shape@, shape@),
                shape@.take(shape@.len() as int) == shape@,
                self.shape@.take(self.shape@.len() as int) == self.shape@,
                product(self.shape@) <= usize::MAX,
                i <= total,
                want == expanded(self@, shape@),
                data@ == want.data.take(i as int),
            decreases total - i,
        {
            let k: usize = locate(&self.shape, &shape, self.shape.len(), shape.len(), i);
            data.push(self.data[k]);
            i = i + 1;
            assert(want.data.take(i as int) =~= want.data.take(i - 1).push(want.data[i - 1]));
        }
        assert(want.data.take(i as int) =~= want.data);
        Ok(NdArray { shape, data })
    }

    /// Exchanges two neighbouring axes.
    pub fn swap_axes(&self, axis: usize) -> (r: Result<NdArray<T>, TensorError>)
        ensures
            r is Ok <==> axis + 1 < self@.shape.len(),
            r matches Ok(t) ==> t@ == swapped(self@, axis as int) && t@.wf(),
            r matches Err(e) ==> e == TensorError::Shape,
    {
        proof {
            use_type_invariant(self);
        }
        if self.shape.len() < 2 || axis > self.shape.len() - 2 {
            return Err(TensorError::Shape);
        }
        let ghost s = self.shape@;
        let m: usize = self.shape[axis];
        let n: usize = self.shape[axis + 1];
        let step: usize = count(&self.shape, axis + 2, self.shape.len());
        let mut shape = crate::shape::prefix(&self.shape, self.shape.len());
        assert(shape@ =~= s);
        shape.set(axis, n);
        shape.set(axis + 1, m);
        let ghost want = swapped(self@, axis as int);
        let ghost before = outer(s, axis as int) as int;
        proof {
            lemma_swapped_shape(s, axis as int);
            assert(s.subrange(axis + 2, s.len() as int) =~= s.skip(axis + 2));
            lemma_product_le_span(s);
        }
        let total: usize = self.data.len();
        let mut data: Vec<T> = Vec::new();
        let mut i: usize = 0;
        while i < total
            invariant
                self.inv(),
                axis + 1 < self.shape@.len(),
                m == self.shape@[axis as int],
                n == self.shape@[axis + 1],
                step == inner(self.shape@, axis + 1),
                total == self.data@.len(),
                total == before * n * m * step,
                total == before * m * n * step,
                i <= total,
                want == swapped(self@, axis as int),
                want.data.len() == total,
                data@ == want.data.take(i as int),
            decreases total - i,
        {
            proof {
                lemma_divide3(i as int, before * n, m as int, step as int);
                lemma_divide((i as int / step as int) / m as int, before, n as int);
            }
            let u: usize = i / step;
            let w: usize = u / m;
            let o: usize = w / n;
            let a: usize = u % m;
            let b: usize = w % n;
            let t: usize = i % step;
            proof {
                lemma_flat(o as int, a as int, before, m as int);
                lemma_flat3(o * m + a, b as int, t as int, before * m, n as int, step as int);
                lemma_bounded_row(o * m + a, n as int, b as int, step as int, t as int, usize::MAX as int);
                assert(o * m + a <= (o * m + a) * n) by (nonlinear_arith)
                    requires
                        o * m + a >= 0,
                        n >= 1,
                ;
                assert(o * m >= 0) by (nonlinear_arith);
            }
            data.push(self.data[((o * m + a) * n + b) * step + t]);
            i = i + 1;
            assert(want.data.take(i as int) =~= want.data.take(i - 1).push(want.data[i - 1]));
        }
        assert(want.data.take(i as int) =~= want.data);
        Ok(NdArray { shape, data })
    }
}

/// An axis of size one does not change the element count.
pub proof fn lemma_unit_axis(s: Seq<usize>, axis: int)
    requires
        0 <= axis <= s.len(),
    ensures
        product(s.insert(axis, 1)) == product(s),
        span(s.insert(axis, 1)) == span(s),
{
    let t = s.insert(axis, 1);
    lemma_axis(t, axis);
    assert(t.take(axis) =~= s.take(axis));
    assert(t.skip(axis + 1) =~= s.skip(axis));
    assert(s =~= s.take(axis) + s.skip(axis));
    crate::shape::lemma_product_concat(s.take(axis), s.skip(axis));
    crate::shape::lemma_span_concat(s.take(axis), s.skip(axis));
    let a: nat = product(s.take(axis));
    let b: nat = product(s.skip(axis));
    let c: nat = span(s.take(axis));
    let d: nat = span(s.skip(axis));
    assert(a * 1 * b == a * b) by (nonlinear_arith);
    assert(c * 1 * d == c * d) by (nonlinear_arith);
}

/// Exchanging two axes keeps the element count and the bound in memory.
proof fn lemma_swapped_shape(s: Seq<usize>, axis: int)
    requires
        0 <= axis,
        axis + 1 < s.len(),
    ensures
        ({
            let t = s.update(axis, s[axis + 1]).update(axis + 1, s[axis]);
            let before = outer(s, axis);
            let step = inner(s, axis + 1);
            &&& product(t) == product(s)
            &&& span(t) == span(s)
            &&& product(s) == before * (s[axis] as nat) * (s[axis + 1] as nat) * step
            &&& product(s) == before * (s[axis + 1] as nat) * (s[axis] as nat) * step
        }),
{
    let t = s.update(axis, s[axis + 1]).update(axis + 1, s[axis]);
    lemma_axis(s, axis + 1);
    lemma_axis(t, axis + 1);
    assert(t.take(axis + 1).take(axis) =~= s.take(axis));
    assert(s.take(axis + 1).take(axis) =~= s.take(axis));
    assert(t.skip(axis + 2) =~= s.skip(axis + 2));
    let a = s.take(axis + 1);
    let b = t.take(axis + 1);
    assert(a.drop_last() =~= s.take(axis));
    assert(b.drop_last() =~= s.take(axis));
    let p: nat = product(s.take(axis));
    let q: nat = span(s.take(axis));
    let x: nat = s[axis] as nat;
    let y: nat = s[axis + 1] as nat;
    let dx: nat = if x == 0 { 1 } else { x };
    let dy: nat = if y == 0 { 1 } else { y };
    let r: nat = product(s.skip(axis + 2));
    let z: nat = span(s.skip(axis + 2));
    assert(p * x * y * r == p * y * x * r) by (nonlinear_arith);
    assert(q * dx * dy * z == q * dy * dx * z) by (nonlinear_arith);
}

impl<T: Copy> NdArray<T> {
    /// Selects rows (positions of the first axis) by number.
    pub fn pick_rows(&self, rows: &Vec<usize>) -> (r: Result<NdArray<T>, TensorError>)
        ensures
            r is Ok <==> pick_ok(self@.shape, rows@),
            r matches Ok(t) ==> t@ == rows_picked(self@, rows@) && t@.wf(),
            r matches Err(e) ==> e == (if rows_inside(
                self@.shape,
                rows@,
            ) || self@.shape.len() == 0 { TensorError::Shape } else { TensorError::Index }),
    {
        proof {
            use_type_invariant(self);
        }
        if self.shape.len() == 0 {
            return Err(TensorError::Shape);
        }
        let n: usize = self.shape[0];
        let mut j: usize = 0;
        while j < rows.len()
            invariant
                self.inv(),
                self.shape@.len() > 0,
                n == self.shape@[0],
                j <= rows@.len(),
                forall|k: int| 0 <= k < j ==> rows@[k] < n,
            decreases rows@.len() - j,
        {
            if rows[j] >= n {
                assert(!rows_inside(self@.shape, rows@));
                return Err(TensorError::Index);
            }
            j = j + 1;
        }
        let ghost s = self.shape@;
        let mut shape = crate::shape::prefix(&self.shape, self.shape.len());
        assert(shape@ =~= s);
        shape.set(0, rows.len());
        if !check_fits(&shape) {
            return Err(TensorError::Shape);
        }
        let step: usize = count(&self.shape, 1, self.shape.len());
        let total: usize = count(&shape, 0, shape.len());
        let ghost want = rows_picked(self@, rows@);
        proof {
            lemma_span_update(s, 0, rows@.len() as usize);
            lemma_axis(shape@, 0);
            lemma_axis(s, 0);
            lemma_product_le_span(s);
            assert(s.subrange(1, s.len() as int) =~= s.skip(1));
            assert(shape@.subrange(0, shape@.len() as int) =~= shape@);
            assert(s.take(0) =~= Seq::<usize>::empty());
            assert(outer(s, 0) == 1);
            let k: nat = rows@.len();
            assert(total == k * step && self.data@.len() == n * step) by (nonlinear_arith)
                requires
                    total == 1 * k * step,
                    self.data@.len() == 1 * n * step,
            ;
        }
        let mut data: Vec<T> = Vec::new();
        let mut i: usize = 0;
        while i < total
            invariant
                self.inv(),
                n == self.shape@[0],
                step == inner(self@.shape, 0),
                forall|k: int| 0 <= k < rows@.len() ==> rows@[k] < n,
                total == rows@.len() * step,
                self.data@.len() == n * step,
                self.data@.len() <= usize::MAX,
                i <= total,
                want == rows_picked(self@, rows@),
                want.data.len() == total,
                data@ == want.data.take(i as int),
            decreases total - i,
        {
            proof {
                lemma_divide(i as int, rows@.len() as int, step as int);
            }
            let row: usize = rows[i / step];
            proof {
                lemma_flat(row as int, i as int % step as int, n as int, step as int);
                assert(row * step >= 0) by (nonlinear_arith);
            }
            data.push(self.data[row * step + i % step]);
            i = i + 1;
            assert(want.data.take(i as int) =~= want.data.take(i - 1).push(want.data[i - 1]));
        }
        assert(want.data.take(i as int) =~= want.data);
        Ok(NdArray { shape, data })
    }

    /// The sizes of a matrix.
    pub fn dims2(&self) -> (r: Result<(usize, usize), TensorError>)
        ensures
            self@.wf(),
            r is Ok <==> self@.shape.len() == 2,
            r matches Ok(d) ==> self@.shape == shape2(d.0, d.1),
            r matches Err(e) ==> e == TensorError::Shape,
    {
        proof {
            use_type_invariant(self);
        }
        if self.shape.len() != 2 {
            return Err(TensorError::Shape);
        }
        assert(self.shape@ =~= shape2(self.shape@[0], self.shape@[1]));
        Ok((self.shape[0], self.shape[1]))
    }

    /// The sizes of a three-axis array.
    pub fn dims3(&self) -> (r: Result<(usize, usize, usize), TensorError>)
        ensures
            self@.wf(),
            r is Ok <==> self@.shape.len() == 3,
            r matches Ok(d) ==> self@.shape == shape3(d.0, d.1, d.2),
            r matches Err(e) ==> e == TensorError::Shape,
    {
        proof {
            use_type_invariant(self);
        }
        if self.shape.len() != 3 {
            return Err(TensorError::Shape);
        }
        assert(self.shape@ =~= shape3(self.shape@[0], self.shape@[1], self.shape@[2]));
        Ok((self.shape[0], self.shape[1], self.shape[2]))
    }

    /// The sizes of a four-axis array.
    pub fn dims4(&self) -> (r: Result<(usize, usize, usize, usize), TensorError>)
        ensures
            self@.wf(),
            r is Ok <==> self@.shape.len() == 4,
            r matches Ok(d) ==> self@.shape == shape4(d.0, d.1, d.2, d.3),
            r matches Err(e) ==> e == TensorError::Shape,
    {
        proof {
            use_type_invariant(self);
        }
        if self.shape.len() != 4 {
            return Err(TensorError::Shape);
        }
        assert(self.shape@ =~= shape4(
            self.shape@[0],
            self.shape@[1],
            self.shape@[2],
            self.shape@[3],
        ));
        Ok((self.shape[0], self.shape[1], self.shape[2], self.shape[3]))
    }

    /// The size of one axis.
    pub fn dim(&self, axis: usize) -> (r: Result<usize, TensorError>)
        ensures
            self@.wf(),
            r is Ok <==> axis < self@.shape.len(),
            r matches Ok(d) ==> d == self@.shape[axis as int],
            r matches Err(e) ==> e == TensorError::Shape,
    {
        proof {
            use_type_invariant(self);
        }
        if axis < self.shape.len() {
            Ok(self.shape[axis])
        } else {
            Err(TensorError::Shape)
        }
    }
}

/// The partial results of a flat index stay below it.
proof fn lemma_bounded_row(o: int, n: int, k: int, step: int, t: int, bound: int)
    requires
        0 <= o,
        0 <= n,
        0 <= k,
        1 <= step,
        0 <= t,
        (o * n + k) * step + t <= bound,
    ensures
        0 <= o * n <= bound,
        0 <= o * n + k <= bound,
        0 <= (o * n + k) * step <= bound,
{
    assert(0 <= o * n) by (nonlinear_arith)
        requires
            0 <= o,
            0 <= n,
    ;
    let x = o * n + k;
    assert(x <= x * step) by (nonlinear_arith)
        requires
            0 <= x,
            1 <= step,
    ;
}

/// A copy of a list of plain values.
pub fn copied<T: Copy>(v: &Vec<T>) -> (r: Vec<T>)
    ensures
        r@ == v@,
{
    let mut r: Vec<T> = Vec::new();
    let mut i: usize = 0;
    while i < v.len()
        invariant
            i <= v@.len(),
            r@ == v@.take(i as int),
        decreases v@.len() - i,
    {
        r.push(v[i]);
        i = i + 1;
        assert(v@.take(i as int) =~= v@.take(i - 1).push(v@[i - 1]));
    }
    assert(v@.take(i as int) =~= v@);
    r
}

impl NdArray<u32> {
    /// Looks rows (positions of the first axis) up by number; [`BLANK_ROW`] gives zeros.
    pub fn look_up(&self, rows: &Vec<usize>) -> (r: Result<Tensor, TensorError>)
        ensures
            r is Ok <==> look_up_ok(self@.shape, rows@),
            r matches Ok(t) ==> t@ == rows_looked_up(self@, rows@) && t@.wf(),
            r matches Err(e) ==> e == (if rows_known(
                self@.shape,
                rows@,
            ) || self@.shape.len() == 0 { TensorError::Shape } else { TensorError::Index }),
    {
        proof {
            use_type_invariant(self);
        }
        if self.shape.len() == 0 {
            return Err(TensorError::Shape);
        }
        let n: usize = self.shape[0];
        let mut j: usize = 0;
        while j < rows.len()
            invariant
                self.inv(),
                self.shape@.len() > 0,
                n == self.shape@[0],
                j <= rows@.len(),
                forall|k: int| 0 <= k < j ==> rows@[k] == BLANK_ROW || rows@[k] < n,
            decreases rows@.len() - j,
        {
            if rows[j] != BLANK_ROW && rows[j] >= n {
                assert(!rows_known(self@.shape, rows@));
                return Err(TensorError::Index);
            }
            j = j + 1;
        }
        let ghost s = self.shape@;
        let mut shape = crate::shape::prefix(&self.shape, self.shape.len());
        assert(shape@ =~= s);
        shape.set(0, rows.len());
        if !check_fits(&shape) {
            return Err(TensorError::Shape);
        }
        let step: usize = count(&self.shape, 1, self.shape.len());
        let total: usize = count(&shape, 0, shape.len());
        let ghost want = rows_looked_up(self@, rows@);
        proof {
            lemma_span_update(s, 0, rows@.len() as usize);
            lemma_axis(shape@, 0);
            lemma_axis(s, 0);
            lemma_product_le_span(s);
            assert(s.subrange(1, s.len() as int) =~= s.skip(1));
            assert(shape@.subrange(0, shape@.len() as int) =~= shape@);
            assert(s.take(0) =~= Seq::<usize>::empty());
            assert(outer(s, 0) == 1);
            let k: nat = rows@.len();
            assert(total == k * step && self.data@.len() == n * step) by (nonlinear_arith)
                requires
                    total == 1 * k * step,
                    self.data@.len() == 1 * n * step,
            ;
        }
        let mut data: Vec<u32> = Vec::new();
        let mut i: usize = 0;
        while i < total
            invariant
                self.inv(),
                n == self.shape@[0],
                step == inner(self@.shape, 0),
                forall|k: int| 0 <= k < rows@.len() ==> rows@[k] == BLANK_ROW || rows@[k] < n,
                total == rows@.len() * step,
                self.data@.len() == n * step,
                self.data@.len() <= usize::MAX,
                i <= total,
                want == rows_looked_up(self@, rows@),
                want.data.len() == total,
                data@ == want.data.take(i as int),
            decreases total - i,
        {
            proof {
                lemma_divide(i as int, rows@.len() as int, step as int);
            }
            let row: usize = rows[i / step];
            if row == BLANK_ROW {
                data.push(ZERO);
            } else {
                proof {
                    lemma_flat(row as int, i as int % step as int, n as int, step as int);
                    assert(row * step >= 0) by (nonlinear_arith);
                }
                data.push(self.data[row * step + i % step]);
            }
            i = i + 1;
            assert(want.data.take(i as int) =~= want.data.take(i - 1).push(want.data[i - 1]));
        }
        assert(want.data.take(i as int) =~= want.data);
        Ok(NdArray { shape, data })
    }
}

} // verus!
