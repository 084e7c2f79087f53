//! The full model: token embedding, a stack of decoder blocks on residual streams, and the head.
//!
//! The embedding is a plain row lookup, repeated to `hc` identical streams. The head collapses the
//! streams with a gate per stream, norms, and projects the last position to vocabulary logits.

use vstd::prelude::*;

use crate::bits::{widen, DOUBLE_ONE, DOUBLE_ZERO};
use crate::block::Block;
use crate::error::TensorError;
use crate::mhc::{collapse_streams, flatten_streams, rms_mix};
use crate::nn::{rms_norm, sigmoid};
use crate::ops;
use crate::rope::Rope;
use crate::shape::{axes2, axes3, axes4};
use crate::tensor::{NdArray, Tensor};

#[allow(unused_imports)]
use crate::bits::{widens, ZERO};
#[allow(unused_imports)]
use crate::block::{block_blocked, block_gives, block_shape};
#[allow(unused_imports)]
use crate::mhc::{collapse_gives, flat_shape, flat_streams, mix_gives};
#[allow(unused_imports)]
use crate::nn::{rms_norm_gives, rms_norm_shape, sigmoid_gives};
#[allow(unused_imports)]
use crate::ops::{combined, combined_shape, linear_gives, linear_shape, mapped, Binary, Unary};
#[allow(unused_imports)]
use crate::rope::RopeView;
#[allow(unused_imports)]
use crate::shape::{
    fits, lemma_cube4, lemma_divide, lemma_expands_axes, lemma_flat, lemma_grid, product, shape2,
    shape3, shape4, source_index,
};
#[allow(unused_imports)]
use crate::sparse::then_reshape;
#[allow(unused_imports)]
use crate::tensor::{
    expanded, look_up_ok, narrowed, reshaped, rows_known, rows_looked_up, unsqueezed, NdView, V,
    BLANK_ROW,
};

verus! {

/// Token numbers, `[b, s]`.
pub type TokenIds = NdArray<u32>;

/// The head: collapses the streams, norms, and projects the last position.
pub struct Head {
    /// `[vocab, dim]`
    pub weight: Tensor,
    /// `[dim]`: the gain of the final norm.
    pub norm: Tensor,
    /// `[hc, hc * dim]`: the gates of the streams.
    pub hc_fn: Tensor,
    /// `[hc]`
    pub hc_base: Tensor,
    /// `[1]`
    pub hc_scale: Tensor,
    /// The number of streams.
    pub hc: usize,
    /// The epsilon of the norms.
    pub eps: u64,
    /// Added to the gates.
    pub hc_eps: u64,
}

impl Head {
    /// The scale is there.
    pub open spec fn wf(self) -> bool {
        self.hc_scale@.shape.len() == 1 ==> self.hc_scale@.shape[0] >= 1
    }
}

/// Whether the head can collapse streams of a shape.
pub open spec fn head_collapse_ok(h: Head, x: Seq<usize>) -> bool {
    let mixes = linear_shape(flat_shape(x), h.hc_fn@.shape);
    &&& x.len() == 4
    &&& mixes is Some
    &&& h.hc_scale@.shape.len() == 1
    &&& then_reshape(
        combined_shape(mixes.unwrap(), h.hc_base@.shape),
        shape4(x[0], x[1], x[2], 1),
    ) is Some
}

/// The shape of the logits.
pub open spec fn head_shape(h: Head, x: Seq<usize>) -> Option<Seq<usize>> {
    if head_collapse_ok(h, x) {
        match rms_norm_shape(shape3(x[0], x[1], x[3]), Some(h.norm@.shape)) {
            Some(n) => if n.len() == 3 && n[1] > 0 {
                linear_shape(shape2(n[0], n[2]), h.weight@.shape)
            } else {
                None
            },
            None => None,
        }
    } else {
        None
    }
}

/// The tensors between the streams and the collapsed tensor.
pub struct CollapseSteps {
    pub mixes: V,
    pub scale: u64,
    pub scaled: V,
    pub logits: V,
    pub gate: V,
    pub pre: V,
}

/// `pre = sigmoid(mixes · scale + base) + eps`, and the streams summed with it.
pub open spec fn head_collapse_steps(h: Head, x: V, t: CollapseSteps, y: V) -> bool {
    &&& mix_gives(flat_streams(x), h.hc_fn@, h.eps, t.mixes)
    &&& widens(h.hc_scale@.data[0], t.scale)
    &&& mapped(Unary::Affine(t.scale, DOUBLE_ZERO), t.mixes, t.scaled)
    &&& combined(Binary::Add, t.scaled, h.hc_base@, t.logits)
    &&& sigmoid_gives(t.logits, t.gate)
    &&& mapped(Unary::Affine(DOUBLE_ONE, h.hc_eps), t.gate, t.pre)
    &&& collapse_gives(x, t.pre, y)
}

pub open spec fn head_collapse_gives(h: Head, x: V, y: V) -> bool {
    exists|t: CollapseSteps| head_collapse_steps(h, x, t, y)
}

/// The last position of each batch.
pub open spec fn last_position(x: V) -> V {
    reshaped(narrowed(x, 1, x.shape[1] - 1, 1), shape2(x.shape[0], x.shape[2]))
}

/// Collapse, norm, last position, projection.
pub open spec fn head_steps(h: Head, x: V, collapsed: V, normed: V, y: V) -> bool {
    &&& head_collapse_gives(h, x, collapsed)
    &&& rms_norm_gives(collapsed, Some(h.norm@), h.eps, normed)
    &&& linear_gives(last_position(normed), h.weight@, y)
}

pub open spec fn head_gives(h: Head, x: V, y: V) -> bool {
    exists|collapsed: V, normed: V| head_steps(h, x, collapsed, normed, y)
}

impl Head {
    /// Collapses the streams `[b, s, hc, dim]` to `[b, s, dim]`.
    fn collapse(&self, x: &Tensor) -> (r: Result<Tensor, TensorError>)
        requires
            self.wf(),
        ensures
            r is Ok <==> head_collapse_ok(*self, x@.shape),
            r matches Ok(y) ==> y@.wf() && y@.shape == shape3(
                x@.shape[0],
                x@.shape[1],
                x@.shape[3],
            ) && head_collapse_gives(*self, x@, y@),
            r matches Err(e) ==> e == TensorError::Shape,
    {
        let _ = x.dims4()?;
        let flat = flatten_streams(x)?;
        let mixes = rms_mix(&flat, &self.hc_fn, self.eps)?;
        if self.hc_scale.rank() != 1 {
            return Err(TensorError::Shape);
        }
        proof {
            let s = self.hc_scale@.shape;
            assert(s.drop_last() =~= Seq::<usize>::empty());
            reveal_with_fuel(product, 2);
            assert(1 * (s[0] as nat) == s[0] as nat);
        }
        let scale: u64 = widen(self.hc_scale.data()[0]);
        let scaled = ops::affine(&mixes, scale, DOUBLE_ZERO);
        let logits = ops::broadcast_add(&scaled, &self.hc_base)?;
        let gate = sigmoid(&logits);
        let pre = ops::affine(&gate, DOUBLE_ONE, self.hc_eps);
        let y = collapse_streams(x, &pre)?;
        assert(head_collapse_steps(
            *self,
            x@,
            CollapseSteps {
                mixes: mixes@,
                scale,
                scaled: scaled@,
                logits: logits@,
                gate: gate@,
                pre: pre@,
            },
            y@,
        ));
        Ok(y)
    }

    /// `x` (`[b, s, hc, dim]`) to the logits `[b, vocab]` of the last position.
    pub fn forward(&self, x: &Tensor) -> (r: Result<Tensor, TensorError>)
        requires
            self.wf(),
        ensures
            r is Ok <==> head_shape(*self, x@.shape) is Some,
            r matches Ok(y) ==> y@.wf() && Some(y@.shape) == head_shape(*self, x@.shape)
                && head_gives(*self, x@, y@),
            r matches Err(e) ==> e == TensorError::Shape,
    {
        let collapsed = self.collapse(x)?;
        let normed = rms_norm(&collapsed, Some(&self.norm), self.eps)?;
        let (b, s, d) = normed.dims3()?;
        if s == 0 {
            return Err(TensorError::Shape);
        }
        let cut = normed.narrow(1, s - 1, 1)?;
        proof {
            crate::tensor::lemma_unit_axis(shape2(b, d), 1);
            assert(shape2(b, d).insert(1, 1) =~= cut@.shape);
        }
        let last = cut.reshape(axes2(b, d))?;
        let y = ops::linear(&last, &self.weight)?;
        assert(head_steps(*self, x@, collapsed@, normed@, y@));
        Ok(y)
    }
}

// --- the transformer ------------------------------------------------------------------------

/// The model: embedding, streams, blocks, head.
pub struct Transformer {
    /// `[vocab, dim]`
    pub embed: Tensor,
    pub layers: Vec<Block>,
    pub head: Head,
    /// The position tables that all layers share.
    pub rope: Rope,
    /// The number of streams.
    pub hc: usize,
}

impl Transformer {
    pub open spec fn wf(self) -> bool {
        &&& self.head.wf()
        &&& forall|i: int| 0 <= i < self.layers@.len() ==> (#[trigger] self.layers@[i]).wf()
    }
}

/// The table rows that token numbers name.
pub open spec fn id_rows(ids: Seq<u32>) -> Seq<usize> {
    ids.map_values(|v: u32| v as usize)
}

/// Whether token numbers can be embedded.
pub open spec fn embed_ok(m: Transformer, ids: NdView<u32>) -> bool {
    let (b, s, dim) = (ids.shape[0], ids.shape[1], m.embed@.shape[1]);
    &&& ids.shape.len() == 2
    &&& m.embed@.shape.len() >= 2
    &&& look_up_ok(m.embed@.shape, id_rows(ids.data))
    &&& then_reshape(
        Some(m.embed@.shape.update(0, ids.data.len() as usize)),
        shape3(b, s, dim),
    ) is Some
    &&& fits(shape4(b, s, m.hc, dim))
}

/// The embedded tokens, repeated to every stream.
pub open spec fn embedded(m: Transformer, ids: NdView<u32>) -> V {
    let (b, s, dim) = (ids.shape[0], ids.shape[1], m.embed@.shape[1]);
    expanded(
        unsqueezed(reshaped(rows_looked_up(m.embed@, id_rows(ids.data)), shape3(b, s, dim)), 2),
        shape4(b, s, m.hc, dim),
    )
}

/// The shape after the first `k` blocks, if no expert is blocked.
pub open spec fn stack_shape(
    layers: Seq<Block>,
    x: Seq<usize>,
    table: Seq<usize>,
    start: int,
    k: int,
) -> Option<Seq<usize>>
    decreases k,
{
    if k <= 0 {
        Some(x)
    } else {
        match stack_shape(layers, x, table, start, k - 1) {
            Some(y) => block_shape(layers[k - 1], y, table, start),
            None => None,
        }
    }
}

/// `states` lists the streams after each of the first blocks.
pub open spec fn stack_states(
    layers: Seq<Block>,
    x: V,
    rope: RopeView,
    start: int,
    states: Seq<V>,
) -> bool {
    &&& 1 <= states.len() <= layers.len() + 1
    &&& states[0] == x
    &&& forall|i: int|
        0 <= i < states.len() - 1 ==> #[trigger] block_gives(
            layers[i],
            states[i],
            rope,
            start,
            states[i + 1],
        )
}

/// Some outcome sends tokens to an expert that cannot take them.
pub open spec fn stack_blocked(layers: Seq<Block>, x: V, rope: RopeView, start: int) -> bool {
    exists|states: Seq<V>|
        #[trigger] stack_states(layers, x, rope, start, states) && states.len() <= layers.len()
            && block_blocked(layers[states.len() - 1], states.last(), rope, start)
}

/// The shape of the model's logits, if no expert is blocked.
pub open spec fn model_shape(m: Transformer, ids: NdView<u32>, start: int) -> Option<Seq<usize>> {
    let streams = shape4(ids.shape[0], ids.shape[1], m.hc, m.embed@.shape[1]);
    if embed_ok(m, ids) {
        match stack_shape(m.layers@, streams, m.rope@.cos.shape, start, m.layers@.len() as int) {
            Some(x) => head_shape(m.head, x),
            None => None,
        }
    } else {
        None
    }
}

/// Embedding, every block in turn, head.
pub open spec fn model_gives(m: Transformer, ids: NdView<u32>, start: int, y: V) -> bool {
    exists|states: Seq<V>|
        #[trigger] stack_states(m.layers@, embedded(m, ids), m.rope@, start, states)
            && states.len() == m.layers@.len() + 1 && head_gives(m.head, states.last(), y)
}

impl Transformer {
    /// Looks the tokens up and repeats them to every stream.
    fn embed_tokens(&self, input_ids: &TokenIds) -> (r: Result<Tensor, TensorError>)
        ensures
            r is Ok <==> embed_ok(*self, input_ids@),
            r matches Ok(x) ==> x@.wf() && x@ == embedded(*self, input_ids@) && x@.shape == shape4(
                input_ids@.shape[0],
                input_ids@.shape[1],
                self.hc,
                self.embed@.shape[1],
            ),
            r matches Err(e) ==> (e == TensorError::Index <==> input_ids@.shape.len() == 2
                && self.embed@.shape.len() >= 2 && !rows_known(
                self.embed@.shape,
                id_rows(input_ids@.data),
            )),
            r matches Err(e) ==> e == TensorError::Index || e == TensorError::Shape,
    {
        let (b, s) = input_ids.dims2()?;
        let dim: usize = self.embed.dim(1)?;
        let n: usize = input_ids.data().len();
        let mut rows: Vec<usize> = Vec::new();
        let mut i: usize = 0;
        while i < n
            invariant
                n == input_ids@.data.len(),
                i <= n,
                rows@ == id_rows(input_ids@.data.take(i as int)),
            decreases n - i,
        {
            rows.push(input_ids.data()[i] as usize);
            i = i + 1;
            assert(rows@ =~= id_rows(input_ids@.data.take(i as int)));
        }
        assert(input_ids@.data.take(n as int) =~= input_ids@.data);
        let picked = self.embed.look_up(&rows)?;
        let x = picked.reshape(axes3(b, s, dim))?;
        let lifted = x.unsqueeze(2)?;
        proof {
            assert(lifted@.shape =~= shape4(b, s, 1, dim));
            lemma_expands_axes(lifted@.shape, shape4(b, s, self.hc, dim));
        }
        lifted.broadcast_as(axes4(b, s, self.hc, dim))
    }

    /// `input_ids` (`[b, s]`) to the logits `[b, vocab]` of the last position.
    pub fn forward(&self, input_ids: &TokenIds, start_pos: usize) -> (r: Result<Tensor, TensorError>)
        requires
            self.wf(),
        ensures
            r matches Ok(y) ==> y@.wf() && Some(y@.shape) == model_shape(
                *self,
                input_ids@,
                start_pos as int,
            ) && model_gives(*self, input_ids@, start_pos as int, y@),
            r matches Err(e) ==> (e == TensorError::Index <==> input_ids@.shape.len() == 2
                && self.embed@.shape.len() >= 2 && !rows_known(
                self.embed@.shape,
                id_rows(input_ids@.data),
            )),
            r matches Err(e) ==> e == TensorError::Index || (e == TensorError::Shape && (model_shape(
                *self,
                input_ids@,
                start_pos as int,
            ) is None || stack_blocked(
                self.layers@,
                embedded(*self, input_ids@),
                self.rope@,
                start_pos as int,
            ))),
    {
        let mut h = self.embed_tokens(input_ids)?;
        let ghost first = h@;
        let ghost mut states: Seq<V> = seq![h@];
        let ghost table = self.rope@.cos.shape;
        let mut k: usize = 0;
        proof {
            lemma_stack_ends(self.layers@, first.shape, table, start_pos as int, 0);
        }
        while k < self.layers.len()
            invariant
                self.wf(),
                k <= self.layers@.len(),
                first == embedded(*self, input_ids@),
                embed_ok(*self, input_ids@),
                first.shape == shape4(
                    input_ids@.shape[0],
                    input_ids@.shape[1],
                    self.hc,
                    self.embed@.shape[1],
                ),
                table == self.rope@.cos.shape,
                states.len() == k + 1,
                states[k as int] == h@,
                stack_states(self.layers@, first, self.rope@, start_pos as int, states),
                stack_shape(self.layers@, first.shape, table, start_pos as int, k as int) == Some(
                    h@.shape,
                ),
            decreases self.layers@.len() - k,
        {
            let ghost before = states;
            match self.layers[k].forward(&h, &self.rope, start_pos) {
                Ok(next) => {
                    proof {
                        states = states.push(next@);
                        assert forall|i: int| 0 <= i < states.len() - 1 implies #[trigger] block_gives(
                            self.layers@[i],
                            states[i],
                            self.rope@,
                            start_pos as int,
                            states[i + 1],
                        ) by {
                            if i < before.len() - 1 {
                                assert(block_gives(
                                    self.layers@[i],
                                    before[i],
                                    self.rope@,
                                    start_pos as int,
                                    before[i + 1],
                                ));
                            }
                        }
                    }
                    h = next;
                },
                Err(e) => {
                    proof {
                        lemma_stack_ends(
                            self.layers@,
                            first.shape,
                            table,
                            start_pos as int,
                            (k + 1) as int,
                        );
                        assert(stack_states(
                            self.layers@,
                            first,
                            self.rope@,
                            start_pos as int,
                            states,
                        ));
                        assert(states.last() == h@);
                    }
                    return Err(e);
                },
            }
            k = k + 1;
        }
        let y = self.head.forward(&h)?;
        assert(states.last() == h@);
        Ok(y)
    }
}

/// A stack that fails after `k` blocks fails as a whole.
proof fn lemma_stack_ends(layers: Seq<Block>, x: Seq<usize>, table: Seq<usize>, start: int, k: int)
    requires
        0 <= k <= layers.len(),
    ensures
        stack_shape(layers, x, table, start, k) is None ==> stack_shape(
            layers,
            x,
            table,
            start,
            layers.len() as int,
        ) is None,
    decreases layers.len() - k,
{
    if k < layers.len() {
        lemma_stack_ends(layers, x, table, start, k + 1);
    }
}

/// Every stream starts as the embedding row of its token, or as zeros for the token that names none.
pub proof fn law_streams_start_equal(m: Transformer, ids: NdView<u32>, t: int, k: int, c: int)
    requires
        embed_ok(m, ids),
        ids.wf(),
        m.embed@.wf(),
        m.embed@.shape.len() == 2,
        0 <= t < ids.data.len(),
        0 <= k < m.hc,
        0 <= c < m.embed@.shape[1],
    ensures
        embedded(m, ids).data[(t * m.hc + k) * m.embed@.shape[1] + c]
            == (if ids.data[t] == BLANK_ROW {
            ZERO
        } else {
            m.embed@.data[ids.data[t] * m.embed@.shape[1] + c]
        }),
{
    let (b, s, dim, hc) = (ids.shape[0], ids.shape[1], m.embed@.shape[1], m.hc);
    let from = shape4(b, s, 1, dim);
    let to = shape4(b, s, hc, dim);
    let i = (t * hc + k) * dim + c;
    assert(ids.shape =~= shape2(b, s));
    lemma_grid(b, s);
    let n: int = b * s;
    lemma_flat(t, k, n, hc as int);
    lemma_flat(t * hc + k, c, n * hc, dim as int);
    lemma_cube4(b, s, hc, dim);
    lemma_divide(t, b as int, s as int);
    let x = reshaped(rows_looked_up(m.embed@, id_rows(ids.data)), shape3(b, s, dim));
    assert(x.shape.insert(2, 1) =~= from);
    assert(from.drop_last() =~= shape3(b, s, 1));
    assert(to.drop_last() =~= shape3(b, s, hc));
    assert(shape3(b, s, 1).drop_last() =~= shape2(b, s));
    assert(shape3(b, s, hc).drop_last() =~= shape2(b, s));
    assert(shape2(b, s).drop_last() =~= seq![b]);
    assert(seq![b].drop_last() =~= Seq::<usize>::empty());
    reveal_with_fuel(source_index, 5);
    let q = (t / s as int);
    vstd::arithmetic::div_mod::lemma_small_mod(q as nat, b as nat);
    assert(source_index(seq![b], seq![b], q) == q) by {
        assert(0 * b == 0);
    }
    assert(source_index(shape2(b, s), shape2(b, s), t) == t);
    assert(source_index(shape3(b, s, 1), shape3(b, s, hc), t * hc + k) == t) by {
        assert(t * 1 == t);
        if hc == 1 {
            assert((t * hc + k) % 1 == 0);
        }
    }
    assert(source_index(from, to, i) == t * dim + c);
    let e = m.embed@.shape;
    assert(e.skip(1) =~= seq![dim]);
    assert(seq![dim].drop_last() =~= Seq::<usize>::empty());
    assert(crate::shape::inner(e, 0) == dim) by {
        reveal_with_fuel(product, 2);
        assert(1 * (dim as nat) == dim as nat);
    }
    lemma_flat(t, c, n, dim as int);
    assert(id_rows(ids.data)[t] == ids.data[t]);
}

} // verus!
