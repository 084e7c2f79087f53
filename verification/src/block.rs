//! One decoder block: attention and mixture of experts, each wrapped in hyper-connections.
//!
//! Each sublayer runs as `collapse → RMS norm → sublayer → re-expand` on `hc` residual streams.

use vstd::prelude::*;

use crate::attention::Mla;
use crate::error::TensorError;
use crate::mhc::Hc;
use crate::moe::Moe;
use crate::nn::rms_norm;
use crate::rope::Rope;
use crate::shape::{axes2, axes3};
use crate::tensor::Tensor;

#[allow(unused_imports)]
use crate::attention::{mla_gives, mla_shape};
#[allow(unused_imports)]
use crate::mhc::{post_gives, post_ok, pre_gives, pre_ok};
#[allow(unused_imports)]
use crate::moe::{moe_blocked, moe_gives, moe_shape};
#[allow(unused_imports)]
use crate::nn::{rms_norm_gives, rms_norm_shape};
#[allow(unused_imports)]
use crate::rope::RopeView;
#[allow(unused_imports)]
use crate::shape::{lemma_merged, merged, shape2, shape3, shape4};
#[allow(unused_imports)]
use crate::sparse::then_reshape;
#[allow(unused_imports)]
use crate::tensor::{reshaped, V};

verus! {

/// A decoder layer on `[b, s, hc, dim]` residual streams.
pub struct Block {
    /// The attention sublayer.
    pub attn: Mla,
    /// The feed-forward sublayer.
    pub ffn: Moe,
    /// `[dim]`: the gain of the norm before the attention.
    pub attn_norm: Tensor,
    /// `[dim]`: the gain of the norm before the experts.
    pub ffn_norm: Tensor,
    /// The mixer around the attention.
    pub hc_attn: Hc,
    /// The mixer around the experts.
    pub hc_ffn: Hc,
    /// The epsilon of both norms.
    pub eps: u64,
}

impl Block {
    pub open spec fn wf(self) -> bool {
        self.attn.wf() && self.ffn.wf() && self.hc_attn.wf() && self.hc_ffn.wf()
    }
}

/// The shape after the attention half.
pub open spec fn attn_half_shape(k: Block, x: Seq<usize>, table: Seq<usize>, start: int) -> Option<
    Seq<usize>,
> {
    if pre_ok(k.hc_attn, x) {
        match rms_norm_shape(shape3(x[0], x[1], x[3]), Some(k.attn_norm@.shape)) {
            Some(n) => match mla_shape(k.attn, n, table, start) {
                Some(a) => if post_ok(
                    k.hc_attn.hc,
                    a,
                    x,
                    shape3(x[0], x[1], x[2]),
                    shape4(x[0], x[1], x[2], x[2]),
                ) {
                    Some(shape4(a[0], a[1], k.hc_attn.hc, a[2]))
                } else {
                    None
                },
                None => None,
            },
            None => None,
        }
    } else {
        None
    }
}

/// The shape of the tokens side by side.
pub open spec fn token_shape(n: Seq<usize>) -> Seq<usize> {
    shape2((n[0] * n[1]) as usize, n[2])
}

/// The shape after the feed-forward half, if no expert is blocked.
pub open spec fn ffn_half_shape(k: Block, x: Seq<usize>) -> Option<Seq<usize>> {
    if pre_ok(k.hc_ffn, x) {
        match rms_norm_shape(shape3(x[0], x[1], x[3]), Some(k.ffn_norm@.shape)) {
            Some(n) => if n.len() == 3 && then_reshape(moe_shape(k.ffn, token_shape(n)), n) is Some
                && post_ok(
                k.hc_ffn.hc,
                n,
                x,
                shape3(x[0], x[1], x[2]),
                shape4(x[0], x[1], x[2], x[2]),
            ) {
                Some(shape4(n[0], n[1], k.hc_ffn.hc, n[2]))
            } else {
                None
            },
            None => None,
        }
    } else {
        None
    }
}

/// The shape of the block's output, if no expert is blocked.
#[verifier::opaque]
pub open spec fn block_shape(k: Block, x: Seq<usize>, table: Seq<usize>, start: int) -> Option<
    Seq<usize>,
> {
    match attn_half_shape(k, x, table, start) {
        Some(y) => ffn_half_shape(k, y),
        None => None,
    }
}

/// The tensors between input and output of a half.
pub struct HalfSteps {
    pub collapsed: V,
    pub post: V,
    pub comb: V,
    pub normed: V,
    pub inner: V,
}

/// Collapse, norm, attend, re-expand.
pub open spec fn attn_half_steps(
    k: Block,
    x: V,
    rope: RopeView,
    start: int,
    t: HalfSteps,
    y: V,
) -> bool {
    &&& pre_gives(k.hc_attn, x, t.collapsed, t.post, t.comb)
    &&& rms_norm_gives(t.collapsed, Some(k.attn_norm@), k.eps, t.normed)
    &&& mla_gives(k.attn, t.normed, rope, start, t.inner)
    &&& post_gives(k.hc_attn.hc, t.inner, x, t.post, t.comb, y)
}

pub open spec fn attn_half_gives(k: Block, x: V, rope: RopeView, start: int, y: V) -> bool {
    exists|t: HalfSteps| attn_half_steps(k, x, rope, start, t, y)
}

/// Collapse and norm before the experts.
pub open spec fn ffn_entry(k: Block, x: V, t: HalfSteps) -> bool {
    &&& pre_gives(k.hc_ffn, x, t.collapsed, t.post, t.comb)
    &&& rms_norm_gives(t.collapsed, Some(k.ffn_norm@), k.eps, t.normed)
}

/// Collapse, norm, route every token to its experts, re-expand.
pub open spec fn ffn_half_steps(k: Block, x: V, t: HalfSteps, y: V) -> bool {
    &&& ffn_entry(k, x, t)
    &&& moe_gives(k.ffn, reshaped(t.normed, token_shape(t.normed.shape)), t.inner)
    &&& post_gives(k.hc_ffn.hc, reshaped(t.inner, t.normed.shape), x, t.post, t.comb, y)
}

pub open spec fn ffn_half_gives(k: Block, x: V, y: V) -> bool {
    exists|t: HalfSteps| ffn_half_steps(k, x, t, y)
}

/// Some outcome sends tokens to an expert that cannot take them.
pub open spec fn ffn_blocked(k: Block, x: V) -> bool {
    exists|t: HalfSteps|
        #[trigger] ffn_entry(k, x, t) && Some(t.normed.shape) == rms_norm_shape(
            shape3(x.shape[0], x.shape[1], x.shape[3]),
            Some(k.ffn_norm@.shape),
        ) && moe_blocked(k.ffn, reshaped(t.normed, token_shape(t.normed.shape)))
}

/// The attention half, then the feed-forward half.
#[verifier::opaque]
pub open spec fn block_gives(k: Block, x: V, rope: RopeView, start: int, y: V) -> bool {
    exists|mid: V|
        #[trigger] attn_half_gives(k, x, rope, start, mid) && Some(mid.shape) == attn_half_shape(
            k,
            x.shape,
            rope.cos.shape,
            start,
        ) && ffn_half_gives(k, mid, y) && Some(y.shape) == ffn_half_shape(k, mid.shape)
}

/// Some outcome of the attention half leads to a blocked expert.
#[verifier::opaque]
pub open spec fn block_blocked(k: Block, x: V, rope: RopeView, start: int) -> bool {
    exists|mid: V|
        #[trigger] attn_half_gives(k, x, rope, start, mid) && Some(mid.shape) == attn_half_shape(
            k,
            x.shape,
            rope.cos.shape,
            start,
        ) && ffn_blocked(k, mid)
}

impl Block {
    fn attn_half(&self, x: &Tensor, rope: &Rope, start_pos: usize) -> (r: Result<Tensor, TensorError>)
        requires
            self.wf(),
        ensures
            rope@.wf(),
            r is Ok <==> attn_half_shape(*self, x@.shape, rope@.cos.shape, start_pos as int) is Some,
            r matches Ok(y) ==> y@.wf() && Some(y@.shape) == attn_half_shape(
                *self,
                x@.shape,
                rope@.cos.shape,
                start_pos as int,
            ) && attn_half_gives(*self, x@, rope@, start_pos as int, y@),
            r matches Err(e) ==> e == TensorError::Shape,
    {
        let _ = rope.cos();
        let (collapsed, post, comb) = self.hc_attn.pre(x)?;
        let normed = rms_norm(&collapsed, Some(&self.attn_norm), self.eps)?;
        let attended = self.attn.forward(&normed, rope, start_pos)?;
        let y = self.hc_attn.post(&attended, x, &post, &comb)?;
        assert(attn_half_steps(
            *self,
            x@,
            rope@,
            start_pos as int,
            HalfSteps {
                collapsed: collapsed@,
                post: post@,
                comb: comb@,
                normed: normed@,
                inner: attended@,
            },
            y@,
        ));
        Ok(y)
    }

    fn ffn_half(&self, x: &Tensor) -> (r: Result<Tensor, TensorError>)
        requires
            self.wf(),
        ensures
            r matches Ok(y) ==> y@.wf() && Some(y@.shape) == ffn_half_shape(*self, x@.shape)
                && ffn_half_gives(*self, x@, y@),
            r matches Err(e) ==> e == TensorError::Shape && (ffn_half_shape(*self, x@.shape) is None
                || ffn_blocked(*self, x@)),
    {
        let (collapsed, post, comb) = self.hc_ffn.pre(x)?;
        let normed = rms_norm(&collapsed, Some(&self.ffn_norm), self.eps)?;
        let (b, s, d) = normed.dims3()?;
        proof {
            lemma_merged(normed@.shape, 0);
            assert(merged(normed@.shape, 0) =~= shape2((b * s) as usize, d));
        }
        let tokens = normed.reshape(axes2(b * s, d))?;
        let ghost t = HalfSteps {
            collapsed: collapsed@,
            post: post@,
            comb: comb@,
            normed: normed@,
            inner: normed@,
        };
        let mixed = match self.ffn.forward(&tokens) {
            Ok(v) => v,
            Err(e) => {
                assert(ffn_entry(*self, x@, t));
                return Err(e);
            },
        };
        let back = mixed.reshape(axes3(b, s, d))?;
        let y = self.hc_ffn.post(&back, x, &post, &comb)?;
        proof {
            let t2 = HalfSteps { inner: mixed@, ..t };
            assert(ffn_half_steps(*self, x@, t2, y@));
        }
        Ok(y)
    }

    /// `x` (`[b, s, hc, dim]`) to `[b, s, hc, dim]`.
    pub fn forward(&self, x: &Tensor, rope: &Rope, start_pos: usize) -> (r: Result<Tensor, TensorError>)
        requires
            self.wf(),
        ensures
            rope@.wf(),
            r matches Ok(y) ==> y@.wf() && Some(y@.shape) == block_shape(
                *self,
                x@.shape,
                rope@.cos.shape,
                start_pos as int,
            ) && block_gives(*self, x@, rope@, start_pos as int, y@),
            r matches Err(e) ==> e == TensorError::Shape && (block_shape(
                *self,
                x@.shape,
                rope@.cos.shape,
                start_pos as int,
            ) is None || block_blocked(*self, x@, rope@, start_pos as int)),
    {
        proof {
            reveal(block_shape);
            reveal(block_gives);
            reveal(block_blocked);
        }
        let mid = self.attn_half(x, rope, start_pos)?;
        assert(attn_half_gives(*self, x@, rope@, start_pos as int, mid@));
        self.ffn_half(&mid)
    }
}

} // verus!
