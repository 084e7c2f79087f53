//! The keys that a layer lists for a query, slot by slot.

use vstd::prelude::*;

#[allow(unused_imports)]
use crate::attention::{batched, chosen_gives, keys_give, lemma_batched_slot, Mla};
#[allow(unused_imports)]
use crate::elements::law_join_by_place;
#[allow(unused_imports)]
use crate::rope::RopeView;
#[allow(unused_imports)]
use crate::shape::{inner, lemma_flat, lemma_grid, outer, shape2, shape3};
#[allow(unused_imports)]
use crate::sparse::{
    compress_gives, compress_idxs_of, law_compressed_slots, law_window_slots, select_gives,
    window_idxs_of,
};
#[allow(unused_imports)]
use crate::tensor::{cat_ok, joined, IndexView, V};
#[allow(unused_imports)]
use vstd::arithmetic::div_mod::lemma_fundamental_div_mod_converse;

verus! {

/// Slot `u` of query `i` in a window: the `u`-th of the last keys up to the query, or nothing.
pub open spec fn window_slot(window: int, i: int, u: int) -> int {
    let first = if i < window {
        0
    } else {
        i - window + 1
    };
    if first + u <= i {
        first + u
    } else {
        -1
    }
}

/// Slot `c` of query `i` among the blocks of `s` tokens: the block behind the tokens, if the query has
/// reached its last one, or nothing.
pub open spec fn block_slot(ratio: int, s: int, i: int, c: int) -> int {
    if c * ratio + ratio - 1 <= i {
        s + c
    } else {
        -1
    }
}

/// The slots of a query: first those of its window, then the blocks: all that it has reached, or those
/// that the selector chose for it.
pub proof fn law_slots_of_the_layer(
    m: Mla,
    x: V,
    qr: V,
    rope: RopeView,
    latent: V,
    keys: V,
    idxs: IndexView,
    a: int,
    i: int,
    u: int,
)
    requires
        keys_give(m, x, qr, rope, latent, keys, idxs),
        m.wf(),
        x.shape.len() == 3,
        x.shape[1] + x.shape[1] <= i64::MAX,
        0 <= a < x.shape[0],
        0 <= i < x.shape[1],
        0 <= u < idxs.shape[2],
    ensures
        ({
            let s = x.shape[1] as int;
            let k = if m.window_size <= s {
                m.window_size as int
            } else {
                s
            };
            let p = a * s + i;
            let at = idxs.data[p * idxs.shape[2] + u];
            &&& m.compressor is None ==> idxs.shape[2] == k
            &&& u < k ==> at == window_slot(m.window_size as int, i, u)
            &&& u >= k ==> match m.indexer {
                None => at == block_slot(m.compress_ratio as int, s, i, u - k),
                Some(ix) => exists|chosen: IndexView|
                    #[trigger] select_gives(ix, x, qr, rope, chosen) && at == chosen.data[p
                        * chosen.shape[2] + (u - k)],
            }
        }),
{
    let (b, s) = (x.shape[0], x.shape[1]);
    let rows = window_idxs_of(m.window_size, s);
    let window = batched(rows, b);
    let k = rows.shape[1] as int;
    let p = a * s + i;
    lemma_flat(a, i, b as int, s as int);
    lemma_fundamental_div_mod_converse(p, s as int, a, i);
    if u < k {
        law_window_slots(m.window_size, s, i, u);
        lemma_batched_slot(rows, b, p, u);
    }
    if let Some(c) = m.compressor {
        let (blocks, chosen) = choose|blocks: V, chosen: IndexView|
            {
                &&& #[trigger] compress_gives(c, x, rope, blocks)
                &&& #[trigger] chosen_gives(m, x, qr, rope, chosen)
                &&& cat_ok(latent.shape, blocks.shape, 1)
                &&& keys == joined(latent, blocks, 1)
                &&& cat_ok(window.shape, chosen.shape, 2)
                &&& idxs == joined(window, chosen, 2)
            };
        let n = chosen.shape[2] as int;
        assert(window.shape =~= shape3(b, s, k as usize));
        let w = window.shape;
        assert(w.take(2) =~= shape2(b, s));
        lemma_grid(b, s);
        assert(w.skip(3) =~= Seq::<usize>::empty());
        assert(outer(w, 2) == b * s && inner(w, 2) == 1);
        law_join_by_place(window, chosen, 2, p, u, 0);
        assert((p * (k + n) + u) * 1 + 0 == p * (k + n) + u);
        assert(idxs.shape[2] == k + n);
        if u < k {
            assert((p * k + u) * 1 + 0 == p * k + u);
        } else {
            assert((p * n + (u - k)) * 1 + 0 == p * n + (u - k));
            if m.indexer is None {
                let t = compress_idxs_of(m.compress_ratio, s, s);
                let r = m.compress_ratio as int;
                assert(0 <= s as int / r <= s) by (nonlinear_arith)
                    requires
                        r > 0,
                        s >= 0,
                ;
                assert(t.shape[1] == n);
                law_compressed_slots(m.compress_ratio, s, s, i, u - k);
                lemma_batched_slot(t, b, p, u - k);
            }
        }
    }
}

} // verus!
