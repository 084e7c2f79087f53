//! Selection of the highest scores.

use vstd::prelude::*;

use crate::bits::lower;

#[allow(unused_imports)]
use crate::bits::{is_nan, less, rank};

verus! {

/// Score `i` comes before score `j`: it is greater, or they tie and `i` is the lower index.
pub open spec fn before(s: Seq<u32>, i: int, j: int) -> bool {
    less(s[j], s[i]) || (!less(s[i], s[j]) && i < j)
}

pub open spec fn no_nan(s: Seq<u32>) -> bool {
    forall|i: int| 0 <= i < s.len() ==> !is_nan(#[trigger] s[i])
}

/// `r` lists the indices of the `k` highest scores (all of them if there are fewer), highest first,
/// ties by index. If some score is NaN the scores have no order: the indices are then only known
/// to be distinct positions.
pub open spec fn top_k_of(s: Seq<u32>, k: int, r: Seq<usize>) -> bool {
    &&& r.len() == (if k < s.len() {
        k
    } else {
        s.len() as int
    })
    &&& forall|a: int| 0 <= a < r.len() ==> #[trigger] r[a] < s.len()
    &&& forall|a: int, b: int|
        0 <= a < b < r.len() ==> #[trigger] r[a] != #[trigger] r[b]
    &&& no_nan(s) ==> forall|a: int, b: int|
        0 <= a < b < r.len() ==> before(s, #[trigger] r[a] as int, #[trigger] r[b] as int)
    &&& no_nan(s) ==> forall|a: int, j: int|
        0 <= a < r.len() && 0 <= j < s.len() && !r.contains(j as usize) ==> #[trigger] before(
            s,
            r[a] as int,
            j,
        )
}

/// The indices of the `k` highest of `scores[start .. start + n]`, counted from `start`.
pub fn top_k(scores: &Vec<u32>, start: usize, n: usize, k: usize) -> (r: Vec<usize>)
    requires
        start + n <= scores@.len(),
    ensures
        top_k_of(scores@.subrange(start as int, start + n), k as int, r@),
{
    let ghost s = scores@.subrange(start as int, start + n);
    let total: usize = scores.len();
    let want: usize = if k < n {
        k
    } else {
        n
    };
    let mut taken: Vec<bool> = Vec::new();
    while taken.len() < n
        invariant
            taken@.len() <= n,
            forall|j: int| 0 <= j < taken@.len() ==> !taken@[j],
        decreases n - taken@.len(),
    {
        taken.push(false);
    }
    let mut r: Vec<usize> = Vec::new();
    while r.len() < want
        invariant
            s == scores@.subrange(start as int, start + n),
            start + n <= scores@.len() == total,
            want <= n,
            r@.len() <= want,
            taken@.len() == n,
            forall|j: int| 0 <= j < n ==> (#[trigger] taken@[j] <==> r@.contains(j as usize)),
            forall|a: int| 0 <= a < r@.len() ==> #[trigger] r@[a] < n,
            forall|a: int, b: int|
                0 <= a < b < r@.len() ==> #[trigger] r@[a] != #[trigger] r@[b],
            no_nan(s) ==> forall|a: int, b: int|
                0 <= a < b < r@.len() ==> before(s, #[trigger] r@[a] as int, #[trigger] r@[b] as int),
            no_nan(s) ==> forall|a: int, j: int|
                0 <= a < r@.len() && 0 <= j < n && !r@.contains(j as usize) ==> #[trigger] before(
                    s,
                    r@[a] as int,
                    j,
                ),
        decreases want - r@.len(),
    {
        let mut best: Option<usize> = None;
        let mut j: usize = 0;
        while j < n
            invariant
                s == scores@.subrange(start as int, start + n),
                start + n <= scores@.len() == total,
                taken@.len() == n,
                j <= n,
                best is None ==> forall|i: int| 0 <= i < j ==> #[trigger] taken@[i],
                best matches Some(b) ==> {
                    &&& b < j
                    &&& !taken@[b as int]
                    &&& no_nan(s) ==> forall|i: int|
                        0 <= i < j && i != b && !(#[trigger] taken@[i]) ==> before(s, b as int, i)
                },
            decreases n - j,
        {
            assert(s[j as int] == scores@[start + j]);
            if !taken[j] {
                match best {
                    None => {
                        best = Some(j);
                    },
                    Some(b) => {
                        assert(s[b as int] == scores@[start + b]);
                        if lower(scores[start + b], scores[start + j]) {
                            best = Some(j);
                        }
                    },
                }
            }
            j = j + 1;
        }
        match best {
            Some(b) => {
                let ghost old_r = r@;
                taken.set(b, true);
                r.push(b);
                assert forall|i: int| 0 <= i < n implies (#[trigger] taken@[i] <==> r@.contains(
                    i as usize,
                )) by {
                    if old_r.contains(i as usize) {
                        let a = choose|a: int| 0 <= a < old_r.len() && old_r[a] == i;
                        assert(r@[a] == i);
                    }
                    if i == b {
                        assert(r@[old_r.len() as int] == i);
                    }
                }
                assert forall|i: usize| #[trigger] old_r.contains(i) implies r@.contains(i) by {
                    let a = choose|a: int| 0 <= a < old_r.len() && old_r[a] == i;
                    assert(r@[a] == i);
                }
                proof {
                    if no_nan(s) {
                        assert forall|a: int, i: int|
                            0 <= a < r@.len() && 0 <= i < n && !r@.contains(
                                i as usize,
                            ) implies #[trigger] before(s, r@[a] as int, i) by {
                            assert(!taken@[i]);
                            assert(!old_r.contains(i as usize));
                            if a < old_r.len() {
                                assert(r@[a] == old_r[a]);
                                assert(before(s, old_r[a] as int, i));
                            }
                        }
                    }
                }
                assert(!old_r.contains(b));
                assert(r@.contains(b)) by {
                    assert(r@[old_r.len() as int] == b);
                }
            },
            None => {
                proof {
                    lemma_some_left(r@, n as nat);
                    let j = choose|j: int| 0 <= j < n && !#[trigger] r@.contains(j as usize);
                    assert(taken@[j]);
                }
                return r;
            },
        }
    }
    r
}

/// Fewer than `n` distinct positions leave one of `0 .. n` unlisted.
proof fn lemma_some_left(r: Seq<usize>, n: nat)
    requires
        r.len() < n <= usize::MAX,
        forall|a: int, b: int| 0 <= a < b < r.len() ==> #[trigger] r[a] != #[trigger] r[b],
    ensures
        exists|j: int| 0 <= j < n && !#[trigger] r.contains(j as usize),
{
    if forall|j: int| 0 <= j < n ==> #[trigger] r.contains(j as usize) {
        lemma_all_listed(r, n);
    }
}

proof fn lemma_all_listed(r: Seq<usize>, n: nat)
    requires
        n <= usize::MAX,
        forall|a: int, b: int| 0 <= a < b < r.len() ==> #[trigger] r[a] != #[trigger] r[b],
        forall|j: int| 0 <= j < n ==> #[trigger] r.contains(j as usize),
    ensures
        n <= r.len(),
{
    let m = r.map_values(|v: usize| v as int);
    assert(m.no_duplicates());
    m.unique_seq_to_set();
    let all = vstd::set_lib::set_int_range(0, n as int);
    vstd::set_lib::lemma_int_range(0, n as int);
    assert(all.subset_of(m.to_set())) by {
        assert forall|j: int| all.contains(j) implies m.to_set().contains(j) by {
            assert(r.contains(j as usize));
            let a = choose|a: int| 0 <= a < r.len() && r[a] == j as usize;
            assert(m[a] == j);
        }
    }
    vstd::set_lib::lemma_len_subset(all, m.to_set());
}

/// Without NaNs, the selection is determined by the scores.
pub proof fn law_top_k_is_unique(s: Seq<u32>, k: int, a: Seq<usize>, b: Seq<usize>)
    requires
        no_nan(s),
        s.len() <= usize::MAX,
        top_k_of(s, k, a),
        top_k_of(s, k, b),
    ensures
        a == b,
{
    assert forall|i: int| 0 <= i < a.len() implies a[i] == b[i] by {
        lemma_same_place(s, k, a, b, i);
    }
    assert(a =~= b);
}

proof fn lemma_same_place(s: Seq<u32>, k: int, a: Seq<usize>, b: Seq<usize>, i: int)
    requires
        no_nan(s),
        s.len() <= usize::MAX,
        top_k_of(s, k, a),
        top_k_of(s, k, b),
        0 <= i < a.len(),
    ensures
        a[i] == b[i],
    decreases i,
{
    assert forall|j: int| 0 <= j < i implies a[j] == b[j] by {
        lemma_same_place(s, k, a, b, j);
    }
    let x = a[i] as int;
    let y = b[i] as int;
    if x != y {
        lemma_precedes(s, a, b, k, i);
        lemma_precedes(s, b, a, k, i);
        assert(rank(s[x]) == rank(s[x]));
    }
}

/// The entry at `i` precedes whatever the other selection has there.
proof fn lemma_precedes(s: Seq<u32>, a: Seq<usize>, b: Seq<usize>, k: int, i: int)
    requires
        no_nan(s),
        s.len() <= usize::MAX,
        top_k_of(s, k, a),
        top_k_of(s, k, b),
        0 <= i < a.len(),
        forall|j: int| 0 <= j < i ==> a[j] == b[j],
        a[i] != b[i],
    ensures
        before(s, a[i] as int, b[i] as int),
{
    let y = b[i];
    if a.contains(y) {
        let p = choose|p: int| 0 <= p < a.len() && a[p] == y;
        if p < i {
            assert(a[p] == b[p]);
            assert(b[p] != b[i]);
        }
        assert(p > i);
        assert(before(s, a[i] as int, a[p] as int));
    } else {
        assert(!a.contains(y as int as usize));
        assert(before(s, a[i] as int, y as int));
    }
}

/// The selection lists the highest scores, highest first, and among equal ones the first: whatever it
/// leaves out is no higher than what it takes.
pub proof fn law_top_k_takes_the_highest(s: Seq<u32>, k: int, r: Seq<usize>, a: int, b: int, j: int)
    requires
        top_k_of(s, k, r),
        no_nan(s),
        s.len() <= usize::MAX,
        0 <= a < b < r.len(),
        0 <= j < s.len(),
        forall|i: int| 0 <= i < r.len() ==> #[trigger] r[i] != j,
    ensures
        !less(s[r[a] as int], s[r[b] as int]),
        less(s[r[b] as int], s[r[a] as int]) || r[a] < r[b],
        !less(s[r[b] as int], s[j]),
        less(s[j], s[r[b] as int]) || r[b] < j,
{
    assert(before(s, r[a] as int, r[b] as int));
    assert(!r.contains(j as usize));
    assert(before(s, r[b] as int, j));
}

/// As many are taken as are asked for, or all there are; none is taken twice.
pub proof fn law_top_k_takes_as_many(s: Seq<u32>, k: int, r: Seq<usize>)
    requires
        top_k_of(s, k, r),
        k >= 0,
    ensures
        r.len() <= k,
        r.len() <= s.len(),
        r.len() == k || r.len() == s.len(),
        forall|i: int| 0 <= i < r.len() ==> #[trigger] r[i] < s.len(),
        forall|i: int, j: int| 0 <= i < j < r.len() ==> #[trigger] r[i] != #[trigger] r[j],
{
}

} // verus!
