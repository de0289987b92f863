//! Moving axes to other positions.
use vstd::prelude::*;
use crate::layout::{ArrayLayout, LayoutView};

verus! {

/// The number of entries of `perm` below `i`.
pub open spec fn rank(perm: Seq<usize>, i: int) -> int
    decreases perm.len(),
{
    if perm.len() == 0 {
        0
    } else {
        rank(perm.drop_last(), i) + if perm.last() < i { 1int } else { 0int }
    }
}

/// Whether `i` is an entry of `perm`.
pub open spec fn named(perm: Seq<usize>, i: int) -> bool {
    exists|k: int| 0 <= k < perm.len() && perm[k] == i
}

/// The axis that moves to position `i`: the named positions, taken in
/// ascending order, receive the axes that `perm` lists, in its order; other
/// positions keep their axis.
pub open spec fn transpose_source(perm: Seq<usize>, i: int) -> int {
    if named(perm, i) {
        perm[rank(perm, i)] as int
    } else {
        i
    }
}

/// The layout that moving the axes as `perm` says gives.
pub open spec fn transpose_view(v: LayoutView, perm: Seq<usize>) -> LayoutView {
    LayoutView {
        offset: v.offset,
        shape: Seq::new(v.shape.len(), |i: int| v.shape[transpose_source(perm, i)]),
        strides: Seq::new(v.shape.len(), |i: int| v.strides[transpose_source(perm, i)]),
    }
}

/// Fewer entries lie below `i` than `perm` holds, when `i` is one of them.
proof fn lemma_rank_bound(perm: Seq<usize>, i: int)
    ensures
        0 <= rank(perm, i) <= perm.len(),
        named(perm, i) ==> rank(perm, i) < perm.len(),
    decreases perm.len(),
{
    if perm.len() > 0 {
        let init = perm.drop_last();
        lemma_rank_bound(init, i);
        if named(perm, i) && perm.last() != i {
            let k = choose|k: int| 0 <= k < perm.len() && perm[k] == i;
            assert(init[k] == i);
        }
    }
}

impl<const N: usize> ArrayLayout<N> {
    /// Moves axes: the positions that `perm` names, in ascending order,
    /// receive the axes that `perm` lists, in its order; the others stay.
    pub fn transpose(&self, perm: &[usize]) -> (r: Self)
        requires
            forall|k: int| 0 <= k < perm@.len() ==> #[trigger] perm@[k] < self@.shape.len(),
            forall|k1: int, k2: int| 0 <= k1 < k2 < perm@.len() ==> perm@[k1] != perm@[k2],
        ensures
            r@ == transpose_view(self@, perm@),
    {
        let ghost v = self@;
        proof {
            self.lemma_axes();
        }
        let shape = self.shape();
        let strides = self.strides();
        let n = self.ndim();
        let mut ans = Self::with_ndim(n);
        let mut i: usize = 0;
        while i < n
            invariant
                v == self@,
                n == shape@.len() == strides@.len(),
                shape@ == v.shape,
                strides@ == v.strides,
                forall|k: int| 0 <= k < perm@.len() ==> #[trigger] perm@[k] < n,
                i <= n,
                ans@.offset == 0,
                ans@.shape.len() == n,
                ans@.strides.len() == n,
                forall|t: int| 0 <= t < i ==> ans@.shape[t] == v.shape[transpose_source(perm@, t)],
                forall|t: int| 0 <= t < i ==> ans@.strides[t] == v.strides[transpose_source(perm@, t)],
            decreases n - i,
        {
            let mut found = false;
            let mut below: usize = 0;
            let mut k: usize = 0;
            while k < perm.len()
                invariant
                    k <= perm@.len(),
                    below == rank(perm@.take(k as int), i as int),
                    below <= k,
                    found == (exists|q: int| 0 <= q < k && perm@[q] == i),
                decreases perm@.len() - k,
            {
                proof {
                    assert(perm@.take(k + 1).drop_last() =~= perm@.take(k as int));
                }
                if perm[k] < i {
                    below = below + 1;
                }
                if perm[k] == i {
                    found = true;
                }
                k = k + 1;
            }
            assert(perm@.take(k as int) =~= perm@);
            let src = if found {
                proof {
                    lemma_rank_bound(perm@, i as int);
                }
                perm[below]
            } else {
                i
            };
            ans.set_shape(i, shape[src]);
            ans.set_stride(i, strides[src]);
            i = i + 1;
        }
        ans.set_offset(self.offset());
        assert(ans@.shape =~= transpose_view(v, perm@).shape);
        assert(ans@.strides =~= transpose_view(v, perm@).strides);
        ans
    }
}

} // verus!
