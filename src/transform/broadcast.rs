//! Repeating axes that carry no data.
use vstd::prelude::*;
use crate::layout::{ArrayLayout, LayoutView};

verus! {

/// Repeats axis `axis` `times` times.
#[derive(Clone, PartialEq, Eq, Debug, Structural)]
pub struct BroadcastArg {
    pub axis: usize,
    pub times: usize,
}

/// The layout that broadcasting with the first `k` arguments gives: each sets
/// the extent of its axis to `times` and its stride to zero.
pub open spec fn broadcast_view(v: LayoutView, args: Seq<BroadcastArg>, k: int) -> LayoutView
    decreases k,
{
    if k <= 0 {
        v
    } else {
        let w = broadcast_view(v, args, k - 1);
        let a = args[k - 1];
        LayoutView {
            offset: w.offset,
            shape: w.shape.update(a.axis as int, a.times),
            strides: w.strides.update(a.axis as int, 0),
        }
    }
}

/// Whether each argument, applied after the ones before it, names an existing
/// axis of extent one or of stride zero.
pub open spec fn broadcast_args_valid(v: LayoutView, args: Seq<BroadcastArg>) -> bool {
    forall|k: int| 0 <= k < args.len() ==> {
        let w = broadcast_view(v, args, k);
        let a = #[trigger] args[k];
        &&& a.axis < v.shape.len()
        &&& (w.shape[a.axis as int] == 1 || w.strides[a.axis as int] == 0)
    }
}

impl<const N: usize> ArrayLayout<N> {
    /// Repeats axis `axis`, of extent one or stride zero, `times` times, all
    /// at the same place.
    pub fn broadcast(&self, axis: usize, times: usize) -> (r: Self)
        requires
            axis < self@.shape.len(),
            self@.shape[axis as int] == 1 || self@.strides[axis as int] == 0,
        ensures
            r@ == (LayoutView {
                offset: self@.offset,
                shape: self@.shape.update(axis as int, times),
                strides: self@.strides.update(axis as int, 0),
            }),
    {
        let args = [BroadcastArg { axis, times }];
        proof {
            assert(args@[0] == BroadcastArg { axis, times });
            assert(broadcast_view(self@, args@, 0) == self@);
        }
        self.broadcast_many(args.as_slice())
    }

    /// Broadcasts with each argument in turn.
    pub fn broadcast_many(&self, args: &[BroadcastArg]) -> (r: Self)
        requires
            broadcast_args_valid(self@, args@),
        ensures
            r@ == broadcast_view(self@, args@, args@.len() as int),
    {
        let ghost v = self@;
        proof {
            self.lemma_axes();
        }
        let mut ans = self.clone();
        let mut k: usize = 0;
        while k < args.len()
            invariant
                v == self@,
                v.shape.len() == v.strides.len(),
                broadcast_args_valid(v, args@),
                k <= args@.len(),
                ans@ == broadcast_view(v, args@, k as int),
                ans@.shape.len() == v.shape.len(),
                ans@.strides.len() == v.shape.len(),
            decreases args@.len() - k,
        {
            let a = &args[k];
            assert(a.axis < v.shape.len() && *a == args@[k as int]);
            ans.set_shape(a.axis, a.times);
            ans.set_stride(a.axis, 0);
            k = k + 1;
        }
        ans
    }
}

} // verus!
