//! Cutting one axis into consecutive parts.
use vstd::prelude::*;
use crate::arith::fits_isize;
use crate::layout::{ArrayLayout, LayoutView};
use crate::transform::slice::{slice_first, slice_view, SliceArg};

verus! {

/// The sum of the part sizes.
pub open spec fn part_total(parts: Seq<usize>) -> int
    decreases parts.len(),
{
    if parts.len() == 0 {
        0
    } else {
        parts[0] + part_total(parts.drop_first())
    }
}

/// What a split still has to hand out: the layout it cuts, the axis, where
/// the next part starts, and the sizes of the parts left.
pub struct SplitView {
    pub source: LayoutView,
    pub axis: int,
    pub start: int,
    pub parts: Seq<usize>,
}

/// The parts of one axis of a layout, handed out one at a time.
pub struct Split<'a, const N: usize> {
    src: &'a ArrayLayout<N>,
    axis: usize,
    start: usize,
    parts: &'a [usize],
}

impl<'a, const N: usize> View for Split<'a, N> {
    type V = SplitView;

    closed spec fn view(&self) -> SplitView {
        SplitView { source: self.src@, axis: self.axis as int, start: self.start as int, parts: self.parts@ }
    }
}

impl<'a, const N: usize> Split<'a, N> {
    /// The parts left cover the rest of an existing axis.
    #[verifier::type_invariant]
    spec fn inv(&self) -> bool {
        &&& self.axis < self.src@.shape.len()
        &&& self.src@.shape.len() == self.src@.strides.len()
        &&& self.start + part_total(self.parts@) == self.src@.shape[self.axis as int]
    }

    /// The next part, as a slice of the source layout with step one; none
    /// once every part has been handed out.
    pub fn next(&mut self) -> (r: Option<ArrayLayout<N>>)
        requires
            old(self)@.parts.len() > 0 ==> {
                let v = old(self)@.source;
                let s = v.strides[old(self)@.axis];
                &&& old(self)@.start < v.shape[old(self)@.axis]
                &&& fits_isize(old(self)@.start * s)
                &&& fits_isize(v.offset + old(self)@.start * s)
            },
        ensures
            old(self)@.parts.len() == 0 ==> r is None && final(self)@ == old(self)@,
            old(self)@.parts.len() > 0 ==> {
                &&& r is Some
                &&& r.unwrap()@ == slice_view(
                    old(self)@.source,
                    SliceArg {
                        axis: old(self)@.axis as usize,
                        start: old(self)@.start as usize,
                        step: 1,
                        len: old(self)@.parts[0],
                    },
                )
                &&& final(self)@ == (SplitView {
                    start: old(self)@.start + old(self)@.parts[0],
                    parts: old(self)@.parts.drop_first(),
                    ..old(self)@
                })
            },
    {
        proof {
            use_type_invariant(&*self);
        }
        if self.parts.len() == 0 {
            return None;
        }
        let (head, tail) = self.parts.split_at(1);
        let size = head[0];
        let start = self.start;
        proof {
            assert(tail@ =~= self.parts@.drop_first());
            lemma_part_total_nonneg(tail@);
            let v = self.src@;
            let s = v.strides[self.axis as int];
            assert(fits_isize(v.strides[self.axis as int] * 1)) by {
                assert(s * 1 == s);
            }
            assert(slice_first(v.shape[self.axis as int], SliceArg { axis: self.axis, start, step: 1, len: size }) == start);
        }
        let r = self.src.slice(self.axis, start, 1, size);
        *self = Split { src: self.src, axis: self.axis, start: start + size, parts: tail };
        Some(r)
    }
}

/// A total of part sizes is never negative.
proof fn lemma_part_total_nonneg(parts: Seq<usize>)
    ensures
        part_total(parts) >= 0,
    decreases parts.len(),
{
    if parts.len() > 0 {
        lemma_part_total_nonneg(parts.drop_first());
    }
}

impl<const N: usize> ArrayLayout<N> {
    /// Cuts axis `axis` into consecutive parts of the given sizes, which add up
    /// to its extent.
    pub fn split<'a>(&'a self, axis: usize, parts: &'a [usize]) -> (r: Split<'a, N>)
        requires
            axis < self@.shape.len(),
            part_total(parts@) == self@.shape[axis as int],
        ensures
            r@ == (SplitView { source: self@, axis: axis as int, start: 0, parts: parts@ }),
    {
        proof {
            self.lemma_axes();
        }
        Split { src: self, axis, start: 0, parts }
    }
}

} // verus!
