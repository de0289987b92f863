//! Restricting axes to stepped runs of coordinates.
use vstd::prelude::*;
use crate::arith::{fits_isize, lemma_sum_take_next, running_sums_fit, sum};
use crate::layout::{scale_stride, ArrayLayout, LayoutView};

verus! {

/// Keeps `len` coordinates of axis `axis`, from `start` on, `step` apart.
#[derive(Clone, PartialEq, Eq, Debug, Structural)]
pub struct SliceArg {
    pub axis: usize,
    pub start: usize,
    pub step: isize,
    pub len: usize,
}

/// `a / b` rounded up, for `a >= 0` and `b > 0`.
pub open spec fn ceil_div(a: int, b: int) -> int {
    a / b + if a % b == 0 { 0int } else { 1int }
}

/// The first coordinate kept on an axis of extent `d`: `start`, clamped to the
/// last coordinate when stepping backwards.
pub open spec fn slice_first(d: usize, a: SliceArg) -> int {
    if a.step < 0 && a.start > d - 1 {
        d - 1
    } else {
        a.start as int
    }
}

/// The extent that slicing an axis of extent `d` leaves: `len`, capped by the
/// coordinates that the step reaches before leaving the axis (no cap for a
/// step of zero).
pub open spec fn slice_len(d: usize, a: SliceArg) -> int {
    let reach = if a.step > 0 {
        ceil_div(d - a.start, a.step as int)
    } else {
        ceil_div(slice_first(d, a) + 1, -a.step)
    };
    if a.step != 0 && reach < a.len {
        reach
    } else {
        a.len as int
    }
}

/// Whether `a` can slice axis `axis` of `v`: its start lies inside the axis
/// (or, stepping backwards, the axis is not empty) and the new stride is a
/// machine word.
pub open spec fn slice_arg_valid(v: LayoutView, a: SliceArg) -> bool {
    &&& a.axis < v.shape.len()
    &&& a.step >= 0 ==> a.start < v.shape[a.axis as int]
    &&& a.step < 0 ==> v.shape[a.axis as int] > 0
    &&& fits_isize(v.strides[a.axis as int] * a.step)
}

/// What each argument moves the offset by: its first coordinate times the
/// stride of its axis.
pub open spec fn slice_terms(v: LayoutView, args: Seq<SliceArg>) -> Seq<int> {
    Seq::new(
        args.len(),
        |k: int| slice_first(v.shape[args[k].axis as int], args[k]) * v.strides[args[k].axis as int],
    )
}

/// Whether `args` are valid, name axes in strictly ascending order, and move
/// the offset through machine words only.
pub open spec fn slice_args_valid(v: LayoutView, args: Seq<SliceArg>) -> bool {
    &&& forall|k: int| 0 <= k < args.len() ==> slice_arg_valid(v, #[trigger] args[k])
    &&& forall|k1: int, k2: int| 0 <= k1 < k2 < args.len() ==> args[k1].axis < args[k2].axis
    &&& forall|k: int| 0 <= k < args.len() ==> fits_isize(#[trigger] slice_terms(v, args)[k])
    &&& running_sums_fit(v.offset as int, slice_terms(v, args))
}

/// The layout that slicing one axis of `v` with `a` gives.
pub open spec fn slice_view(v: LayoutView, a: SliceArg) -> LayoutView {
    let d = v.shape[a.axis as int];
    let s = v.strides[a.axis as int];
    LayoutView {
        offset: (v.offset + slice_first(d, a) * s) as isize,
        shape: v.shape.update(a.axis as int, slice_len(d, a) as usize),
        strides: v.strides.update(a.axis as int, (s * a.step) as isize),
    }
}

/// `a / b` rounded up.
fn div_ceil(a: usize, b: usize) -> (r: usize)
    requires
        b > 0,
    ensures
        r == ceil_div(a as int, b as int),
{
    if a % b == 0 {
        a / b
    } else {
        assert(a / b < a) by {
            if b == 1 {
                assert(a % 1 == 0) by (nonlinear_arith);
            }
            if a == 0 {
                assert(0int % (b as int) == 0) by (nonlinear_arith) requires b > 0;
            }
            vstd::arithmetic::div_mod::lemma_div_decreases(a as int, b as int);
        }
        a / b + 1
    }
}

impl<const N: usize> ArrayLayout<N> {
    /// Keeps `len` coordinates of axis `axis`, from `start` on, `step` apart.
    pub fn slice(&self, axis: usize, start: usize, step: isize, len: usize) -> (r: Self)
        requires
            slice_arg_valid(self@, SliceArg { axis, start, step, len }),
            fits_isize(slice_first(self@.shape[axis as int], SliceArg { axis, start, step, len }) * self@.strides[axis as int]),
            fits_isize(self@.offset + slice_first(self@.shape[axis as int], SliceArg { axis, start, step, len }) * self@.strides[axis as int]),
        ensures
            r@ == slice_view(self@, SliceArg { axis, start, step, len }),
    {
        let ghost a = SliceArg { axis, start, step, len };
        let args = [SliceArg { axis, start, step, len }];
        let ghost v = self@;
        proof {
            let terms = slice_terms(v, args@);
            assert(args@[0] == a);
            assert(terms.take(0).len() == 0);
            lemma_sum_take_next(terms, 0);
            assert(terms.take(1) =~= terms);
        }
        let r = self.slice_many(args.as_slice());
        proof {
            self.lemma_axes();
            let want = slice_view(v, a);
            assert(r@.shape =~= want.shape);
            assert(r@.strides =~= want.strides);
        }
        r
    }

    /// Slices each axis that `args` name; other axes stay as they are.
    pub fn slice_many(&self, args: &[SliceArg]) -> (r: Self)
        requires
            slice_args_valid(self@, args@),
        ensures
            r@.shape.len() == self@.shape.len(),
            r@.strides.len() == self@.strides.len(),
            r@.offset == self@.offset + sum(slice_terms(self@, args@)),
            forall|k: int| 0 <= k < args@.len() ==> {
                let a = #[trigger] args@[k];
                &&& r@.shape[a.axis as int] == slice_len(self@.shape[a.axis as int], a)
                &&& r@.strides[a.axis as int] == self@.strides[a.axis as int] * a.step
            },
            forall|i: int| 0 <= i < self@.shape.len() && (forall|k: int| 0 <= k < args@.len() ==> #[trigger] args@[k].axis != i) ==> {
                &&& r@.shape[i] == self@.shape[i]
                &&& r@.strides[i] == self@.strides[i]
            },
    {
        let ghost v = self@;
        let ghost terms = slice_terms(v, args@);
        proof {
            self.lemma_axes();
        }
        let shape = self.shape();
        let strides = self.strides();
        let n = self.ndim();
        let mut offset = self.offset();
        let mut ans = Self::with_ndim(n);
        let mut i: usize = 0;
        let mut k: usize = 0;
        while i < n
            invariant
                v == self@,
                n == shape@.len() == strides@.len(),
                shape@ == v.shape,
                strides@ == v.strides,
                terms == slice_terms(v, args@),
                slice_args_valid(v, args@),
                i <= n,
                k <= args@.len(),
                forall|t: int| 0 <= t < k ==> args@[t].axis < i,
                forall|t: int| k <= t < args@.len() ==> args@[t].axis >= i,
                ans@.shape.len() == n,
                ans@.strides.len() == n,
                forall|t: int| 0 <= t < k ==> {
                    let a = #[trigger] args@[t];
                    &&& ans@.shape[a.axis as int] == slice_len(v.shape[a.axis as int], a)
                    &&& ans@.strides[a.axis as int] == v.strides[a.axis as int] * a.step
                },
                forall|t: int| 0 <= t < i && (forall|q: int| 0 <= q < args@.len() ==> #[trigger] args@[q].axis != t) ==> {
                    &&& ans@.shape[t] == v.shape[t]
                    &&& ans@.strides[t] == v.strides[t]
                },
                offset == v.offset + sum(terms.take(k as int)),
            decreases n - i,
        {
            let d = shape[i];
            let s = strides[i];
            if k < args.len() && args[k].axis == i {
                let a = &args[k];
                assert(slice_arg_valid(v, args@[k as int]));
                let first: usize = if a.step < 0 && a.start > d - 1 {
                    d - 1
                } else {
                    a.start
                };
                let reach: usize = if a.step > 0 {
                    div_ceil(d - first, a.step as usize)
                } else if a.step < 0 {
                    div_ceil(first + 1, (-(a.step + 1)) as usize + 1)
                } else {
                    a.len
                };
                let len = if a.step != 0 && reach < a.len {
                    reach
                } else {
                    a.len
                };
                assert(len == slice_len(d, args@[k as int]));
                proof {
                    lemma_sum_take_next(terms, k as int);
                    assert(fits_isize(v.offset + sum(terms.take(k + 1))));
                    assert(terms[k as int] == first * s);
                    vstd::arithmetic::mul::lemma_mul_is_commutative(first as int, s as int);
                }
                let step = scale_stride(s, first, Ghost(terms[k as int]));
                offset = offset + step;
                ans.set_shape(i, len);
                ans.set_stride(i, s * a.step);
                k = k + 1;
                assert forall|t: int| 0 <= t < k implies {
                    let b = #[trigger] args@[t];
                    &&& ans@.shape[b.axis as int] == slice_len(v.shape[b.axis as int], b)
                    &&& ans@.strides[b.axis as int] == v.strides[b.axis as int] * b.step
                } by {
                    if t < k - 1 {
                        assert(args@[t].axis < i);
                    }
                }
            } else {
                ans.set_shape(i, d);
                ans.set_stride(i, s);
                assert forall|t: int| 0 <= t < k implies {
                    let b = #[trigger] args@[t];
                    &&& ans@.shape[b.axis as int] == slice_len(v.shape[b.axis as int], b)
                    &&& ans@.strides[b.axis as int] == v.strides[b.axis as int] * b.step
                } by {
                    assert(args@[t].axis < i);
                }
            }
            i = i + 1;
        }
        assert(k == args@.len()) by {
            if k < args@.len() {
                assert(slice_arg_valid(v, args@[k as int]));
            }
        }
        assert(terms.take(k as int) =~= terms);
        ans.set_offset(offset);
        ans
    }
}

} // verus!
