//! Fixing axes to one coordinate each.
use vstd::prelude::*;
use crate::arith::{fits_isize, lemma_ascending_within, lemma_sum_take_next, running_sums_fit, sum};
use crate::layout::{scale_stride, ArrayLayout, LayoutView};

verus! {

/// Selects coordinate `index` on axis `axis`.
#[derive(Clone, PartialEq, Eq, Debug, Structural)]
pub struct IndexArg {
    pub axis: usize,
    pub index: usize,
}

/// The axes below `n` that are not in `named`, in ascending order.
pub open spec fn kept_axes(n: int, named: Set<int>) -> Seq<int>
    decreases n,
{
    if n <= 0 {
        Seq::empty()
    } else if named.contains(n - 1) {
        kept_axes(n - 1, named)
    } else {
        kept_axes(n - 1, named).push(n - 1)
    }
}

/// The axes that `args` name.
pub open spec fn index_axes(args: Seq<IndexArg>) -> Set<int> {
    Set::new(|i: int| exists|k: int| 0 <= k < args.len() && args[k].axis == i)
}

/// Whether `args` name existing axes in strictly ascending order, each with a
/// coordinate inside its axis.
pub open spec fn index_args_valid(v: LayoutView, args: Seq<IndexArg>) -> bool {
    &&& forall|k: int| 0 <= k < args.len() ==> #[trigger] args[k].axis < v.shape.len()
    &&& forall|k: int| 0 <= k < args.len() ==> #[trigger] args[k].index < v.shape[args[k].axis as int]
    &&& forall|k1: int, k2: int| 0 <= k1 < k2 < args.len() ==> args[k1].axis < args[k2].axis
}

/// What each argument moves the offset by: its coordinate times the stride of
/// its axis.
pub open spec fn index_terms(v: LayoutView, args: Seq<IndexArg>) -> Seq<int> {
    Seq::new(args.len(), |k: int| args[k].index * v.strides[args[k].axis as int])
}

/// The layout that fixing the axes of `args` leaves: the other axes, in their
/// order, and the offset moved to the selected coordinates.
pub open spec fn index_view(v: LayoutView, args: Seq<IndexArg>) -> LayoutView {
    let kept = kept_axes(v.shape.len() as int, index_axes(args));
    LayoutView {
        offset: (v.offset + sum(index_terms(v, args))) as isize,
        shape: kept.map_values(|i: int| v.shape[i]),
        strides: kept.map_values(|i: int| v.strides[i]),
    }
}

impl<const N: usize> ArrayLayout<N> {
    /// Fixes axis `axis` to coordinate `index`, removing that axis.
    pub fn index(&self, axis: usize, index: usize) -> (r: Self)
        requires
            axis < self@.shape.len(),
            index < self@.shape[axis as int],
            fits_isize(index * self@.strides[axis as int]),
            fits_isize(self@.offset + index * self@.strides[axis as int]),
        ensures
            r@ == (LayoutView {
                offset: (self@.offset + index * self@.strides[axis as int]) as isize,
                shape: self@.shape.remove(axis as int),
                strides: self@.strides.remove(axis as int),
            }),
    {
        let args = [IndexArg { axis, index }];
        let ghost s = args@;
        assert(s =~= seq![IndexArg { axis, index }]);
        proof {
            assert(index_terms(self@, s)[0] == index * self@.strides[axis as int]);
            assert(s.take(0).len() == 0);
            lemma_sum_take_next(index_terms(self@, s), 0);
            assert(index_terms(self@, s).take(1) =~= index_terms(self@, s));
        }
        let r = self.index_many(args.as_slice());
        proof {
            self.lemma_axes();
            let n = self@.shape.len() as int;
            lemma_kept_one(n, axis as int, n);
            assert(index_axes(s) =~= set![axis as int]);
            assert(r@.shape =~= self@.shape.remove(axis as int));
            assert(r@.strides =~= self@.strides.remove(axis as int));
        }
        r
    }

    /// Fixes each axis that `args` names to its coordinate, removing those
    /// axes; with no arguments, a copy.
    pub fn index_many(&self, args: &[IndexArg]) -> (r: Self)
        requires
            index_args_valid(self@, args@),
            forall|k: int| 0 <= k < args@.len() ==> fits_isize(#[trigger] index_terms(self@, args@)[k]),
            running_sums_fit(self@.offset as int, index_terms(self@, args@)),
        ensures
            r@ == index_view(self@, args@),
    {
        let ghost v = self@;
        let ghost named = index_axes(args@);
        let ghost terms = index_terms(v, args@);
        proof {
            self.lemma_axes();
        }
        let shape = self.shape();
        let strides = self.strides();
        let n = self.ndim();
        let mut offset = self.offset();
        if args.len() == 0 {
            let r = self.clone();
            proof {
                lemma_kept_all(n as int, named);
                assert(r@.shape =~= index_view(v, args@).shape);
                assert(r@.strides =~= index_view(v, args@).strides);
            }
            return r;
        }
        proof {
            let axes = args@.map_values(|a: IndexArg| a.axis as int);
            lemma_ascending_within(axes, 0, n as int);
        }
        let m = n - args.len();
        let mut ans = Self::with_ndim(m);
        let mut i: usize = 0;
        let mut j: usize = 0;
        let mut k: usize = 0;
        while i < n
            invariant
                v == self@,
                n == shape@.len() == strides@.len(),
                shape@ == v.shape,
                strides@ == v.strides,
                named == index_axes(args@),
                terms == index_terms(v, args@),
                index_args_valid(v, args@),
                forall|t: int| 0 <= t < args@.len() ==> fits_isize(#[trigger] terms[t]),
                running_sums_fit(v.offset as int, terms),
                m == n - args@.len(),
                i <= n,
                k <= args@.len(),
                forall|t: int| 0 <= t < k ==> args@[t].axis < i,
                forall|t: int| k <= t < args@.len() ==> args@[t].axis >= i,
                j == i - k,
                kept_axes(i as int, named).len() == j,
                ans@.shape.len() == m,
                ans@.strides.len() == m,
                forall|t: int| 0 <= t < j ==> ans@.shape[t] == v.shape[#[trigger] kept_axes(i as int, named)[t]],
                forall|t: int| 0 <= t < j ==> ans@.strides[t] == v.strides[#[trigger] kept_axes(i as int, named)[t]],
                offset == v.offset + sum(terms.take(k as int)),
            decreases n - i,
        {
            let d = shape[i];
            let s = strides[i];
            if k < args.len() && args[k].axis == i {
                assert(named.contains(i as int));
                proof {
                    lemma_sum_take_next(terms, k as int);
                    assert(fits_isize(v.offset + sum(terms.take(k + 1))));
                    assert(terms[k as int] == args@[k as int].index * s);
                    vstd::arithmetic::mul::lemma_mul_is_commutative(args@[k as int].index as int, s as int);
                }
                let step = scale_stride(s, args[k].index, Ghost(terms[k as int]));
                offset = offset + step;
                k = k + 1;
            } else {
                assert(!named.contains(i as int)) by {
                    if named.contains(i as int) {
                        let t = choose|t: int| 0 <= t < args@.len() && args@[t].axis == i;
                        if t >= k {
                            if t > k {
                                assert(args@[k as int].axis < args@[t].axis);
                            }
                        }
                    }
                }
                assert(j < m) by {
                    let rest = args@.subrange(k as int, args@.len() as int).map_values(|a: IndexArg| a.axis as int);
                    lemma_ascending_within(rest, i + 1, n as int);
                }
                ans.set_shape(j, d);
                ans.set_stride(j, s);
                j = j + 1;
            }
            i = i + 1;
        }
        assert(k == args@.len()) by {
            if k < args@.len() {
                assert(args@[k as int].axis < n);
            }
        }
        assert(terms.take(k as int) =~= terms);
        ans.set_offset(offset);
        let ghost want = index_view(v, args@);
        assert(ans@.shape =~= want.shape);
        assert(ans@.strides =~= want.strides);
        ans
    }
}

/// With one axis named, every other axis is kept.
proof fn lemma_kept_one(n: int, axis: int, i: int)
    requires
        0 <= axis < n,
        0 <= i <= n,
    ensures
        kept_axes(i, set![axis]) == Seq::new(
            (if i > axis { i - 1 } else { i }) as nat,
            |t: int| if t < axis { t } else { t + 1 },
        ),
    decreases i,
{
    if i > 0 {
        lemma_kept_one(n, axis, i - 1);
    }
    assert(kept_axes(i, set![axis]) =~= Seq::new(
        (if i > axis { i - 1 } else { i }) as nat,
        |t: int| if t < axis { t } else { t + 1 },
    ));
}

/// With nothing named, every axis is kept.
proof fn lemma_kept_all(n: int, named: Set<int>)
    requires
        n >= 0,
        forall|i: int| !named.contains(i),
    ensures
        kept_axes(n, named) == Seq::new(n as nat, |i: int| i),
    decreases n,
{
    if n > 0 {
        lemma_kept_all(n - 1, named);
        assert(kept_axes(n, named) =~= Seq::new(n as nat, |i: int| i));
    } else {
        assert(kept_axes(n, named) =~= Seq::new(n as nat, |i: int| i));
    }
}

} // verus!
