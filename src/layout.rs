//! The layout type, its storage, construction and derived numbers.
use vstd::prelude::*;
use crate::arith::{
    fits_isize, lemma_product_first, lemma_product_prefix_le, lemma_product_take_next,
    lemma_product_zero, lemma_sum_take_next, running_sums_fit, sum, product,
};

verus! {

/// Order in which the axes of a layout run from outer to inner.
#[derive(Clone, Copy, PartialEq, Eq, Hash, Debug, Structural)]
pub enum Endian {
    /// Axes of larger range (slower varying) come first.
    BigEndian,
    /// Axes of smaller range (faster varying) come first.
    LittleEndian,
}

/// What a layout describes: the offset of its first element, and its extent
/// and step on each axis.
pub struct LayoutView {
    pub offset: isize,
    pub shape: Seq<usize>,
    pub strides: Seq<isize>,
}

/// Where a layout keeps its offset, shape and strides.
#[allow(inconsistent_fields)]
enum Content<const N: usize> {
    /// At most `N` axes, held within the value itself; the entries past the
    /// last axis are zero.
    Inline { offset: isize, shape: [usize; N], strides: [isize; N] },
    /// More than `N` axes, held in heap blocks of exactly one entry per axis.
    Heap { offset: isize, shape: Vec<usize>, strides: Vec<isize> },
}

impl<const N: usize> Content<N> {
    /// The variant is the one that `ndim` selects, and it holds `ndim` axes.
    spec fn wf(&self, ndim: nat) -> bool {
        match self {
            Content::Inline { shape, strides, .. } => {
                &&& ndim <= N
                &&& forall|i: int| ndim <= i < N ==> shape@[i] == 0 && strides@[i] == 0
            },
            Content::Heap { shape, strides, .. } => {
                &&& ndim > N
                &&& shape@.len() == ndim
                &&& strides@.len() == ndim
            },
        }
    }

    /// The stored offset.
    spec fn offset_of(&self) -> isize {
        match self {
            Content::Inline { offset, .. } => *offset,
            Content::Heap { offset, .. } => *offset,
        }
    }

    /// The stored extents, padding included.
    spec fn shape_seq(&self) -> Seq<usize> {
        match self {
            Content::Inline { shape, .. } => shape@,
            Content::Heap { shape, .. } => shape@,
        }
    }

    /// The stored strides, padding included.
    spec fn strides_seq(&self) -> Seq<isize> {
        match self {
            Content::Inline { strides, .. } => strides@,
            Content::Heap { strides, .. } => strides@,
        }
    }

    /// Stores `val` as the offset.
    fn set_offset(&mut self, val: isize)
        ensures
            final(self).offset_of() == val,
            final(self).shape_seq() == old(self).shape_seq(),
            final(self).strides_seq() == old(self).strides_seq(),
            forall|ndim: nat| old(self).wf(ndim) ==> final(self).wf(ndim),
        no_unwind
    {
        match self {
            Content::Inline { offset, .. } => {
                *offset = val;
            },
            Content::Heap { offset, .. } => {
                *offset = val;
            },
        }
    }

    /// Stores `val` as the extent of axis `i`.
    fn set_shape(&mut self, ndim: Ghost<nat>, i: usize, val: usize)
        requires
            old(self).wf(ndim@),
            i < ndim@,
        ensures
            final(self).wf(ndim@),
            final(self).offset_of() == old(self).offset_of(),
            final(self).shape_seq() == old(self).shape_seq().update(i as int, val),
            final(self).strides_seq() == old(self).strides_seq(),
        no_unwind
    {
        match self {
            Content::Inline { shape, .. } => {
                shape[i] = val;
            },
            Content::Heap { shape, .. } => {
                shape[i] = val;
            },
        }
    }

    /// Stores `val` as the stride of axis `i`.
    fn set_stride(&mut self, ndim: Ghost<nat>, i: usize, val: isize)
        requires
            old(self).wf(ndim@),
            i < ndim@,
        ensures
            final(self).wf(ndim@),
            final(self).offset_of() == old(self).offset_of(),
            final(self).shape_seq() == old(self).shape_seq(),
            final(self).strides_seq() == old(self).strides_seq().update(i as int, val),
        no_unwind
    {
        match self {
            Content::Inline { strides, .. } => {
                strides[i] = val;
            },
            Content::Heap { strides, .. } => {
                strides[i] = val;
            },
        }
    }
}

/// A strided layout of up to `N` axes stored inline, more on the heap.
pub struct ArrayLayout<const N: usize> {
    ndim: usize,
    content: Content<N>,
}

impl<const N: usize> View for ArrayLayout<N> {
    type V = LayoutView;

    closed spec fn view(&self) -> LayoutView {
        LayoutView {
            offset: self.content.offset_of(),
            shape: Seq::new(self.ndim as nat, |i: int| self.content.shape_seq()[i]),
            strides: Seq::new(self.ndim as nat, |i: int| self.content.strides_seq()[i]),
        }
    }
}

impl<const N: usize> ArrayLayout<N> {
    /// The storage is the one that the number of axes selects.
    #[verifier::type_invariant]
    spec fn inv(&self) -> bool {
        self.content.wf(self.ndim as nat)
    }

    /// Shape and strides have one entry per axis.
    pub proof fn lemma_axes(&self)
        ensures
            self@.shape.len() == self@.strides.len(),
    {
    }

    /// A layout of `ndim` axes with every field zero, stored as `ndim` selects.
    pub(crate) fn with_ndim(ndim: usize) -> (r: Self)
        ensures
            r@.offset == 0,
            r@.shape == Seq::new(ndim as nat, |i: int| 0usize),
            r@.strides == Seq::new(ndim as nat, |i: int| 0isize),
    {
        if ndim <= N {
            let r = ArrayLayout { ndim, content: Content::Inline { offset: 0, shape: [0; N], strides: [0; N] } };
            assert(r@.shape =~= Seq::new(ndim as nat, |i: int| 0usize));
            assert(r@.strides =~= Seq::new(ndim as nat, |i: int| 0isize));
            r
        } else {
            let mut shape: Vec<usize> = Vec::with_capacity(ndim);
            let mut strides: Vec<isize> = Vec::with_capacity(ndim);
            let mut i: usize = 0;
            while i < ndim
                invariant
                    i <= ndim,
                    shape@ == Seq::new(i as nat, |k: int| 0usize),
                    strides@ == Seq::new(i as nat, |k: int| 0isize),
                decreases ndim - i,
            {
                shape.push(0);
                strides.push(0);
                i = i + 1;
                assert(shape@ =~= Seq::new(i as nat, |k: int| 0usize));
                assert(strides@ =~= Seq::new(i as nat, |k: int| 0isize));
            }
            let r = ArrayLayout { ndim, content: Content::Heap { offset: 0, shape, strides } };
            assert(r@.shape =~= shape@);
            assert(r@.strides =~= strides@);
            r
        }
    }

    /// Replaces the offset.
    pub(crate) fn set_offset(&mut self, val: isize)
        ensures
            final(self)@ == (LayoutView { offset: val, ..old(self)@ }),
    {
        proof {
            use_type_invariant(&*self);
        }
        self.content.set_offset(val);
        assert(self@.shape =~= old(self)@.shape);
        assert(self@.strides =~= old(self)@.strides);
    }

    /// Replaces the extent of axis `i`.
    pub(crate) fn set_shape(&mut self, i: usize, val: usize)
        requires
            i < old(self)@.shape.len(),
        ensures
            final(self)@ == (LayoutView { shape: old(self)@.shape.update(i as int, val), ..old(self)@ }),
    {
        proof {
            use_type_invariant(&*self);
        }
        self.content.set_shape(Ghost(self.ndim as nat), i, val);
        assert(self@.shape =~= old(self)@.shape.update(i as int, val));
        assert(self@.strides =~= old(self)@.strides);
    }

    /// Replaces the stride of axis `i`.
    pub(crate) fn set_stride(&mut self, i: usize, val: isize)
        requires
            i < old(self)@.shape.len(),
        ensures
            final(self)@ == (LayoutView { strides: old(self)@.strides.update(i as int, val), ..old(self)@ }),
    {
        proof {
            use_type_invariant(&*self);
        }
        self.content.set_stride(Ghost(self.ndim as nat), i, val);
        assert(self@.shape =~= old(self)@.shape);
        assert(self@.strides =~= old(self)@.strides.update(i as int, val));
    }
}


/// The stride that a contiguous layout gives axis `i`: `element_size` times
/// the extents of the axes that vary faster, which follow axis `i` in
/// big-endian order and precede it in little-endian order.
pub open spec fn contiguous_stride(shape: Seq<usize>, endian: Endian, element_size: usize, i: int) -> int {
    match endian {
        Endian::BigEndian => element_size * product(shape.subrange(i + 1, shape.len() as int)),
        Endian::LittleEndian => element_size * product(shape.take(i)),
    }
}

impl<const N: usize> ArrayLayout<N> {
    /// A layout with the given shape, strides and offset, copied verbatim.
    pub fn new(shape: &[usize], strides: &[isize], offset: isize) -> (r: Self)
        requires
            shape@.len() == strides@.len(),
        ensures
            r@ == (LayoutView { offset, shape: shape@, strides: strides@ }),
    {
        let mut ans = Self::with_ndim(shape.len());
        ans.set_offset(offset);
        let mut i: usize = 0;
        while i < shape.len()
            invariant
                i <= shape@.len() == strides@.len() == ans@.shape.len(),
                ans@.offset == offset,
                ans@.shape == shape@.take(i as int) + Seq::new((shape@.len() - i) as nat, |k: int| 0usize),
                ans@.strides == strides@.take(i as int) + Seq::new((shape@.len() - i) as nat, |k: int| 0isize),
            decreases shape@.len() - i,
        {
            ans.set_shape(i, shape[i]);
            ans.set_stride(i, strides[i]);
            i = i + 1;
            assert(ans@.shape =~= shape@.take(i as int) + Seq::new((shape@.len() - i) as nat, |k: int| 0usize));
            assert(ans@.strides =~= strides@.take(i as int) + Seq::new((shape@.len() - i) as nat, |k: int| 0isize));
        }
        assert(ans@.shape =~= shape@);
        assert(ans@.strides =~= strides@);
        ans
    }

    /// A contiguous layout of the given shape at offset 0, whose strides are
    /// running products of `element_size` and the extents, taken from the last
    /// axis for big-endian order and from the first for little-endian order.
    pub fn new_contiguous(shape: &[usize], endian: Endian, element_size: usize) -> (r: Self)
        requires
            forall|i: int| 0 <= i < shape@.len() ==> fits_isize(#[trigger] contiguous_stride(shape@, endian, element_size, i)),
        ensures
            r@.offset == 0,
            r@.shape == shape@,
            r@.strides.len() == shape@.len(),
            forall|i: int| 0 <= i < shape@.len() ==> r@.strides[i] == contiguous_stride(shape@, endian, element_size, i),
    {
        let n = shape.len();
        let mut ans = Self::with_ndim(n);
        let mut i: usize = 0;
        while i < n
            invariant
                n == shape@.len() == ans@.shape.len(),
                i <= n,
                ans@.offset == 0,
                ans@.shape == shape@.take(i as int) + Seq::new((n - i) as nat, |k: int| 0usize),
                ans@.strides.len() == n,
            decreases n - i,
        {
            ans.set_shape(i, shape[i]);
            i = i + 1;
            assert(ans@.shape =~= shape@.take(i as int) + Seq::new((n - i) as nat, |k: int| 0usize));
        }
        assert(ans@.shape =~= shape@);
        if n > 0 {
            proof {
                assert(product(shape@.subrange(n as int, n as int)) == 1);
                assert(product(shape@.take(0)) == 1);
                let k: int = if endian == Endian::BigEndian { n - 1 } else { 0 };
                assert(contiguous_stride(shape@, endian, element_size, k) == element_size);
            }
            let mut mul: isize = element_size as isize;
            match endian {
                Endian::BigEndian => {
                    let mut i: usize = n;
                    while i > 0
                        invariant
                            n == shape@.len() == ans@.shape.len(),
                            i <= n,
                            endian == Endian::BigEndian,
                            ans@.offset == 0,
                            ans@.shape == shape@,
                            ans@.strides.len() == n,
                            i > 0 ==> mul == contiguous_stride(shape@, endian, element_size, i - 1),
                            forall|k: int| i <= k < n ==> ans@.strides[k] == contiguous_stride(shape@, endian, element_size, k),
                            forall|k: int| 0 <= k < shape@.len() ==> fits_isize(#[trigger] contiguous_stride(shape@, endian, element_size, k)),
                        decreases i,
                    {
                        let j = i - 1;
                        ans.set_stride(j, mul);
                        if j > 0 {
                            proof {
                                lemma_product_first(shape@.subrange(j as int, n as int));
                                assert(shape@.subrange(j as int, n as int).drop_first() =~= shape@.subrange(j + 1, n as int));
                                let rest = product(shape@.subrange(j + 1, n as int));
                                assert(product(shape@.subrange(j as int, n as int)) == shape@[j as int] * rest);
                                assert(mul == element_size * rest);
                                assert(element_size * (shape@[j as int] * rest) == (element_size * rest) * shape@[j as int]) by (nonlinear_arith);
                                assert(contiguous_stride(shape@, endian, element_size, j - 1) == element_size * (shape@[j as int] * rest));
                            }
                            mul = scale_stride(mul, shape[j], Ghost(contiguous_stride(shape@, endian, element_size, j - 1)));
                        }
                        i = j;
                    }
                },
                Endian::LittleEndian => {
                    let mut i: usize = 0;
                    while i < n
                        invariant
                            n == shape@.len() == ans@.shape.len(),
                            i <= n,
                            endian == Endian::LittleEndian,
                            ans@.offset == 0,
                            ans@.shape == shape@,
                            ans@.strides.len() == n,
                            i < n ==> mul == contiguous_stride(shape@, endian, element_size, i as int),
                            forall|k: int| 0 <= k < i ==> ans@.strides[k] == contiguous_stride(shape@, endian, element_size, k),
                            forall|k: int| 0 <= k < shape@.len() ==> fits_isize(#[trigger] contiguous_stride(shape@, endian, element_size, k)),
                        decreases n - i,
                    {
                        ans.set_stride(i, mul);
                        if i + 1 < n {
                            proof {
                                lemma_product_take_next(shape@, i as int);
                                let before = product(shape@.take(i as int));
                                assert(mul == element_size * before);
                                assert(element_size * (before * shape@[i as int]) == (element_size * before) * shape@[i as int]) by (nonlinear_arith);
                                assert(contiguous_stride(shape@, endian, element_size, i + 1) == element_size * (before * shape@[i as int]));
                            }
                            mul = scale_stride(mul, shape[i], Ghost(contiguous_stride(shape@, endian, element_size, i + 1)));
                        }
                        i = i + 1;
                    }
                },
            }
        }
        ans
    }
}

impl<const N: usize> ArrayLayout<N> {
    /// The number of axes.
    pub fn ndim(&self) -> (r: usize)
        ensures
            r == self@.shape.len(),
            r == self@.strides.len(),
    {
        self.ndim
    }

    /// The offset of the first element.
    pub fn offset(&self) -> (r: isize)
        ensures
            r == self@.offset,
    {
        match &self.content {
            Content::Inline { offset, .. } => *offset,
            Content::Heap { offset, .. } => *offset,
        }
    }

    /// The extent of each axis.
    pub fn shape(&self) -> (r: &[usize])
        ensures
            r@ == self@.shape,
    {
        proof {
            use_type_invariant(self);
        }
        match &self.content {
            Content::Inline { shape, .. } => {
                let r = shape.as_slice().split_at(self.ndim).0;
                assert(r@ =~= self@.shape);
                r
            },
            Content::Heap { shape, .. } => {
                let r = shape.as_slice();
                assert(r@ =~= self@.shape);
                r
            },
        }
    }

    /// The step of each axis.
    pub fn strides(&self) -> (r: &[isize])
        ensures
            r@ == self@.strides,
    {
        proof {
            use_type_invariant(self);
        }
        match &self.content {
            Content::Inline { strides, .. } => {
                let r = strides.as_slice().split_at(self.ndim).0;
                assert(r@ =~= self@.strides);
                r
            },
            Content::Heap { strides, .. } => {
                let r = strides.as_slice();
                assert(r@ =~= self@.strides);
                r
            },
        }
    }

    /// The same layout, stored with inline capacity `M`.
    pub fn to_inline_size<const M: usize>(&self) -> (r: ArrayLayout<M>)
        ensures
            r@ == self@,
    {
        ArrayLayout::new(self.shape(), self.strides(), self.offset())
    }

    /// The number of elements: the product of the extents.
    pub fn num_elements(&self) -> (r: usize)
        requires
            product(self@.shape) <= usize::MAX,
        ensures
            r == product(self@.shape),
    {
        let shape = self.shape();
        let mut i: usize = 0;
        while i < shape.len()
            invariant
                shape@ == self@.shape,
                i <= shape@.len(),
                forall|k: int| 0 <= k < i ==> shape@[k] != 0,
            decreases shape@.len() - i,
        {
            if shape[i] == 0 {
                proof {
                    lemma_product_zero(shape@, i as int);
                }
                return 0;
            }
            i = i + 1;
        }
        let mut ans: usize = 1;
        let mut i: usize = 0;
        while i < shape.len()
            invariant
                shape@ == self@.shape,
                i <= shape@.len(),
                forall|k: int| 0 <= k < shape@.len() ==> shape@[k] != 0,
                product(shape@) <= usize::MAX,
                ans == product(shape@.take(i as int)),
            decreases shape@.len() - i,
        {
            proof {
                lemma_product_take_next(shape@, i as int);
                lemma_product_prefix_le(shape@, i + 1);
            }
            ans = ans * shape[i];
            i = i + 1;
        }
        assert(shape@.take(i as int) =~= shape@);
        ans
    }
}

impl<const N: usize> Clone for ArrayLayout<N> {
    /// A copy holding the same offset, shape and strides.
    fn clone(&self) -> (r: Self)
        ensures
            r@ == self@,
    {
        ArrayLayout::new(self.shape(), self.strides(), self.offset())
    }
}

impl<const N: usize> PartialEq for ArrayLayout<N> {
    /// Equal when the offsets, shapes and strides are.
    fn eq(&self, other: &Self) -> (r: bool) {
        if self.ndim != other.ndim || self.offset() != other.offset() {
            return false;
        }
        let (a, b) = (self.shape(), other.shape());
        let (c, d) = (self.strides(), other.strides());
        let mut i: usize = 0;
        while i < self.ndim
            invariant
                i <= self.ndim == other.ndim,
                a@ == self@.shape,
                b@ == other@.shape,
                c@ == self@.strides,
                d@ == other@.strides,
                a@.len() == b@.len() == c@.len() == d@.len() == self.ndim,
                a@.take(i as int) == b@.take(i as int),
                c@.take(i as int) == d@.take(i as int),
            decreases self.ndim - i,
        {
            if a[i] != b[i] || c[i] != d[i] {
                assert(self@.shape[i as int] != other@.shape[i as int] || self@.strides[i as int] != other@.strides[i as int]);
                return false;
            }
            i = i + 1;
            assert(a@.take(i as int) =~= b@.take(i as int));
            assert(c@.take(i as int) =~= d@.take(i as int));
        }
        assert(a@ =~= a@.take(i as int));
        assert(b@ =~= b@.take(i as int));
        assert(c@ =~= c@.take(i as int));
        assert(d@ =~= d@.take(i as int));
        true
    }
}

impl<const N: usize> vstd::std_specs::cmp::PartialEqSpecImpl for ArrayLayout<N> {
    open spec fn obeys_eq_spec() -> bool {
        true
    }

    open spec fn eq_spec(&self, other: &ArrayLayout<N>) -> bool {
        self@ == other@
    }
}

impl<const N: usize> Eq for ArrayLayout<N> {
}

/// `s` listed in the order in which `endian` visits the axes when it
/// decomposes a flat index: from the last axis for big-endian order, from the
/// first for little-endian order.
pub open spec fn visit_order<T>(s: Seq<T>, endian: Endian) -> Seq<T> {
    match endian {
        Endian::BigEndian => s.reverse(),
        Endian::LittleEndian => s,
    }
}

/// What the `k`-th axis in visiting order adds to the offset of element
/// `index`: its stride times its coordinate, which is the flat index divided
/// by the extents visited before it, modulo its own extent.
pub open spec fn element_terms(v: LayoutView, index: usize, endian: Endian) -> Seq<int> {
    let dims = visit_order(v.shape, endian);
    let steps = visit_order(v.strides, endian);
    Seq::new(dims.len(), |k: int| steps[k] * ((index as int / product(dims.take(k))) % (dims[k] as int)))
}

/// What each axis adds to one end of the addressed range: its stride times
/// its extent less one, on the upper end where the stride is positive and on
/// the lower end where it is negative.
pub open spec fn extent_terms(v: LayoutView, upper: bool) -> Seq<int> {
    Seq::new(
        v.shape.len(),
        |k: int|
            if (upper && v.strides[k] > 0) || (!upper && v.strides[k] < 0) {
                v.strides[k] * (v.shape[k] - 1)
            } else {
                0
            },
    )
}

impl<const N: usize> ArrayLayout<N> {
    /// The offset of the element at flat position `index`, the axes being
    /// visited in the order that `endian` gives.
    pub fn element_offset(&self, index: usize, endian: Endian) -> (r: isize)
        requires
            forall|i: int| 0 <= i < self@.shape.len() ==> self@.shape[i] > 0,
            forall|k: int| 0 <= k < self@.shape.len() ==> fits_isize(#[trigger] element_terms(self@, index, endian)[k]),
            running_sums_fit(0, element_terms(self@, index, endian)),
            fits_isize(self@.offset + sum(element_terms(self@, index, endian))),
        ensures
            r == self@.offset + sum(element_terms(self@, index, endian)),
    {
        let shape = self.shape();
        let strides = self.strides();
        let n = self.ndim;
        let ghost terms = element_terms(self@, index, endian);
        let ghost dims = visit_order(self@.shape, endian);
        let ghost steps = visit_order(self@.strides, endian);
        assert(dims.len() == n && steps.len() == n);
        assert forall|i: int| 0 <= i < n implies dims[i] != 0 by {
            if endian == Endian::BigEndian {
                assert(dims[i] == shape@[n - 1 - i]);
            }
        }
        let mut rem: usize = index;
        let mut ans: isize = 0;
        let mut k: usize = 0;
        while k < n
            invariant
                n == shape@.len() == strides@.len() == dims.len() == steps.len() == terms.len(),
                shape@ == self@.shape,
                strides@ == self@.strides,
                dims == visit_order(self@.shape, endian),
                steps == visit_order(self@.strides, endian),
                terms == element_terms(self@, index, endian),
                forall|i: int| 0 <= i < n ==> dims[i] != 0,
                forall|i: int| 0 <= i < n ==> fits_isize(#[trigger] terms[i]),
                running_sums_fit(0, terms),
                k <= n,
                rem == index as int / product(dims.take(k as int)),
                ans == sum(terms.take(k as int)),
            decreases n - k,
        {
            let axis = match endian {
                Endian::BigEndian => n - 1 - k,
                Endian::LittleEndian => k,
            };
            let d = shape[axis];
            let s = strides[axis];
            assert(d == dims[k as int] && s == steps[k as int]);
            let ghost p = product(dims.take(k as int));
            proof {
                lemma_product_prefix_le(dims, k as int);
                lemma_product_take_next(dims, k as int);
                lemma_sum_take_next(terms, k as int);
                vstd::arithmetic::div_mod::lemma_div_denominator(index as int, p, d as int);
                assert(terms[k as int] == s * (rem % d));
                assert(fits_isize(0 + sum(terms.take(k + 1))));
            }
            let term = scale_stride(s, rem % d, Ghost(terms[k as int]));
            ans = ans + term;
            rem = rem / d;
            k = k + 1;
        }
        assert(terms.take(n as int) =~= terms);
        self.offset() + ans
    }

    /// The least and the greatest position that the layout addresses.
    pub fn data_range(&self) -> (r: std::ops::RangeInclusive<isize>)
        requires
            forall|k: int| 0 <= k < self@.shape.len() ==> fits_isize(#[trigger] self@.strides[k] * (self@.shape[k] - 1)),
            running_sums_fit(self@.offset as int, extent_terms(self@, false)),
            running_sums_fit(self@.offset as int, extent_terms(self@, true)),
        ensures
            r@.start == self@.offset + sum(extent_terms(self@, false)),
            r@.end == self@.offset + sum(extent_terms(self@, true)),
            !r@.exhausted,
    {
        let shape = self.shape();
        let strides = self.strides();
        let n = self.ndim;
        let ghost lower = extent_terms(self@, false);
        let ghost upper = extent_terms(self@, true);
        let offset = self.offset();
        let mut start: isize = offset;
        let mut end: isize = offset;
        let mut k: usize = 0;
        while k < n
            invariant
                n == shape@.len() == strides@.len() == lower.len() == upper.len(),
                shape@ == self@.shape,
                strides@ == self@.strides,
                offset == self@.offset,
                lower == extent_terms(self@, false),
                upper == extent_terms(self@, true),
                forall|i: int| 0 <= i < n ==> fits_isize(#[trigger] self@.strides[i] * (self@.shape[i] - 1)),
                running_sums_fit(offset as int, lower),
                running_sums_fit(offset as int, upper),
                k <= n,
                start == offset + sum(lower.take(k as int)),
                end == offset + sum(upper.take(k as int)),
            decreases n - k,
        {
            let d = shape[k];
            let s = strides[k];
            proof {
                lemma_sum_take_next(lower, k as int);
                lemma_sum_take_next(upper, k as int);
                assert(fits_isize(offset + sum(lower.take(k + 1))));
                assert(fits_isize(offset + sum(upper.take(k + 1))));
                assert(fits_isize(self@.strides[k as int] * (self@.shape[k as int] - 1)));
                assert(s == self@.strides[k as int] && d == self@.shape[k as int]);
                assert(lower[k as int] == if s < 0 { s * (d - 1) } else { 0 });
                assert(upper[k as int] == if s > 0 { s * (d - 1) } else { 0 });
            }
            if s != 0 {
                let term = if d == 0 {
                    assert(s * (d - 1) == -s) by (nonlinear_arith)
                        requires
                            d == 0,
                    ;
                    0 - s
                } else {
                    scale_stride(s, d - 1, Ghost(s * (d - 1)))
                };
                if s < 0 {
                    start = start + term;
                } else {
                    end = end + term;
                }
            }
            k = k + 1;
        }
        assert(lower.take(n as int) =~= lower);
        assert(upper.take(n as int) =~= upper);
        std::ops::RangeInclusive::new(start, end)
    }
}

/// `stride * extent`, where that product is known to be `next`, a machine word.
pub(crate) fn scale_stride(stride: isize, extent: usize, next: Ghost<int>) -> (r: isize)
    requires
        next@ == stride * extent,
        fits_isize(next@),
    ensures
        r == next@,
{
    assert(-0x8000_0000_0000_0000 <= stride <= 0x7fff_ffff_ffff_ffff);
    assert(0 <= extent <= 0xffff_ffff_ffff_ffff);
    assert(-0x8000_0000_0000_0000_0000_0000_0000_0000 < stride * extent < 0x8000_0000_0000_0000_0000_0000_0000_0000) by (nonlinear_arith)
        requires
            -0x8000_0000_0000_0000 <= stride <= 0x7fff_ffff_ffff_ffff,
            0 <= extent <= 0xffff_ffff_ffff_ffff,
    ;
    ((stride as i128) * (extent as i128)) as isize
}

} // verus!
