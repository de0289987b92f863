//! Properties that relate several operations on layouts.
use vstd::prelude::*;
use vstd::std_specs::cmp::PartialEqSpec;
use crate::layout::{ArrayLayout, LayoutView};

verus! {

/// A layout built from a shape, strides and an offset of matching lengths
/// reports them back unchanged, with one axis per shape entry: `l` stands for
/// what `ArrayLayout::new` returns, and `shape`, `strides`, `offset` and
/// `ndim` report its view.
pub proof fn law_new_reports_inputs<const N: usize>(
    shape: Seq<usize>,
    strides: Seq<isize>,
    offset: isize,
    l: ArrayLayout<N>,
)
    requires
        shape.len() == strides.len(),
        l@ == (LayoutView { offset, shape, strides }),
    ensures
        l@.shape == shape,
        l@.strides == strides,
        l@.offset == offset,
        l@.shape.len() == shape.len(),
{
}

/// A clone compares equal to its original, both ways: `c` stands for what
/// `clone` returns on `l`.
pub proof fn law_clone_equals<const N: usize>(l: ArrayLayout<N>, c: ArrayLayout<N>)
    requires
        c@ == l@,
    ensures
        l.eq_spec(&c),
        c.eq_spec(&l),
{
}

/// Moving a layout to another inline capacity keeps its shape, strides and
/// offset, and moving it back gives a layout equal to the first: `m` stands
/// for what `to_inline_size::<M>` returns on `l`, and `b` for what
/// `to_inline_size::<N>` returns on `m`.
pub proof fn law_inline_size_round_trip<const N: usize, const M: usize>(
    l: ArrayLayout<N>,
    m: ArrayLayout<M>,
    b: ArrayLayout<N>,
)
    requires
        m@ == l@,
        b@ == m@,
    ensures
        m@.shape == l@.shape,
        m@.strides == l@.strides,
        m@.offset == l@.offset,
        b.eq_spec(&l),
{
}

} // verus!
