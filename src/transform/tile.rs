//! Splitting axes into several axes.
use vstd::prelude::*;
use crate::arith::{fits_isize, lemma_product_first, lemma_product_take_next, product};
use crate::layout::{scale_stride, ArrayLayout, Endian, LayoutView};
use crate::transform::merge::{axes_between, axis_pair, extents, steps};

verus! {

/// Splits axis `axis` into axes of extents `tiles`, ordered as `endian` says.
#[derive(Clone, PartialEq, Eq, Debug)]
pub struct TileArg<'a> {
    pub axis: usize,
    pub endian: Endian,
    pub tiles: &'a [usize],
}

/// The stride of the `t`-th tile of an axis of stride `s`: `s` times the
/// tiles that vary faster, which follow it in big-endian order and precede it
/// in little-endian order.
pub open spec fn tile_stride(s: isize, tiles: Seq<usize>, endian: Endian, t: int) -> int {
    match endian {
        Endian::BigEndian => s * product(tiles.subrange(t + 1, tiles.len() as int)),
        Endian::LittleEndian => s * product(tiles.take(t)),
    }
}

/// The axes that tiling axis `a.axis` of `v` gives.
pub open spec fn tiled_axes(v: LayoutView, a: TileArg) -> Seq<(usize, isize)> {
    Seq::new(
        a.tiles@.len(),
        |t: int| (a.tiles@[t], tile_stride(v.strides[a.axis as int], a.tiles@, a.endian, t) as isize),
    )
}

/// The axes that the first `k` arguments produce, and the axis after the last
/// one tiled.
pub open spec fn tile_walk(v: LayoutView, args: Seq<TileArg>, k: int) -> (Seq<(usize, isize)>, int)
    decreases k,
{
    if k <= 0 {
        (Seq::empty(), 0)
    } else {
        let (out, last) = tile_walk(v, args, k - 1);
        let a = args[k - 1];
        (out + axes_between(v, last, a.axis as int) + tiled_axes(v, a), a.axis + 1)
    }
}

/// The layout that tiling the axes of `args` gives.
pub open spec fn tile_view(v: LayoutView, args: Seq<TileArg>) -> LayoutView {
    let (out, last) = tile_walk(v, args, args.len() as int);
    let all = out + axes_between(v, last, v.shape.len() as int);
    LayoutView { offset: v.offset, shape: extents(all), strides: steps(all) }
}

/// The layout that tiling the one axis of `a` gives: that axis replaced by
/// its tiles.
pub open spec fn tile_one(v: LayoutView, a: TileArg) -> LayoutView {
    let tiled = tiled_axes(v, a);
    LayoutView {
        offset: v.offset,
        shape: v.shape.take(a.axis as int) + extents(tiled) + v.shape.skip(a.axis + 1),
        strides: v.strides.take(a.axis as int) + steps(tiled) + v.strides.skip(a.axis + 1),
    }
}

/// Tiling one axis by the general walk gives the closed form.
proof fn lemma_tile_one(v: LayoutView, a: TileArg)
    requires
        v.shape.len() == v.strides.len(),
        a.axis < v.shape.len(),
    ensures
        tile_view(v, seq![a]) == tile_one(v, a),
{
    let args = seq![a];
    let n = v.shape.len() as int;
    assert(tile_walk(v, args, 0) == (Seq::<(usize, isize)>::empty(), 0int));
    let all = Seq::<(usize, isize)>::empty() + axes_between(v, 0, a.axis as int) + tiled_axes(v, a)
        + axes_between(v, a.axis + 1, n);
    let w = tile_one(v, a);
    assert(extents(all) =~= w.shape);
    assert(steps(all) =~= w.strides);
}

/// Whether `args` name existing axes in strictly ascending order, each split
/// into tiles whose product is its extent, with strides that are machine words.
pub open spec fn tile_args_valid(v: LayoutView, args: Seq<TileArg>) -> bool {
    &&& forall|k: int| 0 <= k < args.len() ==> {
        let a = #[trigger] args[k];
        &&& a.axis < v.shape.len()
        &&& product(a.tiles@) == v.shape[a.axis as int]
        &&& forall|t: int| 0 <= t < a.tiles@.len() ==> fits_isize(#[trigger] tile_stride(v.strides[a.axis as int], a.tiles@, a.endian, t))
    }
    &&& forall|k1: int, k2: int| 0 <= k1 < k2 < args.len() ==> args[k1].axis < args[k2].axis
}

/// The strides of the tiles of an axis of stride `s`.
fn tile_strides(s: isize, tiles: &[usize], endian: Endian) -> (r: Vec<isize>)
    requires
        forall|t: int| 0 <= t < tiles@.len() ==> fits_isize(#[trigger] tile_stride(s, tiles@, endian, t)),
    ensures
        r@.len() == tiles@.len(),
        forall|t: int| 0 <= t < tiles@.len() ==> r@[t] == tile_stride(s, tiles@, endian, t),
{
    let m = tiles.len();
    let mut r: Vec<isize> = Vec::new();
    let mut i: usize = 0;
    while i < m
        invariant
            m == tiles@.len(),
            i <= m,
            r@.len() == i,
        decreases m - i,
    {
        r.push(0);
        i = i + 1;
    }
    if m == 0 {
        return r;
    }
    proof {
        assert(product(tiles@.subrange(m as int, m as int)) == 1);
        assert(product(tiles@.take(0)) == 1);
        let k: int = if endian == Endian::BigEndian { m - 1 } else { 0 };
        assert(tile_stride(s, tiles@, endian, k) == s);
    }
    let mut mul: isize = s;
    match endian {
        Endian::BigEndian => {
            let mut i: usize = m;
            while i > 0
                invariant
                    m == tiles@.len() == r@.len(),
                    i <= m,
                    endian == Endian::BigEndian,
                    i > 0 ==> mul == tile_stride(s, tiles@, endian, i - 1),
                    forall|k: int| i <= k < m ==> r@[k] == tile_stride(s, tiles@, endian, k),
                    forall|k: int| 0 <= k < m ==> fits_isize(#[trigger] tile_stride(s, tiles@, endian, k)),
                decreases i,
            {
                let j = i - 1;
                r.set(j, mul);
                if j > 0 {
                    proof {
                        lemma_product_first(tiles@.subrange(j as int, m as int));
                        assert(tiles@.subrange(j as int, m as int).drop_first() =~= tiles@.subrange(j + 1, m as int));
                        let rest = product(tiles@.subrange(j + 1, m as int));
                        assert(s * (tiles@[j as int] * rest) == (s * rest) * tiles@[j as int]) by (nonlinear_arith);
                        assert(tile_stride(s, tiles@, endian, j - 1) == s * (tiles@[j as int] * rest));
                    }
                    mul = scale_stride(mul, tiles[j], Ghost(tile_stride(s, tiles@, endian, j - 1)));
                }
                i = j;
            }
        },
        Endian::LittleEndian => {
            let mut i: usize = 0;
            while i < m
                invariant
                    m == tiles@.len() == r@.len(),
                    i <= m,
                    endian == Endian::LittleEndian,
                    i < m ==> mul == tile_stride(s, tiles@, endian, i as int),
                    forall|k: int| 0 <= k < i ==> r@[k] == tile_stride(s, tiles@, endian, k),
                    forall|k: int| 0 <= k < m ==> fits_isize(#[trigger] tile_stride(s, tiles@, endian, k)),
                decreases m - i,
            {
                r.set(i, mul);
                if i + 1 < m {
                    proof {
                        lemma_product_take_next(tiles@, i as int);
                        let before = product(tiles@.take(i as int));
                        assert(s * (before * tiles@[i as int]) == (s * before) * tiles@[i as int]) by (nonlinear_arith);
                        assert(tile_stride(s, tiles@, endian, i + 1) == s * (before * tiles@[i as int]));
                    }
                    mul = scale_stride(mul, tiles[i], Ghost(tile_stride(s, tiles@, endian, i + 1)));
                }
                i = i + 1;
            }
        },
    }
    r
}

impl<const N: usize> ArrayLayout<N> {
    /// Splits axis `axis` into axes of extents `tiles`, the earlier tiles
    /// varying slower.
    pub fn tile_be(&self, axis: usize, tiles: &[usize]) -> (r: Self)
        requires
            tile_args_valid(self@, seq![TileArg { axis, endian: Endian::BigEndian, tiles }]),
        ensures
            r@ == tile_one(self@, TileArg { axis, endian: Endian::BigEndian, tiles }),
    {
        let args = [TileArg { axis, endian: Endian::BigEndian, tiles }];
        assert(args@ =~= seq![TileArg { axis, endian: Endian::BigEndian, tiles }]);
        proof {
            self.lemma_axes();
            lemma_tile_one(self@, args@[0]);
        }
        self.tile_many(args.as_slice())
    }

    /// Splits axis `axis` into axes of extents `tiles`, the earlier tiles
    /// varying faster.
    pub fn tile_le(&self, axis: usize, tiles: &[usize]) -> (r: Self)
        requires
            tile_args_valid(self@, seq![TileArg { axis, endian: Endian::LittleEndian, tiles }]),
        ensures
            r@ == tile_one(self@, TileArg { axis, endian: Endian::LittleEndian, tiles }),
    {
        let args = [TileArg { axis, endian: Endian::LittleEndian, tiles }];
        assert(args@ =~= seq![TileArg { axis, endian: Endian::LittleEndian, tiles }]);
        proof {
            self.lemma_axes();
            lemma_tile_one(self@, args@[0]);
        }
        self.tile_many(args.as_slice())
    }

    /// Splits each axis that `args` name into its tiles; other axes stay as
    /// they are.
    pub fn tile_many(&self, args: &[TileArg]) -> (r: Self)
        requires
            tile_args_valid(self@, args@),
        ensures
            r@ == tile_view(self@, args@),
    {
        let ghost v = self@;
        proof {
            self.lemma_axes();
        }
        let shape = self.shape();
        let strides = self.strides();
        let n = self.ndim();
        let mut out_shape: Vec<usize> = Vec::new();
        let mut out_strides: Vec<isize> = Vec::new();
        let ghost mut out: Seq<(usize, isize)> = Seq::empty();
        let mut last: usize = 0;
        let mut k: usize = 0;
        while k < args.len()
            invariant
                v == self@,
                n == shape@.len() == strides@.len(),
                shape@ == v.shape,
                strides@ == v.strides,
                tile_args_valid(v, args@),
                k <= args@.len(),
                last <= n,
                tile_walk(v, args@, k as int) == (out, last as int),
                out_shape@ == extents(out),
                out_strides@ == steps(out),
                forall|q: int| k <= q < args@.len() ==> last <= #[trigger] args@[q].axis,
            decreases args@.len() - k,
        {
            let a = &args[k];
            assert(tile_args_valid(v, args@) && args@[k as int] == *a);
            let ghost before = out;
            let mut j: usize = last;
            while j < a.axis
                invariant
                    n == shape@.len() == strides@.len(),
                    shape@ == v.shape,
                    strides@ == v.strides,
                    last <= j <= a.axis < n,
                    out == before + axes_between(v, last as int, j as int),
                    out_shape@ == extents(out),
                    out_strides@ == steps(out),
                decreases a.axis - j,
            {
                out_shape.push(shape[j]);
                out_strides.push(strides[j]);
                proof {
                    out = out.push(axis_pair(v, j as int));
                    assert(before + axes_between(v, last as int, j + 1) =~= out);
                    assert(out_shape@ =~= extents(out));
                    assert(out_strides@ =~= steps(out));
                }
                j = j + 1;
            }
            let st = tile_strides(strides[a.axis], a.tiles, a.endian);
            let ghost mid = out;
            let mut t: usize = 0;
            while t < a.tiles.len()
                invariant
                    st@.len() == a.tiles@.len(),
                    a.axis < n == strides@.len(),
                    strides@ == v.strides,
                    forall|q: int| 0 <= q < a.tiles@.len() ==> st@[q] == tile_stride(v.strides[a.axis as int], a.tiles@, a.endian, q),
                    t <= a.tiles@.len(),
                    out == mid + tiled_axes(v, *a).take(t as int),
                    out_shape@ == extents(out),
                    out_strides@ == steps(out),
                decreases a.tiles@.len() - t,
            {
                out_shape.push(a.tiles[t]);
                out_strides.push(st[t]);
                proof {
                    out = out.push((a.tiles@[t as int], st@[t as int]));
                    assert(mid + tiled_axes(v, *a).take(t + 1) =~= out);
                    assert(out_shape@ =~= extents(out));
                    assert(out_strides@ =~= steps(out));
                }
                t = t + 1;
            }
            assert(tiled_axes(v, *a).take(t as int) =~= tiled_axes(v, *a));
            last = a.axis + 1;
            assert forall|q: int| k + 1 <= q < args@.len() implies last <= #[trigger] args@[q].axis by {
                assert(args@[k as int].axis < args@[q].axis);
            }
            k = k + 1;
        }
        let ghost before = out;
        let mut j: usize = last;
        while j < n
            invariant
                n == shape@.len() == strides@.len(),
                shape@ == v.shape,
                strides@ == v.strides,
                last <= j <= n,
                out == before + axes_between(v, last as int, j as int),
                out_shape@ == extents(out),
                out_strides@ == steps(out),
            decreases n - j,
        {
            out_shape.push(shape[j]);
            out_strides.push(strides[j]);
            proof {
                out = out.push(axis_pair(v, j as int));
                assert(before + axes_between(v, last as int, j + 1) =~= out);
                assert(out_shape@ =~= extents(out));
                assert(out_strides@ =~= steps(out));
            }
            j = j + 1;
        }
        Self::new(out_shape.as_slice(), out_strides.as_slice(), self.offset())
    }
}

} // verus!
