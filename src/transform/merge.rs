//! Fusing runs of axes into one axis.
use vstd::prelude::*;
use crate::arith::{lemma_product_prefix_le, lemma_product_take_next, product};
use crate::layout::{ArrayLayout, Endian, LayoutView};

verus! {

/// Fuses the `len` axes from `start` on, ordered as `endian` says, or by
/// stride alone when `endian` is `None`.
#[derive(Clone, PartialEq, Eq, Debug, Structural)]
pub struct MergeArg {
    pub start: usize,
    pub len: usize,
    pub endian: Option<Endian>,
}

/// Axis `i` of `v` as an (extent, stride) pair.
pub open spec fn axis_pair(v: LayoutView, i: int) -> (usize, isize) {
    (v.shape[i], v.strides[i])
}

/// The pairs of the axes in `[lo, hi)` whose extent is not one, in ascending
/// axis order.
pub open spec fn pairs_ascending(v: LayoutView, lo: int, hi: int) -> Seq<(usize, isize)>
    decreases hi - lo,
{
    if hi <= lo {
        Seq::empty()
    } else if v.shape[hi - 1] == 1 {
        pairs_ascending(v, lo, hi - 1)
    } else {
        pairs_ascending(v, lo, hi - 1).push(axis_pair(v, hi - 1))
    }
}

/// The pairs of the axes in `[lo, hi)` whose extent is not one, in descending
/// axis order.
pub open spec fn pairs_descending(v: LayoutView, lo: int, hi: int) -> Seq<(usize, isize)>
    decreases hi - lo,
{
    if hi <= lo {
        Seq::empty()
    } else if v.shape[lo] == 1 {
        pairs_descending(v, lo + 1, hi)
    } else {
        pairs_descending(v, lo + 1, hi).push(axis_pair(v, lo))
    }
}

/// The absolute value of a pair's stride.
pub open spec fn abs_stride(p: (usize, isize)) -> int {
    if p.1 < 0 {
        -(p.1 as int)
    } else {
        p.1 as int
    }
}

/// The first position from `i` on in `s` whose absolute stride exceeds `key`
/// (the length of `s` when there is none).
pub open spec fn insert_pos(s: Seq<(usize, isize)>, key: int, i: int) -> int
    decreases s.len() - i,
{
    if i >= s.len() || abs_stride(s[i]) > key {
        i
    } else {
        insert_pos(s, key, i + 1)
    }
}

/// `p` sorted by ascending absolute stride; pairs of equal absolute stride
/// keep their order.
pub open spec fn sort_by_abs_stride(p: Seq<(usize, isize)>) -> Seq<(usize, isize)>
    decreases p.len(),
{
    if p.len() == 0 {
        p
    } else {
        let s = sort_by_abs_stride(p.drop_last());
        s.insert(insert_pos(s, abs_stride(p.last()), 0), p.last())
    }
}

/// The pairs that `a` fuses, in the order in which they are fused: the axis
/// order reversed for big-endian, kept for little-endian, and by ascending
/// absolute stride without an endian.
pub open spec fn merge_order(v: LayoutView, a: MergeArg) -> Seq<(usize, isize)> {
    let lo = a.start as int;
    let hi = a.start + a.len;
    match a.endian {
        Some(Endian::BigEndian) => pairs_descending(v, lo, hi),
        Some(Endian::LittleEndian) => pairs_ascending(v, lo, hi),
        None => sort_by_abs_stride(pairs_ascending(v, lo, hi)),
    }
}

/// The extents of a sequence of pairs.
pub open spec fn extents(p: Seq<(usize, isize)>) -> Seq<usize> {
    p.map_values(|q: (usize, isize)| q.0)
}

/// The strides of a sequence of pairs.
pub open spec fn steps(p: Seq<(usize, isize)>) -> Seq<isize> {
    p.map_values(|q: (usize, isize)| q.1)
}

/// Whether each pair's stride is the first stride times the extents of the
/// pairs before it, so that the pairs make one evenly strided run.
pub open spec fn contiguous(o: Seq<(usize, isize)>) -> bool {
    forall|k: int| 1 <= k < o.len() ==> #[trigger] o[k].1 == o[0].1 * product(extents(o.take(k)))
}

/// The axis that fusing the range of `a` gives, if it can be fused: none when
/// an axis of the range is empty or the run is not contiguous; extent one and
/// stride zero when every axis has extent one; else the product of the
/// extents, with the first fused pair's stride.
pub open spec fn fuse(v: LayoutView, a: MergeArg) -> Option<(usize, isize)> {
    let o = merge_order(v, a);
    if exists|i: int| a.start <= i < a.start + a.len && v.shape[i] == 0 {
        None
    } else if o.len() == 0 {
        Some((1usize, 0isize))
    } else if contiguous(o) {
        Some((product(extents(o)) as usize, o[0].1))
    } else {
        None
    }
}

/// The pairs of the axes in `[lo, hi)`, in order.
pub open spec fn axes_between(v: LayoutView, lo: int, hi: int) -> Seq<(usize, isize)> {
    Seq::new((hi - lo) as nat, |i: int| axis_pair(v, lo + i))
}

/// The axes that the first `k` arguments produce, and the end of the last
/// range fused, if every range so far could be fused. A range of fewer than
/// two axes leaves its axes as they are.
pub open spec fn merge_walk(v: LayoutView, args: Seq<MergeArg>, k: int) -> Option<(Seq<(usize, isize)>, int)>
    decreases k,
{
    if k <= 0 {
        Some((Seq::empty(), 0))
    } else {
        match merge_walk(v, args, k - 1) {
            None => None,
            Some((out, last)) => {
                let a = args[k - 1];
                if a.len < 2 {
                    Some((out, last))
                } else {
                    match fuse(v, a) {
                        None => None,
                        Some(p) => Some((out + axes_between(v, last, a.start as int).push(p), a.start + a.len)),
                    }
                }
            },
        }
    }
}

/// The layout that merging the ranges of `args` gives, if each can be fused.
pub open spec fn merge_view(v: LayoutView, args: Seq<MergeArg>) -> Option<LayoutView> {
    match merge_walk(v, args, args.len() as int) {
        None => None,
        Some((out, last)) => {
            let all = out + axes_between(v, last, v.shape.len() as int);
            Some(LayoutView { offset: v.offset, shape: extents(all), strides: steps(all) })
        },
    }
}

/// Whether each range of two or more axes lies inside `v`, after the ranges
/// before it, with a product of extents that is a machine size.
pub open spec fn merge_args_valid(v: LayoutView, args: Seq<MergeArg>) -> bool {
    &&& forall|k: int| 0 <= k < args.len() && #[trigger] args[k].len >= 2 ==> {
        &&& args[k].start + args[k].len <= v.shape.len()
        &&& product(extents(merge_order(v, args[k]))) <= usize::MAX
    }
    &&& forall|k1: int, k2: int|
        0 <= k1 < k2 < args.len() && #[trigger] args[k1].len >= 2 && #[trigger] args[k2].len >= 2
            ==> args[k1].start + args[k1].len <= args[k2].start
}


/// The absolute value of `s`, widened so that it always fits.
fn abs_wide(s: isize) -> (r: i128)
    ensures
        r == abs_stride((0usize, s)),
{
    if s < 0 {
        -(s as i128)
    } else {
        s as i128
    }
}

/// The pairs of the axes in `[lo, hi)` whose extent is not one, ascending.
fn collect_ascending(shape: &[usize], strides: &[isize], lo: usize, hi: usize, v: Ghost<LayoutView>) -> (r: Vec<(usize, isize)>)
    requires
        shape@ == v@.shape,
        strides@ == v@.strides,
        lo <= hi <= shape@.len() == strides@.len(),
    ensures
        r@ == pairs_ascending(v@, lo as int, hi as int),
{
    let mut r: Vec<(usize, isize)> = Vec::new();
    let mut i: usize = lo;
    while i < hi
        invariant
            shape@ == v@.shape,
            strides@ == v@.strides,
            lo <= i <= hi <= shape@.len() == strides@.len(),
            r@ == pairs_ascending(v@, lo as int, i as int),
        decreases hi - i,
    {
        if shape[i] != 1 {
            r.push((shape[i], strides[i]));
        }
        i = i + 1;
    }
    r
}

/// The pairs of the axes in `[lo, hi)` whose extent is not one, descending.
fn collect_descending(shape: &[usize], strides: &[isize], lo: usize, hi: usize, v: Ghost<LayoutView>) -> (r: Vec<(usize, isize)>)
    requires
        shape@ == v@.shape,
        strides@ == v@.strides,
        lo <= hi <= shape@.len() == strides@.len(),
    ensures
        r@ == pairs_descending(v@, lo as int, hi as int),
{
    let mut r: Vec<(usize, isize)> = Vec::new();
    let mut i: usize = hi;
    while i > lo
        invariant
            shape@ == v@.shape,
            strides@ == v@.strides,
            lo <= i <= hi <= shape@.len() == strides@.len(),
            r@ == pairs_descending(v@, i as int, hi as int),
        decreases i - lo,
    {
        i = i - 1;
        if shape[i] != 1 {
            r.push((shape[i], strides[i]));
        }
    }
    r
}

/// `p` sorted stably by ascending absolute stride.
fn sort_pairs(p: &Vec<(usize, isize)>) -> (r: Vec<(usize, isize)>)
    ensures
        r@ == sort_by_abs_stride(p@),
{
    let mut sorted: Vec<(usize, isize)> = Vec::new();
    let mut t: usize = 0;
    assert(p@.take(0) =~= Seq::<(usize, isize)>::empty());
    while t < p.len()
        invariant
            t <= p@.len(),
            sorted@ == sort_by_abs_stride(p@.take(t as int)),
        decreases p@.len() - t,
    {
        let x = p[t];
        let key = abs_wide(x.1);
        let mut i: usize = 0;
        while i < sorted.len() && abs_wide(sorted[i].1) <= key
            invariant
                i <= sorted@.len(),
                key == abs_stride(x),
                insert_pos(sorted@, key as int, 0) == insert_pos(sorted@, key as int, i as int),
            decreases sorted@.len() - i,
        {
            i = i + 1;
        }
        proof {
            assert(p@.take(t + 1).drop_last() =~= p@.take(t as int));
            assert(p@.take(t + 1).last() == x);
            assert(insert_pos(sorted@, key as int, i as int) == i);
        }
        sorted.insert(i, x);
        t = t + 1;
    }
    assert(p@.take(t as int) =~= p@);
    sorted
}

/// Pairs collected from a range without empty axes have extents of at least
/// two.
proof fn lemma_pairs_extents(v: LayoutView, lo: int, hi: int)
    requires
        forall|j: int| lo <= j < hi ==> v.shape[j] != 0,
    ensures
        forall|k: int| 0 <= k < pairs_ascending(v, lo, hi).len() ==> #[trigger] pairs_ascending(v, lo, hi)[k].0 >= 2,
        forall|k: int| 0 <= k < pairs_descending(v, lo, hi).len() ==> #[trigger] pairs_descending(v, lo, hi)[k].0 >= 2,
        forall|k: int| 0 <= k < sort_by_abs_stride(pairs_ascending(v, lo, hi)).len()
            ==> #[trigger] sort_by_abs_stride(pairs_ascending(v, lo, hi))[k].0 >= 2,
    decreases hi - lo,
{
    if hi > lo {
        lemma_pairs_extents(v, lo, hi - 1);
        lemma_pairs_extents(v, lo + 1, hi);
        let asc = pairs_ascending(v, lo, hi);
        let desc = pairs_descending(v, lo, hi);
        assert forall|k: int| 0 <= k < asc.len() implies #[trigger] asc[k].0 >= 2 by {
            let prev = pairs_ascending(v, lo, hi - 1);
            if v.shape[hi - 1] != 1 && k == prev.len() {
                assert(asc[k] == axis_pair(v, hi - 1));
            } else {
                assert(asc[k] == prev[k]);
            }
        }
        assert forall|k: int| 0 <= k < desc.len() implies #[trigger] desc[k].0 >= 2 by {
            let prev = pairs_descending(v, lo + 1, hi);
            if v.shape[lo] != 1 && k == prev.len() {
                assert(desc[k] == axis_pair(v, lo));
            } else {
                assert(desc[k] == prev[k]);
            }
        }
    }
    lemma_sort_extents(pairs_ascending(v, lo, hi));
}

/// Sorting keeps a lower bound of two on the extents.
proof fn lemma_sort_extents(p: Seq<(usize, isize)>)
    requires
        forall|k: int| 0 <= k < p.len() ==> #[trigger] p[k].0 >= 2,
    ensures
        sort_by_abs_stride(p).len() == p.len(),
        forall|k: int| 0 <= k < sort_by_abs_stride(p).len() ==> #[trigger] sort_by_abs_stride(p)[k].0 >= 2,
    decreases p.len(),
{
    if p.len() > 0 {
        let s = sort_by_abs_stride(p.drop_last());
        lemma_sort_extents(p.drop_last());
        lemma_insert_pos_bound(s, abs_stride(p.last()), 0);
    }
}

/// An insertion position lies between the start of the scan and the end.
proof fn lemma_insert_pos_bound(s: Seq<(usize, isize)>, key: int, i: int)
    requires
        0 <= i,
    ensures
        i <= insert_pos(s, key, i),
        i <= s.len() ==> insert_pos(s, key, i) <= s.len(),
    decreases s.len() - i,
{
    if i < s.len() && abs_stride(s[i]) <= key {
        lemma_insert_pos_bound(s, key, i + 1);
    }
}

/// The axis that fusing the range of `a` gives, if it can be fused.
fn fuse_range(shape: &[usize], strides: &[isize], a: &MergeArg, v: Ghost<LayoutView>) -> (r: Option<(usize, isize)>)
    requires
        shape@ == v@.shape,
        strides@ == v@.strides,
        shape@.len() == strides@.len(),
        a.len >= 2,
        a.start + a.len <= shape@.len(),
        product(extents(merge_order(v@, *a))) <= usize::MAX,
    ensures
        r == fuse(v@, *a),
{
    let n = shape.len();
    assert(a.start + a.len <= n);
    let lo = a.start;
    let hi = a.start + a.len;
    let mut i: usize = lo;
    while i < hi
        invariant
            shape@ == v@.shape,
            lo == a.start,
            hi == a.start + a.len,
            lo <= i <= hi <= shape@.len(),
            forall|j: int| lo <= j < i ==> v@.shape[j] != 0,
        decreases hi - i,
    {
        if shape[i] == 0 {
            assert(a.start <= i < a.start + a.len && v@.shape[i as int] == 0);
            return None;
        }
        i = i + 1;
    }
    let o = match a.endian {
        Some(Endian::BigEndian) => collect_descending(shape, strides, lo, hi, v),
        Some(Endian::LittleEndian) => collect_ascending(shape, strides, lo, hi, v),
        None => sort_pairs(&collect_ascending(shape, strides, lo, hi, v)),
    };
    assert(o@ == merge_order(v@, *a));
    if o.len() == 0 {
        return Some((1, 0));
    }
    let ghost e = extents(o@);
    proof {
        lemma_pairs_extents(v@, lo as int, hi as int);
        assert forall|k: int| 0 <= k < e.len() implies e[k] != 0 by {
            assert(o@[k].0 >= 2);
        }
    }
    let (d0, s0) = o[0];
    let mut run: usize = d0;
    let mut k: usize = 1;
    proof {
        assert(extents(o@.take(1)) =~= seq![d0]);
        assert(seq![d0].drop_last() =~= Seq::<usize>::empty());
        assert(product(Seq::<usize>::empty()) == 1);
        assert(product(seq![d0]) == d0);
    }
    while k < o.len()
        invariant
            e == extents(o@),
            o@ == merge_order(v@, *a),
            forall|j: int| a.start <= j < a.start + a.len ==> v@.shape[j] != 0,
            forall|t: int| 0 <= t < e.len() ==> e[t] != 0,
            product(e) <= usize::MAX,
            1 <= k <= o@.len(),
            o@[0] == (d0, s0),
            run == product(extents(o@.take(k as int))),
            forall|t: int| 1 <= t < k ==> #[trigger] o@[t].1 == o@[0].1 * product(extents(o@.take(t))),
        decreases o@.len() - k,
    {
        let (d, s) = o[k];
        proof {
            assert(extents(o@.take(k as int)) =~= e.take(k as int));
            assert(extents(o@.take(k + 1)) =~= e.take(k + 1));
            lemma_product_take_next(e, k as int);
            lemma_product_prefix_le(e, k + 1);
            assert(-0x8000_0000_0000_0000_0000_0000_0000_0000 < s0 * run < 0x8000_0000_0000_0000_0000_0000_0000_0000) by (nonlinear_arith)
                requires
                    -0x8000_0000_0000_0000 <= s0 <= 0x7fff_ffff_ffff_ffff,
                    0 <= run <= 0xffff_ffff_ffff_ffff,
            ;
        }
        if (s as i128) != (s0 as i128) * (run as i128) {
            assert(o@[k as int].1 != o@[0].1 * product(extents(o@.take(k as int))));
            assert(!contiguous(o@));
            return None;
        }
        run = run * d;
        k = k + 1;
    }
    assert(o@.take(k as int) =~= o@);
    Some((run, s0))
}

/// The layout that merging the one range of `a` gives, if it can be fused:
/// the axes of the range replaced by the fused axis, or every axis kept when
/// the range holds fewer than two axes.
pub open spec fn merge_one(v: LayoutView, a: MergeArg) -> Option<LayoutView> {
    if a.len < 2 {
        Some(v)
    } else {
        match fuse(v, a) {
            None => None,
            Some(p) => Some(
                LayoutView {
                    offset: v.offset,
                    shape: v.shape.take(a.start as int).push(p.0) + v.shape.skip(a.start + a.len),
                    strides: v.strides.take(a.start as int).push(p.1) + v.strides.skip(a.start + a.len),
                },
            ),
        }
    }
}

/// Merging one range by the general walk gives the closed form.
proof fn lemma_merge_one(v: LayoutView, a: MergeArg)
    requires
        v.shape.len() == v.strides.len(),
        a.len >= 2 ==> a.start + a.len <= v.shape.len(),
    ensures
        merge_view(v, seq![a]) == merge_one(v, a),
{
    let args = seq![a];
    let n = v.shape.len() as int;
    assert(merge_walk(v, args, 0) == Some((Seq::<(usize, isize)>::empty(), 0int)));
    if a.len < 2 {
        let all = Seq::<(usize, isize)>::empty() + axes_between(v, 0, n);
        assert(extents(all) =~= v.shape);
        assert(steps(all) =~= v.strides);
    } else if let Some(p) = fuse(v, a) {
        let lo = a.start as int;
        let hi = a.start + a.len;
        let all = Seq::<(usize, isize)>::empty() + axes_between(v, 0, lo).push(p) + axes_between(v, hi, n);
        let w = merge_one(v, a).unwrap();
        assert(extents(all) =~= w.shape);
        assert(steps(all) =~= w.strides);
    }
}

/// Once a range fails, the whole walk fails.
proof fn lemma_walk_fails(v: LayoutView, args: Seq<MergeArg>, k: int, m: int)
    requires
        0 <= k <= m,
        merge_walk(v, args, k) is None,
    ensures
        merge_walk(v, args, m) is None,
    decreases m - k,
{
    if k < m {
        lemma_walk_fails(v, args, k, m - 1);
    }
}

impl<const N: usize> ArrayLayout<N> {
    /// Fuses the `len` axes from `start` on, the later axes varying faster.
    pub fn merge_be(&self, start: usize, len: usize) -> (r: Option<Self>)
        requires
            merge_args_valid(self@, seq![MergeArg { start, len, endian: Some(Endian::BigEndian) }]),
        ensures
            (r is Some) == (merge_one(self@, MergeArg { start, len, endian: Some(Endian::BigEndian) }) is Some),
            r is Some ==> r.unwrap()@ == merge_one(self@, MergeArg { start, len, endian: Some(Endian::BigEndian) }).unwrap(),
    {
        let args = [MergeArg { start, len, endian: Some(Endian::BigEndian) }];
        assert(args@ =~= seq![MergeArg { start, len, endian: Some(Endian::BigEndian) }]);
        proof {
            self.lemma_axes();
            lemma_merge_one(self@, args@[0]);
        }
        self.merge_many(args.as_slice())
    }

    /// Fuses the `len` axes from `start` on, the earlier axes varying faster.
    pub fn merge_le(&self, start: usize, len: usize) -> (r: Option<Self>)
        requires
            merge_args_valid(self@, seq![MergeArg { start, len, endian: Some(Endian::LittleEndian) }]),
        ensures
            (r is Some) == (merge_one(self@, MergeArg { start, len, endian: Some(Endian::LittleEndian) }) is Some),
            r is Some ==> r.unwrap()@ == merge_one(self@, MergeArg { start, len, endian: Some(Endian::LittleEndian) }).unwrap(),
    {
        let args = [MergeArg { start, len, endian: Some(Endian::LittleEndian) }];
        assert(args@ =~= seq![MergeArg { start, len, endian: Some(Endian::LittleEndian) }]);
        proof {
            self.lemma_axes();
            lemma_merge_one(self@, args@[0]);
        }
        self.merge_many(args.as_slice())
    }

    /// Fuses the `len` axes from `start` on, in whatever order their strides
    /// allow.
    pub fn merge_free(&self, start: usize, len: usize) -> (r: Option<Self>)
        requires
            merge_args_valid(self@, seq![MergeArg { start, len, endian: None }]),
        ensures
            (r is Some) == (merge_one(self@, MergeArg { start, len, endian: None }) is Some),
            r is Some ==> r.unwrap()@ == merge_one(self@, MergeArg { start, len, endian: None }).unwrap(),
    {
        let args = [MergeArg { start, len, endian: None }];
        assert(args@ =~= seq![MergeArg { start, len, endian: None }]);
        proof {
            self.lemma_axes();
            lemma_merge_one(self@, args@[0]);
        }
        self.merge_many(args.as_slice())
    }

    /// Fuses each range of `args`, left to right; axes outside every range
    /// stay as they are. No result when any range cannot be fused.
    pub fn merge_many(&self, args: &[MergeArg]) -> (r: Option<Self>)
        requires
            merge_args_valid(self@, args@),
        ensures
            (r is Some) == (merge_view(self@, args@) is Some),
            r is Some ==> r.unwrap()@ == merge_view(self@, args@).unwrap(),
    {
        let ghost v = self@;
        proof {
            self.lemma_axes();
        }
        let shape = self.shape();
        let strides = self.strides();
        let n = self.ndim();
        let mut out_shape: Vec<usize> = Vec::new();
        let mut out_strides: Vec<isize> = Vec::new();
        let ghost mut out: Seq<(usize, isize)> = Seq::empty();
        let mut last: usize = 0;
        let mut t: usize = 0;
        while t < args.len()
            invariant
                v == self@,
                n == shape@.len() == strides@.len(),
                shape@ == v.shape,
                strides@ == v.strides,
                merge_args_valid(v, args@),
                t <= args@.len(),
                last <= n,
                merge_walk(v, args@, t as int) == Some((out, last as int)),
                out_shape@ == extents(out),
                out_strides@ == steps(out),
                forall|k: int| t <= k < args@.len() && #[trigger] args@[k].len >= 2 ==> last <= args@[k].start,
            decreases args@.len() - t,
        {
            let a = &args[t];
            if a.len >= 2 {
                assert(args@[t as int].len >= 2);
                let start = a.start;
                let ghost before = out;
                let mut j: usize = last;
                while j < start
                    invariant
                        n == shape@.len() == strides@.len(),
                        shape@ == v.shape,
                        strides@ == v.strides,
                        last <= j <= start <= n,
                        out == before + axes_between(v, last as int, j as int),
                        out_shape@ == extents(out),
                        out_strides@ == steps(out),
                    decreases start - j,
                {
                    out_shape.push(shape[j]);
                    out_strides.push(strides[j]);
                    proof {
                        out = out.push(axis_pair(v, j as int));
                        assert(before + axes_between(v, last as int, j + 1) =~= out);
                        assert(out_shape@ =~= extents(out));
                        assert(out_strides@ =~= steps(out));
                    }
                    j = j + 1;
                }
                match fuse_range(shape, strides, a, Ghost(v)) {
                    None => {
                        proof {
                            lemma_walk_fails(v, args@, t + 1, args@.len() as int);
                        }
                        return None;
                    },
                    Some((d, s)) => {
                        out_shape.push(d);
                        out_strides.push(s);
                        proof {
                            out = out.push((d, s));
                            assert(out_shape@ =~= extents(out));
                            assert(out_strides@ =~= steps(out));
                        }
                    },
                }
                last = a.start + a.len;
                assert forall|k: int| t + 1 <= k < args@.len() && #[trigger] args@[k].len >= 2 implies last <= args@[k].start by {
                    assert(args@[t as int].len >= 2);
                }
            }
            t = t + 1;
        }
        let ghost before = out;
        let mut j: usize = last;
        while j < n
            invariant
                n == shape@.len() == strides@.len(),
                shape@ == v.shape,
                strides@ == v.strides,
                last <= j <= n,
                out == before + axes_between(v, last as int, j as int),
                out_shape@ == extents(out),
                out_strides@ == steps(out),
            decreases n - j,
        {
            out_shape.push(shape[j]);
            out_strides.push(strides[j]);
            proof {
                out = out.push(axis_pair(v, j as int));
                assert(before + axes_between(v, last as int, j + 1) =~= out);
                assert(out_shape@ =~= extents(out));
                assert(out_strides@ =~= steps(out));
            }
            j = j + 1;
        }
        let r = Self::new(out_shape.as_slice(), out_strides.as_slice(), self.offset());
        Some(r)
    }
}

} // verus!
