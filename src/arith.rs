//! Integer sums and products over sequences, and the machine-word bound on
//! signed results.
use vstd::prelude::*;

verus! {

/// Whether `x` is representable as an `isize`.
pub open spec fn fits_isize(x: int) -> bool {
    isize::MIN <= x <= isize::MAX
}

/// The sum of the terms of `s`.
pub open spec fn sum(s: Seq<int>) -> int
    decreases s.len(),
{
    if s.len() == 0 {
        0
    } else {
        sum(s.drop_last()) + s.last()
    }
}

/// The product of the entries of `s` (1 for the empty sequence).
pub open spec fn product(s: Seq<usize>) -> int
    decreases s.len(),
{
    if s.len() == 0 {
        1
    } else {
        product(s.drop_last()) * s.last()
    }
}

/// Every running total `base + s[0] + ... + s[k-1]`, the empty one included,
/// is representable as an `isize`.
pub open spec fn running_sums_fit(base: int, s: Seq<int>) -> bool {
    forall|k: int| 0 <= k <= s.len() ==> #[trigger] fits_isize(base + sum(s.take(k)))
}

/// Taking one more term adds that term to the sum.
pub proof fn lemma_sum_take_next(s: Seq<int>, k: int)
    requires
        0 <= k < s.len(),
    ensures
        sum(s.take(k + 1)) == sum(s.take(k)) + s[k],
{
    assert(s.take(k + 1).drop_last() =~= s.take(k));
}

/// Taking one more factor multiplies the product by that factor.
pub proof fn lemma_product_take_next(s: Seq<usize>, k: int)
    requires
        0 <= k < s.len(),
    ensures
        product(s.take(k + 1)) == product(s.take(k)) * s[k],
{
    assert(s.take(k + 1).drop_last() =~= s.take(k));
}

/// Peeling the first factor off a product.
pub proof fn lemma_product_first(s: Seq<usize>)
    requires
        s.len() > 0,
    ensures
        product(s) == s[0] * product(s.drop_first()),
    decreases s.len(),
{
    if s.len() > 1 {
        let init = s.drop_last();
        let tail = s.drop_first();
        lemma_product_first(init);
        assert(init.drop_first() =~= tail.drop_last());
        assert(tail.last() == s.last());
        assert(product(tail) == product(tail.drop_last()) * tail.last());
        assert(init[0] == s[0]);
        assert(product(s) == product(init) * s.last());
        vstd::arithmetic::mul::lemma_mul_is_associative(
            s[0] as int,
            product(tail.drop_last()),
            s.last() as int,
        );
    } else {
        assert(product(s.drop_first()) == 1);
        assert(product(s.drop_last()) == 1);
    }
}

/// A zero factor makes the product zero.
pub proof fn lemma_product_zero(s: Seq<usize>, k: int)
    requires
        0 <= k < s.len(),
        s[k] == 0,
    ensures
        product(s) == 0,
    decreases s.len(),
{
    if k < s.len() - 1 {
        lemma_product_zero(s.drop_last(), k);
    }
    vstd::arithmetic::mul::lemma_mul_basics(product(s.drop_last()));
    vstd::arithmetic::mul::lemma_mul_basics(s.last() as int);
}

/// Without zero factors, a prefix's product is at most the whole product.
pub proof fn lemma_product_prefix_le(s: Seq<usize>, k: int)
    requires
        0 <= k <= s.len(),
        forall|i: int| 0 <= i < s.len() ==> s[i] != 0,
    ensures
        0 < product(s.take(k)) <= product(s),
    decreases s.len(),
{
    if s.len() > 0 {
        let init = s.drop_last();
        if k == s.len() {
            assert(s.take(k) =~= s);
            lemma_product_prefix_le(init, k - 1);
            assert(init.take(k - 1) =~= init);
        } else {
            lemma_product_prefix_le(init, k);
            assert(init.take(k) =~= s.take(k));
        }
        let p = product(init);
        assert(p * s.last() >= p) by (nonlinear_arith)
            requires
                p > 0,
                s.last() >= 1,
        ;
    } else {
        assert(s.take(k).len() == 0);
    }
}

/// A strictly ascending sequence of values in `[lo, hi)` has at most
/// `hi - lo` entries.
pub proof fn lemma_ascending_within(s: Seq<int>, lo: int, hi: int)
    requires
        forall|k: int| 0 <= k < s.len() ==> lo <= #[trigger] s[k] < hi,
        forall|k1: int, k2: int| 0 <= k1 < k2 < s.len() ==> s[k1] < s[k2],
    ensures
        s.len() <= if hi > lo { hi - lo } else { 0 },
    decreases s.len(),
{
    if s.len() > 0 {
        let rest = s.drop_first();
        assert forall|k: int| 0 <= k < rest.len() implies s[0] + 1 <= #[trigger] rest[k] < hi by {
            assert(rest[k] == s[k + 1]);
        }
        lemma_ascending_within(rest, s[0] + 1, hi);
    }
}

} // verus!
