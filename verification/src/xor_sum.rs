//! Sums, in the field, over ranges of integers: the exclusive-or of the values that a
//! function takes on a range, and how such sums are split, reindexed and exchanged.

use crate::galois::{lemma_product_distributes, lemma_sum_laws, primitive, product, sum};
use vstd::prelude::*;

verus! {

/// The sum, in the field, of `f(lo)`, ..., `f(hi - 1)`; zero for an empty range.
pub open spec fn xor_sum(f: spec_fn(int) -> u8, lo: int, hi: int) -> u8
    decreases hi - lo,
{
    if hi <= lo {
        0
    } else {
        sum(xor_sum(f, lo, hi - 1), f(hi - 1))
    }
}

proof fn lemma_sum_interchange(a: u8, b: u8, c: u8, d: u8)
    by (bit_vector)
    ensures
        sum(sum(a, b), sum(c, d)) == sum(sum(a, c), sum(b, d)),
{
}

/// Functions that agree on the range have the same sum.
pub proof fn lemma_xor_sum_equal(f: spec_fn(int) -> u8, g: spec_fn(int) -> u8, lo: int, hi: int)
    requires
        forall|i: int| lo <= i < hi ==> #[trigger] f(i) == g(i),
    ensures
        xor_sum(f, lo, hi) == xor_sum(g, lo, hi),
    decreases hi - lo,
{
    if lo < hi {
        lemma_xor_sum_equal(f, g, lo, hi - 1);
    }
}

/// A function that is zero on the range has sum zero.
pub proof fn lemma_xor_sum_zero(f: spec_fn(int) -> u8, lo: int, hi: int)
    requires
        forall|i: int| lo <= i < hi ==> #[trigger] f(i) == 0,
    ensures
        xor_sum(f, lo, hi) == 0,
    decreases hi - lo,
{
    if lo < hi {
        lemma_xor_sum_zero(f, lo, hi - 1);
        lemma_sum_laws(0, 0, 0);
    }
}

/// A sum over a range is the sum of the sums over its two parts.
pub proof fn lemma_xor_sum_split(f: spec_fn(int) -> u8, lo: int, mid: int, hi: int)
    requires
        lo <= mid <= hi,
    ensures
        xor_sum(f, lo, hi) == sum(xor_sum(f, lo, mid), xor_sum(f, mid, hi)),
    decreases hi - mid,
{
    if mid < hi {
        lemma_xor_sum_split(f, lo, mid, hi - 1);
        lemma_sum_laws(xor_sum(f, lo, mid), xor_sum(f, mid, hi - 1), f(hi - 1));
    } else {
        lemma_sum_laws(xor_sum(f, lo, mid), 0, 0);
    }
}

/// A range may be widened by indices at which the function is zero.
pub proof fn lemma_xor_sum_widen(f: spec_fn(int) -> u8, lo: int, hi: int, wide_lo: int, wide_hi: int)
    requires
        wide_lo <= lo <= hi <= wide_hi,
        forall|i: int| wide_lo <= i < lo || hi <= i < wide_hi ==> #[trigger] f(i) == 0,
    ensures
        xor_sum(f, wide_lo, wide_hi) == xor_sum(f, lo, hi),
{
    lemma_xor_sum_split(f, wide_lo, lo, wide_hi);
    lemma_xor_sum_split(f, lo, hi, wide_hi);
    lemma_xor_sum_zero(f, wide_lo, lo);
    lemma_xor_sum_zero(f, hi, wide_hi);
    lemma_sum_laws(xor_sum(f, lo, hi), 0, 0);
}

/// The sum of pointwise sums is the sum of the two sums.
pub proof fn lemma_xor_sum_pointwise(
    f: spec_fn(int) -> u8,
    g: spec_fn(int) -> u8,
    h: spec_fn(int) -> u8,
    lo: int,
    hi: int,
)
    requires
        forall|i: int| lo <= i < hi ==> #[trigger] h(i) == sum(f(i), g(i)),
    ensures
        xor_sum(h, lo, hi) == sum(xor_sum(f, lo, hi), xor_sum(g, lo, hi)),
    decreases hi - lo,
{
    if lo < hi {
        lemma_xor_sum_pointwise(f, g, h, lo, hi - 1);
        lemma_sum_interchange(
            xor_sum(f, lo, hi - 1),
            xor_sum(g, lo, hi - 1),
            f(hi - 1),
            g(hi - 1),
        );
    } else {
        lemma_sum_laws(0, 0, 0);
    }
}

/// In a field built from a primitive polynomial, a common factor may be taken out of a
/// sum.
pub proof fn lemma_xor_sum_scaled(
    rp: u16,
    c: u8,
    f: spec_fn(int) -> u8,
    g: spec_fn(int) -> u8,
    lo: int,
    hi: int,
)
    requires
        primitive(rp),
        forall|i: int| lo <= i < hi ==> #[trigger] g(i) == product(rp, c, f(i)),
    ensures
        xor_sum(g, lo, hi) == product(rp, c, xor_sum(f, lo, hi)),
    decreases hi - lo,
{
    if lo < hi {
        lemma_xor_sum_scaled(rp, c, f, g, lo, hi - 1);
        lemma_product_distributes(rp, c, xor_sum(f, lo, hi - 1), f(hi - 1));
    }
}

/// Reflecting the index at `c` reflects the range.
pub proof fn lemma_xor_sum_reflect(
    f: spec_fn(int) -> u8,
    g: spec_fn(int) -> u8,
    lo: int,
    hi: int,
    c: int,
)
    requires
        lo <= hi,
        forall|i: int| lo <= i < hi ==> #[trigger] g(i) == f(c - i),
    ensures
        xor_sum(g, lo, hi) == xor_sum(f, c - hi + 1, c - lo + 1),
    decreases hi - lo,
{
    if lo < hi {
        lemma_xor_sum_reflect(f, g, lo, hi - 1, c);
        let first = c - hi + 1;
        lemma_xor_sum_split(f, first, first + 1, c - lo + 1);
        assert(xor_sum(f, first, first + 1) == f(first)) by {
            assert(xor_sum(f, first, first) == 0);
            lemma_sum_laws(f(first), 0, 0);
        }
        lemma_sum_laws(f(first), xor_sum(f, first + 1, c - lo + 1), 0);
    }
}

/// A double sum over a rectangle may be taken row by row or column by column.
pub proof fn lemma_xor_sum_swap(
    ff: spec_fn(int, int) -> u8,
    lo1: int,
    hi1: int,
    lo2: int,
    hi2: int,
)
    ensures
        xor_sum(|i: int| xor_sum(|j: int| ff(i, j), lo2, hi2), lo1, hi1) == xor_sum(
            |j: int| xor_sum(|i: int| ff(i, j), lo1, hi1),
            lo2,
            hi2,
        ),
    decreases hi1 - lo1,
{
    let rows = |i: int| xor_sum(|j: int| ff(i, j), lo2, hi2);
    let cols = |j: int| xor_sum(|i: int| ff(i, j), lo1, hi1);
    if hi1 <= lo1 {
        assert forall|j: int| lo2 <= j < hi2 implies #[trigger] cols(j) == 0 by {}
        lemma_xor_sum_zero(cols, lo2, hi2);
    } else {
        let k = hi1 - 1;
        lemma_xor_sum_swap(ff, lo1, k, lo2, hi2);
        let shorter = |j: int| xor_sum(|i: int| ff(i, j), lo1, k);
        let last = |j: int| ff(k, j);
        assert forall|j: int| lo2 <= j < hi2 implies #[trigger] cols(j) == sum(
            shorter(j),
            last(j),
        ) by {}
        lemma_xor_sum_pointwise(shorter, last, cols, lo2, hi2);
        assert(rows(k) == xor_sum(last, lo2, hi2));
    }
}

} // verus!
