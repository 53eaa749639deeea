//! The product of two coefficient sequences: the convolution of the sequences under the
//! field's operations, and the laws of that product.

use crate::galois::{
    lemma_product_associative, lemma_product_commutative, lemma_product_one, lemma_product_total,
    lemma_sum_laws, primitive, product, product_defined,
};
use crate::xor_sum::{
    lemma_xor_sum_equal, lemma_xor_sum_reflect, lemma_xor_sum_scaled, lemma_xor_sum_swap,
    lemma_xor_sum_widen, lemma_xor_sum_zero, xor_sum,
};
use vstd::prelude::*;

verus! {

/// The coefficient of degree `k` of `p`; zero where `p` has no such index.
pub open spec fn coef(p: Seq<u8>, k: int) -> u8 {
    if 0 <= k < p.len() {
        p[k]
    } else {
        0
    }
}

/// The terms whose sum is the coefficient of degree `k` of the product: term `i` is the
/// product of `a`'s coefficient of degree `i` and `b`'s of degree `k - i`.
pub open spec fn conv_term(rp: u16, a: Seq<u8>, b: Seq<u8>, k: int) -> spec_fn(int) -> u8 {
    |i: int| product(rp, coef(a, i), coef(b, k - i))
}

/// The coefficient of degree `k` of the product of `a` and `b`.
pub open spec fn conv(rp: u16, a: Seq<u8>, b: Seq<u8>, k: int) -> u8 {
    xor_sum(conv_term(rp, a, b, k), 0, a.len() as int)
}

/// The product of two polynomials, low degree first. It is empty if a factor is empty,
/// and else has one coefficient for each degree up to the sum of the two degrees; leading
/// zeros are kept.
pub open spec fn poly_product(rp: u16, a: Seq<u8>, b: Seq<u8>) -> Seq<u8> {
    if a.len() == 0 || b.len() == 0 {
        Seq::empty()
    } else {
        Seq::new((a.len() + b.len() - 1) as nat, |k: int| conv(rp, a, b, k))
    }
}

/// Whether every product of a coefficient of `a` and a coefficient of `b` is defined.
pub open spec fn poly_product_defined(rp: u16, a: Seq<u8>, b: Seq<u8>) -> bool {
    forall|i: int, j: int|
        0 <= i < a.len() && 0 <= j < b.len() ==> product_defined(
            rp,
            #[trigger] a[i],
            #[trigger] b[j],
        )
}

/// In a field built from a primitive polynomial every product of polynomials is defined.
pub proof fn lemma_poly_product_total(rp: u16, a: Seq<u8>, b: Seq<u8>)
    requires
        primitive(rp),
    ensures
        poly_product_defined(rp, a, b),
{
    assert forall|i: int, j: int| 0 <= i < a.len() && 0 <= j < b.len() implies product_defined(
        rp,
        #[trigger] a[i],
        #[trigger] b[j],
    ) by {
        lemma_product_total(rp, a[i], b[j]);
    }
}

/// The convolution vanishes at every degree that the product does not have.
pub proof fn lemma_conv_outside(rp: u16, a: Seq<u8>, b: Seq<u8>, k: int)
    requires
        k < 0 || k >= a.len() + b.len() - 1,
    ensures
        conv(rp, a, b, k) == 0,
{
    lemma_xor_sum_zero(conv_term(rp, a, b, k), 0, a.len() as int);
}

/// The coefficients of the product are the convolution, at every degree.
pub proof fn lemma_coef_of_product(rp: u16, a: Seq<u8>, b: Seq<u8>, k: int)
    ensures
        coef(poly_product(rp, a, b), k) == conv(rp, a, b, k),
{
    if a.len() == 0 || b.len() == 0 {
        lemma_xor_sum_zero(conv_term(rp, a, b, k), 0, a.len() as int);
    } else if k < 0 || k >= a.len() + b.len() - 1 {
        lemma_conv_outside(rp, a, b, k);
    }
}

/// The convolution does not depend on the order of the factors.
pub proof fn lemma_conv_commutative(rp: u16, a: Seq<u8>, b: Seq<u8>, k: int)
    ensures
        conv(rp, a, b, k) == conv(rp, b, a, k),
{
    let t = conv_term(rp, a, b, k);
    let u = conv_term(rp, b, a, k);
    let alen = a.len() as int;
    let blen = b.len() as int;
    assert forall|j: int| 0 <= j < blen implies #[trigger] u(j) == t(k - j) by {
        lemma_product_commutative(rp, coef(b, j), coef(a, k - j));
    }
    lemma_xor_sum_reflect(t, u, 0, blen, k);
    let lo = if k - blen + 1 < 0 {
        k - blen + 1
    } else {
        0
    };
    let hi = if k + 1 > alen {
        k + 1
    } else {
        alen
    };
    if k - blen + 1 <= k + 1 {
    }
    lemma_xor_sum_widen(t, 0, alen, lo, hi);
    lemma_xor_sum_widen(t, k - blen + 1, k + 1, lo, hi);
}

/// Multiplication of polynomials is commutative, under every reducing polynomial.
pub proof fn lemma_poly_product_commutative(rp: u16, a: Seq<u8>, b: Seq<u8>)
    ensures
        poly_product(rp, a, b) == poly_product(rp, b, a),
        poly_product_defined(rp, a, b) == poly_product_defined(rp, b, a),
{
    if a.len() > 0 && b.len() > 0 {
        assert forall|k: int| 0 <= k < a.len() + b.len() - 1 implies conv(rp, a, b, k) == conv(
            rp,
            b,
            a,
            k,
        ) by {
            lemma_conv_commutative(rp, a, b, k);
        }
    }
    assert(poly_product(rp, a, b) =~= poly_product(rp, b, a));
}

/// The polynomial one is the identity of multiplication, on either side, for every
/// polynomial whose nonzero coefficients have logarithms.
pub proof fn lemma_poly_product_one(rp: u16, p: Seq<u8>)
    requires
        poly_product_defined(rp, p, seq![1u8]),
    ensures
        poly_product(rp, p, seq![1u8]) == p,
        poly_product(rp, seq![1u8], p) == p,
{
    let one = seq![1u8];
    if p.len() > 0 {
        assert forall|k: int| 0 <= k < p.len() implies conv(rp, p, one, k) == p[k] by {
            let t = conv_term(rp, p, one, k);
            assert(product_defined(rp, p[k], one[0]));
            if p[k] != 0 {
                lemma_product_one(rp, p[k]);
            }
            assert(t(k) == p[k]);
            assert(xor_sum(t, k, k + 1) == p[k]) by {
                assert(xor_sum(t, k, k) == 0);
                lemma_sum_laws(p[k], 0, 0);
            }
            lemma_xor_sum_widen(t, k, k + 1, 0, p.len() as int);
        }
    }
    assert(poly_product(rp, p, one) =~= p);
    lemma_poly_product_commutative(rp, p, one);
}

/// The terms of the double sum that both ways of bracketing a triple product come to.
spec fn triple_term(rp: u16, a: Seq<u8>, b: Seq<u8>, c: Seq<u8>, n: int) -> spec_fn(int, int) -> u8 {
    |i: int, j: int| product(rp, coef(c, i), product(rp, coef(a, j), coef(b, n - i - j)))
}

proof fn lemma_conv_associative(rp: u16, a: Seq<u8>, b: Seq<u8>, c: Seq<u8>, n: int)
    requires
        primitive(rp),
    ensures
        conv(rp, poly_product(rp, a, b), c, n) == conv(rp, a, poly_product(rp, b, c), n),
{
    let ab = poly_product(rp, a, b);
    let bc = poly_product(rp, b, c);
    let alen = a.len() as int;
    let clen = c.len() as int;
    let ff = triple_term(rp, a, b, c, n);
    let rows = |i: int| xor_sum(|j: int| ff(i, j), 0, alen);
    let cols = |j: int| xor_sum(|i: int| ff(i, j), 0, clen);

    // The left side, with its factors exchanged, is the double sum taken row by row.
    lemma_conv_commutative(rp, ab, c, n);
    let left = conv_term(rp, c, ab, n);
    assert forall|i: int| 0 <= i < clen implies #[trigger] left(i) == rows(i) by {
        let inner = conv_term(rp, a, b, n - i);
        let row = |j: int| ff(i, j);
        lemma_coef_of_product(rp, a, b, n - i);
        assert forall|j: int| 0 <= j < alen implies #[trigger] row(j) == product(
            rp,
            coef(c, i),
            inner(j),
        ) by {}
        lemma_xor_sum_scaled(rp, coef(c, i), inner, row, 0, alen);
    }
    lemma_xor_sum_equal(left, rows, 0, clen);

    lemma_xor_sum_swap(ff, 0, clen, 0, alen);

    // The right side is the double sum taken column by column.
    let right = conv_term(rp, a, bc, n);
    assert forall|j: int| 0 <= j < alen implies #[trigger] right(j) == cols(j) by {
        let inner = conv_term(rp, c, b, n - j);
        let col = |i: int| ff(i, j);
        lemma_coef_of_product(rp, b, c, n - j);
        lemma_conv_commutative(rp, b, c, n - j);
        assert forall|i: int| 0 <= i < clen implies #[trigger] col(i) == product(
            rp,
            coef(a, j),
            inner(i),
        ) by {
            let x = coef(c, i);
            let y = coef(a, j);
            let z = coef(b, n - i - j);
            lemma_product_associative(rp, x, y, z);
            lemma_product_commutative(rp, x, y);
            lemma_product_associative(rp, y, x, z);
        }
        lemma_xor_sum_scaled(rp, coef(a, j), inner, col, 0, clen);
    }
    lemma_xor_sum_equal(right, cols, 0, alen);
}

/// In a field built from a primitive polynomial, multiplication of polynomials is
/// associative.
pub proof fn lemma_poly_product_associative(rp: u16, a: Seq<u8>, b: Seq<u8>, c: Seq<u8>)
    requires
        primitive(rp),
    ensures
        poly_product(rp, poly_product(rp, a, b), c) == poly_product(
            rp,
            a,
            poly_product(rp, b, c),
        ),
{
    let ab = poly_product(rp, a, b);
    let bc = poly_product(rp, b, c);
    if a.len() > 0 && b.len() > 0 && c.len() > 0 {
        assert forall|n: int| 0 <= n < a.len() + b.len() + c.len() - 2 implies conv(
            rp,
            ab,
            c,
            n,
        ) == conv(rp, a, bc, n) by {
            lemma_conv_associative(rp, a, b, c, n);
        }
    }
    assert(poly_product(rp, ab, c) =~= poly_product(rp, a, bc));
}

} // verus!
