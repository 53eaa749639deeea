//! Polynomials over GF(2^8): a coefficient sequence, low degree first, bound to the
//! field table that interprets it.

use crate::convolution::{conv_term, poly_product, poly_product_defined};
use crate::field::{gf_add, gf_mul, FieldError, FieldTable};
use crate::galois::{has_log, lemma_sum_laws, product, product_defined, sum};
use crate::text::{append_term, joined, renderable, rendering, terms};
use crate::xor_sum::xor_sum;
use vstd::prelude::*;

verus! {

/// A polynomial whose coefficients are elements of the field of one table. The
/// coefficient at index `i` belongs to the `i`-th power of the variable; leading zero
/// coefficients are allowed and kept.
#[derive(Debug)]
pub struct GFPoly<'a> {
    coefs: Vec<u8>,
    field: &'a FieldTable,
}

impl<'a> View for GFPoly<'a> {
    type V = Seq<u8>;

    /// The coefficients, low degree first.
    closed spec fn view(&self) -> Seq<u8> {
        self.coefs@
    }
}

/// Whether every integer of `values` is a byte.
pub open spec fn all_bytes(values: Seq<i64>) -> bool {
    forall|i: int| 0 <= i < values.len() ==> 0 <= #[trigger] values[i] <= 255
}

impl<'a> GFPoly<'a> {
    /// The reducing polynomial of the field that the coefficients belong to.
    pub closed spec fn modulus(&self) -> u16 {
        self.field.modulus()
    }

    /// The polynomial with the coefficients `coefs` over `field`.
    pub fn with_coefs(coefs: Vec<u8>, field: &'a FieldTable) -> (p: Self)
        ensures
            p@ == coefs@,
            p.modulus() == field.modulus(),
    {
        GFPoly { coefs, field }
    }

    /// The coefficients, low degree first.
    pub fn coefs(&self) -> (c: &Vec<u8>)
        ensures
            c@ == self@,
    {
        &self.coefs
    }

    /// The table of the field that the coefficients belong to.
    pub fn field(&self) -> (f: &'a FieldTable)
        ensures
            f.modulus() == self.modulus(),
    {
        self.field
    }

    /// The product of two polynomials over the same field: the convolution of the two
    /// coefficient sequences. It is refused where a product of two coefficients is not
    /// defined in the field, which cannot happen in a field built from a primitive
    /// polynomial.
    pub fn mul(&self, rhs: &GFPoly<'a>) -> (result: Result<GFPoly<'a>, FieldError>)
        requires
            self.modulus() == rhs.modulus(),
        ensures
            match result {
                Ok(p) => {
                    &&& poly_product_defined(self.modulus(), self@, rhs@)
                    &&& p@ == poly_product(self.modulus(), self@, rhs@)
                    &&& p.modulus() == self.modulus()
                },
                Err(e) => e == FieldError::ConsistencyError && !poly_product_defined(
                    self.modulus(),
                    self@,
                    rhs@,
                ),
            },
    {
        let field = self.field;
        let ghost rp = self.modulus();
        let ghost a = self.coefs@;
        let ghost b = rhs.coefs@;
        let n = self.coefs.len();
        let m = rhs.coefs.len();
        let mut result: Vec<u8> = Vec::new();
        if n == 0 || m == 0 {
            return Ok(GFPoly { coefs: result, field });
        }
        let mut filled: usize = 0;
        while filled < n
            invariant
                filled <= n,
                result@.len() == filled,
                forall|k: int| 0 <= k < filled ==> result@[k] == 0,
            decreases n - filled,
        {
            result.push(0);
            filled += 1;
        }
        filled = 1;
        while filled < m
            invariant
                1 <= filled <= m,
                result@.len() == n + filled - 1,
                forall|k: int| 0 <= k < result@.len() ==> result@[k] == 0,
            decreases m - filled,
        {
            result.push(0);
            filled += 1;
        }
        assert(result.len() == n + m - 1);
        let mut i: usize = 0;
        while i < n
            invariant
                i <= n,
                n == a.len(),
                m == b.len(),
                m > 0,
                a == self.coefs@,
                b == rhs.coefs@,
                rp == field.modulus(),
                rp == self.modulus(),
                n + m - 1 <= usize::MAX,
                result@.len() == n + m - 1,
                forall|k: int|
                    0 <= k < n + m - 1 ==> #[trigger] result@[k] == xor_sum(
                        conv_term(rp, a, b, k),
                        0,
                        i as int,
                    ),
                forall|x: int, y: int|
                    0 <= x < i && 0 <= y < m ==> product_defined(
                        rp,
                        #[trigger] a[x],
                        #[trigger] b[y],
                    ),
            decreases n - i,
        {
            let mut j: usize = 0;
            while j < m
                invariant
                    i < n,
                    j <= m,
                    n == a.len(),
                    m == b.len(),
                    a == self.coefs@,
                    b == rhs.coefs@,
                    rp == field.modulus(),
                    rp == self.modulus(),
                    n + m - 1 <= usize::MAX,
                    result@.len() == n + m - 1,
                    forall|k: int|
                        0 <= k < n + m - 1 ==> #[trigger] result@[k] == if 0 <= k - i < j {
                            sum(
                                xor_sum(conv_term(rp, a, b, k), 0, i as int),
                                product(rp, a[i as int], b[k - i]),
                            )
                        } else {
                            xor_sum(conv_term(rp, a, b, k), 0, i as int)
                        },
                    forall|x: int, y: int|
                        0 <= x < i && 0 <= y < m ==> product_defined(
                            rp,
                            #[trigger] a[x],
                            #[trigger] b[y],
                        ),
                    forall|y: int| 0 <= y < j ==> product_defined(rp, a[i as int], #[trigger] b[y]),
                decreases m - j,
            {
                let p = match gf_mul(self.coefs[i], rhs.coefs[j], field) {
                    Ok(p) => p,
                    Err(_) => {
                        assert(!product_defined(rp, a[i as int], b[j as int]));
                        return Err(FieldError::ConsistencyError);
                    },
                };
                let k = i + j;
                let s = gf_add(result[k], p);
                result.set(k, s);
                j += 1;
            }
            proof {
                assert forall|k: int| 0 <= k < n + m - 1 implies #[trigger] result@[k] == xor_sum(
                    conv_term(rp, a, b, k),
                    0,
                    i + 1,
                ) by {
                    let t = conv_term(rp, a, b, k);
                    if !(0 <= k - i < m) {
                        assert(t(i as int) == 0);
                        lemma_sum_laws(xor_sum(t, 0, i as int), 0, 0);
                    }
                }
            }
            i += 1;
        }
        assert(result@ =~= poly_product(rp, a, b));
        Ok(GFPoly { coefs: result, field })
    }

    /// The canonical text of the polynomial: the terms of its nonzero coefficients in
    /// ascending order of degree, joined by ` + `, or `0` where there is none. It is
    /// refused where a nonzero coefficient has no logarithm in the field, which cannot
    /// happen in a field built from a primitive polynomial.
    pub fn render(&self) -> (result: Result<String, FieldError>)
        ensures
            match result {
                Ok(s) => renderable(self.modulus(), self@) && s@ == rendering(
                    self.modulus(),
                    self@,
                ),
                Err(e) => e == FieldError::ConsistencyError && !renderable(
                    self.modulus(),
                    self@,
                ),
            },
    {
        let ghost rp = self.modulus();
        let ghost coefs = self.coefs@;
        let mut out = String::new();
        let mut none_yet = true;
        let mut i: usize = 0;
        while i < self.coefs.len()
            invariant
                i <= coefs.len(),
                coefs == self.coefs@,
                rp == self.modulus(),
                forall|k: int| 0 <= k < i ==> coefs[k] == 0 || has_log(rp, #[trigger] coefs[k]),
                out@ == joined(terms(rp, coefs.take(i as int))),
                none_yet <==> terms(rp, coefs.take(i as int)).len() == 0,
            decreases coefs.len() - i,
        {
            let c = self.coefs[i];
            proof {
                assert(coefs.take(i + 1).drop_last() =~= coefs.take(i as int));
            }
            if c != 0 {
                let l = match self.field.discrete_log(c) {
                    Ok(l) => l,
                    Err(_) => {
                        assert(!has_log(rp, coefs[i as int]));
                        return Err(FieldError::ConsistencyError);
                    },
                };
                if !none_yet {
                    out.append(" + ");
                }
                append_term(&mut out, l, i);
                none_yet = false;
                proof {
                    reveal_strlit(" + ");
                    let before = terms(rp, coefs.take(i as int));
                    let after = terms(rp, coefs.take(i + 1));
                    assert(after.drop_last() =~= before);
                    assert(out@ =~= joined(after));
                }
            }
            i += 1;
        }
        assert(coefs.take(i as int) =~= coefs);
        if none_yet {
            out.append("0");
            proof {
                reveal_strlit("0");
            }
            assert(out@ =~= seq!['0']);
        }
        Ok(out)
    }
}

/// The polynomial over `field` whose coefficients are the integers `coefficients`. An
/// integer that is no byte is refused.
pub fn build_polynomial<'a>(coefficients: &[i64], field: &'a FieldTable) -> (result: Result<
    GFPoly<'a>,
    FieldError,
>)
    ensures
        match result {
            Ok(p) => {
                &&& all_bytes(coefficients@)
                &&& p@.len() == coefficients@.len()
                &&& forall|i: int| 0 <= i < p@.len() ==> p@[i] as int == coefficients@[i]
                &&& p.modulus() == field.modulus()
            },
            Err(e) => e == FieldError::DomainError && !all_bytes(coefficients@),
        },
{
    let mut coefs: Vec<u8> = Vec::new();
    let mut i: usize = 0;
    while i < coefficients.len()
        invariant
            i <= coefficients@.len(),
            coefs@.len() == i,
            forall|k: int| 0 <= k < i ==> 0 <= #[trigger] coefficients@[k] <= 255,
            forall|k: int| 0 <= k < i ==> coefs@[k] as int == coefficients@[k],
        decreases coefficients@.len() - i,
    {
        let c = coefficients[i];
        if c < 0 || c > 255 {
            return Err(FieldError::DomainError);
        }
        coefs.push(c as u8);
        i += 1;
    }
    Ok(GFPoly::with_coefs(coefs, field))
}

} // verus!
