//! The mathematical model of GF(2^8): powers of the generator, discrete logarithms,
//! sums and products of field elements, and the laws that relate them.

use vstd::prelude::*;
use vstd::set_lib::*;

verus! {

/// The reducing polynomial that is used by default, `x^8 + x^4 + x^3 + x^2 + 1`.
pub const CANONICAL_POLYNOMIAL: u16 = 285;

/// Length of the power table; twice the group order and a little more, so that the sum
/// of two logarithms indexes it without a reduction.
pub const TABLE_LEN: usize = 512;

/// Order of the multiplicative group of GF(2^8).
pub const GROUP_ORDER: usize = 255;

/// Whether `rp` is the bit pattern of a binary polynomial of degree eight.
pub open spec fn degree_eight(rp: u16) -> bool {
    256 <= rp <= 511
}

/// The product of `v` and the generator: `v` shifted left by one bit, folded back into
/// a byte by the reducing polynomial when the shift overflows.
pub open spec fn double(rp: u16, v: u8) -> u8 {
    let d = (v as u16) << 1u16;
    if d >= 256 {
        (d ^ rp) as u8
    } else {
        d as u8
    }
}

/// `v` doubled `k` times, that is the product of `v` and the `k`-th power of the generator.
pub open spec fn shifted(rp: u16, v: u8, k: nat) -> u8
    decreases k,
{
    if k == 0 {
        v
    } else {
        double(rp, shifted(rp, v, (k - 1) as nat))
    }
}

/// The `n`-th power of the generator: `power(rp, 0) == 1`, and each further entry is the
/// double of the one before.
pub open spec fn power(rp: u16, n: nat) -> u8 {
    shifted(rp, 1, n)
}

/// The first 512 powers of the generator, as the table holds them.
pub open spec fn power_table(rp: u16) -> Seq<u8> {
    Seq::new(TABLE_LEN as nat, |i: int| power(rp, i as nat))
}

/// `i` is the discrete logarithm of `v`: the least exponent below 255 whose power is `v`.
pub open spec fn is_log(rp: u16, v: u8, i: nat) -> bool {
    &&& i < 255
    &&& power(rp, i) == v
    &&& forall|j: nat| j < i ==> power(rp, j) != v
}

/// Whether some exponent below 255 has `v` as its power.
pub open spec fn has_log(rp: u16, v: u8) -> bool {
    exists|i: nat| i < 255 && power(rp, i) == v
}

/// The discrete logarithm of `v`; meaningful where `has_log(rp, v)`.
pub open spec fn log(rp: u16, v: u8) -> nat {
    choose|i: nat| is_log(rp, v, i)
}

/// Field addition: bitwise exclusive or.
pub open spec fn sum(a: u8, b: u8) -> u8 {
    a ^ b
}

/// Whether the product of `a` and `b` can be read off the tables: a factor is zero, or
/// both have a logarithm.
pub open spec fn product_defined(rp: u16, a: u8, b: u8) -> bool {
    a == 0 || b == 0 || (has_log(rp, a) && has_log(rp, b))
}

/// Field multiplication: zero if a factor is zero, else the power whose exponent is the
/// sum of the two logarithms.
pub open spec fn product(rp: u16, a: u8, b: u8) -> u8 {
    if a == 0 || b == 0 {
        0
    } else {
        power(rp, log(rp, a) + log(rp, b))
    }
}

/// Whether the powers of the generator under `rp` have period exactly 255: the table
/// closes at index 255 and not before.
pub open spec fn primitive(rp: u16) -> bool {
    &&& degree_eight(rp)
    &&& power(rp, 255) == 1
    &&& forall|i: nat| 0 < i < 255 ==> power(rp, i) != 1
}

// ---------------------------------------------------------------------------------------
// Doubling
// ---------------------------------------------------------------------------------------

proof fn lemma_double_facts(rp: u16, u: u8, v: u8)
    by (bit_vector)
    requires
        256 <= rp <= 511,
    ensures
        double(rp, 0) == 0,
        double(rp, u ^ v) == double(rp, u) ^ double(rp, v),
{
}

/// Doubling `k` times after doubling `j` times is doubling `j + k` times.
pub proof fn lemma_shifted_add(rp: u16, v: u8, j: nat, k: nat)
    ensures
        shifted(rp, shifted(rp, v, j), k) == shifted(rp, v, j + k),
    decreases k,
{
    if k > 0 {
        lemma_shifted_add(rp, v, j, (k - 1) as nat);
    }
}

/// Zero stays zero however often it is doubled.
pub proof fn lemma_shifted_zero(rp: u16, k: nat)
    requires
        degree_eight(rp),
    ensures
        shifted(rp, 0, k) == 0,
    decreases k,
{
    if k > 0 {
        lemma_shifted_zero(rp, (k - 1) as nat);
        lemma_double_facts(rp, 0, 0);
    }
}

/// Doubling is linear over field addition.
pub proof fn lemma_shifted_sum(rp: u16, u: u8, v: u8, k: nat)
    requires
        degree_eight(rp),
    ensures
        shifted(rp, sum(u, v), k) == sum(shifted(rp, u, k), shifted(rp, v, k)),
    decreases k,
{
    if k > 0 {
        lemma_shifted_sum(rp, u, v, (k - 1) as nat);
        lemma_double_facts(rp, shifted(rp, u, (k - 1) as nat), shifted(rp, v, (k - 1) as nat));
    }
}

// ---------------------------------------------------------------------------------------
// Powers
// ---------------------------------------------------------------------------------------

/// Doubling the `j`-th power `k` times gives the power of `j + k`.
pub proof fn lemma_power_add(rp: u16, j: nat, k: nat)
    ensures
        shifted(rp, power(rp, j), k) == power(rp, j + k),
{
    lemma_shifted_add(rp, 1, j, k);
}

/// Once the table closes at 255, the powers repeat with that period.
pub proof fn lemma_power_mod(rp: u16, n: nat)
    requires
        power(rp, 255) == 1,
    ensures
        power(rp, n) == power(rp, n % 255),
    decreases n,
{
    if n >= 255 {
        let m = (n - 255) as nat;
        lemma_power_mod(rp, m);
        lemma_shifted_add(rp, 1, 255, m);
        assert(m % 255 == n % 255);
    }
}

/// No power of the generator of a primitive polynomial is zero.
pub proof fn lemma_power_nonzero(rp: u16, n: nat)
    requires
        primitive(rp),
    ensures
        power(rp, n) != 0,
{
    lemma_power_mod(rp, n);
    let r = n % 255;
    if power(rp, r) == 0 {
        lemma_power_add(rp, r, (255 - r) as nat);
        lemma_shifted_zero(rp, (255 - r) as nat);
        assert(false);
    }
}

/// Under a primitive polynomial the first 255 powers are pairwise distinct.
pub proof fn lemma_power_injective(rp: u16, i: nat, j: nat)
    requires
        primitive(rp),
        i < 255,
        j < 255,
        power(rp, i) == power(rp, j),
    ensures
        i == j,
{
    if i != j {
        let lo = if i < j { i } else { j };
        let hi = if i < j { j } else { i };
        let k = (255 - hi) as nat;
        lemma_power_add(rp, lo, k);
        lemma_power_add(rp, hi, k);
        assert(power(rp, lo + k) == 1);
        assert(0 < lo + k < 255);
        assert(false);
    }
}

// ---------------------------------------------------------------------------------------
// Logarithms
// ---------------------------------------------------------------------------------------

proof fn lemma_least_exponent(rp: u16, v: u8, i: nat)
    requires
        i < 255,
        power(rp, i) == v,
    ensures
        exists|k: nat| is_log(rp, v, k),
    decreases i,
{
    if forall|j: nat| j < i ==> power(rp, j) != v {
        assert(is_log(rp, v, i));
    } else {
        let j = choose|j: nat| j < i && power(rp, j) == v;
        lemma_least_exponent(rp, v, j);
    }
}

/// An element that occurs among the first 255 powers has its logarithm: the least
/// exponent that gives it.
pub proof fn lemma_log_is_log(rp: u16, v: u8)
    requires
        has_log(rp, v),
    ensures
        is_log(rp, v, log(rp, v)),
{
    let i = choose|i: nat| i < 255 && power(rp, i) == v;
    lemma_least_exponent(rp, v, i);
}

/// The logarithm is unique.
pub proof fn lemma_log_unique(rp: u16, v: u8, i: nat)
    requires
        is_log(rp, v, i),
    ensures
        has_log(rp, v),
        log(rp, v) == i,
{
    lemma_log_is_log(rp, v);
}

/// One is the zeroth power under every polynomial.
pub proof fn lemma_log_one(rp: u16)
    ensures
        is_log(rp, 1, 0),
        has_log(rp, 1),
        log(rp, 1) == 0,
{
    assert(power(rp, 0) == 1);
    assert(is_log(rp, 1, 0));
    lemma_log_unique(rp, 1, 0);
}

/// Under a primitive polynomial the logarithm of the `n`-th power is `n mod 255`.
pub proof fn lemma_log_of_power(rp: u16, n: nat)
    requires
        primitive(rp),
    ensures
        is_log(rp, power(rp, n), n % 255),
        has_log(rp, power(rp, n)),
        log(rp, power(rp, n)) == n % 255,
{
    lemma_power_mod(rp, n);
    let r = n % 255;
    let v = power(rp, n);
    assert forall|j: nat| j < r implies power(rp, j) != v by {
        if power(rp, j) == v {
            lemma_power_injective(rp, j, r);
        }
    }
    assert(is_log(rp, v, r));
    lemma_log_unique(rp, v, r);
}

/// Under a primitive polynomial every nonzero byte is a power of the generator: the
/// first 255 powers are a permutation of the nonzero bytes.
pub proof fn lemma_nonzero_has_log(rp: u16, v: u8)
    requires
        primitive(rp),
        v != 0,
    ensures
        has_log(rp, v),
        is_log(rp, v, log(rp, v)),
{
    let dom = set_int_range(0, 255);
    let f = |i: int| power(rp, i as nat) as int;
    let img = dom.map(f);
    let all = set_int_range(1, 256);
    lemma_int_range(0, 255);
    lemma_int_range(1, 256);
    assert(vstd::relations::injective_on(f, dom)) by {
        assert forall|a: int, b: int|
            dom.contains(a) && dom.contains(b) && #[trigger] f(a) == #[trigger] f(b) implies a
            == b by {
            lemma_power_injective(rp, a as nat, b as nat);
        }
    }
    lemma_map_size(dom, img, f);
    assert(img.subset_of(all)) by {
        assert forall|y: int| img.contains(y) implies all.contains(y) by {
            let a = choose|a: int| dom.contains(a) && y == f(a);
            lemma_power_nonzero(rp, a as nat);
        }
    }
    lemma_subset_equality(img, all);
    assert(all.contains(v as int));
    assert(img.contains(v as int));
    let a = choose|a: int| dom.contains(a) && v as int == f(a);
    assert(power(rp, a as nat) == v);
    lemma_log_is_log(rp, v);
}

/// Under a primitive polynomial the table closes at index 255, and its first 255 entries
/// are a permutation of the nonzero bytes: none is zero, no two are equal, and every
/// nonzero byte is among them.
pub proof fn lemma_powers_permute_nonzero_bytes(rp: u16)
    requires
        primitive(rp),
    ensures
        power(rp, 255) == 1,
        forall|i: nat| i < 255 ==> power(rp, i) != 0,
        forall|i: nat, j: nat| i < 255 && j < 255 && power(rp, i) == power(rp, j) ==> i == j,
        forall|v: u8| v != 0 ==> has_log(rp, v),
{
    assert forall|i: nat| i < 255 implies power(rp, i) != 0 by {
        lemma_power_nonzero(rp, i);
    }
    assert forall|i: nat, j: nat| i < 255 && j < 255 && power(rp, i) == power(rp, j) implies i
        == j by {
        lemma_power_injective(rp, i, j);
    }
    assert forall|v: u8| v != 0 implies has_log(rp, v) by {
        lemma_nonzero_has_log(rp, v);
    }
}

/// The table repeats with period 255 once it closes there, so that the sum of two
/// logarithms indexes it without a reduction.
pub proof fn lemma_table_periodic(rp: u16, i: int)
    requires
        power(rp, 255) == 1,
        0 <= i < TABLE_LEN,
    ensures
        power_table(rp)[i] == power_table(rp)[i % 255],
{
    lemma_power_mod(rp, i as nat);
}

// ---------------------------------------------------------------------------------------
// Addition
// ---------------------------------------------------------------------------------------

/// Field addition is commutative and associative, zero is its identity, and every
/// element is its own inverse.
pub proof fn lemma_sum_laws(a: u8, b: u8, c: u8)
    by (bit_vector)
    ensures
        sum(a, b) == sum(b, a),
        sum(sum(a, b), c) == sum(a, sum(b, c)),
        sum(a, 0) == a,
        sum(0, a) == a,
        sum(a, a) == 0,
{
}

// ---------------------------------------------------------------------------------------
// Multiplication
// ---------------------------------------------------------------------------------------

/// Field multiplication is commutative, under every polynomial.
pub proof fn lemma_product_commutative(rp: u16, a: u8, b: u8)
    ensures
        product(rp, a, b) == product(rp, b, a),
        product_defined(rp, a, b) == product_defined(rp, b, a),
{
}

/// Multiplying by an element that has a logarithm doubles the other factor that many
/// times.
pub proof fn lemma_product_is_shifted(rp: u16, a: u8, b: u8)
    requires
        degree_eight(rp),
        a != 0,
        b == 0 || has_log(rp, b),
    ensures
        product(rp, a, b) == shifted(rp, b, log(rp, a)),
{
    if b == 0 {
        lemma_shifted_zero(rp, log(rp, a));
    } else {
        lemma_log_is_log(rp, b);
        lemma_shifted_add(rp, 1, log(rp, b), log(rp, a));
    }
}

/// One is the identity of multiplication for every element that has a logarithm.
pub proof fn lemma_product_one(rp: u16, a: u8)
    requires
        has_log(rp, a),
    ensures
        product(rp, a, 1) == a,
        product(rp, 1, a) == a,
        product_defined(rp, a, 1),
        product_defined(rp, 1, a),
{
    lemma_log_one(rp);
    lemma_log_is_log(rp, a);
}

/// In a field built from a primitive polynomial, the product of a nonzero element and
/// one is the element itself, and its square is the power of twice its logarithm.
pub proof fn lemma_product_identity_and_square(rp: u16, a: u8)
    requires
        primitive(rp),
        a != 0,
    ensures
        product(rp, a, 1) == a,
        product(rp, 1, a) == a,
        product(rp, a, a) == power(rp, 2 * log(rp, a)),
{
    lemma_nonzero_has_log(rp, a);
    lemma_product_one(rp, a);
}

/// In a field built from a primitive polynomial, every product is defined, and it is
/// zero only if a factor is.
pub proof fn lemma_product_total(rp: u16, a: u8, b: u8)
    requires
        primitive(rp),
    ensures
        product_defined(rp, a, b),
        product(rp, a, b) == 0 <==> a == 0 || b == 0,
{
    if a != 0 && b != 0 {
        lemma_nonzero_has_log(rp, a);
        lemma_nonzero_has_log(rp, b);
        lemma_power_nonzero(rp, log(rp, a) + log(rp, b));
    }
}

/// In a field built from a primitive polynomial, multiplication distributes over
/// addition.
pub proof fn lemma_product_distributes(rp: u16, a: u8, b: u8, c: u8)
    requires
        primitive(rp),
    ensures
        product(rp, a, sum(b, c)) == sum(product(rp, a, b), product(rp, a, c)),
        product(rp, sum(b, c), a) == sum(product(rp, b, a), product(rp, c, a)),
{
    if a == 0 {
        lemma_sum_laws(0, 0, 0);
    } else {
        let s = sum(b, c);
        if b != 0 {
            lemma_nonzero_has_log(rp, b);
        }
        if c != 0 {
            lemma_nonzero_has_log(rp, c);
        }
        if s != 0 {
            lemma_nonzero_has_log(rp, s);
        }
        lemma_product_is_shifted(rp, a, b);
        lemma_product_is_shifted(rp, a, c);
        lemma_product_is_shifted(rp, a, s);
        lemma_shifted_sum(rp, b, c, log(rp, a));
    }
    lemma_product_commutative(rp, a, sum(b, c));
    lemma_product_commutative(rp, a, b);
    lemma_product_commutative(rp, a, c);
}

/// The product of two powers is the power of the sum of the exponents.
pub proof fn lemma_product_of_powers(rp: u16, i: nat, j: nat)
    requires
        primitive(rp),
    ensures
        product(rp, power(rp, i), power(rp, j)) == power(rp, i + j),
{
    lemma_power_nonzero(rp, i);
    lemma_power_nonzero(rp, j);
    lemma_log_of_power(rp, i);
    lemma_log_of_power(rp, j);
    lemma_power_mod(rp, i % 255 + j % 255);
    lemma_power_mod(rp, i + j);
    assert((i % 255 + j % 255) % 255 == (i + j) % 255) by {
        vstd::arithmetic::div_mod::lemma_add_mod_noop(i as int, j as int, 255);
    }
}

/// In a field built from a primitive polynomial, multiplication is associative.
pub proof fn lemma_product_associative(rp: u16, a: u8, b: u8, c: u8)
    requires
        primitive(rp),
    ensures
        product(rp, product(rp, a, b), c) == product(rp, a, product(rp, b, c)),
{
    if a != 0 && b != 0 && c != 0 {
        lemma_nonzero_has_log(rp, a);
        lemma_nonzero_has_log(rp, b);
        lemma_nonzero_has_log(rp, c);
        let la = log(rp, a);
        let lb = log(rp, b);
        let lc = log(rp, c);
        assert(product(rp, a, b) == power(rp, la + lb));
        assert(product(rp, b, c) == power(rp, lb + lc));
        assert(a == power(rp, la) && c == power(rp, lc));
        lemma_product_of_powers(rp, la + lb, lc);
        lemma_product_of_powers(rp, la, lb + lc);
        assert(la + lb + lc == la + (lb + lc));
    }
}

} // verus!
