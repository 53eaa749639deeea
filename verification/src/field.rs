//! The field table: the powers of the generator under one reducing polynomial, with the
//! inverse table of discrete logarithms, and the field operations that read them.

use crate::galois::{
    degree_eight, double, has_log, is_log, lemma_log_unique, log, power, power_table, primitive,
    product, product_defined, sum, GROUP_ORDER, TABLE_LEN,
};
use vstd::prelude::*;

verus! {

/// Why an operation on field elements or polynomials was refused.
#[derive(Debug, Clone, Copy, PartialEq, Eq, Structural)]
pub enum FieldError {
    /// The caller's input is outside the domain: a reducing polynomial whose table does
    /// not close at period 255, a coefficient that is no byte, or the logarithm of zero.
    DomainError,
    /// The table has no logarithm for a nonzero element, which a table built from a
    /// primitive polynomial always has.
    ConsistencyError,
}

/// Marks an entry of the logarithm table whose element is no power of the generator.
const NO_LOG: u8 = 255;

/// The power and logarithm tables of GF(2^8) under one reducing polynomial.
#[derive(Debug)]
pub struct FieldTable {
    reducing_polynomial: u16,
    power_table: Vec<u8>,
    log_table: Vec<u8>,
}

/// What the logarithm table holds for `v`: its logarithm, or the mark that it has none.
spec fn log_entry(rp: u16, v: u8, entry: u8) -> bool {
    if entry < NO_LOG {
        is_log(rp, v, entry as nat)
    } else {
        !has_log(rp, v)
    }
}

/// The product of `v` and the generator.
fn times_generator(rp: u16, v: u8) -> (r: u8)
    requires
        degree_eight(rp),
    ensures
        r == double(rp, v),
{
    let d: u16 = (v as u16) << 1u16;
    if d >= 256 {
        assert(d ^ rp < 256) by (bit_vector)
            requires
                d == (v as u16) << 1u16,
                256 <= rp <= 511,
                d >= 256,
        ;
        (d ^ rp) as u8
    } else {
        d as u8
    }
}

impl FieldTable {
    #[verifier::type_invariant]
    spec fn well_formed(&self) -> bool {
        &&& degree_eight(self.reducing_polynomial)
        &&& self.power_table@.len() == TABLE_LEN
        &&& forall|i: int|
            0 <= i < TABLE_LEN ==> self.power_table@[i] == power(
                self.reducing_polynomial,
                i as nat,
            )
        &&& self.log_table@.len() == 256
        &&& forall|v: int|
            0 <= v < 256 ==> log_entry(self.reducing_polynomial, v as u8, self.log_table@[v])
    }

    /// The reducing polynomial that the table was built from.
    pub closed spec fn modulus(&self) -> u16 {
        self.reducing_polynomial
    }

    /// The entries of the power table.
    pub closed spec fn entries(&self) -> Seq<u8> {
        self.power_table@
    }

    /// Builds the table of `reducing_polynomial` by repeated doubling. Whether the
    /// polynomial is primitive is not examined here: see [`FieldTable::is_primitive`]
    /// and [`build_field`].
    pub fn new(reducing_polynomial: u16) -> (table: FieldTable)
        requires
            degree_eight(reducing_polynomial),
        ensures
            table.modulus() == reducing_polynomial,
            table.entries() == power_table(reducing_polynomial),
    {
        let rp = reducing_polynomial;
        let mut powers: Vec<u8> = Vec::new();
        let mut current: u8 = 1;
        powers.push(current);
        let mut i: usize = 1;
        while i < TABLE_LEN
            invariant
                degree_eight(rp),
                1 <= i <= TABLE_LEN,
                powers@.len() == i,
                current == power(rp, (i - 1) as nat),
                forall|k: int| 0 <= k < i ==> powers@[k] == power(rp, k as nat),
            decreases TABLE_LEN - i,
        {
            current = times_generator(rp, current);
            powers.push(current);
            i += 1;
        }
        let mut logs: Vec<u8> = vec![NO_LOG; 256];
        let mut e: usize = 0;
        while e < GROUP_ORDER
            invariant
                e <= GROUP_ORDER,
                powers@.len() == TABLE_LEN,
                forall|k: int| 0 <= k < TABLE_LEN ==> powers@[k] == power(rp, k as nat),
                logs@.len() == 256,
                forall|v: int|
                    0 <= v < 256 ==> if #[trigger] logs@[v] < NO_LOG {
                        logs@[v] < e && is_log(rp, v as u8, logs@[v] as nat)
                    } else {
                        forall|j: nat| j < e ==> power(rp, j) != v
                    },
            decreases GROUP_ORDER - e,
        {
            let v = powers[e];
            if logs[v as usize] == NO_LOG {
                logs.set(v as usize, e as u8);
            }
            e += 1;
        }
        assert(powers@ =~= power_table(rp));
        FieldTable { reducing_polynomial, power_table: powers, log_table: logs }
    }

    /// The reducing polynomial that the table was built from.
    pub fn reducing_polynomial(&self) -> (rp: u16)
        ensures
            rp == self.modulus(),
            degree_eight(rp),
    {
        proof {
            use_type_invariant(self);
        }
        self.reducing_polynomial
    }

    /// Whether the table has period exactly 255: it closes at index 255 and at no index
    /// before. Then, and only then, the polynomial is primitive and the first 255 powers
    /// are a permutation of the nonzero bytes.
    pub fn is_primitive(&self) -> (b: bool)
        ensures
            b == primitive(self.modulus()),
    {
        proof {
            use_type_invariant(self);
        }
        if self.power_table[GROUP_ORDER] != 1 {
            return false;
        }
        let mut i: usize = 1;
        while i < GROUP_ORDER
            invariant
                1 <= i <= GROUP_ORDER,
                self.power_table@.len() == TABLE_LEN,
                forall|k: int|
                    0 <= k < TABLE_LEN ==> self.power_table@[k] == power(
                        self.modulus(),
                        k as nat,
                    ),
                forall|k: nat| 0 < k < i ==> power(self.modulus(), k) != 1,
            decreases GROUP_ORDER - i,
        {
            if self.power_table[i] == 1 {
                return false;
            }
            i += 1;
        }
        true
    }

    /// The `exponent`-th power of the generator, read from the table.
    pub fn power(&self, exponent: usize) -> (value: u8)
        requires
            exponent < TABLE_LEN,
        ensures
            value == power(self.modulus(), exponent as nat),
            value == self.entries()[exponent as int],
            self.entries() == power_table(self.modulus()),
    {
        proof {
            use_type_invariant(self);
            assert(self.power_table@ =~= power_table(self.modulus()));
        }
        self.power_table[exponent]
    }

    /// The discrete logarithm of `value`: the one exponent below 255 at which the table
    /// first holds `value`. Zero has no logarithm; an element that the table does not
    /// hold has none either, which shows a polynomial that is not primitive.
    pub fn discrete_log(&self, value: u8) -> (result: Result<u8, FieldError>)
        ensures
            match result {
                Ok(l) => value != 0 && is_log(self.modulus(), value, l as nat) && l as nat
                    == log(self.modulus(), value),
                Err(FieldError::DomainError) => value == 0,
                Err(FieldError::ConsistencyError) => value != 0 && !has_log(
                    self.modulus(),
                    value,
                ),
            },
    {
        proof {
            use_type_invariant(self);
        }
        if value == 0 {
            return Err(FieldError::DomainError);
        }
        let entry = self.log_table[value as usize];
        assert(log_entry(self.modulus(), value, entry));
        if entry == NO_LOG {
            Err(FieldError::ConsistencyError)
        } else {
            proof {
                lemma_log_unique(self.modulus(), value, entry as nat);
            }
            Ok(entry)
        }
    }
}

/// Builds the field of `reducing_polynomial` and checks that its table closes at period
/// 255. A polynomial that is not of degree eight, or whose table does not close there, is
/// refused.
pub fn build_field(reducing_polynomial: u16) -> (result: Result<FieldTable, FieldError>)
    ensures
        match result {
            Ok(table) => primitive(reducing_polynomial) && table.modulus()
                == reducing_polynomial,
            Err(e) => e == FieldError::DomainError && !primitive(reducing_polynomial),
        },
{
    if reducing_polynomial < 256 || reducing_polynomial > 511 {
        return Err(FieldError::DomainError);
    }
    let table = FieldTable::new(reducing_polynomial);
    if table.is_primitive() {
        Ok(table)
    } else {
        Err(FieldError::DomainError)
    }
}

/// The sum of two field elements.
pub fn gf_add(a: u8, b: u8) -> (r: u8)
    ensures
        r == sum(a, b),
{
    a ^ b
}

/// The product of two field elements, by the sum of their logarithms. It is refused
/// where a nonzero factor has no logarithm in `field`.
pub fn gf_mul(a: u8, b: u8, field: &FieldTable) -> (result: Result<u8, FieldError>)
    ensures
        match result {
            Ok(p) => product_defined(field.modulus(), a, b) && p == product(
                field.modulus(),
                a,
                b,
            ),
            Err(e) => e == FieldError::ConsistencyError && !product_defined(
                field.modulus(),
                a,
                b,
            ),
        },
{
    if a == 0 || b == 0 {
        return Ok(0);
    }
    let log_a = match field.discrete_log(a) {
        Ok(l) => l,
        Err(_) => {
            return Err(FieldError::ConsistencyError);
        },
    };
    let log_b = match field.discrete_log(b) {
        Ok(l) => l,
        Err(_) => {
            return Err(FieldError::ConsistencyError);
        },
    };
    Ok(field.power(log_a as usize + log_b as usize))
}

} // verus!
