use gfpoly::galois::{CANONICAL_POLYNOMIAL, GROUP_ORDER, TABLE_LEN};
use gfpoly::{build_field, gf_add, gf_mul, FieldError, FieldTable};

#[test]
fn canonical_table_closes_at_period_255() {
    let field = build_field(285).unwrap();
    assert_eq!(field.reducing_polynomial(), 285);
    assert!(field.is_primitive());
    assert_eq!(field.power(0), 1);
    assert_eq!(field.power(255), 1);
}

#[test]
fn canonical_polynomial_is_primitive() {
    assert_eq!(CANONICAL_POLYNOMIAL, 285);
    assert_eq!(GROUP_ORDER, 255);
    assert_eq!(TABLE_LEN, 512);
    let field = build_field(CANONICAL_POLYNOMIAL).unwrap();
    assert_eq!(field.power(GROUP_ORDER), 1);
    assert_eq!(field.power(TABLE_LEN - 1), 2);
    assert_eq!(FieldTable::new(CANONICAL_POLYNOMIAL).reducing_polynomial(), 285);
}

#[test]
fn canonical_table_permutes_the_nonzero_bytes() {
    let field = build_field(285).unwrap();
    let mut seen = [false; 256];
    for i in 0..255 {
        let v = field.power(i) as usize;
        assert_ne!(v, 0);
        assert!(!seen[v], "power {} occurs twice", i);
        seen[v] = true;
    }
    assert!(!seen[0]);
    assert!(seen[1..].iter().all(|s| *s));
}

#[test]
fn table_entries_are_doubles_of_their_predecessors() {
    let field = build_field(285).unwrap();
    for i in 1..512usize {
        let prev = field.power(i - 1) as u16;
        let shifted = prev << 1;
        let expected = if shifted >= 256 { shifted ^ 285 } else { shifted };
        assert_eq!(field.power(i) as u16, expected);
    }
}

#[test]
fn table_repeats_with_period_255() {
    let field = build_field(285).unwrap();
    for i in 0..512usize {
        assert_eq!(field.power(i), field.power(i % 255));
    }
}

#[test]
fn known_powers() {
    let field = build_field(285).unwrap();
    assert_eq!(field.power(1), 2);
    assert_eq!(field.power(7), 128);
    assert_eq!(field.power(8), 29);
    assert_eq!(field.power(9), 58);
    assert_eq!(field.power(25), 3);
    assert_eq!(field.power(254), 142);
    assert_eq!(field.power(508), 71);
    assert_eq!(field.power(510), 1);
    assert_eq!(field.power(511), 2);
}

#[test]
fn known_logarithms() {
    let field = build_field(285).unwrap();
    assert_eq!(field.discrete_log(1), Ok(0));
    assert_eq!(field.discrete_log(2), Ok(1));
    assert_eq!(field.discrete_log(3), Ok(25));
    assert_eq!(field.discrete_log(29), Ok(8));
    assert_eq!(field.discrete_log(142), Ok(254));
    assert_eq!(field.discrete_log(255), Ok(175));
}

#[test]
fn logarithm_inverts_power() {
    let field = build_field(285).unwrap();
    for v in 1..=255u8 {
        let l = field.discrete_log(v).unwrap();
        assert!(l < 255);
        assert_eq!(field.power(l as usize), v);
    }
    for i in 0..255usize {
        assert_eq!(field.discrete_log(field.power(i)), Ok(i as u8));
    }
}

#[test]
fn logarithm_of_zero_is_a_domain_error() {
    let field = build_field(285).unwrap();
    assert_eq!(field.discrete_log(0), Err(FieldError::DomainError));
}

#[test]
fn logarithm_missing_from_the_table_is_a_consistency_error() {
    // 283 is irreducible, yet its generator has order 51 only.
    let field = FieldTable::new(283);
    assert!(!field.is_primitive());
    assert_eq!(field.discrete_log(2), Ok(1));
    assert_eq!(field.discrete_log(3), Err(FieldError::ConsistencyError));
    assert_eq!(field.discrete_log(0), Err(FieldError::DomainError));
}

#[test]
fn logarithm_is_the_least_exponent() {
    let field = FieldTable::new(283);
    assert_eq!(field.power(51), 1);
    assert_eq!(field.discrete_log(1), Ok(0));
    assert_eq!(field.discrete_log(field.power(60)), Ok(9));
}

#[test]
fn build_field_refuses_what_is_not_of_degree_eight() {
    assert_eq!(build_field(0).err(), Some(FieldError::DomainError));
    assert_eq!(build_field(29).err(), Some(FieldError::DomainError));
    assert_eq!(build_field(255).err(), Some(FieldError::DomainError));
    assert_eq!(build_field(512).err(), Some(FieldError::DomainError));
    assert_eq!(build_field(285 + 512).err(), Some(FieldError::DomainError));
    assert_eq!(build_field(u16::MAX).err(), Some(FieldError::DomainError));
}

#[test]
fn build_field_refuses_tables_that_do_not_close() {
    // x^8: the powers run into zero.
    assert_eq!(build_field(256).err(), Some(FieldError::DomainError));
    // x^8 + 1: period 8.
    assert_eq!(build_field(257).err(), Some(FieldError::DomainError));
    // Irreducible but not primitive: period 51.
    assert_eq!(build_field(283).err(), Some(FieldError::DomainError));
    // Reducible.
    assert_eq!(build_field(284).err(), Some(FieldError::DomainError));
}

#[test]
fn exactly_sixteen_polynomials_are_primitive() {
    let primitive: Vec<u16> = (256..512u16).filter(|rp| build_field(*rp).is_ok()).collect();
    assert_eq!(
        primitive,
        vec![285, 299, 301, 333, 351, 355, 357, 361, 369, 391, 397, 425, 451, 463, 487, 501]
    );
}

#[test]
fn addition_is_exclusive_or() {
    assert_eq!(gf_add(0, 0), 0);
    assert_eq!(gf_add(5, 0), 5);
    assert_eq!(gf_add(0, 5), 5);
    assert_eq!(gf_add(1, 1), 0);
    assert_eq!(gf_add(3, 5), 6);
    assert_eq!(gf_add(0xf0, 0x3c), 0xcc);
}

#[test]
fn addition_is_commutative_and_self_inverse() {
    for a in 0..=255u8 {
        assert_eq!(gf_add(a, a), 0);
        assert_eq!(gf_add(a, 0), a);
        for b in 0..=255u8 {
            assert_eq!(gf_add(a, b), gf_add(b, a));
        }
    }
}

#[test]
fn known_products() {
    let field = build_field(285).unwrap();
    assert_eq!(gf_mul(0, 0, &field), Ok(0));
    assert_eq!(gf_mul(0, 7, &field), Ok(0));
    assert_eq!(gf_mul(7, 0, &field), Ok(0));
    assert_eq!(gf_mul(1, 1, &field), Ok(1));
    assert_eq!(gf_mul(2, 2, &field), Ok(4));
    assert_eq!(gf_mul(3, 3, &field), Ok(5));
    assert_eq!(gf_mul(2, 128, &field), Ok(29));
    assert_eq!(gf_mul(128, 128, &field), Ok(19));
    assert_eq!(gf_mul(142, 2, &field), Ok(1));
    assert_eq!(gf_mul(142, 142, &field), Ok(71));
}

#[test]
fn one_is_the_identity_and_squares_double_the_logarithm() {
    let field = build_field(285).unwrap();
    for a in 1..=255u8 {
        assert_eq!(gf_mul(a, 1, &field), Ok(a));
        assert_eq!(gf_mul(1, a, &field), Ok(a));
        let l = field.discrete_log(a).unwrap() as usize;
        assert_eq!(gf_mul(a, a, &field), Ok(field.power(2 * l)));
    }
}

/// Carryless multiplication followed by reduction, bit by bit.
fn schoolbook(a: u8, b: u8, rp: u16) -> u8 {
    let mut acc: u16 = 0;
    for bit in 0..8 {
        if (b >> bit) & 1 == 1 {
            acc ^= (a as u16) << bit;
        }
    }
    for bit in (8..16).rev() {
        if (acc >> bit) & 1 == 1 {
            acc ^= rp << (bit - 8);
        }
    }
    acc as u8
}

#[test]
fn products_agree_with_carryless_multiplication() {
    for rp in [285u16, 299, 501] {
        let field = build_field(rp).unwrap();
        for a in 0..=255u8 {
            for b in 0..=255u8 {
                assert_eq!(gf_mul(a, b, &field), Ok(schoolbook(a, b, rp)));
            }
        }
    }
}

#[test]
fn multiplication_is_commutative() {
    let field = build_field(285).unwrap();
    for a in 0..=255u8 {
        for b in 0..=255u8 {
            assert_eq!(gf_mul(a, b, &field), gf_mul(b, a, &field));
        }
    }
}

#[test]
fn multiplication_distributes_over_addition() {
    let field = build_field(285).unwrap();
    for a in 0..=255u8 {
        for b in 0..=255u8 {
            for c in [0u8, 1, 2, 3, 29, 77, 128, 142, 254, 255] {
                let left = gf_mul(a, gf_add(b, c), &field).unwrap();
                let right = gf_add(gf_mul(a, b, &field).unwrap(), gf_mul(a, c, &field).unwrap());
                assert_eq!(left, right);
            }
        }
    }
}

#[test]
fn multiplication_is_associative() {
    let field = build_field(285).unwrap();
    for a in 0..=255u8 {
        for b in 0..=255u8 {
            for c in [0u8, 1, 2, 3, 29, 142, 255] {
                let ab = gf_mul(a, b, &field).unwrap();
                let bc = gf_mul(b, c, &field).unwrap();
                assert_eq!(gf_mul(ab, c, &field), gf_mul(a, bc, &field));
            }
        }
    }
}

#[test]
fn product_without_a_logarithm_is_a_consistency_error() {
    let field = FieldTable::new(283);
    assert_eq!(gf_mul(3, 2, &field), Err(FieldError::ConsistencyError));
    assert_eq!(gf_mul(2, 3, &field), Err(FieldError::ConsistencyError));
    assert_eq!(gf_mul(3, 3, &field), Err(FieldError::ConsistencyError));
    // A zero factor decides before any logarithm is looked up.
    assert_eq!(gf_mul(3, 0, &field), Ok(0));
    assert_eq!(gf_mul(0, 3, &field), Ok(0));
    // Powers of the generator still multiply.
    assert_eq!(gf_mul(2, 4, &field), Ok(8));
    assert_eq!(gf_mul(128, 2, &field), Ok(27));
}
