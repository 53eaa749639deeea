use gfpoly::{build_field, build_polynomial, FieldError, FieldTable, GFPoly};

fn render(coefs: &[u8]) -> String {
    let field = build_field(285).unwrap();
    GFPoly::with_coefs(coefs.to_vec(), &field).render().unwrap()
}

#[test]
fn zero_renders_as_zero() {
    assert_eq!(render(&[0]), "0");
}

#[test]
fn one_renders_as_one() {
    assert_eq!(render(&[1]), "1");
}

#[test]
fn the_variable_renders_bare() {
    assert_eq!(render(&[0, 1]), "x");
}

#[test]
fn terms_are_joined_by_plus() {
    assert_eq!(render(&[1, 1]), "1 + x");
}

#[test]
fn coefficient_and_variable_factors_are_joined_by_a_space() {
    assert_eq!(render(&[0, 0, 3]), "a^25 x^2");
}

#[test]
fn square_of_one_plus_x() {
    let field = build_field(285).unwrap();
    let p = GFPoly::with_coefs(vec![1, 1], &field);
    let q = GFPoly::with_coefs(vec![1, 1], &field);
    let square = p.mul(&q).unwrap();
    assert_eq!(square.coefs(), &vec![1, 0, 1]);
    assert_eq!(square.render().unwrap(), "1 + x^2");
}

#[test]
fn empty_polynomial_renders_as_zero() {
    assert_eq!(render(&[]), "0");
    assert_eq!(render(&[0, 0, 0, 0]), "0");
}

#[test]
fn generator_coefficient_renders_without_exponent() {
    assert_eq!(render(&[2]), "a");
    assert_eq!(render(&[0, 2]), "a x");
    assert_eq!(render(&[0, 0, 2]), "a x^2");
    assert_eq!(render(&[4]), "a^2");
    assert_eq!(render(&[4, 4]), "a^2 + a^2 x");
}

#[test]
fn zero_coefficients_are_skipped() {
    assert_eq!(render(&[3, 0, 1]), "a^25 + x^2");
    assert_eq!(render(&[0, 1, 0, 2, 0]), "x + a x^3");
    assert_eq!(render(&[1, 2, 3, 4]), "1 + a x + a^25 x^2 + a^2 x^3");
}

#[test]
fn exponents_are_written_in_decimal() {
    let mut coefs = vec![0u8; 1235];
    coefs[10] = 142;
    coefs[100] = 255;
    coefs[1234] = 1;
    assert_eq!(render(&coefs), "a^254 x^10 + a^175 x^100 + x^1234");
    assert_eq!(render(&[0, 0, 0, 0, 0, 0, 0, 0, 0, 29]), "a^8 x^9");
    assert_eq!(render(&[116]), "a^10");
}

#[test]
fn render_gives_the_same_text_each_time() {
    let field = build_field(285).unwrap();
    let p = GFPoly::with_coefs(vec![7, 0, 3, 200, 1], &field);
    let first = p.render().unwrap();
    let second = p.render().unwrap();
    assert_eq!(first, second);
    assert_eq!(p.coefs(), &vec![7, 0, 3, 200, 1]);
}

#[test]
fn render_without_a_logarithm_is_a_consistency_error() {
    let field = FieldTable::new(283);
    assert_eq!(
        GFPoly::with_coefs(vec![1, 3], &field).render(),
        Err(FieldError::ConsistencyError)
    );
    assert_eq!(GFPoly::with_coefs(vec![1, 2, 0], &field).render().unwrap(), "1 + a x");
}

#[test]
fn with_coefs_keeps_coefficients_and_field() {
    let field = build_field(285).unwrap();
    let p = GFPoly::with_coefs(vec![9, 8, 0], &field);
    assert_eq!(p.coefs(), &vec![9, 8, 0]);
    assert_eq!(p.field().reducing_polynomial(), 285);
}

#[test]
fn product_has_the_sum_of_the_lengths_less_one() {
    let field = build_field(285).unwrap();
    let p = GFPoly::with_coefs(vec![1, 2, 3], &field);
    let q = GFPoly::with_coefs(vec![4, 5, 6, 7], &field);
    assert_eq!(p.mul(&q).unwrap().coefs().len(), 6);
    let single = GFPoly::with_coefs(vec![9], &field);
    assert_eq!(single.mul(&single).unwrap().coefs().len(), 1);
}

#[test]
fn product_with_an_empty_polynomial_is_empty() {
    let field = build_field(285).unwrap();
    let p = GFPoly::with_coefs(vec![1, 2, 3], &field);
    let empty = GFPoly::with_coefs(vec![], &field);
    assert_eq!(p.mul(&empty).unwrap().coefs(), &Vec::<u8>::new());
    assert_eq!(empty.mul(&p).unwrap().coefs(), &Vec::<u8>::new());
    assert_eq!(empty.mul(&empty).unwrap().coefs(), &Vec::<u8>::new());
}

#[test]
fn known_product() {
    let field = build_field(285).unwrap();
    // (2 + 3x)(4 + 5x) = 8 + (2*5 + 3*4)x + 15x^2 = 8 + (10 ^ 12)x + 15x^2
    let p = GFPoly::with_coefs(vec![2, 3], &field);
    let q = GFPoly::with_coefs(vec![4, 5], &field);
    assert_eq!(p.mul(&q).unwrap().coefs(), &vec![8, 6, 15]);
    // (128 + x)(2 + 128x) = 29 + (19 ^ 2)x + 128x^2
    let r = GFPoly::with_coefs(vec![128, 1], &field);
    let s = GFPoly::with_coefs(vec![2, 128], &field);
    assert_eq!(r.mul(&s).unwrap().coefs(), &vec![29, 17, 128]);
}

#[test]
fn leading_zeros_are_kept_by_the_product() {
    let field = build_field(285).unwrap();
    let p = GFPoly::with_coefs(vec![1, 0], &field);
    let q = GFPoly::with_coefs(vec![1, 1, 0], &field);
    assert_eq!(p.mul(&q).unwrap().coefs(), &vec![1, 1, 0, 0]);
    let zero = GFPoly::with_coefs(vec![0, 0], &field);
    assert_eq!(zero.mul(&q).unwrap().coefs(), &vec![0, 0, 0, 0]);
}

#[test]
fn product_with_one_returns_the_coefficients() {
    let field = build_field(285).unwrap();
    let one = GFPoly::with_coefs(vec![1], &field);
    for coefs in [vec![], vec![0], vec![5], vec![1, 2, 3, 0], vec![255, 0, 0, 142, 7, 0]] {
        let p = GFPoly::with_coefs(coefs.clone(), &field);
        assert_eq!(p.mul(&one).unwrap().coefs(), &coefs);
        assert_eq!(one.mul(&p).unwrap().coefs(), &coefs);
    }
}

#[test]
fn polynomial_product_is_commutative() {
    let field = build_field(285).unwrap();
    let p = GFPoly::with_coefs(vec![17, 0, 200, 3], &field);
    let q = GFPoly::with_coefs(vec![9, 255, 1], &field);
    let pq = p.mul(&q).unwrap();
    let qp = q.mul(&p).unwrap();
    assert_eq!(pq.coefs(), qp.coefs());
}

#[test]
fn polynomial_product_is_associative() {
    let field = build_field(285).unwrap();
    let p = GFPoly::with_coefs(vec![17, 0, 200, 3], &field);
    let q = GFPoly::with_coefs(vec![9, 255, 1], &field);
    let r = GFPoly::with_coefs(vec![0, 142, 77, 1, 5], &field);
    let left = p.mul(&q).unwrap().mul(&r).unwrap();
    let right = p.mul(&q.mul(&r).unwrap()).unwrap();
    assert_eq!(left.coefs(), right.coefs());
    assert_eq!(left.coefs().len(), 10);
}

#[test]
fn polynomial_product_does_not_change_its_factors() {
    let field = build_field(285).unwrap();
    let p = GFPoly::with_coefs(vec![1, 2], &field);
    let q = GFPoly::with_coefs(vec![3, 4], &field);
    let _ = p.mul(&q).unwrap();
    assert_eq!(p.coefs(), &vec![1, 2]);
    assert_eq!(q.coefs(), &vec![3, 4]);
}

#[test]
fn polynomial_product_without_a_logarithm_is_a_consistency_error() {
    let field = FieldTable::new(283);
    let p = GFPoly::with_coefs(vec![2, 3], &field);
    let q = GFPoly::with_coefs(vec![0, 4], &field);
    assert_eq!(p.mul(&q).err(), Some(FieldError::ConsistencyError));
    assert_eq!(q.mul(&p).err(), Some(FieldError::ConsistencyError));
    // With only zeros on the other side no logarithm is needed.
    let zero = GFPoly::with_coefs(vec![0, 0], &field);
    assert_eq!(p.mul(&zero).unwrap().coefs(), &vec![0, 0, 0]);
    let r = GFPoly::with_coefs(vec![2, 4], &field);
    assert_eq!(r.mul(&q).unwrap().coefs(), &vec![0, 8, 16]);
}

#[test]
fn build_polynomial_takes_bytes() {
    let field = build_field(285).unwrap();
    let p = build_polynomial(&[0, 1, 255, 3], &field).unwrap();
    assert_eq!(p.coefs(), &vec![0, 1, 255, 3]);
    assert_eq!(p.field().reducing_polynomial(), 285);
    assert_eq!(build_polynomial(&[], &field).unwrap().coefs(), &Vec::<u8>::new());
}

#[test]
fn build_polynomial_refuses_what_is_no_byte() {
    let field = build_field(285).unwrap();
    assert_eq!(build_polynomial(&[1, 256], &field).err(), Some(FieldError::DomainError));
    assert_eq!(build_polynomial(&[-1], &field).err(), Some(FieldError::DomainError));
    assert_eq!(build_polynomial(&[0, 0, i64::MAX], &field).err(), Some(FieldError::DomainError));
    assert_eq!(build_polynomial(&[i64::MIN, 0], &field).err(), Some(FieldError::DomainError));
}
