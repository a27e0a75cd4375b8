use rokoko_ring::config::{DEGREE, EXTENSION_DEGREE, HALF_DEGREE, MOD_Q};
use rokoko_ring::modular::{add_mod, mul_mod};
use rokoko_ring::ring_arithmetic::{
    field_shift_factor, incomplete_ntt_multiplication, incomplete_ntt_multiplication_homogenized,
    naive_polynomial_multiplication, shift_factors, QuadraticExtension, Representation, RingElement,
};

#[test]
fn test_ntt_multiplication_matches_naive() {
    let mut a = RingElement::random(Representation::Coefficients);
    let mut b = RingElement::random(Representation::Coefficients);
    let mut c = RingElement::new(Representation::Coefficients);

    naive_polynomial_multiplication(&mut c, &a, &b);

    a.from_coefficients_to_even_odd_coefficients();
    b.from_coefficients_to_even_odd_coefficients();
    a.from_even_odd_coefficients_to_incomplete_ntt_representation();
    b.from_even_odd_coefficients_to_incomplete_ntt_representation();

    let mut d = RingElement::new(Representation::IncompleteNTT);
    incomplete_ntt_multiplication(&mut d, &a, &b);
    d.from_incomplete_ntt_to_even_odd_coefficients();
    d.from_even_odd_coefficients_to_coefficients();

    assert_eq!(c.v, d.v);
}

#[test]
fn test_homogenized_field_extension_conversion_roundtrip() {
    let mut b = RingElement::random(Representation::Coefficients);
    b.from_coefficients_to_even_odd_coefficients();
    b.from_even_odd_coefficients_to_incomplete_ntt_representation();

    let mut b_c = b.clone();
    b_c.from_incomplete_ntt_to_homogenized_field_extensions();
    b_c.from_homogenized_field_extensions_to_incomplete_ntt();

    assert_eq!(b.v, b_c.v);
}

#[test]
fn test_quadratic_extension_split_combine_roundtrip() {
    let mut b = RingElement::random(Representation::Coefficients);
    b.from_coefficients_to_even_odd_coefficients();
    b.from_even_odd_coefficients_to_incomplete_ntt_representation();
    b.from_incomplete_ntt_to_homogenized_field_extensions();

    let ext_b: [QuadraticExtension; HALF_DEGREE] = b.split_into_quadratic_extensions();
    let mut b_reconstructed = RingElement::new(Representation::HomogenizedFieldExtensions);
    b_reconstructed.combine_from_quadratic_extensions(&ext_b);

    assert_eq!(b.v, b_reconstructed.v);
}

#[test]
fn test_hadamard_multiplication_in_quadratic_extensions() {
    let mut a = RingElement::random(Representation::Coefficients);
    let mut b = RingElement::random(Representation::Coefficients);
    let mut c = RingElement::new(Representation::Coefficients);

    naive_polynomial_multiplication(&mut c, &a, &b);

    a.from_coefficients_to_even_odd_coefficients();
    b.from_coefficients_to_even_odd_coefficients();
    a.from_even_odd_coefficients_to_incomplete_ntt_representation();
    b.from_even_odd_coefficients_to_incomplete_ntt_representation();
    a.from_incomplete_ntt_to_homogenized_field_extensions();
    b.from_incomplete_ntt_to_homogenized_field_extensions();

    let ext_a: [QuadraticExtension; HALF_DEGREE] = a.split_into_quadratic_extensions();
    let ext_b: [QuadraticExtension; HALF_DEGREE] = b.split_into_quadratic_extensions();

    let quadratic_fields_hadamard: [QuadraticExtension; HALF_DEGREE] = ext_a
        .iter()
        .zip(ext_b.iter())
        .map(|(x, y)| *x * *y)
        .collect::<Vec<QuadraticExtension>>()
        .try_into()
        .unwrap();

    let mut c_c = RingElement::new(Representation::HomogenizedFieldExtensions);
    c_c.combine_from_quadratic_extensions(&quadratic_fields_hadamard);
    c_c.from_homogenized_field_extensions_to_incomplete_ntt();
    c_c.from_incomplete_ntt_to_even_odd_coefficients();
    c_c.from_even_odd_coefficients_to_coefficients();

    assert_eq!(c.v, c_c.v);
}

#[test]
fn test_homogenized_multiplication_matches_naive() {
    let mut a = RingElement::random(Representation::Coefficients);
    let mut b = RingElement::random(Representation::Coefficients);
    let mut c = RingElement::new(Representation::Coefficients);

    naive_polynomial_multiplication(&mut c, &a, &b);

    a.from_coefficients_to_even_odd_coefficients();
    b.from_coefficients_to_even_odd_coefficients();
    a.from_even_odd_coefficients_to_incomplete_ntt_representation();
    b.from_even_odd_coefficients_to_incomplete_ntt_representation();
    a.from_incomplete_ntt_to_homogenized_field_extensions();
    b.from_incomplete_ntt_to_homogenized_field_extensions();

    let mut e = RingElement::new(Representation::HomogenizedFieldExtensions);
    incomplete_ntt_multiplication_homogenized(&mut e, &a, &b);
    e.from_homogenized_field_extensions_to_incomplete_ntt();
    e.from_incomplete_ntt_to_even_odd_coefficients();
    e.from_even_odd_coefficients_to_coefficients();

    assert_eq!(c.v, e.v);
}

#[test]
fn test_even_odd_coefficients_conversion_roundtrip() {
    let before = RingElement::random(Representation::Coefficients);
    let mut a = before.clone();

    a.from_coefficients_to_even_odd_coefficients();
    a.from_even_odd_coefficients_to_coefficients();

    assert_eq!(before.v, a.v);
}

#[test]
fn test_quadratic_extension_multiplication() {
    let qe1 = QuadraticExtension::from_pair(2, 3);
    let qe2 = QuadraticExtension::from_pair(4, 5);
    let result = qe1 * qe2;

    // (2 + 3X)(4 + 5X) = 8 + 10X + 12X + 15X^2 = 8 + 22X + 15*shift
    let expected_c0 = add_mod(
        mul_mod(2, 4, MOD_Q),
        mul_mod(field_shift_factor(), mul_mod(3, 5, MOD_Q), MOD_Q),
        MOD_Q,
    );
    let expected_c1 = add_mod(mul_mod(2, 5, MOD_Q), mul_mod(3, 4, MOD_Q), MOD_Q);

    assert_eq!(result.coeffs[0], expected_c0);
    assert_eq!(result.coeffs[1], expected_c1);
}

#[test]
fn test_extension_canonical_encoding_roundtrip_and_rejection() {
    let value = QuadraticExtension {
        coeffs: std::array::from_fn(|index| 17 + 31 * index as u64),
    };
    let encoded = value.to_le_bytes();
    assert_eq!(encoded.len(), EXTENSION_DEGREE * std::mem::size_of::<u64>());
    assert_eq!(QuadraticExtension::from_le_bytes(&encoded), Some(value));
    assert_eq!(
        QuadraticExtension::from_le_bytes(&encoded[..encoded.len() - 1]),
        None
    );

    let mut noncanonical = encoded;
    noncanonical[..8].copy_from_slice(&MOD_Q.to_le_bytes());
    assert_eq!(QuadraticExtension::from_le_bytes(&noncanonical), None);
}

#[test]
fn test_fused_incomplete_ntt_mult_matches_separate() {
    let shifts = shift_factors();
    for _ in 0..20 {
        let op1 = RingElement::random(Representation::IncompleteNTT);
        let op2 = RingElement::random(Representation::IncompleteNTT);

        // Reference: the slot product assembled from separate elementwise steps.
        let mut ref_result = RingElement::new(Representation::IncompleteNTT);
        let mut temp = [0u64; DEGREE];
        for i in 0..HALF_DEGREE {
            ref_result.v[i] = mul_mod(op1.v[i], op2.v[i], MOD_Q);
        }
        for i in 0..HALF_DEGREE {
            ref_result.v[HALF_DEGREE + i] = mul_mod(op1.v[HALF_DEGREE + i], op2.v[i], MOD_Q);
        }
        for i in 0..HALF_DEGREE {
            temp[i] = mul_mod(op1.v[HALF_DEGREE + i], op2.v[HALF_DEGREE + i], MOD_Q);
        }
        for i in 0..HALF_DEGREE {
            temp[i] = mul_mod(temp[i], shifts[i], MOD_Q);
        }
        for i in 0..HALF_DEGREE {
            ref_result.v[i] = add_mod(ref_result.v[i], temp[i], MOD_Q);
        }
        for i in 0..HALF_DEGREE {
            temp[i] = mul_mod(op1.v[i], op2.v[HALF_DEGREE + i], MOD_Q);
        }
        for i in 0..HALF_DEGREE {
            ref_result.v[HALF_DEGREE + i] = add_mod(ref_result.v[HALF_DEGREE + i], temp[i], MOD_Q);
        }

        // Fused path.
        let mut fused_result = RingElement::new(Representation::IncompleteNTT);
        incomplete_ntt_multiplication(&mut fused_result, &op1, &op2);

        assert_eq!(
            ref_result.v, fused_result.v,
            "Fused ring mult diverged from reference"
        );
    }
}

#[test]
fn test_inverse_times_self_is_one() {
    for _ in 0..10 {
        let a = RingElement::random(Representation::HomogenizedFieldExtensions);
        let a_inv = a.inverse();

        let mut product = RingElement::new(Representation::HomogenizedFieldExtensions);
        incomplete_ntt_multiplication_homogenized(&mut product, &a, &a_inv);

        let one = RingElement::one(Representation::HomogenizedFieldExtensions);
        assert_eq!(product.v, one.v, "a * a^{{-1}} should equal 1");
    }
}

#[test]
fn test_inverse_slot_by_slot() {
    let a = RingElement::random(Representation::HomogenizedFieldExtensions);
    let a_inv = a.inverse();

    let slots = a.split_into_quadratic_extensions();
    let inv_slots = a_inv.split_into_quadratic_extensions();

    let one = QuadraticExtension::one();
    for i in 0..HALF_DEGREE {
        let product = slots[i] * inv_slots[i];
        assert_eq!(
            product, one,
            "Slot {i} inverse incorrect: {:?} * {:?} = {:?}",
            slots[i], inv_slots[i], product
        );
    }
}

#[test]
fn test_inverse_of_one_is_one() {
    let one = RingElement::one(Representation::HomogenizedFieldExtensions);
    let one_inv = one.inverse();
    assert_eq!(one.v, one_inv.v, "1^{{-1}} should equal 1");
}
