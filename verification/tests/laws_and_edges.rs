use rokoko_ring::config::{DEGREE, HALF_DEGREE, MOD_Q};
use rokoko_ring::conjugation::derive_conjugation_transform;
use rokoko_ring::modular::{add_mod, inv_mod, mul_mod, pow_mod, sub_mod};
use rand::rngs::StdRng;
use rand::SeedableRng;
use rokoko_ring::norms::{inf_norm, l2_norm_coeffs_squared, l2_norm_squared};
use rokoko_ring::sampling::rng_seed;
use rokoko_ring::ntt::{ntt_forward, ntt_inverse, ntt_point_exec};
use rokoko_ring::quartic_ring::{naive_negacyclic_multiply, QUARTIC_Q};
use rokoko_ring::ring_arithmetic::{
    get_roots_of_unity_trans, incomplete_ntt_multiplication_homogenized,
    incomplete_ntt_multiplication_with, shift_factors,
    addition, addition_in_place, incomplete_ntt_multiplication, naive_polynomial_multiplication,
    subtraction, subtraction_in_place, QuadraticExtension, Representation, RingElement,
};

const ALL_REPRESENTATIONS: [Representation; 4] = [
    Representation::Coefficients,
    Representation::EvenOddCoefficients,
    Representation::IncompleteNTT,
    Representation::HomogenizedFieldExtensions,
];

#[test]
fn conversion_between_any_two_representations_round_trips() {
    for from in ALL_REPRESENTATIONS {
        for to in ALL_REPRESENTATIONS {
            let before = RingElement::random(from);
            let mut converted = before.clone();
            converted.to_representation(to);
            assert_eq!(converted.representation, to);
            converted.to_representation(from);
            assert_eq!(converted, before);
        }
    }
}

#[test]
fn ntt_forward_then_inverse_is_identity_for_both_sizes() {
    for (n, q) in [(64usize, MOD_Q), (32usize, QUARTIC_Q)] {
        let values: Vec<u64> = (0..n as u64).map(|i| (i * 7919 + 3) % q).collect();
        let forward = ntt_forward(&values, n, q);
        assert_eq!(ntt_inverse(&forward, n, q), values);
        assert_eq!(ntt_forward(&ntt_inverse(&values, n, q), n, q), values);
    }
}

#[test]
fn ntt_of_the_variable_lists_the_evaluation_points() {
    let mut unit = vec![0u64; 64];
    unit[1] = 1;
    let forward = ntt_forward(&unit, 64, MOD_Q);
    for j in 0..64 {
        assert_eq!(forward[j], ntt_point_exec(64, MOD_Q, j));
        assert_eq!(pow_mod(forward[j], 64, MOD_Q), MOD_Q - 1);
    }
    assert_eq!(forward[0], 17254385253701);
}

#[test]
fn modular_helpers_exact_values() {
    assert_eq!(mul_mod(MOD_Q - 1, MOD_Q - 1, MOD_Q), 1);
    assert_eq!(add_mod(MOD_Q - 1, 2, MOD_Q), 1);
    assert_eq!(sub_mod(1, 2, MOD_Q), MOD_Q - 1);
    assert_eq!(pow_mod(3, 32, QUARTIC_Q), QUARTIC_Q - 1);
    assert_eq!(inv_mod(0, MOD_Q), None);
    assert_eq!(inv_mod(4, 10), None);
    let inverse = inv_mod(64, MOD_Q).unwrap();
    assert_eq!(inverse, 1108307720795563);
    assert_eq!(mul_mod(inverse, 64, MOD_Q), 1);
}

#[test]
fn schoolbook_product_wraps_with_a_sign() {
    let mut x64 = RingElement::new(Representation::Coefficients);
    x64.v[64] = 1;
    let mut product = RingElement::new(Representation::Coefficients);
    naive_polynomial_multiplication(&mut product, &x64, &x64);
    let mut expected = [0u64; DEGREE];
    expected[0] = MOD_Q - 1;
    assert_eq!(product.v, expected);

    let mut x = [0u64; 128];
    x[1] = 1;
    let mut x127 = [0u64; 128];
    x127[127] = 1;
    let mut minus_one = [0u64; 128];
    minus_one[0] = QUARTIC_Q - 1;
    assert_eq!(naive_negacyclic_multiply(&x, &x127), minus_one);
}

#[test]
fn multiplication_by_one_in_incomplete_ntt_form() {
    let a = RingElement::random(Representation::IncompleteNTT);
    let one = RingElement::one(Representation::IncompleteNTT);
    let mut product = RingElement::new(Representation::IncompleteNTT);
    incomplete_ntt_multiplication(&mut product, &a, &one);
    assert_eq!(product.v, a.v);
}

#[test]
fn addition_and_subtraction_wrap_modulo_q() {
    let a = RingElement::constant(MOD_Q - 1, Representation::Coefficients);
    let b = RingElement::constant(2, Representation::Coefficients);
    let mut sum = RingElement::new(Representation::Coefficients);
    addition(&mut sum, &a, &b);
    assert_eq!(sum.v[0], 1);
    let mut difference = RingElement::new(Representation::Coefficients);
    subtraction(&mut difference, &b, &a);
    assert_eq!(difference.v[0], 3);
    let mut in_place = a.clone();
    addition_in_place(&mut in_place, &b);
    assert_eq!(in_place.v[0], 1);
    subtraction_in_place(&mut in_place, &b);
    assert_eq!(in_place.v[0], MOD_Q - 1);
}

#[test]
fn negation_of_a_constant() {
    let five = RingElement::constant(5, Representation::Coefficients);
    let minus_five = five.negate();
    assert_eq!(minus_five.v[0], MOD_Q - 5);
    assert!(minus_five.v[1..].iter().all(|&x| x == 0));
    assert_eq!(RingElement::zero(Representation::Coefficients).negate().v, [0u64; DEGREE]);
}

#[test]
fn set_zero_and_set_from() {
    let a = RingElement::random(Representation::IncompleteNTT);
    let mut b = RingElement::new(Representation::Coefficients);
    b.set_from(&a);
    assert_eq!(b, a);
    b.set_zero();
    assert_eq!(b.v, [0u64; DEGREE]);
    assert_eq!(b.representation, Representation::IncompleteNTT);
}

#[test]
fn infinity_norm_of_constants() {
    let five = RingElement::constant(5, Representation::IncompleteNTT);
    let minus_three = RingElement::constant(MOD_Q - 3, Representation::IncompleteNTT);
    assert_eq!(inf_norm(&[five.clone()]), 5);
    assert_eq!(inf_norm(&[minus_three.clone()]), 3);
    assert_eq!(inf_norm(&[minus_three, five]), 5);
    assert_eq!(inf_norm(&[]), 0);
}

#[test]
fn size_in_bits_exact_values() {
    let zero = RingElement::zero(Representation::Coefficients);
    assert_eq!(zero.size_in_bits(), 0);
    let one = RingElement::constant(1, Representation::Coefficients);
    assert_eq!(one.size_in_bits(), 1);
    let minus_one = RingElement::constant(MOD_Q - 1, Representation::Coefficients);
    assert_eq!(minus_one.size_in_bits(), 2);
    let eight = RingElement::constant(8, Representation::Coefficients);
    assert_eq!(eight.size_in_bits(), 4);

    // In incomplete-NTT form the constant 1 is 1 in all 64 even slots.
    let one_ntt = RingElement::one(Representation::IncompleteNTT);
    assert_eq!(one_ntt.size_in_bits(), 64);
    assert_eq!(one_ntt.compact_size_in_bits(), 1);
    assert_eq!(one.compact_size_in_bits(), 1);
    let one_even_odd = RingElement::one(Representation::EvenOddCoefficients);
    assert_eq!(one_even_odd.compact_size_in_bits(), 1);

    let extension = QuadraticExtension::from_pair(0, MOD_Q - 1);
    assert_eq!(extension.size_in_bits(), 1);
    let extension = QuadraticExtension::from_pair(4, 0);
    assert_eq!(extension.size_in_bits(), 3);
}

#[test]
fn constant_and_all_in_coefficient_form() {
    let seven = RingElement::constant(7, Representation::Coefficients);
    assert_eq!(seven.v[0], 7);
    assert!(seven.v[1..].iter().all(|&x| x == 0));
    let all = RingElement::all(9, Representation::Coefficients);
    assert!(all.v.iter().all(|&x| x == 9));
}

#[test]
fn random_bounded_unsigned_with_bound_one_is_zero() {
    let element = RingElement::random_bounded_unsigned(Representation::Coefficients, 1);
    assert_eq!(element.v, [0u64; DEGREE]);
}

#[test]
fn random_bounded_values_are_small_and_signed() {
    let element = RingElement::random_bounded(Representation::Coefficients, 2);
    assert!(element
        .v
        .iter()
        .all(|&x| x == 0 || x == 1 || x == MOD_Q - 1));
    assert!(element.v.iter().any(|&x| x == MOD_Q - 1));
    assert!(element.v.iter().any(|&x| x == 1));
    let random = RingElement::random(Representation::Coefficients);
    assert!(random.v.iter().all(|&x| x < MOD_Q));
}

#[test]
fn conjugation_tables_are_permutations() {
    let transform = derive_conjugation_transform();
    let mut even_seen = [false; HALF_DEGREE];
    let mut odd_seen = [false; HALF_DEGREE];
    for i in 0..HALF_DEGREE {
        even_seen[transform.even_permutation[i]] = true;
        odd_seen[transform.odd_permutation[i]] = true;
        assert_ne!(transform.odd_factors[i], 0);
    }
    assert!(even_seen.iter().all(|&seen| seen));
    assert!(odd_seen.iter().all(|&seen| seen));
}

#[test]
fn conjugation_is_an_involution() {
    let a = RingElement::random(Representation::IncompleteNTT);
    let twice = a.conjugate().conjugate();
    assert_eq!(twice, a);
}

#[test]
fn conjugation_reverses_and_negates_coefficients() {
    let mut x = RingElement::new(Representation::Coefficients);
    x.v[1] = 1;
    x.to_representation(Representation::IncompleteNTT);
    let mut conjugate = x.conjugate();
    conjugate.to_representation(Representation::Coefficients);
    let mut expected = [0u64; DEGREE];
    expected[DEGREE - 1] = MOD_Q - 1;
    assert_eq!(conjugate.v, expected);
}

#[test]
fn quadratic_extension_arithmetic() {
    let mut a = QuadraticExtension::from_pair(MOD_Q - 1, 3);
    let b = QuadraticExtension::from_pair(2, MOD_Q - 4);
    a += &b;
    assert_eq!(a, QuadraticExtension::from_pair(1, MOD_Q - 1));
    a -= &b;
    assert_eq!(a, QuadraticExtension::from_pair(MOD_Q - 1, 3));
    let mut c = QuadraticExtension::zero();
    c += (&a, &b);
    assert_eq!(c, QuadraticExtension::from_pair(1, MOD_Q - 1));
    let mut d = QuadraticExtension::from_base(5);
    d *= &QuadraticExtension::one();
    assert_eq!(d, QuadraticExtension::from_base(5));
    let mut e = QuadraticExtension::zero();
    e *= (&d, &QuadraticExtension::from_base(2));
    assert_eq!(e, QuadraticExtension::from_base(10));
}

#[test]
fn l2_accumulator_handles_full_width_centered_coefficients() {
    let coefficient = MOD_Q / 2;
    let values = [RingElement::all(coefficient, Representation::EvenOddCoefficients)];
    let expected = coefficient as f64 * (DEGREE as f64).sqrt();
    let actual = (l2_norm_coeffs_squared(&values) as f64).sqrt();
    assert!((actual - expected).abs() <= expected * 1e-12);
}

#[test]
fn squared_norms_sum_centered_squares() {
    let mut a = RingElement::new(Representation::Coefficients);
    a.v[0] = 3;
    a.v[5] = MOD_Q - 4;
    let mut b = RingElement::new(Representation::Coefficients);
    b.v[127] = 2;
    assert_eq!(l2_norm_coeffs_squared(&[a.clone(), b.clone()]), 9 + 16 + 4);
    a.to_representation(Representation::IncompleteNTT);
    b.to_representation(Representation::IncompleteNTT);
    assert_eq!(l2_norm_squared(&[a, b]), 29);
    let full = [RingElement::all(MOD_Q / 2, Representation::EvenOddCoefficients)];
    let m = (MOD_Q - MOD_Q / 2) as u128;
    assert_eq!(l2_norm_coeffs_squared(&full), 128 * m * m);
}

#[test]
fn signed_draws_give_exact_coefficients() {
    let mut values = [0u64; DEGREE];
    let mut signs = [0u8; DEGREE];
    values[0] = 5;
    values[1] = 5;
    signs[1] = 3;
    values[2] = 0;
    signs[2] = 1;
    values[3] = MOD_Q;
    let r = RingElement::from_signed_draws(&values, &signs, Representation::Coefficients);
    assert_eq!(r.representation, Representation::Coefficients);
    assert_eq!(r.v[0], 5);
    assert_eq!(r.v[1], MOD_Q - 5);
    assert_eq!(r.v[2], 0);
    assert_eq!(r.v[3], 0);
    assert!(r.v[4..].iter().all(|&x| x == 0));
    let ntt = RingElement::from_signed_draws(&values, &signs, Representation::IncompleteNTT);
    let mut expected = r.clone();
    expected.to_representation(Representation::IncompleteNTT);
    assert_eq!(ntt, expected);
}

#[test]
fn seeded_sampling_is_reproducible() {
    let seed = rng_seed(b"rokoko");
    assert_eq!(seed, rng_seed(b"rokoko"));
    assert_ne!(seed, rng_seed(b"rokoko2"));
    let mut first = StdRng::from_seed(seed);
    let mut second = StdRng::from_seed(seed);
    let a = RingElement::random_bounded_with(&mut first, Representation::Coefficients, 10);
    let b = RingElement::random_bounded_with(&mut second, Representation::Coefficients, 10);
    assert_eq!(a, b);
    for &x in a.v.iter() {
        assert!(x < 10 || MOD_Q - x < 10);
    }
    let c = RingElement::random_with(&mut first, Representation::IncompleteNTT);
    let d = RingElement::random_with(&mut second, Representation::IncompleteNTT);
    assert_eq!(c, d);
    let e = RingElement::random_bounded_unsigned_with(&mut first, Representation::Coefficients, 7);
    assert!(e.v.iter().all(|&x| x < 7));
}

#[test]
fn table_variants_match_table_free_operations() {
    let transform = derive_conjugation_transform();
    let shifts = shift_factors();
    let (factors, inverses) = get_roots_of_unity_trans();
    let a = RingElement::random(Representation::IncompleteNTT);
    let b = RingElement::random(Representation::IncompleteNTT);

    let mut conj = a.clone();
    conj.conjugate_in_place();
    let mut conj_with = a.clone();
    conj_with.conjugate_in_place_with(&transform);
    assert_eq!(conj, conj_with);
    let mut into = RingElement::new(Representation::IncompleteNTT);
    a.conjugate_into_with(&mut into, &transform);
    assert_eq!(into, a.conjugate());

    let mut product = RingElement::new(Representation::IncompleteNTT);
    incomplete_ntt_multiplication(&mut product, &a, &b);
    let mut product_with = RingElement::new(Representation::IncompleteNTT);
    incomplete_ntt_multiplication_with(&mut product_with, &a, &b, false, &shifts);
    assert_eq!(product, product_with);

    let mut h = a.clone();
    h.from_incomplete_ntt_to_homogenized_field_extensions();
    let mut h_with = a.clone();
    h_with.from_incomplete_ntt_to_homogenized_field_extensions_with(&factors);
    assert_eq!(h, h_with);
    let mut hb = b.clone();
    hb.from_incomplete_ntt_to_homogenized_field_extensions();
    let mut hp = RingElement::new(Representation::HomogenizedFieldExtensions);
    incomplete_ntt_multiplication_homogenized(&mut hp, &h, &hb);
    let mut hp_with = RingElement::new(Representation::HomogenizedFieldExtensions);
    incomplete_ntt_multiplication_with(&mut hp_with, &h, &hb, true, &shifts);
    assert_eq!(hp, hp_with);
    h_with.from_homogenized_field_extensions_to_incomplete_ntt_with(&inverses);
    assert_eq!(h_with, a);
}

#[test]
fn try_inverse_is_checked_inverse() {
    let mut a = RingElement::random(Representation::IncompleteNTT);
    a.from_incomplete_ntt_to_homogenized_field_extensions();
    let inverse = a.try_inverse().expect("a random element is a unit");
    assert_eq!(inverse, a.inverse());
    let zero = RingElement::new(Representation::HomogenizedFieldExtensions);
    assert!(zero.try_inverse().is_none());
}

#[test]
fn all_is_the_filled_even_odd_element_converted() {
    for &representation in ALL_REPRESENTATIONS.iter() {
        let mut expected = RingElement::new(Representation::EvenOddCoefficients);
        expected.v = [11u64; DEGREE];
        expected.to_representation(representation);
        assert_eq!(RingElement::all(11, representation), expected);
    }
}
