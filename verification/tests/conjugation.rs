use rokoko_ring::config::MOD_Q;
use rokoko_ring::conjugation_table::derive_quartic_conjugation_transform;
use rokoko_ring::modular::{add_mod, mul_mod};
use rokoko_ring::ring_arithmetic::{Representation, RingElement};

#[test]
fn test_conjugation_ref() {
    let a = RingElement::random(Representation::IncompleteNTT);
    let mut a_conj = a.clone();
    let b = RingElement::new(Representation::IncompleteNTT);
    let mut b_conj = b.clone();

    a_conj.conjugate_in_place_ref();

    b_conj.conjugate_in_place_ref();

    let a_plus_b = &a + &b;
    let a_times_b = &a * &b;

    let mut a_plus_b_conj = a_plus_b.clone();
    a_plus_b_conj.conjugate_in_place_ref();

    let mut a_times_b_conj = a_times_b.clone();
    a_times_b_conj.conjugate_in_place_ref();

    assert_eq!(&a_conj + &b_conj, a_plus_b_conj);
    assert_eq!(&a_conj * &b_conj, a_times_b_conj);
}

#[test]
fn test_conjugation() {
    let a = RingElement::random(Representation::IncompleteNTT);
    let mut a_conj = a.clone();
    let mut a_conj_ref = a.clone();
    a_conj.conjugate_in_place();
    a_conj_ref.conjugate_in_place_ref();
    assert_eq!(a_conj.v, a_conj_ref.v);
}

#[test]
fn test_norm_squared_via_conjugation() {
    let mut vector: Vec<RingElement> = vec![
        RingElement::random_bounded(Representation::Coefficients, 10),
        RingElement::random_bounded(Representation::Coefficients, 10),
        RingElement::random_bounded(Representation::Coefficients, 10),
        RingElement::random_bounded(Representation::Coefficients, 10),
    ];

    let mut two_norm_squared = 0u64;
    for e in vector.iter_mut() {
        for coeff in e.v.iter() {
            let centered = if *coeff > MOD_Q / 2 {
                MOD_Q - *coeff
            } else {
                *coeff
            };
            two_norm_squared = add_mod(
                two_norm_squared,
                mul_mod(centered, centered, MOD_Q),
                MOD_Q,
            );
        }
        e.to_representation(Representation::IncompleteNTT);
    }

    let mut vector_conj = vector.clone();
    for e in vector_conj.iter_mut() {
        e.conjugate_in_place();
    }

    let mut inner_product = RingElement::new(Representation::IncompleteNTT);
    for (e1, e2) in vector.iter().zip(vector_conj.iter()) {
        let mut prod = RingElement::new(Representation::IncompleteNTT);
        prod *= (e1, e2);
        inner_product += &prod;
    }
    inner_product.from_incomplete_ntt_to_even_odd_coefficients();
    inner_product.from_even_odd_coefficients_to_coefficients();
    let ct = inner_product.v[0];

    assert_eq!(ct, two_norm_squared);
}

#[test]
fn test_conjugate_into_matches_in_place() {
    let mut a = RingElement::random(Representation::Coefficients);
    a.from_coefficients_to_even_odd_coefficients();
    a.from_even_odd_coefficients_to_incomplete_ntt_representation();

    let before = a.clone();

    let mut result = RingElement::new(Representation::IncompleteNTT);
    a.conjugate_into(&mut result);

    let mut expected = a.clone();
    expected.conjugate_in_place();

    assert_eq!(result, expected);
    assert_eq!(a, before);
}

#[test]
fn test_constant_term_from_incomplete_ntt() {
    let mut a = RingElement::random(Representation::IncompleteNTT);
    let computed_constant_term = a.constant_term_from_incomplete_ntt();
    a.from_incomplete_ntt_to_even_odd_coefficients();
    a.from_even_odd_coefficients_to_coefficients();
    let expected_constant_term = a.v[0];

    assert_eq!(expected_constant_term, computed_constant_term % MOD_Q);
}

#[test]
fn monomial_conjugation_table_matches_reference() {
    let t = derive_quartic_conjugation_transform();
    let mut seen = [false; 128];
    for i in 0..128 {
        assert!(!seen[t.permutation[i]]);
        seen[t.permutation[i]] = true;
        assert_ne!(t.factors[i], 0);
        if i < 64 {
            assert_eq!(t.factors[i], 1);
            assert!(t.permutation[i] < 64);
        } else {
            assert!(t.permutation[i] >= 64);
        }
    }
    let a = RingElement::random(Representation::IncompleteNTT);
    let mut expected = a.clone();
    expected.conjugate_in_place_ref();
    let mut by_table = [0u64; 128];
    for i in 0..128 {
        by_table[t.permutation[i]] = mul_mod(a.v[i], t.factors[i], MOD_Q);
    }
    assert_eq!(by_table, expected.v);
}
