use rand::{Rng, SeedableRng};
use rokoko_ring::modular::pow_mod;
use rokoko_ring::quartic_ring::{
    naive_negacyclic_multiply, QuarticSlot, QuarticTransform, QUARTIC_Q, RING_DEGREE,
};

fn random_coefficients(rng: &mut rand::rngs::StdRng) -> [u64; RING_DEGREE] {
    std::array::from_fn(|_| rng.random_range(0..QUARTIC_Q))
}

#[test]
fn quartic_transform_round_trip() {
    let transform = QuarticTransform::new();
    let mut rng = rand::rngs::StdRng::seed_from_u64(0x5141_5254_4943);
    for _ in 0..256 {
        let input = random_coefficients(&mut rng);
        let slots = transform.coefficients_to_homogeneous_slots(&input);
        assert_eq!(transform.homogeneous_slots_to_coefficients(&slots), input);
    }
}

#[test]
fn quartic_multiplication_matches_naive_negacyclic_reference() {
    let transform = QuarticTransform::new();
    let mut rng = rand::rngs::StdRng::seed_from_u64(0x4d55_4c54_4950_4c59);
    for _ in 0..256 {
        let lhs = random_coefficients(&mut rng);
        let rhs = random_coefficients(&mut rng);
        assert_eq!(
            transform.multiply(&lhs, &rhs),
            naive_negacyclic_multiply(&lhs, &rhs)
        );
    }
}

#[test]
fn quartic_slot_and_ring_inverses_are_correct() {
    let transform = QuarticTransform::new();
    let mut rng = rand::rngs::StdRng::seed_from_u64(0x494e_5645_5253_4553);
    let one = {
        let mut value = [0u64; RING_DEGREE];
        value[0] = 1;
        value
    };
    for _ in 0..16 {
        let value = random_coefficients(&mut rng);
        let inverse = transform.inverse(&value).expect("random ring element is a unit");
        assert_eq!(transform.multiply(&value, &inverse), one);
    }
}

#[test]
fn quartic_slot_constants_match_certified_factorization() {
    let transform = QuarticTransform::new();
    for (shift, exponent) in transform
        .raw_shift_factors
        .iter()
        .zip(transform.slot_exponents.iter())
    {
        assert_eq!(*shift, pow_mod(transform.beta, *exponent as u64, QUARTIC_Q));
        assert_eq!(pow_mod(*shift, 32, QUARTIC_Q), QUARTIC_Q - 1);
    }
}

#[test]
fn quartic_slot_times_inverse_is_one() {
    let beta = QuarticTransform::new().beta;
    let slot = QuarticSlot { coeffs: [5, 7, 11, 13] };
    let inverse = slot.inverse(beta);
    assert_eq!(slot.mul(&inverse, beta), QuarticSlot::one());
}

#[test]
fn quartic_slot_mul_reduces_by_beta() {
    // T^3 * T^2 = T^5 = beta * T.
    let beta = 3;
    let t3 = QuarticSlot { coeffs: [0, 0, 0, 1] };
    let t2 = QuarticSlot { coeffs: [0, 0, 1, 0] };
    assert_eq!(t3.mul(&t2, beta).coeffs, [0, 3, 0, 0]);
}

#[test]
fn quartic_slot_pow_big_matches_repeated_products() {
    let beta = 3;
    let slot = QuarticSlot { coeffs: [2, 1, 0, 4] };
    let exponent = num::BigUint::from(5u32);
    let mut expected = QuarticSlot::one();
    for _ in 0..5 {
        expected = expected.mul(&slot, beta);
    }
    assert_eq!(slot.pow_big(&exponent, beta), expected);
    assert_eq!(
        slot.pow_big(&num::BigUint::from(0u32), beta),
        QuarticSlot::one()
    );
}

#[test]
fn quartic_inverse_of_zero_slot_is_none() {
    let transform = QuarticTransform::new();
    let zero = [0u64; RING_DEGREE];
    assert_eq!(transform.inverse(&zero), None);
}

#[test]
fn quartic_transform_constants() {
    let transform = QuarticTransform::new();
    assert_eq!(transform.beta, 3);
    assert_eq!(transform.slot_exponents[0], 1);
    let mut sorted = transform.slot_exponents;
    sorted.sort_unstable();
    let odd: [usize; 32] = std::array::from_fn(|index| 2 * index + 1);
    assert_eq!(sorted, odd);
}

#[test]
fn quartic_slot_product_is_commutative_and_associative() {
    let beta = 3;
    let mut rng = rand::rngs::StdRng::seed_from_u64(0x534c_4f54);
    for _ in 0..32 {
        let a = QuarticSlot { coeffs: std::array::from_fn(|_| rng.random_range(0..QUARTIC_Q)) };
        let b = QuarticSlot { coeffs: std::array::from_fn(|_| rng.random_range(0..QUARTIC_Q)) };
        let c = QuarticSlot { coeffs: std::array::from_fn(|_| rng.random_range(0..QUARTIC_Q)) };
        assert_eq!(a.mul(&b, beta), b.mul(&a, beta));
        assert_eq!(a.mul(&b, beta).mul(&c, beta), a.mul(&b.mul(&c, beta), beta));
        assert_eq!(QuarticSlot::one().mul(&a, beta), a);
    }
}
