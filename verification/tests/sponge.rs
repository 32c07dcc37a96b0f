use rescue_sponge::config::{
    create_test_rescue_parameter, RescueConfig, RESCUE_ROUNDS, TEST_ALPHA, TEST_MODULUS,
};
use rescue_sponge::crh::{CRHGadget, CRHParametersVar, RescueDemo, TwoToOneCRH, TwoToOneCRHGadget, CRH};
use rescue_sponge::emitter::{ConstraintSystem, FpVar};
use rescue_sponge::extract::FieldElementSize;
use rescue_sponge::gadget::RescueSpongeVar;
use rescue_sponge::native::RescueSponge;

fn next_rand(state: &mut u64) -> u64 {
    *state = state
        .wrapping_mul(6364136223846793005)
        .wrapping_add(1442695040888963407);
    (*state >> 16) % TEST_MODULUS
}

fn test_params(seed: u64) -> RescueConfig {
    let mut state = seed;
    let mut randomness: Vec<u64> = Vec::new();
    for _ in 0..116 {
        randomness.push(next_rand(&mut state));
    }
    create_test_rescue_parameter(&randomness)
}

fn random_elements(seed: u64, n: usize) -> Vec<u64> {
    let mut state = seed;
    let mut out = Vec::new();
    for _ in 0..n {
        out.push(next_rand(&mut state));
    }
    out
}

#[test]
fn test_consistency() {
    let params = test_params(7);
    let test_a = random_elements(11, 9);
    let test_b = random_elements(13, 9);

    let crh_a = CRH::evaluate(&params, &test_a);
    let crh_b = CRH::evaluate(&params, &test_b);
    let crh = TwoToOneCRH::compress(&params, crh_a, crh_b);

    let mut cs = ConstraintSystem::new(TEST_MODULUS);
    let mut test_a_g: Vec<FpVar> = Vec::new();
    let mut test_b_g: Vec<FpVar> = Vec::new();
    for elem in &test_a {
        test_a_g.push(cs.new_witness(Some(*elem)).unwrap());
    }
    for elem in &test_b {
        test_b_g.push(cs.new_witness(Some(*elem)).unwrap());
    }
    let params_g = CRHParametersVar::new_variable(params);
    let crh_a_g = CRHGadget::evaluate(&params_g, &mut cs, &test_a_g);
    let crh_b_g = CRHGadget::evaluate(&params_g, &mut cs, &test_b_g);
    let crh_g = TwoToOneCRHGadget::compress(&params_g, &mut cs, &crh_a_g, &crh_b_g);
    assert_eq!(crh_a, cs.value(&crh_a_g));
    assert_eq!(crh_b, cs.value(&crh_b_g));
    assert_eq!(crh, cs.value(&crh_g));
    assert!(cs.is_satisfied());
}

#[test]
fn absorb_test() {
    let params = test_params(17);
    let mut cs = ConstraintSystem::new(TEST_MODULUS);

    let absorb1 = random_elements(19, 256);
    let mut absorb1_var: Vec<FpVar> = Vec::new();
    for v in &absorb1 {
        absorb1_var.push(cs.new_input(Some(*v)).unwrap());
    }

    let mut native_sponge = RescueSponge::new(&params);
    let mut constraint_sponge = RescueSpongeVar::new(&params);

    native_sponge.absorb(&params, &absorb1);
    constraint_sponge.absorb(&mut cs, &params, &absorb1_var);

    let squeeze1 = native_sponge.squeeze_native_field_elements(&params, 1);
    let squeeze2 = constraint_sponge.squeeze_field_elements(&mut cs, &params, 1);
    assert_eq!(cs.value(&squeeze2[0]), squeeze1[0]);
    assert!(cs.is_satisfied());

    let mut absorb2: Vec<u64> = Vec::new();
    for i in 0..8u64 {
        absorb2.push(i);
        absorb2.push(i + 1);
        absorb2.push(i + 2);
    }
    let mut absorb2_var: Vec<FpVar> = Vec::new();
    for v in &absorb2 {
        absorb2_var.push(cs.new_input(Some(*v)).unwrap());
    }

    native_sponge.absorb(&params, &absorb2);
    constraint_sponge.absorb(&mut cs, &params, &absorb2_var);

    let squeeze1 = native_sponge.squeeze_native_field_elements(&params, 1);
    let squeeze2 = constraint_sponge.squeeze_field_elements(&mut cs, &params, 1);
    assert_eq!(cs.value(&squeeze2[0]), squeeze1[0]);
    assert!(cs.is_satisfied());
}

#[test]
fn squeeze_with_sizes() {
    // The usable width of the test field is 30 bits; squeeze half of that.
    let squeeze_bits: usize = 15;
    let max_squeeze: u64 = 1 << squeeze_bits;

    let params = test_params(23);
    let mut native_sponge = RescueSponge::new(&params);
    let native_sponge_value = native_sponge
        .squeeze_field_elements_with_sizes(&params, &vec![FieldElementSize::Truncated(
            squeeze_bits,
        )])[0];
    assert!(native_sponge_value < max_squeeze);

    let mut cs = ConstraintSystem::new(TEST_MODULUS);
    let mut constraint_sponge = RescueSpongeVar::new(&params);
    let (squeeze, bits) = constraint_sponge.squeeze_field_elements_with_sizes(
        &mut cs,
        &params,
        &vec![FieldElementSize::Truncated(squeeze_bits)],
    );
    assert!(cs.value(&squeeze[0]) < max_squeeze);
    // Both backends reduce to the same sized value.
    assert_eq!(cs.value(&squeeze[0]), native_sponge_value);
    assert_eq!(bits[0].len(), squeeze_bits);

    // A full-width request yields one bit less than the modulus width.
    let (_, bits) = constraint_sponge.squeeze_field_elements_with_sizes(
        &mut cs,
        &params,
        &vec![FieldElementSize::Full],
    );
    assert_eq!(bits[0].len(), 30);
    assert!(cs.is_satisfied());
}

#[test]
fn nine_element_scenario() {
    // Twelve rounds, forward exponent five, rate three, capacity one: nine
    // absorbed elements, one squeezed, must agree across the backends and
    // leave the constraint record satisfiable.
    let params = test_params(29);
    assert_eq!(params.rounds, RESCUE_ROUNDS);
    assert_eq!(params.alpha, TEST_ALPHA);
    assert_eq!(params.rate, 3);
    assert_eq!(params.capacity, 1);

    let inputs = random_elements(31, 9);
    let mut native_sponge = RescueSponge::new(&params);
    native_sponge.absorb(&params, &inputs);
    let native_out = native_sponge.squeeze_native_field_elements(&params, 1);

    let mut cs = ConstraintSystem::new(TEST_MODULUS);
    let mut input_vars: Vec<FpVar> = Vec::new();
    for v in &inputs {
        input_vars.push(cs.new_witness(Some(*v)).unwrap());
    }
    let mut constraint_sponge = RescueSpongeVar::new(&params);
    constraint_sponge.absorb(&mut cs, &params, &input_vars);
    let circuit_out = constraint_sponge.squeeze_field_elements(&mut cs, &params, 1);
    assert_eq!(cs.value(&circuit_out[0]), native_out[0]);
    assert!(cs.is_satisfied());
}

#[test]
fn compress_is_order_sensitive() {
    let params = test_params(37);
    let a: u64 = 123456789;
    let b: u64 = 987654321;
    let ab = TwoToOneCRH::compress(&params, a, b);
    let ba = TwoToOneCRH::compress(&params, b, a);
    assert_ne!(ab, ba);
}

#[test]
fn identical_state_identical_output() {
    let params = test_params(41);
    let inputs = random_elements(43, 7);
    let mut sponge1 = RescueSponge::new(&params);
    let mut sponge2 = RescueSponge::new(&params);
    sponge1.absorb(&params, &inputs);
    sponge2.absorb(&params, &inputs);
    let out1 = sponge1.squeeze_native_field_elements(&params, 5);
    let out2 = sponge2.squeeze_native_field_elements(&params, 5);
    assert_eq!(out1, out2);
}

#[test]
fn mode_boundary_costs_one_permutation() {
    let params = test_params(47);
    let inputs = random_elements(53, 3);
    let more = random_elements(59, 2);

    // A sponge that was squeezing pays one permutation to absorb again.
    let mut crossing = RescueSponge::new(&params);
    crossing.absorb(&params, &inputs);
    let _ = crossing.squeeze_native_field_elements(&params, 1);
    let before = crossing.permutation_calls;
    crossing.absorb(&params, &more);
    assert_eq!(crossing.permutation_calls - before, 1);

    // The same input absorbed in phase costs none.
    let mut fresh = RescueSponge::new(&params);
    fresh.absorb(&params, &more);
    assert_eq!(fresh.permutation_calls, 0);
}

#[test]
fn test_rescue() {
    // Prove knowledge of a hash preimage: the laid-down relation is
    // satisfied exactly for the genuine image, and construction fails
    // exactly when a required value is absent.
    let params = test_params(89);
    let input = random_elements(97, 9);
    let expected_image = CRH::evaluate(&params, &input);

    let mut cs = ConstraintSystem::new(TEST_MODULUS);
    let demo = RescueDemo {
        input: Some(input.clone()),
        image: Some(expected_image),
        config: test_params(89),
        num_instances: 3,
    };
    assert!(demo.generate_constraints(&mut cs).is_ok());
    assert!(cs.is_satisfied());

    let mut cs_bad = ConstraintSystem::new(TEST_MODULUS);
    let wrong = RescueDemo {
        input: Some(input.clone()),
        image: Some((expected_image + 1) % TEST_MODULUS),
        config: test_params(89),
        num_instances: 3,
    };
    assert!(wrong.generate_constraints(&mut cs_bad).is_ok());
    assert!(!cs_bad.is_satisfied());

    let mut cs_missing = ConstraintSystem::new(TEST_MODULUS);
    let missing = RescueDemo {
        input: None,
        image: Some(expected_image),
        config: test_params(89),
        num_instances: 1,
    };
    assert!(missing.generate_constraints(&mut cs_missing).is_err());
}
