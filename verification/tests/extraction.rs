use rescue_sponge::config::{create_test_rescue_parameter, ConfigError, RescueConfig, TEST_MODULUS};
use rescue_sponge::emitter::{ConstraintSystem, SynthesisError};
use rescue_sponge::extract::FieldElementSize;
use rescue_sponge::field::{fe_add, fe_mul, fe_pow, fe_sub};
use rescue_sponge::native::RescueSponge;

fn next_rand(state: &mut u64) -> u64 {
    *state = state
        .wrapping_mul(6364136223846793005)
        .wrapping_add(1442695040888963407);
    (*state >> 16) % TEST_MODULUS
}

fn test_params(seed: u64) -> RescueConfig {
    let mut state = seed;
    let mut randomness: Vec<u64> = Vec::new();
    for _ in 0..116 {
        randomness.push(next_rand(&mut state));
    }
    create_test_rescue_parameter(&randomness)
}

#[test]
fn field_operations_exact() {
    assert_eq!(fe_add(5, 6, 7), 4);
    assert_eq!(fe_sub(2, 5, 7), 4);
    assert_eq!(fe_mul(3, 5, 7), 1);
    assert_eq!(fe_pow(3, 5, 7), 5);
    assert_eq!(fe_pow(2, 0, 7), 1);
    assert_eq!(fe_pow(0, 9, 7), 0);
    // The configured inverse exponent really inverts the forward one.
    let x: u64 = 873625417;
    let w = fe_pow(x, rescue_sponge::config::TEST_ALPHA_INV, TEST_MODULUS);
    assert_eq!(fe_pow(w, rescue_sponge::config::TEST_ALPHA, TEST_MODULUS), x);
}

#[test]
fn squeeze_bytes_exact_count_and_content() {
    let params = test_params(61);
    let mut sponge = RescueSponge::new(&params);
    let bytes = sponge.squeeze_bytes(&params, 10);
    assert_eq!(bytes.len(), 10);

    // The bytes are the low three bytes of each squeezed element in order:
    // replay the same squeeze on a second sponge.
    let mut replay = RescueSponge::new(&params);
    let elems = replay.squeeze_native_field_elements(&params, 4);
    let mut expected: Vec<u8> = Vec::new();
    for e in &elems {
        expected.push((e & 0xff) as u8);
        expected.push(((e >> 8) & 0xff) as u8);
        expected.push(((e >> 16) & 0xff) as u8);
    }
    expected.truncate(10);
    assert_eq!(bytes, expected);
}

#[test]
fn squeeze_bits_exact_count_and_content() {
    let params = test_params(67);
    let mut sponge = RescueSponge::new(&params);
    let bits = sponge.squeeze_bits(&params, 40);
    assert_eq!(bits.len(), 40);

    let mut replay = RescueSponge::new(&params);
    let elems = replay.squeeze_native_field_elements(&params, 2);
    let mut expected: Vec<bool> = Vec::new();
    for e in &elems {
        for j in 0..30 {
            expected.push((e >> j) & 1 == 1);
        }
    }
    expected.truncate(40);
    assert_eq!(bits, expected);
}

#[test]
fn truncated_sizes_stay_below_bound() {
    let params = test_params(71);
    let mut sponge = RescueSponge::new(&params);
    let sizes = vec![
        FieldElementSize::Truncated(1),
        FieldElementSize::Truncated(8),
        FieldElementSize::Full,
        FieldElementSize::Truncated(20),
    ];
    let out = sponge.squeeze_field_elements_with_sizes(&params, &sizes);
    assert_eq!(out.len(), 4);
    assert!(out[0] < 2);
    assert!(out[1] < 256);
    assert!(out[2] < (1 << 30));
    assert!(out[3] < (1 << 20));
}

#[test]
fn configuration_mismatch_is_rejected() {
    let good = test_params(73);
    // A round-constant table of the wrong length is rejected.
    let mut short_arc = Vec::new();
    for row in &good.arc {
        short_arc.push(row.clone());
    }
    short_arc.pop();
    let r = RescueConfig::new(
        good.rounds,
        good.alpha,
        good.alpha_inv,
        good.mds.clone(),
        short_arc,
        good.rate,
        good.capacity,
        good.output_size,
        good.modulus,
    );
    assert_eq!(r.unwrap_err(), ConfigError::ConfigurationMismatch);

    // The very same data with consistent dimensions is accepted.
    let ok = RescueConfig::new(
        good.rounds,
        good.alpha,
        good.alpha_inv,
        good.mds.clone(),
        good.arc.clone(),
        good.rate,
        good.capacity,
        good.output_size,
        good.modulus,
    );
    assert!(ok.is_ok());
}

#[test]
fn missing_assignment_is_rejected() {
    let mut cs = ConstraintSystem::new(TEST_MODULUS);
    let r = cs.new_witness(None);
    assert_eq!(r.unwrap_err(), SynthesisError::AssignmentMissing);
    let ok = cs.new_witness(Some(42));
    assert!(ok.is_ok());
}

#[test]
fn unsatisfiable_is_reported_by_the_satisfiability_check() {
    let mut cs = ConstraintSystem::new(TEST_MODULUS);
    let a = cs.new_witness(Some(1)).unwrap();
    let b = cs.new_witness(Some(2)).unwrap();
    // Construction never fails; only the satisfiability check reports
    // the contradiction.
    cs.enforce_equal(&a, &b);
    assert!(!cs.is_satisfied());
}

#[test]
fn wrong_inverse_exponent_leaves_constraints_unsatisfied() {
    // With a bogus inverse exponent both backends still compute the same
    // values, but the forward relation asserted of the witnessed inverse
    // no longer holds, so the record is unsatisfiable.
    let good = test_params(79);
    let bad = RescueConfig::new(
        good.rounds,
        good.alpha,
        good.alpha_inv + 1,
        good.mds.clone(),
        good.arc.clone(),
        good.rate,
        good.capacity,
        good.output_size,
        good.modulus,
    )
    .unwrap();

    let inputs = vec![5u64, 6, 7];
    let mut native = RescueSponge::new(&bad);
    native.absorb(&bad, &inputs);
    let native_out = native.squeeze_native_field_elements(&bad, 1);

    let mut cs = ConstraintSystem::new(TEST_MODULUS);
    let mut vars = Vec::new();
    for v in &inputs {
        vars.push(cs.new_witness(Some(*v)).unwrap());
    }
    let mut gadget = rescue_sponge::gadget::RescueSpongeVar::new(&bad);
    gadget.absorb(&mut cs, &bad, &vars);
    let out = gadget.squeeze_field_elements(&mut cs, &bad, 1);
    assert_eq!(cs.value(&out[0]), native_out[0]);
    assert!(!cs.is_satisfied());
}

#[test]
fn gadget_bytes_and_bits_match_native() {
    let params = test_params(83);
    let inputs = vec![17u64, 2147483640, 31337];

    let mut native = RescueSponge::new(&params);
    native.absorb(&params, &inputs);
    let native_bytes = native.squeeze_bytes(&params, 7);
    let native_bits = native.squeeze_bits(&params, 11);

    let mut cs = ConstraintSystem::new(TEST_MODULUS);
    let mut vars = Vec::new();
    for v in &inputs {
        vars.push(cs.new_witness(Some(*v)).unwrap());
    }
    let mut gadget = rescue_sponge::gadget::RescueSpongeVar::new(&params);
    gadget.absorb(&mut cs, &params, &vars);
    let byte_vars = gadget.squeeze_bytes(&mut cs, &params, 7);
    let bit_vars = gadget.squeeze_bits(&mut cs, &params, 11);

    assert_eq!(byte_vars.len(), 7);
    assert_eq!(bit_vars.len(), 11);
    for i in 0..7 {
        assert_eq!(cs.value(&byte_vars[i]), native_bytes[i] as u64);
    }
    for i in 0..11 {
        assert_eq!(cs.value(&bit_vars[i]), if native_bits[i] { 1 } else { 0 });
    }
    assert!(cs.is_satisfied());
}
