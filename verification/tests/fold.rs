use folding_order::double::Double;
use folding_order::fold::{
    fold, fold_single, fold_verbose, stage3_thermal, stage4_utilization, stage5_decide,
    survival_given,
};
use folding_order::table::Table;
use folding_order::types::{
    Decision, HardwareProfile, Operation, Precision, RawMeasurement, ThermalBaseline,
    ThroughputModel, UtilizationFingerprint,
};

fn lib(x: f64) -> Double {
    Double { bits: x.to_bits() }
}

fn native(x: Double) -> f64 {
    f64::from_bits(x.bits)
}

fn exp(x: Double) -> Double {
    lib(native(x).exp())
}

fn test_profile() -> HardwareProfile {
    let mut baseline_cycles = Table::new();
    let mut thermal_coefficients = Table::new();
    let mut utilization_baselines = Table::new();

    baseline_cycles.insert("INT32-SCALAR/i32".into(), lib(5.0));
    thermal_coefficients.insert("INT32-SCALAR/i32".into(), lib(0.001));
    utilization_baselines.insert("INT32-SCALAR/i32".into(), (lib(0.0), lib(0.1)));

    HardwareProfile {
        cpu_model: "Test CPU".into(),
        baseline_cycles,
        thermal_coefficients,
        utilization_baselines,
        reference_temp_mc: Some(45000),
        calibrated_at: "test".into(),
    }
}

fn make_measurement(cycles: u64, op_count: u64) -> RawMeasurement {
    RawMeasurement {
        timestamp_ns: 0,
        operation: Operation::Int32Scalar,
        cycles,
        precision: Precision::Int32,
        value: op_count as i64,
        op_count,
        temp_mc: Some(45000),
    }
}

#[test]
fn test_normal_measurement() {
    let profile = test_profile();
    // Exactly at baseline: 5 cycles/op, 1000 ops at 5000 cycles
    let m = make_measurement(5000, 1000);
    let decision = fold_single(&m, &profile, &exp);
    assert!(!decision.is_anomalous(), "Normal measurement should not be anomalous");
}

#[test]
fn test_anomalous_measurement() {
    let profile = test_profile();
    // 10x slower than baseline: should trigger anomaly
    let m = make_measurement(50000, 1000);
    let decision = fold_single(&m, &profile, &exp);
    assert!(decision.is_anomalous(), "10x slowdown should be anomalous");
}

#[test]
fn test_zero_op_count() {
    let profile = test_profile();
    // op_count=0 should not panic (guarded to 1)
    let m = make_measurement(5000, 0);
    let decision = fold_single(&m, &profile, &exp);
    // Should not crash: that is the test
    let _ = decision.score();
}

#[test]
fn test_fold_batch_consistent() {
    let profile = test_profile();
    let measurements: Vec<_> = (0..100)
        .map(|i| make_measurement(5000 + i % 10, 1000))
        .collect();
    let decisions = fold(&measurements, &profile, &exp);
    assert_eq!(decisions.len(), 100);
    // Small variations around baseline should all be normal
    let anomalies = decisions.iter().filter(|d| d.is_anomalous()).count();
    assert_eq!(anomalies, 0, "Small jitter around baseline should be normal");
}

#[test]
fn test_thermal_correction_no_data() {
    let profile = test_profile();
    // Measurement without temperature data
    let mut m = make_measurement(5000, 1000);
    m.temp_mc = None;
    let decision = fold_single(&m, &profile, &exp);
    // Should still work, just without thermal correction
    assert!(!decision.is_anomalous());
}

#[test]
fn test_thermal_correction_with_data() {
    let mut profile = test_profile();
    // Moderate thermal coefficient
    profile.thermal_coefficients.insert("INT32-SCALAR/i32".into(), lib(0.01));

    // Measurement at baseline cycles but 10 degrees above reference
    // The thermal correction should adjust deviation slightly
    let mut m = make_measurement(5000, 1000);
    m.temp_mc = Some(55000); // 55 degrees against 45 is a difference of 10
    let decision = fold_single(&m, &profile, &exp);
    // 10 * 0.01 = 0.1 adjustment: small, should still be normal
    assert!(!decision.is_anomalous());
}

/// What the stages come to in machine arithmetic.
struct Expected {
    cycles_per_op: f64,
    deviation: f64,
    normalized_deviation: f64,
    anomaly_score: f64,
    confidence: f64,
    z_score: f64,
    anomalous: bool,
}

fn expected(
    m: &RawMeasurement,
    baseline: f64,
    coefficient: f64,
    spread: (f64, f64),
    reference: Option<i64>,
) -> Expected {
    let op_count = if m.op_count == 0 { 1 } else { m.op_count };
    let cycles_per_op = m.cycles as f64 / op_count as f64;
    let expected_opc = if baseline > 0.0 { 1.0 / baseline } else { 1.0 };
    let actual_opc = if cycles_per_op > 0.0 { 1.0 / cycles_per_op } else { 0.0 };
    let deviation = if expected_opc > 0.0 {
        (actual_opc - expected_opc) / expected_opc
    } else {
        0.0
    };
    let adjustment = match (m.temp_mc, reference) {
        (Some(t), Some(r)) => coefficient * ((t - r) as f64 / 1000.0),
        _ => 0.0,
    };
    let normalized_deviation = deviation + adjustment;
    let std_dev = if spread.1 == 0.0 { 0.01 } else { spread.1 };
    let z_score = (normalized_deviation - spread.0) / std_dev;
    let abs_z = z_score.abs();
    let survival = if abs_z > 6.0 {
        0.0
    } else if abs_z > 2.0 {
        let tail = 2.0 * (-abs_z * abs_z / 2.0).exp()
            / (abs_z * std::f64::consts::SQRT_2 * std::f64::consts::SQRT_2);
        tail.clamp(0.0, 1.0 - 2.0 * 0.4775)
    } else {
        1.0 - abs_z * 0.4775
    };
    let anomaly_score = (1.0 - survival).clamp(0.0, 1.0);
    let confidence = (1.0 - 1.0 / (1.0 + abs_z)).clamp(0.0, 1.0);
    Expected {
        cycles_per_op,
        deviation,
        normalized_deviation,
        anomaly_score,
        confidence,
        z_score,
        anomalous: anomaly_score > 0.95 && confidence > 0.8,
    }
}

fn same(x: Double, y: f64) -> bool {
    x.bits == y.to_bits() || (native(x).is_nan() && y.is_nan())
}

#[test]
fn every_stage_is_bit_for_bit_that_of_machine_arithmetic() {
    let mut seen_anomalous = 0;
    let mut seen_tail = 0;
    for (baseline, coefficient, spread) in [
        (5.0, 0.001, (0.0, 0.1)),
        (4.79, 0.01, (0.02, 0.07)),
        (14.88, -0.003, (-0.1, 0.0)),
        (0.0, 0.001, (0.0, 0.1)),
        (-1.0, 0.0, (0.0, -0.25)),
        (1e-320, 1.0, (0.0, 1.0)),
        (f64::INFINITY, f64::NAN, (0.0, 0.1)),
        (f64::NAN, 0.1, (0.0, f64::INFINITY)),
    ] {
        let mut profile = test_profile();
        profile.baseline_cycles.insert("INT32-SCALAR/i32".into(), lib(baseline));
        profile.thermal_coefficients.insert("INT32-SCALAR/i32".into(), lib(coefficient));
        profile
            .utilization_baselines
            .insert("INT32-SCALAR/i32".into(), (lib(spread.0), lib(spread.1)));
        let mut measurements = Vec::new();
        for cycles in [0u64, 1, 2500, 3000, 3300, 4000, 4790, 5000, 5009, 7000, 9000, 50000, u64::MAX] {
            for op_count in [0u64, 1, 1000] {
                for temp_mc in [None, Some(45000), Some(55123), Some(-7)] {
                    let mut m = make_measurement(cycles, op_count);
                    m.temp_mc = temp_mc;
                    measurements.push(m);
                }
            }
        }
        let results = fold_verbose(&measurements, &profile, &exp);
        let decisions = fold(&measurements, &profile, &exp);
        assert_eq!(results.len(), measurements.len());
        for i in 0..measurements.len() {
            let e = expected(&measurements[i], baseline, coefficient, spread, Some(45000));
            let r = &results[i];
            assert!(same(r.cycles_per_op, e.cycles_per_op));
            assert!(same(r.deviation, e.deviation));
            assert!(same(r.normalized_deviation, e.normalized_deviation));
            assert!(same(r.z_score, e.z_score));
            assert!(same(r.anomaly_score, e.anomaly_score));
            assert!(same(r.confidence, e.confidence));
            assert_eq!(r.decision.is_anomalous(), e.anomalous);
            assert_eq!(decisions[i].is_anomalous(), e.anomalous);
            if e.anomalous {
                seen_anomalous += 1;
                assert!(same(decisions[i].score(), e.anomaly_score));
            } else {
                assert_eq!(decisions[i].score().bits, 0);
            }
            if e.z_score.abs() > 2.0 && e.z_score.abs() <= 6.0 {
                seen_tail += 1;
            }
        }
    }
    assert!(seen_anomalous > 0);
    assert!(seen_tail > 0);
}

#[test]
fn within_four_standard_deviations_is_normal() {
    let profile = test_profile();
    // Cycles per op of 5 / 0.6 deviate by -0.4, which is four times 0.1 (and a rounding).
    let m = make_measurement(8333, 1000);
    let r = &fold_verbose(&[m], &profile, &exp)[0];
    assert!(native(r.z_score).abs() <= 4.0);
    assert!(matches!(r.decision, Decision::Normal));
}

#[test]
fn beyond_six_standard_deviations_the_score_is_one() {
    let profile = test_profile();
    let m = make_measurement(50000, 1000);
    let r = &fold_verbose(&[m], &profile, &exp)[0];
    assert!(native(r.z_score) < -6.0);
    assert!(same(r.decision.score(), 1.0));
    assert_eq!(r.decision.label(), "ANOMALOUS(1.0000)");
}

#[test]
fn in_the_tail_a_measurement_is_anomalous_with_less_than_the_full_score() {
    let profile = test_profile();
    let m = make_measurement(10000, 1000);
    let r = &fold_verbose(&[m], &profile, &exp)[0];
    assert!(same(r.z_score, -5.0));
    assert!(r.decision.is_anomalous());
    assert!(native(r.decision.score()) < 1.0);
}

#[test]
fn at_the_baseline_the_score_is_zero() {
    let profile = test_profile();
    let r = &fold_verbose(&[make_measurement(5000, 1000)], &profile, &exp)[0];
    assert!(same(r.anomaly_score, 0.0));
    assert!(same(r.z_score, 0.0));
    assert_eq!(r.decision.label(), "NORMAL");
}

#[test]
fn the_size_of_a_batch_does_not_matter() {
    let profile = test_profile();
    let r = fold_verbose(
        &[make_measurement(6000, 1000), make_measurement(18, 3)],
        &profile,
        &exp,
    );
    assert_eq!(r[0].z_score.bits, r[1].z_score.bits);
    assert_eq!(r[0].cycles_per_op.bits, r[1].cycles_per_op.bits);
}

#[test]
fn the_decision_needs_both_score_and_confidence() {
    let s4 = |score: f64, confidence: f64| UtilizationFingerprint {
        anomaly_score: lib(score),
        precision: Precision::Int32,
        confidence: lib(confidence),
        z_score: lib(0.0),
    };
    assert!(!stage5_decide(&s4(0.95, 0.9)).is_anomalous());
    assert!(!stage5_decide(&s4(0.96, 0.8)).is_anomalous());
    assert!(stage5_decide(&s4(0.96, 0.81)).is_anomalous());
    assert!(!stage5_decide(&s4(f64::NAN, 0.9)).is_anomalous());
}

#[test]
fn confidence_rises_to_one() {
    let mut profile = test_profile();
    profile
        .utilization_baselines
        .insert("INT32-SCALAR/i32".into(), (lib(0.0), lib(1.0)));
    let m = make_measurement(5000, 1000);
    let mut last = 0.0;
    for distance in [0.0, 1e-9, 0.5, 2.0, 4.0, 4.25, 6.0, 100.0, 1e12, 9007199254740992.0] {
        let s3 = ThermalBaseline {
            normalized_deviation: lib(-distance),
            precision: Precision::Int32,
            thermal_coefficient: lib(0.0),
            thermal_adjustment_applied: lib(0.0),
        };
        let s4 = stage4_utilization(&s3, &m, &profile, &exp);
        let confidence = native(s4.confidence);
        assert!(confidence >= last && confidence < 1.0);
        last = confidence;
    }
    for distance in [18014398509481984.0, 1e300, f64::INFINITY] {
        let s3 = ThermalBaseline {
            normalized_deviation: lib(distance),
            precision: Precision::Int32,
            thermal_coefficient: lib(0.0),
            thermal_adjustment_applied: lib(0.0),
        };
        let s4 = stage4_utilization(&s3, &m, &profile, &exp);
        assert!(same(s4.confidence, 1.0));
        assert!(same(s4.anomaly_score, 1.0));
    }
}

#[test]
fn a_larger_deviation_never_scores_lower() {
    let mut profile = test_profile();
    profile
        .utilization_baselines
        .insert("INT32-SCALAR/i32".into(), (lib(0.0), lib(1.0)));
    let m = make_measurement(5000, 1000);
    let mut last = 0.0;
    for i in 0..700 {
        let s3 = ThermalBaseline {
            normalized_deviation: lib(i as f64 / 100.0),
            precision: Precision::Int32,
            thermal_coefficient: lib(0.0),
            thermal_adjustment_applied: lib(0.0),
        };
        let score = native(stage4_utilization(&s3, &m, &profile, &exp).anomaly_score);
        assert!(score >= last, "{}", i);
        last = score;
    }
    assert_eq!(last, 1.0);
}

#[test]
fn a_slowdown_by_heat_is_removed() {
    let mut profile = test_profile();
    profile.thermal_coefficients.insert("INT32-SCALAR/i32".into(), lib(0.01));
    let mut m = make_measurement(5000, 1000);
    m.temp_mc = Some(55000);
    let s2 = ThroughputModel {
        ops_per_cycle: lib(0.18),
        precision: Precision::Int32,
        expected_ops_per_cycle: lib(0.2),
        deviation: lib(-0.1),
    };
    let s3 = stage3_thermal(&s2, &m, &profile);
    assert!(same(s3.thermal_adjustment_applied, 0.1));
    assert!(native(s3.normalized_deviation).abs() < 1e-15);
    // Without a temperature nothing is corrected.
    m.temp_mc = None;
    assert!(same(stage3_thermal(&s2, &m, &profile).normalized_deviation, -0.1));
}

#[test]
fn batches_single_folds_and_verbose_folds_agree() {
    let profile = test_profile();
    let ms: Vec<_> = (0..60).map(|i| make_measurement(2000 + 170 * i, 1000)).collect();
    let all = fold(&ms, &profile, &exp);
    let verbose = fold_verbose(&ms, &profile, &exp);
    let mut parts = fold(&ms[..25], &profile, &exp);
    parts.extend(fold(&ms[25..], &profile, &exp));
    assert_eq!(parts.len(), all.len());
    for i in 0..ms.len() {
        let alone = fold_single(&ms[i], &profile, &exp);
        for d in [&all[i], &verbose[i].decision, &parts[i]] {
            assert_eq!(d.is_anomalous(), alone.is_anomalous());
            assert_eq!(d.score().bits, alone.score().bits);
        }
    }
    assert!(fold(&[], &profile, &exp).is_empty());
}

#[test]
fn survival_takes_the_exponential_that_it_is_given() {
    assert!(same(survival_given(lib(7.0), lib(0.5)), 0.0));
    assert!(same(survival_given(lib(1.0), lib(0.5)), 1.0 - 0.4775));
    let expected = 2.0 * 0.1 / (4.0 * std::f64::consts::SQRT_2 * std::f64::consts::SQRT_2);
    assert!(same(survival_given(lib(4.0), lib(0.1)), expected));
    // The tail starts where the even part ends, and does not fall below zero.
    assert!(same(survival_given(lib(4.0), lib(0.5)), 1.0 - 2.0 * 0.4775));
    assert!(same(survival_given(lib(4.0), lib(-0.5)), 0.0));
    assert!(native(survival_given(lib(4.0), lib(f64::NAN))).is_nan());
}

#[test]
fn unknown_operations_have_defaults() {
    let profile = test_profile();
    let op = Operation::Fp64Norm;
    assert!(same(profile.get_baseline_cycles(op, Precision::Fp64), 1.0));
    assert!(same(profile.get_thermal_coefficient(op, Precision::Fp64), 0.001));
    let (mean, std_dev) = profile.get_utilization_baseline(op, Precision::Fp64);
    assert!(same(mean, 0.0));
    assert!(same(std_dev, 0.1));
    // The same operation in another precision is another entry.
    assert!(same(profile.get_baseline_cycles(Operation::Int32Scalar, Precision::Int8), 1.0));
    assert!(same(profile.get_baseline_cycles(Operation::Int32Scalar, Precision::Int32), 5.0));
}

#[test]
fn temperature_differences_are_in_degrees() {
    let mut m = make_measurement(1, 1);
    assert!(same(m.temp_delta_c(43500).unwrap(), 1.5));
    m.temp_mc = None;
    assert!(m.temp_delta_c(0).is_none());
    m.temp_mc = Some(i64::MIN);
    assert!(!m.is_comparable(Some(1)));
    assert!(m.is_comparable(Some(0)));
    assert!(m.is_comparable(None));
}

#[test]
fn keys_name_operation_and_precision() {
    assert_eq!(
        HardwareProfile::op_key(Operation::EisensteinMultiply, Precision::Eisenstein),
        "EISENSTEIN-MUL/eis"
    );
    let mut keys = Vec::new();
    for op in folding_order::types::ALL_OPERATIONS {
        for prec in [Precision::Int8, Precision::Int32, Precision::Fp64, Precision::Eisenstein] {
            let key = HardwareProfile::op_key(op, prec);
            assert!(!keys.contains(&key));
            keys.push(key);
        }
    }
    assert_eq!(Operation::Int8PackedVnni.default_precision(), Precision::Int8);
    assert_eq!(Operation::Int32Scalar.default_precision(), Precision::Int32);
    assert_eq!(Operation::Fp64Norm.default_precision(), Precision::Fp64);
    assert_eq!(Operation::EisensteinMultiply.default_precision(), Precision::Eisenstein);
}
