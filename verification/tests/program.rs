use folding_order::double::Double;
use folding_order::fold::{fold, fold_verbose};
use folding_order::profile::{epoch_stamp, Benchmark, ThermalDrift};
use folding_order::report::{
    analysis_row, analysis_summary, anomaly_count, anomaly_line, baseline_line, count_anomalies,
    count_decisions, detection_line, status_line, temperature,
};
use folding_order::scenario::{benchmark_load, inject_anomaly, is_injectable};
use folding_order::types::{
    Anomaly, DetectorStats, HardwareProfile, Operation, Precision, RawMeasurement,
};

fn lib(x: f64) -> Double {
    Double { bits: x.to_bits() }
}

fn native(x: Double) -> f64 {
    f64::from_bits(x.bits)
}

fn exp(x: Double) -> Double {
    lib(native(x).exp())
}

fn profile_with(baseline: f64) -> HardwareProfile {
    let mut p = HardwareProfile::blank("CPU".into(), epoch_stamp(0), Some(45000));
    let key = HardwareProfile::op_key(Operation::Int32Scalar, Precision::Int32);
    p.baseline_cycles.insert(key.clone(), lib(baseline));
    p.utilization_baselines.insert(key, (lib(0.0), lib(0.1)));
    p
}

fn measurement(cycles: u64) -> RawMeasurement {
    RawMeasurement {
        timestamp_ns: 0,
        operation: Operation::Int32Scalar,
        cycles,
        precision: Precision::Int32,
        value: 1000,
        op_count: 1000,
        temp_mc: None,
    }
}

#[test]
fn the_benchmark_takes_the_operations_in_turn() {
    let p = profile_with(7.3);
    let load = benchmark_load(&p).unwrap();
    assert_eq!(load.len(), 10000);
    assert_eq!(load[0].operation, Operation::Int8PackedVnni);
    assert_eq!(load[0].cycles, 1000);
    assert_eq!(load[1].operation, Operation::Int32Scalar);
    assert_eq!(load[1].cycles, (7.3f64 * 1000.0) as u64 + 1);
    assert_eq!(load[9999].operation, Operation::EisensteinMultiply);
    assert_eq!(load[9999].cycles, 1009);
    assert_eq!(load[9999].timestamp_ns, 9_999_000_000);
    assert!(load[5].temp_mc.is_none());
    assert_eq!(count_decisions(&fold(&load, &p, &exp)), 0);
    // Cycles beyond the range of the counter
    assert!(benchmark_load(&profile_with(1e300)).is_none());
}

#[test]
fn an_injected_anomaly_is_detected_at_once() {
    for baseline in [1e-9, 0.00015, 0.3, 5.0, 7.3, 1e12] {
        let r = inject_anomaly(profile_with(baseline), &exp);
        assert_eq!(r.after_normal.total_measurements, 100);
        let (sample, _) = r.detected.unwrap();
        if r.after_normal.anomalies_detected == 0 {
            assert_eq!(r.at_end.anomalies_detected, 1);
        }
        assert_eq!(sample, 100);
        assert_eq!(r.at_end.total_measurements, 101);
    }
    let r = inject_anomaly(profile_with(5.0), &exp);
    assert_eq!(r.after_normal.anomalies_detected, 0);
    assert_eq!(r.detected.unwrap().1.bits, 1.0f64.to_bits());
}

#[test]
fn a_slowdown_that_the_counter_cannot_show_is_not_detected() {
    // Ten times the cycles are beyond the counter, which shows less than half more.
    let r = inject_anomaly(profile_with(1.3e16), &exp);
    let native_cycles = (1.3e16f64 * 10000.0) as u64;
    assert_eq!(native_cycles, u64::MAX);
    assert!(r.detected.is_none());
    assert_eq!(r.at_end.total_measurements, 150);
}

#[test]
fn the_experiment_needs_a_comparable_temperature() {
    let mut p = profile_with(5.0);
    assert!(is_injectable(&p));
    p.reference_temp_mc = Some(i64::MIN);
    assert!(!is_injectable(&p));
    p.reference_temp_mc = None;
    assert!(is_injectable(&p));
}

#[test]
fn lines_read_as_the_standard_formatter_writes_them() {
    let stats = DetectorStats {
        total_measurements: 1234,
        anomalies_detected: 5,
        buffer_fill: 1024,
        anomaly_rate: lib(5.0 / 1234.0),
    };
    assert_eq!(
        status_line(Operation::Fp64Norm, &stats),
        format!("[FP64-NORM] {} samples, {} anomalies ({:.2}%)", 1234, 5, 5.0 / 1234.0 * 100.0)
    );
    assert_eq!(
        anomaly_count(&stats, 1),
        format!("{} anomalies ({:.1}%)", 5, 5.0 / 1234.0 * 100.0)
    );
    let a = Anomaly::new(measurement(1), lib(0.98765), 2, "why".into());
    assert_eq!(
        anomaly_line(&a),
        format!("⚠ ANOMALY: INT32-SCALAR score={:.4} — why", 0.98765)
    );
    assert_eq!(baseline_line("K/k", lib(4.785)), format!("  K/k: {:.2} cycles/op", 4.785));
    assert_eq!(temperature(45050), format!("{:.1}°C", 45050f64 / 1000.0));
    assert_eq!(temperature(-500), "-0.5°C");
    assert_eq!(
        detection_line(100, lib(1.0)),
        format!("  ⚠ Detected at sample {}: score={:.4}", 100, 1.0)
    );
}

#[test]
fn analysis_is_tabulated() {
    let p = profile_with(5.0);
    let results = fold_verbose(&[measurement(5000), measurement(50000), measurement(10000)], &p, &exp);
    assert_eq!(count_anomalies(&results), 2);
    assert_eq!(
        analysis_summary(&results),
        format!("Results: {} total, {} anomalies ({:.1}%)", 3, 2, 2.0 / 3.0 * 100.0)
    );
    assert_eq!(analysis_summary(&vec![]), "Results: 0 total, 0 anomalies (0.0%)");
    for r in &results {
        let decision = if r.decision.is_anomalous() {
            format!("ANOMALOUS({:.4})", native(r.decision.score()))
        } else {
            "NORMAL".to_string()
        };
        assert_eq!(
            analysis_row(r),
            format!(
                "{:<20} {:>12.2} {:>10.4} {:>10.4} {:>8.2} {:>8.4} {}",
                "INT32-SCALAR",
                native(r.cycles_per_op),
                native(r.deviation),
                native(r.normalized_deviation),
                native(r.z_score),
                native(r.anomaly_score),
                decision
            )
        );
    }
}

#[test]
fn a_profile_of_four_operations_folds_its_own_load_to_normal() {
    let mut p = HardwareProfile::blank("CPU".into(), epoch_stamp(1), None);
    for (i, op) in folding_order::types::ALL_OPERATIONS.iter().enumerate() {
        let mut b = Benchmark::new();
        for k in 0..20u64 {
            b.record(10000, 40000 + 10000 * i as u64 + k * 100);
        }
        let mut d = ThermalDrift::new();
        d.record(50000, 200000, false);
        d.record(50000, 200000, true);
        d.record(50000, 200100, true);
        p.calibrate(*op, &b, &d, 3);
    }
    let load = benchmark_load(&p).unwrap();
    assert_eq!(count_decisions(&fold(&load, &p, &exp)), 0);
}
