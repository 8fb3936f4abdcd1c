use folding_order::detector::{AnomalyDetector, LamportDetector};
use folding_order::double::Double;
use folding_order::table::Table;
use folding_order::types::{
    HardwareProfile, LamportClock, Operation, Precision, RawMeasurement, TileState,
};

fn lib(x: f64) -> Double {
    Double { bits: x.to_bits() }
}

fn native(x: Double) -> f64 {
    f64::from_bits(x.bits)
}

fn exp(x: Double) -> Double {
    lib(native(x).exp())
}

fn test_profile() -> HardwareProfile {
    let mut baseline_cycles = Table::new();
    let mut thermal_coefficients = Table::new();
    let mut utilization_baselines = Table::new();

    baseline_cycles.insert("INT32-SCALAR/i32".into(), lib(5.0));
    thermal_coefficients.insert("INT32-SCALAR/i32".into(), lib(0.001));
    utilization_baselines.insert("INT32-SCALAR/i32".into(), (lib(0.0), lib(0.1)));

    HardwareProfile {
        cpu_model: "Test CPU".into(),
        baseline_cycles,
        thermal_coefficients,
        utilization_baselines,
        reference_temp_mc: Some(45000),
        calibrated_at: "test".into(),
    }
}

fn make_measurement(cycles: u64, op_count: u64) -> RawMeasurement {
    RawMeasurement {
        timestamp_ns: 0,
        operation: Operation::Int32Scalar,
        cycles,
        precision: Precision::Int32,
        value: op_count as i64,
        op_count,
        temp_mc: Some(45000),
    }
}

#[test]
fn test_no_anomaly_on_normal_data() {
    let profile = test_profile();
    let mut detector = AnomalyDetector::new(profile);
    let mut anomalies = 0;

    for i in 0..100 {
        let m = make_measurement(5000 + (i % 10) as u64, 1000);
        if detector.feed(m, &exp).is_some() {
            anomalies += 1;
        }
    }

    assert_eq!(anomalies, 0, "Normal data should produce zero anomalies");
}

#[test]
fn test_detects_anomaly() {
    let profile = test_profile();
    let mut detector = AnomalyDetector::new(profile);

    // Warm up with normal data
    for _ in 0..10 {
        detector.feed(make_measurement(5000, 1000), &exp);
    }

    // Inject 10x slowdown
    let result = detector.feed(make_measurement(50000, 1000), &exp);
    assert!(result.is_some(), "10x slowdown should be detected");
}

#[test]
fn test_ring_buffer_wraps() {
    let profile = test_profile();
    let mut detector = AnomalyDetector::new(profile).with_buffer_size(16);

    for i in 0..100 {
        detector.feed(make_measurement(5000 + (i % 10) as u64, 1000), &exp);
    }

    let stats = detector.stats();
    assert_eq!(stats.buffer_fill, 16);
    assert_eq!(stats.total_measurements, 100);
}

#[test]
fn test_reset_clears_state() {
    let profile = test_profile();
    let mut detector = AnomalyDetector::new(profile);

    for _ in 0..50 {
        detector.feed(make_measurement(5000, 1000), &exp);
    }
    assert!(detector.stats().total_measurements > 0);

    detector.reset();
    let stats = detector.stats();
    assert_eq!(stats.total_measurements, 0);
    assert_eq!(stats.buffer_fill, 0);
    assert_eq!(stats.anomalies_detected, 0);
}

#[test]
fn test_prediction_confirm_matches() {
    let profile = test_profile();
    let detector = AnomalyDetector::new(profile);
    let mut pred = detector.predict(Operation::Int32Scalar, Precision::Int32, None);

    // Feed a normal measurement
    let m = make_measurement(5000, 1000);
    let confirmed = pred.confirm(&m, &detector.profile);
    assert!(confirmed, "Normal measurement should confirm prediction");
    assert!(pred.confirmed);
}

#[test]
fn test_prediction_rejects_outlier() {
    let profile = test_profile();
    let detector = AnomalyDetector::new(profile);
    let mut pred = detector.predict(Operation::Int32Scalar, Precision::Int32, None);

    // Feed a 10x outlier
    let m = make_measurement(50000, 1000);
    let confirmed = pred.confirm(&m, &detector.profile);
    assert!(!confirmed, "10x outlier should fail confirmation");
}

#[test]
fn test_lamport_clock_monotonic() {
    let mut clock = LamportClock::new();
    let t1 = clock.tick();
    let t2 = clock.tick();
    let t3 = clock.tick();
    assert!(t1 < t2);
    assert!(t2 < t3);
}

#[test]
fn test_lamport_clock_merge() {
    let mut clock = LamportClock::new();
    clock.tick();
    clock.tick(); // time = 2
    let merged = clock.merge(5); // max(2,5)+1 = 6
    assert_eq!(merged, 6);
}

#[test]
fn test_tile_lifecycle() {
    let profile = test_profile();
    let mut detector = AnomalyDetector::new(profile);

    // Feed normal data
    for _ in 0..10 {
        detector.feed(make_measurement(5000, 1000), &exp);
    }

    // Feed anomaly
    let anomaly = detector.feed(make_measurement(50000, 1000), &exp);
    assert!(anomaly.is_some());
    let mut a = anomaly.unwrap();
    assert_eq!(a.tile_state, TileState::Active);

    // Retract it (false positive)
    a.retract("false positive");
    assert_eq!(a.tile_state, TileState::Retracted);
    assert!(a.description.contains("RETRACTED"));
}

#[test]
fn test_lamport_detector_prediction() {
    let profile = test_profile();
    let mut ld = LamportDetector::new(profile);

    // Issue prediction
    let pred = ld.predict(Operation::Int32Scalar, Precision::Int32, Some(1000));
    assert_eq!(pred.lamport, 1); // first tick
    assert_eq!(pred.t_minus_event_ns, Some(1000));
    assert!(!pred.confirmed);

    // Feed confirming measurement
    let m = make_measurement(5000, 1000);
    let result = ld.feed_and_confirm(m, &exp);
    assert!(result.is_none()); // no anomaly = good
}

#[test]
fn nothing_is_reported_before_five_measurements() {
    let mut detector = AnomalyDetector::new(test_profile());
    for _ in 0..4 {
        assert!(detector.feed(make_measurement(50000, 1000), &exp).is_none());
    }
    assert!(detector.feed(make_measurement(50000, 1000), &exp).is_some());
    assert_eq!(detector.stats().anomalies_detected, 1);
    assert_eq!(detector.stats().anomaly_rate.bits, (1.0f64 / 5.0).to_bits());
}

#[test]
fn scores_of_reports_lie_above_a_half() {
    let mut detector = AnomalyDetector::new(test_profile());
    let mut reported = 0;
    for cycles in 0..400u64 {
        if let Some(a) = detector.feed(make_measurement(cycles * 50, 1000), &exp) {
            let score = native(a.anomaly_score);
            assert!(score > 0.5 && score <= 1.0);
            reported += 1;
        }
    }
    assert_eq!(detector.stats().anomalies_detected, reported);
    assert!(reported > 0 && reported < 400);
}

#[test]
fn a_report_says_what_was_off() {
    let mut detector = AnomalyDetector::new(test_profile());
    for _ in 0..10 {
        detector.feed(make_measurement(5000, 1000), &exp);
    }
    let a = detector.feed(make_measurement(50000, 1000), &exp).unwrap();
    assert_eq!(
        a.description,
        "Anomaly: raw_dev=900.0%, cpo=50.00 vs baseline=5.00, pipeline_score=1.0000, z_score=0.00, op=Int32Scalar"
    );
    assert_eq!(a.stage, 2);
    assert_eq!(a.anomaly_score.bits, 1.0f64.to_bits());
    assert_eq!(a.lamport, 0);
    assert_eq!(a.measurement.cycles, 50000);
}

#[test]
fn the_pipeline_alone_can_flag_a_measurement() {
    let mut profile = test_profile();
    profile
        .utilization_baselines
        .insert("INT32-SCALAR/i32".into(), (lib(0.0), lib(0.01)));
    let mut detector = AnomalyDetector::new(profile);
    for _ in 0..10 {
        detector.feed(make_measurement(5000, 1000), &exp);
    }
    // A fifth off the baseline: not far, but more than 16 standard deviations.
    let a = detector.feed(make_measurement(6000, 1000), &exp).unwrap();
    assert_eq!(a.stage, 5);
    assert_eq!(
        a.description,
        "Anomaly: raw_dev=20.0%, cpo=6.00 vs baseline=5.00, pipeline_score=1.0000, z_score=0.00, op=Int32Scalar"
    );
}

#[test]
fn a_measurement_without_operations_is_not_far_off() {
    let mut detector = AnomalyDetector::new(test_profile());
    for _ in 0..10 {
        detector.feed(make_measurement(5000, 1000), &exp);
    }
    // 5 cycles for "one" operation fold to the baseline.
    assert!(detector.feed(make_measurement(5, 0), &exp).is_none());
}

#[test]
fn the_window_keeps_the_latest_measurements() {
    let mut detector = AnomalyDetector::new(test_profile()).with_buffer_size(3);
    for i in 0..7u64 {
        let mut m = make_measurement(5000, 1000);
        m.timestamp_ns = i;
        detector.feed(m, &exp);
    }
    let mut kept: Vec<u64> = detector
        .analyze(&exp)
        .iter()
        .map(|(m, _)| m.timestamp_ns)
        .collect();
    kept.sort();
    assert_eq!(kept, vec![4, 5, 6]);
    // Place 0 was overwritten by 3 and then by 6.
    let order: Vec<u64> = detector
        .analyze(&exp)
        .iter()
        .map(|(m, _)| m.timestamp_ns)
        .collect();
    assert_eq!(order, vec![6, 4, 5]);
}

#[test]
fn analysis_pairs_measurements_with_decisions() {
    let mut detector = AnomalyDetector::new(test_profile());
    detector.feed(make_measurement(5000, 1000), &exp);
    detector.feed(make_measurement(50000, 1000), &exp);
    let r = detector.analyze(&exp);
    assert_eq!(r.len(), 2);
    assert!(!r[0].1.is_anomalous());
    assert!(r[1].1.is_anomalous());
    assert_eq!(r[1].0.cycles, 50000);
    assert!(detector.active_anomalies().is_empty());
}

#[test]
fn active_reports_are_listed_while_their_measurements_are_held() {
    let mut detector = AnomalyDetector::new(test_profile()).with_buffer_size(6);
    for i in 0..6u64 {
        let mut m = make_measurement(5000, 1000);
        m.timestamp_ns = i;
        assert!(detector.feed(m, &exp).is_none());
    }
    let mut given = Vec::new();
    for i in 6..9u64 {
        let mut m = make_measurement(50000, 1000);
        m.timestamp_ns = i;
        given.push(detector.feed(m, &exp).unwrap());
    }
    let listed = detector.active_anomalies();
    assert_eq!(listed.len(), 3);
    for (a, b) in listed.iter().zip(&given) {
        assert_eq!(a.tile_state, TileState::Active);
        assert_eq!(a.description, b.description);
        assert_eq!(a.measurement.timestamp_ns, b.measurement.timestamp_ns);
        assert_eq!(a.anomaly_score.bits, b.anomaly_score.bits);
        assert_eq!((a.stage, a.lamport), (b.stage, b.lamport));
    }
    // Five more overwrite all but the last.
    for i in 9..14u64 {
        let mut m = make_measurement(5000, 1000);
        m.timestamp_ns = i;
        detector.feed(m, &exp);
    }
    let times: Vec<u64> = detector
        .active_anomalies()
        .iter()
        .map(|a| a.measurement.timestamp_ns)
        .collect();
    assert_eq!(times, vec![8]);
    detector.reset();
    assert!(detector.active_anomalies().is_empty());
}

#[test]
fn a_stale_report_is_listed_with_its_note() {
    let mut detector = AnomalyDetector::new(test_profile()).with_threshold(lib(1000.0));
    for _ in 0..5 {
        detector.feed(make_measurement(5000, 1000), &exp);
    }
    let mut pred = detector.predict(Operation::Int32Scalar, Precision::Int32, None);
    let (given, _) = detector.feed_and_confirm(make_measurement(50000, 1000), &mut pred, &exp);
    let listed = detector.active_anomalies();
    assert_eq!(listed.len(), 1);
    assert_eq!(listed[0].description, given.unwrap().description);
    assert!(listed[0].description.contains("STALE-PROFILE"));
}

#[test]
fn a_reset_detector_is_a_fresh_one() {
    let mut used = AnomalyDetector::new(test_profile()).with_buffer_size(7).with_threshold(lib(2.0));
    for i in 0..20 {
        used.feed(make_measurement(4000 + 3000 * (i % 3), 1000), &exp);
    }
    used.reset();
    let mut fresh =
        AnomalyDetector::new(test_profile()).with_buffer_size(7).with_threshold(lib(2.0));
    for i in 0..20u64 {
        let m = make_measurement(3000 + 900 * i, 1000);
        let a = used.feed(m, &exp);
        let b = fresh.feed(m, &exp);
        assert_eq!(a.is_some(), b.is_some());
        if let (Some(a), Some(b)) = (a, b) {
            assert!(i >= 4);
            assert_eq!(a.description, b.description);
        }
        let (s, t) = (used.stats(), fresh.stats());
        assert_eq!(s.total_measurements, t.total_measurements);
        assert_eq!(s.anomalies_detected, t.anomalies_detected);
        assert_eq!(s.buffer_fill, t.buffer_fill);
        assert_eq!(s.anomaly_rate.bits, t.anomaly_rate.bits);
        let (x, y) = (used.analyze(&exp), fresh.analyze(&exp));
        assert_eq!(x.len(), y.len());
        for ((m, d), (n, e)) in x.iter().zip(&y) {
            assert_eq!(m.cycles, n.cycles);
            assert_eq!(d.score().bits, e.score().bits);
        }
    }
    let p = used.predict(Operation::Int32Scalar, Precision::Int32, None);
    assert_eq!(p.tolerance_sigma.bits, 2.0f64.to_bits());
}

#[test]
fn a_clocked_detector_reports_as_a_plain_one() {
    let mut plain = AnomalyDetector::new(test_profile());
    let mut ld = LamportDetector::new(test_profile());
    let mut time = 0;
    for i in 0..40u64 {
        if i % 3 == 0 {
            ld.predict(Operation::Int32Scalar, Precision::Int32, None);
            time += 1;
        }
        let m = make_measurement(3000 + 500 * i, 1000);
        let r = ld.feed_and_confirm(m, &exp);
        time += 1;
        let s = plain.feed(m, &exp);
        assert_eq!(r.is_some(), s.is_some());
        if let (Some(r), Some(s)) = (r, s) {
            assert_eq!(r.lamport, time);
            assert_eq!(r.anomaly_score.bits, s.anomaly_score.bits);
            assert_eq!(r.stage, s.stage);
        }
        assert_eq!(ld.stats().total_measurements, plain.stats().total_measurements);
        assert_eq!(ld.stats().anomalies_detected, plain.stats().anomalies_detected);
    }
}

#[test]
fn a_confirmed_prediction_marks_a_report_as_stale() {
    // A wide tolerance confirms what is still far off the baseline.
    let mut detector = AnomalyDetector::new(test_profile()).with_threshold(lib(1000.0));
    for _ in 0..10 {
        detector.feed(make_measurement(5000, 1000), &exp);
    }
    let mut pred = detector.predict(Operation::Int32Scalar, Precision::Int32, None);
    assert_eq!(pred.tolerance_sigma.bits, 1000.0f64.to_bits());
    assert_eq!(pred.expected_cycles_per_op.bits, 5.0f64.to_bits());
    let (anomaly, confirmed) =
        detector.feed_and_confirm(make_measurement(50000, 1000), &mut pred, &exp);
    assert!(confirmed);
    assert_eq!(pred.actual_deviation.unwrap().bits, 9.0f64.to_bits());
    assert!(anomaly.unwrap().description.ends_with(
        "op=Int32Scalar [STALE-PROFILE: prediction confirmed but pipeline flagged anomaly]"
    ));

    // A prediction that fails leaves the report as it is.
    let mut detector = AnomalyDetector::new(test_profile());
    for _ in 0..10 {
        detector.feed(make_measurement(5000, 1000), &exp);
    }
    let mut pred = detector.predict(Operation::Int32Scalar, Precision::Int32, None);
    let (anomaly, confirmed) =
        detector.feed_and_confirm(make_measurement(50000, 1000), &mut pred, &exp);
    assert!(!confirmed);
    assert!(anomaly.unwrap().description.ends_with("op=Int32Scalar"));
}

#[test]
fn predictions_tolerate_three_standard_deviations() {
    let detector = AnomalyDetector::new(test_profile());
    let mut pred = detector.predict(Operation::Int32Scalar, Precision::Int32, None);
    assert!(pred.confirm(&make_measurement(6499, 1000), &detector.profile));
    assert!(!pred.confirm(&make_measurement(6501, 1000), &detector.profile));
    assert!(pred.confirm(&make_measurement(3501, 1000), &detector.profile));
    // Without operations the measurement counts as on target.
    assert!(pred.confirm(&make_measurement(1, 0), &detector.profile));
}

#[test]
fn reports_and_predictions_carry_rising_times() {
    let mut ld = LamportDetector::new(test_profile());
    for _ in 0..5 {
        assert!(ld.feed_and_confirm(make_measurement(5000, 1000), &exp).is_none());
    }
    let p1 = ld.predict(Operation::Int32Scalar, Precision::Int32, None);
    let p2 = ld.predict(Operation::Int32Scalar, Precision::Int32, None);
    assert_eq!(p1.lamport, 6);
    assert_eq!(p2.lamport, 7);
    assert_eq!(ld.merge_clock(20), 21);
    assert_eq!(ld.merge_clock(3), 22);
    let a = ld.feed_and_confirm(make_measurement(50000, 1000), &exp).unwrap();
    assert_eq!(a.lamport, 23);
    assert!(!a.description.contains("STALE"));
    assert_eq!(ld.stats().total_measurements, 6);
    assert_eq!(ld.stats().anomalies_detected, 1);
    assert_eq!(ld.stats().buffer_fill, 6);
}

#[test]
fn retraction_notes_the_reason() {
    let mut detector = AnomalyDetector::new(test_profile());
    for _ in 0..5 {
        detector.feed(make_measurement(50000, 1000), &exp);
    }
    let mut a = detector.feed(make_measurement(50000, 1000), &exp).unwrap();
    let before = a.description.clone();
    a.retract("sensor fault");
    assert_eq!(a.description, format!("{} [RETRACTED: sensor fault]", before));
}
