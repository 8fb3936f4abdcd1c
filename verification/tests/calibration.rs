use folding_order::batches::{
    eisenstein_multiply, run_eisenstein_batch, run_int32_batch, run_int8_batch,
};
use folding_order::double::Double;
use folding_order::profile::{epoch_stamp, Benchmark, ThermalDrift};
use folding_order::readings::{cpu_model, first_temperature, parse_temperature};
use folding_order::types::{HardwareProfile, Operation, Precision};

fn native(x: Double) -> f64 {
    f64::from_bits(x.bits)
}

#[test]
fn loads_end_where_wrapping_arithmetic_ends() {
    for n in [0u64, 1, 2, 3, 255, 256, 1000, 5000] {
        let mut acc8: i8 = 0;
        let mut acc32: i32 = 0;
        for i in 0..n {
            acc8 = acc8.wrapping_add((i & 0xFF) as i8);
            acc8 = acc8.wrapping_mul(3i8);
            acc32 = acc32.wrapping_add(i as i32);
            acc32 = acc32.wrapping_mul(7);
        }
        assert_eq!(run_int8_batch(n), acc8);
        assert_eq!(run_int32_batch(n), acc32);
    }
    assert_eq!(run_int8_batch(3), 15);
    assert_eq!(run_eisenstein_batch(0), (1, 1));
    assert_eq!(run_eisenstein_batch(5000), (0, 0));
}

#[test]
fn omega_cubed_is_one() {
    let w2 = eisenstein_multiply(0, 1, 0, 1);
    assert_eq!(w2, (-1, -1));
    assert_eq!(eisenstein_multiply(w2.0, w2.1, 0, 1), (1, 0));
    // (2 + 3w)(4 + 5w) has the product of the norms 7 and 21.
    let (re, im) = eisenstein_multiply(2, 3, 4, 5);
    assert_eq!((re, im), (-7, 7));
    assert_eq!(re * re - re * im + im * im, 7 * 21);
}

#[test]
fn a_benchmark_gives_baseline_and_spread() {
    let mut b = Benchmark::new();
    assert_eq!(native(b.baseline()), 1.0);
    assert_eq!(native(b.utilization().1), 0.01);
    b.record(0, 7);
    assert_eq!(native(b.baseline()), 1.0);
    assert!(b.samples.is_empty());
    b.record(10, 40);
    b.record(10, 60);
    assert_eq!(native(b.baseline()), 107.0 / 20.0);
    let samples = [4.0f64, 6.0];
    let mean = samples.iter().sum::<f64>() / 2.0;
    let variance = samples.iter().map(|s| (s - mean).powi(2)).sum::<f64>() / 2.0;
    let (center, width) = b.utilization();
    assert_eq!(native(center), 0.0);
    assert_eq!(native(width).to_bits(), (variance.sqrt() / mean).to_bits());
    assert_eq!(native(width), 0.2);
}

#[test]
fn spread_is_that_of_machine_arithmetic() {
    let mut b = Benchmark::new();
    let mut samples: Vec<f64> = Vec::new();
    for i in 1..40u64 {
        b.record(i, i * i * 37 % 101);
        samples.push((i * i * 37 % 101) as f64 / i as f64);
    }
    let mean = samples.iter().sum::<f64>() / samples.len() as f64;
    let variance = samples.iter().map(|s| (s - mean).powi(2)).sum::<f64>() / samples.len() as f64;
    assert_eq!(native(b.utilization().1).to_bits(), (variance.sqrt() / mean).to_bits());
}

#[test]
fn equal_samples_have_the_smallest_spread() {
    let mut b = Benchmark::new();
    b.record(10, 50);
    b.record(20, 100);
    assert_eq!(native(b.utilization().1), 0.01);
}

#[test]
fn thermal_drift_compares_the_halves() {
    let mut d = ThermalDrift::new();
    assert_eq!(native(d.coefficient(3)), 0.001);
    d.record(100, 500, false);
    assert_eq!(native(d.coefficient(3)), 0.001);
    // The first batch past the middle closes the first half.
    d.record(100, 500, true);
    assert_eq!(native(d.early.unwrap()), 5.0);
    assert_eq!((d.ops, d.cycles), (0, 0));
    // Nothing in the second half yet: no drift.
    assert_eq!(native(d.coefficient(3)), 0.0);
    d.record(100, 600, true);
    assert_eq!(native(d.coefficient(3)), ((6.0f64 - 5.0) / 5.0).abs() / 3.0);
}

#[test]
fn calibration_files_an_operation() {
    let mut p = HardwareProfile::blank("CPU".into(), epoch_stamp(12), Some(40000));
    assert_eq!(p.calibrated_at, "12s since epoch");
    let mut b = Benchmark::new();
    b.record(10, 40);
    b.record(10, 60);
    let mut d = ThermalDrift::new();
    d.record(1, 5, true);
    d.record(1, 6, true);
    p.calibrate(Operation::Fp64Norm, &b, &d, 3);
    assert_eq!(native(p.get_baseline_cycles(Operation::Fp64Norm, Precision::Fp64)), 5.0);
    assert_eq!(native(p.get_utilization_baseline(Operation::Fp64Norm, Precision::Fp64).1), 0.2);
    assert_eq!(
        native(p.get_thermal_coefficient(Operation::Fp64Norm, Precision::Fp64)),
        ((6.0f64 - 5.0) / 5.0).abs() / 3.0
    );
    assert_eq!(native(p.get_baseline_cycles(Operation::Int32Scalar, Precision::Int32)), 1.0);
    assert_eq!(p.baseline_cycles.len(), 1);
    assert_eq!(p.baseline_cycles.entry(0).0, "FP64-NORM/f64");
    // Filing again replaces.
    p.calibrate(Operation::Fp64Norm, &Benchmark::new(), &d, 3);
    assert_eq!(native(p.get_baseline_cycles(Operation::Fp64Norm, Precision::Fp64)), 1.0);
    assert_eq!(p.baseline_cycles.len(), 1);
    let copy = p.clone();
    assert_eq!(copy.baseline_cycles.entry(0).0, "FP64-NORM/f64");
}

#[test]
fn a_profile_files_every_operation_in_every_table() {
    // The first operation has no batches at all: what is filed is the default.
    let mut runs = vec![(Benchmark::new(), ThermalDrift::new())];
    for i in 1..4u64 {
        let mut b = Benchmark::new();
        b.record(10, 40 + i);
        b.record(10, 60);
        runs.push((b, ThermalDrift::new()));
    }
    let p = HardwareProfile::assemble("CPU".into(), epoch_stamp(1), None, &runs, 3);
    let keys = ["INT8-PACKED-VNNI/i8", "INT32-SCALAR/i32", "FP64-NORM/f64", "EISENSTEIN-MUL/eis"];
    assert_eq!(p.baseline_cycles.len(), 4);
    assert_eq!(p.thermal_coefficients.len(), 4);
    assert_eq!(p.utilization_baselines.len(), 4);
    for i in 0..4 {
        assert_eq!(p.baseline_cycles.entry(i).0, keys[i]);
        assert_eq!(p.thermal_coefficients.entry(i).0, keys[i]);
        assert_eq!(p.utilization_baselines.entry(i).0, keys[i]);
        assert!(native(p.baseline_cycles.entry(i).1) >= 0.0);
        assert_eq!(native(p.thermal_coefficients.entry(i).1), 0.001);
        let (mean, width) = p.utilization_baselines.entry(i).1;
        assert_eq!(native(mean), 0.0);
        assert!(native(width) > 0.0);
    }
    assert_eq!(native(p.baseline_cycles.entry(0).1), 1.0);
    assert_eq!(native(p.baseline_cycles.entry(3).1), 103.0 / 20.0);
}

#[test]
fn the_cpu_model_is_the_second_field_of_its_line() {
    let listing = "processor\t: 0\nmodel\t\t: 36\nmodel name\t: AMD Ryzen AI 9 HX 370 \nmodel name\t: other\n";
    assert_eq!(cpu_model(listing), "AMD Ryzen AI 9 HX 370");
    assert_eq!(cpu_model(""), "Unknown CPU");
    assert_eq!(cpu_model("model name\nmodel name: late\n"), "Unknown CPU");
    assert_eq!(cpu_model("model name: a : b"), "a");
    assert_eq!(cpu_model("model name:\u{a0}\u{3000}x y\r\n"), "x y");
    assert_eq!(cpu_model("model nam: a\n model name: b\n"), "Unknown CPU");
    assert_eq!(cpu_model("model name:\n"), "");
}

#[test]
fn temperatures_are_whole_numbers() {
    for text in [
        "45000\n", "  -7 ", "+12", "", "+", "-", "4 5", "0x10", "9223372036854775807",
        "9223372036854775808", "-9223372036854775808", "-9223372036854775809",
        "000000000000000000000000000000012", "99999999999999999999999999999999999999999", "١",
    ] {
        assert_eq!(parse_temperature(text), text.trim().parse::<i64>().ok(), "{}", text);
    }
    assert_eq!(parse_temperature("45000\n"), Some(45000));
}

#[test]
fn the_first_sensor_with_a_temperature_counts() {
    let zones = vec![None, Some("n/a".to_string()), Some("41000\n".to_string()), Some("5".to_string())];
    assert_eq!(first_temperature(&zones), Some(41000));
    assert_eq!(first_temperature(&vec![None]), None);
    assert_eq!(first_temperature(&vec![]), None);
}
