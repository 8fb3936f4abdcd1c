//! Synthetic measurements: the load of the benchmark and the injected anomaly.
use crate::detector;
use crate::detector::{AnomalyDetector, Window};
use crate::double::{Datum, Double};
use crate::fold;
use crate::ladder;
use crate::laws;
use crate::types;
use crate::types::{
    Decision, DetectorStats, HardwareProfile, Operation, Precision, RawMeasurement,
    Report, ALL_OPERATIONS,
};
use vstd::prelude::*;

verus! {

/// The number of measurements in the benchmark.
pub const BENCHMARK_SIZE: u64 = 10000;

/// The operation of a measurement in the benchmark: all in turn.
pub open spec fn benchmark_operation(i: nat) -> Operation {
    ALL_OPERATIONS@[(i % 4) as int]
}

/// The cycles of a thousand operations at the baseline of an operation.
pub open spec fn thousandfold(p: HardwareProfile, op: Operation) -> nat {
    p.baseline(op, op.own_precision()).times(Datum::whole(1000)).truncated()
}

/// A measurement of the benchmark: a thousand operations near their baseline.
pub open spec fn benchmark_measurement(p: HardwareProfile, i: nat) -> RawMeasurement {
    let op = benchmark_operation(i);
    RawMeasurement {
        timestamp_ns: (i * 1_000_000) as u64,
        operation: op,
        cycles: (thousandfold(p, op) + i % 10) as u64,
        precision: op.own_precision(),
        value: 1000,
        op_count: 1000,
        temp_mc: None,
    }
}

/// The measurements of the benchmark, or `None` where their cycles are beyond the
/// range of `u64`.
pub fn benchmark_load(profile: &HardwareProfile) -> (r: Option<Vec<RawMeasurement>>)
    ensures
        match r {
            Some(v) => {
                &&& v.len() == BENCHMARK_SIZE
                &&& forall|i: int|
                    0 <= i < v.len() ==> #[trigger] v@[i] == benchmark_measurement(
                        *profile,
                        i as nat,
                    )
                &&& forall|i: int|
                    0 <= i < BENCHMARK_SIZE ==> thousandfold(
                        *profile,
                        #[trigger] benchmark_operation(i as nat),
                    ) + i % 10 <= u64::MAX
            },
            None => exists|i: int|
                0 <= i < BENCHMARK_SIZE && thousandfold(
                    *profile,
                    #[trigger] benchmark_operation(i as nat),
                ) + i % 10 > u64::MAX,
        },
{
    let mut v: Vec<RawMeasurement> = Vec::new();
    let mut i: u64 = 0;
    while i < BENCHMARK_SIZE
        invariant
            i <= BENCHMARK_SIZE,
            v.len() == i,
            forall|j: int|
                0 <= j < i ==> #[trigger] v@[j] == benchmark_measurement(*profile, j as nat),
            forall|j: int|
                0 <= j < i ==> thousandfold(*profile, #[trigger] benchmark_operation(j as nat)) + j
                    % 10 <= u64::MAX,
        decreases BENCHMARK_SIZE - i,
    {
        let op = ALL_OPERATIONS[(i % 4) as usize];
        let prec = op.default_precision();
        let cycles = profile.get_baseline_cycles(op, prec).times(Double::whole(1000)).truncated();
        assert(op == benchmark_operation(i as nat));
        assert(cycles == thousandfold(*profile, benchmark_operation(i as nat)));
        if cycles > u64::MAX - i % 10 {
            proof {
                let k = i as int;
                assert(thousandfold(*profile, benchmark_operation(k as nat)) + k % 10 > u64::MAX);
            }
            return None;
        }
        v.push(
            RawMeasurement {
                timestamp_ns: i * 1_000_000,
                operation: op,
                cycles: cycles + i % 10,
                precision: prec,
                value: 1000,
                op_count: 1000,
                temp_mc: None,
            },
        );
        i = i + 1;
    }
    Some(v)
}

/// The number of normal measurements before the anomaly is injected.
pub const NORMAL_SAMPLES: u64 = 100;

/// The most anomalous measurements that are injected.
pub const INJECTED_SAMPLES: u64 = 50;

/// Sample `i` of the experiment: a thousand scalar operations, at the baseline to
/// begin with and ten times as slow from sample 100 on.
pub open spec fn experiment_sample(p: HardwareProfile, i: nat) -> RawMeasurement {
    let factor = if i < NORMAL_SAMPLES {
        1000int
    } else {
        10000int
    };
    RawMeasurement {
        timestamp_ns: (i * 1_000_000) as u64,
        operation: Operation::Int32Scalar,
        cycles: p.baseline(Operation::Int32Scalar, Precision::Int32).times(
            Datum::whole(factor),
        ).truncated() as u64,
        precision: Precision::Int32,
        value: 1000,
        op_count: 1000,
        temp_mc: Some(45000),
    }
}

/// The first `n` samples of the experiment.
pub open spec fn experiment(p: HardwareProfile, n: nat) -> Seq<RawMeasurement> {
    Seq::new(n, |i: int| experiment_sample(p, i as nat))
}

/// What came of injecting an anomaly.
#[derive(Debug, Clone, Copy)]
pub struct InjectionReport {
    /// The statistics after the normal measurements.
    pub after_normal: DetectorStats,
    /// The number of the sample that was reported, and its score.
    pub detected: Option<(u64, Double)>,
    /// The statistics at the end.
    pub at_end: DetectorStats,
}

impl InjectionReport {
    /// This reports a run of the experiment: all normal samples, then anomalous ones
    /// up to the first that is reported, or all of them.
    pub open spec fn of_run<E: Fn(Double) -> Double>(
        self,
        p: HardwareProfile,
        exp: E,
        reports: Seq<Option<Report>>,
    ) -> bool {
        let n = reports.len();
        let normal = NORMAL_SAMPLES as nat;
        &&& normal <= n <= normal + INJECTED_SAMPLES
        &&& detector::session(Window::empty(1024), p, exp, experiment(p, n), reports)
        &&& detector::summarizes(
            self.after_normal,
            Window::empty(1024).after(experiment(p, normal), reports.take(normal as int)),
        )
        &&& detector::summarizes(self.at_end, Window::empty(1024).after(experiment(p, n), reports))
        &&& forall|i: int| normal <= i < n - 1 ==> #[trigger] reports[i] is None
        &&& match self.detected {
            Some((sample, score)) => {
                &&& n > normal
                &&& sample == n - 1
                &&& reports.last() matches Some(a) && a.score == score@
            },
            None => n == normal + INJECTED_SAMPLES && reports.last() is None,
        }
    }
}

/// One more sample and the report on it.
proof fn lemma_session_grows<E: Fn(Double) -> Double>(
    p: HardwareProfile,
    exp: E,
    n: nat,
    reports: Seq<Option<Report>>,
    r: Option<Report>,
)
    requires
        detector::session(Window::empty(1024), p, exp, experiment(p, n), reports),
        ({
            let before = Window::empty(1024).after(experiment(p, n), reports);
            detector::detects(
                experiment_sample(p, n),
                p,
                exp,
                before.stored(experiment_sample(p, n), r).fill(),
                false,
                0,
                r,
            )
        }),
    ensures
        detector::session(Window::empty(1024), p, exp, experiment(p, n + 1), reports.push(r)),
        Window::empty(1024).after(experiment(p, n + 1), reports.push(r)) == Window::empty(
            1024,
        ).after(experiment(p, n), reports).stored(experiment_sample(p, n), r),
{
    let all = experiment(p, n + 1);
    let more = reports.push(r);
    assert(all.drop_last() =~= experiment(p, n));
    assert(more.drop_last() =~= reports);
    assert forall|i: int| 0 <= i < all.len() implies detector::detects(
        all[i],
        p,
        exp,
        Window::empty(1024).after(all.take(i + 1), more.take(i + 1)).fill(),
        false,
        0,
        #[trigger] more[i],
    ) by {
        if i < n {
            assert(all.take(i + 1) =~= experiment(p, n).take(i + 1));
            assert(more.take(i + 1) =~= reports.take(i + 1));
            assert(reports[i] == more[i]);
        } else {
            assert(all.take(i + 1) =~= all);
            assert(more.take(i + 1) =~= more);
        }
    }
}

/// Whether the temperature of the samples can be compared with that of the profile.
pub fn is_injectable(profile: &HardwareProfile) -> (r: bool)
    ensures
        r == experiment_sample(*profile, 0).comparable(profile.reference_temp_mc),
{
    match profile.reference_temp_mc {
        Some(reference) => 45000i64.checked_sub(reference).is_some(),
        None => true,
    }
}

/// Feeds a detector normal measurements and then ones that are ten times as slow,
/// until one is reported.
pub fn inject_anomaly<E: Fn(Double) -> Double>(profile: HardwareProfile, exp: &E) -> (r:
    InjectionReport)
    requires
        experiment_sample(profile, 0).comparable(profile.reference_temp_mc),
        forall|x: Double| exp.requires((x,)),
    ensures
        exists|reports: Seq<Option<Report>>| #[trigger] r.of_run(profile, *exp, reports),
{
    let ghost p = profile;
    let baseline = profile.get_baseline_cycles(Operation::Int32Scalar, Precision::Int32);
    let normal_cycles = baseline.times(Double::whole(1000)).truncated();
    let slow_cycles = baseline.times(Double::whole(10000)).truncated();
    let mut detector = AnomalyDetector::new(profile);
    let ghost mut reports: Seq<Option<Report>> = Seq::empty();
    let ghost start = Window::empty(1024);
    assert(experiment(p, 0) =~= Seq::<RawMeasurement>::empty());
    let mut i: u64 = 0;
    while i < NORMAL_SAMPLES
        invariant
            i <= NORMAL_SAMPLES,
            start == Window::empty(1024),
            forall|x: Double| exp.requires((x,)),
            experiment_sample(p, 0).comparable(p.reference_temp_mc),
            normal_cycles == experiment_sample(p, 0).cycles,
            detector@.profile == p,
            detector@.window.valid(),
            detector@.window.capacity == 1024,
            detector@.window.total == i,
            detector::session(Window::empty(1024), p, *exp, experiment(p, i as nat), reports),
            detector@.window == start.after(experiment(p, i as nat), reports),
        decreases NORMAL_SAMPLES - i,
    {
        let m = RawMeasurement {
            timestamp_ns: i * 1_000_000,
            operation: Operation::Int32Scalar,
            cycles: normal_cycles,
            precision: Precision::Int32,
            value: 1000,
            op_count: 1000,
            temp_mc: Some(45000),
        };
        assert(m == experiment_sample(p, i as nat));
        let report = detector.feed(m, exp);
        proof {
            lemma_session_grows(p, *exp, i as nat, reports, types::said(report));
            reports = reports.push(types::said(report));
        }
        i = i + 1;
    }
    let after_normal = detector.stats();
    let ghost early = reports;
    let mut detected: Option<(u64, Double)> = None;
    let ghost normal = NORMAL_SAMPLES as int;
    assert(reports.take(normal) =~= early);
    while i < NORMAL_SAMPLES + INJECTED_SAMPLES && detected.is_none()
        invariant
            NORMAL_SAMPLES <= i <= NORMAL_SAMPLES + INJECTED_SAMPLES,
            start == Window::empty(1024),
            normal == NORMAL_SAMPLES,
            forall|x: Double| exp.requires((x,)),
            experiment_sample(p, 0).comparable(p.reference_temp_mc),
            slow_cycles == experiment_sample(p, 100).cycles,
            detector@.profile == p,
            detector@.window.valid(),
            detector@.window.capacity == 1024,
            detector@.window.total == i,
            early.len() == normal,
            reports.len() == i,
            reports.take(normal) == early,
            detector::session(Window::empty(1024), p, *exp, experiment(p, i as nat), reports),
            detector@.window == start.after(experiment(p, i as nat), reports),
            forall|j: int| normal <= j < i - 1 ==> #[trigger] reports[j] is None,
            match detected {
                Some((sample, score)) => i > NORMAL_SAMPLES && sample == i - 1 && (
                reports.last() matches Some(a) && a.score == score@),
                None => i > NORMAL_SAMPLES ==> reports.last() is None,
            },
        decreases NORMAL_SAMPLES + INJECTED_SAMPLES - i,
    {
        let m = RawMeasurement {
            timestamp_ns: i * 1_000_000,
            operation: Operation::Int32Scalar,
            cycles: slow_cycles,
            precision: Precision::Int32,
            value: 1000,
            op_count: 1000,
            temp_mc: Some(45000),
        };
        assert(m == experiment_sample(p, i as nat));
        let report = detector.feed(m, exp);
        let ghost before = reports;
        proof {
            lemma_session_grows(p, *exp, i as nat, reports, types::said(report));
            reports = reports.push(types::said(report));
            assert(reports.take(normal) =~= before.take(normal));
        }
        if let Some(a) = report {
            detected = Some((i, a.anomaly_score));
        }
        i = i + 1;
    }
    let at_end = detector.stats();
    let r = InjectionReport { after_normal, detected, at_end };
    assert(r.of_run(p, *exp, reports));
    r
}

/// A tenfold slowdown is detected at once: the first injected sample is reported, if
/// there is a baseline and the cycles are within the range of `u64`.
pub proof fn lemma_injection_detected_at_once<E: Fn(Double) -> Double>(
    p: HardwareProfile,
    exp: E,
    r: InjectionReport,
    reports: Seq<Option<Report>>,
)
    requires
        r.of_run(p, exp, reports),
        p.baseline(Operation::Int32Scalar, Precision::Int32).finite(),
        Datum::zero(false).less(p.baseline(Operation::Int32Scalar, Precision::Int32)),
        p.baseline(Operation::Int32Scalar, Precision::Int32).times(Datum::whole(10000)).units()
            <= u64::MAX * ladder::one(),
    ensures
        r.detected matches Some((sample, _)) && sample == NORMAL_SAMPLES,
{
    let n = reports.len();
    let k = NORMAL_SAMPLES as int;
    assert(n > k);
    let m = experiment_sample(p, k as nat);
    assert(experiment(p, n)[k] == m);
    Window::lemma_sliding(1024, experiment(p, n).take(k + 1), reports.take(k + 1));
    laws::lemma_tenfold_is_far_off(m, p);
    assert(detector::detects(m, p, exp, (k + 1) as nat, false, 0, reports[k]));
    let d = choose|d: Decision| #[trigger]
        fold::folds(m, p, exp, d) && reports[k] == detector::report_on(m, p, d, false, 0);
    assert(reports[k] is Some);
}

} // verus!
