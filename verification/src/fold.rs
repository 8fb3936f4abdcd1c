//! The five-stage folding pipeline.
//!
//! Each stage strips one layer of confounding variation from a measurement:
//! clock frequency, instruction count, temperature, load. What is left is an
//! anomaly score, and the last stage decides by it.
//!
//! The one function that the pipeline does not compute itself is the
//! exponential. It is handed in as `exp`, and the contracts speak of what `exp`
//! gave for the argument that it was asked for.
use crate::double::{Datum, Double};
use crate::types::{
    CycleNormalized, Decision, HardwareProfile, RawMeasurement, ThermalBaseline, ThroughputModel,
    UtilizationFingerprint,
};
use vstd::prelude::*;

verus! {

/// Cycles per operation; a measurement without operations counts as one.
pub open spec fn cycles_per_op(m: RawMeasurement) -> Datum {
    Datum::whole(m.cycles as int).over(
        Datum::whole(
            if m.op_count == 0 {
                1
            } else {
                m.op_count as int
            },
        ),
    )
}

/// One over `x` where `x` is positive, and `otherwise` where it is not.
pub open spec fn reciprocal_or(x: Datum, otherwise: Datum) -> Datum {
    if Datum::zero(false).less(x) {
        Datum::whole(1).over(x)
    } else {
        otherwise
    }
}

/// Operations per cycle that the profile leads to expect.
pub open spec fn expected_throughput(m: RawMeasurement, p: HardwareProfile) -> Datum {
    reciprocal_or(p.baseline(m.operation, m.precision), Datum::whole(1))
}

/// Operations per cycle for the given cycles per operation.
pub open spec fn actual_throughput(cycles_per_op: Datum) -> Datum {
    reciprocal_or(cycles_per_op, Datum::zero(false))
}

/// The relative deviation of `actual` from `expected`.
pub open spec fn relative_deviation(actual: Datum, expected: Datum) -> Datum {
    if Datum::zero(false).less(expected) {
        actual.minus(expected).over(expected)
    } else {
        Datum::zero(false)
    }
}

/// The slowdown that temperature explains: the calibrated one per degree, for each
/// degree above the reference. None where a temperature is not known.
pub open spec fn thermal_adjustment(m: RawMeasurement, p: HardwareProfile) -> Datum {
    match (m.temp_mc, p.reference_temp_mc) {
        (Some(t), Some(r)) => p.thermal(m.operation, m.precision).times(
            Datum::whole(t - r).over(Datum::whole(1000)),
        ),
        _ => Datum::zero(false),
    }
}

/// How many standard deviations a deviation lies from the calibrated mean. A
/// standard deviation of zero counts as 0.01.
pub open spec fn standard_score(deviation: Datum, spread: (Datum, Datum)) -> Datum {
    let width = if spread.1.equal(Datum::zero(false)) {
        Datum::ratio(1, 100)
    } else {
        spread.1
    };
    deviation.minus(spread.0).over(width)
}

/// The distances at which the tail of the normal distribution is approximated by
/// an exponential: above 2 and up to 6.
pub open spec fn in_tail(distance: Datum) -> bool {
    Datum::whole(2).less(distance) && !Datum::whole(6).less(distance)
}

/// The argument that the exponential is asked for at a distance: -d^2 / 2.
pub open spec fn tail_argument(distance: Datum) -> Datum {
    distance.negated().times(distance).over(Datum::whole(2))
}

/// The survival probability near the mean: it falls evenly, from one at the mean to
/// 0.045 at two standard deviations.
pub open spec fn even_survival(distance: Datum) -> Datum {
    Datum::whole(1).minus(distance.times(Datum::ratio(4775, 10000)))
}

/// The survival probability in the tail, given the exponential of the tail argument.
pub open spec fn tail_survival(distance: Datum, tail: Datum) -> Datum {
    Datum::whole(2).times(tail).over(
        distance.times(Datum::whole(2).root()).times(Datum::whole(2).root()),
    )
}

/// The probability of lying at least this far from the mean, given the
/// exponential of the tail argument. The tail goes on from where the even part ends:
/// it is nowhere above the value there.
pub open spec fn survival(distance: Datum, tail: Datum) -> Datum {
    if Datum::whole(6).less(distance) {
        Datum::zero(false)
    } else if Datum::whole(2).less(distance) {
        tail_survival(distance, tail).clamped(
            Datum::zero(false),
            even_survival(Datum::whole(2)),
        )
    } else {
        even_survival(distance)
    }
}

/// One less the survival probability, within 0 and 1.
pub open spec fn anomaly_score(distance: Datum, tail: Datum) -> Datum {
    Datum::whole(1).minus(survival(distance, tail)).clamped(Datum::zero(false), Datum::whole(1))
}

/// How far a distance is from the decision boundary, within 0 and 1.
pub open spec fn confidence(distance: Datum) -> Datum {
    Datum::whole(1).minus(Datum::whole(1).over(Datum::whole(1).plus(distance))).clamped(
        Datum::zero(false),
        Datum::whole(1),
    )
}

/// A score and a confidence that make a measurement anomalous.
pub open spec fn anomalous(score: Datum, confidence: Datum) -> bool {
    Datum::ratio(95, 100).less(score) && Datum::ratio(8, 10).less(confidence)
}

/// `d` is the decision on a score and a confidence.
pub open spec fn decides(d: Decision, score: Datum, confidence: Datum) -> bool {
    match d {
        Decision::Normal => !anomalous(score, confidence),
        Decision::Anomalous(s) => anomalous(score, confidence) && s@ == score,
    }
}

/// The deviation of a measurement from its expected throughput.
pub open spec fn deviation_of(m: RawMeasurement, p: HardwareProfile) -> Datum {
    relative_deviation(actual_throughput(cycles_per_op(m)), expected_throughput(m, p))
}

/// The deviation that temperature does not explain: a slowdown by heat lowers the
/// throughput, so that what it explains is added back.
pub open spec fn normalized_deviation_of(m: RawMeasurement, p: HardwareProfile) -> Datum {
    deviation_of(m, p).plus(thermal_adjustment(m, p))
}

/// The standard score of a measurement.
pub open spec fn z_score_of(m: RawMeasurement, p: HardwareProfile) -> Datum {
    standard_score(normalized_deviation_of(m, p), p.spread(m.operation, m.precision))
}

/// `tail` is what `exp` gave for the tail argument at a distance. Outside the tail
/// `exp` is not asked, and `tail` is anything.
pub open spec fn tail_given<E: Fn(Double) -> Double>(exp: E, distance: Datum, tail: Datum) -> bool {
    in_tail(distance) ==> exists|x: Double, y: Double| #[trigger]
        exp.ensures((x,), y) && x@ == tail_argument(distance) && y@ == tail
}

/// `exp` has one result for each argument.
pub open spec fn single_valued<E: Fn(Double) -> Double>(exp: E) -> bool {
    forall|x: Double, y: Double, z: Double|
        #![trigger exp.ensures((x,), y), exp.ensures((x,), z)]
        exp.ensures((x,), y) && exp.ensures((x,), z) ==> y@ == z@
}

/// `exp` gives numbers, and none that are larger for a smaller argument.
pub open spec fn rising<E: Fn(Double) -> Double>(exp: E) -> bool {
    &&& forall|x: Double, y: Double| #[trigger] exp.ensures((x,), y) && x@ is Signed ==> y@ is Signed
    &&& forall|x: Double, y: Double, u: Double, v: Double|
        #![trigger exp.ensures((x,), y), exp.ensures((u,), v)]
        exp.ensures((x,), y) && exp.ensures((u,), v) && x@ is Signed && u@ is Signed && !u@.less(x@)
            ==> !v@.less(y@)
}

/// `d` is the decision that the pipeline comes to.
pub open spec fn folds<E: Fn(Double) -> Double>(
    m: RawMeasurement,
    p: HardwareProfile,
    exp: E,
    d: Decision,
) -> bool {
    let distance = z_score_of(m, p).absolute();
    exists|tail: Datum| #[trigger]
        tail_given(exp, distance, tail) && decides(
            d,
            anomaly_score(distance, tail),
            confidence(distance),
        )
}

/// Stage 1: cycles per operation.
pub fn stage1_normalize(m: &RawMeasurement) -> (r: CycleNormalized)
    ensures
        r.cycles_per_op@ == cycles_per_op(*m),
        r.operation == m.operation,
        r.precision == m.precision,
{
    let op_count: u64 = if m.op_count == 0 {
        1
    } else {
        m.op_count
    };
    CycleNormalized {
        cycles_per_op: Double::whole(m.cycles).over(Double::whole(op_count)),
        operation: m.operation,
        precision: m.precision,
    }
}

/// Stage 2: the relative deviation from the expected throughput.
pub fn stage2_throughput(s1: &CycleNormalized, m: &RawMeasurement, profile: &HardwareProfile) -> (r:
    ThroughputModel)
    ensures
        r.ops_per_cycle@ == actual_throughput(s1.cycles_per_op@),
        r.expected_ops_per_cycle@ == expected_throughput(*m, *profile),
        r.deviation@ == relative_deviation(r.ops_per_cycle@, r.expected_ops_per_cycle@),
        r.precision == s1.precision,
{
    let zero = Double { bits: 0 };
    let one = Double::whole(1);
    let baseline = profile.get_baseline_cycles(m.operation, m.precision);
    let expected = if zero.less(baseline) {
        one.over(baseline)
    } else {
        one
    };
    let actual = if zero.less(s1.cycles_per_op) {
        one.over(s1.cycles_per_op)
    } else {
        zero
    };
    let deviation = if zero.less(expected) {
        actual.minus(expected).over(expected)
    } else {
        zero
    };
    ThroughputModel {
        ops_per_cycle: actual,
        precision: s1.precision,
        expected_ops_per_cycle: expected,
        deviation,
    }
}

/// Stage 3: the deviation without the slowdown that temperature explains.
pub fn stage3_thermal(s2: &ThroughputModel, m: &RawMeasurement, profile: &HardwareProfile) -> (r:
    ThermalBaseline)
    requires
        m.comparable(profile.reference_temp_mc),
    ensures
        r.thermal_coefficient@ == profile.thermal(m.operation, m.precision),
        r.thermal_adjustment_applied@ == thermal_adjustment(*m, *profile),
        r.normalized_deviation@ == s2.deviation@.plus(thermal_adjustment(*m, *profile)),
        r.precision == s2.precision,
{
    let coefficient = profile.get_thermal_coefficient(m.operation, m.precision);
    let adjustment = match (m.temp_mc, profile.reference_temp_mc) {
        (Some(temp), Some(reference)) => {
            let delta_c = Double::whole_signed(temp - reference).over(Double::whole(1000));
            coefficient.times(delta_c)
        },
        _ => Double { bits: 0 },
    };
    ThermalBaseline {
        normalized_deviation: s2.deviation.plus(adjustment),
        precision: s2.precision,
        thermal_coefficient: coefficient,
        thermal_adjustment_applied: adjustment,
    }
}

/// The probability of lying at least this far from the mean, given the
/// exponential of the tail argument.
pub fn survival_given(distance: Double, tail: Double) -> (r: Double)
    ensures
        r@ == survival(distance@, tail@),
{
    let zero = Double { bits: 0 };
    let two = Double::whole(2);
    if Double::whole(6).less(distance) {
        zero
    } else if two.less(distance) {
        let joint = even_survival_at(two);
        two.times(tail).over(distance.times(two.root()).times(two.root())).clamped(zero, joint)
    } else {
        even_survival_at(distance)
    }
}

/// The survival probability near the mean.
fn even_survival_at(distance: Double) -> (r: Double)
    ensures
        r@ == even_survival(distance@),
{
    Double::whole(1).minus(distance.times(Double::ratio(4775, 10000)))
}

/// The exponential of the tail argument, where the distance lies in the tail.
fn tail_of<E: Fn(Double) -> Double>(distance: Double, exp: &E) -> (tail: Double)
    requires
        forall|x: Double| exp.requires((x,)),
    ensures
        tail_given(*exp, distance@, tail@),
{
    let two = Double::whole(2);
    if two.less(distance) && !Double::whole(6).less(distance) {
        exp(distance.negate().times(distance).over(two))
    } else {
        Double { bits: 0 }
    }
}

/// Stage 4: the anomaly score, by how unlikely the deviation is under the
/// calibrated distribution.
pub fn stage4_utilization<E: Fn(Double) -> Double>(
    s3: &ThermalBaseline,
    m: &RawMeasurement,
    profile: &HardwareProfile,
    exp: &E,
) -> (r: UtilizationFingerprint)
    requires
        forall|x: Double| exp.requires((x,)),
    ensures
        r.z_score@ == standard_score(
            s3.normalized_deviation@,
            profile.spread(m.operation, m.precision),
        ),
        exists|tail: Datum| #[trigger]
            tail_given(*exp, r.z_score@.absolute(), tail) && r.anomaly_score@ == anomaly_score(
                r.z_score@.absolute(),
                tail,
            ),
        r.confidence@ == confidence(r.z_score@.absolute()),
        r.precision == s3.precision,
{
    let zero = Double { bits: 0 };
    let one = Double::whole(1);
    let (mean, std_dev) = profile.get_utilization_baseline(m.operation, m.precision);
    let width = if std_dev.equal(zero) {
        Double::ratio(1, 100)
    } else {
        std_dev
    };
    let z_score = s3.normalized_deviation.minus(mean).over(width);
    let distance = z_score.abs();
    let tail = tail_of(distance, exp);
    let anomaly_score = one.minus(survival_given(distance, tail)).clamped(zero, one);
    let confidence = one.minus(one.over(one.plus(distance))).clamped(zero, one);
    UtilizationFingerprint { anomaly_score, precision: s3.precision, confidence, z_score }
}

/// Stage 5: the decision.
pub fn stage5_decide(s4: &UtilizationFingerprint) -> (d: Decision)
    ensures
        decides(d, s4.anomaly_score@, s4.confidence@),
{
    if Double::ratio(95, 100).less(s4.anomaly_score) && Double::ratio(8, 10).less(s4.confidence) {
        Decision::Anomalous(s4.anomaly_score)
    } else {
        Decision::Normal
    }
}

/// Takes one measurement through all five stages.
pub fn fold_single<E: Fn(Double) -> Double>(
    m: &RawMeasurement,
    profile: &HardwareProfile,
    exp: &E,
) -> (d: Decision)
    requires
        m.comparable(profile.reference_temp_mc),
        forall|x: Double| exp.requires((x,)),
    ensures
        folds(*m, *profile, *exp, d),
{
    let stage1 = stage1_normalize(m);
    let stage2 = stage2_throughput(&stage1, m, profile);
    let stage3 = stage3_thermal(&stage2, m, profile);
    let stage4 = stage4_utilization(&stage3, m, profile, exp);
    stage5_decide(&stage4)
}

/// All of `measurements` can be compared with the reference temperature.
pub open spec fn all_comparable(measurements: Seq<RawMeasurement>, p: HardwareProfile) -> bool {
    forall|i: int|
        0 <= i < measurements.len() ==> (#[trigger] measurements[i]).comparable(p.reference_temp_mc)
}

/// `decisions` are the decisions on `measurements`, one by one.
pub open spec fn folds_all<E: Fn(Double) -> Double>(
    measurements: Seq<RawMeasurement>,
    p: HardwareProfile,
    exp: E,
    decisions: Seq<Decision>,
) -> bool {
    &&& decisions.len() == measurements.len()
    &&& forall|i: int|
        0 <= i < decisions.len() ==> folds(measurements[i], p, exp, #[trigger] decisions[i])
}

/// Takes measurements through the pipeline, one by one.
pub fn fold<E: Fn(Double) -> Double>(
    measurements: &[RawMeasurement],
    profile: &HardwareProfile,
    exp: &E,
) -> (r: Vec<Decision>)
    requires
        all_comparable(measurements@, *profile),
        forall|x: Double| exp.requires((x,)),
    ensures
        folds_all(measurements@, *profile, *exp, r@),
{
    let mut r: Vec<Decision> = Vec::new();
    let mut i: usize = 0;
    while i < measurements.len()
        invariant
            i <= measurements.len(),
            r.len() == i,
            all_comparable(measurements@, *profile),
            forall|x: Double| exp.requires((x,)),
            forall|j: int| 0 <= j < i ==> folds(measurements@[j], *profile, *exp, #[trigger] r@[j]),
        decreases measurements.len() - i,
    {
        r.push(fold_single(&measurements[i], profile, exp));
        i = i + 1;
    }
    r
}

/// What each stage made of a measurement.
#[derive(Debug, Clone, Copy)]
pub struct VerboseFoldResult {
    pub measurement: RawMeasurement,
    pub cycles_per_op: Double,
    pub deviation: Double,
    pub normalized_deviation: Double,
    pub anomaly_score: Double,
    pub confidence: Double,
    pub z_score: Double,
    pub decision: Decision,
}

impl VerboseFoldResult {
    /// This records what the pipeline made of `m`.
    pub open spec fn records<E: Fn(Double) -> Double>(
        self,
        m: RawMeasurement,
        p: HardwareProfile,
        exp: E,
    ) -> bool {
        let distance = self.z_score@.absolute();
        &&& self.measurement == m
        &&& self.cycles_per_op@ == cycles_per_op(m)
        &&& self.deviation@ == deviation_of(m, p)
        &&& self.normalized_deviation@ == normalized_deviation_of(m, p)
        &&& self.z_score@ == z_score_of(m, p)
        &&& exists|tail: Datum| #[trigger]
            tail_given(exp, distance, tail) && self.anomaly_score@ == anomaly_score(distance, tail)
        &&& self.confidence@ == confidence(distance)
        &&& decides(self.decision, self.anomaly_score@, self.confidence@)
    }
}

/// `results` records what the pipeline made of `measurements`, one by one.
pub open spec fn records_all<E: Fn(Double) -> Double>(
    measurements: Seq<RawMeasurement>,
    p: HardwareProfile,
    exp: E,
    results: Seq<VerboseFoldResult>,
) -> bool {
    &&& results.len() == measurements.len()
    &&& forall|i: int|
        0 <= i < results.len() ==> (#[trigger] results[i]).records(measurements[i], p, exp)
}

/// Takes measurements through the pipeline and keeps what each stage made of them.
pub fn fold_verbose<E: Fn(Double) -> Double>(
    measurements: &[RawMeasurement],
    profile: &HardwareProfile,
    exp: &E,
) -> (r: Vec<VerboseFoldResult>)
    requires
        all_comparable(measurements@, *profile),
        forall|x: Double| exp.requires((x,)),
    ensures
        records_all(measurements@, *profile, *exp, r@),
{
    let mut r: Vec<VerboseFoldResult> = Vec::new();
    let mut i: usize = 0;
    while i < measurements.len()
        invariant
            i <= measurements.len(),
            r.len() == i,
            all_comparable(measurements@, *profile),
            forall|x: Double| exp.requires((x,)),
            forall|j: int|
                0 <= j < i ==> (#[trigger] r@[j]).records(measurements@[j], *profile, *exp),
        decreases measurements.len() - i,
    {
        let m = &measurements[i];
        let s1 = stage1_normalize(m);
        let s2 = stage2_throughput(&s1, m, profile);
        let s3 = stage3_thermal(&s2, m, profile);
        let s4 = stage4_utilization(&s3, m, profile, exp);
        let decision = stage5_decide(&s4);
        r.push(
            VerboseFoldResult {
                measurement: *m,
                cycles_per_op: s1.cycles_per_op,
                deviation: s2.deviation,
                normalized_deviation: s3.normalized_deviation,
                anomaly_score: s4.anomaly_score,
                confidence: s4.confidence,
                z_score: s4.z_score,
                decision,
            },
        );
        i = i + 1;
    }
    r
}

/// The decision kept in a verbose result is one that the pipeline comes to.
pub proof fn lemma_verbose_agrees<E: Fn(Double) -> Double>(
    result: VerboseFoldResult,
    m: RawMeasurement,
    p: HardwareProfile,
    exp: E,
)
    requires
        result.records(m, p, exp),
    ensures
        folds(m, p, exp, result.decision),
{
}

} // verus!
